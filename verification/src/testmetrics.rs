//! Test metrics of a project: its test framework told from its manifests,
//! its test files told from their names and contents, its test cases
//! counted line by line, and where its coverage figure is read from.
use vstd::prelude::*;
use crate::paths::{name_at, path_file_name, plain_name};
use crate::text::{
    chars_of, contains, contains_seq, ends_with, find_from, has_prefix, has_suffix, lines,
    lines_from, next_line, starts_with, str_eq, string_of_range, trim, trimmed,
};

verus! {

/// The test framework the manifests of a project point to: `pytest` where
/// `pyproject.toml` mentions it, `cargo test` where there is a
/// `Cargo.toml`, `vitest` or `jest` where `package.json` mentions them,
/// and where a `deno.json` (or else `deno.jsonc`) is read, `vitest` if it
/// mentions it and `deno test` otherwise; `none` where nothing matches.
/// Each manifest is given by its text where it exists and could be read.
pub open spec fn spec_detect_framework(
    pyproject: Option<Seq<char>>,
    has_cargo: bool,
    package: Option<Seq<char>>,
    deno_json: Option<Seq<char>>,
    deno_jsonc: Option<Seq<char>>,
) -> Seq<char> {
    if pyproject matches Some(c) && contains_seq(c, "pytest"@) {
        "pytest"@
    } else if has_cargo {
        "cargo test"@
    } else if package matches Some(c) && contains_seq(c, "vitest"@) {
        "vitest"@
    } else if package matches Some(c) && contains_seq(c, "jest"@) {
        "jest"@
    } else if deno_json is Some {
        if contains_seq(deno_json->0, "vitest"@) {
            "vitest"@
        } else {
            "deno test"@
        }
    } else if deno_jsonc is Some {
        if contains_seq(deno_jsonc->0, "vitest"@) {
            "vitest"@
        } else {
            "deno test"@
        }
    } else {
        "none"@
    }
}

/// Whether `s` mentions `pat`.
fn mentions(s: &str, pat: &str) -> (r: bool)
    ensures
        r == contains_seq(s@, pat@),
{
    let v = chars_of(s);
    let p = chars_of(pat);
    contains(v.as_slice(), p.as_slice())
}

/// Tells a project's test framework from its manifests.
pub fn detect_framework(
    pyproject: Option<&str>,
    has_cargo: bool,
    package: Option<&str>,
    deno_json: Option<&str>,
    deno_jsonc: Option<&str>,
) -> (r: String)
    ensures
        r@ == spec_detect_framework(
            crate::text::opt_view(pyproject),
            has_cargo,
            crate::text::opt_view(package),
            crate::text::opt_view(deno_json),
            crate::text::opt_view(deno_jsonc),
        ),
{
    match pyproject {
        Some(c) => {
            if mentions(c, "pytest") {
                return "pytest".to_string();
            }
        },
        None => {},
    }
    if has_cargo {
        return "cargo test".to_string();
    }
    match package {
        Some(c) => {
            if mentions(c, "vitest") {
                return "vitest".to_string();
            }
            if mentions(c, "jest") {
                return "jest".to_string();
            }
        },
        None => {},
    }
    match deno_json {
        Some(c) => {
            if mentions(c, "vitest") {
                return "vitest".to_string();
            }
            return "deno test".to_string();
        },
        None => {},
    }
    match deno_jsonc {
        Some(c) => {
            if mentions(c, "vitest") {
                return "vitest".to_string();
            }
            return "deno test".to_string();
        },
        None => {},
    }
    "none".to_string()
}

/// The directories that the search for test files does not enter.
pub open spec fn spec_is_excluded_dir(name: Seq<char>) -> bool {
    ||| name == "node_modules"@
    ||| name == "target"@
    ||| name == ".venv"@
    ||| name == "__pycache__"@
    ||| name == ".git"@
    ||| name == "dist"@
    ||| name == ".tox"@
}

/// Whether the search for test files leaves out a directory of this name.
pub fn is_excluded_dir(name: &str) -> (r: bool)
    ensures
        r == spec_is_excluded_dir(name@),
{
    str_eq(name, "node_modules") || str_eq(name, "target") || str_eq(name, ".venv") || str_eq(
        name,
        "__pycache__",
    ) || str_eq(name, ".git") || str_eq(name, "dist") || str_eq(name, ".tox")
}

/// Whether a file of this name holds tests under the framework: for
/// pytest `test_*.py` and `*_test.py`; for vitest and jest names holding
/// `.test.` or `.spec.`; for deno `*_test.ts`, `*_test.js`, `*_test.mjs` and
/// names holding `.test.`; for cargo every file whose extension is `rs`
/// (its contents decide); for any other framework none.
pub open spec fn spec_is_test_name(name: Seq<char>, framework: Seq<char>) -> bool {
    if framework == "pytest"@ {
        (starts_with(name, "test_"@) && ends_with(name, ".py"@)) || ends_with(name, "_test.py"@)
    } else if framework == "vitest"@ || framework == "jest"@ {
        contains_seq(name, ".test."@) || contains_seq(name, ".spec."@)
    } else if framework == "deno test"@ {
        ||| ends_with(name, "_test.ts"@)
        ||| ends_with(name, "_test.js"@)
        ||| ends_with(name, "_test.mjs"@)
        ||| contains_seq(name, ".test."@)
    } else if framework == "cargo test"@ {
        ends_with(name, ".rs"@) && name.len() > 3
    } else {
        false
    }
}

/// Whether `s` starts with `pat`.
fn begins(s: &[char], pat: &str) -> (r: bool)
    ensures
        r == starts_with(s@, pat@),
{
    let p = chars_of(pat);
    has_prefix(s, p.as_slice())
}

/// Whether `s` ends with `pat`.
fn finishes(s: &[char], pat: &str) -> (r: bool)
    ensures
        r == ends_with(s@, pat@),
{
    let p = chars_of(pat);
    has_suffix(s, p.as_slice())
}

/// Whether `s` holds `pat`.
fn holds(s: &[char], pat: &str) -> (r: bool)
    ensures
        r == contains_seq(s@, pat@),
{
    let p = chars_of(pat);
    contains(s, p.as_slice())
}

/// Whether a file of this name holds tests under the framework.
pub fn is_test_file_name(name: &str, framework: &str) -> (r: bool)
    ensures
        r == spec_is_test_name(name@, framework@),
{
    let n = chars_of(name);
    let s = n.as_slice();
    if str_eq(framework, "pytest") {
        (begins(s, "test_") && finishes(s, ".py")) || finishes(s, "_test.py")
    } else if str_eq(framework, "vitest") || str_eq(framework, "jest") {
        holds(s, ".test.") || holds(s, ".spec.")
    } else if str_eq(framework, "deno test") {
        finishes(s, "_test.ts") || finishes(s, "_test.js") || finishes(s, "_test.mjs") || holds(
            s,
            ".test.",
        )
    } else if str_eq(framework, "cargo test") {
        finishes(s, ".rs") && n.len() > 3
    } else {
        false
    }
}

/// Whether the file at `path` holds tests under the framework, told from
/// its file name (the last component of the path).
pub fn is_test_file(path: &str, framework: &str) -> (r: bool)
    ensures
        r ==> exists|n: Seq<char>| contains_seq(path@, n) && spec_is_test_name(n, framework@),
        plain_name(path@) ==> r == spec_is_test_name(path@, framework@),
        forall|k: int| #[trigger] name_at(path@, k) ==> r == spec_is_test_name(
            path@.skip(k + 1),
            framework@,
        ),
{
    match path_file_name(path) {
        Some(n) => is_test_file_name(n.as_str(), framework),
        None => false,
    }
}

/// Whether a Rust file holds tests: `#[test]`, `#[cfg(test)]`,
/// `#[tokio::test` or `#[rstest`.
pub open spec fn spec_has_rust_tests(content: Seq<char>) -> bool {
    ||| contains_seq(content, "#[test]"@)
    ||| contains_seq(content, "#[cfg(test)]"@)
    ||| contains_seq(content, "#[tokio::test"@)
    ||| contains_seq(content, "#[rstest"@)
}

/// Whether a Rust file holds tests.
pub fn has_rust_tests(content: &str) -> (r: bool)
    ensures
        r == spec_has_rust_tests(content@),
{
    mentions(content, "#[test]") || mentions(content, "#[cfg(test)]") || mentions(
        content,
        "#[tokio::test",
    ) || mentions(content, "#[rstest")
}

/// Whether a trimmed line declares a test case under the framework: for
/// pytest `def test_` or `async def test_` at its start; for vitest and
/// jest a call of `it(`, `it.each(`, `test(` or `test.each(` on a line that
/// is no `//` or `*` comment; for cargo `#[test]`, `#[tokio::test` or
/// `#[rstest`; for deno `Deno.test(`, `Deno.test.only(` or
/// `Deno.test.ignore(` at its start.
pub open spec fn is_case_line(t: Seq<char>, framework: Seq<char>) -> bool {
    if framework == "pytest"@ {
        starts_with(t, "def test_"@) || starts_with(t, "async def test_"@)
    } else if framework == "vitest"@ || framework == "jest"@ {
        &&& (contains_seq(t, "it("@) || contains_seq(t, "it.each("@) || contains_seq(t, "test("@)
            || contains_seq(t, "test.each("@))
        &&& !starts_with(t, "//"@)
        &&& !starts_with(t, "*"@)
    } else if framework == "cargo test"@ {
        contains_seq(t, "#[test]"@) || contains_seq(t, "#[tokio::test"@) || contains_seq(t, "#[rstest"@)
    } else if framework == "deno test"@ {
        ||| starts_with(t, "Deno.test("@)
        ||| starts_with(t, "Deno.test.only("@)
        ||| starts_with(t, "Deno.test.ignore("@)
    } else {
        false
    }
}

/// The number of lines that declare a test case, each line trimmed.
pub open spec fn case_lines(ls: Seq<Seq<char>>, framework: Seq<char>) -> nat
    decreases ls.len(),
{
    if ls.len() == 0 {
        0
    } else {
        (if is_case_line(trim(ls[0]), framework) {
            1nat
        } else {
            0nat
        }) + case_lines(ls.drop_first(), framework)
    }
}

proof fn lemma_case_lines_trim_seq(a: Seq<Seq<char>>, b: Seq<Seq<char>>, framework: Seq<char>)
    requires
        a.len() == b.len(),
        forall|j: int| 0 <= j < a.len() ==> trim(#[trigger] a[j]) == trim(b[j]),
    ensures
        case_lines(a, framework) == case_lines(b, framework),
    decreases a.len(),
{
    if a.len() > 0 {
        assert(trim(a[0]) == trim(b[0]));
        assert forall|j: int| 0 <= j < a.drop_first().len() implies trim(#[trigger] a.drop_first()[j])
            == trim(b.drop_first()[j]) by {
            assert(a.drop_first()[j] == a[j + 1] && b.drop_first()[j] == b[j + 1]);
        }
        lemma_case_lines_trim_seq(a.drop_first(), b.drop_first(), framework);
    }
}

/// Whitespace around a line does not change whether it declares a test
/// case: two files whose lines are the same once trimmed have as many test
/// cases, so an indented test method counts as one at the left margin does.
pub proof fn lemma_cases_ignore_indentation(a: Seq<char>, b: Seq<char>, framework: Seq<char>)
    requires
        lines(a).len() == lines(b).len(),
        forall|j: int| 0 <= j < lines(a).len() ==> trim(#[trigger] lines(a)[j]) == trim(lines(b)[j]),
    ensures
        case_lines(lines(a), framework) == case_lines(lines(b), framework),
{
    lemma_case_lines_trim_seq(lines(a), lines(b), framework);
}

/// One if the line, trimmed, declares a test case; zero otherwise.
pub open spec fn declares_test(l: Seq<char>, framework: Seq<char>) -> int {
    if is_case_line(trim(l), framework) {
        1
    } else {
        0
    }
}

proof fn lemma_case_lines_local(a: Seq<Seq<char>>, b: Seq<Seq<char>>, i: int, framework: Seq<char>)
    requires
        a.len() == b.len(),
        0 <= i < a.len(),
        forall|j: int| 0 <= j < a.len() && j != i ==> a[j] == b[j],
    ensures
        case_lines(b, framework) - case_lines(a, framework) == declares_test(b[i], framework)
            - declares_test(a[i], framework),
    decreases a.len(),
{
    if i == 0 {
        assert(a.drop_first() =~= b.drop_first()) by {
            assert forall|j: int| 0 <= j < a.drop_first().len() implies a.drop_first()[j]
                == b.drop_first()[j] by {
                assert(a[j + 1] == b[j + 1]);
            }
        }
    } else {
        assert forall|j: int| 0 <= j < a.drop_first().len() && j != i - 1 implies a.drop_first()[j]
            == b.drop_first()[j] by {
            assert(a[j + 1] == b[j + 1]);
        }
        lemma_case_lines_local(a.drop_first(), b.drop_first(), i - 1, framework);
        assert(a[0] == b[0]);
    }
}

/// Each line counts on its own: two files that differ in one line only
/// differ in their test cases by whether that line, trimmed, declares one.
pub proof fn lemma_cases_count_each_line(a: Seq<char>, b: Seq<char>, i: int, framework: Seq<char>)
    requires
        lines(a).len() == lines(b).len(),
        0 <= i < lines(a).len(),
        forall|j: int| 0 <= j < lines(a).len() && j != i ==> lines(a)[j] == lines(b)[j],
    ensures
        case_lines(lines(b), framework) - case_lines(lines(a), framework) == declares_test(
            lines(b)[i],
            framework,
        ) - declares_test(lines(a)[i], framework),
{
    lemma_case_lines_local(lines(a), lines(b), i, framework);
}

/// Whether a trimmed line declares a test case under the framework.
fn declares_case(t: &[char], framework: &str) -> (r: bool)
    ensures
        r == is_case_line(t@, framework@),
{
    if str_eq(framework, "pytest") {
        begins(t, "def test_") || begins(t, "async def test_")
    } else if str_eq(framework, "vitest") || str_eq(framework, "jest") {
        (holds(t, "it(") || holds(t, "it.each(") || holds(t, "test(") || holds(t, "test.each("))
            && !begins(t, "//") && !begins(t, "*")
    } else if str_eq(framework, "cargo test") {
        holds(t, "#[test]") || holds(t, "#[tokio::test") || holds(t, "#[rstest")
    } else if str_eq(framework, "deno test") {
        begins(t, "Deno.test(") || begins(t, "Deno.test.only(") || begins(t, "Deno.test.ignore(")
    } else {
        false
    }
}

/// Counts the test cases a file declares under the framework: the lines
/// that, trimmed, declare one.
pub fn count_test_cases_in(content: &str, framework: &str) -> (r: usize)
    ensures
        r == case_lines(lines(content@), framework@),
{
    let v = chars_of(content);
    let n = v.len();
    let mut count: usize = 0;
    let mut p: usize = 0;
    while p < n
        invariant
            n == v@.len(),
            v@ == content@,
            p <= n,
            count <= p,
            count + case_lines(lines_from(v@, p as int), framework@) == case_lines(
                lines(content@),
                framework@,
            ),
        decreases n - p,
    {
        let (line, next) = next_line(v.as_slice(), p);
        let t = trimmed(line.as_slice());
        if declares_case(t.as_slice(), framework) {
            count = count + 1;
        }
        p = next;
    }
    count
}

/// The kind of a coverage report.
#[derive(Debug, Clone, Copy, PartialEq, Eq, Structural)]
pub enum CoverageKind {
    /// A Cobertura XML report, read for its `line-rate`.
    Cobertura,
    /// An Istanbul JSON summary, read for `total.lines.pct`.
    Istanbul,
}

/// The kind of a coverage report told from its file name: `.xml` for
/// Cobertura, `.json` for Istanbul, none otherwise.
pub open spec fn spec_coverage_kind(name: Seq<char>) -> Option<CoverageKind> {
    if ends_with(name, ".xml"@) {
        Some(CoverageKind::Cobertura)
    } else if ends_with(name, ".json"@) {
        Some(CoverageKind::Istanbul)
    } else {
        None
    }
}

/// Tells the kind of a coverage report from its file name.
pub fn coverage_kind(name: &str) -> (r: Option<CoverageKind>)
    ensures
        r == spec_coverage_kind(name@),
{
    let v = chars_of(name);
    if finishes(v.as_slice(), ".xml") {
        Some(CoverageKind::Cobertura)
    } else if finishes(v.as_slice(), ".json") {
        Some(CoverageKind::Istanbul)
    } else {
        None
    }
}

/// Tells the kind of the coverage report at `path` from its file name (the
/// last component of the path); a path without a file name has none.
pub fn coverage_kind_of_path(path: &str) -> (r: Option<CoverageKind>)
    ensures
        r is Some ==> exists|n: Seq<char>| contains_seq(path@, n) && spec_coverage_kind(n) == r,
        plain_name(path@) ==> r == spec_coverage_kind(path@),
        forall|k: int| #[trigger] name_at(path@, k) ==> r == spec_coverage_kind(path@.skip(k + 1)),
{
    match path_file_name(path) {
        Some(n) => coverage_kind(n.as_str()),
        None => None,
    }
}

/// The text of the first `line-rate="..."` attribute of a Cobertura
/// report: what follows the first `line-rate="` up to the next `"`.
pub open spec fn spec_line_rate_text(content: Seq<char>) -> Option<Seq<char>> {
    let key = "line-rate=\""@;
    match crate::text::find_seq(content, key, 0) {
        None => None,
        Some(pos) => {
            let start = pos + key.len();
            match crate::text::find_seq(content, seq!['"'], start) {
                None => None,
                Some(end) => Some(content.subrange(start, end)),
            }
        },
    }
}

/// Finds the text of the first `line-rate` attribute of a Cobertura report.
pub fn line_rate_text(content: &str) -> (r: Option<String>)
    ensures
        match r {
            Some(t) => spec_line_rate_text(content@) == Some(t@),
            None => spec_line_rate_text(content@) is None,
        },
{
    let v = chars_of(content);
    let key = chars_of("line-rate=\"");
    let quote = ['"'];
    assert(quote@ == seq!['"']);
    match find_from(v.as_slice(), key.as_slice(), 0) {
        None => None,
        Some(pos) => {
            let vlen = v.len();
            assert(pos + key@.len() <= vlen);
            let start = pos + key.len();
            match find_from(v.as_slice(), quote.as_slice(), start) {
                None => None,
                Some(end) => Some(string_of_range(v.as_slice(), start, end)),
            }
        },
    }
}

} // verus!
