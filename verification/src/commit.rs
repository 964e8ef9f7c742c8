//! Conventional Commit subjects: the type and scope of a commit, and the
//! human label of a type.
use vstd::prelude::*;
use crate::text::{
    ascii_lower, has_at, lemma_find_seq,
};
use crate::text::{
    chars_of, ends_with, find_from, find_seq, has_suffix, is_alnum, is_ascii_alnum, lower_seq,
    push_char, str_eq, string_of_range, to_ascii_lower,
};

verus! {

/// A character that `\w` matches in the ASCII sense: a letter, a digit or `_`.
pub open spec fn is_word(c: char) -> bool {
    is_ascii_alnum(c) || c == '_'
}

/// The number of word characters at the start of `s`.
pub open spec fn word_len(s: Seq<char>) -> nat
    decreases s.len(),
{
    if s.len() > 0 && is_word(s[0]) {
        1 + word_len(s.drop_first())
    } else {
        0
    }
}

/// The label shown for a commit type; `其他` for any type not listed.
pub open spec fn spec_type_label(t: Seq<char>) -> Seq<char> {
    if t == "feat"@ {
        "新功能"@
    } else if t == "fix"@ {
        "錯誤修復"@
    } else if t == "docs"@ {
        "文件"@
    } else if t == "refactor"@ {
        "重構"@
    } else if t == "test"@ {
        "測試"@
    } else if t == "chore"@ {
        "維護"@
    } else if t == "ci"@ {
        "CI/CD"@
    } else if t == "build"@ {
        "建構"@
    } else if t == "style"@ {
        "格式"@
    } else if t == "perf"@ {
        "效能"@
    } else {
        "其他"@
    }
}

/// The label of every type that is not listed.
pub open spec fn other_label() -> Seq<char> {
    "其他"@
}

/// The label shown for a commit type.
pub fn type_label(t: &str) -> (r: &'static str)
    ensures
        r@ == spec_type_label(t@),
{
    if str_eq(t, "feat") {
        "新功能"
    } else if str_eq(t, "fix") {
        "錯誤修復"
    } else if str_eq(t, "docs") {
        "文件"
    } else if str_eq(t, "refactor") {
        "重構"
    } else if str_eq(t, "test") {
        "測試"
    } else if str_eq(t, "chore") {
        "維護"
    } else if str_eq(t, "ci") {
        "CI/CD"
    } else if str_eq(t, "build") {
        "建構"
    } else if str_eq(t, "style") {
        "格式"
    } else if str_eq(t, "perf") {
        "效能"
    } else {
        "其他"
    }
}

/// Index just past the scope `(...)` that starts at `j`, with the scope's
/// text; `(j, "")` when no scope starts there.
pub open spec fn scope_end(s: Seq<char>, j: int) -> (int, Seq<char>) {
    if j < s.len() && s[j] == '(' {
        match find_seq(s, seq![')'], j) {
            Some(close) => (close + 1, s.subrange(j + 1, close)),
            None => (j, Seq::empty()),
        }
    } else {
        (j, Seq::empty())
    }
}

/// The type and scope of a subject read as `^(\w+)(\(.*?\))?(!)?:`, the type
/// made lowercase; `("other", "")` when the subject does not start so.
pub open spec fn spec_parse_conventional(s: Seq<char>) -> (Seq<char>, Seq<char>) {
    let i = word_len(s) as int;
    let (j0, scope) = scope_end(s, i);
    let j = if j0 < s.len() && s[j0] == '!' {
        j0 + 1
    } else {
        j0
    };
    if i > 0 && j < s.len() && s[j] == ':' {
        (lower_seq(s.take(i)), scope)
    } else {
        ("other"@, Seq::empty())
    }
}

proof fn lemma_word_len_step(s: Seq<char>, i: int)
    requires
        0 <= i < s.len(),
    ensures
        word_len(s.skip(i)) == if is_word(s[i]) {
            1 + word_len(s.skip(i + 1))
        } else {
            0
        },
{
    assert(s.skip(i).drop_first() == s.skip(i + 1));
}

/// A string holding `s` with every ASCII capital letter made small.
pub fn lowercase_of(v: &[char], end: usize) -> (r: String)
    requires
        end <= v@.len(),
    ensures
        r@ == lower_seq(v@.take(end as int)),
{
    let mut r = String::new();
    let mut i: usize = 0;
    while i < end
        invariant
            i <= end <= v@.len(),
            r@ == lower_seq(v@.take(i as int)),
        decreases end - i,
    {
        let c = to_ascii_lower(v[i]);
        push_char(&mut r, c);
        assert(v@.take(i + 1) == v@.take(i as int).push(v@[i as int]));
        assert(lower_seq(v@.take(i + 1)) =~= lower_seq(v@.take(i as int)).push(c));
        i = i + 1;
    }
    r
}

/// The type and scope of a Conventional Commit subject.
pub fn parse_conventional_commit(subject: &str) -> (r: (String, String))
    ensures
        (r.0@, r.1@) == spec_parse_conventional(subject@),
{
    let v = chars_of(subject);
    let n = v.len();
    let mut i: usize = 0;
    assert(v@.skip(0) == v@);
    while i < n && (is_alnum(v[i]) || v[i] == '_')
        invariant
            i <= n == v@.len(),
            word_len(v@) == i + word_len(v@.skip(i as int)),
        decreases n - i,
    {
        proof {
            lemma_word_len_step(v@, i as int);
        }
        i = i + 1;
    }
    proof {
        if i < n {
            lemma_word_len_step(v@, i as int);
        }
    }
    assert(word_len(v@) == i);
    if i == 0 {
        return ("other".to_owned(), String::new());
    }
    let mut scope = String::new();
    let mut j = i;
    if j < n && v[j] == '(' {
        let close_pat = [')'];
        assert(close_pat@ == seq![')']);
        match find_from(v.as_slice(), close_pat.as_slice(), j) {
            Some(close) => {
                scope = string_of_range(v.as_slice(), j + 1, close);
                j = close + 1;
            },
            None => {},
        }
    }
    if j < n && v[j] == '!' {
        j = j + 1;
    }
    if j < n && v[j] == ':' {
        (lowercase_of(v.as_slice(), i), scope)
    } else {
        ("other".to_owned(), String::new())
    }
}

/// The type and scope recorded for a commit of the named project: the
/// Conventional Commit reading of the subject, with the type `docs` for every
/// commit of a project whose name ends in `.wiki`.
pub open spec fn spec_commit_kind(project: Seq<char>, subject: Seq<char>) -> (Seq<char>, Seq<char>) {
    let (t, scope) = spec_parse_conventional(subject);
    if ends_with(project, ".wiki"@) {
        ("docs"@, scope)
    } else {
        (t, scope)
    }
}

/// The type and scope recorded for a commit of the named project.
pub fn commit_kind(project: &str, subject: &str) -> (r: (String, String))
    ensures
        (r.0@, r.1@) == spec_commit_kind(project@, subject@),
{
    let (t, scope) = parse_conventional_commit(subject);
    let p = chars_of(project);
    let wiki = chars_of(".wiki");
    if has_suffix(p.as_slice(), wiki.as_slice()) {
        ("docs".to_owned(), scope)
    } else {
        (t, scope)
    }
}

/// The type read from a subject has no capital letter: it is `other`, or it
/// is the subject's leading word (letters, digits and `_`) with every
/// capital made small.
pub proof fn lemma_type_has_no_capital(s: Seq<char>)
    ensures
        ({
            let t = spec_parse_conventional(s).0;
            &&& forall|k: int| 0 <= k < t.len() ==> !('A' <= #[trigger] t[k] && t[k] <= 'Z')
            &&& t == "other"@ || (0 < t.len() <= s.len() && forall|k: int|
                0 <= k < t.len() ==> is_word(s[k]) && ascii_lower(#[trigger] t[k]) == ascii_lower(
                    s[k],
                ))
        }),
{
    let i = word_len(s) as int;
    let t = spec_parse_conventional(s).0;
    reveal_strlit("other");
    lemma_word_len_prefix(s);
    if t != "other"@ {
        assert(t == lower_seq(s.take(i)));
    }
    assert forall|k: int| 0 <= k < t.len() implies !('A' <= #[trigger] t[k] && t[k] <= 'Z') by {
        if t != "other"@ {
            assert(t[k] == ascii_lower(s[k]));
        }
    }
}

/// The leading word of `s` is made of word characters.
proof fn lemma_word_len_prefix(s: Seq<char>)
    ensures
        word_len(s) <= s.len(),
        forall|k: int| 0 <= k < word_len(s) ==> is_word(#[trigger] s[k]),
    decreases s.len(),
{
    if s.len() > 0 && is_word(s[0]) {
        lemma_word_len_prefix(s.drop_first());
        assert forall|k: int| 0 <= k < word_len(s) implies is_word(#[trigger] s[k]) by {
            if k > 0 {
                assert(s[k] == s.drop_first()[k - 1]);
            }
        }
    }
}

/// `a` and `b` are the same text but for the case of ASCII letters.
pub open spec fn same_but_case(a: Seq<char>, b: Seq<char>) -> bool {
    a.len() == b.len() && forall|k: int| 0 <= k < a.len() ==> ascii_lower(#[trigger] a[k]) == ascii_lower(b[k])
}

proof fn lemma_same_but_case_chars(a: Seq<char>, b: Seq<char>, k: int)
    requires
        same_but_case(a, b),
        0 <= k < a.len(),
    ensures
        is_word(a[k]) == is_word(b[k]),
        (a[k] == '(') == (b[k] == '('),
        (a[k] == ')') == (b[k] == ')'),
        (a[k] == '!') == (b[k] == '!'),
        (a[k] == ':') == (b[k] == ':'),
{
    assert(ascii_lower(a[k]) == ascii_lower(b[k]));
}

proof fn lemma_same_but_case_word(a: Seq<char>, b: Seq<char>)
    requires
        same_but_case(a, b),
    ensures
        word_len(a) == word_len(b),
    decreases a.len(),
{
    if a.len() > 0 {
        lemma_same_but_case_chars(a, b, 0);
        assert forall|k: int| 0 <= k < a.drop_first().len() implies ascii_lower(
            #[trigger] a.drop_first()[k],
        ) == ascii_lower(b.drop_first()[k]) by {
            assert(a.drop_first()[k] == a[k + 1] && b.drop_first()[k] == b[k + 1]);
        }
        lemma_same_but_case_word(a.drop_first(), b.drop_first());
    }
}

proof fn lemma_same_but_case_close(a: Seq<char>, b: Seq<char>, j: int)
    requires
        same_but_case(a, b),
    ensures
        find_seq(a, seq![')'], j) == find_seq(b, seq![')'], j),
    decreases a.len() - j,
{
    if 0 <= j && j + 1 <= a.len() {
        lemma_same_but_case_chars(a, b, j);
        assert(a.subrange(j, j + 1) =~= seq![a[j]]);
        assert(b.subrange(j, j + 1) =~= seq![b[j]]);
        if a[j] != ')' {
            assert(!has_at(a, seq![')'], j)) by {
                if has_at(a, seq![')'], j) {
                    assert(a.subrange(j, j + 1)[0] == seq![')'][0]);
                }
            }
            assert(!has_at(b, seq![')'], j)) by {
                if has_at(b, seq![')'], j) {
                    assert(b.subrange(j, j + 1)[0] == seq![')'][0]);
                }
            }
            lemma_same_but_case_close(a, b, j + 1);
        }
    }
}

/// The type read from a subject does not depend on the case of its
/// letters: two subjects that differ only there give the same type.
pub proof fn lemma_type_ignores_case(a: Seq<char>, b: Seq<char>)
    requires
        same_but_case(a, b),
    ensures
        spec_parse_conventional(a).0 == spec_parse_conventional(b).0,
{
    lemma_same_but_case_word(a, b);
    lemma_word_len_prefix(a);
    let i = word_len(a) as int;
    if i < a.len() {
        lemma_same_but_case_chars(a, b, i);
    }
    lemma_same_but_case_close(a, b, i);
    let j0 = scope_end(a, i).0;
    assert(j0 == scope_end(b, i).0);
    if 0 <= j0 < a.len() {
        lemma_same_but_case_chars(a, b, j0);
    }
    let j = if j0 < a.len() && a[j0] == '!' {
        j0 + 1
    } else {
        j0
    };
    if 0 <= j < a.len() {
        lemma_same_but_case_chars(a, b, j);
    }
    lemma_find_seq(a, seq![')'], i);
    assert(i <= j0);
    assert forall|k: int| 0 <= k < i implies #[trigger] lower_seq(a.take(i))[k] == lower_seq(
        b.take(i),
    )[k] by {
        assert(ascii_lower(a[k]) == ascii_lower(b[k]));
    }
    assert(lower_seq(a.take(i)) =~= lower_seq(b.take(i)));
    let jb = if j0 < b.len() && b[j0] == '!' {
        j0 + 1
    } else {
        j0
    };
    assert(j == jb);
    assert((i > 0 && j < a.len() && a[j] == ':') == (i > 0 && jb < b.len() && b[jb] == ':'));
}


} // verus!
