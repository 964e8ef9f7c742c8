//! The report's settings: what `showcase.toml` holds, and the rules that
//! check and complete it.
use vstd::prelude::*;
use crate::model::{copy_opt_string, copy_opt_strings};
use crate::text::{
    ascii_lower, ends_with, is_alnum, is_ascii_alnum, push_str, string_of, to_ascii_lower,
    trim_char, trim_end_char, trim_start_char, trimmed_char,
};
use crate::timeline::DEFAULT_MAX_BUCKETS;
use crate::dates::{chrono_parse_day, parse_day};
use crate::text::{
    chars_for_bytes, chars_in_bytes, chars_of, contains, contains_seq, lex_lt, str_less,
};
use crate::paths::{config_dir, dir_of_config, resolve_path, resolved_against};
use crate::page::{parse_csv_list, spec_csv_list};
use crate::text::{lemma_trim_end_char_shape, lemma_trim_start_char_shape, opt_view, strings_view};

verus! {

/// The whole configuration.
#[derive(Debug)]
pub struct Config {
    pub title: Option<String>,
    pub output: Option<OutputConfig>,
    pub projects: Vec<ProjectConfig>,
    pub filters: Option<FilterConfig>,
}

/// Where the report is written, and how many buckets its timeline may use
/// before a coarser granularity is taken.
#[derive(Debug)]
pub struct OutputConfig {
    pub path: Option<String>,
    pub timeline_max_buckets: Option<usize>,
}

/// One repository to scan.
#[derive(Debug)]
pub struct ProjectConfig {
    pub name: String,
    pub path: String,
    pub description: Option<String>,
    pub branch: Option<String>,
    pub coverage_command: Option<String>,
    pub coverage_result_path: Option<String>,
    pub url: Option<String>,
}

/// Which commits and proposals the report keeps.
#[derive(Debug, Clone)]
pub struct FilterConfig {
    pub author: Option<String>,
    pub since: Option<String>,
    pub until: Option<String>,
    pub types: Option<Vec<String>>,
    pub exclude_hashes: Option<Vec<String>>,
}

impl FilterConfig {
    /// The filters that keep everything.
    pub open spec fn none() -> FilterConfig {
        FilterConfig { author: None, since: None, until: None, types: None, exclude_hashes: None }
    }

    /// The two filters hold the same settings.
    pub open spec fn same(self, other: FilterConfig) -> bool {
        &&& self.author == other.author
        &&& self.since == other.since
        &&& self.until == other.until
        &&& match (self.types, other.types) {
            (Some(a), Some(b)) => a@ == b@,
            (None, None) => true,
            _ => false,
        }
        &&& match (self.exclude_hashes, other.exclude_hashes) {
            (Some(a), Some(b)) => a@ == b@,
            (None, None) => true,
            _ => false,
        }
    }

    /// A copy of these filters.
    pub fn duplicate(&self) -> (r: FilterConfig)
        ensures
            r.same(*self),
    {
        FilterConfig {
            author: copy_opt_string(&self.author),
            since: copy_opt_string(&self.since),
            until: copy_opt_string(&self.until),
            types: copy_opt_strings(&self.types),
            exclude_hashes: copy_opt_strings(&self.exclude_hashes),
        }
    }
}

impl Default for FilterConfig {
    fn default() -> (r: FilterConfig)
        ensures
            r == FilterConfig::none(),
    {
        FilterConfig { author: None, since: None, until: None, types: None, exclude_hashes: None }
    }
}

impl Default for OutputConfig {
    fn default() -> (r: OutputConfig)
        ensures
            r.path is None,
            r.timeline_max_buckets is None,
    {
        OutputConfig { path: None, timeline_max_buckets: None }
    }
}

impl Config {
    /// The filters in force: those configured, or the ones that keep
    /// everything.
    pub open spec fn spec_filters(self) -> FilterConfig {
        match self.filters {
            Some(f) => f,
            None => FilterConfig::none(),
        }
    }

    /// Where the report goes: the configured output path, or
    /// `dist/<file name from the title>`.
    pub open spec fn spec_output_path(self) -> Seq<char> {
        match self.output {
            Some(o) if o.path is Some => o.path->0@,
            _ => "dist/"@ + spec_file_name(
                match self.title {
                    Some(t) => Some(t@),
                    None => None,
                },
            ),
        }
    }

    /// Where the report goes.
    pub fn output_path(&self) -> (r: String)
        ensures
            r@ == self.spec_output_path(),
    {
        match &self.output {
            Some(o) => match &o.path {
                Some(p) => {
                    return p.clone();
                },
                None => {},
            },
            None => {},
        }
        let name = match &self.title {
            Some(t) => sanitize_title_for_filename(Some(t.as_str())),
            None => sanitize_title_for_filename(None),
        };
        let mut r = "dist/".to_string();
        push_str(&mut r, name.as_str());
        r
    }

    /// The most buckets the timeline may use before a coarser granularity
    /// is taken: the configured bound, or fourteen.
    pub open spec fn spec_timeline_max_buckets(self) -> usize {
        match self.output {
            Some(o) if o.timeline_max_buckets is Some => o.timeline_max_buckets->0,
            _ => DEFAULT_MAX_BUCKETS,
        }
    }

    /// The most buckets the timeline may use.
    pub fn timeline_max_buckets(&self) -> (r: usize)
        ensures
            r == self.spec_timeline_max_buckets(),
    {
        match &self.output {
            Some(o) => match o.timeline_max_buckets {
                Some(m) => m,
                None => DEFAULT_MAX_BUCKETS,
            },
            None => DEFAULT_MAX_BUCKETS,
        }
    }

    /// A copy of the filters in force.
    pub fn filters(&self) -> (r: FilterConfig)
        ensures
            r.same(self.spec_filters()),
    {
        match &self.filters {
            Some(f) => f.duplicate(),
            None => FilterConfig::default(),
        }
    }
}

/// One character of a title as it goes into a file name: ASCII letters,
/// digits, `-` and `_` kept (letters made small), anything else made `-`.
pub open spec fn file_char(c: char) -> char {
    if is_ascii_alnum(c) || c == '-' || c == '_' {
        ascii_lower(c)
    } else {
        '-'
    }
}

/// `s` with each run of `-` shortened to one.
pub open spec fn collapse_dashes(s: Seq<char>) -> Seq<char>
    decreases s.len(),
{
    if s.len() == 0 {
        s
    } else {
        let t = collapse_dashes(s.drop_last());
        if s.last() == '-' && s.len() > 1 && s[s.len() - 2] == '-' {
            t
        } else {
            t.push(s.last())
        }
    }
}

/// The file name for a report title: the title's characters mapped by
/// [`file_char`], runs of `-` shortened to one, leading and trailing `-`
/// removed, and `.html` added; `index.html` where no title is given or
/// nothing is left.
pub open spec fn spec_file_name(title: Option<Seq<char>>) -> Seq<char> {
    match title {
        Some(t) if t.len() > 0 => {
            let stem = trim_char(collapse_dashes(t.map_values(|c: char| file_char(c))), '-');
            if stem.len() == 0 {
                "index.html"@
            } else {
                stem + ".html"@
            }
        },
        _ => "index.html"@,
    }
}

/// A character that a report's file name may hold before `.html`: a small
/// ASCII letter, a digit, `-` or `_`.
pub open spec fn file_name_char(c: char) -> bool {
    ('a' <= c && c <= 'z') || ('0' <= c && c <= '9') || c == '-' || c == '_'
}

/// Every character of `s` may stand in a file name.
pub open spec fn file_name_chars(s: Seq<char>) -> bool {
    forall|i: int| 0 <= i < s.len() ==> file_name_char(#[trigger] s[i])
}

proof fn lemma_collapse_chars(s: Seq<char>)
    requires
        file_name_chars(s),
    ensures
        file_name_chars(collapse_dashes(s)),
    decreases s.len(),
{
    if s.len() > 0 {
        assert(file_name_chars(s.drop_last())) by {
            assert forall|i: int| 0 <= i < s.drop_last().len() implies file_name_char(#[trigger] s.drop_last()[i]) by {
                assert(s.drop_last()[i] == s[i]);
            }
        }
        lemma_collapse_chars(s.drop_last());
        assert(file_name_char(s[s.len() - 1]));
    }
}

proof fn lemma_trim_chars(s: Seq<char>, c: char)
    requires
        file_name_chars(s),
    ensures
        file_name_chars(trim_start_char(s, c)),
        file_name_chars(trim_end_char(s, c)),
    decreases s.len(),
{
    if s.len() > 0 {
        assert(file_name_chars(s.drop_first())) by {
            assert forall|i: int| 0 <= i < s.drop_first().len() implies file_name_char(#[trigger] s.drop_first()[i]) by {
                assert(s.drop_first()[i] == s[i + 1]);
            }
        }
        assert(file_name_chars(s.drop_last())) by {
            assert forall|i: int| 0 <= i < s.drop_last().len() implies file_name_char(#[trigger] s.drop_last()[i]) by {
                assert(s.drop_last()[i] == s[i]);
            }
        }
        lemma_trim_chars(s.drop_first(), c);
        lemma_trim_chars(s.drop_last(), c);
    }
}

/// The file name made from any title ends in `.html`, and what comes
/// before holds only small ASCII letters, digits, `-` and `_`: never a path
/// separator, a space or a capital letter.
pub proof fn lemma_file_name_safe(title: Option<Seq<char>>)
    ensures
        spec_file_name(title).len() > 5,
        ends_with(spec_file_name(title), ".html"@),
        file_name_chars(spec_file_name(title).take(spec_file_name(title).len() - 5)),
{
    reveal_strlit("index.html");
    reveal_strlit(".html");
    reveal_strlit("index");
    let r = spec_file_name(title);
    match title {
        Some(t) if t.len() > 0 => {
            let m = t.map_values(|c: char| file_char(c));
            assert forall|i: int| 0 <= i < m.len() implies file_name_char(#[trigger] m[i]) by {
                let c = t[i];
                if 'A' <= c && c <= 'Z' {
                    assert(('a' as u32) <= (c as u32) + 32 <= ('z' as u32));
                }
            }
            lemma_collapse_chars(m);
            let k = collapse_dashes(m);
            lemma_trim_chars(k, '-');
            lemma_trim_chars(trim_start_char(k, '-'), '-');
            let stem = trim_char(k, '-');
            if stem.len() > 0 {
                assert(r.take(r.len() - 5) == stem);
                assert(r.subrange(r.len() - 5, r.len() as int) == ".html"@);
            } else {
                assert(r.take(r.len() - 5) =~= "index"@);
                assert(r.subrange(r.len() - 5, r.len() as int) == ".html"@);
            }
        },
        _ => {
            assert(r.take(r.len() - 5) =~= "index"@);
            assert(r.subrange(r.len() - 5, r.len() as int) == ".html"@);
        },
    }
}

/// No two `-` stand next to each other in `s`.
pub open spec fn no_double_dash(s: Seq<char>) -> bool {
    forall|i: int| 0 <= i && i + 1 < s.len() ==> !(#[trigger] s[i] == '-' && s[i + 1] == '-')
}

/// A stem as a file name holds it: not empty, of file-name characters, with
/// no `-` at either end and no two `-` together.
pub open spec fn clean_stem(t: Seq<char>) -> bool {
    &&& t.len() > 0
    &&& file_name_chars(t)
    &&& no_double_dash(t)
    &&& t[0] != '-'
    &&& t.last() != '-'
}

proof fn lemma_collapse_shape(s: Seq<char>)
    ensures
        no_double_dash(collapse_dashes(s)),
        s.len() > 0 ==> collapse_dashes(s).len() > 0 && collapse_dashes(s).last() == s.last(),
    decreases s.len(),
{
    if s.len() > 0 {
        lemma_collapse_shape(s.drop_last());
        let c = collapse_dashes(s.drop_last());
        let x = s.last();
        if !(x == '-' && s.len() > 1 && s[s.len() - 2] == '-') {
            let t = c.push(x);
            assert forall|i: int| 0 <= i && i + 1 < t.len() implies !(#[trigger] t[i] == '-' && t[i + 1]
                == '-') by {
                if i + 1 < c.len() {
                    assert(t[i] == c[i] && t[i + 1] == c[i + 1]);
                } else {
                    assert(t[i + 1] == x);
                    assert(t[i] == c.last());
                    assert(s.drop_last().last() == s[s.len() - 2]);
                }
            }
        } else {
            assert(s.drop_last().last() == s[s.len() - 2]);
        }
    }
}



/// A stem trimmed of `-` from a collapsed text is clean when not empty.
proof fn lemma_trimmed_stem(k: Seq<char>)
    requires
        file_name_chars(k),
        no_double_dash(k),
    ensures
        trim_char(k, '-').len() > 0 ==> clean_stem(trim_char(k, '-')),
{
    lemma_trim_start_char_shape(k, '-');
    let u = trim_start_char(k, '-');
    let a = choose|a: int| 0 <= a <= k.len() && u == k.skip(a);
    lemma_trim_end_char_shape(u, '-');
    let t = trim_end_char(u, '-');
    let b = choose|b: int| 0 <= b <= u.len() && t == u.take(b);
    assert(t == k.subrange(a, a + b));
    if t.len() > 0 {
        assert(t[0] == u[0]);
        assert forall|i: int| 0 <= i < t.len() implies file_name_char(#[trigger] t[i]) by {
            assert(t[i] == k[a + i]);
        }
        assert forall|i: int| 0 <= i && i + 1 < t.len() implies !(#[trigger] t[i] == '-' && t[i + 1]
            == '-') by {
            assert(t[i] == k[a + i] && t[i + 1] == k[a + i + 1]);
        }
    }
}

proof fn lemma_collapse_clean(t: Seq<char>)
    requires
        no_double_dash(t),
    ensures
        collapse_dashes(t) == t,
    decreases t.len(),
{
    if t.len() > 0 {
        let u = t.drop_last();
        assert(no_double_dash(u)) by {
            assert forall|i: int| 0 <= i && i + 1 < u.len() implies !(#[trigger] u[i] == '-' && u[i + 1]
                == '-') by {
                assert(u[i] == t[i] && u[i + 1] == t[i + 1]);
            }
        }
        lemma_collapse_clean(u);
        if t.len() > 1 {
            assert(!(t[t.len() - 2] == '-' && t[t.len() - 1] == '-'));
        }
        assert(u.push(t.last()) == t);
    }
}

/// A clean stem makes the file name `stem.html`.
proof fn lemma_clean_stem_name(t: Seq<char>)
    requires
        clean_stem(t),
    ensures
        spec_file_name(Some(t)) == t + ".html"@,
{
    let m = t.map_values(|c: char| file_char(c));
    assert(m =~= t) by {
        assert forall|i: int| 0 <= i < t.len() implies m[i] == t[i] by {
            assert(file_name_char(t[i]));
        }
    }
    lemma_collapse_clean(t);
    assert(trim_start_char(t, '-') == t);
    assert(trim_end_char(t, '-') == t);
}

/// The file name made from a title is a fixed point: its stem, taken as a
/// title, makes the same file name again (`my-report` gives
/// `my-report.html`, `index` gives `index.html`).
pub proof fn lemma_file_name_stable(title: Option<Seq<char>>)
    ensures
        ({
            let r = spec_file_name(title);
            spec_file_name(Some(r.take(r.len() - 5))) == r
        }),
{
    reveal_strlit("index.html");
    reveal_strlit(".html");
    reveal_strlit("index");
    lemma_file_name_safe(title);
    let r = spec_file_name(title);
    let index = "index"@;
    let mut stem = index;
    match title {
        Some(t) if t.len() > 0 => {
            let m = t.map_values(|c: char| file_char(c));
            assert forall|i: int| 0 <= i < m.len() implies file_name_char(#[trigger] m[i]) by {
                let c = t[i];
                if 'A' <= c && c <= 'Z' {
                    assert(('a' as u32) <= (c as u32) + 32 <= ('z' as u32));
                }
            }
            lemma_collapse_chars(m);
            lemma_collapse_shape(m);
            let k = collapse_dashes(m);
            lemma_trimmed_stem(k);
            if trim_char(k, '-').len() > 0 {
                stem = trim_char(k, '-');
            }
        },
        _ => {},
    }
    if stem == index {
        assert(clean_stem(index)) by {
            assert(no_double_dash(index));
            assert(file_name_chars(index));
        }
    }
    assert(r == stem + ".html"@);
    assert(r.take(r.len() - 5) == stem);
    lemma_clean_stem_name(stem);
}

/// The character of a title as it goes into a file name.
fn to_file_char(c: char) -> (r: char)
    ensures
        r == file_char(c),
{
    if is_alnum(c) || c == '-' || c == '_' {
        to_ascii_lower(c)
    } else {
        '-'
    }
}

/// A file name for the report made from its title.
pub fn sanitize_title_for_filename(title: Option<&str>) -> (r: String)
    ensures
        r@ == spec_file_name(
            match title {
                Some(t) => Some(t@),
                None => None,
            },
        ),
{
    let t = match title {
        Some(t) => t,
        None => {
            return "index.html".to_string();
        },
    };
    let v = crate::text::chars_of(t);
    if v.len() == 0 {
        return "index.html".to_string();
    }
    let ghost mapped = v@.map_values(|c: char| file_char(c));
    let mut out: Vec<char> = Vec::new();
    let mut prev_dash = false;
    let mut i: usize = 0;
    while i < v.len()
        invariant
            i <= v@.len(),
            mapped == v@.map_values(|c: char| file_char(c)),
            out@ == collapse_dashes(mapped.take(i as int)),
            prev_dash == (i > 0 && mapped[i - 1] == '-'),
        decreases v@.len() - i,
    {
        let c = to_file_char(v[i]);
        assert(mapped.take(i + 1).drop_last() == mapped.take(i as int));
        assert(mapped.take(i + 1).last() == c);
        if c == '-' {
            if !prev_dash {
                out.push('-');
            }
            prev_dash = true;
        } else {
            out.push(c);
            prev_dash = false;
        }
        i = i + 1;
    }
    assert(mapped.take(v@.len() as int) == mapped);
    let stem = trimmed_char(out.as_slice(), '-');
    if stem.len() == 0 {
        return "index.html".to_string();
    }
    let mut r = string_of(stem.as_slice());
    push_str(&mut r, ".html");
    r
}

/// Why a date range was refused.
#[derive(Debug)]
pub enum DateRangeError {
    /// The `since` date is not a `YYYY-MM-DD` date.
    InvalidSince(String),
    /// The `until` date is not a `YYYY-MM-DD` date.
    InvalidUntil(String),
    /// `since` comes after `until`.
    SinceAfterUntil(String, String),
}

impl DateRangeError {
    /// The message shown for this error.
    pub fn message(&self) -> (r: String)
        ensures
            r@ == match self {
                DateRangeError::InvalidSince(d) => "invalid 'since' date '"@ + d@
                    + "': expected YYYY-MM-DD format"@,
                DateRangeError::InvalidUntil(d) => "invalid 'until' date '"@ + d@
                    + "': expected YYYY-MM-DD format"@,
                DateRangeError::SinceAfterUntil(a, b) => "'since' ("@ + a@
                    + ") must not be after 'until' ("@ + b@ + ")"@,
            },
    {
        match self {
            DateRangeError::InvalidSince(d) => {
                let mut r = "invalid 'since' date '".to_string();
                push_str(&mut r, d.as_str());
                push_str(&mut r, "': expected YYYY-MM-DD format");
                r
            },
            DateRangeError::InvalidUntil(d) => {
                let mut r = "invalid 'until' date '".to_string();
                push_str(&mut r, d.as_str());
                push_str(&mut r, "': expected YYYY-MM-DD format");
                r
            },
            DateRangeError::SinceAfterUntil(a, b) => {
                let mut r = "'since' (".to_string();
                push_str(&mut r, a.as_str());
                push_str(&mut r, ") must not be after 'until' (");
                push_str(&mut r, b.as_str());
                push_str(&mut r, ")");
                r
            },
        }
    }
}

/// A date written exactly `YYYY-MM-DD`: ten bytes long, and a date that
/// chrono reads with `%Y-%m-%d`.
pub open spec fn strict_date(d: Seq<char>) -> bool {
    &&& chars_in_bytes(d, 10) == Some(d.len() as int)
    &&& chrono_parse_day(d) is Some
}

/// Whether an optional date is absent or a strict date.
pub open spec fn date_absent_or_strict(d: Option<Seq<char>>) -> bool {
    match d {
        Some(x) => strict_date(x),
        None => true,
    }
}

/// Whether `d` is written exactly `YYYY-MM-DD`.
fn is_strict_date(d: &str) -> (r: bool)
    ensures
        r == strict_date(d@),
{
    let v = chars_of(d);
    match chars_for_bytes(v.as_slice(), 10) {
        Some(k) => k == v.len() && parse_day(d).is_some(),
        None => false,
    }
}

/// Checks a date range: each date given must be written exactly
/// `YYYY-MM-DD` and be a real date, `since` first, and `since` must not come
/// after `until`.
pub fn validate_date_range(since: Option<&str>, until: Option<&str>) -> (r: Result<(), DateRangeError>)
    ensures
        r is Ok <==> (date_absent_or_strict(opt_view(since)) && date_absent_or_strict(opt_view(until))
            && !(since is Some && until is Some && lex_lt(until->0@, since->0@))),
        r matches Err(DateRangeError::InvalidSince(d)) ==> since is Some && d@ == since->0@
            && !strict_date(since->0@),
        r matches Err(DateRangeError::InvalidUntil(d)) ==> date_absent_or_strict(opt_view(since))
            && until is Some && d@ == until->0@ && !strict_date(until->0@),
        r matches Err(DateRangeError::SinceAfterUntil(a, b)) ==> since is Some && until is Some
            && strict_date(since->0@) && strict_date(until->0@) && a@ == since->0@ && b@
            == until->0@ && lex_lt(until->0@, since->0@),
{
    match since {
        Some(s) => {
            if !is_strict_date(s) {
                return Err(DateRangeError::InvalidSince(s.to_string()));
            }
        },
        None => {},
    }
    match until {
        Some(u) => {
            if !is_strict_date(u) {
                return Err(DateRangeError::InvalidUntil(u.to_string()));
            }
        },
        None => {},
    }
    match (since, until) {
        (Some(s), Some(u)) => {
            if str_less(u, s) {
                return Err(DateRangeError::SinceAfterUntil(s.to_string(), u.to_string()));
            }
        },
        _ => {},
    }
    Ok(())
}

/// Why a configuration was refused.
#[derive(Debug)]
pub enum ConfigError {
    /// A project's branch starts with `-`, so git would read it as an
    /// option: the project's name and the branch.
    BranchStartsWithDash(String, String),
    /// A project's branch holds `..`, `^`, `~` or a space, which git reads
    /// as a range or an ancestor: the project's name and the branch.
    BranchInvalidChars(String, String),
}

impl ConfigError {
    /// The message shown for this error.
    pub fn message(&self) -> (r: String)
        ensures
            r@ == match self {
                ConfigError::BranchStartsWithDash(p, b) => "branch name must not start with '-' for project '"@
                    + p@ + "': "@ + b@,
                ConfigError::BranchInvalidChars(p, b) => "branch name contains invalid characters for project '"@
                    + p@ + "': '"@ + b@
                    + "' (revspec operators like '..', '^', '~' are not allowed)"@,
            },
    {
        match self {
            ConfigError::BranchStartsWithDash(p, b) => {
                let mut r = "branch name must not start with '-' for project '".to_string();
                push_str(&mut r, p.as_str());
                push_str(&mut r, "': ");
                push_str(&mut r, b.as_str());
                r
            },
            ConfigError::BranchInvalidChars(p, b) => {
                let mut r = "branch name contains invalid characters for project '".to_string();
                push_str(&mut r, p.as_str());
                push_str(&mut r, "': '");
                push_str(&mut r, b.as_str());
                push_str(&mut r, "' (revspec operators like '..', '^', '~' are not allowed)");
                r
            },
        }
    }
}

/// A branch name that git would read as an option.
pub open spec fn branch_starts_with_dash(b: Seq<char>) -> bool {
    b.len() > 0 && b[0] == '-'
}

/// A branch name that holds a revision range or ancestor operator, or a
/// space.
pub open spec fn branch_has_revspec(b: Seq<char>) -> bool {
    ||| contains_seq(b, ".."@)
    ||| contains_seq(b, seq!['^'])
    ||| contains_seq(b, seq!['~'])
    ||| contains_seq(b, seq![' '])
}

/// Whether a project's branch, where it names one, is accepted.
pub open spec fn branch_accepted(p: ProjectConfig) -> bool {
    match p.branch {
        Some(b) => !branch_starts_with_dash(b@) && !branch_has_revspec(b@),
        None => true,
    }
}

/// The error for a project whose branch is refused.
pub open spec fn branch_error_matches(p: ProjectConfig, e: ConfigError) -> bool {
    let b = p.branch->0@;
    match e {
        ConfigError::BranchStartsWithDash(n, x) => branch_starts_with_dash(b) && n@ == p.name@
            && x@ == b,
        ConfigError::BranchInvalidChars(n, x) => !branch_starts_with_dash(b) && branch_has_revspec(b)
            && n@ == p.name@ && x@ == b,
    }
}

/// Checks the branch of a project: refused where it starts with `-`, or
/// holds `..`, `^`, `~` or a space.
pub fn check_branch(project: &ProjectConfig) -> (r: Result<(), ConfigError>)
    ensures
        r is Ok <==> branch_accepted(*project),
        r matches Err(e) ==> branch_error_matches(*project, e),
{
    match &project.branch {
        Some(b) => {
            let v = chars_of(b.as_str());
            if v.len() > 0 && v[0] == '-' {
                return Err(ConfigError::BranchStartsWithDash(project.name.clone(), b.clone()));
            }
            let dots = chars_of("..");
            let caret = ['^'];
            let tilde = ['~'];
            let space = [' '];
            assert(caret@ == seq!['^']);
            assert(tilde@ == seq!['~']);
            assert(space@ == seq![' ']);
            if contains(v.as_slice(), dots.as_slice()) || contains(v.as_slice(), caret.as_slice())
                || contains(v.as_slice(), tilde.as_slice()) || contains(
                v.as_slice(),
                space.as_slice(),
            ) {
                return Err(ConfigError::BranchInvalidChars(project.name.clone(), b.clone()));
            }
            Ok(())
        },
        None => Ok(()),
    }
}

/// A project read from the configuration, with its path resolved against
/// the directory `d`.
pub open spec fn resolved_from(q: ProjectConfig, p: ProjectConfig, d: Seq<char>) -> bool {
    &&& q.name == p.name
    &&& q.description == p.description
    &&& q.branch == p.branch
    &&& q.coverage_command == p.coverage_command
    &&& q.coverage_result_path == p.coverage_result_path
    &&& q.url == p.url
    &&& resolved_against(d, p.path@, q.path@)
}

impl Config {
    /// Completes a configuration read from the file at `config_path`: each
    /// project's path, and the output path, where relative, is resolved
    /// against the file's directory, and each project's branch is checked.
    /// The first project whose branch is refused gives the error.
    pub fn resolve(&mut self, config_path: &str) -> (r: Result<(), ConfigError>)
        ensures
            r is Ok <==> forall|i: int|
                0 <= i < old(self).projects@.len() ==> #[trigger] branch_accepted(
                    old(self).projects@[i],
                ),
            r matches Err(e) ==> exists|k: int|
                0 <= k < old(self).projects@.len() && (forall|i: int|
                    0 <= i < k ==> #[trigger] branch_accepted(old(self).projects@[i]))
                    && !branch_accepted(old(self).projects@[k]) && branch_error_matches(
                    old(self).projects@[k],
                    e,
                ),
            r is Ok ==> exists|d: Seq<char>|
                #![trigger dir_of_config(config_path@, d)]
                {
                    &&& dir_of_config(config_path@, d)
                    &&& final(self).projects@.len() == old(self).projects@.len()
                    &&& forall|i: int|
                        0 <= i < old(self).projects@.len() ==> #[trigger] resolved_from(
                            final(self).projects@[i],
                            old(self).projects@[i],
                            d,
                        )
                    &&& final(self).title == old(self).title
                    &&& final(self).filters == old(self).filters
                    &&& match (final(self).output, old(self).output) {
                        (Some(a), Some(b)) => a.timeline_max_buckets == b.timeline_max_buckets
                            && (a.path is Some <==> b.path is Some) && (b.path is Some
                            ==> resolved_against(d, b.path->0@, a.path->0@)),
                        (None, None) => true,
                        _ => false,
                    }
                },
    {
        let dir = config_dir(config_path);
        let mut projects: Vec<ProjectConfig> = Vec::new();
        let n = self.projects.len();
        let mut i: usize = 0;
        while i < n
            invariant
                n == self.projects@.len(),
                *self == *old(self),
                i <= n,
                projects@.len() == i,
                forall|j: int| 0 <= j < i ==> #[trigger] branch_accepted(self.projects@[j]),
                dir_of_config(config_path@, dir@),
                forall|j: int|
                    0 <= j < i ==> #[trigger] resolved_from(projects@[j], self.projects@[j], dir@),
            decreases n - i,
        {
            let p = &self.projects[i];
            let q = ProjectConfig {
                name: p.name.clone(),
                path: resolve_path(dir.as_str(), p.path.as_str()),
                description: copy_opt_string(&p.description),
                branch: copy_opt_string(&p.branch),
                coverage_command: copy_opt_string(&p.coverage_command),
                coverage_result_path: copy_opt_string(&p.coverage_result_path),
                url: copy_opt_string(&p.url),
            };
            match check_branch(p) {
                Ok(()) => {},
                Err(e) => {
                    return Err(e);
                },
            }
            projects.push(q);
            i = i + 1;
        }
        let output = match &self.output {
            Some(o) => Some(
                OutputConfig {
                    path: match &o.path {
                        Some(op) => Some(resolve_path(dir.as_str(), op.as_str())),
                        None => None,
                    },
                    timeline_max_buckets: o.timeline_max_buckets,
                },
            ),
            None => None,
        };
        self.projects = projects;
        self.output = output;
        assert(dir_of_config(config_path@, dir@));
        Ok(())
    }
}

/// Settings given on the command line, which take the place of those of
/// the configuration file.
#[derive(Debug)]
pub struct Overrides {
    pub author: Option<String>,
    pub since: Option<String>,
    pub until: Option<String>,
    pub timeline_max_buckets: Option<usize>,
    pub title: Option<String>,
    /// Commit types, comma-separated.
    pub types: Option<String>,
    /// Commit hashes to leave out, comma-separated.
    pub exclude_hashes: Option<String>,
}

/// An optional setting replaced by `o` where `o` is given.
pub open spec fn overridden<T>(o: Option<T>, x: Option<T>) -> Option<T> {
    match o {
        Some(v) => Some(v),
        None => x,
    }
}

/// A list setting replaced by the comma-separated list `csv` (read lower
/// case) where it is given and holds at least one item.
pub open spec fn list_overridden(csv: Option<String>, x: Option<Vec<String>>) -> Option<Seq<Seq<char>>> {
    match csv {
        Some(c) if spec_csv_list(c@, true).len() > 0 => Some(spec_csv_list(c@, true)),
        _ => match x {
            Some(v) => Some(strings_view(v@)),
            None => None,
        },
    }
}

/// The view of an optional list of strings.
pub open spec fn opt_strings(x: Option<Vec<String>>) -> Option<Seq<Seq<char>>> {
    match x {
        Some(v) => Some(strings_view(v@)),
        None => None,
    }
}

/// A list setting, replaced by the items of `csv` where it holds any.
fn override_list(csv: &Option<String>, x: Option<Vec<String>>) -> (r: Option<Vec<String>>)
    ensures
        opt_strings(r) == list_overridden(*csv, x),
{
    match csv {
        Some(c) => {
            let parsed = parse_csv_list(c.as_str(), true);
            if parsed.len() > 0 {
                Some(parsed)
            } else {
                x
            }
        },
        None => x,
    }
}

impl Config {
    /// Applies the command-line settings: the author, dates and title given
    /// replace the configured ones, a type or hash list replaces the
    /// configured one where it holds an item, and a bucket bound is set on
    /// the output settings.  The filters are present afterwards.
    pub fn apply_overrides(&mut self, o: &Overrides)
        ensures
            final(self).filters matches Some(f) && {
                let old_f = old(self).spec_filters();
                &&& f.author == overridden(o.author, old_f.author)
                &&& f.since == overridden(o.since, old_f.since)
                &&& f.until == overridden(o.until, old_f.until)
                &&& opt_strings(f.types) == list_overridden(o.types, old_f.types)
                &&& opt_strings(f.exclude_hashes) == list_overridden(o.exclude_hashes, old_f.exclude_hashes)
            },
            final(self).title == overridden(o.title, old(self).title),
            final(self).projects == old(self).projects,
            o.timeline_max_buckets is None ==> final(self).output == old(self).output,
            o.timeline_max_buckets matches Some(m) ==> final(self).output matches Some(out) && out.timeline_max_buckets
                == Some(m) && out.path == match old(self).output {
                Some(x) => x.path,
                None => None,
            },
    {
        let f = match self.filters.take() {
            Some(f) => f,
            None => FilterConfig::default(),
        };
        let author = match &o.author {
            Some(a) => Some(a.clone()),
            None => f.author,
        };
        let since = match &o.since {
            Some(a) => Some(a.clone()),
            None => f.since,
        };
        let until = match &o.until {
            Some(a) => Some(a.clone()),
            None => f.until,
        };
        let types = override_list(&o.types, f.types);
        let exclude_hashes = override_list(&o.exclude_hashes, f.exclude_hashes);
        self.filters = Some(FilterConfig { author, since, until, types, exclude_hashes });
        match o.timeline_max_buckets {
            Some(m) => {
                let path = match self.output.take() {
                    Some(x) => x.path,
                    None => None,
                };
                self.output = Some(OutputConfig { path, timeline_max_buckets: Some(m) });
            },
            None => {},
        }
        match &o.title {
            Some(t) => {
                self.title = Some(t.clone());
            },
            None => {},
        }
    }
}

} // verus!
