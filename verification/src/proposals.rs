//! Archived OpenSpec proposals: the archive directory's name read into a
//! date and a slug, the finished tasks counted, the description read, and
//! the proposals put in order, most recent first.
use vstd::prelude::*;
use crate::model::ProposalEntry;
use crate::text::{
    chars_for_bytes, chars_in_bytes, chars_of, contains, contains_seq, has_prefix, lines,
    lines_from, next_line, starts_with, string_of, sub_chars, trim, trim_char, trimmed,
    trimmed_char,
};

verus! {

/// Byte `i` of the UTF-8 text of `s` is the ASCII character `c`.  An ASCII
/// byte always starts a character, so this is: the first `i` bytes end on a
/// character boundary, and the character after them is `c`.
pub open spec fn ascii_byte_at(s: Seq<char>, i: int, c: char) -> bool {
    match chars_in_bytes(s, i) {
        Some(k) => k < s.len() && s[k] == c,
        None => false,
    }
}

/// The date and the slug of an archive directory named `YYYY-MM-DD-slug`:
/// byte 10 must be `-`, and bytes 4 and 7 of the first ten; `None` for any
/// other name.
pub open spec fn archive_entry(name: Seq<char>) -> Option<(Seq<char>, Seq<char>)> {
    if ascii_byte_at(name, 10, '-') {
        let k = chars_in_bytes(name, 10)->0;
        let date = name.take(k);
        if ascii_byte_at(date, 4, '-') && ascii_byte_at(date, 7, '-') {
            Some((date, name.skip(k + 1)))
        } else {
            None
        }
    } else {
        None
    }
}

/// Whether byte `i` of `v` is the ASCII character `c`.
fn is_ascii_byte_at(v: &[char], i: usize, c: char) -> (r: bool)
    ensures
        r == ascii_byte_at(v@, i as int, c),
{
    match chars_for_bytes(v, i) {
        Some(k) => k < v.len() && v[k] == c,
        None => false,
    }
}

/// Reads the name of an archive directory, `YYYY-MM-DD-slug`, into its
/// date and slug.
pub fn parse_archive_dir_name(name: &str) -> (r: Option<(String, String)>)
    ensures
        match r {
            Some((d, s)) => archive_entry(name@) == Some((d@, s@)),
            None => archive_entry(name@) is None,
        },
{
    let v = chars_of(name);
    if !is_ascii_byte_at(v.as_slice(), 10, '-') {
        return None;
    }
    let k = match chars_for_bytes(v.as_slice(), 10) {
        Some(k) => k,
        None => {
            return None;
        },
    };
    let date = sub_chars(v.as_slice(), 0, k);
    assert(date@ == v@.take(k as int));
    if !is_ascii_byte_at(date.as_slice(), 4, '-') || !is_ascii_byte_at(date.as_slice(), 7, '-') {
        return None;
    }
    let slug = sub_chars(v.as_slice(), k + 1, v.len());
    assert(slug@ == v@.skip(k + 1));
    Some((string_of(date.as_slice()), string_of(slug.as_slice())))
}

/// The number of lines that hold `- [x]`, a finished task of `tasks.md`.
pub open spec fn done_tasks(ls: Seq<Seq<char>>) -> nat
    decreases ls.len(),
{
    if ls.len() == 0 {
        0
    } else {
        (if contains_seq(ls[0], "- [x]"@) {
            1nat
        } else {
            0nat
        }) + done_tasks(ls.drop_first())
    }
}

/// One if the line holds `- [x]` anywhere, indented or not; zero otherwise.
pub open spec fn holds_done_mark(l: Seq<char>) -> int {
    if contains_seq(l, "- [x]"@) {
        1
    } else {
        0
    }
}

proof fn lemma_done_tasks_local(a: Seq<Seq<char>>, b: Seq<Seq<char>>, i: int)
    requires
        a.len() == b.len(),
        0 <= i < a.len(),
        forall|j: int| 0 <= j < a.len() && j != i ==> a[j] == b[j],
    ensures
        done_tasks(b) - done_tasks(a) == holds_done_mark(b[i]) - holds_done_mark(a[i]),
    decreases a.len(),
{
    if i == 0 {
        assert(a.drop_first() =~= b.drop_first()) by {
            assert forall|j: int| 0 <= j < a.drop_first().len() implies a.drop_first()[j]
                == b.drop_first()[j] by {
                assert(a[j + 1] == b[j + 1]);
            }
        }
    } else {
        assert forall|j: int| 0 <= j < a.drop_first().len() && j != i - 1 implies a.drop_first()[j]
            == b.drop_first()[j] by {
            assert(a[j + 1] == b[j + 1]);
        }
        lemma_done_tasks_local(a.drop_first(), b.drop_first(), i - 1);
        assert(a[0] == b[0]);
    }
}

/// Each line of a `tasks.md` counts on its own: two files whose lines
/// differ in one line only differ in their counts by what that line holds,
/// one for a line with `- [x]` anywhere in it (indented or after other
/// text) and none for a line without.
pub proof fn lemma_done_tasks_count_each_line(a: Seq<char>, b: Seq<char>, i: int)
    requires
        lines(a).len() == lines(b).len(),
        0 <= i < lines(a).len(),
        forall|j: int| 0 <= j < lines(a).len() && j != i ==> lines(a)[j] == lines(b)[j],
    ensures
        done_tasks(lines(b)) - done_tasks(lines(a)) == holds_done_mark(lines(b)[i])
            - holds_done_mark(lines(a)[i]),
{
    lemma_done_tasks_local(lines(a), lines(b), i);
}

proof fn lemma_done_tasks_none_seq(ls: Seq<Seq<char>>)
    requires
        forall|j: int| 0 <= j < ls.len() ==> !contains_seq(#[trigger] ls[j], "- [x]"@),
    ensures
        done_tasks(ls) == 0,
    decreases ls.len(),
{
    if ls.len() > 0 {
        assert(!contains_seq(ls[0], "- [x]"@));
        assert forall|j: int| 0 <= j < ls.drop_first().len() implies !contains_seq(
            #[trigger] ls.drop_first()[j],
            "- [x]"@,
        ) by {
            assert(ls.drop_first()[j] == ls[j + 1]);
        }
        lemma_done_tasks_none_seq(ls.drop_first());
    }
}

/// A `tasks.md` none of whose lines holds `- [x]` has no finished task.
pub proof fn lemma_done_tasks_none(content: Seq<char>)
    requires
        forall|j: int| 0 <= j < lines(content).len() ==> !contains_seq(
            #[trigger] lines(content)[j],
            "- [x]"@,
        ),
    ensures
        done_tasks(lines(content)) == 0,
{
    lemma_done_tasks_none_seq(lines(content));
}

/// Counts the finished tasks of a `tasks.md`: the lines that hold `- [x]`.
pub fn count_done_tasks(content: &str) -> (r: usize)
    ensures
        r == done_tasks(lines(content@)),
{
    let v = chars_of(content);
    let n = v.len();
    let pat = chars_of("- [x]");
    let mut count: usize = 0;
    let mut p: usize = 0;
    while p < n
        invariant
            n == v@.len(),
            v@ == content@,
            pat@ == "- [x]"@,
            p <= n,
            count + done_tasks(lines_from(v@, p as int)) == done_tasks(lines(content@)),
            count <= p,
        decreases n - p,
    {
        let (line, next) = next_line(v.as_slice(), p);
        if contains(line.as_slice(), pat.as_slice()) {
            count = count + 1;
        }
        p = next;
    }
    count
}

/// The description a line of `.openspec.yaml` gives, where it is the
/// `description:` line: the value trimmed, then stripped of surrounding
/// double quotes, then of single quotes.
pub open spec fn description_of_line(l: Seq<char>) -> Option<Seq<char>> {
    let t = trim(l);
    if starts_with(t, "description:"@) {
        Some(trim_char(trim_char(trim(t.skip("description:"@.len() as int)), '"'), '\''))
    } else {
        None
    }
}

/// The description given by the first `description:` line.
pub open spec fn first_description(ls: Seq<Seq<char>>) -> Option<Seq<char>>
    decreases ls.len(),
{
    if ls.len() == 0 {
        None
    } else {
        match description_of_line(ls[0]) {
            Some(d) => Some(d),
            None => first_description(ls.drop_first()),
        }
    }
}

/// The description of a proposal's `.openspec.yaml`, or the empty text.
pub open spec fn spec_description(content: Seq<char>) -> Seq<char> {
    match first_description(lines(content)) {
        Some(d) => d,
        None => Seq::empty(),
    }
}

/// Reads the description of a proposal from its `.openspec.yaml`: the value
/// of the first `description:` line, trimmed and without quotes around it;
/// empty where there is none.
pub fn proposal_description(content: &str) -> (r: String)
    ensures
        r@ == spec_description(content@),
{
    let v = chars_of(content);
    let n = v.len();
    let key = chars_of("description:");
    let mut p: usize = 0;
    while p < n
        invariant
            n == v@.len(),
            v@ == content@,
            key@ == "description:"@,
            p <= n,
            first_description(lines(content@)) == first_description(lines_from(v@, p as int)),
        decreases n - p,
    {
        let (line, next) = next_line(v.as_slice(), p);
        let t = trimmed(line.as_slice());
        if has_prefix(t.as_slice(), key.as_slice()) {
            let rest = sub_chars(t.as_slice(), key.len(), t.len());
            assert(rest@ == t@.skip("description:"@.len() as int));
            let a = trimmed(rest.as_slice());
            let b = trimmed_char(a.as_slice(), '"');
            let c = trimmed_char(b.as_slice(), '\'');
            return string_of(c.as_slice());
        }
        p = next;
    }
    String::new()
}

/// Makes the proposal of an archive directory of the named project, from
/// the directory's name and the texts of its `tasks.md` and
/// `.openspec.yaml` where they could be read; `None` where the name does
/// not start with a date.
pub fn proposal_from_dir(name: &str, project: &str, tasks: Option<&str>, spec_file: Option<&str>) -> (r:
    Option<ProposalEntry>)
    ensures
        match archive_entry(name@) {
            None => r is None,
            Some((d, s)) => r matches Some(p) && {
                &&& p.date@ == d
                &&& p.slug@ == s
                &&& p.project@ == project@
                &&& p.task_count == match tasks {
                    Some(t) => done_tasks(lines(t@)),
                    None => 0,
                }
                &&& p.description@ == match spec_file {
                    Some(f) => spec_description(f@),
                    None => Seq::empty(),
                }
            },
        },
{
    match parse_archive_dir_name(name) {
        None => None,
        Some((date, slug)) => {
            let task_count = match tasks {
                Some(t) => count_done_tasks(t),
                None => 0,
            };
            let description = match spec_file {
                Some(f) => proposal_description(f),
                None => String::new(),
            };
            Some(ProposalEntry { slug, date, project: project.to_string(), description, task_count })
        },
    }
}

} // verus!
