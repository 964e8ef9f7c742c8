//! The report: the commits and proposals of all projects filtered, put in
//! order (most recent first) and summed up.
use vstd::prelude::*;
use crate::model::{
    lemma_totals, total_deletions, total_insertions, total_lines, CommitEntry, ProposalEntry,
};
use crate::order::{
    insert_pos, lemma_insert_pos, lemma_stable_sort, sorted, stable_sort, strict_order,
};
use crate::breakdown::{
    build_project_data, build_type_breakdown, commits_of, proposals_of, spec_type_breakdown,
    summarizes, tls_view, ProjectData, TypeBreakdown,
};
use crate::config::{Config, ProjectConfig};
use crate::filter::{apply_filters, keeps_commit, keeps_proposal};
use crate::model::sum_insertions_deletions;
use crate::timeline::{
    bucket_lines, buckets_view, build_timeline_with, dated, dated_lines, lemma_timeline_fits, max_day, min_day,
    spec_timeline, Timeline,
};
use crate::text::{
    byte_prefix, chars_for_bytes, chars_in_bytes, chars_of, lemma_lex_lt_asymmetric,
    lemma_lex_lt_transitive, lex_lt, opt_view, push_str, str_eq, str_less,
};

verus! {

broadcast use {vstd::seq_lib::group_to_multiset_ensures, vstd::multiset::group_multiset_axioms};

/// An entry that the report orders by its date.
pub trait Dated: Sized {
    /// The entry's date.
    spec fn date_seq(&self) -> Seq<char>;

    /// The entry's date, as text.
    fn date_str(&self) -> (r: &str)
        ensures
            r@ == self.date_seq(),
    ;

    /// A copy of the entry.
    fn copy_entry(&self) -> (r: Self)
        ensures
            r == *self,
    ;
}

impl Dated for CommitEntry {
    open spec fn date_seq(&self) -> Seq<char> {
        self.date@
    }

    fn date_str(&self) -> (r: &str) {
        self.date.as_str()
    }

    fn copy_entry(&self) -> (r: Self) {
        self.duplicate()
    }
}

impl Dated for ProposalEntry {
    open spec fn date_seq(&self) -> Seq<char> {
        self.date@
    }

    fn date_str(&self) -> (r: &str) {
        self.date.as_str()
    }

    fn copy_entry(&self) -> (r: Self) {
        self.duplicate()
    }
}

/// An entry ranks before another when its date is the later one.
pub open spec fn later<T: Dated>() -> spec_fn(T, T) -> bool {
    |a: T, b: T| lex_lt(b.date_seq(), a.date_seq())
}

/// A commit ranks before another when its date is the later one.
pub open spec fn later_commit() -> spec_fn(CommitEntry, CommitEntry) -> bool {
    later::<CommitEntry>()
}

/// A proposal ranks before another when its date is the later one.
pub open spec fn later_proposal() -> spec_fn(ProposalEntry, ProposalEntry) -> bool {
    later::<ProposalEntry>()
}

proof fn lemma_later_strict<T: Dated>()
    ensures
        strict_order(later::<T>()),
{
    assert forall|a: T, b: T, c: T|
        #[trigger] later::<T>()(a, b) && #[trigger] later::<T>()(b, c) implies later::<T>()(a, c) by {
        lemma_lex_lt_transitive(c.date_seq(), b.date_seq(), a.date_seq());
    }
    assert forall|a: T, b: T| #[trigger] later::<T>()(a, b) implies !later::<T>()(b, a) by {
        lemma_lex_lt_asymmetric(b.date_seq(), a.date_seq());
    }
}

proof fn lemma_later_commit_strict()
    ensures
        strict_order(later_commit()),
{
    lemma_later_strict::<CommitEntry>();
}

proof fn lemma_later_proposal_strict()
    ensures
        strict_order(later_proposal()),
{
    lemma_later_strict::<ProposalEntry>();
}

/// The entries, most recent date first; entries of the same date keep
/// their order.
fn sort_by_date<T: Dated>(v: &[T]) -> (r: Vec<T>)
    ensures
        r@ == stable_sort(v@, later::<T>()),
        sorted(r@, later::<T>()),
        r@.to_multiset() == v@.to_multiset(),
{
    let mut r: Vec<T> = Vec::new();
    let mut i: usize = 0;
    while i < v.len()
        invariant
            i <= v@.len(),
            r@ == stable_sort(v@.take(i as int), later::<T>()),
        decreases v@.len() - i,
    {
        let x = v[i].copy_entry();
        assert(v@.take(i + 1).drop_last() == v@.take(i as int));
        assert(v@.take(i + 1).last() == x);
        let mut k: usize = 0;
        while k < r.len() && !str_less(r[k].date_str(), x.date_str())
            invariant
                k <= r@.len(),
                insert_pos(r@, x, later::<T>(), 0) == insert_pos(r@, x, later::<T>(), k as int),
            decreases r@.len() - k,
        {
            k = k + 1;
        }
        r.insert(k, x);
        i = i + 1;
    }
    assert(v@.take(v@.len() as int) == v@);
    proof {
        lemma_later_strict::<T>();
        lemma_stable_sort(v@, later::<T>());
    }
    r
}

/// The commits, most recent date first; commits of the same date keep
/// their order.
pub fn sort_commits_by_date(v: &[CommitEntry]) -> (r: Vec<CommitEntry>)
    ensures
        r@ == stable_sort(v@, later_commit()),
        sorted(r@, later_commit()),
        r@.to_multiset() == v@.to_multiset(),
{
    sort_by_date(v)
}

/// The proposals, most recent date first; proposals of the same date keep
/// their order.
pub fn sort_proposals_by_date(v: &[ProposalEntry]) -> (r: Vec<ProposalEntry>)
    ensures
        r@ == stable_sort(v@, later_proposal()),
        sorted(r@, later_proposal()),
        r@.to_multiset() == v@.to_multiset(),
{
    sort_by_date(v)
}

/// Inserting a commit adds its lines to the totals.
proof fn lemma_totals_insert(r: Seq<CommitEntry>, k: int, x: CommitEntry)
    requires
        0 <= k <= r.len(),
    ensures
        total_insertions(r.insert(k, x)) == total_insertions(r) + x.insertions,
        total_deletions(r.insert(k, x)) == total_deletions(r) + x.deletions,
        total_lines(r.insert(k, x)) == total_lines(r) + x.lines(),
    decreases r.len(),
{
    if k == r.len() {
        assert(r.insert(k, x) == r.push(x));
        assert(r.push(x).drop_last() == r);
    } else {
        lemma_totals_insert(r.drop_last(), k, x);
        assert(r.insert(k, x).drop_last() == r.drop_last().insert(k, x));
        assert(r.insert(k, x).last() == r.last());
    }
}

/// Putting commits in order leaves their totals unchanged.
pub proof fn lemma_totals_sorted(s: Seq<CommitEntry>, f: spec_fn(CommitEntry, CommitEntry) -> bool)
    ensures
        total_insertions(stable_sort(s, f)) == total_insertions(s),
        total_deletions(stable_sort(s, f)) == total_deletions(s),
        total_lines(stable_sort(s, f)) == total_lines(s),
    decreases s.len(),
{
    if s.len() > 0 {
        lemma_totals_sorted(s.drop_last(), f);
        let r = stable_sort(s.drop_last(), f);
        lemma_insert_pos(r, s.last(), f, 0);
        lemma_totals_insert(r, insert_pos(r, s.last(), f, 0), s.last());
    }
}

/// The commits a filter keeps have at most the totals of all of them.
pub proof fn lemma_totals_filter(s: Seq<CommitEntry>, p: spec_fn(CommitEntry) -> bool)
    ensures
        total_insertions(s.filter(p)) <= total_insertions(s),
        total_deletions(s.filter(p)) <= total_deletions(s),
        total_lines(s.filter(p)) <= total_lines(s),
    decreases s.len(),
{
    reveal_with_fuel(Seq::<CommitEntry>::filter, 1);
    if s.len() > 0 {
        lemma_totals_filter(s.drop_last(), p);
        let t = s.drop_last().filter(p);
        if p(s.last()) {
            assert(t.push(s.last()).drop_last() == t);
        }
    }
}

/// Some commit belongs to the named project.
pub open spec fn has_commit_of(cs: Seq<CommitEntry>, name: Seq<char>) -> bool {
    exists|i: int| 0 <= i < cs.len() && #[trigger] cs[i].project@ == name
}

/// The number of configured projects (counted as often as they are
/// listed) that have a commit.
pub open spec fn repos_with_commits(ps: Seq<ProjectConfig>, cs: Seq<CommitEntry>) -> nat
    decreases ps.len(),
{
    if ps.len() == 0 {
        0
    } else {
        repos_with_commits(ps.drop_last(), cs) + if has_commit_of(cs, ps.last().name@) {
            1nat
        } else {
            0nat
        }
    }
}

/// Whether some commit belongs to the named project.
fn any_commit_of(cs: &[CommitEntry], name: &str) -> (r: bool)
    ensures
        r == has_commit_of(cs@, name@),
{
    let mut i: usize = 0;
    while i < cs.len()
        invariant
            i <= cs@.len(),
            forall|j: int| 0 <= j < i ==> #[trigger] cs@[j].project@ != name@,
        decreases cs@.len() - i,
    {
        if str_eq(cs[i].project.as_str(), name) {
            assert(cs@[i as int].project@ == name@);
            return true;
        }
        i = i + 1;
    }
    false
}

/// Counts the configured projects that have a commit.
pub fn count_repos_with_commits(ps: &[ProjectConfig], cs: &[CommitEntry]) -> (r: usize)
    ensures
        r == repos_with_commits(ps@, cs@),
{
    let mut n: usize = 0;
    let mut i: usize = 0;
    while i < ps.len()
        invariant
            i <= ps@.len(),
            n <= i,
            n == repos_with_commits(ps@.take(i as int), cs@),
        decreases ps@.len() - i,
    {
        assert(ps@.take(i + 1).drop_last() == ps@.take(i as int));
        if any_commit_of(cs, ps[i].name.as_str()) {
            n = n + 1;
        }
        i = i + 1;
    }
    assert(ps@.take(ps@.len() as int) == ps@);
    n
}

/// Every commit's date has a first ten bytes to cut the day from, as the
/// dates read from `git log` do.
pub open spec fn days_cut(cs: Seq<CommitEntry>) -> bool {
    forall|i: int| 0 <= i < cs.len() ==> #[trigger] chars_in_bytes(cs[i].date@, 10) is Some
}

/// Whether every commit's date has a first ten bytes to cut the day from.
pub fn days_cut_ok(cs: &[CommitEntry]) -> (r: bool)
    ensures
        r == days_cut(cs@),
{
    let mut i: usize = 0;
    while i < cs.len()
        invariant
            i <= cs@.len(),
            forall|j: int| 0 <= j < i ==> #[trigger] chars_in_bytes(cs@[j].date@, 10) is Some,
        decreases cs@.len() - i,
    {
        let v = chars_of(cs[i].date.as_str());
        if chars_for_bytes(v.as_slice(), 10).is_none() {
            return false;
        }
        i = i + 1;
    }
    true
}

/// Whether the lines of all the commits add up within a `usize`.
pub fn lines_fit(cs: &[CommitEntry]) -> (r: bool)
    ensures
        r == (total_lines(cs@) <= usize::MAX),
{
    let mut acc: usize = 0;
    let mut i: usize = 0;
    while i < cs.len()
        invariant
            i <= cs@.len(),
            acc == total_lines(cs@.take(i as int)),
        decreases cs@.len() - i,
    {
        proof {
            crate::model::lemma_total_prefix(cs@, i as int);
            assert(cs@.take(i + 1).drop_last() == cs@.take(i as int));
            assert(cs@.take(i + 1).last() == cs@[i as int]);
        }
        let step = match cs[i].insertions.checked_add(cs[i].deletions) {
            Some(x) => x,
            None => {
                proof {
                    crate::model::lemma_total_prefix(cs@, i + 1);
                    lemma_totals(cs@.take(i + 1));
                    lemma_totals(cs@.take(i as int));
                }
                return false;
            },
        };
        match acc.checked_add(step) {
            Some(x) => {
                acc = x;
            },
            None => {
                proof {
                    crate::model::lemma_total_prefix(cs@, i + 1);
                }
                return false;
            },
        }
        i = i + 1;
    }
    assert(cs@.take(cs@.len() as int) == cs@);
    true
}

/// The distinct days (the first ten bytes of the dates) of the commits, in
/// order of first appearance.
pub open spec fn days_seen(cs: Seq<CommitEntry>) -> Seq<Seq<char>>
    decreases cs.len(),
{
    if cs.len() == 0 {
        Seq::empty()
    } else {
        let s = days_seen(cs.drop_last());
        let d = byte_prefix(cs.last().date@, 10);
        if s.contains(d) {
            s
        } else {
            s.push(d)
        }
    }
}

/// The number of distinct days on which the commits were made.
pub fn count_active_days(cs: &[CommitEntry]) -> (r: usize)
    requires
        days_cut(cs@),
    ensures
        r == days_seen(cs@).len(),
{
    let mut seen: Vec<Vec<char>> = Vec::new();
    let ghost mut sv: Seq<Seq<char>> = Seq::empty();
    let mut i: usize = 0;
    while i < cs.len()
        invariant
            i <= cs@.len(),
            days_cut(cs@),
            seen@.len() == sv.len(),
            forall|j: int| 0 <= j < sv.len() ==> #[trigger] seen@[j]@ == sv[j],
            sv == days_seen(cs@.take(i as int)),
            sv.len() <= i,
        decreases cs@.len() - i,
    {
        assert(cs@.take(i + 1).drop_last() == cs@.take(i as int));
        assert(cs@.take(i + 1).last() == cs@[i as int]);
        let v = chars_of(cs[i].date.as_str());
        assert(chars_in_bytes(cs@[i as int].date@, 10) is Some);
        let k = match chars_for_bytes(v.as_slice(), 10) {
            Some(k) => k,
            None => 0,
        };
        let day = crate::text::sub_chars(v.as_slice(), 0, k);
        assert(day@ == byte_prefix(cs@[i as int].date@, 10));
        let mut found = false;
        let mut j: usize = 0;
        while j < seen.len()
            invariant
                j <= seen@.len() == sv.len(),
                forall|t: int| 0 <= t < sv.len() ==> #[trigger] seen@[t]@ == sv[t],
                found == exists|t: int| 0 <= t < j && sv[t] == day@,
            decreases seen@.len() - j,
        {
            if crate::text::same_chars(seen[j].as_slice(), day.as_slice()) {
                found = true;
            }
            j = j + 1;
        }
        assert(found == sv.contains(day@));
        if !found {
            proof {
                sv = sv.push(day@);
            }
            seen.push(day);
        }
        i = i + 1;
    }
    assert(cs@.take(cs@.len() as int) == cs@);
    seen.len()
}

/// The earliest date of the commits (non-empty), in string order.
pub open spec fn min_date(cs: Seq<CommitEntry>) -> Seq<char>
    decreases cs.len(),
{
    if cs.len() <= 1 {
        cs[0].date@
    } else {
        let m = min_date(cs.drop_last());
        if lex_lt(cs.last().date@, m) {
            cs.last().date@
        } else {
            m
        }
    }
}

/// The latest date of the commits (non-empty), in string order.
pub open spec fn max_date(cs: Seq<CommitEntry>) -> Seq<char>
    decreases cs.len(),
{
    if cs.len() <= 1 {
        cs[0].date@
    } else {
        let m = max_date(cs.drop_last());
        if lex_lt(m, cs.last().date@) {
            cs.last().date@
        } else {
            m
        }
    }
}

/// The span of the commits' dates: `N/A` with no commit, else the earliest
/// and the latest date joined by ` ~ `.
pub open spec fn spec_date_range(cs: Seq<CommitEntry>) -> Seq<char> {
    if cs.len() == 0 {
        "N/A"@
    } else {
        min_date(cs) + " ~ "@ + max_date(cs)
    }
}

/// The span of the commits' dates.
pub fn date_range(cs: &[CommitEntry]) -> (r: String)
    ensures
        r@ == spec_date_range(cs@),
{
    if cs.len() == 0 {
        return "N/A".to_string();
    }
    let mut lo: usize = 0;
    let mut hi: usize = 0;
    let mut i: usize = 1;
    while i < cs.len()
        invariant
            1 <= i <= cs@.len(),
            lo < i,
            hi < i,
            cs@[lo as int].date@ == min_date(cs@.take(i as int)),
            cs@[hi as int].date@ == max_date(cs@.take(i as int)),
        decreases cs@.len() - i,
    {
        assert(cs@.take(i + 1).drop_last() == cs@.take(i as int));
        assert(cs@.take(i + 1).last() == cs@[i as int]);
        if str_less(cs[i].date.as_str(), cs[lo].date.as_str()) {
            lo = i;
        }
        if str_less(cs[hi].date.as_str(), cs[i].date.as_str()) {
            hi = i;
        }
        i = i + 1;
    }
    assert(cs@.take(cs@.len() as int) == cs@);
    let mut r = cs[lo].date.clone();
    push_str(&mut r, " ~ ");
    push_str(&mut r, cs[hi].date.as_str());
    r
}

/// The figures of the report's summary.
#[derive(Debug, Clone)]
pub struct Summary {
    pub total_commits: usize,
    /// The configured projects that have a commit.
    pub total_repos: usize,
    pub total_proposals: usize,
    pub lines_added: usize,
    pub lines_removed: usize,
    /// The distinct days on which the commits were made, the base of the
    /// daily average.
    pub active_days: usize,
}

/// The report: its title, whose commits it shows, the span of their dates,
/// the summary, the timeline, the breakdown by type, the projects, and the
/// proposals and commits themselves, most recent first.
#[derive(Debug)]
pub struct ShowcaseData {
    pub title: String,
    pub author: String,
    pub date_range: String,
    pub summary: Summary,
    pub timeline: Timeline,
    pub type_breakdown: Vec<TypeBreakdown>,
    pub projects: Vec<ProjectData>,
    pub proposals: Vec<ProposalEntry>,
    pub commits: Vec<CommitEntry>,
}

/// The commits the report shows: those the filters keep, most recent
/// first.
pub open spec fn shown_commits(config: Config, cs: Seq<CommitEntry>) -> Seq<CommitEntry> {
    stable_sort(cs.filter(|c: CommitEntry| keeps_commit(config.spec_filters(), c)), later_commit())
}

/// The proposals the report shows: those the filters keep, most recent
/// first.
pub open spec fn shown_proposals(config: Config, ps: Seq<ProposalEntry>) -> Seq<ProposalEntry> {
    stable_sort(ps.filter(|p: ProposalEntry| keeps_proposal(config.spec_filters(), p)), later_proposal())
}

/// The timeline's buckets and scale for the commits under a bucket bound:
/// empty where no commit has a date chrono reads.
pub open spec fn timeline_of(cs: Seq<CommitEntry>, max: int) -> (Seq<(Seq<char>, int)>, int) {
    let ds = dated(cs);
    if ds.len() > 0 {
        spec_timeline(ds, max)
    } else {
        (Seq::empty(), 0)
    }
}

/// The configured projects that have a commit or a proposal, in order.
pub open spec fn shown_projects(
    ps: Seq<ProjectConfig>,
    cs: Seq<CommitEntry>,
    props: Seq<ProposalEntry>,
) -> Seq<ProjectConfig> {
    ps.filter(
        |p: ProjectConfig| commits_of(cs, p.name@).len() > 0 || proposals_of(props, p.name@).len() > 0,
    )
}

/// The description of a configured project, or the empty text.
pub open spec fn description_or_empty(p: ProjectConfig) -> Seq<char> {
    match p.description {
        Some(d) => d@,
        None => Seq::empty(),
    }
}

/// The link of a configured project.
pub open spec fn url_of(p: ProjectConfig) -> Option<Seq<char>> {
    match p.url {
        Some(u) => Some(u@),
        None => None,
    }
}

/// The title the report carries: the configured one, or `貢獻總覽`.
pub open spec fn report_title(config: Config) -> Seq<char> {
    match config.title {
        Some(t) => t@,
        None => "貢獻總覽"@,
    }
}

/// Whose commits the report shows: the author filter, or `ALL`.
pub open spec fn report_author(config: Config) -> Seq<char> {
    match config.spec_filters().author {
        Some(a) => a@,
        None => "ALL"@,
    }
}

/// The report shows exactly the commits that the filters keep: each shown
/// commit is one of those read and passes the filters, each kept commit is
/// shown as often as it was read, most recent first, and the shown commits
/// change as many lines as the kept ones.
pub proof fn lemma_shown_commits(config: Config, cs: Seq<CommitEntry>)
    ensures
        ({
            let keep = |c: CommitEntry| keeps_commit(config.spec_filters(), c);
            let kc = shown_commits(config, cs);
            &&& forall|i: int|
                0 <= i < kc.len() ==> cs.contains(#[trigger] kc[i]) && keeps_commit(
                    config.spec_filters(),
                    kc[i],
                )
            &&& kc.to_multiset() == cs.filter(keep).to_multiset()
            &&& sorted(kc, later_commit())
            &&& total_lines(kc) == total_lines(cs.filter(keep))
            &&& total_lines(kc) <= total_lines(cs)
        }),
{
    let keep = |c: CommitEntry| keeps_commit(config.spec_filters(), c);
    let f = cs.filter(keep);
    let kc = shown_commits(config, cs);
    lemma_later_commit_strict();
    lemma_stable_sort(f, later_commit());
    lemma_totals_sorted(f, later_commit());
    lemma_totals_filter(cs, keep);
    assert forall|i: int| 0 <= i < kc.len() implies cs.contains(#[trigger] kc[i]) && keeps_commit(
        config.spec_filters(),
        kc[i],
    ) by {
        assert(kc.to_multiset().count(kc[i]) > 0);
        assert(f.contains(kc[i]));
        let j = choose|j: int| 0 <= j < f.len() && f[j] == kc[i];
        cs.lemma_filter_contains_rev(keep, f[j]);
        cs.lemma_filter_pred(keep, j);
    }
}

/// The report shows exactly the proposals that the filters keep, most
/// recent first.
pub proof fn lemma_shown_proposals(config: Config, ps: Seq<ProposalEntry>)
    ensures
        ({
            let keep = |p: ProposalEntry| keeps_proposal(config.spec_filters(), p);
            let kp = shown_proposals(config, ps);
            &&& forall|i: int|
                0 <= i < kp.len() ==> ps.contains(#[trigger] kp[i]) && keeps_proposal(
                    config.spec_filters(),
                    kp[i],
                )
            &&& kp.to_multiset() == ps.filter(keep).to_multiset()
            &&& sorted(kp, later_proposal())
        }),
{
    let keep = |p: ProposalEntry| keeps_proposal(config.spec_filters(), p);
    let f = ps.filter(keep);
    let kp = shown_proposals(config, ps);
    lemma_later_proposal_strict();
    lemma_stable_sort(f, later_proposal());
    assert forall|i: int| 0 <= i < kp.len() implies ps.contains(#[trigger] kp[i]) && keeps_proposal(
        config.spec_filters(),
        kp[i],
    ) by {
        assert(kp.to_multiset().count(kp[i]) > 0);
        assert(f.contains(kp[i]));
        let j = choose|j: int| 0 <= j < f.len() && f[j] == kp[i];
        ps.lemma_filter_contains_rev(keep, f[j]);
        ps.lemma_filter_pred(keep, j);
    }
}

/// There are active days exactly when there are commits, and no more days
/// than commits: the daily average never divides by zero.
pub proof fn lemma_active_days(cs: Seq<CommitEntry>)
    ensures
        days_seen(cs).len() <= cs.len(),
        days_seen(cs).len() == 0 <==> cs.len() == 0,
    decreases cs.len(),
{
    if cs.len() > 0 {
        lemma_active_days(cs.drop_last());
    }
}

/// Every commit of `t` is one of `s`.
proof fn lemma_days_cut_kept(s: Seq<CommitEntry>, t: Seq<CommitEntry>)
    requires
        days_cut(s),
        forall|i: int| 0 <= i < t.len() ==> s.contains(#[trigger] t[i]),
    ensures
        days_cut(t),
{
    assert forall|i: int| 0 <= i < t.len() implies #[trigger] chars_in_bytes(t[i].date@, 10) is Some by {
        assert(s.contains(t[i]));
        let j = choose|j: int| 0 <= j < s.len() && s[j] == t[i];
        assert(chars_in_bytes(s[j].date@, 10) is Some);
    }
}

/// Builds the report from the commits and proposals read from all the
/// configured projects: the filters applied, commits and proposals put most
/// recent first, the summary figures, the date span, the timeline (under
/// the configured bucket bound), the breakdown by type, and a summary of
/// each configured project that has a commit or a proposal.  The date of
/// each commit the filters keep is read by its first ten bytes, so those
/// dates are required to hold them.
pub fn build_report(config: &Config, commits: &[CommitEntry], proposals: &[ProposalEntry]) -> (r:
    ShowcaseData)
    requires
        total_lines(commits@) <= usize::MAX,
        days_cut(commits@.filter(|c: CommitEntry| keeps_commit(config.spec_filters(), c))),
    ensures
        ({
            let kc = shown_commits(*config, commits@);
            let kp = shown_proposals(*config, proposals@);
            &&& r.commits@ == kc
            &&& r.proposals@ == kp
            &&& r.title@ == report_title(*config)
            &&& r.author@ == report_author(*config)
            &&& r.date_range@ == spec_date_range(kc)
            &&& r.summary.total_commits == kc.len()
            &&& r.summary.total_repos == repos_with_commits(config.projects@, kc)
            &&& r.summary.total_proposals == kp.len()
            &&& r.summary.lines_added == total_insertions(kc)
            &&& r.summary.lines_removed == total_deletions(kc)
            &&& r.summary.active_days == days_seen(kc).len()
            &&& (buckets_view(r.timeline.buckets@), r.timeline.max_lines as int) == timeline_of(
                kc,
                config.spec_timeline_max_buckets() as int,
            )
            &&& bucket_lines(buckets_view(r.timeline.buckets@)) == dated_lines(dated(kc))
            &&& tls_view(r.type_breakdown@) == spec_type_breakdown(kc)
            &&& r.projects@.len() == shown_projects(config.projects@, kc, kp).len()
            &&& forall|i: int|
                0 <= i < r.projects@.len() ==> {
                    let p = #[trigger] shown_projects(config.projects@, kc, kp)[i];
                    summarizes(r.projects@[i], p.name@, description_or_empty(p), url_of(p), kc, kp)
                }
        }),
{
    let (fc, fp) = apply_filters(commits, proposals, config);
    let ghost keep_c = |c: CommitEntry| keeps_commit(config.spec_filters(), c);
    proof {
        lemma_totals_filter(commits@, keep_c);
    }
    let kc = sort_commits_by_date(fc.as_slice());
    let kp = sort_proposals_by_date(fp.as_slice());
    proof {
        lemma_totals_sorted(fc@, later_commit());
        assert forall|i: int| 0 <= i < kc@.len() implies commits@.contains(#[trigger] kc@[i]) by {
            assert(kc@.to_multiset().count(kc@[i]) > 0);
            assert(fc@.contains(kc@[i]));
            let j = choose|j: int| 0 <= j < fc@.len() && fc@[j] == kc@[i];
            commits@.lemma_filter_contains_rev(keep_c, fc@[j]);
        }
        assert forall|i: int| 0 <= i < kc@.len() implies fc@.contains(#[trigger] kc@[i]) by {
            assert(kc@.to_multiset().count(kc@[i]) > 0);
        }
        lemma_days_cut_kept(fc@, kc@);
        lemma_totals(kc@);
    }
    let (lines_added, lines_removed) = sum_insertions_deletions(kc.as_slice());
    let total_repos = count_repos_with_commits(config.projects.as_slice(), kc.as_slice());
    let active_days = count_active_days(kc.as_slice());
    let span = date_range(kc.as_slice());
    let max = config.timeline_max_buckets();
    proof {
        lemma_timeline_fits(kc@, max as int);
    }
    let timeline = build_timeline_with(kc.as_slice(), max);
    let type_breakdown = build_type_breakdown(kc.as_slice());
    let mut projects: Vec<ProjectData> = Vec::new();
    let ghost shown = |p: ProjectConfig|
        commits_of(kc@, p.name@).len() > 0 || proposals_of(kp@, p.name@).len() > 0;
    let mut i: usize = 0;
    while i < config.projects.len()
        invariant
            i <= config.projects@.len(),
            total_lines(kc@) <= usize::MAX,
            shown == (|p: ProjectConfig|
                commits_of(kc@, p.name@).len() > 0 || proposals_of(kp@, p.name@).len() > 0),
            projects@.len() == config.projects@.take(i as int).filter(shown).len(),
            forall|j: int|
                0 <= j < projects@.len() ==> {
                    let p = #[trigger] config.projects@.take(i as int).filter(shown)[j];
                    summarizes(projects@[j], p.name@, description_or_empty(p), url_of(p), kc@, kp@)
                },
        decreases config.projects@.len() - i,
    {
        let p = &config.projects[i];
        proof {
            lemma_totals_filter(kc@, |c: CommitEntry| c.project@ == p.name@);
            reveal_with_fuel(Seq::<ProjectConfig>::filter, 1);
            assert(config.projects@.take(i + 1).drop_last() == config.projects@.take(i as int));
            assert(config.projects@.take(i + 1).last() == *p);
        }
        let description: &str = match &p.description {
            Some(d) => d.as_str(),
            None => "",
        };
        proof {
            reveal_strlit("");
        }
        let url: Option<&str> = match &p.url {
            Some(u) => Some(u.as_str()),
            None => None,
        };
        let summary = build_project_data(p.name.as_str(), description, url, kc.as_slice(), kp.as_slice());
        if summary.commit_count > 0 || summary.proposal_count > 0 {
            let ghost before = projects@;
            projects.push(summary);
            proof {
                let t = config.projects@.take(i as int).filter(shown);
                assert(config.projects@.take(i + 1).filter(shown) == t.push(*p));
                assert forall|j: int| 0 <= j < projects@.len() implies {
                    let q = #[trigger] config.projects@.take(i + 1).filter(shown)[j];
                    summarizes(projects@[j], q.name@, description_or_empty(q), url_of(q), kc@, kp@)
                } by {
                    if j < before.len() {
                        assert(projects@[j] == before[j]);
                        assert(t.push(*p)[j] == t[j]);
                    } else {
                        assert(t.push(*p)[j] == *p);
                        assert(projects@[j] == summary);
                        assert(description@ == description_or_empty(*p));
                        assert(opt_view(url) == url_of(*p));
                    }
                }
            }
        }
        i = i + 1;
    }
    assert(config.projects@.take(config.projects@.len() as int) == config.projects@);
    let title = match &config.title {
        Some(t) => t.clone(),
        None => "貢獻總覽".to_string(),
    };
    let author = match &config.filters {
        Some(f) => match &f.author {
            Some(a) => a.clone(),
            None => "ALL".to_string(),
        },
        None => "ALL".to_string(),
    };
    ShowcaseData {
        title,
        author,
        date_range: span,
        summary: Summary {
            total_commits: kc.len(),
            total_repos,
            total_proposals: kp.len(),
            lines_added,
            lines_removed,
            active_days,
        },
        timeline,
        type_breakdown,
        projects,
        proposals: kp,
        commits: kc,
    }
}

} // verus!
