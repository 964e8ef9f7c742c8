//! The commit timeline: changed lines per calendar bucket, from the first
//! commit's day to the last one's, at the finest of five granularities that
//! needs no more buckets than a bound (fourteen unless configured).
use vstd::prelude::*;
use crate::dates::{
    chrono_day_label, chrono_parse_day, chrono_week_label, chrono_year_month, day_label, parse_day,
    week_label, year_month, FIRST_DAY, LAST_DAY,
};
use crate::filter::is_listed;
use crate::model::{total_lines, CommitEntry};
use crate::number::{
    lemma_one_digit, lemma_padded_signed_injective, lemma_two_digits, padded_signed,
    push_padded_signed,
};
use crate::text::{push_char, str_eq, strings_view};

verus! {

/// The most buckets a granularity may need before the next coarser one is
/// taken, where the configuration sets no other bound.
pub const DEFAULT_MAX_BUCKETS: usize = 14;

/// The size of a timeline bucket.
#[derive(Debug, Clone, Copy, PartialEq, Eq, Structural)]
pub enum Granularity {
    Daily,
    Weekly,
    Monthly,
    Quarterly,
    Yearly,
}

/// One bucket of the timeline: its label and the lines changed in it.
#[derive(Debug, Clone)]
pub struct TimelineEntry {
    pub label: String,
    pub lines: usize,
}

/// The timeline's buckets, in calendar order, and the largest sum that a
/// bucket holding a commit has (the scale of the chart).
#[derive(Debug, Clone)]
pub struct Timeline {
    pub buckets: Vec<TimelineEntry>,
    pub max_lines: usize,
}

/// The label and the lines of each bucket.
pub open spec fn buckets_view(b: Seq<TimelineEntry>) -> Seq<(Seq<char>, int)> {
    b.map_values(|x: TimelineEntry| (x.label@, x.lines as int))
}

// ------------------------------------------------------------------------
// The model
// ------------------------------------------------------------------------
/// The day and the changed lines of each commit whose date chrono reads, in
/// order; commits whose date it does not read are left out.
pub open spec fn dated(commits: Seq<CommitEntry>) -> Seq<(int, int)>
    decreases commits.len(),
{
    if commits.len() == 0 {
        Seq::empty()
    } else {
        let rest = dated(commits.drop_last());
        match chrono_parse_day(commits.last().date@) {
            Some(d) => rest.push((d as int, commits.last().lines())),
            None => rest,
        }
    }
}

/// The earliest day of a non-empty list.
pub open spec fn min_day(ds: Seq<(int, int)>) -> int
    decreases ds.len(),
{
    if ds.len() <= 1 {
        ds[0].0
    } else {
        let m = min_day(ds.drop_last());
        if ds.last().0 < m {
            ds.last().0
        } else {
            m
        }
    }
}

/// The latest day of a non-empty list.
pub open spec fn max_day(ds: Seq<(int, int)>) -> int
    decreases ds.len(),
{
    if ds.len() <= 1 {
        ds[0].0
    } else {
        let m = max_day(ds.drop_last());
        if ds.last().0 > m {
            ds.last().0
        } else {
            m
        }
    }
}

/// Chrono can write day `n` as a date, as an ISO week, and as a year and
/// month.
pub open spec fn known_day(n: int) -> bool {
    &&& chrono_day_label(n as i32) is Some
    &&& chrono_week_label(n as i32) is Some
    &&& chrono_year_month(n as i32) is Some
}

/// The date text of day `n`.
pub open spec fn date_of(n: int) -> Seq<char> {
    match chrono_day_label(n as i32) {
        Some(l) => l,
        None => Seq::empty(),
    }
}

/// The ISO week text of day `n`.
pub open spec fn week_of(n: int) -> Seq<char> {
    match chrono_week_label(n as i32) {
        Some(l) => l,
        None => Seq::empty(),
    }
}

/// The year and month of day `n`.
pub open spec fn ym_of(n: int) -> (int, int) {
    match chrono_year_month(n as i32) {
        Some((y, m)) => (y as int, m as int),
        None => (0, 1),
    }
}

/// Every day from `lo` to `hi` is one chrono can write, and the year and
/// month of `lo` do not come after those of `hi`.
pub open spec fn calendar_known(lo: int, hi: int) -> bool {
    &&& forall|n: int| lo <= n <= hi ==> #[trigger] known_day(n)
    &&& ym_of(lo).0 * 12 + ym_of(lo).1 <= ym_of(hi).0 * 12 + ym_of(hi).1
}

/// The distinct ISO weeks of the days `lo..=hi`, in order of first
/// appearance.
pub open spec fn weeks_seen(lo: int, hi: int) -> Seq<Seq<char>>
    decreases hi + 1 - lo,
{
    if hi < lo {
        Seq::empty()
    } else {
        let s = weeks_seen(lo, hi - 1);
        if s.contains(week_of(hi)) {
            s
        } else {
            s.push(week_of(hi))
        }
    }
}

/// The ISO weeks of the days `lo..=hi`, each run of equal weeks given once.
pub open spec fn week_runs(lo: int, hi: int) -> Seq<Seq<char>>
    decreases hi + 1 - lo,
{
    if hi < lo {
        Seq::empty()
    } else {
        let s = week_runs(lo, hi - 1);
        if s.len() > 0 && s.last() == week_of(hi) {
            s
        } else {
            s.push(week_of(hi))
        }
    }
}

/// The quarter, `1..=4`, of month `m`.
pub open spec fn quarter_of(m: int) -> int {
    (m - 1) / 3 + 1
}

/// The number of calendar months from the month of `lo` to that of `hi`.
pub open spec fn month_count(lo: int, hi: int) -> int {
    (ym_of(hi).0 - ym_of(lo).0) * 12 + ym_of(hi).1 - ym_of(lo).1 + 1
}

/// The number of calendar quarters from the quarter of `lo` to that of `hi`.
pub open spec fn quarter_count(lo: int, hi: int) -> int {
    (ym_of(hi).0 - ym_of(lo).0) * 4 + quarter_of(ym_of(hi).1) - quarter_of(ym_of(lo).1) + 1
}

/// The finest granularity that covers `lo..=hi` in at most `max` buckets:
/// days, then ISO weeks, months and quarters; years otherwise.
pub open spec fn granularity(lo: int, hi: int, max: int) -> Granularity {
    if hi - lo + 1 <= max {
        Granularity::Daily
    } else if weeks_seen(lo, hi).len() <= max {
        Granularity::Weekly
    } else if month_count(lo, hi) <= max {
        Granularity::Monthly
    } else if quarter_count(lo, hi) <= max {
        Granularity::Quarterly
    } else {
        Granularity::Yearly
    }
}

/// `format!("{:04}-{:02}", y, m)`.
pub open spec fn month_label(y: int, m: int) -> Seq<char> {
    padded_signed(y, 4) + seq!['-'] + padded_signed(m, 2)
}

/// `format!("{}-Q{}", y, q)`.
pub open spec fn quarter_label(y: int, q: int) -> Seq<char> {
    padded_signed(y, 0) + seq!['-', 'Q'] + padded_signed(q, 0)
}

/// `format!("{}", y)`.
pub open spec fn year_label(y: int) -> Seq<char> {
    padded_signed(y, 0)
}

/// The label of the bucket that holds day `n`.
pub open spec fn bucket_label(g: Granularity, n: int) -> Seq<char> {
    match g {
        Granularity::Daily => date_of(n),
        Granularity::Weekly => week_of(n),
        Granularity::Monthly => month_label(ym_of(n).0, ym_of(n).1),
        Granularity::Quarterly => quarter_label(ym_of(n).0, quarter_of(ym_of(n).1)),
        Granularity::Yearly => year_label(ym_of(n).0),
    }
}

/// The labels of all buckets from the one of `lo` to the one of `hi`, with
/// no gap.
pub open spec fn all_labels(g: Granularity, lo: int, hi: int) -> Seq<Seq<char>> {
    let (y1, m1) = ym_of(lo);
    let (y2, m2) = ym_of(hi);
    match g {
        Granularity::Daily => Seq::new((hi - lo + 1) as nat, |i: int| date_of(lo + i)),
        Granularity::Weekly => week_runs(lo, hi),
        Granularity::Monthly => Seq::new(
            month_count(lo, hi) as nat,
            |i: int| month_label(y1 + (m1 - 1 + i) / 12, (m1 - 1 + i) % 12 + 1),
        ),
        Granularity::Quarterly => Seq::new(
            quarter_count(lo, hi) as nat,
            |i: int|
                quarter_label(y1 + (quarter_of(m1) - 1 + i) / 4, (quarter_of(m1) - 1 + i) % 4 + 1),
        ),
        Granularity::Yearly => Seq::new((y2 - y1 + 1) as nat, |i: int| year_label(y1 + i)),
    }
}

/// The lines of the entries of `ds` whose bucket is labelled `l`.
pub open spec fn bucket_sum(ds: Seq<(int, int)>, g: Granularity, l: Seq<char>) -> int
    decreases ds.len(),
{
    if ds.len() == 0 {
        0
    } else {
        bucket_sum(ds.drop_last(), g, l) + if bucket_label(g, ds.last().0) == l {
            ds.last().1
        } else {
            0
        }
    }
}

/// The distinct bucket labels of the entries of `ds`, in order of first
/// appearance.
pub open spec fn labels_seen(ds: Seq<(int, int)>, g: Granularity) -> Seq<Seq<char>>
    decreases ds.len(),
{
    if ds.len() == 0 {
        Seq::empty()
    } else {
        let s = labels_seen(ds.drop_last(), g);
        let l = bucket_label(g, ds.last().0);
        if s.contains(l) {
            s
        } else {
            s.push(l)
        }
    }
}

/// The largest sum of the buckets labelled in `ls` (0 when `ls` is empty).
pub open spec fn max_sum(ls: Seq<Seq<char>>, ds: Seq<(int, int)>, g: Granularity) -> int
    decreases ls.len(),
{
    if ls.len() == 0 {
        0
    } else {
        let m = max_sum(ls.drop_last(), ds, g);
        let s = bucket_sum(ds, g, ls.last());
        if s > m {
            s
        } else {
            m
        }
    }
}

/// The timeline of the dated entries `ds` (non-empty): each bucket from the
/// first day's to the last day's with its sum, and the largest sum.
pub open spec fn spec_timeline(ds: Seq<(int, int)>, max: int) -> (Seq<(Seq<char>, int)>, int) {
    let lo = min_day(ds);
    let hi = max_day(ds);
    let g = granularity(lo, hi, max);
    (
        all_labels(g, lo, hi).map_values(|l: Seq<char>| (l, bucket_sum(ds, g, l))),
        max_sum(labels_seen(ds, g), ds, g),
    )
}

/// Every sum the timeline of `commits` adds up fits in a `usize`: the lines
/// of each dated commit and, where the calendar is known, each bucket's sum.
pub open spec fn timeline_fits(commits: Seq<CommitEntry>, max: int) -> bool {
    let ds = dated(commits);
    &&& forall|i: int|
        0 <= i < commits.len() && chrono_parse_day(#[trigger] commits[i].date@) is Some
            ==> commits[i].lines() <= usize::MAX
    &&& (ds.len() > 0 && calendar_known(min_day(ds), max_day(ds))) ==> forall|l: Seq<char>|
        #[trigger] bucket_sum(ds, granularity(min_day(ds), max_day(ds), max), l) <= usize::MAX
}


/// The entries of a list of (day, lines) pairs, as integers.
pub open spec fn ints(v: Seq<(i32, usize)>) -> Seq<(int, int)> {
    v.map_values(|p: (i32, usize)| (p.0 as int, p.1 as int))
}

// ------------------------------------------------------------------------
// Lemmas
// ------------------------------------------------------------------------
/// Pushing the next wanted string extends the wanted prefix by one.
pub proof fn lemma_push_next(old: Seq<String>, t: String, want: Seq<Seq<char>>, i: int)
    requires
        0 <= i < want.len(),
        strings_view(old) == want.take(i),
        t@ == want[i],
    ensures
        strings_view(old.push(t)) == want.take(i + 1),
{
    let a = strings_view(old.push(t));
    let b = want.take(i + 1);
    assert(strings_view(old).len() == old.len());
    assert forall|k: int| 0 <= k < i + 1 implies #[trigger] a[k] == b[k] by {
        if k < i {
            assert(old.push(t)[k] == old[k]);
            assert(strings_view(old)[k] == old[k]@);
        }
    }
    assert(a =~= b);
}

proof fn lemma_weeks_seen_grows(lo: int, a: int, b: int)
    requires
        a <= b,
    ensures
        weeks_seen(lo, a).len() <= weeks_seen(lo, b).len(),
    decreases b - a,
{
    if a < b {
        lemma_weeks_seen_grows(lo, a, b - 1);
    }
}

proof fn lemma_bucket_sum_prefix(ds: Seq<(int, int)>, g: Granularity, l: Seq<char>, k: int)
    requires
        0 <= k <= ds.len(),
        forall|i: int| 0 <= i < ds.len() ==> #[trigger] ds[i].1 >= 0,
    ensures
        0 <= bucket_sum(ds.take(k), g, l) <= bucket_sum(ds, g, l),
    decreases ds.len(),
{
    if k == ds.len() {
        assert(ds.take(k) == ds);
        lemma_bucket_sum_nonneg(ds, g, l);
    } else {
        assert(ds.drop_last().take(k) == ds.take(k));
        lemma_bucket_sum_prefix(ds.drop_last(), g, l, k);
    }
}

proof fn lemma_bucket_sum_nonneg(ds: Seq<(int, int)>, g: Granularity, l: Seq<char>)
    requires
        forall|i: int| 0 <= i < ds.len() ==> #[trigger] ds[i].1 >= 0,
    ensures
        0 <= bucket_sum(ds, g, l),
    decreases ds.len(),
{
    if ds.len() > 0 {
        lemma_bucket_sum_nonneg(ds.drop_last(), g, l);
    }
}

/// A bucket holds at most the lines of all the commits.
proof fn lemma_bucket_sum_at_most_total(cs: Seq<CommitEntry>, g: Granularity, l: Seq<char>)
    ensures
        0 <= bucket_sum(dated(cs), g, l) <= total_lines(cs),
    decreases cs.len(),
{
    if cs.len() > 0 {
        lemma_bucket_sum_at_most_total(cs.drop_last(), g, l);
        let rest = dated(cs.drop_last());
        match chrono_parse_day(cs.last().date@) {
            Some(d) => {
                assert(rest.push((d as int, cs.last().lines())).drop_last() == rest);
            },
            None => {},
        }
    }
}

/// A commit changes at most the lines of all the commits.
proof fn lemma_commit_at_most_total(cs: Seq<CommitEntry>, i: int)
    requires
        0 <= i < cs.len(),
    ensures
        cs[i].lines() <= total_lines(cs),
    decreases cs.len(),
{
    crate::model::lemma_totals(cs.drop_last());
    if i < cs.len() - 1 {
        lemma_commit_at_most_total(cs.drop_last(), i);
        assert(cs.drop_last()[i] == cs[i]);
    }
}

/// Where the lines of all the commits fit in a `usize`, so does every sum
/// the timeline adds up, whatever its bound on buckets.
pub proof fn lemma_timeline_fits(cs: Seq<CommitEntry>, max: int)
    requires
        total_lines(cs) <= usize::MAX,
    ensures
        timeline_fits(cs, max),
{
    assert forall|i: int| 0 <= i < cs.len() && chrono_parse_day(#[trigger] cs[i].date@) is Some implies cs[i].lines()
        <= usize::MAX by {
        lemma_commit_at_most_total(cs, i);
    }
    let ds = dated(cs);
    if ds.len() > 0 && calendar_known(min_day(ds), max_day(ds)) {
        let g = granularity(min_day(ds), max_day(ds), max);
        assert forall|l: Seq<char>| #[trigger] bucket_sum(ds, g, l) <= usize::MAX by {
            lemma_bucket_sum_at_most_total(cs, g, l);
        }
    }
}

proof fn lemma_ints_nonneg(v: Seq<(i32, usize)>)
    ensures
        forall|i: int| 0 <= i < ints(v).len() ==> #[trigger] ints(v)[i].1 >= 0,
{
}

// ------------------------------------------------------------------------
// The computation
// ------------------------------------------------------------------------
/// The day and lines of each commit whose date chrono reads.
fn dated_entries(commits: &[CommitEntry]) -> (ds: Vec<(i32, usize)>)
    requires
        forall|i: int|
            0 <= i < commits@.len() && chrono_parse_day(#[trigger] commits@[i].date@) is Some
                ==> commits@[i].lines() <= usize::MAX,
    ensures
        ints(ds@) == dated(commits@),
        forall|k: int| 0 <= k < ds@.len() ==> FIRST_DAY <= #[trigger] ds@[k].0 <= LAST_DAY,
{
    let mut ds: Vec<(i32, usize)> = Vec::new();
    let mut i: usize = 0;
    while i < commits.len()
        invariant
            i <= commits@.len(),
            forall|k: int| 0 <= k < ds@.len() ==> FIRST_DAY <= #[trigger] ds@[k].0 <= LAST_DAY,
            forall|k: int|
                0 <= k < commits@.len() && chrono_parse_day(#[trigger] commits@[k].date@) is Some
                    ==> commits@[k].lines() <= usize::MAX,
            ints(ds@) == dated(commits@.take(i as int)),
        decreases commits@.len() - i,
    {
        let ghost pre = commits@.take(i + 1);
        assert(pre.drop_last() == commits@.take(i as int));
        assert(pre.last() == commits@[i as int]);
        match parse_day(commits[i].date.as_str()) {
            Some(d) => {
                let n = commits[i].insertions + commits[i].deletions;
                ds.push((d, n));
                assert(ints(ds@) =~= ints(ds@.drop_last()).push((d as int, n as int)));
            },
            None => {},
        }
        i = i + 1;
    }
    assert(commits@.take(commits@.len() as int) == commits@);
    ds
}

/// The earliest and the latest day of a non-empty list.
fn day_bounds(ds: &Vec<(i32, usize)>) -> (r: (i32, i32))
    requires
        ds@.len() > 0,
    ensures
        r.0 == min_day(ints(ds@)),
        r.1 == max_day(ints(ds@)),
        r.0 <= r.1,
{
    let mut lo = ds[0].0;
    let mut hi = ds[0].0;
    let mut i: usize = 1;
    assert(ints(ds@).take(1) =~= seq![ints(ds@)[0]]);
    while i < ds.len()
        invariant
            1 <= i <= ds@.len(),
            lo == min_day(ints(ds@).take(i as int)),
            hi == max_day(ints(ds@).take(i as int)),
            lo <= hi,
        decreases ds@.len() - i,
    {
        let ghost pre = ints(ds@).take(i + 1);
        assert(pre.drop_last() == ints(ds@).take(i as int));
        assert(pre.last() == ints(ds@)[i as int]);
        if ds[i].0 < lo {
            lo = ds[i].0;
        }
        if ds[i].0 > hi {
            hi = ds[i].0;
        }
        i = i + 1;
    }
    assert(ints(ds@).take(ds@.len() as int) == ints(ds@));
    (lo, hi)
}

/// What chrono's wrappers state of day `n`: chrono can write it; its month
/// lies in `1..=12`; no other
/// day has its date text; another day has its ISO week text exactly when it
/// falls in the same Monday-to-Sunday week; and the month of an earlier day
/// is never later than its own, nor that of a later day earlier.
pub open spec fn day_facts(n: int) -> bool {
    &&& known_day(n)
    &&& 1 <= ym_of(n).1 <= 12
    &&& forall|k: i32| #[trigger] chrono_day_label(k) == chrono_day_label(n as i32) ==> k == n
    &&& forall|k: i32| #[trigger] chrono_week_label(k) is Some ==> (chrono_week_label(k)
        == chrono_week_label(n as i32) <==> (k - 1) / 7 == (n - 1) / 7)
    &&& forall|k: i32| #[trigger] chrono_year_month(k) is Some ==> {
        let p = chrono_year_month(k)->0;
        let a = p.0 * 12 + p.1;
        let b = ym_of(n).0 * 12 + ym_of(n).1;
        &&& k <= n ==> a <= b
        &&& n <= k ==> b <= a
    }
}

/// Chrono's calendar facts hold of every day from `lo` to `hi`.
pub open spec fn calendar_sound(lo: int, hi: int) -> bool {
    forall|n: int| lo <= n <= hi ==> #[trigger] day_facts(n)
}

/// Writes every day from `lo` to `hi` with chrono, as a date, an ISO week
/// and a year and month, and so learns its calendar facts: all the days
/// between two that chrono holds are ones it can write.
fn calendar_walk(lo: i32, hi: i32)
    requires
        FIRST_DAY <= lo <= hi <= LAST_DAY,
    ensures
        calendar_known(lo as int, hi as int),
        calendar_sound(lo as int, hi as int),
{
    let mut n = lo;
    loop
        invariant
            lo <= n <= hi,
            FIRST_DAY <= lo <= hi <= LAST_DAY,
            forall|k: int| lo <= k < n ==> #[trigger] day_facts(k),
        ensures
            forall|k: int| lo <= k <= hi ==> #[trigger] day_facts(k),
        decreases hi - n,
    {
        let a = day_label(n);
        let b = week_label(n);
        let c = year_month(n);
        assert((n as int) as i32 == n);
        assert(day_facts(n as int));
        if n == hi {
            break;
        }
        n = n + 1;
    }
    assert(day_facts(lo as int) && day_facts(hi as int));
    assert((lo as int) as i32 == lo && (hi as int) as i32 == hi);
    assert(chrono_year_month(lo) is Some);
    let ghost p = chrono_year_month(lo)->0;
    assert(ym_of(lo as int) == (p.0 as int, p.1 as int));
    assert(p.0 * 12 + p.1 <= ym_of(hi as int).0 * 12 + ym_of(hi as int).1);
    assert forall|k: int| lo <= k <= hi implies #[trigger] known_day(k) by {
        assert(day_facts(k));
    }
}

/// The ISO week text of a day chrono knows.
fn week_text(n: i32) -> (r: String)
    requires
        known_day(n as int),
    ensures
        r@ == week_of(n as int),
{
    match week_label(n) {
        Some(s) => s,
        None => String::new(),
    }
}

/// The date text of a day chrono knows.
fn date_text(n: i32) -> (r: String)
    requires
        known_day(n as int),
    ensures
        r@ == date_of(n as int),
{
    match day_label(n) {
        Some(s) => s,
        None => String::new(),
    }
}

/// The year and month of a day chrono knows.
fn ym(n: i32) -> (r: (i32, u32))
    requires
        known_day(n as int),
    ensures
        (r.0 as int, r.1 as int) == ym_of(n as int),
        1 <= r.1 <= 12,
        -262143 <= r.0 <= 262142,
{
    match year_month(n) {
        Some(p) => p,
        None => (0, 1),
    }
}

/// Whether some string of `v` equals `s`.
fn seen(v: &Vec<String>, s: &String) -> (r: bool)
    ensures
        r == strings_view(v@).contains(s@),
{
    let r = is_listed(v, s);
    assert(r ==> strings_view(v@)[choose|i: int| 0 <= i < v@.len() && v@[i]@ == s@] == s@);
    assert(strings_view(v@).contains(s@) ==> exists|i: int| 0 <= i < v@.len() && v@[i]@ == s@);
    r
}

/// The granularity of the timeline from `lo` to `hi`.
fn choose_granularity(lo: i32, hi: i32, max: usize) -> (g: Granularity)
    requires
        lo <= hi,
        calendar_known(lo as int, hi as int),
    ensures
        g == granularity(lo as int, hi as int, max as int),
{
    if ((hi as i64) - (lo as i64) + 1) as i128 <= max as i128 {
        return Granularity::Daily;
    }
    let mut weeks: Vec<String> = Vec::new();
    let mut d = lo;
    let mut many = false;
    loop
        invariant_except_break
            !many,
            strings_view(weeks@) == weeks_seen(lo as int, d - 1),
            weeks@.len() <= max,
        invariant
            lo <= d <= hi,
            calendar_known(lo as int, hi as int),
        ensures
            many ==> weeks_seen(lo as int, hi as int).len() > max,
            !many ==> weeks_seen(lo as int, hi as int).len() <= max,
        decreases hi - d,
    {
        assert(known_day(d as int));
        let w = week_text(d);
        if !seen(&weeks, &w) {
            weeks.push(w);
            assert(strings_view(weeks@) =~= strings_view(weeks@.drop_last()).push(w@));
        }
        assert(strings_view(weeks@) == weeks_seen(lo as int, d as int));
        if weeks.len() > max {
            proof {
                lemma_weeks_seen_grows(lo as int, d as int, hi as int);
            }
            many = true;
            break;
        }
        if d == hi {
            break;
        }
        d = d + 1;
    }
    if !many {
        return Granularity::Weekly;
    }
    assert(known_day(lo as int) && known_day(hi as int));
    let (y1, m1) = ym(lo);
    let (y2, m2) = ym(hi);
    let months = (y2 - y1) * 12 + (m2 as i32) - (m1 as i32) + 1;
    if months as i128 <= max as i128 {
        return Granularity::Monthly;
    }
    let q1 = ((m1 as i32) - 1) / 3 + 1;
    let q2 = ((m2 as i32) - 1) / 3 + 1;
    let quarters = (y2 - y1) * 4 + q2 - q1 + 1;
    if quarters as i128 <= max as i128 {
        Granularity::Quarterly
    } else {
        Granularity::Yearly
    }
}

/// `format!("{:04}-{:02}", y, m)`.
fn month_text(y: i64, m: i64) -> (r: String)
    ensures
        r@ == month_label(y as int, m as int),
{
    let mut r = String::new();
    push_padded_signed(&mut r, y, 4);
    push_char(&mut r, '-');
    push_padded_signed(&mut r, m, 2);
    r
}

/// `format!("{}-Q{}", y, q)`.
fn quarter_text(y: i64, q: i64) -> (r: String)
    ensures
        r@ == quarter_label(y as int, q as int),
{
    let mut r = String::new();
    push_padded_signed(&mut r, y, 0);
    push_char(&mut r, '-');
    push_char(&mut r, 'Q');
    push_padded_signed(&mut r, q, 0);
    assert(r@ =~= quarter_label(y as int, q as int));
    r
}

/// `format!("{}", y)`.
fn year_text(y: i64) -> (r: String)
    ensures
        r@ == year_label(y as int),
{
    let mut r = String::new();
    push_padded_signed(&mut r, y, 0);
    assert(r@ =~= year_label(y as int));
    r
}

/// The label of the bucket that holds day `n`.
fn label_of(g: Granularity, n: i32) -> (r: String)
    requires
        known_day(n as int),
    ensures
        r@ == bucket_label(g, n as int),
{
    match g {
        Granularity::Daily => date_text(n),
        Granularity::Weekly => week_text(n),
        Granularity::Monthly => {
            let (y, m) = ym(n);
            month_text(y as i64, m as i64)
        },
        Granularity::Quarterly => {
            let (y, m) = ym(n);
            quarter_text(y as i64, ((m as i64) - 1) / 3 + 1)
        },
        Granularity::Yearly => {
            let (y, m) = ym(n);
            year_text(y as i64)
        },
    }
}

/// The bucket label of each entry of `ds`.
pub open spec fn labels_of(ds: Seq<(int, int)>, g: Granularity) -> Seq<Seq<char>> {
    ds.map_values(|p: (int, int)| bucket_label(g, p.0))
}

/// The labels of all buckets from the one of `lo` to the one of `hi`.
fn bucket_labels(g: Granularity, lo: i32, hi: i32) -> (r: Vec<String>)
    requires
        lo <= hi,
        calendar_known(lo as int, hi as int),
    ensures
        strings_view(r@) == all_labels(g, lo as int, hi as int),
{
    let mut r: Vec<String> = Vec::new();
    assert(known_day(lo as int) && known_day(hi as int));
    let (y1, m1) = ym(lo);
    let (y2, m2) = ym(hi);
    let ghost want = all_labels(g, lo as int, hi as int);
    match g {
        Granularity::Daily => {
            let mut n = lo;
            loop
                invariant_except_break
                    strings_view(r@) == want.take(n - lo),
                invariant
                    lo <= n <= hi,
                    calendar_known(lo as int, hi as int),
                    want == Seq::new((hi - lo + 1) as nat, |i: int| date_of(lo + i)),
                ensures
                    strings_view(r@) == want,
                decreases hi - n,
            {
                assert(known_day(n as int));
                let t = date_text(n);
                let ghost old_r = r@;
                r.push(t);
                assert(r@ == old_r.push(t));
                proof {
                    lemma_push_next(old_r, t, want, n - lo);
                }
                if n == hi {
                    assert(want.take(hi - lo + 1) == want);
                    break;
                }
                n = n + 1;
            }
        },
        Granularity::Weekly => {
            let mut d = lo;
            loop
                invariant_except_break
                    strings_view(r@) == week_runs(lo as int, d - 1),
                invariant
                    lo <= d <= hi,
                    calendar_known(lo as int, hi as int),
                    want == week_runs(lo as int, hi as int),
                ensures
                    strings_view(r@) == want,
                decreases hi - d,
            {
                assert(known_day(d as int));
                let w = week_text(d);
                let n = r.len();
                let same = n > 0 && str_eq(r[n - 1].as_str(), w.as_str());
                let ghost old_r = r@;
                if !same {
                    r.push(w);
                    assert(strings_view(r@) =~= strings_view(old_r).push(w@));
                }
                assert(strings_view(r@) == week_runs(lo as int, d as int));
                if d == hi {
                    break;
                }
                d = d + 1;
            }
        },
        Granularity::Monthly => {
            let count = (y2 as i64 - y1 as i64) * 12 + (m2 as i64) - (m1 as i64) + 1;
            let mut i: i64 = 0;
            while i < count
                invariant
                    0 <= i <= count,
                    count == month_count(lo as int, hi as int),
                    (y1 as int, m1 as int) == ym_of(lo as int),
                    1 <= m1 <= 12,
                    -262143 <= y1 <= 262142,
                    count <= 6300000,
                    want == Seq::new(
                        count as nat,
                        |j: int| month_label(y1 + (m1 - 1 + j) / 12, (m1 - 1 + j) % 12 + 1),
                    ),
                    strings_view(r@) == want.take(i as int),
                decreases count - i,
            {
                let k = (m1 as i64) - 1 + i;
                let t = month_text(y1 as i64 + k / 12, k % 12 + 1);
                let ghost old_r = r@;
                r.push(t);
                assert(r@ == old_r.push(t));
                proof {
                    lemma_push_next(old_r, t, want, i as int);
                }
                i = i + 1;
            }
            assert(want.take(count as int) == want);
        },
        Granularity::Quarterly => {
            let q1 = ((m1 as i64) - 1) / 3 + 1;
            let q2 = ((m2 as i64) - 1) / 3 + 1;
            let count = (y2 as i64 - y1 as i64) * 4 + q2 - q1 + 1;
            let mut i: i64 = 0;
            while i < count
                invariant
                    0 <= i <= count,
                    count == quarter_count(lo as int, hi as int),
                    q1 == quarter_of(ym_of(lo as int).1),
                    1 <= q1 <= 4,
                    (y1 as int, m1 as int) == ym_of(lo as int),
                    -262143 <= y1 <= 262142,
                    count <= 2100000,
                    want == Seq::new(
                        count as nat,
                        |j: int| quarter_label(y1 + (q1 - 1 + j) / 4, (q1 - 1 + j) % 4 + 1),
                    ),
                    strings_view(r@) == want.take(i as int),
                decreases count - i,
            {
                let k = q1 - 1 + i;
                let t = quarter_text(y1 as i64 + k / 4, k % 4 + 1);
                let ghost old_r = r@;
                r.push(t);
                assert(r@ == old_r.push(t));
                proof {
                    lemma_push_next(old_r, t, want, i as int);
                }
                i = i + 1;
            }
            assert(want.take(count as int) == want);
        },
        Granularity::Yearly => {
            let count = y2 as i64 - y1 as i64 + 1;
            let mut i: i64 = 0;
            while i < count
                invariant
                    0 <= i <= count,
                    count == ym_of(hi as int).0 - ym_of(lo as int).0 + 1,
                    y1 as int == ym_of(lo as int).0,
                    -262143 <= y1 <= 262142,
                    count <= 600000,
                    want == Seq::new(count as nat, |j: int| year_label(y1 + j)),
                    strings_view(r@) == want.take(i as int),
                decreases count - i,
            {
                let t = year_text(y1 as i64 + i);
                let ghost old_r = r@;
                r.push(t);
                assert(r@ == old_r.push(t));
                proof {
                    lemma_push_next(old_r, t, want, i as int);
                }
                i = i + 1;
            }
            assert(want.take(count as int) == want);
        },
    }
    r
}

/// The bucket label of each entry of `ds`.
fn entry_labels(ds: &Vec<(i32, usize)>, g: Granularity, lo: i32, hi: i32) -> (r: Vec<String>)
    requires
        forall|i: int| 0 <= i < ds@.len() ==> lo <= #[trigger] ds@[i].0 <= hi,
        calendar_known(lo as int, hi as int),
    ensures
        strings_view(r@) == labels_of(ints(ds@), g),
{
    let mut r: Vec<String> = Vec::new();
    let mut i: usize = 0;
    while i < ds.len()
        invariant
            i <= ds@.len(),
            forall|k: int| 0 <= k < ds@.len() ==> lo <= #[trigger] ds@[k].0 <= hi,
            calendar_known(lo as int, hi as int),
            strings_view(r@) == labels_of(ints(ds@), g).take(i as int),
        decreases ds@.len() - i,
    {
        assert(known_day(ds@[i as int].0 as int));
        let t = label_of(g, ds[i].0);
        let ghost old_r = r@;
        r.push(t);
        assert(r@ == old_r.push(t));
        proof {
            lemma_push_next(old_r, t, labels_of(ints(ds@), g), i as int);
        }
        i = i + 1;
    }
    assert(labels_of(ints(ds@), g).take(ds@.len() as int) == labels_of(ints(ds@), g));
    r
}

/// The lines of the entries whose label is `l`.
fn sum_for(ds: &Vec<(i32, usize)>, labels: &Vec<String>, g: Granularity, l: &String) -> (r: usize)
    requires
        strings_view(labels@) == labels_of(ints(ds@), g),
        bucket_sum(ints(ds@), g, l@) <= usize::MAX,
    ensures
        r == bucket_sum(ints(ds@), g, l@),
{
    let ghost e = ints(ds@);
    assert(labels@.len() == strings_view(labels@).len());
    let mut acc: usize = 0;
    let mut i: usize = 0;
    proof {
        lemma_ints_nonneg(ds@);
    }
    while i < ds.len()
        invariant
            i <= ds@.len(),
            e == ints(ds@),
            labels@.len() == ds@.len(),
            strings_view(labels@) == labels_of(e, g),
            bucket_sum(e, g, l@) <= usize::MAX,
            forall|k: int| 0 <= k < e.len() ==> #[trigger] e[k].1 >= 0,
            acc == bucket_sum(e.take(i as int), g, l@),
        decreases ds@.len() - i,
    {
        let ghost pre = e.take(i + 1);
        assert(pre.drop_last() == e.take(i as int));
        assert(pre.last() == e[i as int]);
        assert(strings_view(labels@)[i as int] == labels@[i as int]@);
        proof {
            lemma_bucket_sum_prefix(e, g, l@, i + 1);
        }
        if str_eq(labels[i].as_str(), l.as_str()) {
            acc = acc + ds[i].1;
        }
        i = i + 1;
    }
    assert(e.take(e.len() as int) == e);
    acc
}

/// The distinct labels of the entries, in order of first appearance.
fn distinct_labels(ds: &Vec<(i32, usize)>, labels: &Vec<String>, g: Granularity) -> (r: Vec<String>)
    requires
        strings_view(labels@) == labels_of(ints(ds@), g),
    ensures
        strings_view(r@) == labels_seen(ints(ds@), g),
{
    let ghost e = ints(ds@);
    assert(labels@.len() == strings_view(labels@).len());
    let mut r: Vec<String> = Vec::new();
    let mut i: usize = 0;
    while i < labels.len()
        invariant
            i <= labels@.len() == e.len(),
            e == ints(ds@),
            strings_view(labels@) == labels_of(e, g),
            strings_view(r@) == labels_seen(e.take(i as int), g),
        decreases labels@.len() - i,
    {
        let ghost pre = e.take(i + 1);
        assert(pre.drop_last() == e.take(i as int));
        assert(pre.last() == e[i as int]);
        assert(strings_view(labels@)[i as int] == labels@[i as int]@);
        let ghost old_r = r@;
        if !seen(&r, &labels[i]) {
            r.push(labels[i].clone());
            assert(strings_view(r@) =~= strings_view(old_r).push(labels@[i as int]@));
        }
        i = i + 1;
    }
    assert(e.take(e.len() as int) == e);
    r
}

/// The largest sum of the buckets labelled in `ls`.
fn largest_sum(ds: &Vec<(i32, usize)>, labels: &Vec<String>, g: Granularity, ls: &Vec<String>) -> (r:
    usize)
    requires
        strings_view(labels@) == labels_of(ints(ds@), g),
        forall|l: Seq<char>| #[trigger] bucket_sum(ints(ds@), g, l) <= usize::MAX,
    ensures
        r == max_sum(strings_view(ls@), ints(ds@), g),
{
    let mut m: usize = 0;
    let mut i: usize = 0;
    while i < ls.len()
        invariant
            i <= ls@.len(),
            strings_view(labels@) == labels_of(ints(ds@), g),
            forall|l: Seq<char>| #[trigger] bucket_sum(ints(ds@), g, l) <= usize::MAX,
            m == max_sum(strings_view(ls@).take(i as int), ints(ds@), g),
        decreases ls@.len() - i,
    {
        let ghost pre = strings_view(ls@).take(i + 1);
        assert(pre.drop_last() == strings_view(ls@).take(i as int));
        assert(pre.last() == ls@[i as int]@);
        let s = sum_for(ds, labels, g, &ls[i]);
        if s > m {
            m = s;
        }
        i = i + 1;
    }
    assert(strings_view(ls@).take(ls@.len() as int) == strings_view(ls@));
    m
}

/// The timeline of the commits: one bucket per day, ISO week, month,
/// quarter or year (the finest that needs at most `max_buckets` buckets) from
/// the first commit's to the last one's, each with the lines changed in it,
/// and the largest sum that a bucket holding a commit has.  Commits whose
/// date chrono cannot read are left out; with none left the timeline is
/// empty.  Chrono can write every day between two dates it has read, and
/// the lines of every dated commit land in exactly one bucket, so that the
/// buckets hold, together, the lines of all of them.
pub fn build_timeline_with(commits: &[CommitEntry], max_buckets: usize) -> (r: Timeline)
    requires
        timeline_fits(commits@, max_buckets as int),
    ensures
        bucket_lines(buckets_view(r.buckets@)) == dated_lines(dated(commits@)),
        dated(commits@).len() == 0 ==> r.buckets@.len() == 0 && r.max_lines == 0,
        dated(commits@).len() > 0 ==> {
            let ds = dated(commits@);
            &&& calendar_known(min_day(ds), max_day(ds))
            &&& (buckets_view(r.buckets@), r.max_lines as int) == spec_timeline(ds, max_buckets as int)
        },
{
    let ds = dated_entries(commits);
    if ds.len() == 0 {
        return Timeline { buckets: Vec::new(), max_lines: 0 };
    }
    let (lo, hi) = day_bounds(&ds);
    proof {
        lemma_within_bounds(ints(ds@));
        assert forall|i: int| 0 <= i < ints(ds@).len() implies FIRST_DAY <= #[trigger] ints(
            ds@,
        )[i].0 <= LAST_DAY by {
            assert(ints(ds@)[i].0 == ds@[i].0);
        }
        lemma_bounds_within(ints(ds@), FIRST_DAY as int, LAST_DAY as int);
    }
    calendar_walk(lo, hi);
    proof {
        lemma_lines_in_one_bucket(ints(ds@), max_buckets as int);
    }
    assert(forall|i: int| 0 <= i < ds@.len() ==> lo <= #[trigger] ds@[i].0 <= hi) by {
        assert(forall|i: int| 0 <= i < ds@.len() ==> ints(ds@)[i].0 == #[trigger] ds@[i].0);
    }
    let g = choose_granularity(lo, hi, max_buckets);
    let labels = entry_labels(&ds, g, lo, hi);
    let all = bucket_labels(g, lo, hi);
    let ghost e = ints(ds@);
    let mut buckets: Vec<TimelineEntry> = Vec::new();
    let mut i: usize = 0;
    while i < all.len()
        invariant
            i <= all@.len(),
            e == ints(ds@),
            e == dated(commits@),
            e.len() > 0,
            lo == min_day(e),
            hi == max_day(e),
            calendar_known(lo as int, hi as int),
            g == granularity(lo as int, hi as int, max_buckets as int),
            strings_view(labels@) == labels_of(e, g),
            forall|l: Seq<char>| #[trigger] bucket_sum(e, g, l) <= usize::MAX,
            buckets_view(buckets@) == all_labels(g, lo as int, hi as int).map_values(
                |l: Seq<char>| (l, bucket_sum(e, g, l)),
            ).take(i as int),
            strings_view(all@) == all_labels(g, lo as int, hi as int),
        decreases all@.len() - i,
    {
        let lines = sum_for(&ds, &labels, g, &all[i]);
        let ghost old_b = buckets@;
        let b = TimelineEntry { label: all[i].clone(), lines };
        buckets.push(b);
        assert(buckets@ == old_b.push(b));
        assert(strings_view(all@)[i as int] == all@[i as int]@);
        proof {
            let want = all_labels(g, lo as int, hi as int).map_values(
                |l: Seq<char>| (l, bucket_sum(e, g, l)),
            );
            assert(buckets_view(old_b).len() == old_b.len());
            assert(want[i as int] == (all@[i as int]@, lines as int));
            assert forall|k: int| 0 <= k < i + 1 implies #[trigger] buckets_view(buckets@)[k]
                == want.take(i + 1)[k] by {
                if k < i {
                    assert(buckets@[k] == old_b[k]);
                    assert(buckets_view(old_b)[k] == want.take(i as int)[k]);
                }
            }
            assert(buckets_view(buckets@) =~= want.take(i + 1));
        }
        i = i + 1;
    }
    let seen_labels = distinct_labels(&ds, &labels, g);
    let max_lines = largest_sum(&ds, &labels, g, &seen_labels);
    assert(all_labels(g, lo as int, hi as int).map_values(|l: Seq<char>| (l, bucket_sum(e, g, l))).take(
        all@.len() as int,
    ) == all_labels(g, lo as int, hi as int).map_values(|l: Seq<char>| (l, bucket_sum(e, g, l))));
    Timeline { buckets, max_lines }
}

/// The timeline of the commits with the default bound of fourteen buckets.
pub fn build_timeline(commits: &[CommitEntry]) -> (r: Timeline)
    requires
        timeline_fits(commits@, DEFAULT_MAX_BUCKETS as int),
    ensures
        bucket_lines(buckets_view(r.buckets@)) == dated_lines(dated(commits@)),
        dated(commits@).len() == 0 ==> r.buckets@.len() == 0 && r.max_lines == 0,
        dated(commits@).len() > 0 ==> {
            let ds = dated(commits@);
            &&& calendar_known(min_day(ds), max_day(ds))
            &&& (buckets_view(r.buckets@), r.max_lines as int) == spec_timeline(
                ds,
                DEFAULT_MAX_BUCKETS as int,
            )
        },
{
    build_timeline_with(commits, DEFAULT_MAX_BUCKETS)
}

/// The timeline keeps to its bound on buckets: at the granularity chosen,
/// the days, the distinct ISO weeks, the months or the quarters of the
/// range number at most `max`; only years may exceed it.
pub proof fn lemma_buckets_within_bound(ds: Seq<(int, int)>, max: int)
    requires
        ds.len() > 0,
        calendar_known(min_day(ds), max_day(ds)),
    ensures
        ({
            let lo = min_day(ds);
            let hi = max_day(ds);
            match granularity(lo, hi, max) {
                Granularity::Daily => spec_timeline(ds, max).0.len() <= max,
                Granularity::Weekly => weeks_seen(lo, hi).len() <= max,
                Granularity::Monthly => spec_timeline(ds, max).0.len() <= max,
                Granularity::Quarterly => spec_timeline(ds, max).0.len() <= max,
                Granularity::Yearly => true,
            }
        }),
{
    lemma_within_bounds(ds);
    let lo = min_day(ds);
    let hi = max_day(ds);
    assert(lo <= ds[0].0 <= hi);
    let (y1, m1) = ym_of(lo);
    let (y2, m2) = ym_of(hi);
    assert(month_count(lo, hi) >= 1);
    assert(4 * y1 + quarter_of(m1) - 1 == (12 * y1 + m1 - 1) / 3);
    assert(4 * y2 + quarter_of(m2) - 1 == (12 * y2 + m2 - 1) / 3);
    assert((12 * y1 + m1 - 1) / 3 <= (12 * y2 + m2 - 1) / 3);
    assert(quarter_count(lo, hi) >= 1);
}

/// A bucket with lines holds a commit, so its label is among those seen.
proof fn lemma_sum_seen(ds: Seq<(int, int)>, g: Granularity, l: Seq<char>)
    ensures
        bucket_sum(ds, g, l) != 0 ==> labels_seen(ds, g).contains(l),
    decreases ds.len(),
{
    if ds.len() > 0 {
        lemma_sum_seen(ds.drop_last(), g, l);
        let s = labels_seen(ds.drop_last(), g);
        let x = bucket_label(g, ds.last().0);
        if !s.contains(x) {
            if s.contains(l) {
                let k = choose|k: int| 0 <= k < s.len() && s[k] == l;
                assert(s.push(x)[k] == l);
            }
            assert(s.push(x)[s.len() as int] == x);
        }
    }
}

/// The largest sum over some labels is at least 0 and at least the sum of
/// each of them.
proof fn lemma_max_sum_bounds(ls: Seq<Seq<char>>, ds: Seq<(int, int)>, g: Granularity, l: Seq<char>)
    ensures
        max_sum(ls, ds, g) >= 0,
        ls.contains(l) ==> bucket_sum(ds, g, l) <= max_sum(ls, ds, g),
    decreases ls.len(),
{
    if ls.len() > 0 {
        lemma_max_sum_bounds(ls.drop_last(), ds, g, l);
        if ls.contains(l) && ls.last() != l {
            let k = choose|k: int| 0 <= k < ls.len() && ls[k] == l;
            assert(ls.drop_last()[k] == l);
        }
    }
}

/// No bucket of the timeline holds more lines than its scale, the largest
/// sum of a bucket that holds a commit: every bar of the chart fits in it.
pub proof fn lemma_buckets_within_scale(ds: Seq<(int, int)>, max: int)
    requires
        ds.len() > 0,
    ensures
        forall|i: int|
            0 <= i < spec_timeline(ds, max).0.len() ==> (#[trigger] spec_timeline(ds, max).0[i]).1
                <= spec_timeline(ds, max).1,
{
    let lo = min_day(ds);
    let hi = max_day(ds);
    let g = granularity(lo, hi, max);
    let t = spec_timeline(ds, max);
    assert forall|i: int| 0 <= i < t.0.len() implies (#[trigger] t.0[i]).1 <= t.1 by {
        let l = all_labels(g, lo, hi)[i];
        assert(t.0[i] == (l, bucket_sum(ds, g, l)));
        lemma_sum_seen(ds, g, l);
        lemma_max_sum_bounds(labels_seen(ds, g), ds, g, l);
    }
}

/// Where every day of a non-empty list lies from `a` to `b`, so do its
/// earliest and its latest.
proof fn lemma_bounds_within(ds: Seq<(int, int)>, a: int, b: int)
    requires
        ds.len() > 0,
        forall|i: int| 0 <= i < ds.len() ==> a <= #[trigger] ds[i].0 <= b,
    ensures
        a <= min_day(ds) <= b,
        a <= max_day(ds) <= b,
    decreases ds.len(),
{
    if ds.len() > 1 {
        assert forall|i: int| 0 <= i < ds.drop_last().len() implies a <= #[trigger] ds.drop_last()[i].0
            <= b by {
            assert(ds.drop_last()[i] == ds[i]);
        }
        lemma_bounds_within(ds.drop_last(), a, b);
        assert(a <= ds[ds.len() - 1].0 <= b);
    } else {
        assert(a <= ds[0].0 <= b);
    }
}

/// Every day of a non-empty list lies between its earliest and its latest.
proof fn lemma_within_bounds(ds: Seq<(int, int)>)
    requires
        ds.len() > 0,
    ensures
        forall|i: int| 0 <= i < ds.len() ==> min_day(ds) <= #[trigger] ds[i].0 <= max_day(ds),
    decreases ds.len(),
{
    if ds.len() > 1 {
        lemma_within_bounds(ds.drop_last());
        assert forall|i: int| 0 <= i < ds.len() implies min_day(ds) <= #[trigger] ds[i].0 <= max_day(
            ds,
        ) by {
            if i < ds.len() - 1 {
                assert(ds[i] == ds.drop_last()[i]);
            }
        }
    }
}

// ------------------------------------------------------------------------
// Every dated commit's lines land in exactly one bucket
// ------------------------------------------------------------------------
/// The lines of the buckets, added up.
pub open spec fn bucket_lines(b: Seq<(Seq<char>, int)>) -> int
    decreases b.len(),
{
    if b.len() == 0 {
        0
    } else {
        bucket_lines(b.drop_last()) + b.last().1
    }
}

/// The lines of the dated entries, added up.
pub open spec fn dated_lines(ds: Seq<(int, int)>) -> int
    decreases ds.len(),
{
    if ds.len() == 0 {
        0
    } else {
        dated_lines(ds.drop_last()) + ds.last().1
    }
}

/// The sums of the buckets labelled in `ls`, added up.
spec fn label_sum(ls: Seq<Seq<char>>, ds: Seq<(int, int)>, g: Granularity) -> int
    decreases ls.len(),
{
    if ls.len() == 0 {
        0
    } else {
        label_sum(ls.drop_last(), ds, g) + bucket_sum(ds, g, ls.last())
    }
}

/// Buckets labelled by `ls`, each with its sum, hold `label_sum` lines.
proof fn lemma_bucket_lines_of(b: Seq<(Seq<char>, int)>, ls: Seq<Seq<char>>, ds: Seq<(int, int)>, g: Granularity)
    requires
        b.len() == ls.len(),
        forall|i: int| 0 <= i < b.len() ==> #[trigger] b[i] == (ls[i], bucket_sum(ds, g, ls[i])),
    ensures
        bucket_lines(b) == label_sum(ls, ds, g),
    decreases b.len(),
{
    if b.len() > 0 {
        assert forall|i: int| 0 <= i < b.drop_last().len() implies #[trigger] b.drop_last()[i] == (
        ls.drop_last()[i], bucket_sum(ds, g, ls.drop_last()[i])) by {
            assert(b.drop_last()[i] == b[i]);
            assert(ls.drop_last()[i] == ls[i]);
        }
        lemma_bucket_lines_of(b.drop_last(), ls.drop_last(), ds, g);
        assert(b[b.len() - 1] == (ls[ls.len() - 1], bucket_sum(ds, g, ls.last())));
    }
}

proof fn lemma_label_sum_empty(ls: Seq<Seq<char>>, g: Granularity)
    ensures
        label_sum(ls, Seq::empty(), g) == 0,
    decreases ls.len(),
{
    if ls.len() > 0 {
        lemma_label_sum_empty(ls.drop_last(), g);
    }
}

/// One more entry adds its lines to the one bucket of its label.
proof fn lemma_label_sum_push(ls: Seq<Seq<char>>, ds: Seq<(int, int)>, e: (int, int), g: Granularity)
    requires
        ls.no_duplicates(),
    ensures
        label_sum(ls, ds.push(e), g) == label_sum(ls, ds, g) + if ls.contains(bucket_label(g, e.0)) {
            e.1
        } else {
            0
        },
    decreases ls.len(),
{
    assert(ds.push(e).drop_last() == ds);
    assert(ds.push(e).last() == e);
    if ls.len() > 0 {
        let s = ls.drop_last();
        let x = bucket_label(g, e.0);
        assert forall|i: int, j: int| 0 <= i < s.len() && 0 <= j < s.len() && i != j implies s[i]
            != s[j] by {
            assert(s[i] == ls[i] && s[j] == ls[j]);
        }
        lemma_label_sum_push(s, ds, e, g);
        if s.contains(x) {
            let k = choose|k: int| 0 <= k < s.len() && s[k] == x;
            assert(ls[k] == x);
            assert(ls.last() != x);
        }
        if ls.contains(x) && ls.last() != x {
            let k = choose|k: int| 0 <= k < ls.len() && ls[k] == x;
            assert(s[k] == x);
        }
        if ls.last() == x {
            assert(ls[ls.len() - 1] == x);
        }
    }
}

/// Where the labels are distinct and hold the label of every entry, their
/// sums add up to the lines of all the entries.
proof fn lemma_label_sum_total(ls: Seq<Seq<char>>, ds: Seq<(int, int)>, g: Granularity)
    requires
        ls.no_duplicates(),
        forall|i: int| 0 <= i < ds.len() ==> ls.contains(bucket_label(g, #[trigger] ds[i].0)),
    ensures
        label_sum(ls, ds, g) == dated_lines(ds),
    decreases ds.len(),
{
    if ds.len() == 0 {
        lemma_label_sum_empty(ls, g);
        assert(ds == Seq::<(int, int)>::empty());
    } else {
        let d = ds.drop_last();
        assert forall|i: int| 0 <= i < d.len() implies ls.contains(bucket_label(g, #[trigger] d[i].0)) by {
            assert(d[i] == ds[i]);
        }
        lemma_label_sum_total(ls, d, g);
        assert(d.push(ds.last()) == ds);
        lemma_label_sum_push(ls, d, ds.last(), g);
        assert(ls.contains(bucket_label(g, ds[ds.len() - 1].0)));
    }
}

/// Two days of the walked range have the same date text only when they are
/// the same day.
proof fn lemma_date_distinct(a: int, b: int)
    requires
        day_facts(a),
        day_facts(b),
        i32::MIN <= a <= i32::MAX,
        i32::MIN <= b <= i32::MAX,
        a != b,
    ensures
        date_of(a) != date_of(b),
{
    assert(chrono_day_label(a as i32) is Some && chrono_day_label(b as i32) is Some);
    if date_of(a) == date_of(b) {
        assert(chrono_day_label(b as i32) == chrono_day_label(a as i32));
        assert((b as i32) as int == b);
    }
}

/// Two days of the walked range have the same ISO week text exactly when
/// they fall in the same Monday-to-Sunday week.
proof fn lemma_week_same(a: int, b: int)
    requires
        day_facts(a),
        day_facts(b),
        i32::MIN <= a <= i32::MAX,
        i32::MIN <= b <= i32::MAX,
    ensures
        week_of(a) == week_of(b) <==> (a - 1) / 7 == (b - 1) / 7,
{
    assert(chrono_week_label(a as i32) is Some && chrono_week_label(b as i32) is Some);
    assert((b as i32) as int == b);
    assert(chrono_week_label(b as i32) is Some ==> (chrono_week_label(b as i32) == chrono_week_label(
        a as i32,
    ) <==> (b - 1) / 7 == (a - 1) / 7));
}

/// The month of an earlier day of the walked range is never a later one.
proof fn lemma_month_order(a: int, b: int)
    requires
        day_facts(a),
        day_facts(b),
        i32::MIN <= a <= i32::MAX,
        i32::MIN <= b <= i32::MAX,
        a <= b,
    ensures
        ym_of(a).0 * 12 + ym_of(a).1 <= ym_of(b).0 * 12 + ym_of(b).1,
{
    assert(chrono_year_month(a as i32) is Some);
    assert((a as i32) as int == a);
    let p = chrono_year_month(a as i32)->0;
    assert(ym_of(a) == (p.0 as int, p.1 as int));
}

/// The ISO weeks of a walked range, each run given once, hold every day's
/// week, no week twice, and end with the week of the last day.
proof fn lemma_week_runs(lo: int, hi: int)
    requires
        lo <= hi,
        calendar_sound(lo, hi),
        i32::MIN <= lo,
        hi <= i32::MAX,
    ensures
        week_runs(lo, hi).len() > 0,
        week_runs(lo, hi).last() == week_of(hi),
        week_runs(lo, hi).no_duplicates(),
        forall|d: int| lo <= d <= hi ==> week_runs(lo, hi).contains(#[trigger] week_of(d)),
        forall|i: int|
            0 <= i < week_runs(lo, hi).len() ==> exists|d: int|
                lo <= d <= hi && #[trigger] week_runs(lo, hi)[i] == week_of(d),
    decreases hi - lo,
{
    let s0 = week_runs(lo, hi - 1);
    let w = week_of(hi);
    let r = week_runs(lo, hi);
    if hi == lo {
        assert(s0 == Seq::<Seq<char>>::empty());
        assert(r == seq![w]);
        assert forall|d: int| lo <= d <= hi implies r.contains(#[trigger] week_of(d)) by {
            assert(r[0] == week_of(d));
        }
        assert forall|i: int| 0 <= i < r.len() implies exists|d: int|
            lo <= d <= hi && #[trigger] r[i] == week_of(d) by {
            assert(r[i] == week_of(hi));
        }
    } else {
        assert forall|n: int| lo <= n <= hi - 1 implies #[trigger] day_facts(n) by {
            assert(day_facts(n));
        }
        lemma_week_runs(lo, hi - 1);
        assert(day_facts(hi) && day_facts(hi - 1));
        if s0.last() == w {
            assert(r == s0);
            assert forall|d: int| lo <= d <= hi implies r.contains(#[trigger] week_of(d)) by {
                if d == hi {
                    assert(r[r.len() - 1] == w);
                }
            }
            assert forall|i: int| 0 <= i < r.len() implies exists|d: int|
                lo <= d <= hi && #[trigger] r[i] == week_of(d) by {
                let d = choose|d: int| lo <= d <= hi - 1 && #[trigger] s0[i] == week_of(d);
            }
        } else {
            assert(r == s0.push(w));
            if s0.contains(w) {
                let i = choose|i: int| 0 <= i < s0.len() && s0[i] == w;
                let d = choose|d: int| lo <= d <= hi - 1 && #[trigger] s0[i] == week_of(d);
                assert(day_facts(d));
                lemma_week_same(d, hi);
                lemma_week_same(hi - 1, hi);
                assert((d - 1) / 7 <= (hi - 2) / 7 <= (hi - 1) / 7);
                assert(s0.last() == week_of(hi - 1));
                assert(false);
            }
            assert forall|a: int, b: int| 0 <= a < r.len() && 0 <= b < r.len() && a != b implies r[a]
                != r[b] by {
                if a < s0.len() && b < s0.len() {
                    assert(r[a] == s0[a] && r[b] == s0[b]);
                } else if a < s0.len() {
                    assert(r[a] == s0[a]);
                } else {
                    assert(r[b] == s0[b]);
                }
            }
            assert forall|d: int| lo <= d <= hi implies r.contains(#[trigger] week_of(d)) by {
                if d == hi {
                    assert(r[r.len() - 1] == w);
                } else {
                    let k = choose|k: int| 0 <= k < s0.len() && s0[k] == week_of(d);
                    assert(r[k] == s0[k]);
                }
            }
            assert forall|i: int| 0 <= i < r.len() implies exists|d: int|
                lo <= d <= hi && #[trigger] r[i] == week_of(d) by {
                if i < s0.len() {
                    assert(r[i] == s0[i]);
                    let d = choose|d: int| lo <= d <= hi - 1 && #[trigger] s0[i] == week_of(d);
                } else {
                    assert(r[i] == week_of(hi));
                }
            }
        }
    }
}

/// Two months written as `YYYY-MM` are the same text only when they are the
/// same month.
proof fn lemma_month_label_injective(y1: int, m1: int, y2: int, m2: int)
    requires
        1 <= m1 <= 12,
        1 <= m2 <= 12,
        month_label(y1, m1) == month_label(y2, m2),
    ensures
        y1 == y2,
        m1 == m2,
{
    lemma_two_digits(m1 as nat);
    lemma_two_digits(m2 as nat);
    let a = padded_signed(y1, 4);
    let b = padded_signed(y2, 4);
    let l = month_label(y1, m1);
    assert(l.len() == a.len() + 3);
    assert(month_label(y2, m2).len() == b.len() + 3);
    assert(l.subrange(0, a.len() as int) =~= a);
    assert(month_label(y2, m2).subrange(0, b.len() as int) =~= b);
    assert(l.subrange(a.len() + 1int, l.len() as int) =~= padded_signed(m1, 2));
    assert(month_label(y2, m2).subrange(b.len() + 1int, l.len() as int) =~= padded_signed(m2, 2));
    lemma_padded_signed_injective(y1, y2, 4);
    lemma_padded_signed_injective(m1, m2, 2);
}

/// Two quarters written as `Y-QN` are the same text only when they are the
/// same quarter.
proof fn lemma_quarter_label_injective(y1: int, q1: int, y2: int, q2: int)
    requires
        1 <= q1 <= 4,
        1 <= q2 <= 4,
        quarter_label(y1, q1) == quarter_label(y2, q2),
    ensures
        y1 == y2,
        q1 == q2,
{
    lemma_one_digit(q1 as nat);
    lemma_one_digit(q2 as nat);
    let a = padded_signed(y1, 0);
    let b = padded_signed(y2, 0);
    let l = quarter_label(y1, q1);
    assert(l.len() == a.len() + 3);
    assert(quarter_label(y2, q2).len() == b.len() + 3);
    assert(l.subrange(0, a.len() as int) =~= a);
    assert(quarter_label(y2, q2).subrange(0, b.len() as int) =~= b);
    assert(l.subrange(a.len() + 2int, l.len() as int) =~= padded_signed(q1, 0));
    assert(quarter_label(y2, q2).subrange(b.len() + 2int, l.len() as int) =~= padded_signed(q2, 0));
    lemma_padded_signed_injective(y1, y2, 0);
    lemma_padded_signed_injective(q1, q2, 0);
}

/// The labels of a walked range, from the bucket of its first day to that
/// of its last, are distinct and hold the bucket of every day between.
proof fn lemma_labels_cover(g: Granularity, lo: int, hi: int)
    requires
        lo <= hi,
        calendar_sound(lo, hi),
        i32::MIN <= lo,
        hi <= i32::MAX,
    ensures
        all_labels(g, lo, hi).no_duplicates(),
        forall|d: int| lo <= d <= hi ==> all_labels(g, lo, hi).contains(#[trigger] bucket_label(g, d)),
{
    let ls = all_labels(g, lo, hi);
    assert(day_facts(lo) && day_facts(hi));
    let (y1, m1) = ym_of(lo);
    let (y2, m2) = ym_of(hi);
    match g {
        Granularity::Daily => {
            assert forall|i: int, j: int| 0 <= i < ls.len() && 0 <= j < ls.len() && i != j implies ls[i]
                != ls[j] by {
                assert(day_facts(lo + i) && day_facts(lo + j));
                lemma_date_distinct(lo + i, lo + j);
            }
            assert forall|d: int| lo <= d <= hi implies ls.contains(#[trigger] bucket_label(g, d)) by {
                assert(ls[d - lo] == date_of(d));
            }
        },
        Granularity::Weekly => {
            lemma_week_runs(lo, hi);
        },
        Granularity::Monthly => {
            let count = month_count(lo, hi);
            assert forall|i: int, j: int| 0 <= i < ls.len() && 0 <= j < ls.len() && i != j implies ls[i]
                != ls[j] by {
                let yi = y1 + (m1 - 1 + i) / 12;
                let mi = (m1 - 1 + i) % 12 + 1;
                let yj = y1 + (m1 - 1 + j) / 12;
                let mj = (m1 - 1 + j) % 12 + 1;
                assert(yi * 12 + mi == y1 * 12 + m1 + i);
                assert(yj * 12 + mj == y1 * 12 + m1 + j);
                if ls[i] == ls[j] {
                    lemma_month_label_injective(yi, mi, yj, mj);
                }
            }
            assert forall|d: int| lo <= d <= hi implies ls.contains(#[trigger] bucket_label(g, d)) by {
                assert(day_facts(d));
                lemma_month_order(lo, d);
                lemma_month_order(d, hi);
                let (y, m) = ym_of(d);
                let i = (y * 12 + m) - (y1 * 12 + m1);
                assert(0 <= i < count);
                let yi = y1 + (m1 - 1 + i) / 12;
                let mi = (m1 - 1 + i) % 12 + 1;
                assert(yi * 12 + mi == y * 12 + m);
                assert(yi == y && mi == m);
                assert(ls[i] == month_label(y, m));
            }
        },
        Granularity::Quarterly => {
            let q1 = quarter_of(m1);
            let count = quarter_count(lo, hi);
            assert forall|i: int, j: int| 0 <= i < ls.len() && 0 <= j < ls.len() && i != j implies ls[i]
                != ls[j] by {
                let yi = y1 + (q1 - 1 + i) / 4;
                let qi = (q1 - 1 + i) % 4 + 1;
                let yj = y1 + (q1 - 1 + j) / 4;
                let qj = (q1 - 1 + j) % 4 + 1;
                assert(yi * 4 + qi == y1 * 4 + q1 + i);
                assert(yj * 4 + qj == y1 * 4 + q1 + j);
                if ls[i] == ls[j] {
                    lemma_quarter_label_injective(yi, qi, yj, qj);
                }
            }
            assert forall|d: int| lo <= d <= hi implies ls.contains(#[trigger] bucket_label(g, d)) by {
                assert(day_facts(d));
                lemma_month_order(lo, d);
                lemma_month_order(d, hi);
                let (y, m) = ym_of(d);
                let q = quarter_of(m);
                assert(4 * y1 + q1 - 1 == (12 * y1 + m1 - 1) / 3);
                assert(4 * y + q - 1 == (12 * y + m - 1) / 3);
                assert(4 * y2 + quarter_of(m2) - 1 == (12 * y2 + m2 - 1) / 3);
                assert((12 * y1 + m1 - 1) / 3 <= (12 * y + m - 1) / 3);
                assert((12 * y + m - 1) / 3 <= (12 * y2 + m2 - 1) / 3);
                let i = (y * 4 + q) - (y1 * 4 + q1);
                assert(0 <= i < count);
                let yi = y1 + (q1 - 1 + i) / 4;
                let qi = (q1 - 1 + i) % 4 + 1;
                assert(yi * 4 + qi == y * 4 + q);
                assert(yi == y && qi == q);
                assert(ls[i] == quarter_label(y, q));
            }
        },
        Granularity::Yearly => {
            assert forall|i: int, j: int| 0 <= i < ls.len() && 0 <= j < ls.len() && i != j implies ls[i]
                != ls[j] by {
                if ls[i] == ls[j] {
                    lemma_padded_signed_injective(y1 + i, y1 + j, 0);
                }
            }
            assert forall|d: int| lo <= d <= hi implies ls.contains(#[trigger] bucket_label(g, d)) by {
                assert(day_facts(d));
                lemma_month_order(lo, d);
                lemma_month_order(d, hi);
                let (y, m) = ym_of(d);
                assert(ls[y - y1] == year_label(y));
            }
        },
    }
}

/// Over a walked range, the buckets of the timeline hold, together, the
/// lines of all the dated entries: each entry's lines in exactly one.
proof fn lemma_lines_in_one_bucket(ds: Seq<(int, int)>, max: int)
    requires
        ds.len() > 0,
        calendar_sound(min_day(ds), max_day(ds)),
        i32::MIN <= min_day(ds),
        max_day(ds) <= i32::MAX,
    ensures
        bucket_lines(spec_timeline(ds, max).0) == dated_lines(ds),
{
    let lo = min_day(ds);
    let hi = max_day(ds);
    let g = granularity(lo, hi, max);
    lemma_within_bounds(ds);
    assert(lo <= ds[0].0 <= hi);
    lemma_labels_cover(g, lo, hi);
    let ls = all_labels(g, lo, hi);
    let b = spec_timeline(ds, max).0;
    assert forall|i: int| 0 <= i < b.len() implies #[trigger] b[i] == (ls[i], bucket_sum(ds, g, ls[i])) by {
    }
    lemma_bucket_lines_of(b, ls, ds, g);
    assert forall|i: int| 0 <= i < ds.len() implies ls.contains(bucket_label(g, #[trigger] ds[i].0)) by {
        assert(lo <= ds[i].0 <= hi);
    }
    lemma_label_sum_total(ls, ds, g);
}

} // verus!
