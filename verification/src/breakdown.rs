//! Changed lines per commit type: over all commits, and per project.
use vstd::prelude::*;
use crate::commit::{other_label, spec_type_label, type_label};
use crate::model::{total_lines, CommitEntry, ProposalEntry};
use crate::order::{insert_pos, lemma_stable_sort, sorted, stable_sort, strict_order};
use crate::text::{opt_view, str_eq, strings_view};

verus! {

/// The lines changed by commits of one type.
#[derive(Debug, Clone)]
pub struct TypeBreakdown {
    pub commit_type: String,
    pub label: String,
    pub lines: usize,
}

/// The type, label and lines of an entry.
pub open spec fn tl_view(t: TypeBreakdown) -> (Seq<char>, Seq<char>, int) {
    (t.commit_type@, t.label@, t.lines as int)
}

/// The type, label and lines of each entry.
pub open spec fn tls_view(v: Seq<TypeBreakdown>) -> Seq<(Seq<char>, Seq<char>, int)> {
    v.map_values(|t: TypeBreakdown| tl_view(t))
}

/// An entry ranks above another when it has more lines.
pub open spec fn by_lines() -> spec_fn((Seq<char>, Seq<char>, int), (Seq<char>, Seq<char>, int)) -> bool {
    |a: (Seq<char>, Seq<char>, int), b: (Seq<char>, Seq<char>, int)| a.2 > b.2
}

/// The lines changed by the commits whose key is `k`.
pub open spec fn key_lines(cs: Seq<CommitEntry>, key: spec_fn(CommitEntry) -> Seq<char>, k: Seq<char>) -> int
    decreases cs.len(),
{
    if cs.len() == 0 {
        0
    } else {
        key_lines(cs.drop_last(), key, k) + if key(cs.last()) == k {
            cs.last().lines()
        } else {
            0
        }
    }
}

/// The label a commit is counted under in the breakdown.
pub open spec fn breakdown_label(c: CommitEntry) -> Seq<char> {
    spec_type_label(c.commit_type@)
}

/// The type shown for a commit's label: `other` for the label of unknown
/// types, the commit's own type otherwise.
pub open spec fn breakdown_type(c: CommitEntry) -> Seq<char> {
    if breakdown_label(c) == other_label() {
        "other"@
    } else {
        c.commit_type@
    }
}

/// The labels of the groups.
pub open spec fn group_labels(g: Seq<(Seq<char>, Seq<char>)>) -> Seq<Seq<char>> {
    g.map_values(|p: (Seq<char>, Seq<char>)| p.1)
}

/// The distinct labels of the commits, in order of first appearance, each
/// with the type shown for the first commit under it.
pub open spec fn label_groups(cs: Seq<CommitEntry>) -> Seq<(Seq<char>, Seq<char>)>
    decreases cs.len(),
{
    if cs.len() == 0 {
        Seq::empty()
    } else {
        let g = label_groups(cs.drop_last());
        let c = cs.last();
        if group_labels(g).contains(breakdown_label(c)) {
            g
        } else {
            g.push((breakdown_type(c), breakdown_label(c)))
        }
    }
}

/// The breakdown over all commits: one entry per label with its type and the
/// lines of its commits, most lines first.
pub open spec fn spec_type_breakdown(cs: Seq<CommitEntry>) -> Seq<(Seq<char>, Seq<char>, int)> {
    stable_sort(
        label_groups(cs).map_values(
            |g: (Seq<char>, Seq<char>)|
                (g.0, g.1, key_lines(cs, |c: CommitEntry| breakdown_label(c), g.1)),
        ),
        by_lines(),
    )
}

/// The lines of the entries added up.
pub open spec fn entries_total(es: Seq<(Seq<char>, Seq<char>, int)>) -> int
    decreases es.len(),
{
    if es.len() == 0 {
        0
    } else {
        entries_total(es.drop_last()) + es.last().2
    }
}

/// The lines of the commits under each group's label, added up.
spec fn groups_sum(g: Seq<(Seq<char>, Seq<char>)>, cs: Seq<CommitEntry>) -> int
    decreases g.len(),
{
    if g.len() == 0 {
        0
    } else {
        groups_sum(g.drop_last(), cs) + key_lines(cs, |c: CommitEntry| breakdown_label(c), g.last().1)
    }
}

/// The number of groups labelled `l`.
spec fn label_count(g: Seq<(Seq<char>, Seq<char>)>, l: Seq<char>) -> int
    decreases g.len(),
{
    if g.len() == 0 {
        0
    } else {
        label_count(g.drop_last(), l) + if g.last().1 == l {
            1int
        } else {
            0int
        }
    }
}

/// No two groups share a label.
pub open spec fn distinct_labels(g: Seq<(Seq<char>, Seq<char>)>) -> bool {
    forall|i: int, j: int| 0 <= i < j < g.len() ==> (#[trigger] g[i]).1 != (#[trigger] g[j]).1
}

proof fn lemma_label_count(g: Seq<(Seq<char>, Seq<char>)>, l: Seq<char>)
    requires
        distinct_labels(g),
    ensures
        group_labels(g).contains(l) ==> label_count(g, l) == 1,
        !group_labels(g).contains(l) ==> label_count(g, l) == 0,
    decreases g.len(),
{
    if g.len() > 0 {
        let h = g.drop_last();
        assert(distinct_labels(h)) by {
            assert forall|i: int, j: int| 0 <= i < j < h.len() implies (#[trigger] h[i]).1 != (#[trigger] h[j]).1 by {
                assert(h[i] == g[i] && h[j] == g[j]);
            }
        }
        lemma_label_count(h, l);
        if group_labels(g).contains(l) {
            let k = choose|k: int| 0 <= k < group_labels(g).len() && group_labels(g)[k] == l;
            if k < h.len() {
                assert(group_labels(h)[k] == l);
                assert(g.last().1 != l) by {
                    assert(g[k].1 == l);
                    assert(g[g.len() - 1] == g.last());
                }
            } else {
                assert(g.last().1 == l);
                if group_labels(h).contains(l) {
                    let k2 = choose|k2: int| 0 <= k2 < group_labels(h).len() && group_labels(h)[k2] == l;
                    assert(g[k2] == h[k2]);
                    assert(g[g.len() - 1] == g.last());
                }
            }
        } else {
            assert(g.last().1 != l) by {
                assert(group_labels(g)[g.len() - 1] == g.last().1);
            }
            if group_labels(h).contains(l) {
                let k2 = choose|k2: int| 0 <= k2 < group_labels(h).len() && group_labels(h)[k2] == l;
                assert(group_labels(g)[k2] == l);
            }
        }
    }
}

/// The groups of the commits have distinct labels, and hold the label of
/// every commit.
pub proof fn lemma_label_groups(cs: Seq<CommitEntry>)
    ensures
        distinct_labels(label_groups(cs)),
        forall|i: int| 0 <= i < cs.len() ==> group_labels(label_groups(cs)).contains(
            breakdown_label(#[trigger] cs[i]),
        ),
    decreases cs.len(),
{
    if cs.len() > 0 {
        let h = cs.drop_last();
        lemma_label_groups(h);
        let g = label_groups(h);
        let c = cs.last();
        if !group_labels(g).contains(breakdown_label(c)) {
            let n = g.push((breakdown_type(c), breakdown_label(c)));
            assert forall|i: int, j: int| 0 <= i < j < n.len() implies (#[trigger] n[i]).1 != (#[trigger] n[j]).1 by {
                if j == g.len() {
                    assert(n[i] == g[i]);
                    assert(group_labels(g)[i] == g[i].1);
                } else {
                    assert(n[i] == g[i] && n[j] == g[j]);
                }
            }
            assert forall|i: int| 0 <= i < cs.len() implies group_labels(n).contains(
                breakdown_label(#[trigger] cs[i]),
            ) by {
                if i < h.len() {
                    assert(cs[i] == h[i]);
                    let k = choose|k: int| 0 <= k < group_labels(g).len() && group_labels(g)[k] == breakdown_label(h[i]);
                    assert(group_labels(n)[k] == group_labels(g)[k]);
                } else {
                    assert(group_labels(n)[g.len() as int] == breakdown_label(c));
                }
            }
        } else {
            assert forall|i: int| 0 <= i < cs.len() implies group_labels(g).contains(
                breakdown_label(#[trigger] cs[i]),
            ) by {
                if i < h.len() {
                    assert(cs[i] == h[i]);
                }
            }
        }
    }
}

proof fn lemma_key_lines_absent(cs: Seq<CommitEntry>, l: Seq<char>)
    requires
        forall|i: int| 0 <= i < cs.len() ==> breakdown_label(#[trigger] cs[i]) != l,
    ensures
        key_lines(cs, |c: CommitEntry| breakdown_label(c), l) == 0,
    decreases cs.len(),
{
    if cs.len() > 0 {
        assert forall|i: int| 0 <= i < cs.drop_last().len() implies breakdown_label(
            #[trigger] cs.drop_last()[i],
        ) != l by {
            assert(cs.drop_last()[i] == cs[i]);
        }
        lemma_key_lines_absent(cs.drop_last(), l);
    }
}

proof fn lemma_groups_sum_step(g: Seq<(Seq<char>, Seq<char>)>, cs: Seq<CommitEntry>)
    requires
        cs.len() > 0,
    ensures
        groups_sum(g, cs) == groups_sum(g, cs.drop_last()) + cs.last().lines() * label_count(
            g,
            breakdown_label(cs.last()),
        ),
    decreases g.len(),
{
    if g.len() > 0 {
        lemma_groups_sum_step(g.drop_last(), cs);
        let a = cs.last().lines();
        let l = breakdown_label(cs.last());
        let n = label_count(g, l);
        let m = label_count(g.drop_last(), l);
        let b: int = if g.last().1 == l {
            1int
        } else {
            0int
        };
        assert(n == m + b);
        assert(a * n == a * m + a * b) by (nonlinear_arith)
            requires
                n == m + b,
        ;
    }
}

proof fn lemma_groups_sum_push(g: Seq<(Seq<char>, Seq<char>)>, x: (Seq<char>, Seq<char>), cs: Seq<CommitEntry>)
    ensures
        groups_sum(g.push(x), cs) == groups_sum(g, cs) + key_lines(cs, |c: CommitEntry| breakdown_label(c), x.1),
        label_count(g.push(x), x.1) == label_count(g, x.1) + 1,
{
    assert(g.push(x).drop_last() == g);
}

/// The groups of the commits share out all their lines.
proof fn lemma_groups_total(cs: Seq<CommitEntry>)
    ensures
        groups_sum(label_groups(cs), cs) == total_lines(cs),
    decreases cs.len(),
{
    if cs.len() > 0 {
        let h = cs.drop_last();
        let c = cs.last();
        let l = breakdown_label(c);
        lemma_groups_total(h);
        lemma_label_groups(h);
        lemma_label_groups(cs);
        let g = label_groups(h);
        let gc = label_groups(cs);
        lemma_groups_sum_step(gc, cs);
        lemma_label_count(gc, l);
        assert(group_labels(gc).contains(l)) by {
            assert(cs[cs.len() - 1] == c);
        }
        if group_labels(g).contains(l) {
            assert(gc == g);
        } else {
            let x = (breakdown_type(c), l);
            assert(gc == g.push(x));
            lemma_groups_sum_push(g, x, h);
            assert forall|i: int| 0 <= i < h.len() implies breakdown_label(#[trigger] h[i]) != l by {
                assert(group_labels(g).contains(breakdown_label(h[i])));
            }
            lemma_key_lines_absent(h, l);
        }
    }
}

proof fn lemma_entries_total_map(g: Seq<(Seq<char>, Seq<char>)>, cs: Seq<CommitEntry>)
    ensures
        entries_total(
            g.map_values(
                |x: (Seq<char>, Seq<char>)|
                    (x.0, x.1, key_lines(cs, |c: CommitEntry| breakdown_label(c), x.1)),
            ),
        ) == groups_sum(g, cs),
    decreases g.len(),
{
    let f = |x: (Seq<char>, Seq<char>)|
        (x.0, x.1, key_lines(cs, |c: CommitEntry| breakdown_label(c), x.1));
    if g.len() > 0 {
        lemma_entries_total_map(g.drop_last(), cs);
        assert(g.map_values(f).drop_last() == g.drop_last().map_values(f));
    }
}

proof fn lemma_entries_total_insert(r: Seq<(Seq<char>, Seq<char>, int)>, k: int, x: (Seq<char>, Seq<char>, int))
    requires
        0 <= k <= r.len(),
    ensures
        entries_total(r.insert(k, x)) == entries_total(r) + x.2,
    decreases r.len(),
{
    if k == r.len() {
        assert(r.insert(k, x) == r.push(x));
        assert(r.push(x).drop_last() == r);
    } else {
        lemma_entries_total_insert(r.drop_last(), k, x);
        assert(r.insert(k, x).drop_last() == r.drop_last().insert(k, x));
        assert(r.insert(k, x).last() == r.last());
    }
}

proof fn lemma_entries_total_sorted(
    s: Seq<(Seq<char>, Seq<char>, int)>,
    f: spec_fn((Seq<char>, Seq<char>, int), (Seq<char>, Seq<char>, int)) -> bool,
)
    ensures
        entries_total(stable_sort(s, f)) == entries_total(s),
    decreases s.len(),
{
    if s.len() > 0 {
        lemma_entries_total_sorted(s.drop_last(), f);
        let r = stable_sort(s.drop_last(), f);
        crate::order::lemma_insert_pos(r, s.last(), f, 0);
        lemma_entries_total_insert(r, insert_pos(r, s.last(), f, 0), s.last());
    }
}

/// The breakdown by type shares out the lines of the commits: its entries'
/// lines add up to the lines of all the commits, so the shares add up to a
/// whole.
pub proof fn lemma_breakdown_total(cs: Seq<CommitEntry>)
    ensures
        entries_total(spec_type_breakdown(cs)) == total_lines(cs),
{
    let g = label_groups(cs);
    let e = g.map_values(
        |x: (Seq<char>, Seq<char>)| (x.0, x.1, key_lines(cs, |c: CommitEntry| breakdown_label(c), x.1)),
    );
    lemma_entries_total_sorted(e, by_lines());
    lemma_entries_total_map(g, cs);
    lemma_groups_total(cs);
}

/// The distinct types of the commits, in order of first appearance.
pub open spec fn types_seen(cs: Seq<CommitEntry>) -> Seq<Seq<char>>
    decreases cs.len(),
{
    if cs.len() == 0 {
        Seq::empty()
    } else {
        let g = types_seen(cs.drop_last());
        if g.contains(cs.last().commit_type@) {
            g
        } else {
            g.push(cs.last().commit_type@)
        }
    }
}

/// The per-type entries of the commits, most lines first.
pub open spec fn spec_type_lines(cs: Seq<CommitEntry>) -> Seq<(Seq<char>, Seq<char>, int)> {
    stable_sort(
        types_seen(cs).map_values(
            |t: Seq<char>|
                (t, spec_type_label(t), key_lines(cs, |c: CommitEntry| c.commit_type@, t)),
        ),
        by_lines(),
    )
}

proof fn lemma_key_lines_prefix(
    cs: Seq<CommitEntry>,
    key: spec_fn(CommitEntry) -> Seq<char>,
    k: Seq<char>,
    n: int,
)
    requires
        0 <= n <= cs.len(),
    ensures
        0 <= key_lines(cs.take(n), key, k) <= key_lines(cs, key, k) <= total_lines(cs),
    decreases cs.len(),
{
    if n == cs.len() {
        assert(cs.take(n) == cs);
        lemma_key_lines_total(cs, key, k);
    } else {
        assert(cs.drop_last().take(n) == cs.take(n));
        lemma_key_lines_prefix(cs.drop_last(), key, k, n);
        lemma_key_lines_total(cs, key, k);
    }
}

proof fn lemma_key_lines_total(cs: Seq<CommitEntry>, key: spec_fn(CommitEntry) -> Seq<char>, k: Seq<char>)
    ensures
        0 <= key_lines(cs, key, k) <= total_lines(cs),
    decreases cs.len(),
{
    if cs.len() > 0 {
        lemma_key_lines_total(cs.drop_last(), key, k);
    }
}

proof fn lemma_by_lines_strict()
    ensures
        strict_order(by_lines()),
{
}

/// The lines of the commits whose key (given for each commit in `keys`) is
/// `k`.
fn lines_for_key(
    cs: &[CommitEntry],
    keys: &Vec<String>,
    k: &String,
    key: Ghost<spec_fn(CommitEntry) -> Seq<char>>,
) -> (r: usize)
    requires
        keys@.len() == cs@.len(),
        forall|i: int| 0 <= i < cs@.len() ==> (#[trigger] keys@[i])@ == key@(cs@[i]),
        total_lines(cs@) <= usize::MAX,
    ensures
        r == key_lines(cs@, key@, k@),
{
    let mut acc: usize = 0;
    let mut i: usize = 0;
    while i < cs.len()
        invariant
            i <= cs@.len(),
            keys@.len() == cs@.len(),
            forall|j: int| 0 <= j < cs@.len() ==> (#[trigger] keys@[j])@ == key@(cs@[j]),
            total_lines(cs@) <= usize::MAX,
            acc == key_lines(cs@.take(i as int), key@, k@),
        decreases cs@.len() - i,
    {
        proof {
            let pre = cs@.take(i + 1);
            assert(pre.drop_last() == cs@.take(i as int));
            assert(pre.last() == cs@[i as int]);
            lemma_key_lines_prefix(cs@, key@, k@, i + 1);
            assert(keys@[i as int]@ == key@(cs@[i as int]));
        }
        if str_eq(keys[i].as_str(), k.as_str()) {
            acc = acc + cs[i].insertions + cs[i].deletions;
        }
        i = i + 1;
    }
    assert(cs@.take(cs@.len() as int) == cs@);
    acc
}

/// A copy of an entry.
fn copy_entry(t: &TypeBreakdown) -> (r: TypeBreakdown)
    ensures
        tl_view(r) == tl_view(*t),
{
    TypeBreakdown { commit_type: t.commit_type.clone(), label: t.label.clone(), lines: t.lines }
}

/// The entries, most lines first; entries with as many lines keep their
/// order.
pub fn sort_by_lines(v: &Vec<TypeBreakdown>) -> (r: Vec<TypeBreakdown>)
    ensures
        tls_view(r@) == stable_sort(tls_view(v@), by_lines()),
        sorted(tls_view(r@), by_lines()),
        tls_view(r@).to_multiset() == tls_view(v@).to_multiset(),
{
    let ghost sv = tls_view(v@);
    let mut r: Vec<TypeBreakdown> = Vec::new();
    let mut i: usize = 0;
    while i < v.len()
        invariant
            i <= v@.len(),
            sv == tls_view(v@),
            tls_view(r@) == stable_sort(sv.take(i as int), by_lines()),
        decreases v@.len() - i,
    {
        let x = copy_entry(&v[i]);
        let ghost rv = tls_view(r@);
        let ghost xv = tl_view(x);
        assert(sv.take(i + 1).drop_last() == sv.take(i as int));
        assert(sv.take(i + 1).last() == xv);
        let mut k: usize = 0;
        while k < r.len() && !(x.lines > r[k].lines)
            invariant
                k <= r@.len(),
                rv == tls_view(r@),
                xv == tl_view(x),
                insert_pos(rv, xv, by_lines(), 0) == insert_pos(rv, xv, by_lines(), k as int),
            decreases r@.len() - k,
        {
            assert(rv[k as int] == tl_view(r@[k as int]));
            k = k + 1;
        }
        proof {
            if k < r@.len() {
                assert(rv[k as int] == tl_view(r@[k as int]));
            }
        }
        assert(insert_pos(rv, xv, by_lines(), 0) == k);
        let ghost old_r = r@;
        r.insert(k, x);
        assert(tls_view(r@) =~= rv.insert(k as int, xv)) by {
            assert(r@ == old_r.insert(k as int, x));
            assert forall|j: int| 0 <= j < r@.len() implies #[trigger] tls_view(r@)[j] == rv.insert(
                k as int,
                xv,
            )[j] by {
                if j < k {
                    assert(r@[j] == old_r[j]);
                } else if j > k {
                    assert(r@[j] == old_r[j - 1]);
                }
            }
        }
        i = i + 1;
    }
    assert(sv.take(v@.len() as int) == sv);
    proof {
        lemma_by_lines_strict();
        lemma_stable_sort(sv, by_lines());
    }
    r
}

/// The breakdown of all commits by label: for each label (the label of the
/// commit type, `其他` for every unknown type) the type shown for it and the
/// lines its commits changed, most lines first.
pub fn build_type_breakdown(commits: &[CommitEntry]) -> (r: Vec<TypeBreakdown>)
    requires
        total_lines(commits@) <= usize::MAX,
    ensures
        tls_view(r@) == spec_type_breakdown(commits@),
        sorted(tls_view(r@), by_lines()),
{
    let ghost key = |c: CommitEntry| breakdown_label(c);
    let mut labels: Vec<String> = Vec::new();
    let mut i: usize = 0;
    while i < commits.len()
        invariant
            i <= commits@.len(),
            labels@.len() == i,
            forall|j: int| 0 <= j < i ==> (#[trigger] labels@[j])@ == breakdown_label(commits@[j]),
        decreases commits@.len() - i,
    {
        let l = type_label(commits[i].commit_type.as_str()).to_owned();
        labels.push(l);
        i = i + 1;
    }
    let mut groups_t: Vec<String> = Vec::new();
    let mut groups_l: Vec<String> = Vec::new();
    let mut i: usize = 0;
    while i < commits.len()
        invariant
            i <= commits@.len(),
            labels@.len() == commits@.len(),
            forall|j: int| 0 <= j < commits@.len() ==> (#[trigger] labels@[j])@ == breakdown_label(
                commits@[j],
            ),
            groups_t@.len() == groups_l@.len(),
            label_groups(commits@.take(i as int)) == Seq::new(
                groups_t@.len(),
                |j: int| (groups_t@[j]@, groups_l@[j]@),
            ),
        decreases commits@.len() - i,
    {
        let ghost g = label_groups(commits@.take(i as int));
        let ghost c = commits@[i as int];
        assert(commits@.take(i + 1).drop_last() == commits@.take(i as int));
        assert(commits@.take(i + 1).last() == c);
        let mut k: usize = 0;
        let mut found = false;
        while k < groups_l.len()
            invariant
                k <= groups_l@.len() == groups_t@.len(),
                g == Seq::new(groups_t@.len(), |j: int| (groups_t@[j]@, groups_l@[j]@)),
                i < labels@.len(),
                labels@[i as int]@ == breakdown_label(c),
                found ==> group_labels(g).contains(breakdown_label(c)),
                !found ==> forall|j: int| 0 <= j < k ==> groups_l@[j]@ != breakdown_label(c),
            decreases groups_l@.len() - k,
        {
            if str_eq(groups_l[k].as_str(), labels[i].as_str()) {
                assert(group_labels(g)[k as int] == breakdown_label(c));
                found = true;
            }
            k = k + 1;
        }
        if !found {
            assert(!group_labels(g).contains(breakdown_label(c))) by {
                assert forall|j: int| 0 <= j < g.len() implies #[trigger] group_labels(g)[j] != breakdown_label(c) by {
                    assert(g[j] == (groups_t@[j]@, groups_l@[j]@));
                }
            }
            let t = if str_eq(labels[i].as_str(), "其他") {
                "other".to_owned()
            } else {
                commits[i].commit_type.clone()
            };
            assert(t@ == breakdown_type(c));
            groups_t.push(t);
            groups_l.push(labels[i].clone());
            assert(label_groups(commits@.take(i + 1)) =~= Seq::new(
                groups_t@.len(),
                |j: int| (groups_t@[j]@, groups_l@[j]@),
            ));
        }
        i = i + 1;
    }
    assert(commits@.take(commits@.len() as int) == commits@);
    let ghost groups = label_groups(commits@);
    let ghost want = groups.map_values(
        |g: (Seq<char>, Seq<char>)| (g.0, g.1, key_lines(commits@, key, g.1)),
    );
    let mut entries: Vec<TypeBreakdown> = Vec::new();
    let mut k: usize = 0;
    while k < groups_l.len()
        invariant
            k <= groups_l@.len() == groups_t@.len(),
            labels@.len() == commits@.len(),
            forall|j: int| 0 <= j < commits@.len() ==> (#[trigger] labels@[j])@ == key(commits@[j]),
            total_lines(commits@) <= usize::MAX,
            groups == Seq::new(groups_t@.len(), |j: int| (groups_t@[j]@, groups_l@[j]@)),
            want == groups.map_values(
                |g: (Seq<char>, Seq<char>)| (g.0, g.1, key_lines(commits@, key, g.1)),
            ),
            tls_view(entries@) == want.take(k as int),
        decreases groups_l@.len() - k,
    {
        let n = lines_for_key(commits, &labels, &groups_l[k], Ghost(key));
        let e = TypeBreakdown { commit_type: groups_t[k].clone(), label: groups_l[k].clone(), lines: n };
        let ghost old_e = entries@;
        entries.push(e);
        assert(tls_view(entries@) =~= want.take(k + 1)) by {
            assert(tls_view(old_e).len() == old_e.len());
            assert(want.len() == groups_l@.len());
            assert(entries@ == old_e.push(e));
            assert forall|j: int| 0 <= j < k + 1 implies #[trigger] tls_view(entries@)[j] == want.take(
                k + 1,
            )[j] by {
                if j < k {
                    assert(entries@[j] == old_e[j]);
                    assert(tls_view(old_e)[j] == want.take(k as int)[j]);
                }
            }
        }
        k = k + 1;
    }
    assert(want.take(want.len() as int) == want);
    let r = sort_by_lines(&entries);
    assert(want == label_groups(commits@).map_values(
        |g: (Seq<char>, Seq<char>)|
            (g.0, g.1, key_lines(commits@, |c: CommitEntry| breakdown_label(c), g.1)),
    ));
    r
}

/// What the report shows of one project.
#[derive(Debug, Clone)]
pub struct ProjectData {
    pub name: String,
    pub description: String,
    pub url: Option<String>,
    pub commit_count: usize,
    pub proposal_count: usize,
    pub lines_added: usize,
    pub lines_removed: usize,
    /// The lines changed by the project's commits, the base of the types'
    /// shares.
    pub total_lines: usize,
    /// The project's five commit types with the most lines, most first.
    pub top_types: Vec<TypeBreakdown>,
}

/// The commits of the named project, in order.
pub open spec fn commits_of(cs: Seq<CommitEntry>, name: Seq<char>) -> Seq<CommitEntry> {
    cs.filter(|c: CommitEntry| c.project@ == name)
}

/// The proposals of the named project, in order.
pub open spec fn proposals_of(ps: Seq<ProposalEntry>, name: Seq<char>) -> Seq<ProposalEntry> {
    ps.filter(|p: ProposalEntry| p.project@ == name)
}

/// The first `n` entries of `s`, or all of them when it has fewer.
pub open spec fn first_n<T>(s: Seq<T>, n: int) -> Seq<T> {
    if s.len() <= n {
        s
    } else {
        s.take(n)
    }
}

/// The commits of the named project.
fn project_commits(cs: &[CommitEntry], name: &str) -> (r: Vec<CommitEntry>)
    ensures
        r@ == commits_of(cs@, name@),
{
    let mut r: Vec<CommitEntry> = Vec::new();
    let mut i: usize = 0;
    while i < cs.len()
        invariant
            i <= cs@.len(),
            r@ == cs@.take(i as int).filter(|c: CommitEntry| c.project@ == name@),
        decreases cs@.len() - i,
    {
        proof {
            reveal_with_fuel(Seq::<CommitEntry>::filter, 1);
            assert(cs@.take(i + 1).drop_last() == cs@.take(i as int));
            assert(cs@.take(i + 1).last() == cs@[i as int]);
        }
        if str_eq(cs[i].project.as_str(), name) {
            r.push(cs[i].duplicate());
        }
        i = i + 1;
    }
    assert(cs@.take(cs@.len() as int) == cs@);
    r
}

/// The number of proposals of the named project.
fn count_project_proposals(ps: &[ProposalEntry], name: &str) -> (n: usize)
    ensures
        n == proposals_of(ps@, name@).len(),
{
    let mut n: usize = 0;
    let mut i: usize = 0;
    while i < ps.len()
        invariant
            i <= ps@.len(),
            n == ps@.take(i as int).filter(|p: ProposalEntry| p.project@ == name@).len(),
            n <= i,
        decreases ps@.len() - i,
    {
        proof {
            reveal_with_fuel(Seq::<ProposalEntry>::filter, 1);
            assert(ps@.take(i + 1).drop_last() == ps@.take(i as int));
            assert(ps@.take(i + 1).last() == ps@[i as int]);
        }
        if str_eq(ps[i].project.as_str(), name) {
            n = n + 1;
        }
        i = i + 1;
    }
    assert(ps@.take(ps@.len() as int) == ps@);
    n
}

/// The per-type entries of the commits, most lines first.
pub fn type_lines(cs: &[CommitEntry]) -> (r: Vec<TypeBreakdown>)
    requires
        total_lines(cs@) <= usize::MAX,
    ensures
        tls_view(r@) == spec_type_lines(cs@),
        sorted(tls_view(r@), by_lines()),
{
    let ghost key = |c: CommitEntry| c.commit_type@;
    let mut keys: Vec<String> = Vec::new();
    let mut types: Vec<String> = Vec::new();
    let mut i: usize = 0;
    while i < cs.len()
        invariant
            i <= cs@.len(),
            keys@.len() == i,
            key == (|c: CommitEntry| c.commit_type@),
            forall|j: int| 0 <= j < i ==> (#[trigger] keys@[j])@ == key(cs@[j]),
            strings_view(types@) == types_seen(cs@.take(i as int)),
        decreases cs@.len() - i,
    {
        let ghost g = types_seen(cs@.take(i as int));
        let ghost c = cs@[i as int];
        assert(cs@.take(i + 1).drop_last() == cs@.take(i as int));
        assert(cs@.take(i + 1).last() == c);
        let mut k: usize = 0;
        let mut found = false;
        while k < types.len()
            invariant
                k <= types@.len(),
                i < cs@.len(),
                c == cs@[i as int],
                g == strings_view(types@),
                found ==> g.contains(c.commit_type@),
                !found ==> forall|j: int| 0 <= j < k ==> types@[j]@ != c.commit_type@,
            decreases types@.len() - k,
        {
            if str_eq(types[k].as_str(), cs[i].commit_type.as_str()) {
                assert(g[k as int] == c.commit_type@);
                found = true;
            }
            k = k + 1;
        }
        if !found {
            assert(!g.contains(c.commit_type@)) by {
                assert forall|j: int| 0 <= j < g.len() implies #[trigger] g[j] != c.commit_type@ by {
                    assert(g[j] == types@[j]@);
                }
            }
            let ghost old_t = types@;
            types.push(cs[i].commit_type.clone());
            assert(strings_view(types@) =~= g.push(c.commit_type@)) by {
                assert(types@ == old_t.push(cs@[i as int].commit_type));
                assert(strings_view(old_t).len() == old_t.len());
                assert forall|j: int| 0 <= j < types@.len() implies #[trigger] strings_view(types@)[j]
                    == g.push(c.commit_type@)[j] by {
                    if j < old_t.len() {
                        assert(types@[j] == old_t[j]);
                    }
                }
            }
        }
        let ghost old_k = keys@;
        keys.push(cs[i].commit_type.clone());
        assert forall|j: int| 0 <= j < i + 1 implies (#[trigger] keys@[j])@ == key(cs@[j]) by {
            if j < i {
                assert(keys@[j] == old_k[j]);
            }
        }
        i = i + 1;
    }
    assert(cs@.take(cs@.len() as int) == cs@);
    let ghost groups = types_seen(cs@);
    let ghost want = groups.map_values(
        |t: Seq<char>| (t, spec_type_label(t), key_lines(cs@, key, t)),
    );
    let mut entries: Vec<TypeBreakdown> = Vec::new();
    let mut k: usize = 0;
    while k < types.len()
        invariant
            k <= types@.len(),
            keys@.len() == cs@.len(),
            forall|j: int| 0 <= j < cs@.len() ==> (#[trigger] keys@[j])@ == key(cs@[j]),
            total_lines(cs@) <= usize::MAX,
            groups == strings_view(types@),
            want == groups.map_values(
                |t: Seq<char>| (t, spec_type_label(t), key_lines(cs@, key, t)),
            ),
            tls_view(entries@) == want.take(k as int),
        decreases types@.len() - k,
    {
        let n = lines_for_key(cs, &keys, &types[k], Ghost(key));
        let label = type_label(types[k].as_str()).to_owned();
        assert(groups[k as int] == types@[k as int]@);
        let e = TypeBreakdown { commit_type: types[k].clone(), label, lines: n };
        let ghost old_e = entries@;
        entries.push(e);
        assert(tls_view(entries@) =~= want.take(k + 1)) by {
            assert(tls_view(old_e).len() == old_e.len());
            assert(want.len() == types@.len());
            assert forall|j: int| 0 <= j < k + 1 implies #[trigger] tls_view(entries@)[j] == want.take(
                k + 1,
            )[j] by {
                if j < k {
                    assert(entries@[j] == old_e[j]);
                    assert(tls_view(old_e)[j] == want.take(k as int)[j]);
                }
            }
        }
        k = k + 1;
    }
    assert(want.take(want.len() as int) == want);
    let r = sort_by_lines(&entries);
    assert(want == types_seen(cs@).map_values(
        |t: Seq<char>| (t, spec_type_label(t), key_lines(cs@, |c: CommitEntry| c.commit_type@, t)),
    ));
    r
}

/// `r` is what the report shows of the named project, given its
/// description and link, among the commits `cs` and the proposals `ps`.
pub open spec fn summarizes(
    r: ProjectData,
    name: Seq<char>,
    description: Seq<char>,
    url: Option<Seq<char>>,
    cs: Seq<CommitEntry>,
    ps: Seq<ProposalEntry>,
) -> bool {
    let own = commits_of(cs, name);
    &&& r.name@ == name
    &&& r.description@ == description
    &&& match r.url {
        Some(a) => url == Some(a@),
        None => url is None,
    }
    &&& r.commit_count == own.len()
    &&& r.proposal_count == proposals_of(ps, name).len()
    &&& r.lines_added == crate::model::total_insertions(own)
    &&& r.lines_removed == crate::model::total_deletions(own)
    &&& r.total_lines == total_lines(own)
    &&& tls_view(r.top_types@) == first_n(spec_type_lines(own), 5)
}

/// The top types of a project summary are the project's per-type entries
/// with the most lines, most first: each is one of those entries, there are
/// five of them or every entry where there are fewer, and every entry left
/// out has no more lines than each one kept.
pub proof fn lemma_top_types_have_most_lines(
    r: ProjectData,
    name: Seq<char>,
    description: Seq<char>,
    url: Option<Seq<char>>,
    cs: Seq<CommitEntry>,
    ps: Seq<ProposalEntry>,
)
    requires
        summarizes(r, name, description, url, cs, ps),
    ensures
        ({
            let all = spec_type_lines(commits_of(cs, name));
            let top = tls_view(r.top_types@);
            &&& top.len() == if all.len() < 5 {
                all.len() as int
            } else {
                5
            }
            &&& forall|i: int| 0 <= i < top.len() ==> all.contains(#[trigger] top[i])
            &&& forall|i: int, j: int| 0 <= i < j < top.len() ==> (#[trigger] top[i]).2 >= (
            #[trigger] top[j]).2
            &&& forall|e: (Seq<char>, Seq<char>, int), i: int|
                #[trigger] all.contains(e) && !top.contains(e) && 0 <= i < top.len() ==> e.2 <= (
                #[trigger] top[i]).2
        }),
{
    let own = commits_of(cs, name);
    let g = types_seen(own).map_values(
        |t: Seq<char>| (t, spec_type_label(t), key_lines(own, |c: CommitEntry| c.commit_type@, t)),
    );
    let all = spec_type_lines(own);
    lemma_by_lines_strict();
    lemma_stable_sort(g, by_lines());
    assert(sorted(all, by_lines()));
    let top = tls_view(r.top_types@);
    assert(top == first_n(all, 5));
    assert forall|i: int| 0 <= i < top.len() implies all.contains(#[trigger] top[i]) by {
        assert(top[i] == all[i]);
    }
    assert forall|i: int, j: int| 0 <= i < j < top.len() implies (#[trigger] top[i]).2 >= (
    #[trigger] top[j]).2 by {
        assert(top[i] == all[i] && top[j] == all[j]);
        assert(!by_lines()(all[j], all[i]));
    }
    assert forall|e: (Seq<char>, Seq<char>, int), i: int|
        #[trigger] all.contains(e) && !top.contains(e) && 0 <= i < top.len() implies e.2 <= (
        #[trigger] top[i]).2 by {
        let k = choose|k: int| 0 <= k < all.len() && all[k] == e;
        if k < top.len() {
            assert(top[k] == all[k]);
        }
        assert(top[i] == all[i]);
        assert(i < k);
        assert(!by_lines()(all[k], all[i]));
    }
}

/// What the report shows of one project: its commits and proposals counted,
/// the lines its commits inserted, deleted and changed, and its five commit
/// types with the most lines, most first.
pub fn build_project_data(
    project_name: &str,
    description: &str,
    url: Option<&str>,
    commits: &[CommitEntry],
    proposals: &[ProposalEntry],
) -> (r: ProjectData)
    requires
        total_lines(commits_of(commits@, project_name@)) <= usize::MAX,
    ensures
        summarizes(r, project_name@, description@, opt_view(url), commits@, proposals@),
{
    let pc = project_commits(commits, project_name);
    let proposal_count = count_project_proposals(proposals, project_name);
    let (lines_added, lines_removed) = crate::model::sum_insertions_deletions(pc.as_slice());
    let total = crate::model::sum_lines(pc.as_slice());
    let mut top = type_lines(pc.as_slice());
    let ghost full = tls_view(top@);
    top.truncate(5);
    assert(tls_view(top@) =~= first_n(full, 5));
    ProjectData {
        name: project_name.to_owned(),
        description: description.to_owned(),
        url: match url {
            Some(u) => Some(u.to_owned()),
            None => None,
        },
        commit_count: pc.len(),
        proposal_count,
        lines_added,
        lines_removed,
        total_lines: total,
        top_types: top,
    }
}

} // verus!
