//! Stable sorting, stated once for every ranking.
//!
//! `ranks_above(x, y)` says that `x` belongs strictly before `y`.  The stable
//! sort of a sequence inserts each element, in order, just before the first
//! element it ranks above: so elements that rank alike keep their order.
use vstd::prelude::*;

verus! {

broadcast use {vstd::seq_lib::group_to_multiset_ensures, vstd::multiset::group_multiset_axioms};

/// The first index at or after `k` whose element `x` ranks above, or the
/// length of `r` when there is none.
pub open spec fn insert_pos<T>(r: Seq<T>, x: T, ranks_above: spec_fn(T, T) -> bool, k: int) -> int
    decreases r.len() - k,
{
    if k < 0 || k >= r.len() {
        r.len() as int
    } else if ranks_above(x, r[k]) {
        k
    } else {
        insert_pos(r, x, ranks_above, k + 1)
    }
}

/// The stable sort of `s` under `ranks_above`.
pub open spec fn stable_sort<T>(s: Seq<T>, ranks_above: spec_fn(T, T) -> bool) -> Seq<T>
    decreases s.len(),
{
    if s.len() == 0 {
        s
    } else {
        let r = stable_sort(s.drop_last(), ranks_above);
        r.insert(insert_pos(r, s.last(), ranks_above, 0), s.last())
    }
}

/// No element ranks above one that comes before it.
pub open spec fn sorted<T>(r: Seq<T>, ranks_above: spec_fn(T, T) -> bool) -> bool {
    forall|i: int, j: int| 0 <= i < j < r.len() ==> !ranks_above(#[trigger] r[j], #[trigger] r[i])
}

/// `ranks_above` is a strict order: transitive and asymmetric.
pub open spec fn strict_order<T>(ranks_above: spec_fn(T, T) -> bool) -> bool {
    &&& forall|a: T, b: T, c: T| #[trigger] ranks_above(a, b) && #[trigger] ranks_above(b, c)
        ==> ranks_above(a, c)
    &&& forall|a: T, b: T| #[trigger] ranks_above(a, b) ==> !ranks_above(b, a)
}

pub proof fn lemma_insert_pos<T>(r: Seq<T>, x: T, ranks_above: spec_fn(T, T) -> bool, k: int)
    requires
        0 <= k <= r.len(),
    ensures
        k <= insert_pos(r, x, ranks_above, k) <= r.len(),
        forall|i: int| k <= i < insert_pos(r, x, ranks_above, k) ==> !ranks_above(x, #[trigger] r[i]),
        insert_pos(r, x, ranks_above, k) < r.len() ==> ranks_above(
            x,
            r[insert_pos(r, x, ranks_above, k)],
        ),
    decreases r.len() - k,
{
    if k < r.len() && !ranks_above(x, r[k]) {
        lemma_insert_pos(r, x, ranks_above, k + 1);
    }
}

/// The stable sort holds the same elements, as often, in an order that
/// `sorted` accepts.
pub proof fn lemma_stable_sort<T>(s: Seq<T>, ranks_above: spec_fn(T, T) -> bool)
    requires
        strict_order(ranks_above),
    ensures
        stable_sort(s, ranks_above).to_multiset() == s.to_multiset(),
        stable_sort(s, ranks_above).len() == s.len(),
        sorted(stable_sort(s, ranks_above), ranks_above),
    decreases s.len(),
{
    if s.len() > 0 {
        let r = stable_sort(s.drop_last(), ranks_above);
        let x = s.last();
        lemma_stable_sort(s.drop_last(), ranks_above);
        lemma_insert_pos(r, x, ranks_above, 0);
        let k = insert_pos(r, x, ranks_above, 0);
        let t = r.insert(k, x);
        vstd::seq_lib::to_multiset_insert(r, k, x);
        assert(s == s.drop_last().push(x));
        assert(s.to_multiset() == s.drop_last().to_multiset().insert(x));
        assert forall|i: int, j: int| 0 <= i < j < t.len() implies !ranks_above(
            #[trigger] t[j],
            #[trigger] t[i],
        ) by {
            if j < k {
                assert(t[i] == r[i] && t[j] == r[j]);
            } else if j == k {
                assert(t[i] == r[i] && t[j] == x);
                if ranks_above(x, r[i]) {
                    assert(false);
                }
            } else if i < k {
                assert(t[i] == r[i] && t[j] == r[j - 1]);
            } else if i == k {
                assert(t[i] == x && t[j] == r[j - 1]);
                assert(ranks_above(x, r[k]));
                if ranks_above(r[j - 1], x) {
                    assert(ranks_above(r[j - 1], r[k]));
                    if j - 1 > k {
                        assert(!ranks_above(r[j - 1], r[k]));
                    }
                }
            } else {
                assert(t[i] == r[i - 1] && t[j] == r[j - 1]);
            }
        }
    }
}

} // verus!
