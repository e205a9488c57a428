//! The order in which projected splats are composited.

use super::layout::SplatInfo2D;
use crate::cpu::splat::ALPHA_THRESHOLD;
use crate::num::order::{before, ints, lemma_placed_once, orders, stable_order};
use crate::num::single::{lemma_rank_is_order, Single, ZERO};
use vstd::prelude::*;

verus! {

/// Whether a splat is composited: not too faint, and in front of the camera.
pub open spec fn is_visible(s: SplatInfo2D) -> bool {
    &&& (Single { bits: ALPHA_THRESHOLD }).at_most(s.alpha)
    &&& (Single { bits: ZERO }).below(s.depth)
}

/// Which of the first `n` splats are composited.
pub open spec fn visible_among(splats: Seq<SplatInfo2D>, n: nat) -> Seq<usize>
    decreases n,
{
    if n == 0 {
        Seq::empty()
    } else {
        let fewer = visible_among(splats, (n - 1) as nat);
        if is_visible(splats[n - 1]) {
            fewer.push((n - 1) as usize)
        } else {
            fewer
        }
    }
}

pub open spec fn depths_of(splats: Seq<SplatInfo2D>, which: Seq<usize>) -> Seq<int> {
    Seq::new(which.len(), |k: int| splats[which[k] as int].depth.rank())
}

/// `r` holds the visible splats, the nearest first; equal depths keep their order.
pub open spec fn depth_ordered(splats: Seq<SplatInfo2D>, r: Seq<usize>) -> bool {
    let seen = visible_among(splats, splats.len());
    exists|q: Seq<usize>| #[trigger]
        orders(depths_of(splats, seen), q) && r == Seq::new(q.len(), |k: int| seen[q[k] as int])
}

proof fn lemma_visible_among(splats: Seq<SplatInfo2D>, n: nat)
    requires
        n <= splats.len() <= usize::MAX,
    ensures
        visible_among(splats, n).len() <= n,
        forall|k: int|
            0 <= k < visible_among(splats, n).len() ==> #[trigger] visible_among(splats, n)[k] < n
                && is_visible(splats[visible_among(splats, n)[k] as int]),
    decreases n,
{
    if n > 0 {
        lemma_visible_among(splats, (n - 1) as nat);
    }
}

/// Every index in the order is that of a visible splat.
pub proof fn ordered_are_visible(splats: Seq<SplatInfo2D>, r: Seq<usize>, k: int)
    requires
        depth_ordered(splats, r),
        splats.len() <= usize::MAX,
        0 <= k < r.len(),
    ensures
        r[k] < splats.len(),
        is_visible(splats[r[k] as int]),
{
    let seen = visible_among(splats, splats.len());
    let q = choose|q: Seq<usize>| #[trigger]
        orders(depths_of(splats, seen), q) && r == Seq::new(q.len(), |k: int| seen[q[k] as int]);
    lemma_visible_among(splats, splats.len());
    assert(q.contains(q[k]));
}

/// The order is nearest first.
pub proof fn order_is_nearest_first(splats: Seq<SplatInfo2D>, r: Seq<usize>, a: int, b: int)
    requires
        depth_ordered(splats, r),
        splats.len() <= usize::MAX,
        0 <= a < b < r.len(),
    ensures
        splats[r[a] as int].depth.value() <= splats[r[b] as int].depth.value(),
{
    let seen = visible_among(splats, splats.len());
    let q = choose|q: Seq<usize>| #[trigger]
        orders(depths_of(splats, seen), q) && r == Seq::new(q.len(), |k: int| seen[q[k] as int]);
    lemma_visible_among(splats, splats.len());
    assert(q.contains(q[a]) && q.contains(q[b]));
    assert(before(depths_of(splats, seen), q[a] as int, q[b] as int));
    ordered_are_visible(splats, r, a);
    ordered_are_visible(splats, r, b);
    lemma_rank_is_order(splats[r[a] as int].depth, splats[r[b] as int].depth);
}

proof fn lemma_visible_once(splats: Seq<SplatInfo2D>, n: nat)
    requires
        n <= splats.len() <= usize::MAX,
    ensures
        visible_among(splats, n).no_duplicates(),
        forall|i: usize| #[trigger]
            visible_among(splats, n).contains(i) <==> i < n && is_visible(splats[i as int]),
    decreases n,
{
    if n > 0 {
        let m = (n - 1) as nat;
        let fewer = visible_among(splats, m);
        lemma_visible_once(splats, m);
        lemma_visible_among(splats, m);
        let seen = visible_among(splats, n);
        assert forall|i: usize| #[trigger] seen.contains(i) <==> i < n && is_visible(
            splats[i as int],
        ) by {
            if is_visible(splats[m as int]) {
                assert(seen == fewer.push(m as usize));
                assert(seen[fewer.len() as int] == m);
                if seen.contains(i) {
                    let k = choose|k: int| 0 <= k < seen.len() && seen[k] == i;
                    if k < fewer.len() {
                        assert(fewer[k] == i);
                        assert(fewer.contains(i));
                    }
                }
                if fewer.contains(i) {
                    let k = choose|k: int| 0 <= k < fewer.len() && fewer[k] == i;
                    assert(seen[k] == i);
                }
            }
        }
    }
}

/// Every visible splat is in the order, and each index is there once.
pub proof fn order_loses_nothing(splats: Seq<SplatInfo2D>, r: Seq<usize>)
    requires
        depth_ordered(splats, r),
        splats.len() <= usize::MAX,
    ensures
        r.no_duplicates(),
        forall|i: usize| #[trigger]
            r.contains(i) <==> i < splats.len() && is_visible(splats[i as int]),
{
    let seen = visible_among(splats, splats.len());
    let q = choose|q: Seq<usize>| #[trigger]
        orders(depths_of(splats, seen), q) && r == Seq::new(q.len(), |k: int| seen[q[k] as int]);
    lemma_visible_once(splats, splats.len());
    lemma_visible_among(splats, splats.len());
    lemma_placed_once(depths_of(splats, seen), q);
    assert forall|a: int, b: int| 0 <= a < r.len() && 0 <= b < r.len() && a != b implies r[a]
        != r[b] by {
        assert(q[a] != q[b]);
        assert(seen[q[a] as int] != seen[q[b] as int]);
    }
    assert forall|i: usize| #[trigger] r.contains(i) <==> i < splats.len() && is_visible(
        splats[i as int],
    ) by {
        assert(seen.contains(i) <==> i < splats.len() && is_visible(splats[i as int]));
        if r.contains(i) {
            let k = choose|k: int| 0 <= k < r.len() && r[k] == i;
            assert(seen[q[k] as int] == i);
        }
        if seen.contains(i) {
            let m = choose|m: int| 0 <= m < seen.len() && seen[m] == i;
            assert(q.contains(m as usize));
            let k = choose|k: int| 0 <= k < q.len() && q[k] == m;
            assert(r[k] == i);
        }
    }
}

/// The visible splats, the nearest first.
pub fn depth_order(splats: &[SplatInfo2D]) -> (r: Vec<usize>)
    ensures
        depth_ordered(splats@, r@),
{
    let mut seen: Vec<usize> = Vec::new();
    let mut keys: Vec<i64> = Vec::new();
    for i in 0..splats.len()
        invariant
            seen@ == visible_among(splats@, i as nat),
            keys.len() == seen.len(),
            forall|k: int|
                0 <= k < keys.len() ==> #[trigger] keys[k] == splats[seen[k] as int].depth.rank(),
    {
        let s = splats[i];
        if (Single { bits: ALPHA_THRESHOLD }).le(s.alpha) && (Single { bits: ZERO }).lt(s.depth) {
            seen.push(i);
            keys.push(s.depth.signed());
        }
    }
    let order = stable_order(&keys);
    assert(ints(keys@) =~= depths_of(splats@, seen@));
    let mut r: Vec<usize> = Vec::new();
    for k in 0..order.len()
        invariant
            orders(depths_of(splats@, seen@), order@),
            r@ == Seq::new(k as nat, |j: int| seen[order[j] as int]),
    {
        assert(order@.contains(order@[k as int]));
        r.push(seen[order[k]]);
        assert(r@ =~= Seq::new((k + 1) as nat, |j: int| seen[order[j] as int]));
    }
    r
}

} // verus!
