//! What the points of a reconstruction seed.

use super::points::SfMPoint;
use super::seeds::{
    averages_to, center_of, matches_at, measured, others, ranks, scales_to, seed_of, seeded,
    seeds_to, smallest, sorted_by_x, suggests, window_end, window_start, x_ranks, LEAST_SCALE,
};
use crate::math::{larger, lemma_gaussian_view, Gaussian3D};
use crate::num::order::{before, lemma_placed_once, orders};
use crate::num::single::{lemma_double_rank_is_order, Double, Single, ONE, ZERO};
use vstd::prelude::*;

verus! {

/// Every point seeds one Gaussian, which stands where the point does, along each axis.
pub proof fn seeds_stand_at_their_points<L: Fn(Single) -> Single, C: Fn(u8) -> Single>(
    log_of: L,
    dc: C,
    opacity: Single,
    points: Seq<SfMPoint>,
    scales: Seq<Single>,
    gs: Seq<Gaussian3D<Single>>,
)
    requires
        seeded(log_of, dc, opacity, points, scales, gs),
    ensures
        gs.len() == points.len(),
        forall|i: int, axis: int|
            #![trigger gs[i].position[axis]]
            0 <= i < gs.len() && 0 <= axis < 3 ==> gs[i].position[axis]
                == points[i].xyz[axis].narrowed(),
{
    assert forall|i: int, axis: int|
        #![trigger gs[i].position[axis]]
        0 <= i < gs.len() && 0 <= axis < 3 implies gs[i].position[axis]
        == points[i].xyz[axis].narrowed() by {
        assert(seeds_to(log_of, dc, opacity, points[i], scales[i], gs[i]@));
        lemma_gaussian_view(gs[i]);
        assert(gs[i]@[axis] == gs[i].position[axis]);
        assert(gs[i]@[axis] == center_of(points[i])[axis]);
    }
}

/// A seed is round and not turned, has the colour of its point in every direction and the given
/// opacity.  Its scale is that of the point, or a least one.
pub proof fn seeds_look_like_their_points<L: Fn(Single) -> Single, C: Fn(u8) -> Single>(
    log_of: L,
    dc: C,
    opacity: Single,
    points: Seq<SfMPoint>,
    scales: Seq<Single>,
    gs: Seq<Gaussian3D<Single>>,
    i: int,
)
    requires
        seeded(log_of, dc, opacity, points, scales, gs),
        0 <= i < gs.len(),
    ensures
        gs[i].opacity_logit == opacity,
        gs[i].rotation[0] == (Single { bits: ONE }),
        forall|j: int| 1 <= j < 4 ==> #[trigger] gs[i].rotation[j] == (Single { bits: ZERO }),
        gs[i].log_scale[1] == gs[i].log_scale[0],
        gs[i].log_scale[2] == gs[i].log_scale[0],
        !scales[i].nan() && scales[i].value() >= (Single { bits: LEAST_SCALE }).value()
            ==> call_ensures(log_of, (scales[i],), gs[i].log_scale[0]),
        scales[i].nan() || scales[i].value() < (Single { bits: LEAST_SCALE }).value()
            ==> call_ensures(log_of, (Single { bits: LEAST_SCALE },), gs[i].log_scale[0]),
        forall|ch: int|
            0 <= ch < 3 ==> call_ensures(
                dc,
                (points[i].rgb[ch],),
                #[trigger] gs[i].sh_coeffs[16 * ch],
            ),
        forall|ch: int, k: int|
            0 <= ch < 3 && 1 <= k < 16 ==> #[trigger] gs[i].sh_coeffs[16 * ch + k] == (Single {
                bits: ZERO,
            }),
{
    let g = gs[i];
    let p = points[i];
    assert(seeds_to(log_of, dc, opacity, p, scales[i], g@));
    lemma_gaussian_view(g);
    let (s, red, green, blue) = choose|s: Single, red: Single, green: Single, blue: Single|
        #![trigger
            call_ensures(log_of, (larger(scales[i], Single { bits: LEAST_SCALE }),), s),
            call_ensures(dc, (p.rgb[0],), red),
            call_ensures(dc, (p.rgb[1],), green),
            call_ensures(dc, (p.rgb[2],), blue)]
        {
            &&& call_ensures(log_of, (larger(scales[i], Single { bits: LEAST_SCALE }),), s)
            &&& call_ensures(dc, (p.rgb[0],), red)
            &&& call_ensures(dc, (p.rgb[1],), green)
            &&& call_ensures(dc, (p.rgb[2],), blue)
            &&& g@ == seed_of(center_of(p), s, opacity, red, green, blue)
        };
    let least = Single { bits: LEAST_SCALE };
    assert(!least.nan());
    assert(g.log_scale[0] == s && g.log_scale[1] == s && g.log_scale[2] == s) by {
        assert(g@[7] == g.log_scale[0] && g@[8] == g.log_scale[1] && g@[9] == g.log_scale[2]);
    }
    assert(g@[3] == g.rotation[0]);
    assert forall|j: int| 1 <= j < 4 implies #[trigger] g.rotation[j] == (Single {
        bits: ZERO,
    }) by {
        assert(g@[3 + j] == g.rotation[j]);
    }
    assert forall|ch: int| 0 <= ch < 3 implies call_ensures(
        dc,
        (p.rgb[ch],),
        #[trigger] g.sh_coeffs[16 * ch],
    ) by {
        assert(g@[11 + 16 * ch] == g.sh_coeffs[16 * ch]);
        assert(ch == 0 || ch == 1 || ch == 2);
    }
    assert forall|ch: int, k: int| 0 <= ch < 3 && 1 <= k < 16 implies #[trigger] g.sh_coeffs[16 * ch
        + k] == (Single { bits: ZERO }) by {
        assert(g@[11 + (16 * ch + k)] == g.sh_coeffs[16 * ch + k]);
        assert(ch == 0 || ch == 1 || ch == 2);
    }
}

// ── scales ──────────────────────────────────────────────────────────────────────────────

/// Place `q` is searched for the neighbours of a point that stands at place `m`: all of up to
/// fifty places, and else the 25 before, its own and the 24 after it; near the first place, the
/// first fifty.
pub open spec fn searched(m: int, n: int, q: int) -> bool {
    &&& 0 <= q < n
    &&& n <= 50 || (m < 25 && q < 50) || m - 25 <= q < m + 25
}

proof fn lemma_others(sorted: Seq<usize>, lo: int, hi: int, i: int)
    requires
        0 <= lo <= hi <= sorted.len(),
        sorted.no_duplicates(),
    ensures
        others(sorted, lo, hi, i).no_duplicates(),
        forall|x: usize| #[trigger]
            others(sorted, lo, hi, i).contains(x) <==> x != i && exists|q: int|
                lo <= q < hi && #[trigger] sorted[q] == x,
    decreases hi - lo,
{
    let o = others(sorted, lo, hi, i);
    if lo < hi {
        let fewer = others(sorted, lo, hi - 1, i);
        lemma_others(sorted, lo, hi - 1, i);
        assert forall|x: usize| #[trigger] o.contains(x) <==> x != i && exists|q: int|
            lo <= q < hi && #[trigger] sorted[q] == x by {
            if o.contains(x) {
                let a = choose|a: int| 0 <= a < o.len() && o[a] == x;
                if a < fewer.len() {
                    assert(fewer.contains(x)) by {
                        assert(fewer[a] == x);
                    }
                } else {
                    assert(sorted[hi - 1] == x);
                }
            }
            if x != i && exists|q: int| lo <= q < hi && #[trigger] sorted[q] == x {
                let q = choose|q: int| lo <= q < hi && #[trigger] sorted[q] == x;
                if q == hi - 1 {
                    assert(o[fewer.len() as int] == x);
                } else {
                    assert(fewer.contains(x));
                    let a = choose|a: int| 0 <= a < fewer.len() && fewer[a] == x;
                    assert(o[a] == x);
                }
            }
        }
        if sorted[hi - 1] != i && fewer.contains(sorted[hi - 1]) {
            let q = choose|q: int| lo <= q < hi - 1 && #[trigger] sorted[q] == sorted[hi - 1];
            assert(false);
        }
        assert forall|a: int, b: int| 0 <= a < o.len() && 0 <= b < o.len() && a != b implies o[a]
            != o[b] by {
            if a < fewer.len() && b == fewer.len() {
                assert(fewer.contains(fewer[a]));
            }
            if b < fewer.len() && a == fewer.len() {
                assert(fewer.contains(fewer[b]));
            }
        }
    }
}

/// The scale of a point is the mean of its distances to the three nearest of the points that
/// are searched, or to all of fewer: none of the others that are searched is nearer.
pub proof fn scale_is_the_mean_to_the_nearest<
    F: Fn([Double; 3], [Double; 3]) -> Double,
    M: Fn(&Vec<Double>) -> Single,
>(
    distance: F,
    mean: M,
    dist: spec_fn([Double; 3], [Double; 3]) -> Double,
    points: Seq<SfMPoint>,
    sorted: Seq<usize>,
    i: int,
    scale: Single,
) -> (r: (int, Seq<int>, Seq<Double>))
    requires
        forall|a: [Double; 3], b: [Double; 3], d: Double| #[trigger]
            call_ensures(distance, (a, b), d) ==> d == dist(a, b),
        sorted_by_x(points, sorted),
        2 <= points.len() <= usize::MAX,
        0 <= i < points.len(),
        scales_to(distance, mean, points, sorted, i, Some(scale)),
    ensures
        ({
            let (m, near, least) = r;
            let n = points.len() as int;
            &&& 0 <= m < n
            &&& points[sorted[m] as int].xyz[0].value() == points[i].xyz[0].value()
            &&& averages_to(mean, least, scale)
            &&& near.len() == least.len()
            &&& near.no_duplicates()
            &&& near.len() == if n - 1 < 3 {
                n - 1
            } else {
                3
            }
            &&& forall|a: int|
                0 <= a < near.len() ==> {
                    &&& 0 <= #[trigger] near[a] < n
                    &&& near[a] != i
                    &&& least[a] == dist(points[near[a]].xyz, points[i].xyz)
                }
            &&& forall|q: int|
                searched(m, n, q) && sorted[q] != i && !near.contains(sorted[q] as int)
                    ==> least.last().value() <= dist(
                    points[#[trigger] sorted[q] as int].xyz,
                    points[i].xyz,
                ).value()
        }),
{
    let n = points.len() as int;
    lemma_placed_once(x_ranks(points), sorted);
    let (m, dists) = choose|m: int, dists: Seq<Double>|
        {
            &&& #[trigger] matches_at(points, sorted, i, m)
            &&& #[trigger] measured(
                distance,
                points,
                others(
                    sorted,
                    window_start(m, points.len() as int),
                    window_end(m, points.len() as int),
                    i,
                ),
                i,
                dists,
            )
            &&& suggests(mean, dists, Some(scale))
        };
    lemma_double_rank_is_order(points[sorted[m] as int].xyz[0], points[i].xyz[0]);
    let (lo, hi) = (window_start(m, n), window_end(m, n));
    let o = others(sorted, lo, hi, i);
    lemma_others(sorted, lo, hi, i);
    lemma_enough(sorted, lo, hi, i);
    assert(dists.len() == o.len());
    assert(x_ranks(points).len() == n);
    assert(sorted.contains(i as usize));
    let home = choose|q: int| 0 <= q < sorted.len() && sorted[q] == i as usize;
    if n <= 50 {
        assert(lo <= home < hi && sorted[home] == i);
        assert(o.len() == n - 1);
    } else {
        assert(o.len() >= 3);
    }
    let k: int = if dists.len() < 3 {
        dists.len() as int
    } else {
        3
    };
    let least = choose|least: Seq<Double>| #[trigger]
        smallest(dists, k, least) && averages_to(mean, least, scale);
    let r = choose|r: Seq<usize>| #[trigger]
        orders(ranks(dists), r) && least == Seq::new(k as nat, |j: int| dists[r[j] as int]);
    lemma_placed_once(ranks(dists), r);
    let near = Seq::new(k as nat, |a: int| o[r[a] as int] as int);
    assert forall|a: int| 0 <= a < near.len() implies 0 <= #[trigger] near[a] < n && near[a] != i
        && least[a] == dist(points[near[a]].xyz, points[i].xyz) by {
        let b = r[a] as int;
        assert(o.contains(o[b]));
        assert(x_ranks(points).len() == n);
        let q = choose|q: int| lo <= q < hi && #[trigger] sorted[q] == o[b];
        assert(sorted[q] < n);
        assert(call_ensures(distance, (points[o[b] as int].xyz, points[i].xyz), dists[b]));
    }
    assert forall|q: int|
        searched(m, n, q) && sorted[q] != i && !near.contains(sorted[q] as int) implies least.last().value()
        <= dist(points[#[trigger] sorted[q] as int].xyz, points[i].xyz).value() by {
        assert(lo <= q < hi);
        assert(o.contains(sorted[q]));
        let b = choose|b: int| 0 <= b < o.len() && o[b] == sorted[q];
        assert(r.contains(b as usize));
        let c = choose|c: int| 0 <= c < r.len() && r[c] == b;
        if c < k {
            assert(near[c] == sorted[q]);
        }
        assert(before(ranks(dists), r[k - 1] as int, r[c] as int));
        lemma_double_rank_is_order(dists[r[k - 1] as int], dists[b]);
        assert(call_ensures(distance, (points[o[b] as int].xyz, points[i].xyz), dists[b]));
    }
    assert forall|a: int, b: int| 0 <= a < near.len() && 0 <= b < near.len() && a != b implies near[a]
        != near[b] by {
        assert(r[a] != r[b]);
        assert(o[r[a] as int] != o[r[b] as int]);
    }
    assert(near.no_duplicates());
    (m, near, least)
}

/// A window leaves out at most the point itself, and holds at least three others where there
/// are as many.
proof fn lemma_enough(sorted: Seq<usize>, lo: int, hi: int, i: int)
    requires
        0 <= lo <= hi <= sorted.len(),
        sorted.no_duplicates(),
    ensures
        hi - lo - 1 <= others(sorted, lo, hi, i).len() <= hi - lo,
        (exists|q: int| lo <= q < hi && #[trigger] sorted[q] == i) ==> others(
            sorted,
            lo,
            hi,
            i,
        ).len() == hi - lo - 1,
        !(exists|q: int| lo <= q < hi && #[trigger] sorted[q] == i) ==> others(
            sorted,
            lo,
            hi,
            i,
        ).len() == hi - lo,
    decreases hi - lo,
{
    if lo < hi {
        lemma_enough(sorted, lo, hi - 1, i);
        if sorted[hi - 1] == i {
            assert(!(exists|q: int| lo <= q < hi - 1 && #[trigger] sorted[q] == i));
        } else if exists|q: int| lo <= q < hi && #[trigger] sorted[q] == i {
            let q = choose|q: int| lo <= q < hi && #[trigger] sorted[q] == i;
            assert(lo <= q < hi - 1);
        }
    }
}

} // verus!
