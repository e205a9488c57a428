//! The Gaussians that a sparse point cloud seeds.
//!
//! The kernels: `distance` between two points, `mean` of a few distances, `log_of` a scale,
//! and `dc`, the degree-0 coefficient of a colour byte.

use super::points::SfMPoint;
use crate::math::{fresh, larger, max_of, Gaussian3D};
use crate::num::order::{before, ints, orders, stable_order};
use crate::num::single::{lemma_double_rank_is_order, Double, Single};
use vstd::prelude::*;

verus! {

/// The pattern of `0.01`: the scale of a point without neighbours.
pub const LONE_SCALE: u32 = 0x3C23_D70A;

/// The pattern of `1e-4`: no point seeds a Gaussian with a smaller scale.
pub const LEAST_SCALE: u32 = 0x38D1_B717;

/// How many points are looked at around each point.
pub const WINDOW: usize = 50;

/// How many neighbours count.
pub const NEIGHBOURS: usize = 3;

pub open spec fn x_ranks(points: Seq<SfMPoint>) -> Seq<int> {
    points.map_values(|p: SfMPoint| p.xyz[0].rank())
}

/// `sorted` holds the positions of the points, by their first coordinate.
pub open spec fn sorted_by_x(points: Seq<SfMPoint>, sorted: Seq<usize>) -> bool {
    orders(x_ranks(points), sorted)
}

pub open spec fn window_of(n: int) -> int {
    if n < WINDOW {
        n
    } else {
        WINDOW as int
    }
}

/// Where the window around place `m` begins, among `n` points: half a window before it, or at
/// the first place.  Few points all fall into one window.
pub open spec fn window_start(m: int, n: int) -> int {
    if n <= WINDOW || m < WINDOW / 2 {
        0
    } else {
        m - WINDOW / 2
    }
}

/// Where the window around place `m` ends, among `n` points.
pub open spec fn window_end(m: int, n: int) -> int {
    if window_start(m, n) + window_of(n) <= n {
        window_start(m, n) + window_of(n)
    } else {
        n
    }
}

/// The window around a place holds that place.  Among few points it holds them all, and among
/// many at least half a window of others, so that every point finds its nearest neighbours.
pub proof fn window_holds_neighbours(m: int, n: int)
    requires
        0 <= m < n,
    ensures
        0 <= window_start(m, n) <= m < window_end(m, n) <= n,
        n <= WINDOW ==> window_start(m, n) == 0 && window_end(m, n) == n,
        n > WINDOW ==> window_end(m, n) - window_start(m, n) > WINDOW / 2,
{
}

/// The places `lo..hi` of `sorted`, without the point `i` itself.
pub open spec fn others(sorted: Seq<usize>, lo: int, hi: int, i: int) -> Seq<usize>
    decreases hi - lo,
{
    if hi <= lo {
        Seq::empty()
    } else {
        let fewer = others(sorted, lo, hi - 1, i);
        if sorted[hi - 1] != i {
            fewer.push(sorted[hi - 1])
        } else {
            fewer
        }
    }
}

/// `dists` can be the distances of the points `near` to the point `i`.
pub open spec fn measured<F: Fn([Double; 3], [Double; 3]) -> Double>(
    distance: F,
    points: Seq<SfMPoint>,
    near: Seq<usize>,
    i: int,
    dists: Seq<Double>,
) -> bool {
    &&& dists.len() == near.len()
    &&& forall|k: int|
        0 <= k < near.len() ==> call_ensures(
            distance,
            (points[near[k] as int].xyz, points[i].xyz),
            #[trigger] dists[k],
        )
}

pub open spec fn ranks(v: Seq<Double>) -> Seq<int> {
    v.map_values(|d: Double| d.rank())
}

/// `least` holds the `k` smallest of `dists`, in ascending order.
pub open spec fn smallest(dists: Seq<Double>, k: int, least: Seq<Double>) -> bool {
    exists|r: Seq<usize>| #[trigger]
        orders(ranks(dists), r) && least == Seq::new(k as nat, |j: int| dists[r[j] as int])
}

/// There are distances to compare, and one of them is not a number.
pub open spec fn incomparable(dists: Seq<Double>) -> bool {
    dists.len() >= 2 && exists|k: int| 0 <= k < dists.len() && (#[trigger] dists[k]).nan()
}

/// `mean` gives `r` for the values `v`.
pub open spec fn averages_to<M: Fn(&Vec<Double>) -> Single>(
    mean: M,
    v: Seq<Double>,
    r: Single,
) -> bool {
    exists|w: &Vec<Double>| w@ == v && #[trigger] call_ensures(mean, (w,), r)
}

/// `scale` can be the scale that the distances `dists` suggest: the mean of the three
/// smallest; without any, a constant; nothing, where they cannot be compared.
pub open spec fn suggests<M: Fn(&Vec<Double>) -> Single>(
    mean: M,
    dists: Seq<Double>,
    scale: Option<Single>,
) -> bool {
    if incomparable(dists) {
        scale is None
    } else if dists.len() == 0 {
        scale == Some(Single { bits: LONE_SCALE })
    } else {
        let k: int = if dists.len() < NEIGHBOURS {
            dists.len() as int
        } else {
            NEIGHBOURS as int
        };
        scale matches Some(s) && averages_smallest(mean, dists, k, s)
    }
}

/// `scale` can be the mean of the `k` smallest of `dists`.
pub open spec fn averages_smallest<M: Fn(&Vec<Double>) -> Single>(
    mean: M,
    dists: Seq<Double>,
    k: int,
    scale: Single,
) -> bool {
    exists|least: Seq<Double>| #[trigger]
        smallest(dists, k, least) && averages_to(mean, least, scale)
}

/// `scale` can be the scale of point `i`: that suggested by the window around a point with
/// the same first coordinate.
pub open spec fn scales_to<
    F: Fn([Double; 3], [Double; 3]) -> Double,
    M: Fn(&Vec<Double>) -> Single,
>(
    distance: F,
    mean: M,
    points: Seq<SfMPoint>,
    sorted: Seq<usize>,
    i: int,
    scale: Option<Single>,
) -> bool {
    exists|m: int, dists: Seq<Double>|
        {
            &&& #[trigger] matches_at(points, sorted, i, m)
            &&& #[trigger] measured(
                distance,
                points,
                others(
                    sorted,
                    window_start(m, points.len() as int),
                    window_end(m, points.len() as int),
                    i,
                ),
                i,
                dists,
            )
            &&& suggests(mean, dists, scale)
        }
}

/// The point at place `m` has the same first coordinate as point `i`.
pub open spec fn matches_at(points: Seq<SfMPoint>, sorted: Seq<usize>, i: int, m: int) -> bool {
    &&& 0 <= m < sorted.len()
    &&& x_ranks(points)[sorted[m] as int] == x_ranks(points)[i]
}

/// The order of the points by their first coordinate.
pub fn sort_by_x(points: &[SfMPoint]) -> (r: Vec<usize>)
    ensures
        sorted_by_x(points@, r@),
{
    let mut keys: Vec<i64> = Vec::new();
    for i in 0..points.len()
        invariant
            keys.len() == i,
            forall|j: int| 0 <= j < i ==> #[trigger] keys[j] == points[j].xyz[0].rank(),
    {
        keys.push(points[i].xyz[0].signed());
    }
    assert(ints(keys@) =~= x_ranks(points@));
    stable_order(&keys)
}

/// A place with the same first coordinate as point `i`, by bisection.
fn find_x(points: &[SfMPoint], sorted: &[usize], i: usize) -> (m: usize)
    requires
        i < points.len(),
        sorted_by_x(points@, sorted@),
    ensures
        matches_at(points@, sorted@, i as int, m as int),
{
    let ghost keys = x_ranks(points@);
    let key = points[i].xyz[0].signed();
    let mut lo: usize = 0;
    let mut hi: usize = sorted.len();
    proof {
        assert(sorted@.contains(i));
    }
    let ghost home = choose|h: int| 0 <= h < sorted.len() && sorted[h] == i;
    while lo < hi
        invariant
            i < points.len(),
            keys == x_ranks(points@),
            orders(keys, sorted@),
            key == keys[i as int],
            0 <= home < sorted.len(),
            sorted[home] == i,
            lo <= home < hi <= sorted.len(),
        decreases hi - lo,
    {
        let mid = lo + (hi - lo) / 2;
        proof {
            assert(sorted@.contains(sorted@[mid as int]));
        }
        let here = points[sorted[mid]].xyz[0].signed();
        assert(here == keys[sorted[mid as int] as int]);
        if here == key {
            return mid;
        }
        proof {
            if mid < home {
                assert(before(keys, sorted[mid as int] as int, sorted[home] as int));
            } else if home < mid {
                assert(before(keys, sorted[home] as int, sorted[mid as int] as int));
            }
        }
        if here < key {
            lo = mid + 1;
        } else {
            hi = mid;
        }
    }
    0
}

/// The scale that distances suggest.
pub fn scale_from<M: Fn(&Vec<Double>) -> Single>(mean: M, dists: &[Double]) -> (r: Option<Single>)
    requires
        forall|v: &Vec<Double>| call_requires(mean, (v,)),
    ensures
        suggests(mean, dists@, r),
{
    let mut keys: Vec<i64> = Vec::new();
    for k in 0..dists.len()
        invariant
            keys.len() == k,
            forall|j: int| 0 <= j < k ==> #[trigger] keys[j] == dists[j].rank(),
            dists.len() >= 2 ==> forall|j: int| 0 <= j < k ==> !(#[trigger] dists[j]).nan(),
    {
        if dists.len() >= 2 && dists[k].is_nan() {
            assert(incomparable(dists@));
            return None;
        }
        keys.push(dists[k].signed());
    }
    assert(!incomparable(dists@)) by {
        assert forall|j: int| 0 <= j < dists@.len() && dists@.len() >= 2 implies !(
        #[trigger] dists@[j]).nan() by {
            assert(!dists[j].nan());
        }
    }
    if dists.len() == 0 {
        return Some(Single { bits: LONE_SCALE });
    }
    let order = stable_order(&keys);
    assert(ints(keys@) =~= ranks(dists@));
    let k: usize = if dists.len() < NEIGHBOURS {
        dists.len()
    } else {
        NEIGHBOURS
    };
    let mut least: Vec<Double> = Vec::new();
    for j in 0..k
        invariant
            orders(ranks(dists@), order@),
            k <= order.len(),
            least@ == Seq::new(j as nat, |a: int| dists[order[a] as int]),
    {
        assert(order@.contains(order@[j as int]));
        least.push(dists[order[j]]);
        assert(least@ =~= Seq::new((j + 1) as nat, |a: int| dists[order[a] as int]));
    }
    assert(smallest(dists@, k as int, least@));
    let scale = mean(&least);
    assert(averages_to(mean, least@, scale));
    assert(averages_smallest(mean, dists@, k as int, scale));
    Some(scale)
}

/// The scale of point `i`; `sorted` is the order of the points by their first coordinate.
pub fn initial_scale<
    F: Fn([Double; 3], [Double; 3]) -> Double,
    M: Fn(&Vec<Double>) -> Single,
>(distance: F, mean: M, points: &[SfMPoint], sorted: &[usize], i: usize) -> (r: Option<Single>)
    requires
        forall|a: [Double; 3], b: [Double; 3]| call_requires(distance, (a, b)),
        forall|v: &Vec<Double>| call_requires(mean, (v,)),
        i < points.len(),
        sorted_by_x(points@, sorted@),
    ensures
        scales_to(distance, mean, points@, sorted@, i as int, r),
{
    let n = points.len();
    let m = find_x(points, sorted, i);
    let window: usize = if n < WINDOW {
        n
    } else {
        WINDOW
    };
    let start: usize = if n <= WINDOW || m < WINDOW / 2 {
        0
    } else {
        m - WINDOW / 2
    };
    let end: usize = if n - start >= window {
        start + window
    } else {
        n
    };
    assert(start == window_start(m as int, n as int));
    assert(end == window_end(m as int, n as int));
    let mut dists: Vec<Double> = Vec::new();
    for k in start..end
        invariant
            forall|a: [Double; 3], b: [Double; 3]| call_requires(distance, (a, b)),
            i < points.len(),
            sorted_by_x(points@, sorted@),
            start <= end <= sorted.len(),
            measured(
                distance,
                points@,
                others(sorted@, start as int, k as int, i as int),
                i as int,
                dists@,
            ),
    {
        let j = sorted[k];
        proof {
            assert(sorted@.contains(sorted@[k as int]));
        }
        if j != i {
            let ghost near = others(sorted@, start as int, k as int, i as int);
            let ghost olds = dists@;
            let d = distance(points[j].xyz, points[i].xyz);
            dists.push(d);
            proof {
                let after = others(sorted@, start as int, k + 1, i as int);
                assert(after == near.push(j));
                assert forall|a: int| 0 <= a < after.len() implies call_ensures(
                    distance,
                    (points@[after[a] as int].xyz, points@[i as int].xyz),
                    #[trigger] dists@[a],
                ) by {
                    if a < near.len() {
                        assert(after[a] == near[a]);
                        assert(dists@[a] == olds[a]);
                    }
                }
            }
        }
    }
    let r = scale_from(mean, &dists);
    assert(matches_at(points@, sorted@, i as int, m as int));
    r
}

/// Whether some point has no first coordinate that can be compared.
pub open spec fn lost(points: Seq<SfMPoint>) -> bool {
    exists|i: int| 0 <= i < points.len() && (#[trigger] points[i]).xyz[0].nan()
}

/// `scales` can be the scales of all points; nothing, where some coordinates or distances
/// cannot be compared.
pub open spec fn scales_of<
    F: Fn([Double; 3], [Double; 3]) -> Double,
    M: Fn(&Vec<Double>) -> Single,
>(
    distance: F,
    mean: M,
    points: Seq<SfMPoint>,
    scales: Option<Seq<Single>>,
) -> bool {
    match scales {
        Some(s) => {
            &&& !lost(points)
            &&& s.len() == points.len()
            &&& exists|sorted: Seq<usize>| #[trigger]
                sorted_by_x(points, sorted) && forall|i: int|
                    0 <= i < points.len() ==> scales_to(
                        distance,
                        mean,
                        points,
                        sorted,
                        i,
                        Some(#[trigger] s[i]),
                    )
        },
        None => {
            ||| lost(points)
            ||| exists|sorted: Seq<usize>, i: int|
                0 <= i < points.len() && #[trigger] sorted_by_x(points, sorted)
                    && #[trigger] scales_to(distance, mean, points, sorted, i, None)
        },
    }
}

/// The scale of each point: the mean distance to its nearest neighbours, sought among the
/// points with a similar first coordinate.
pub fn estimate_initial_scales<
    F: Fn([Double; 3], [Double; 3]) -> Double + Copy,
    M: Fn(&Vec<Double>) -> Single + Copy,
>(distance: F, mean: M, points: &[SfMPoint]) -> (r: Option<Vec<Single>>)
    requires
        forall|a: [Double; 3], b: [Double; 3]| call_requires(distance, (a, b)),
        forall|v: &Vec<Double>| call_requires(mean, (v,)),
    ensures
        scales_of(
            distance,
            mean,
            points@,
            match r {
                Some(s) => Some(s@),
                None => None,
            },
        ),
{
    for i in 0..points.len()
        invariant
            forall|j: int| 0 <= j < i ==> !(#[trigger] points[j]).xyz[0].nan(),
    {
        if points[i].xyz[0].is_nan() {
            assert(points@[i as int].xyz[0].nan());
            return None;
        }
    }
    let sorted = sort_by_x(points);
    let mut scales: Vec<Single> = Vec::new();
    for i in 0..points.len()
        invariant
            forall|a: [Double; 3], b: [Double; 3]| call_requires(distance, (a, b)),
            forall|v: &Vec<Double>| call_requires(mean, (v,)),
            sorted_by_x(points@, sorted@),
            scales.len() == i,
            forall|j: int|
                0 <= j < i ==> scales_to(
                    distance,
                    mean,
                    points@,
                    sorted@,
                    j,
                    Some(#[trigger] scales[j]),
                ),
    {
        match initial_scale(distance, mean, points, &sorted, i) {
            Some(s) => {
                scales.push(s);
            },
            None => {
                return None;
            },
        }
    }
    Some(scales)
}

/// The centre of a point in single precision.
pub open spec fn center_of(p: SfMPoint) -> Seq<Single> {
    seq![p.xyz[0].narrowed(), p.xyz[1].narrowed(), p.xyz[2].narrowed()]
}

/// The parameters of a Gaussian at `center`, round, with the log scale `s`, the given
/// opacity and the degree-0 coefficients of its colour.
pub open spec fn seed_of(
    center: Seq<Single>,
    s: Single,
    opacity: Single,
    red: Single,
    green: Single,
    blue: Single,
) -> Seq<Single> {
    fresh(center).update(7, s).update(8, s).update(9, s).update(10, opacity).update(11, red).update(
        27,
        green,
    ).update(43, blue)
}

/// `g` can be the Gaussian that the point `p` with the given scale seeds.
pub open spec fn seeds_to<L: Fn(Single) -> Single, C: Fn(u8) -> Single>(
    log_of: L,
    dc: C,
    opacity: Single,
    p: SfMPoint,
    scale: Single,
    g: Seq<Single>,
) -> bool {
    exists|s: Single, red: Single, green: Single, blue: Single|
        #![trigger
            call_ensures(log_of, (larger(scale, Single { bits: LEAST_SCALE }),), s),
            call_ensures(dc, (p.rgb[0],), red),
            call_ensures(dc, (p.rgb[1],), green),
            call_ensures(dc, (p.rgb[2],), blue)]
        {
            &&& call_ensures(log_of, (larger(scale, Single { bits: LEAST_SCALE }),), s)
            &&& call_ensures(dc, (p.rgb[0],), red)
            &&& call_ensures(dc, (p.rgb[1],), green)
            &&& call_ensures(dc, (p.rgb[2],), blue)
            &&& g == seed_of(center_of(p), s, opacity, red, green, blue)
        }
}

/// `gs` can be the Gaussians that the points with the given scales seed.
pub open spec fn seeded<L: Fn(Single) -> Single, C: Fn(u8) -> Single>(
    log_of: L,
    dc: C,
    opacity: Single,
    points: Seq<SfMPoint>,
    scales: Seq<Single>,
    gs: Seq<Gaussian3D<Single>>,
) -> bool {
    &&& gs.len() == points.len()
    &&& forall|i: int|
        0 <= i < gs.len() ==> seeds_to(
            log_of,
            dc,
            opacity,
            points[i],
            scales[i],
            (#[trigger] gs[i])@,
        )
}

/// The Gaussians that the points with the given scales seed.
pub fn seed<L: Fn(Single) -> Single, C: Fn(u8) -> Single>(
    log_of: L,
    dc: C,
    opacity: Single,
    points: &[SfMPoint],
    scales: &[Single],
) -> (r: Vec<Gaussian3D<Single>>)
    requires
        forall|v: Single| call_requires(log_of, (v,)),
        forall|b: u8| call_requires(dc, (b,)),
        scales.len() == points.len(),
    ensures
        seeded(log_of, dc, opacity, points@, scales@, r@),
{
    let mut r: Vec<Gaussian3D<Single>> = Vec::new();
    for i in 0..points.len()
        invariant
            forall|v: Single| call_requires(log_of, (v,)),
            forall|b: u8| call_requires(dc, (b,)),
            scales.len() == points.len(),
            r.len() == i,
            forall|j: int|
                0 <= j < i ==> seeds_to(
                    log_of,
                    dc,
                    opacity,
                    points[j],
                    scales[j],
                    (#[trigger] r[j])@,
                ),
    {
        let p = points[i];
        let center = [p.xyz[0].narrow(), p.xyz[1].narrow(), p.xyz[2].narrow()];
        assert(center@ =~= center_of(p));
        let mut g = Gaussian3D::new(center);
        let s = log_of(max_of(scales[i], Single { bits: LEAST_SCALE }));
        let red = dc(p.rgb[0]);
        let green = dc(p.rgb[1]);
        let blue = dc(p.rgb[2]);
        g.set_param(7, s);
        g.set_param(8, s);
        g.set_param(9, s);
        g.set_param(10, opacity);
        g.set_param(11, red);
        g.set_param(27, green);
        g.set_param(43, blue);
        assert(g@ == seed_of(center_of(p), s, opacity, red, green, blue));
        assert(seeds_to(log_of, dc, opacity, p, scales[i as int], g@));
        r.push(g);
    }
    r
}

/// The Gaussians that a point cloud seeds: nothing, where the scales cannot be estimated.
pub fn gaussians_from_sfm<
    F: Fn([Double; 3], [Double; 3]) -> Double + Copy,
    M: Fn(&Vec<Double>) -> Single + Copy,
    L: Fn(Single) -> Single,
    C: Fn(u8) -> Single,
>(distance: F, mean: M, log_of: L, dc: C, opacity: Single, points: &[SfMPoint]) -> (r: Option<
    Vec<Gaussian3D<Single>>,
>)
    requires
        forall|a: [Double; 3], b: [Double; 3]| call_requires(distance, (a, b)),
        forall|v: &Vec<Double>| call_requires(mean, (v,)),
        forall|v: Single| call_requires(log_of, (v,)),
        forall|b: u8| call_requires(dc, (b,)),
    ensures
        match r {
            None => scales_of(distance, mean, points@, None),
            Some(gs) => exists|scales: Seq<Single>| #[trigger]
                scales_of(distance, mean, points@, Some(scales)) && seeded(
                    log_of,
                    dc,
                    opacity,
                    points@,
                    scales,
                    gs@,
                ),
        },
        points.len() == 0 ==> r is Some && r->0.len() == 0,
{
    match estimate_initial_scales(distance, mean, points) {
        Some(scales) => {
            assert(scales_of(distance, mean, points@, Some(scales@)));
            Some(seed(log_of, dc, opacity, points, &scales))
        },
        None => None,
    }
}

/// The smallest distances are the smallest: each other distance is at least the last of them.
pub proof fn neighbours_are_nearest(dists: Seq<Double>, k: int, least: Seq<Double>, a: int)
    requires
        smallest(dists, k, least),
        !incomparable(dists),
        0 < k <= dists.len() <= usize::MAX,
        0 <= a < dists.len(),
    ensures
        least.contains(dists[a]) || least.last().value() <= dists[a].value(),
{
    let r = choose|r: Seq<usize>| #[trigger]
        orders(ranks(dists), r) && least == Seq::new(k as nat, |j: int| dists[r[j] as int]);
    assert(r.contains(a as usize));
    let b = choose|b: int| 0 <= b < r.len() && r[b] == a;
    assert(r.contains(r[k - 1]));
    if b < k {
        assert(least[b] == dists[a]);
    } else {
        assert(before(ranks(dists), r[k - 1] as int, r[b] as int));
        let (x, y) = (dists[r[k - 1] as int], dists[a]);
        lemma_double_rank_is_order(x, y);
        assert(!x.nan() && !y.nan());
    }
}

} // verus!
