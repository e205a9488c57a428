//! From a Gaussian to a splat, if it is drawn.
//!
//! The kernels are handed in: the `opacity` of a Gaussian, its centre in camera space
//! (`to_camera`) and from there on the screen (`to_screen`), its screen covariance
//! (`spread`) with the determinant (`det_of`) and the inverse (`conic_of`), how far it may
//! `reach`, its spherical-harmonics `basis` in the viewing direction, and those that make a
//! colour of it.  They are called only as far as the Gaussian is not yet ruled out.

use super::splat::{by_depth, depth_ranks, drawn, Splat, ALPHA_THRESHOLD};
use super::tiles::TileRect;
use crate::math::projection::{clipped_box, gaussian_aabb_2d};
use crate::math::sh::{eval_sh_deg3, sh_channel};
use crate::math::{held_is_between, in_unit, Gaussian3D};
use crate::num::order::{lemma_placed_once, orders};
use crate::num::single::{lemma_rank_is_order, Single, ONE, ZERO};
use vstd::prelude::*;

verus! {

/// The pattern of `0.001`: what is nearer counts as behind the camera.
pub const NEAR: u32 = 0x3A83_126F;

/// The pattern of `-128.0`: how far off screen a centre may lie.
pub const MINUS_MARGIN: u32 = 0xC300_0000;

/// The pattern of `1e-8`: a covariance with a smaller determinant is not inverted.
pub const MIN_DETERMINANT: u32 = 0x322B_CC77;

/// The screen that Gaussians are projected to.
#[derive(Clone, Copy, Debug)]
pub struct Screen {
    pub width: u32,
    pub height: u32,
    /// The width and the height plus the margin.
    pub right: Single,
    pub bottom: Single,
}

/// What is measured of a Gaussian.
#[derive(Clone, Copy, Debug)]
pub struct Measures {
    pub opacity: Single,
    /// Centre in camera space; its third coordinate is the depth.
    pub pcam: [Single; 3],
    /// Centre on the screen.
    pub centre: (Single, Single),
    /// Screen covariance, and its determinant.
    pub cov: [Single; 3],
    pub det: Single,
    /// Centre less and plus the radius, rounded towards zero.
    pub reach: ((i32, i32), (i32, i32)),
}

/// Whether a centre lies off screen by more than the margin.
pub open spec fn off_screen(c: (Single, Single), screen: Screen) -> bool {
    let left = Single { bits: MINUS_MARGIN };
    ||| c.0.below(left)
    ||| screen.right.below(c.0)
    ||| c.1.below(left)
    ||| screen.bottom.below(c.1)
}

/// Decides whether a centre lies off screen by more than the margin.
pub fn is_off_screen(c: (Single, Single), screen: &Screen) -> (r: bool)
    ensures
        r == off_screen(c, *screen),
{
    let left = Single { bits: MINUS_MARGIN };
    c.0.lt(left) || screen.right.lt(c.0) || c.1.lt(left) || screen.bottom.lt(c.1)
}

impl Measures {
    /// Too faint to leave a trace.
    pub open spec fn faint(self) -> bool {
        self.opacity.below(Single { bits: ALPHA_THRESHOLD })
    }

    /// Behind the camera, or too near.
    pub open spec fn behind(self) -> bool {
        self.pcam[2].at_most(Single { bits: NEAR })
    }

    /// With a covariance that cannot be inverted.
    pub open spec fn flat(self) -> bool {
        self.det.unsigned().below(Single { bits: MIN_DETERMINANT })
    }

    /// Not drawn, wherever it reaches.
    pub open spec fn culled(self, screen: Screen) -> bool {
        self.faint() || self.behind() || off_screen(self.centre, screen) || self.flat()
    }
}

/// The pixels from `q.0` to `q.1` can be counted, and so can the tiles over them.
pub open spec fn countable(q: ((i32, i32), (i32, i32)), screen: Screen) -> bool {
    &&& q.1.0 < i32::MAX
    &&& q.1.1 < i32::MAX
    &&& match clipped_box(q.0, q.1, screen.width, screen.height) {
        Some(b) => b.2 <= i32::MAX - 16 && b.3 <= i32::MAX - 16,
        None => true,
    }
}

/// The tiles `t` are those over the pixels `b`.
pub open spec fn covers(t: TileRect, b: (int, int, int, int)) -> bool {
    &&& t.x0 == b.0 / 16
    &&& t.y0 == b.1 / 16
    &&& t.x1 == (b.2 + 15) / 16
    &&& t.y1 == (b.3 + 15) / 16
}

/// `m` can be what is measured of `g`.  What follows on a finding that rules the Gaussian out
/// is not measured, and not said.
pub open spec fn measured<
    O: Fn(&Gaussian3D<Single>) -> Single,
    T: Fn(&Gaussian3D<Single>) -> [Single; 3],
    S: Fn([Single; 3]) -> (Single, Single),
    P: Fn(&Gaussian3D<Single>) -> [Single; 3],
    D: Fn([Single; 3]) -> Single,
    R: Fn((Single, Single), [Single; 3]) -> ((i32, i32), (i32, i32)),
>(
    opacity: O,
    to_camera: T,
    to_screen: S,
    spread: P,
    det_of: D,
    reach: R,
    g: Gaussian3D<Single>,
    screen: Screen,
    m: Measures,
) -> bool {
    &&& call_ensures(opacity, (&g,), m.opacity)
    &&& m.faint() || {
        &&& call_ensures(to_camera, (&g,), m.pcam)
        &&& m.behind() || {
            &&& call_ensures(to_screen, (m.pcam,), m.centre)
            &&& off_screen(m.centre, screen) || {
                &&& call_ensures(spread, (&g,), m.cov)
                &&& call_ensures(det_of, (m.cov,), m.det)
                &&& m.flat() || call_ensures(reach, (m.centre, m.cov), m.reach)
            }
        }
    }
}

/// The colour of the splat `s` can be that of the coefficients `coeffs` in its basis, before
/// and after it is clamped.
pub open spec fn coloured<
    M: Fn(Single, Single, Single) -> Single,
    L: Fn(Single) -> Single,
>(mac: M, lift: L, coeffs: [Single; 48], s: Splat) -> bool {
    &&& forall|ch: int|
        0 <= ch < 3 ==> sh_channel(mac, lift, coeffs@, s.basis@, ch, #[trigger] s.raw_color[ch])
    &&& forall|ch: int|
        0 <= ch < 3 ==> #[trigger] s.color[ch] == in_unit(s.raw_color[ch])
}

/// `r` can be the splat of the Gaussian `g`, number `gi`, of which `m` was measured: nothing,
/// where it is culled or reaches no pixel of the screen.
pub open spec fn drawn_as<
    V: Fn([Single; 3], Single) -> [Single; 3],
    W: Fn(&Gaussian3D<Single>) -> [Single; 16],
    M: Fn(Single, Single, Single) -> Single,
    L: Fn(Single) -> Single,
>(
    conic_of: V,
    basis: W,
    mac: M,
    lift: L,
    g: Gaussian3D<Single>,
    gi: usize,
    screen: Screen,
    m: Measures,
    r: Option<Splat>,
) -> bool {
    if m.culled(screen) {
        r is None
    } else {
        match clipped_box(m.reach.0, m.reach.1, screen.width, screen.height) {
            None => r is None,
            Some(b) => r matches Some(s) && {
                &&& s.gi == gi
                &&& s.sx == m.centre.0
                &&& s.sy == m.centre.1
                &&& call_ensures(conic_of, (m.cov, m.det), s.conic)
                &&& s.cov2d == m.cov
                &&& s.opacity == m.opacity
                &&& s.depth == m.pcam[2]
                &&& s.pcam == m.pcam
                &&& call_ensures(basis, (&g,), s.basis)
                &&& coloured(mac, lift, g.sh_coeffs, s)
                &&& covers(s.tiles, b)
            },
        }
    }
}

/// `r` can be what is drawn of the Gaussian `g`, number `gi`.
pub open spec fn projected<
    O: Fn(&Gaussian3D<Single>) -> Single,
    T: Fn(&Gaussian3D<Single>) -> [Single; 3],
    S: Fn([Single; 3]) -> (Single, Single),
    P: Fn(&Gaussian3D<Single>) -> [Single; 3],
    D: Fn([Single; 3]) -> Single,
    R: Fn((Single, Single), [Single; 3]) -> ((i32, i32), (i32, i32)),
    V: Fn([Single; 3], Single) -> [Single; 3],
    W: Fn(&Gaussian3D<Single>) -> [Single; 16],
    M: Fn(Single, Single, Single) -> Single,
    L: Fn(Single) -> Single,
>(
    opacity: O,
    to_camera: T,
    to_screen: S,
    spread: P,
    det_of: D,
    reach: R,
    conic_of: V,
    basis: W,
    mac: M,
    lift: L,
    g: Gaussian3D<Single>,
    gi: usize,
    screen: Screen,
    r: Option<Splat>,
) -> bool {
    exists|m: Measures| #[trigger]
        measured(opacity, to_camera, to_screen, spread, det_of, reach, g, screen, m) && drawn_as(
            conic_of,
            basis,
            mac,
            lift,
            g,
            gi,
            screen,
            m,
            r,
        )
}

/// Measures a Gaussian, as far as it is not ruled out; whether it is.
fn measure<
    O: Fn(&Gaussian3D<Single>) -> Single,
    T: Fn(&Gaussian3D<Single>) -> [Single; 3],
    S: Fn([Single; 3]) -> (Single, Single),
    P: Fn(&Gaussian3D<Single>) -> [Single; 3],
    D: Fn([Single; 3]) -> Single,
    R: Fn((Single, Single), [Single; 3]) -> ((i32, i32), (i32, i32)),
>(
    opacity: O,
    to_camera: T,
    to_screen: S,
    spread: P,
    det_of: D,
    reach: R,
    g: &Gaussian3D<Single>,
    screen: &Screen,
) -> (r: (Measures, bool))
    requires
        forall|g: &Gaussian3D<Single>| call_requires(opacity, (g,)),
        forall|g: &Gaussian3D<Single>| call_requires(to_camera, (g,)),
        forall|p: [Single; 3]| call_requires(to_screen, (p,)),
        forall|g: &Gaussian3D<Single>| call_requires(spread, (g,)),
        forall|v: [Single; 3]| call_requires(det_of, (v,)),
        forall|c: (Single, Single), v: [Single; 3]| call_requires(reach, (c, v)),
    ensures
        measured(opacity, to_camera, to_screen, spread, det_of, reach, *g, *screen, r.0),
        r.1 == r.0.culled(*screen),
{
    let zero = Single { bits: ZERO };
    let mut m = Measures {
        opacity: opacity(g),
        pcam: [zero, zero, zero],
        centre: (zero, zero),
        cov: [zero, zero, zero],
        det: zero,
        reach: ((0, 0), (0, 0)),
    };
    if m.opacity.lt(Single { bits: ALPHA_THRESHOLD }) {
        return (m, true);
    }
    m.pcam = to_camera(g);
    if m.pcam[2].le(Single { bits: NEAR }) {
        return (m, true);
    }
    m.centre = to_screen(m.pcam);
    if is_off_screen(m.centre, screen) {
        return (m, true);
    }
    m.cov = spread(g);
    m.det = det_of(m.cov);
    if m.det.abs().lt(Single { bits: MIN_DETERMINANT }) {
        return (m, true);
    }
    m.reach = reach(m.centre, m.cov);
    (m, false)
}

/// Projects a Gaussian, number `gi`: a splat, if it is drawn.
pub fn project<
    O: Fn(&Gaussian3D<Single>) -> Single,
    T: Fn(&Gaussian3D<Single>) -> [Single; 3],
    S: Fn([Single; 3]) -> (Single, Single),
    P: Fn(&Gaussian3D<Single>) -> [Single; 3],
    D: Fn([Single; 3]) -> Single,
    R: Fn((Single, Single), [Single; 3]) -> ((i32, i32), (i32, i32)),
    V: Fn([Single; 3], Single) -> [Single; 3],
    W: Fn(&Gaussian3D<Single>) -> [Single; 16],
    M: Fn(Single, Single, Single) -> Single + Copy,
    L: Fn(Single) -> Single + Copy,
>(
    opacity: O,
    to_camera: T,
    to_screen: S,
    spread: P,
    det_of: D,
    reach: R,
    conic_of: V,
    basis: W,
    mac: M,
    lift: L,
    g: &Gaussian3D<Single>,
    gi: usize,
    screen: &Screen,
) -> (r: Option<Splat>)
    requires
        forall|g: &Gaussian3D<Single>| call_requires(opacity, (g,)),
        forall|g: &Gaussian3D<Single>| call_requires(to_camera, (g,)),
        forall|p: [Single; 3]| call_requires(to_screen, (p,)),
        forall|g: &Gaussian3D<Single>| call_requires(spread, (g,)),
        forall|v: [Single; 3]| call_requires(det_of, (v,)),
        forall|c: (Single, Single), v: [Single; 3]| call_requires(reach, (c, v)),
        forall|c: (Single, Single), v: [Single; 3], q: ((i32, i32), (i32, i32))|
            call_ensures(reach, (c, v), q) ==> countable(q, *screen),
        forall|v: [Single; 3], d: Single| call_requires(conic_of, (v, d)),
        forall|g: &Gaussian3D<Single>| call_requires(basis, (g,)),
        forall|a: Single, b: Single, c: Single| call_requires(mac, (a, b, c)),
        forall|a: Single| call_requires(lift, (a,)),
    ensures
        projected(
            opacity,
            to_camera,
            to_screen,
            spread,
            det_of,
            reach,
            conic_of,
            basis,
            mac,
            lift,
            *g,
            gi,
            *screen,
            r,
        ),
{
    let (m, culled) = measure(opacity, to_camera, to_screen, spread, det_of, reach, g, screen);
    if culled {
        return None;
    }
    let tiles = match gaussian_aabb_2d(m.reach.0, m.reach.1, screen.width, screen.height) {
        Some((x0, y0, x1, y1)) => TileRect::over(x0, y0, x1, y1),
        None => {
            return None;
        },
    };
    let directed = basis(g);
    let (raw_color, color) = eval_sh_deg3(mac, lift, &g.sh_coeffs, &directed);
    Some(
        Splat {
            gi,
            sx: m.centre.0,
            sy: m.centre.1,
            conic: conic_of(m.cov, m.det),
            cov2d: m.cov,
            color,
            raw_color,
            opacity: m.opacity,
            depth: m.pcam[2],
            basis: directed,
            pcam: m.pcam,
            tiles,
        },
    )
}

/// Projects all Gaussians.
pub fn project_all<
    O: Fn(&Gaussian3D<Single>) -> Single + Copy,
    T: Fn(&Gaussian3D<Single>) -> [Single; 3] + Copy,
    S: Fn([Single; 3]) -> (Single, Single) + Copy,
    P: Fn(&Gaussian3D<Single>) -> [Single; 3] + Copy,
    D: Fn([Single; 3]) -> Single + Copy,
    R: Fn((Single, Single), [Single; 3]) -> ((i32, i32), (i32, i32)) + Copy,
    V: Fn([Single; 3], Single) -> [Single; 3] + Copy,
    W: Fn(&Gaussian3D<Single>) -> [Single; 16] + Copy,
    M: Fn(Single, Single, Single) -> Single + Copy,
    L: Fn(Single) -> Single + Copy,
>(
    opacity: O,
    to_camera: T,
    to_screen: S,
    spread: P,
    det_of: D,
    reach: R,
    conic_of: V,
    basis: W,
    mac: M,
    lift: L,
    gaussians: &[Gaussian3D<Single>],
    screen: &Screen,
) -> (r: Vec<Option<Splat>>)
    requires
        forall|g: &Gaussian3D<Single>| call_requires(opacity, (g,)),
        forall|g: &Gaussian3D<Single>| call_requires(to_camera, (g,)),
        forall|p: [Single; 3]| call_requires(to_screen, (p,)),
        forall|g: &Gaussian3D<Single>| call_requires(spread, (g,)),
        forall|v: [Single; 3]| call_requires(det_of, (v,)),
        forall|c: (Single, Single), v: [Single; 3]| call_requires(reach, (c, v)),
        forall|c: (Single, Single), v: [Single; 3], q: ((i32, i32), (i32, i32))|
            call_ensures(reach, (c, v), q) ==> countable(q, *screen),
        forall|v: [Single; 3], d: Single| call_requires(conic_of, (v, d)),
        forall|g: &Gaussian3D<Single>| call_requires(basis, (g,)),
        forall|a: Single, b: Single, c: Single| call_requires(mac, (a, b, c)),
        forall|a: Single| call_requires(lift, (a,)),
    ensures
        r.len() == gaussians.len(),
        forall|i: int|
            0 <= i < r.len() ==> projected(
                opacity,
                to_camera,
                to_screen,
                spread,
                det_of,
                reach,
                conic_of,
                basis,
                mac,
                lift,
                gaussians[i],
                i as usize,
                *screen,
                #[trigger] r[i],
            ),
        numbered(r@),
{
    let mut r: Vec<Option<Splat>> = Vec::new();
    for i in 0..gaussians.len()
        invariant
            forall|g: &Gaussian3D<Single>| call_requires(opacity, (g,)),
            forall|g: &Gaussian3D<Single>| call_requires(to_camera, (g,)),
            forall|p: [Single; 3]| call_requires(to_screen, (p,)),
            forall|g: &Gaussian3D<Single>| call_requires(spread, (g,)),
            forall|v: [Single; 3]| call_requires(det_of, (v,)),
            forall|c: (Single, Single), v: [Single; 3]| call_requires(reach, (c, v)),
            forall|c: (Single, Single), v: [Single; 3], q: ((i32, i32), (i32, i32))|
                call_ensures(reach, (c, v), q) ==> countable(q, *screen),
            forall|v: [Single; 3], d: Single| call_requires(conic_of, (v, d)),
            forall|g: &Gaussian3D<Single>| call_requires(basis, (g,)),
            forall|a: Single, b: Single, c: Single| call_requires(mac, (a, b, c)),
            forall|a: Single| call_requires(lift, (a,)),
            r.len() == i,
            forall|j: int|
                0 <= j < i ==> projected(
                    opacity,
                    to_camera,
                    to_screen,
                    spread,
                    det_of,
                    reach,
                    conic_of,
                    basis,
                    mac,
                    lift,
                    gaussians[j],
                    j as usize,
                    *screen,
                    #[trigger] r[j],
                ),
            numbered(r@),
    {
        let s = project(
            opacity,
            to_camera,
            to_screen,
            spread,
            det_of,
            reach,
            conic_of,
            basis,
            mac,
            lift,
            &gaussians[i],
            i,
            screen,
        );
        r.push(s);
    }
    r
}

/// Every splat bears the number of its Gaussian.
pub open spec fn numbered(projected: Seq<Option<Splat>>) -> bool {
    forall|i: int|
        0 <= i < projected.len() ==> (#[trigger] projected[i] matches Some(s) ==> s.gi == i)
}

proof fn lemma_drawn_ascend(projected: Seq<Option<Splat>>)
    requires
        numbered(projected),
    ensures
        forall|a: int, b: int|
            0 <= a < b < drawn(projected).len() ==> drawn(projected)[a].gi < drawn(projected)[b].gi,
        forall|a: int|
            0 <= a < drawn(projected).len() ==> (#[trigger] drawn(projected)[a]).gi
                < projected.len(),
    decreases projected.len(),
{
    if projected.len() > 0 {
        let fewer = projected.drop_last();
        assert(numbered(fewer)) by {
            assert forall|i: int| 0 <= i < fewer.len() implies (#[trigger] fewer[i] matches Some(s)
                ==> s.gi == i) by {
                assert(fewer[i] == projected[i]);
            }
        }
        lemma_drawn_ascend(fewer);
        let (d, e) = (drawn(projected), drawn(fewer));
        assert(projected.last() == projected[projected.len() - 1]);
        assert forall|a: int| 0 <= a < d.len() implies (#[trigger] d[a]).gi < projected.len() by {
            if a < e.len() {
                assert(d[a] == e[a]);
            }
        }
        assert forall|a: int, b: int| 0 <= a < b < d.len() implies d[a].gi < d[b].gi by {
            assert(d[a] == e[a]);
            if b < e.len() {
                assert(d[b] == e[b]);
            }
        }
    }
}

/// However they are arranged, no two splats show the same Gaussian.
pub proof fn gaussians_are_drawn_once(
    projected: Seq<Option<Splat>>,
    arranged: Seq<Splat>,
    a: int,
    b: int,
)
    requires
        numbered(projected),
        by_depth(drawn(projected), arranged),
        0 <= a < arranged.len(),
        0 <= b < arranged.len(),
        a != b,
    ensures
        arranged[a].gi != arranged[b].gi,
        arranged[a].gi < projected.len(),
{
    let splats = drawn(projected);
    let r = choose|r: Seq<usize>| #[trigger]
        orders(depth_ranks(splats), r) && arranged == Seq::new(
            r.len(),
            |k: int| splats[r[k] as int],
        );
    lemma_drawn_ascend(projected);
    lemma_placed_once(depth_ranks(splats), r);
    let (x, y) = (r[a] as int, r[b] as int);
    assert(x != y);
    assert(splats[x].gi < projected.len());
    if x < y {
        assert(splats[x].gi < splats[y].gi);
    } else {
        assert(splats[y].gi < splats[x].gi);
    }
}

/// What is drawn is neither faint nor behind the camera, and touches some tile.
pub proof fn drawn_is_in_view<
    V: Fn([Single; 3], Single) -> [Single; 3],
    W: Fn(&Gaussian3D<Single>) -> [Single; 16],
    M: Fn(Single, Single, Single) -> Single,
    L: Fn(Single) -> Single,
>(
    conic_of: V,
    basis: W,
    mac: M,
    lift: L,
    g: Gaussian3D<Single>,
    gi: usize,
    screen: Screen,
    m: Measures,
    s: Splat,
)
    requires
        drawn_as(conic_of, basis, mac, lift, g, gi, screen, m, Some(s)),
    ensures
        !s.opacity.below(Single { bits: ALPHA_THRESHOLD }),
        !s.depth.at_most(Single { bits: NEAR }),
        s.tiles.x0 < s.tiles.x1,
        s.tiles.y0 < s.tiles.y1,
{
}

/// A channel of a drawn colour that is a number lies in the unit interval.
pub proof fn drawn_colors_are_in_range<
    M: Fn(Single, Single, Single) -> Single,
    L: Fn(Single) -> Single,
>(mac: M, lift: L, coeffs: [Single; 48], s: Splat, ch: int)
    requires
        coloured(mac, lift, coeffs, s),
        0 <= ch < 3,
        !s.raw_color[ch].nan(),
    ensures
        (Single { bits: ZERO }).at_most(s.color[ch]),
        s.color[ch].at_most(Single { bits: ONE }),
{
    let (zero, one) = (Single { bits: ZERO }, Single { bits: ONE });
    assert(s.color[ch] == in_unit(s.raw_color[ch]));
    lemma_rank_is_order(zero, one);
    held_is_between(s.raw_color[ch], zero, one);
}

} // verus!
