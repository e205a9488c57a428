//! Which Gaussians are drawn, and where.

use super::project::{
    coloured, drawn_as, measured, projected, Measures, Screen, MIN_DETERMINANT, MINUS_MARGIN, NEAR,
};
use super::splat::{by_depth, comparable, drawn, footprints, nearest_first, Splat, ALPHA_THRESHOLD};
use super::tiles::{
    binned, in_tile, lemma_cell_at, lemma_touching, tiles_over, tiles_over_a_box, touching,
};
use crate::math::projection::{box_is_the_extent_on_screen, clipped_box};
use crate::math::sh::sh_channel;
use crate::math::Gaussian3D;
use crate::num::order::orders;
use crate::num::reading::{less, no_more};
use crate::num::single::{Single, ONE, ZERO};
use vstd::prelude::*;

verus! {

/// What the kernels find of a Gaussian: its opacity, its centre in camera space and on the
/// screen, its covariance there with the determinant, and how far it reaches.
pub struct View3D {
    pub opacity: spec_fn(Gaussian3D<Single>) -> Single,
    pub camera: spec_fn(Gaussian3D<Single>) -> [Single; 3],
    pub screen: spec_fn([Single; 3]) -> (Single, Single),
    pub spread: spec_fn(Gaussian3D<Single>) -> [Single; 3],
    pub det: spec_fn([Single; 3]) -> Single,
    pub reach: spec_fn((Single, Single), [Single; 3]) -> ((i32, i32), (i32, i32)),
}

/// The kernels give this.
pub open spec fn views<
    O: Fn(&Gaussian3D<Single>) -> Single,
    T: Fn(&Gaussian3D<Single>) -> [Single; 3],
    S: Fn([Single; 3]) -> (Single, Single),
    P: Fn(&Gaussian3D<Single>) -> [Single; 3],
    D: Fn([Single; 3]) -> Single,
    R: Fn((Single, Single), [Single; 3]) -> ((i32, i32), (i32, i32)),
>(opacity: O, to_camera: T, to_screen: S, spread: P, det_of: D, reach: R, v: View3D) -> bool {
    &&& forall|g: &Gaussian3D<Single>, r: Single| #[trigger]
        call_ensures(opacity, (g,), r) ==> r == (v.opacity)(*g)
    &&& forall|g: &Gaussian3D<Single>, r: [Single; 3]| #[trigger]
        call_ensures(to_camera, (g,), r) ==> r == (v.camera)(*g)
    &&& forall|p: [Single; 3], r: (Single, Single)| #[trigger]
        call_ensures(to_screen, (p,), r) ==> r == (v.screen)(p)
    &&& forall|g: &Gaussian3D<Single>, r: [Single; 3]| #[trigger]
        call_ensures(spread, (g,), r) ==> r == (v.spread)(*g)
    &&& forall|c: [Single; 3], r: Single| #[trigger]
        call_ensures(det_of, (c,), r) ==> r == (v.det)(c)
    &&& forall|c: (Single, Single), s: [Single; 3], r: ((i32, i32), (i32, i32))| #[trigger]
        call_ensures(reach, (c, s), r) ==> r == (v.reach)(c, s)
}

/// A Gaussian is seen: it is not too faint, lies in front of the camera, not far off the screen,
/// and has a covariance that can be inverted.
pub open spec fn seen(v: View3D, g: Gaussian3D<Single>, screen: Screen) -> bool {
    let cam = (v.camera)(g);
    let (x, y) = (v.screen)(cam);
    let det = (v.det)((v.spread)(g));
    &&& !less((v.opacity)(g), Single { bits: ALPHA_THRESHOLD })
    &&& !no_more(cam[2], Single { bits: NEAR })
    &&& !less(x, Single { bits: MINUS_MARGIN })
    &&& !less(screen.right, x)
    &&& !less(y, Single { bits: MINUS_MARGIN })
    &&& !less(screen.bottom, y)
    &&& det.nan() || det.value() >= (Single { bits: MIN_DETERMINANT }).value() || det.value() <= -(
    Single { bits: MIN_DETERMINANT }).value()
}

/// Pixel `(px, py)` is on the screen and in the reach of a Gaussian.
pub open spec fn reached(v: View3D, g: Gaussian3D<Single>, screen: Screen, px: int, py: int) -> bool {
    let ((x0, y0), (x1, y1)) = (v.reach)((v.screen)((v.camera)(g)), (v.spread)(g));
    &&& 0 <= px < screen.width && 0 <= py < screen.height
    &&& x0 <= px <= x1 && y0 <= py <= y1
}

/// `c` is `raw` where that lies in the unit interval, and else the nearer end.
pub open spec fn clamped_to_unit(raw: Single, c: Single) -> bool {
    if less(raw, Single { bits: ZERO }) {
        c == (Single { bits: ZERO })
    } else if less(Single { bits: ONE }, raw) {
        c == (Single { bits: ONE })
    } else {
        c == raw
    }
}

proof fn lemma_unsigned(d: Single)
    ensures
        d.unsigned().nan() == d.nan(),
        d.unsigned().value() == if d.value() < 0 {
            -d.value()
        } else {
            d.value()
        },
{
    crate::num::single::lemma_magnitude_nonnegative(d.mag(), 23);
    assert(d.unsigned().mag() == d.mag());
}

/// A Gaussian is drawn exactly if it is seen and reaches a pixel of the screen.  Its splat stands
/// where its centre is seen, with its depth, opacity, covariance and colour, and touches exactly
/// the tiles with a pixel in its reach.
pub proof fn what_is_seen_is_drawn<
    O: Fn(&Gaussian3D<Single>) -> Single,
    T: Fn(&Gaussian3D<Single>) -> [Single; 3],
    S: Fn([Single; 3]) -> (Single, Single),
    P: Fn(&Gaussian3D<Single>) -> [Single; 3],
    D: Fn([Single; 3]) -> Single,
    R: Fn((Single, Single), [Single; 3]) -> ((i32, i32), (i32, i32)),
    V: Fn([Single; 3], Single) -> [Single; 3],
    W: Fn(&Gaussian3D<Single>) -> [Single; 16],
    M: Fn(Single, Single, Single) -> Single,
    L: Fn(Single) -> Single,
>(
    opacity: O,
    to_camera: T,
    to_screen: S,
    spread: P,
    det_of: D,
    reach: R,
    conic_of: V,
    basis: W,
    mac: M,
    lift: L,
    v: View3D,
    g: Gaussian3D<Single>,
    gi: usize,
    screen: Screen,
    r: Option<Splat>,
)
    requires
        views(opacity, to_camera, to_screen, spread, det_of, reach, v),
        screen.width <= i32::MAX,
        screen.height <= i32::MAX,
        projected(
            opacity,
            to_camera,
            to_screen,
            spread,
            det_of,
            reach,
            conic_of,
            basis,
            mac,
            lift,
            g,
            gi,
            screen,
            r,
        ),
    ensures
        r is Some <==> seen(v, g, screen) && exists|px: int, py: int| #[trigger]
            reached(v, g, screen, px, py),
        r matches Some(s) ==> {
            let cam = (v.camera)(g);
            let cov = (v.spread)(g);
            &&& s.gi == gi
            &&& s.pcam == cam
            &&& s.depth == cam[2]
            &&& (s.sx, s.sy) == (v.screen)(cam)
            &&& s.opacity == (v.opacity)(g)
            &&& s.cov2d == cov
            &&& call_ensures(conic_of, (cov, (v.det)(cov)), s.conic)
            &&& call_ensures(basis, (&g,), s.basis)
            &&& forall|ch: int|
                0 <= ch < 3 ==> sh_channel(
                    mac,
                    lift,
                    g.sh_coeffs@,
                    s.basis@,
                    ch,
                    #[trigger] s.raw_color[ch],
                ) && clamped_to_unit(s.raw_color[ch], s.color[ch])
            &&& forall|tx: int, ty: int|
                #![trigger touches(s, tx, ty)]
                0 <= tx && 0 <= ty ==> (touches(s, tx, ty) <==> exists|px: int, py: int| #[trigger]
                    reached(v, g, screen, px, py) && px / 16 == tx && py / 16 == ty)
        },
{
    let m = choose|m: Measures| #[trigger]
        measured(opacity, to_camera, to_screen, spread, det_of, reach, g, screen, m) && drawn_as(
            conic_of,
            basis,
            mac,
            lift,
            g,
            gi,
            screen,
            m,
            r,
        );
    lemma_unsigned(m.det);
    let cam = (v.camera)(g);
    let cov = (v.spread)(g);
    lemma_unsigned((v.det)(cov));
    assert(m.culled(screen) <==> !seen(v, g, screen));
    if seen(v, g, screen) {
        let q = (v.reach)((v.screen)(cam), cov);
        assert(m.reach == q);
        let clip = clipped_box(q.0, q.1, screen.width, screen.height);
        assert forall|px: int, py: int| #[trigger] reached(v, g, screen, px, py) <==> match clip {
            Some(b) => b.0 <= px < b.2 && b.1 <= py < b.3,
            None => false,
        } by {
            box_is_the_extent_on_screen(q.0, q.1, screen.width, screen.height, px, py);
        }
        match clip {
            Some(b) => {
                assert(reached(v, g, screen, b.0, b.1));
                let s = r->0;
                assert forall|tx: int, ty: int|
                    #![trigger touches(s, tx, ty)]
                    0 <= tx && 0 <= ty implies (touches(s, tx, ty) <==> exists|px: int, py: int|
                 #[trigger]
                    reached(v, g, screen, px, py) && px / 16 == tx && py / 16 == ty) by {
                    tiles_over_a_box(b.0, b.1, b.2, b.3, tx, ty);
                    if touches(s, tx, ty) {
                        let (px, py) = choose|px: int, py: int|
                            b.0 <= px < b.2 && b.1 <= py < b.3 && #[trigger] in_tile(
                                px,
                                py,
                                tx,
                                ty,
                            );
                        assert(reached(v, g, screen, px, py) && px / 16 == tx && py / 16 == ty);
                    }
                    if exists|px: int, py: int| #[trigger]
                        reached(v, g, screen, px, py) && px / 16 == tx && py / 16 == ty {
                        let (px, py) = choose|px: int, py: int| #[trigger]
                            reached(v, g, screen, px, py) && px / 16 == tx && py / 16 == ty;
                        assert(in_tile(px, py, tx, ty));
                    }
                }
                assert forall|ch: int| 0 <= ch < 3 implies sh_channel(
                    mac,
                    lift,
                    g.sh_coeffs@,
                    s.basis@,
                    ch,
                    #[trigger] s.raw_color[ch],
                ) && clamped_to_unit(s.raw_color[ch], s.color[ch]) by {
                    assert(coloured(mac, lift, g.sh_coeffs, s));
                    assert(s.color[ch] == crate::math::in_unit(s.raw_color[ch]));
                }
            },
            None => {},
        }
    }
}

/// The tile in column `tx` of row `ty` is one of those of the splat.
pub open spec fn touches(s: Splat, tx: int, ty: int) -> bool {
    s.tiles.x0 <= tx < s.tiles.x1 && s.tiles.y0 <= ty < s.tiles.y1
}

/// The list of each tile names exactly the splats that touch it, each once, nearest first.
pub proof fn lists_are_nearest_first(
    splats: Seq<Splat>,
    arranged: Seq<Splat>,
    w: int,
    h: int,
    lists: Seq<Vec<usize>>,
    tx: int,
    ty: int,
)
    requires
        splats.len() <= usize::MAX,
        by_depth(splats, arranged),
        comparable(splats),
        0 <= w,
        0 <= h,
        binned(footprints(arranged), tiles_over(w as nat) as int, tiles_over(h as nat) as int, lists),
        0 <= tx < (w + 15) / 16,
        0 <= ty < (h + 15) / 16,
    ensures
        ({
            let list = lists[ty * ((w + 15) / 16) + tx]@;
            &&& arranged.len() == splats.len()
            &&& forall|i: usize| #[trigger]
                list.contains(i) <==> i < arranged.len() && touches(arranged[i as int], tx, ty)
            &&& forall|a: int, b: int| 0 <= a < b < list.len() ==> list[a] < list[b]
            &&& forall|a: int, b: int|
                0 <= a < b < list.len() ==> (#[trigger] arranged[list[a] as int]).depth.value() <= (
                #[trigger] arranged[list[b] as int]).depth.value()
        }),
{
    let nx = (w + 15) / 16;
    let ny = (h + 15) / 16;
    lemma_cell_at(tx, ty, nx, ny);
    let k = ty * nx + tx;
    let rects = footprints(arranged);
    let r = choose|r: Seq<usize>| #[trigger]
        orders(crate::cpu::splat::depth_ranks(splats), r) && arranged == Seq::new(
            r.len(),
            |k: int| splats[r[k] as int],
        );
    assert(arranged.len() == splats.len());
    assert(lists[k]@ == touching(rects, k % nx, k / nx, rects.len()));
    lemma_touching(rects, tx, ty, rects.len());
    let list = lists[k]@;
    assert forall|i: usize| #[trigger] list.contains(i) <==> i < arranged.len() && touches(
        arranged[i as int],
        tx,
        ty,
    ) by {
        if i < arranged.len() {
            assert(rects[i as int] == arranged[i as int].tiles);
        }
    }
    assert forall|a: int, b: int| 0 <= a < b < list.len() implies (#[trigger] arranged[list[a] as int]).depth.value()
        <= (#[trigger] arranged[list[b] as int]).depth.value() by {
        assert(list[a] < list[b] < arranged.len());
        nearest_first(splats, arranged, list[a] as int, list[b] as int);
    }
}

/// What is put in order are exactly the splats that are there, in the order of their Gaussians.
pub proof fn all_that_is_drawn_is_there(projected: Seq<Option<Splat>>) -> (r: Seq<int>)
    ensures
        r.len() == drawn(projected).len(),
        forall|a: int|
            0 <= a < r.len() ==> 0 <= #[trigger] r[a] < projected.len() && projected[r[a]] == Some(
                drawn(projected)[a],
            ),
        forall|a: int, b: int| 0 <= a < b < r.len() ==> r[a] < r[b],
        forall|i: int|
            0 <= i < projected.len() && #[trigger] projected[i] is Some ==> r.contains(i),
    decreases projected.len(),
{
    if projected.len() == 0 {
        Seq::empty()
    } else {
        let fewer = projected.drop_last();
        let q = all_that_is_drawn_is_there(fewer);
        let n = projected.len() - 1;
        assert(forall|i: int| 0 <= i < n ==> #[trigger] projected[i] == fewer[i]);
        match projected.last() {
            Some(s) => {
                let r = q.push(n);
                assert forall|i: int|
                    0 <= i < projected.len() && #[trigger] projected[i] is Some implies r.contains(
                    i,
                ) by {
                    if i < n {
                        assert(fewer[i] is Some);
                        let a = choose|a: int| 0 <= a < q.len() && q[a] == i;
                        assert(r[a] == i);
                    } else {
                        assert(r[q.len() as int] == i);
                    }
                }
                r
            },
            None => {
                assert forall|i: int|
                    0 <= i < projected.len() && #[trigger] projected[i] is Some implies q.contains(
                    i,
                ) by {
                    assert(fewer[i] is Some);
                }
                q
            },
        }
    }
}

} // verus!
