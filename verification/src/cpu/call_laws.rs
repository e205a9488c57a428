//! What calls give, in terms of what they are handed.

use super::draw_laws::{clamped_to_unit, reached, seen, views, View3D};
use super::forward::Rendered;
use super::loss::{photometric_loss_grad, LossParts, Moments, Slope, Terms};
use super::loss_laws::loss_and_gradient_have_both_terms;
use super::project::{project, Screen};
use super::rasterizer::{frame, linear_to_srgb, Framebuffer};
use super::splat::Splat;
use super::tiles::{tile_bounds, TileBounds, TileRect};
use crate::math::Gaussian3D;
use crate::num::reading::{adds, no_more, reads_zero};
use crate::num::single::{lemma_rank_is_order, Single};
use crate::num::sum::{abs, total};
use vstd::prelude::*;

verus! {

// ── light ───────────────────────────────────────────────────────────────────────────────

/// Light is coded by the straight part of the curve up to the knee, and by the curved one above.
pub proof fn dark_light_is_coded_straight<S: Fn(Single) -> Single, C: Fn(Single) -> Single>(
    straight: S,
    curved: C,
    x: Single,
    r: Single,
)
    requires
        call_ensures(linear_to_srgb::<S, C>, (straight, curved, x), r),
    ensures
        no_more(x, Single { bits: 0x3B4D_2E1C }) ==> call_ensures(straight, (x,), r),
        !no_more(x, Single { bits: 0x3B4D_2E1C }) ==> call_ensures(curved, (x,), r),
{
}

/// Every pixel of a framebuffer is coded: its three colours as such, and its coverage by itself,
/// each moved into the unit interval before.
pub proof fn pixels_are_coded<C: Fn(Single) -> u8, K: Fn(Single) -> u8>(
    fb: Framebuffer,
    color: C,
    coverage: K,
    r: Vec<u8>,
    p: int,
    ch: int,
)
    requires
        call_ensures(Framebuffer::to_u8_srgb::<C, K>, (&fb, color, coverage), r),
        0 <= p,
        4 * p + 3 < fb.data.len(),
        0 <= ch < 4,
    ensures
        r.len() == fb.data.len(),
        exists|v: Single| #[trigger]
            clamped_to_unit(fb.data[4 * p + ch], v) && if ch < 3 {
                call_ensures(color, (v,), r[4 * p + ch])
            } else {
                call_ensures(coverage, (v,), r[4 * p + ch])
            },
{
    lemma_rank_is_order(Single { bits: 0 }, Single { bits: 0x3F80_0000 });
    let i = 4 * p + ch;
    assert(i % 4 == ch);
    let v = crate::math::in_unit(fb.data[i]);
    assert(r[i] == r[i]);
    assert(clamped_to_unit(fb.data[i], v));
}

/// A framebuffer holds the colours of the rendered image, and the coverage of what shines through
/// each pixel; where no splat touches the tile of a pixel, it is not covered.
pub proof fn frames_hold_the_image<K: Fn(Single) -> Single>(
    coverage: K,
    image: Rendered,
    lists: &[Vec<usize>],
    w: usize,
    h: usize,
    r: Framebuffer,
    px: int,
    py: int,
)
    requires
        call_ensures(frame::<K>, (coverage, &image, lists, w, h), r),
        0 <= px < w,
        0 <= py < h,
    ensures
        r.width == w,
        r.height == h,
        ({
            let i = py * w + px;
            &&& r.data[4 * i] == image.rgb[3 * i]
            &&& r.data[4 * i + 1] == image.rgb[3 * i + 1]
            &&& r.data[4 * i + 2] == image.rgb[3 * i + 2]
            &&& lists[(py / 16) * ((w + 15) / 16) + px / 16].len() == 0 ==> r.data[4 * i + 3].bits
                == 0
            &&& lists[(py / 16) * ((w + 15) / 16) + px / 16].len() > 0 ==> call_ensures(
                coverage,
                (image.t[i],),
                r.data[4 * i + 3],
            )
        }),
{
    assert(super::forward::at(w as int, px, py) == py * w + px);
    assert(super::forward::tile_of(w as int, px, py) == (py / 16) * ((w + 15) / 16) + px / 16);
}

// ── tiles ───────────────────────────────────────────────────────────────────────────────

/// A tile holds the pixels of its place in the grid, 16 by 16 of them, as far as they are in the
/// image.
pub proof fn tiles_hold_their_pixels(k: usize, w: usize, h: usize, r: TileBounds, px: int, py: int)
    requires
        call_ensures(tile_bounds, (k, w, h), r),
        0 < w,
        0 < h,
        k < ((w + 15) / 16) * ((h + 15) / 16),
        0 <= px,
        0 <= py,
    ensures
        r.px0 <= px < r.px1 && r.py0 <= py < r.py1 <==> px < w && py < h && px / 16 == k as int % ((w
            + 15) / 16) && py / 16 == k as int / ((w + 15) / 16),
{
    let nx = (w + 15) / 16;
    let ny = (h + 15) / 16;
    super::tiles::lemma_cell(k as int, nx, ny);
}

/// The tiles over a box of pixels are those that hold one of them.
pub proof fn boxes_touch_their_tiles(
    x0: i32,
    y0: i32,
    x1: i32,
    y1: i32,
    r: TileRect,
    tx: int,
    ty: int,
)
    requires
        call_ensures(TileRect::over, (x0, y0, x1, y1), r),
        0 <= x0 < x1,
        0 <= y0 < y1,
    ensures
        r.x0 <= tx < r.x1 <==> 16 * tx < x1 && x0 < 16 * tx + 16,
        r.y0 <= ty < r.y1 <==> 16 * ty < y1 && y0 < 16 * ty + 16,
{
}

// ── projection ──────────────────────────────────────────────────────────────────────────

/// A Gaussian is projected to a splat exactly if it is seen and reaches a pixel of the screen; the
/// splat shows that Gaussian, where and as it is seen.
pub proof fn projections_show_what_is_seen<
    O: Fn(&Gaussian3D<Single>) -> Single,
    T: Fn(&Gaussian3D<Single>) -> [Single; 3],
    S: Fn([Single; 3]) -> (Single, Single),
    P: Fn(&Gaussian3D<Single>) -> [Single; 3],
    D: Fn([Single; 3]) -> Single,
    R: Fn((Single, Single), [Single; 3]) -> ((i32, i32), (i32, i32)),
    V: Fn([Single; 3], Single) -> [Single; 3],
    W: Fn(&Gaussian3D<Single>) -> [Single; 16],
    M: Fn(Single, Single, Single) -> Single + Copy,
    L: Fn(Single) -> Single + Copy,
>(
    opacity: O,
    to_camera: T,
    to_screen: S,
    spread: P,
    det_of: D,
    reach: R,
    conic_of: V,
    basis: W,
    mac: M,
    lift: L,
    v: View3D,
    g: Gaussian3D<Single>,
    gi: usize,
    screen: Screen,
    r: Option<Splat>,
)
    requires
        views(opacity, to_camera, to_screen, spread, det_of, reach, v),
        screen.width <= i32::MAX,
        screen.height <= i32::MAX,
        call_ensures(
            project::<O, T, S, P, D, R, V, W, M, L>,
            (
                opacity,
                to_camera,
                to_screen,
                spread,
                det_of,
                reach,
                conic_of,
                basis,
                mac,
                lift,
                &g,
                gi,
                &screen,
            ),
            r,
        ),
    ensures
        r is Some <==> seen(v, g, screen) && exists|px: int, py: int| #[trigger]
            reached(v, g, screen, px, py),
        r matches Some(s) ==> {
            &&& s.gi == gi
            &&& s.pcam == (v.camera)(g)
            &&& s.depth == (v.camera)(g)[2]
            &&& (s.sx, s.sy) == (v.screen)((v.camera)(g))
            &&& s.opacity == (v.opacity)(g)
            &&& s.cov2d == (v.spread)(g)
            &&& call_ensures(conic_of, (s.cov2d, (v.det)(s.cov2d)), s.conic)
            &&& call_ensures(basis, (&g,), s.basis)
        },
{
    super::draw_laws::what_is_seen_is_drawn(
        opacity,
        to_camera,
        to_screen,
        spread,
        det_of,
        reach,
        conic_of,
        basis,
        mac,
        lift,
        v,
        g,
        gi,
        screen,
        r,
    );
}

// ── loss ────────────────────────────────────────────────────────────────────────────────

/// The loss weighs the absolute errors of all samples and the similarities of the three channels,
/// and the gradient of a sample has a term of either: that of its own error, and `c` times that
/// of the similarity of its channel at its pixel.
pub proof fn losses_have_both_terms<
    M: Fn(Single, Single, Single) -> Single + Copy,
    T: Fn(Single, Single) -> Single + Copy,
    E: Fn(Moments) -> Terms + Copy,
    S: Fn(Single, Single) -> Single + Copy,
    D: Fn(Slope) -> Single + Copy,
    F: Fn(Single, Single, Single) -> Single,
    G: Fn(Single, Single) -> Single,
    C: Fn(Single, Single) -> Single,
    O: Fn(Single, Single) -> Single,
>(
    mac: M,
    times: T,
    terms: E,
    plus: S,
    slope: D,
    miss: F,
    sign: G,
    correct: C,
    both: O,
    val: spec_fn(Single) -> real,
    sg: spec_fn(real, real) -> real,
    c: real,
    kernel: &[Single],
    rendered: &[Single],
    target: &[Single],
    w: usize,
    h: usize,
    r: (Single, Vec<Single>),
) -> (q: LossParts)
    requires
        reads_zero(val),
        adds(plus, val),
        forall|a: Single, x: Single, t: Single, b: Single| #[trigger]
            call_ensures(miss, (a, x, t), b) ==> val(b) == val(a) + abs(val(x) - val(t)),
        forall|x: Single, t: Single, d: Single| #[trigger]
            call_ensures(sign, (x, t), d) ==> val(d) == sg(val(x), val(t)),
        forall|a: Single, s: Single, d: Single| #[trigger]
            call_ensures(correct, (a, s), d) ==> val(d) == val(a) + c * val(s),
        call_ensures(
            photometric_loss_grad::<M, T, E, S, D, F, G, C, O>,
            (
                mac,
                times,
                terms,
                plus,
                slope,
                miss,
                sign,
                correct,
                both,
                kernel,
                rendered,
                target,
                w,
                h,
            ),
            r,
        ),
    ensures
        val(q.l1) == total(
            (3 * (w * h)) as nat,
            |e: int| abs(val(rendered@[e]) - val(target@[4 * (e / 3) + e % 3])),
        ),
        val(q.ssim) == val(q.sums[0]) + val(q.sums[1]) + val(q.sums[2]),
        call_ensures(both, (q.l1, q.ssim), r.0),
        r.1.len() == 3 * (w * h),
        forall|p: int, ch: int|
            #![trigger r.1@[3 * p + ch]]
            0 <= p < w * h && 0 <= ch < 3 ==> val(r.1@[3 * p + ch]) == sg(
                val(rendered@[3 * p + ch]),
                val(target@[4 * p + ch]),
            ) + c * val(q.grads[ch][p]),
        forall|ch: int|
            0 <= ch < 3 ==> super::loss::ssim_outcome(
                mac,
                times,
                terms,
                plus,
                slope,
                kernel@,
                w as int,
                h as int,
                super::loss_laws::samples(rendered@, 3, ch, (w * h) as nat),
                super::loss_laws::samples(target@, 4, ch, (w * h) as nat),
                #[trigger] q.sums[ch],
                q.grads[ch],
            ),
{
    loss_and_gradient_have_both_terms(
        mac,
        times,
        terms,
        plus,
        slope,
        miss,
        sign,
        correct,
        both,
        val,
        sg,
        c,
        kernel@,
        w as int,
        h as int,
        rendered@,
        target@,
        r.0,
        r.1@,
    )
}

} // verus!
