//! What the graphics card is given, what it gives back, and what is made of that.

use super::composite::{composed, lights, light_step, lit, shines, within, Extent};
use super::layout::{camera_words, gaussian_word, gaussian_words, splats_in, SplatInfo2D};
use super::sort::{depth_ordered, order_is_nearest_first, order_loses_nothing};
use crate::cpu::forward::{at, capped, dark, fades_to, shows, Light, MAX_ALPHA, TRANSMITTANCE_STOP};
use crate::cpu::splat::ALPHA_THRESHOLD;
use crate::math::camera::Camera;
use crate::math::Gaussian3D;
use crate::num::fold::{lemma_reaches_last, lemma_reaches_nothing, upto};
use crate::num::reading::{less, no_more};
use crate::num::single::{Single, ONE, ZERO};
use vstd::prelude::*;

verus! {

// ── layout ──────────────────────────────────────────────────────────────────────────────

/// A Gaussian has sixty words: the position, the opacity, the rotation, the scales, one word that
/// is not used, and the 48 coefficients.
pub proof fn gaussians_are_laid_out(gs: Seq<Gaussian3D<Single>>, i: int)
    requires
        0 <= i < gs.len(),
    ensures
        gaussian_words(gs).len() == 60 * gs.len(),
        forall|a: int|
            0 <= a < 3 ==> gaussian_words(gs)[60 * i + a] == (#[trigger] gs[i].position[a]).bits,
        gaussian_words(gs)[60 * i + 3] == gs[i].opacity_logit.bits,
        forall|a: int|
            0 <= a < 4 ==> gaussian_words(gs)[60 * i + 4 + a] == (#[trigger] gs[i].rotation[a]).bits,
        forall|a: int|
            0 <= a < 3 ==> gaussian_words(gs)[60 * i + 8 + a] == (
            #[trigger] gs[i].log_scale[a]).bits,
        gaussian_words(gs)[60 * i + 11] == 0,
        forall|a: int|
            0 <= a < 48 ==> gaussian_words(gs)[60 * i + 12 + a] == (
            #[trigger] gs[i].sh_coeffs[a]).bits,
{
    let w = gaussian_words(gs);
    assert forall|j: int| 0 <= j < 60 implies w[60 * i + j] == #[trigger] gaussian_word(gs[i], j) by {
        let k = 60 * i + j;
        assert(k / 60 == i && k % 60 == j);
        assert(0 <= k < 60 * gs.len());
    }
    assert(w[60 * i + 3] == gaussian_word(gs[i], 3));
    assert(w[60 * i + 11] == gaussian_word(gs[i], 11));
    assert forall|a: int| 0 <= a < 3 implies w[60 * i + a] == (#[trigger] gs[i].position[a]).bits by {
        assert(w[60 * i + a] == gaussian_word(gs[i], a));
    }
    assert forall|a: int| 0 <= a < 4 implies w[60 * i + 4 + a] == (
    #[trigger] gs[i].rotation[a]).bits by {
        assert(w[60 * i + (4 + a)] == gaussian_word(gs[i], 4 + a));
    }
    assert forall|a: int| 0 <= a < 3 implies w[60 * i + 8 + a] == (
    #[trigger] gs[i].log_scale[a]).bits by {
        assert(w[60 * i + (8 + a)] == gaussian_word(gs[i], 8 + a));
    }
    assert forall|a: int| 0 <= a < 48 implies w[60 * i + 12 + a] == (
    #[trigger] gs[i].sh_coeffs[a]).bits by {
        assert(w[60 * i + (12 + a)] == gaussian_word(gs[i], 12 + a));
    }
}

/// A camera has 44 words: both matrices, column by column, the centre, the size, the focal
/// lengths, the centre of the image, and three words that are not used.
pub proof fn cameras_are_laid_out(
    view: [[Single; 4]; 4],
    proj: [[Single; 4]; 4],
    c: Camera<Single>,
)
    ensures
        camera_words(view, proj, c).len() == 44,
        forall|row: int, col: int|
            0 <= row < 4 && 0 <= col < 4 ==> camera_words(view, proj, c)[4 * col + row] == (
            #[trigger] view[row][col]).bits,
        forall|row: int, col: int|
            0 <= row < 4 && 0 <= col < 4 ==> camera_words(view, proj, c)[16 + 4 * col + row] == (
            #[trigger] proj[row][col]).bits,
        camera_words(view, proj, c)[32] == c.c2w[0][3].bits,
        camera_words(view, proj, c)[33] == c.c2w[1][3].bits,
        camera_words(view, proj, c)[34] == c.c2w[2][3].bits,
        camera_words(view, proj, c)[35] == c.width,
        camera_words(view, proj, c)[36] == c.height,
        camera_words(view, proj, c)[37] == c.fx.bits,
        camera_words(view, proj, c)[38] == c.fy.bits,
        camera_words(view, proj, c)[39] == c.cx.bits,
        camera_words(view, proj, c)[40] == c.cy.bits,
        forall|j: int| 41 <= j < 44 ==> #[trigger] camera_words(view, proj, c)[j] == 0,
{
    let w = camera_words(view, proj, c);
    assert forall|row: int, col: int| 0 <= row < 4 && 0 <= col < 4 implies w[4 * col + row] == (
    #[trigger] view[row][col]).bits by {
        let j = 4 * col + row;
        assert(j % 4 == row && j / 4 == col);
    }
    assert forall|row: int, col: int| 0 <= row < 4 && 0 <= col < 4 implies w[16 + 4 * col + row] == (
    #[trigger] proj[row][col]).bits by {
        let j = 16 + 4 * col + row;
        assert((j - 16) % 4 == row && (j - 16) / 4 == col);
    }
}

/// A splat that comes back has ten words, in the order of its fields.
pub proof fn splats_are_laid_out(words: Seq<u32>, n: nat, i: int)
    requires
        0 <= i < n,
    ensures
        splats_in(words, n).len() == n,
        ({
            let s = splats_in(words, n)[i];
            &&& s.sx.bits == words[10 * i]
            &&& s.sy.bits == words[10 * i + 1]
            &&& s.conic_a.bits == words[10 * i + 2]
            &&& s.conic_b.bits == words[10 * i + 3]
            &&& s.conic_c.bits == words[10 * i + 4]
            &&& s.color_r.bits == words[10 * i + 5]
            &&& s.color_g.bits == words[10 * i + 6]
            &&& s.color_b.bits == words[10 * i + 7]
            &&& s.alpha.bits == words[10 * i + 8]
            &&& s.depth.bits == words[10 * i + 9]
        }),
{
}

// ── order ───────────────────────────────────────────────────────────────────────────────

/// Exactly the splats that are not too faint and lie in front of the camera are put in order,
/// each once, nearest first.
pub proof fn seen_splats_come_nearest_first(splats: Seq<SplatInfo2D>, r: Seq<usize>)
    requires
        depth_ordered(splats, r),
        splats.len() <= usize::MAX,
    ensures
        r.no_duplicates(),
        forall|i: usize| #[trigger]
            r.contains(i) <==> i < splats.len() && no_more(
                Single { bits: ALPHA_THRESHOLD },
                splats[i as int].alpha,
            ) && less(Single { bits: ZERO }, splats[i as int].depth),
        forall|a: int, b: int|
            0 <= a < b < r.len() ==> (#[trigger] splats[r[a] as int]).depth.value() <= (
            #[trigger] splats[r[b] as int]).depth.value(),
{
    order_loses_nothing(splats, r);
    assert forall|a: int, b: int| 0 <= a < b < r.len() implies (
    #[trigger] splats[r[a] as int]).depth.value() <= (#[trigger] splats[r[b] as int]).depth.value() by {
        order_is_nearest_first(splats, r, a, b);
    }
}

// ── light ───────────────────────────────────────────────────────────────────────────────

/// What the kernels find of a splat: its exponent and how strongly it shows at a pixel, and how
/// far it reaches.
pub struct Sight {
    pub power: spec_fn(usize, usize, SplatInfo2D) -> Single,
    pub alpha: spec_fn(SplatInfo2D, Single) -> Single,
    pub extent: spec_fn(SplatInfo2D) -> Extent,
}

/// The kernels give this.
pub open spec fn sees<
    P: Fn(usize, usize, &SplatInfo2D) -> Single,
    A: Fn(&SplatInfo2D, Single) -> Single,
    E: Fn(&SplatInfo2D) -> Extent,
>(power: P, alpha: A, extent: E, v: Sight) -> bool {
    &&& forall|x: usize, y: usize, s: &SplatInfo2D, r: Single| #[trigger]
        call_ensures(power, (x, y, s), r) ==> r == (v.power)(x, y, *s)
    &&& forall|s: &SplatInfo2D, p: Single, r: Single| #[trigger]
        call_ensures(alpha, (s, p), r) ==> r == (v.alpha)(*s, p)
    &&& forall|s: &SplatInfo2D, r: Extent| #[trigger]
        call_ensures(extent, (s,), r) ==> r == (v.extent)(*s)
}

/// How strongly a splat is blended at a pixel: not at all outside its reach, where its exponent is
/// positive or where it is fainter than the threshold.
pub open spec fn strength(v: Sight, px: usize, py: usize, s: SplatInfo2D) -> Option<Single> {
    let e = (v.extent)(s);
    let p = (v.power)(px, py, s);
    let most = Single { bits: MAX_ALPHA };
    let q = (v.alpha)(s, p);
    let a = if q.nan() || q.value() > most.value() {
        most
    } else {
        q
    };
    if !(e.x0 <= px && px < e.x1 && e.y0 <= py && py < e.y1) || less(Single { bits: ZERO }, p)
        || less(a, Single { bits: ALPHA_THRESHOLD }) {
        None
    } else {
        Some(a)
    }
}

/// What a splat of this strength makes of the light of those before it: it is blended into it,
/// unless it does not show, or hardly anything shines through.
pub open spec fn follows<B: Fn(&SplatInfo2D, Single, Light) -> Light>(
    blend: B,
    strength: Option<Single>,
    s: SplatInfo2D,
    l0: Light,
    l: Light,
) -> bool {
    if strength is None || less(l0.t, Single { bits: TRANSMITTANCE_STOP }) {
        l == l0
    } else {
        call_ensures(blend, (&s, strength->0, l0), l)
    }
}

/// `l` is the light of a pixel after the first `k` splats of the order, one after the other.
pub open spec fn gathers<B: Fn(&SplatInfo2D, Single, Light) -> Light>(
    blend: B,
    v: Sight,
    splats: Seq<SplatInfo2D>,
    order: Seq<usize>,
    k: nat,
    px: usize,
    py: usize,
    l: Light,
) -> bool
    decreases k,
{
    if k == 0 {
        &&& l.red == (Single { bits: ZERO })
        &&& l.green == (Single { bits: ZERO })
        &&& l.blue == (Single { bits: ZERO })
        &&& l.t == (Single { bits: ONE })
    } else {
        let s = splats[order[k - 1] as int];
        exists|l0: Light|
            gathers(blend, v, splats, order, (k - 1) as nat, px, py, l0) && #[trigger] follows(
                blend,
                strength(v, px, py, s),
                s,
                l0,
                l,
            )
    }
}

proof fn lemma_shown<
    P: Fn(usize, usize, &SplatInfo2D) -> Single,
    A: Fn(&SplatInfo2D, Single) -> Single,
    E: Fn(&SplatInfo2D) -> Extent,
>(
    power: P,
    alpha: A,
    extent: E,
    v: Sight,
    px: usize,
    py: usize,
    s: SplatInfo2D,
    a: Option<Single>,
)
    requires
        sees(power, alpha, extent, v),
        shows(power, alpha, px, py, s, a),
        within((v.extent)(s), px as int, py as int),
    ensures
        strength(v, px, py, s) == match a {
            Some(q) => Some(capped(q)),
            None => None,
        },
{
    let p = choose|p: Single| #[trigger]
        call_ensures(power, (px, py, &s), p) && if (Single { bits: ZERO }).below(p) {
            a is None
        } else {
            fades_to(alpha, s, p, a)
        };
    assert(p == (v.power)(px, py, s));
    assert(!(Single { bits: MAX_ALPHA }).nan());
}

proof fn lemma_gathers<
    P: Fn(usize, usize, &SplatInfo2D) -> Single,
    A: Fn(&SplatInfo2D, Single) -> Single,
    B: Fn(&SplatInfo2D, Single, Light) -> Light,
    E: Fn(&SplatInfo2D) -> Extent,
>(
    power: P,
    alpha: A,
    blend: B,
    extent: E,
    v: Sight,
    splats: Seq<SplatInfo2D>,
    order: Seq<usize>,
    k: nat,
    px: usize,
    py: usize,
    l: Light,
)
    requires
        sees(power, alpha, extent, v),
        lit(power, alpha, blend, extent, splats, order, k, px, py, l),
    ensures
        gathers(blend, v, splats, order, k, px, py, l),
    decreases k,
{
    let step = light_step(power, alpha, blend, extent, splats, order, px, py);
    if k == 0 {
        assert(upto(0) =~= Seq::<int>::empty());
        lemma_reaches_nothing(step, dark(), l);
    } else {
        let m = (k - 1) as nat;
        let l0 = lemma_reaches_last(step, upto(k), dark(), l);
        assert(upto(k).drop_last() =~= upto(m));
        assert(upto(k).last() == m);
        lemma_gathers(power, alpha, blend, extent, v, splats, order, m, px, py, l0);
        let s = splats[order[m as int] as int];
        let e = choose|e: Extent| #[trigger]
            call_ensures(extent, (&s,), e) && lights(power, alpha, blend, s, e, px, py, l0, l);
        assert(e == (v.extent)(s));
        if within(e, px as int, py as int) && !l0.t.below(Single { bits: TRANSMITTANCE_STOP }) {
            let a = choose|a: Option<Single>| #[trigger]
                shows(power, alpha, px, py, s, a) && match a {
                    None => l == l0,
                    Some(q) => call_ensures(blend, (&s, capped(q), l0), l),
                };
            lemma_shown(power, alpha, extent, v, px, py, s, a);
        }
        assert(follows(blend, strength(v, px, py, s), s, l0, l));
    }
}

/// Every pixel of the image, in row `py` and column `px`, holds the light of all splats of the
/// order, from the nearest to the farthest.
pub proof fn pixels_gather_all_splats<
    P: Fn(usize, usize, &SplatInfo2D) -> Single,
    A: Fn(&SplatInfo2D, Single) -> Single,
    B: Fn(&SplatInfo2D, Single, Light) -> Light,
    E: Fn(&SplatInfo2D) -> Extent,
    O: Fn(Light) -> [Single; 3],
>(
    power: P,
    alpha: A,
    blend: B,
    extent: E,
    over: O,
    v: Sight,
    splats: Seq<SplatInfo2D>,
    order: Seq<usize>,
    w: int,
    h: int,
    out: Seq<Single>,
    px: usize,
    py: usize,
)
    requires
        sees(power, alpha, extent, v),
        composed(power, alpha, blend, extent, over, splats, order, w, h, out),
        px < w,
        py < h,
    ensures
        out.len() == w * h * 3,
        exists|l: Light, c: [Single; 3]|
            {
                &&& #[trigger] gathers(blend, v, splats, order, order.len(), px, py, l)
                &&& #[trigger] call_ensures(over, (l,), c)
                &&& out[3 * (py * w + px)] == c[0]
                &&& out[3 * (py * w + px) + 1] == c[1]
                &&& out[3 * (py * w + px) + 2] == c[2]
            },
{
    let i = at(w, px as int, py as int);
    assert(i == py * w + px);
    let c = [out[3 * i], out[3 * i + 1], out[3 * i + 2]];
    assert(shines(power, alpha, blend, extent, over, splats, order, px, py, c));
    let l = choose|l: Light| #[trigger]
        lit(power, alpha, blend, extent, splats, order, order.len(), px, py, l) && call_ensures(
            over,
            (l,),
            c,
        );
    lemma_gathers(power, alpha, blend, extent, v, splats, order, order.len(), px, py, l);
    assert(call_ensures(over, (l,), c));
}

} // verus!
