//! Compositing splats that were projected by the card.
//!
//! The kernels are those of [`crate::cpu::forward`], and `extent`, the pixels that a splat
//! may reach.

use super::layout::SplatInfo2D;
use super::sort::{depth_order, depth_ordered, ordered_are_visible};
use crate::cpu::forward::{
    at, cap, capped, dark, no_light, shows, visible_alpha, Light, TRANSMITTANCE_STOP,
};
use crate::cpu::tiles::lemma_cell_at;
use crate::num::fold::{lemma_reaches_nothing, lemma_reaches_push, lemma_upto_push, reaches, upto};
use crate::num::single::Single;
use vstd::prelude::*;

verus! {

/// The pixels that a splat may reach: columns `x0..x1`, rows `y0..y1`, before they are cut at
/// the border.
#[derive(Clone, Copy, Debug)]
pub struct Extent {
    pub x0: usize,
    pub y0: usize,
    pub x1: i64,
    pub y1: i64,
}

/// Whether pixel `(px, py)` of the image is within the extent.
pub open spec fn within(e: Extent, px: int, py: int) -> bool {
    e.x0 <= px < e.x1 && e.y0 <= py < e.y1
}

/// `l1` can be what the splat `s` with the extent `e` makes of the light `l0` of pixel
/// `(px, py)`: it is blended where it reaches the pixel, shows there, and something still
/// shines through.
pub open spec fn lights<
    P: Fn(usize, usize, &SplatInfo2D) -> Single,
    A: Fn(&SplatInfo2D, Single) -> Single,
    B: Fn(&SplatInfo2D, Single, Light) -> Light,
>(
    power: P,
    alpha: A,
    blend: B,
    s: SplatInfo2D,
    e: Extent,
    px: usize,
    py: usize,
    l0: Light,
    l1: Light,
) -> bool {
    if !within(e, px as int, py as int) || l0.t.below(Single { bits: TRANSMITTANCE_STOP }) {
        l1 == l0
    } else {
        exists|a: Option<Single>| #[trigger]
            shows(power, alpha, px, py, s, a) && match a {
                None => l1 == l0,
                Some(q) => call_ensures(blend, (&s, capped(q), l0), l1),
            }
    }
}

/// One step of compositing pixel `(px, py)`: the next splat in the order.
pub open spec fn light_step<
    P: Fn(usize, usize, &SplatInfo2D) -> Single,
    A: Fn(&SplatInfo2D, Single) -> Single,
    B: Fn(&SplatInfo2D, Single, Light) -> Light,
    E: Fn(&SplatInfo2D) -> Extent,
>(
    power: P,
    alpha: A,
    blend: B,
    extent: E,
    splats: Seq<SplatInfo2D>,
    order: Seq<usize>,
    px: usize,
    py: usize,
) -> spec_fn(Light, int, Light) -> bool {
    |l0: Light, k: int, l1: Light|
        exists|e: Extent| #[trigger]
            call_ensures(extent, (&splats[order[k] as int],), e) && lights(
                power,
                alpha,
                blend,
                splats[order[k] as int],
                e,
                px,
                py,
                l0,
                l1,
            )
}

/// `l` can be the light of pixel `(px, py)` after the first `k` splats in the order.
pub open spec fn lit<
    P: Fn(usize, usize, &SplatInfo2D) -> Single,
    A: Fn(&SplatInfo2D, Single) -> Single,
    B: Fn(&SplatInfo2D, Single, Light) -> Light,
    E: Fn(&SplatInfo2D) -> Extent,
>(
    power: P,
    alpha: A,
    blend: B,
    extent: E,
    splats: Seq<SplatInfo2D>,
    order: Seq<usize>,
    k: nat,
    px: usize,
    py: usize,
    l: Light,
) -> bool {
    reaches(
        light_step(power, alpha, blend, extent, splats, order, px, py),
        upto(k),
        dark(),
        l,
    )
}

/// `x`, moved to between zero and `n`.
pub open spec fn cut(x: int, n: int) -> int {
    if x < 0 {
        0
    } else if x > n {
        n
    } else {
        x
    }
}

/// Blends one splat into all pixels that it reaches.
fn blend_splat<
    P: Fn(usize, usize, &SplatInfo2D) -> Single + Copy,
    A: Fn(&SplatInfo2D, Single) -> Single + Copy,
    B: Fn(&SplatInfo2D, Single, Light) -> Light + Copy,
>(
    power: P,
    alpha: A,
    blend: B,
    s: &SplatInfo2D,
    e: Extent,
    w: usize,
    h: usize,
    lights_of: &mut Vec<Light>,
)
    requires
        forall|x: usize, y: usize, s: &SplatInfo2D| call_requires(power, (x, y, s)),
        forall|s: &SplatInfo2D, p: Single| call_requires(alpha, (s, p)),
        forall|s: &SplatInfo2D, a: Single, l: Light| call_requires(blend, (s, a, l)),
        w <= i64::MAX,
        h <= i64::MAX,
        old(lights_of).len() == w * h,
    ensures
        final(lights_of).len() == w * h,
        forall|px: usize, py: usize|
            px < w && py < h ==> lights(
                power,
                alpha,
                blend,
                *s,
                e,
                px,
                py,
                old(lights_of)[#[trigger] at(w as int, px as int, py as int)],
                final(lights_of)[at(w as int, px as int, py as int)],
            ),
{
    let x1: usize = if e.x1 < 0 {
        0
    } else if e.x1 > w as i64 {
        w
    } else {
        e.x1 as usize
    };
    let y1: usize = if e.y1 < 0 {
        0
    } else if e.y1 > h as i64 {
        h
    } else {
        e.y1 as usize
    };
    let ghost olds = lights_of@;
    let mut py = e.y0;
    while py < y1
        invariant
            forall|x: usize, y: usize, s: &SplatInfo2D| call_requires(power, (x, y, s)),
            forall|s: &SplatInfo2D, p: Single| call_requires(alpha, (s, p)),
            forall|s: &SplatInfo2D, a: Single, l: Light| call_requires(blend, (s, a, l)),
            olds.len() == w * h,
            lights_of.len() == w * h,
            x1 <= w,
            y1 <= h,
            e.y0 <= py,
            x1 == cut(e.x1 as int, w as int),
            y1 == cut(e.y1 as int, h as int),
            forall|x: usize, y: usize|
                #![trigger at(w as int, x as int, y as int)]
                x < w && y < h ==> {
                    let i = at(w as int, x as int, y as int);
                    if within(e, x as int, y as int) && y < py {
                        lights(power, alpha, blend, *s, e, x, y, olds[i], lights_of[i])
                    } else {
                        lights_of[i] == olds[i]
                    }
                },
        decreases y1 - py,
    {
        let mut px = e.x0;
        while px < x1
            invariant
                forall|x: usize, y: usize, s: &SplatInfo2D| call_requires(power, (x, y, s)),
                forall|s: &SplatInfo2D, p: Single| call_requires(alpha, (s, p)),
                forall|s: &SplatInfo2D, a: Single, l: Light| call_requires(blend, (s, a, l)),
                olds.len() == w * h,
                lights_of.len() == w * h,
                x1 <= w,
                y1 <= h,
                e.y0 <= py < y1,
                e.x0 <= px,
                x1 == cut(e.x1 as int, w as int),
                y1 == cut(e.y1 as int, h as int),
                forall|x: usize, y: usize|
                    #![trigger at(w as int, x as int, y as int)]
                    x < w && y < h ==> {
                        let i = at(w as int, x as int, y as int);
                        if within(e, x as int, y as int) && (y < py || (y == py && x < px)) {
                            lights(power, alpha, blend, *s, e, x, y, olds[i], lights_of[i])
                        } else {
                            lights_of[i] == olds[i]
                        }
                    },
            decreases x1 - px,
        {
            let ghost before = lights_of@;
            proof {
                lemma_cell_at(px as int, py as int, w as int, h as int);
            }
            let i = py * w + px;
            assert(i == at(w as int, px as int, py as int));
            let l = lights_of[i];
            if !l.t.lt(Single { bits: TRANSMITTANCE_STOP }) {
                let a = visible_alpha(power, alpha, px, py, s);
                if let Some(q) = a {
                    let n = blend(s, cap(q), l);
                    lights_of[i] = n;
                }
            }
            assert(lights(power, alpha, blend, *s, e, px, py, l, lights_of[i as int]));
            proof {
                assert forall|x: usize, y: usize|
                    #![trigger at(w as int, x as int, y as int)]
                    x < w && y < h implies {
                    let j = at(w as int, x as int, y as int);
                    if within(e, x as int, y as int) && (y < py || (y == py && x < px + 1)) {
                        lights(power, alpha, blend, *s, e, x, y, olds[j], lights_of[j])
                    } else {
                        lights_of[j] == olds[j]
                    }
                } by {
                    lemma_cell_at(x as int, y as int, w as int, h as int);
                    let j = at(w as int, x as int, y as int);
                    if x != px || y != py {
                        assert(j != i);
                        assert(lights_of@[j] == before[j]);
                    }
                }
            }
            px += 1;
        }
        py += 1;
    }
}

/// `out` can be the image of the splats: each pixel is lit by the splats in their order, and
/// what still shines through is put on the background by `over`.
pub open spec fn composed<
    P: Fn(usize, usize, &SplatInfo2D) -> Single,
    A: Fn(&SplatInfo2D, Single) -> Single,
    B: Fn(&SplatInfo2D, Single, Light) -> Light,
    E: Fn(&SplatInfo2D) -> Extent,
    O: Fn(Light) -> [Single; 3],
>(
    power: P,
    alpha: A,
    blend: B,
    extent: E,
    over: O,
    splats: Seq<SplatInfo2D>,
    order: Seq<usize>,
    w: int,
    h: int,
    out: Seq<Single>,
) -> bool {
    &&& out.len() == w * h * 3
    &&& forall|px: usize, py: usize|
        px < w && py < h ==> {
            let i = #[trigger] at(w, px as int, py as int);
            shines(
                power,
                alpha,
                blend,
                extent,
                over,
                splats,
                order,
                px,
                py,
                [out[3 * i], out[3 * i + 1], out[3 * i + 2]],
            )
        }
}

/// `rgb` can be the colour of pixel `(px, py)`.
pub open spec fn shines<
    P: Fn(usize, usize, &SplatInfo2D) -> Single,
    A: Fn(&SplatInfo2D, Single) -> Single,
    B: Fn(&SplatInfo2D, Single, Light) -> Light,
    E: Fn(&SplatInfo2D) -> Extent,
    O: Fn(Light) -> [Single; 3],
>(
    power: P,
    alpha: A,
    blend: B,
    extent: E,
    over: O,
    splats: Seq<SplatInfo2D>,
    order: Seq<usize>,
    px: usize,
    py: usize,
    rgb: [Single; 3],
) -> bool {
    exists|l: Light| #[trigger]
        lit(power, alpha, blend, extent, splats, order, order.len(), px, py, l) && call_ensures(
            over,
            (l,),
            rgb,
        )
}

/// Composites projected splats into a `w` by `h` image of three channels.
pub fn composite<
    P: Fn(usize, usize, &SplatInfo2D) -> Single + Copy,
    A: Fn(&SplatInfo2D, Single) -> Single + Copy,
    B: Fn(&SplatInfo2D, Single, Light) -> Light + Copy,
    E: Fn(&SplatInfo2D) -> Extent,
    O: Fn(Light) -> [Single; 3],
>(
    power: P,
    alpha: A,
    blend: B,
    extent: E,
    over: O,
    splats: &[SplatInfo2D],
    w: usize,
    h: usize,
) -> (r: Vec<Single>)
    requires
        forall|x: usize, y: usize, s: &SplatInfo2D| call_requires(power, (x, y, s)),
        forall|s: &SplatInfo2D, p: Single| call_requires(alpha, (s, p)),
        forall|s: &SplatInfo2D, a: Single, l: Light| call_requires(blend, (s, a, l)),
        forall|s: &SplatInfo2D| call_requires(extent, (s,)),
        forall|l: Light| call_requires(over, (l,)),
        w <= i64::MAX,
        h <= i64::MAX,
        w * h * 3 <= usize::MAX,
    ensures
        exists|order: Seq<usize>| #[trigger]
            depth_ordered(splats@, order) && composed(
                power,
                alpha,
                blend,
                extent,
                over,
                splats@,
                order,
                w as int,
                h as int,
                r@,
            ),
{
    let order = depth_order(splats);
    assert(w * h <= usize::MAX) by (nonlinear_arith)
        requires
            w * h * 3 <= usize::MAX,
            0 <= w,
            0 <= h,
    ;
    let n = w * h;
    let mut pixels: Vec<Light> = Vec::new();
    for i in 0..n
        invariant
            pixels.len() == i,
            forall|j: int| 0 <= j < i ==> #[trigger] pixels[j] == dark(),
    {
        pixels.push(no_light());
    }
    proof {
        assert(upto(0) =~= Seq::<int>::empty());
        assert forall|px: usize, py: usize| px < w && py < h implies lit(
            power,
            alpha,
            blend,
            extent,
            splats@,
            order@,
            0,
            px,
            py,
            pixels[#[trigger] at(w as int, px as int, py as int)],
        ) by {
            lemma_cell_at(px as int, py as int, w as int, h as int);
            lemma_reaches_nothing(
                light_step(power, alpha, blend, extent, splats@, order@, px, py),
                dark(),
                dark(),
            );
        }
    }
    for k in 0..order.len()
        invariant
            forall|x: usize, y: usize, s: &SplatInfo2D| call_requires(power, (x, y, s)),
            forall|s: &SplatInfo2D, p: Single| call_requires(alpha, (s, p)),
            forall|s: &SplatInfo2D, a: Single, l: Light| call_requires(blend, (s, a, l)),
            forall|s: &SplatInfo2D| call_requires(extent, (s,)),
            w <= i64::MAX,
            h <= i64::MAX,
            depth_ordered(splats@, order@),
            pixels.len() == w * h,
            forall|px: usize, py: usize|
                px < w && py < h ==> lit(
                    power,
                    alpha,
                    blend,
                    extent,
                    splats@,
                    order@,
                    k as nat,
                    px,
                    py,
                    pixels[#[trigger] at(w as int, px as int, py as int)],
                ),
    {
        proof {
            assert(splats@.len() == splats.len());
            ordered_are_visible(splats@, order@, k as int);
        }
        let ghost before = pixels@;
        let s = &splats[order[k]];
        let e = extent(s);
        blend_splat(power, alpha, blend, s, e, w, h, &mut pixels);
        proof {
            assert forall|px: usize, py: usize| px < w && py < h implies lit(
                power,
                alpha,
                blend,
                extent,
                splats@,
                order@,
                (k + 1) as nat,
                px,
                py,
                pixels[#[trigger] at(w as int, px as int, py as int)],
            ) by {
                let i = at(w as int, px as int, py as int);
                let step = light_step(power, alpha, blend, extent, splats@, order@, px, py);
                assert(lights(power, alpha, blend, *s, e, px, py, before[i], pixels@[i]));
                assert(step(before[i], k as int, pixels@[i]));
                lemma_reaches_push(
                    step,
                    upto(k as nat),
                    dark(),
                    before[i],
                    k as int,
                    pixels@[i],
                );
                lemma_upto_push(k as nat);
            }
        }
    }
    let mut out: Vec<Single> = Vec::new();
    for i in 0..n
        invariant
            forall|l: Light| call_requires(over, (l,)),
            n * 3 <= usize::MAX,
            pixels.len() == n,
            out.len() == 3 * i,
            forall|j: int|
                #![trigger pixels[j]]
                0 <= j < i ==> call_ensures(
                    over,
                    (pixels[j],),
                    [out[3 * j], out[3 * j + 1], out[3 * j + 2]],
                ),
    {
        let ghost before = out@;
        let c = over(pixels[i]);
        out.push(c[0]);
        out.push(c[1]);
        out.push(c[2]);
        assert forall|j: int|
            #![trigger pixels[j]]
            0 <= j < i + 1 implies call_ensures(
            over,
            (pixels[j],),
            [out[3 * j], out[3 * j + 1], out[3 * j + 2]],
        ) by {
            let d = [out@[3 * j], out@[3 * j + 1], out@[3 * j + 2]];
            if j < i {
                let b = [before[3 * j], before[3 * j + 1], before[3 * j + 2]];
                assert(d =~= b);
            } else {
                assert(d =~= c);
            }
        }
    }
    proof {
        assert forall|px: usize, py: usize| px < w && py < h implies {
            let i = #[trigger] at(w as int, px as int, py as int);
            shines(
                power,
                alpha,
                blend,
                extent,
                over,
                splats@,
                order@,
                px,
                py,
                [out@[3 * i], out@[3 * i + 1], out@[3 * i + 2]],
            )
        } by {
            lemma_cell_at(px as int, py as int, w as int, h as int);
            let i = at(w as int, px as int, py as int);
            assert(lit(
                power,
                alpha,
                blend,
                extent,
                splats@,
                order@,
                order@.len(),
                px,
                py,
                pixels[i],
            ));
        }
        assert(composed(
            power,
            alpha,
            blend,
            extent,
            over,
            splats@,
            order@,
            w as int,
            h as int,
            out@,
        ));
    }
    out
}

} // verus!
