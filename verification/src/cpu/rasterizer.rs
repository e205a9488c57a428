//! Rendering into a framebuffer.

use super::blur::lemma_earlier;
use super::forward::{
    at, composited, forward_pass, lemma_tile_of, pixel_outcome, tile_of, Light, Pixel, Rendered,
};
use super::splat::{
    by_depth, comparable, drawn, footprints, lemma_lists_name_splats, project_and_bin, Splat,
};
use super::tiles::{binned, lemma_cell_at, n_tiles, tiles_over};
use crate::math::{in_unit, unit};
use crate::num::single::{Single, ONE, ZERO};
use vstd::prelude::*;

verus! {

/// Four channels per pixel, linear: red, green, blue and coverage; row by row.
pub struct Framebuffer {
    pub width: usize,
    pub height: usize,
    pub data: Vec<Single>,
}

impl Framebuffer {
    /// There is room for each pixel.
    pub open spec fn wf(&self) -> bool {
        self.data.len() == self.width * self.height * 4
    }

    /// What stands at pixel `i`.
    pub open spec fn pixel(&self, i: int) -> [Single; 4] {
        [self.data[4 * i], self.data[4 * i + 1], self.data[4 * i + 2], self.data[4 * i + 3]]
    }

    /// A framebuffer of zeros.
    pub fn new(width: usize, height: usize) -> (r: Framebuffer)
        requires
            width * height * 4 <= usize::MAX,
        ensures
            r.wf(),
            r.width == width,
            r.height == height,
            forall|i: int| 0 <= i < r.data.len() ==> #[trigger] r.data[i] == (Single { bits: ZERO }),
    {
        assert(width * height <= usize::MAX) by (nonlinear_arith)
            requires
                width * height * 4 <= usize::MAX,
                0 <= width,
                0 <= height,
        ;
        let n = width * height * 4;
        let mut data: Vec<Single> = Vec::new();
        for i in 0..n
            invariant
                data.len() == i,
                forall|j: int| 0 <= j < i ==> #[trigger] data[j] == (Single { bits: ZERO }),
        {
            data.push(Single { bits: ZERO });
        }
        Framebuffer { width, height, data }
    }

    /// Eight bits per channel, of values held in the unit interval.  `color` encodes red,
    /// green and blue for display, `coverage` the fourth channel, which stays linear.
    pub fn to_u8_srgb<C: Fn(Single) -> u8, K: Fn(Single) -> u8>(&self, color: C, coverage: K) -> (r:
        Vec<u8>)
        requires
            forall|v: Single| call_requires(color, (v,)),
            forall|v: Single| call_requires(coverage, (v,)),
        ensures
            r.len() == self.data.len(),
            forall|i: int|
                0 <= i < r.len() ==> if i % 4 == 3 {
                    call_ensures(coverage, (in_unit(self.data[i]),), #[trigger] r[i])
                } else {
                    call_ensures(color, (in_unit(self.data[i]),), r[i])
                },
    {
        let mut r: Vec<u8> = Vec::new();
        for i in 0..self.data.len()
            invariant
                forall|v: Single| call_requires(color, (v,)),
                forall|v: Single| call_requires(coverage, (v,)),
                r.len() == i,
                forall|j: int|
                    0 <= j < i ==> if j % 4 == 3 {
                        call_ensures(coverage, (in_unit(self.data[j]),), #[trigger] r[j])
                    } else {
                        call_ensures(color, (in_unit(self.data[j]),), r[j])
                    },
        {
            let v = unit(self.data[i]);
            let b = if i % 4 == 3 {
                coverage(v)
            } else {
                color(v)
            };
            r.push(b);
        }
        r
    }
}

/// Makes a framebuffer of a rendered image: where no splat touches the tile everything is
/// zero, elsewhere `coverage` tells how much of the background is hidden.
pub fn frame<K: Fn(Single) -> Single>(
    coverage: K,
    image: &Rendered,
    lists: &[Vec<usize>],
    w: usize,
    h: usize,
) -> (r: Framebuffer)
    requires
        forall|t: Single| call_requires(coverage, (t,)),
        w + 16 <= usize::MAX,
        h + 16 <= usize::MAX,
        w * h * 4 <= usize::MAX,
        lists.len() == tiles_over(w as nat) * tiles_over(h as nat),
        image.wf(w * h),
    ensures
        r.wf(),
        r.width == w,
        r.height == h,
        forall|px: int, py: int|
            0 <= px < w && 0 <= py < h ==> {
                let i = #[trigger] at(w as int, px, py);
                &&& r.data[4 * i] == image.rgb[3 * i]
                &&& r.data[4 * i + 1] == image.rgb[3 * i + 1]
                &&& r.data[4 * i + 2] == image.rgb[3 * i + 2]
                &&& if lists[tile_of(w as int, px, py)].len() == 0 {
                    r.data[4 * i + 3] == (Single { bits: ZERO })
                } else {
                    call_ensures(coverage, (image.t[i],), r.data[4 * i + 3])
                }
            },
{
    let nx = n_tiles(w);
    let mut data: Vec<Single> = Vec::new();
    assert(0 * w == 0);
    for py in 0..h
        invariant
            forall|t: Single| call_requires(coverage, (t,)),
            w + 16 <= usize::MAX,
            h + 16 <= usize::MAX,
            w * h * 4 <= usize::MAX,
            lists.len() == tiles_over(w as nat) * tiles_over(h as nat),
            image.wf(w * h),
            nx == tiles_over(w as nat),
            data.len() == 4 * (py * w),
            forall|x: int, y: int|
                0 <= x < w && 0 <= y < py ==> {
                    let i = #[trigger] at(w as int, x, y);
                    &&& data[4 * i] == image.rgb[3 * i]
                    &&& data[4 * i + 1] == image.rgb[3 * i + 1]
                    &&& data[4 * i + 2] == image.rgb[3 * i + 2]
                    &&& if lists[tile_of(w as int, x, y)].len() == 0 {
                        data[4 * i + 3] == (Single { bits: ZERO })
                    } else {
                        call_ensures(coverage, (image.t[i],), data[4 * i + 3])
                    }
                },
    {
        for px in 0..w
            invariant
                forall|t: Single| call_requires(coverage, (t,)),
                w + 16 <= usize::MAX,
                h + 16 <= usize::MAX,
                w * h * 4 <= usize::MAX,
                lists.len() == tiles_over(w as nat) * tiles_over(h as nat),
                image.wf(w * h),
                nx == tiles_over(w as nat),
                py < h,
                data.len() == 4 * (py * w + px),
                forall|x: int, y: int|
                    0 <= x < w && 0 <= y && (y < py || (y == py && x < px)) ==> {
                        let i = #[trigger] at(w as int, x, y);
                        &&& data[4 * i] == image.rgb[3 * i]
                        &&& data[4 * i + 1] == image.rgb[3 * i + 1]
                        &&& data[4 * i + 2] == image.rgb[3 * i + 2]
                        &&& if lists[tile_of(w as int, x, y)].len() == 0 {
                            data[4 * i + 3] == (Single { bits: ZERO })
                        } else {
                            call_ensures(coverage, (image.t[i],), data[4 * i + 3])
                        }
                    },
        {
            let ghost before = data@;
            proof {
                lemma_cell_at(px as int, py as int, w as int, h as int);
                lemma_tile_of(px as int, py as int, w as int, h as int);
                lemma_row(py as int / 16, nx as int, px as int / 16);
            }
            let i = py * w + px;
            let k = py / 16 * nx + px / 16;
            data.push(image.rgb[i * 3]);
            data.push(image.rgb[i * 3 + 1]);
            data.push(image.rgb[i * 3 + 2]);
            let a = if lists[k].len() == 0 {
                Single { bits: ZERO }
            } else {
                coverage(image.t[i])
            };
            data.push(a);
            proof {
                assert forall|x: int, y: int|
                    0 <= x < w && 0 <= y && (y < py || (y == py && x < px + 1)) implies {
                    let i = #[trigger] at(w as int, x, y);
                    &&& data[4 * i] == image.rgb[3 * i]
                    &&& data[4 * i + 1] == image.rgb[3 * i + 1]
                    &&& data[4 * i + 2] == image.rgb[3 * i + 2]
                    &&& if lists[tile_of(w as int, x, y)].len() == 0 {
                        data[4 * i + 3] == (Single { bits: ZERO })
                    } else {
                        call_ensures(coverage, (image.t[i],), data[4 * i + 3])
                    }
                } by {
                    let j = at(w as int, x, y);
                    if y < py || x < px {
                        lemma_earlier(x, y, px as int, py as int, w as int);
                        assert(data@[4 * j] == before[4 * j]);
                        assert(data@[4 * j + 1] == before[4 * j + 1]);
                        assert(data@[4 * j + 2] == before[4 * j + 2]);
                        assert(data@[4 * j + 3] == before[4 * j + 3]);
                    } else {
                        assert(j == i);
                    }
                }
            }
        }
        assert((py + 1) * w == py * w + w) by (nonlinear_arith);
    }
    assert(4 * (h * w) == w * h * 4) by (nonlinear_arith);
    Framebuffer { width: w, height: h, data }
}

/// An index into a grid is computed without overflow.
proof fn lemma_row(y: int, nx: int, x: int)
    requires
        0 <= y,
        0 <= nx,
        0 <= x,
    ensures
        0 <= y * nx <= y * nx + x,
{
    assert(0 <= y * nx) by (nonlinear_arith)
        requires
            0 <= y,
            0 <= nx,
    ;
}

/// A framebuffer pixel can be what the splats of its tile make of the background `start`.
pub open spec fn frame_pixel<
    P: Fn(usize, usize, &Splat) -> Single,
    A: Fn(&Splat, Single) -> Single,
    B: Fn(&Splat, Single, Light) -> Light,
    K: Fn(Single) -> Single,
>(
    power: P,
    alpha: A,
    blend: B,
    coverage: K,
    start: Light,
    px: usize,
    py: usize,
    list: Seq<usize>,
    splats: Seq<Splat>,
    rgba: [Single; 4],
) -> bool {
    exists|fin: Pixel| #[trigger]
        composited(power, alpha, blend, start, px, py, list, splats, fin) && rgba[0]
            == fin.light.red && rgba[1] == fin.light.green && rgba[2] == fin.light.blue
            && call_ensures(coverage, (fin.light.t,), rgba[3])
}

/// Every pixel of the framebuffer is as [`frame_pixel`] says; where no splat touches the
/// tile it is zero.
pub open spec fn framed<
    P: Fn(usize, usize, &Splat) -> Single,
    A: Fn(&Splat, Single) -> Single,
    B: Fn(&Splat, Single, Light) -> Light,
    K: Fn(Single) -> Single,
>(
    power: P,
    alpha: A,
    blend: B,
    coverage: K,
    start: Light,
    lists: Seq<Vec<usize>>,
    splats: Seq<Splat>,
    out: &Framebuffer,
) -> bool {
    let w = out.width as int;
    let zero = Single { bits: ZERO };
    forall|px: usize, py: usize|
        px < w && py < out.height ==> {
            let list = lists[#[trigger] tile_of(w, px as int, py as int)]@;
            let rgba = out.pixel(at(w, px as int, py as int));
            if list.len() == 0 {
                rgba == [zero, zero, zero, zero]
            } else {
                frame_pixel(power, alpha, blend, coverage, start, px, py, list, splats, rgba)
            }
        }
}

/// Renders the projected Gaussians over the background `bg`.
pub fn rasterize<
    P: Fn(usize, usize, &Splat) -> Single + Copy,
    A: Fn(&Splat, Single) -> Single + Copy,
    B: Fn(&Splat, Single, Light) -> Light + Copy,
    K: Fn(Single) -> Single,
>(
    power: P,
    alpha: A,
    blend: B,
    coverage: K,
    projected: &[Option<Splat>],
    bg: [Single; 3],
    w: usize,
    h: usize,
) -> (r: Framebuffer)
    requires
        forall|x: usize, y: usize, s: &Splat| call_requires(power, (x, y, s)),
        forall|s: &Splat, p: Single| call_requires(alpha, (s, p)),
        forall|s: &Splat, a: Single, l: Light| call_requires(blend, (s, a, l)),
        forall|t: Single| call_requires(coverage, (t,)),
        w + 16 <= usize::MAX,
        h + 16 <= usize::MAX,
        w * h * 4 <= usize::MAX,
        tiles_over(w as nat) * tiles_over(h as nat) <= usize::MAX,
        comparable(drawn(projected@)),
    ensures
        r.wf(),
        r.width == w,
        r.height == h,
        exists|splats: Seq<Splat>, lists: Seq<Vec<usize>>|
            #![trigger
                by_depth(drawn(projected@), splats),
                binned(
                    footprints(splats),
                    tiles_over(w as nat) as int,
                    tiles_over(h as nat) as int,
                    lists,
                )]
            {
                &&& by_depth(drawn(projected@), splats)
                &&& binned(
                    footprints(splats),
                    tiles_over(w as nat) as int,
                    tiles_over(h as nat) as int,
                    lists,
                )
                &&& framed(
                    power,
                    alpha,
                    blend,
                    coverage,
                    (Light { red: bg[0], green: bg[1], blue: bg[2], t: Single { bits: ONE } }),
                    lists,
                    splats,
                    &r,
                )
            },
{
    let (splats, lists, _nx) = project_and_bin(projected, w, h);
    let start = Light { red: bg[0], green: bg[1], blue: bg[2], t: Single { bits: ONE } };
    let as_is = |l: Light| -> (c: [Single; 3])
        ensures
            c == [l.red, l.green, l.blue],
        { [l.red, l.green, l.blue] };
    proof {
        assert(splats@.len() == splats.len());
        lemma_lists_name_splats(splats@, w as int, h as int, lists@);
        assert(w * h * 3 <= usize::MAX) by (nonlinear_arith)
            requires
                w * h * 4 <= usize::MAX,
                0 <= w,
                0 <= h,
        ;
    }
    let image = forward_pass(power, alpha, blend, as_is, start, &splats, &lists, w, h);
    let out = frame(coverage, &image, &lists, w, h);
    proof {
        assert forall|px: usize, py: usize| px < w && py < out.height implies {
            let list = lists@[#[trigger] tile_of(w as int, px as int, py as int)]@;
            let rgba = out.pixel(at(w as int, px as int, py as int));
            let zero = Single { bits: ZERO };
            if list.len() == 0 {
                rgba == [zero, zero, zero, zero]
            } else {
                frame_pixel(power, alpha, blend, coverage, start, px, py, list, splats@, rgba)
            }
        } by {
            let k = tile_of(w as int, px as int, py as int);
            let i = at(w as int, px as int, py as int);
            let rgba = out.pixel(i);
            let zero = Single { bits: ZERO };
            let rgb = [image.rgb[3 * i], image.rgb[3 * i + 1], image.rgb[3 * i + 2]];
            if lists@[k]@.len() == 0 {
                assert(image.blank(i));
                assert(rgba =~= [zero, zero, zero, zero]);
            } else {
                assert(pixel_outcome(
                    power,
                    alpha,
                    blend,
                    as_is,
                    start,
                    px,
                    py,
                    lists@[k]@,
                    splats@,
                    rgb,
                    image.t[i],
                    image.last[i],
                ));
                let fin = choose|fin: Pixel| #[trigger]
                    composited(power, alpha, blend, start, px, py, lists@[k]@, splats@, fin)
                        && image.t[i] == fin.light.t && image.last[i] == fin.last && call_ensures(
                        as_is,
                        (fin.light,),
                        rgb,
                    );
                assert(rgb == [fin.light.red, fin.light.green, fin.light.blue]);
                assert(rgb[0] == fin.light.red && rgb[1] == fin.light.green && rgb[2]
                    == fin.light.blue);
            }
        }
    }
    out
}

/// The pattern of `0.0031308`: up to here the sRGB curve is straight.
pub const LINEAR_KNEE: u32 = 0x3B4D_2E1C;

/// From linear light to sRGB, by the straight part of the curve or the curved one.
pub fn linear_to_srgb<S: Fn(Single) -> Single, C: Fn(Single) -> Single>(
    straight: S,
    curved: C,
    x: Single,
) -> (r: Single)
    requires
        forall|v: Single| call_requires(straight, (v,)),
        forall|v: Single| call_requires(curved, (v,)),
    ensures
        if x.at_most(Single { bits: LINEAR_KNEE }) {
            call_ensures(straight, (x,), r)
        } else {
            call_ensures(curved, (x,), r)
        },
{
    if x.le(Single { bits: LINEAR_KNEE }) {
        straight(x)
    } else {
        curved(x)
    }
}

} // verus!
