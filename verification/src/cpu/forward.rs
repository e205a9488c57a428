//! Compositing, front to back.
//!
//! The kernels are handed in: `power` is the exponent of a splat at a pixel, `alpha` what of
//! the splat's opacity that exponent leaves, `blend` adds a splat's light and dims what
//! shines through, and `over` puts the light on the background.  Which splats are blended,
//! how opaque they may be, in which order, and where compositing stops is decided here.

use super::splat::{Splat, ALPHA_THRESHOLD};
use super::tiles::{
    bounds_of, lemma_cell_at, pixel_has_one_tile, tile_bounds, tiles_over, TileBounds,
};
use crate::math::{min_of, smaller};
use crate::num::fold::{lemma_reaches_nothing, lemma_reaches_push, lemma_upto_push, reaches, upto};
use crate::num::single::{Single, ONE, ZERO};
use vstd::prelude::*;

verus! {

/// The pattern of `1e-4`: when less shines through, a pixel is done.
pub const TRANSMITTANCE_STOP: u32 = 0x38D1_B717;

/// The pattern of `0.99`: no splat hides more of what is behind it.
pub const MAX_ALPHA: u32 = 0x3F7D_70A4;

/// Light that a pixel has gathered, and the share of what is behind that shines through.
#[derive(Clone, Copy, Debug, PartialEq, Eq, Structural)]
pub struct Light {
    pub red: Single,
    pub green: Single,
    pub blue: Single,
    pub t: Single,
}

/// A pixel while it is composited.
#[derive(Clone, Copy, Debug, PartialEq, Eq, Structural)]
pub struct Pixel {
    pub light: Light,
    /// The last splat of the tile's list that was blended.
    pub last: Option<usize>,
    pub done: bool,
}

/// No light yet, and all of what is behind shines through.
pub open spec fn dark() -> Light {
    let zero = Single { bits: ZERO };
    Light { red: zero, green: zero, blue: zero, t: Single { bits: ONE } }
}

pub fn no_light() -> (r: Light)
    ensures
        r == dark(),
{
    let zero = Single { bits: ZERO };
    Light { red: zero, green: zero, blue: zero, t: Single { bits: ONE } }
}

/// A pixel before the first splat, with the light `start`.
pub open spec fn untouched(start: Light) -> Pixel {
    Pixel { light: start, last: None, done: false }
}

/// How strongly a splat is blended that shows by `a`.
pub open spec fn capped(a: Single) -> Single {
    smaller(a, Single { bits: MAX_ALPHA })
}

/// `a` can be how strongly a splat with the exponent `p` shows, before it is capped: not at
/// all where it is fainter than the threshold.
pub open spec fn fades_to<X, A: Fn(&X, Single) -> Single>(
    alpha: A,
    s: X,
    p: Single,
    a: Option<Single>,
) -> bool {
    exists|q: Single| #[trigger]
        call_ensures(alpha, (&s, p), q) && a == if capped(q).below(
            Single { bits: ALPHA_THRESHOLD },
        ) {
            None
        } else {
            Some(q)
        }
}

/// `a` can be how strongly the splat `s` shows at pixel `(px, py)`: not at all where its
/// exponent is positive.
pub open spec fn shows<X, P: Fn(usize, usize, &X) -> Single, A: Fn(&X, Single) -> Single>(
    power: P,
    alpha: A,
    px: usize,
    py: usize,
    s: X,
    a: Option<Single>,
) -> bool {
    exists|p: Single| #[trigger]
        call_ensures(power, (px, py, &s), p) && if (Single { bits: ZERO }).below(p) {
            a is None
        } else {
            fades_to(alpha, s, p, a)
        }
}

/// The pixel `s1` can be what splat `i` of the tile's list, which shows by `a`, makes of `s0`.
pub open spec fn blends<B: Fn(&Splat, Single, Light) -> Light>(
    blend: B,
    s: Splat,
    i: int,
    a: Option<Single>,
    s0: Pixel,
    s1: Pixel,
) -> bool {
    match a {
        None => s1 == s0,
        Some(q) => exists|l: Light| #[trigger]
            call_ensures(blend, (&s, capped(q), s0.light), l) && s1 == (Pixel {
                light: l,
                last: Some(i as usize),
                done: l.t.below(Single { bits: TRANSMITTANCE_STOP }),
            }),
    }
}

/// One step of compositing a pixel: the next splat of the tile's list.  A pixel that is done
/// stays as it is.
pub open spec fn pixel_step<
    P: Fn(usize, usize, &Splat) -> Single,
    A: Fn(&Splat, Single) -> Single,
    B: Fn(&Splat, Single, Light) -> Light,
>(
    power: P,
    alpha: A,
    blend: B,
    px: usize,
    py: usize,
    list: Seq<usize>,
    splats: Seq<Splat>,
) -> spec_fn(Pixel, int, Pixel) -> bool {
    |s0: Pixel, i: int, s1: Pixel|
        {
            if s0.done {
                s1 == s0
            } else {
                exists|a: Option<Single>| #[trigger]
                    shows(power, alpha, px, py, splats[list[i] as int], a) && blends(
                        blend,
                        splats[list[i] as int],
                        i,
                        a,
                        s0,
                        s1,
                    )
            }
        }
}

/// `fin` can be the pixel `(px, py)` after all splats of the tile's list.
pub open spec fn composited<
    P: Fn(usize, usize, &Splat) -> Single,
    A: Fn(&Splat, Single) -> Single,
    B: Fn(&Splat, Single, Light) -> Light,
>(
    power: P,
    alpha: A,
    blend: B,
    start: Light,
    px: usize,
    py: usize,
    list: Seq<usize>,
    splats: Seq<Splat>,
    fin: Pixel,
) -> bool {
    reaches(
        pixel_step(power, alpha, blend, px, py, list, splats),
        upto(list.len()),
        untouched(start),
        fin,
    )
}

/// Every entry of the list names a splat.
pub open spec fn names_splats(list: Seq<usize>, n: nat) -> bool {
    forall|i: int| 0 <= i < list.len() ==> #[trigger] list[i] < n
}

/// How strongly a splat is blended that shows by `a`.
pub fn cap(a: Single) -> (r: Single)
    ensures
        r == capped(a),
{
    min_of(a, Single { bits: MAX_ALPHA })
}

/// How strongly a splat shows at a pixel, before it is capped.
pub fn visible_alpha<X, P: Fn(usize, usize, &X) -> Single, A: Fn(&X, Single) -> Single>(
    power: P,
    alpha: A,
    px: usize,
    py: usize,
    s: &X,
) -> (r: Option<Single>)
    requires
        forall|x: usize, y: usize, s: &X| call_requires(power, (x, y, s)),
        forall|s: &X, p: Single| call_requires(alpha, (s, p)),
    ensures
        shows(power, alpha, px, py, *s, r),
{
    let p = power(px, py, s);
    if (Single { bits: ZERO }).lt(p) {
        return None;
    }
    let a = alpha(s, p);
    let r = if cap(a).lt(Single { bits: ALPHA_THRESHOLD }) {
        None
    } else {
        Some(a)
    };
    assert(fades_to(alpha, *s, p, r));
    r
}

/// Composites the pixel `(px, py)`, over the light `start`.
pub fn composite_pixel<
    P: Fn(usize, usize, &Splat) -> Single + Copy,
    A: Fn(&Splat, Single) -> Single + Copy,
    B: Fn(&Splat, Single, Light) -> Light + Copy,
>(
    power: P,
    alpha: A,
    blend: B,
    start: Light,
    px: usize,
    py: usize,
    list: &[usize],
    splats: &[Splat],
) -> (r: Pixel)
    requires
        forall|x: usize, y: usize, s: &Splat| call_requires(power, (x, y, s)),
        forall|s: &Splat, p: Single| call_requires(alpha, (s, p)),
        forall|s: &Splat, a: Single, l: Light| call_requires(blend, (s, a, l)),
        names_splats(list@, splats@.len()),
    ensures
        composited(power, alpha, blend, start, px, py, list@, splats@, r),
{
    let ghost step = pixel_step(power, alpha, blend, px, py, list@, splats@);
    let mut pixel = Pixel { light: start, last: None, done: false };
    let mut i: usize = 0;
    proof {
        lemma_reaches_nothing(step, untouched(start), pixel);
        assert(upto(0) =~= Seq::<int>::empty());
    }
    while i < list.len() && !pixel.done
        invariant
            i <= list.len(),
            forall|x: usize, y: usize, s: &Splat| call_requires(power, (x, y, s)),
            forall|s: &Splat, p: Single| call_requires(alpha, (s, p)),
            forall|s: &Splat, a: Single, l: Light| call_requires(blend, (s, a, l)),
            names_splats(list@, splats@.len()),
            step == pixel_step(power, alpha, blend, px, py, list@, splats@),
            reaches(step, upto(i as nat), untouched(start), pixel),
        decreases list.len() - i,
    {
        let ghost s0 = pixel;
        let s = &splats[list[i]];
        let a = visible_alpha(power, alpha, px, py, s);
        if let Some(q) = a {
            let light = blend(s, cap(q), pixel.light);
            let done = light.t.lt(Single { bits: TRANSMITTANCE_STOP });
            pixel = Pixel { light, last: Some(i), done };
        }
        proof {
            assert(blends(blend, *s, i as int, a, s0, pixel));
            lemma_reaches_push(step, upto(i as nat), untouched(start), s0, i as int, pixel);
            lemma_upto_push(i as nat);
        }
        i += 1;
    }
    proof {
        if i < list.len() {
            lemma_done_stays(step, upto(i as nat).len(), list@.len(), untouched(start), pixel);
        }
    }
    pixel
}

/// Once a pixel is done, the remaining splats leave it alone.
proof fn lemma_done_stays(
    step: spec_fn(Pixel, int, Pixel) -> bool,
    i: nat,
    n: nat,
    start: Pixel,
    pixel: Pixel,
)
    requires
        i <= n,
        reaches(step, upto(i), start, pixel),
        forall|k: int| #[trigger] step(pixel, k, pixel),
    ensures
        reaches(step, upto(n), start, pixel),
    decreases n - i,
{
    if i < n {
        assert(step(pixel, i as int, pixel));
        lemma_reaches_push(step, upto(i), start, pixel, i as int, pixel);
        lemma_upto_push(i);
        lemma_done_stays(step, i + 1, n, start, pixel);
    }
}

// ── tiles ───────────────────────────────────────────────────────────────────────────────

/// The pixels of one tile, row by row.
pub struct TileForward {
    pub bounds: TileBounds,
    pub rgb: Vec<[Single; 3]>,
    pub t: Vec<Single>,
    pub last: Vec<Option<usize>>,
}

/// Where pixel `(px, py)` stands among the pixels of its tile.
pub open spec fn local(b: TileBounds, px: int, py: int) -> int {
    (py - b.py0) * b.width() + (px - b.px0)
}

impl TileForward {
    /// There is an entry for each pixel.
    pub open spec fn wf(&self) -> bool {
        &&& self.bounds.px0 <= self.bounds.px1
        &&& self.bounds.py0 <= self.bounds.py1
        &&& self.rgb.len() == self.bounds.width() * self.bounds.height()
        &&& self.t.len() == self.rgb.len()
        &&& self.last.len() == self.rgb.len()
    }
}

/// A colour, what shines through, and the last blended splat can be the outcome at pixel
/// `(px, py)`.
pub open spec fn pixel_outcome<
    P: Fn(usize, usize, &Splat) -> Single,
    A: Fn(&Splat, Single) -> Single,
    B: Fn(&Splat, Single, Light) -> Light,
    O: Fn(Light) -> [Single; 3],
>(
    power: P,
    alpha: A,
    blend: B,
    over: O,
    start: Light,
    px: usize,
    py: usize,
    list: Seq<usize>,
    splats: Seq<Splat>,
    rgb: [Single; 3],
    t: Single,
    last: Option<usize>,
) -> bool {
    exists|fin: Pixel| #[trigger]
        composited(power, alpha, blend, start, px, py, list, splats, fin) && t == fin.light.t && last
            == fin.last && call_ensures(over, (fin.light,), rgb)
}

/// Each pixel of the tile holds its outcome.
pub open spec fn tile_outcome<
    P: Fn(usize, usize, &Splat) -> Single,
    A: Fn(&Splat, Single) -> Single,
    B: Fn(&Splat, Single, Light) -> Light,
    O: Fn(Light) -> [Single; 3],
>(
    power: P,
    alpha: A,
    blend: B,
    over: O,
    start: Light,
    list: Seq<usize>,
    splats: Seq<Splat>,
    tile: TileForward,
) -> bool {
    forall|px: usize, py: usize|
        tile.bounds.holds(px as int, py as int) ==> pixel_outcome(
            power,
            alpha,
            blend,
            over,
            start,
            px,
            py,
            list,
            splats,
            tile.rgb[#[trigger] local(tile.bounds, px as int, py as int)],
            tile.t[local(tile.bounds, px as int, py as int)],
            tile.last[local(tile.bounds, px as int, py as int)],
        )
}

/// The entries before row `y`, column `x` are the pixels above and to the left.
pub proof fn lemma_local(b: TileBounds, px: int, py: int, x: int, y: int)
    requires
        b.holds(px, py),
        b.px0 <= x <= b.px1,
        b.py0 <= y <= b.py1,
        py < y || (py == y && px < x),
    ensures
        0 <= local(b, px, py) < (y - b.py0) * b.width() + (x - b.px0),
{
    let w = b.width();
    assert(0 <= (py - b.py0) * w) by (nonlinear_arith)
        requires
            0 <= py - b.py0,
            0 <= w,
    ;
    if py < y {
        assert((py - b.py0) * w + w <= (y - b.py0) * w) by (nonlinear_arith)
            requires
                py + 1 <= y,
                0 <= w,
        ;
    }
}

/// Every pixel of a tile has its entry.
pub proof fn lemma_local_in_range(b: TileBounds, px: int, py: int)
    requires
        b.holds(px, py),
    ensures
        0 <= local(b, px, py) < b.width() * b.height(),
{
    lemma_local(b, px, py, b.px0 as int, b.py1 as int);
    assert((b.py1 - b.py0) * b.width() == b.width() * b.height()) by (nonlinear_arith)
        requires
            b.height() == b.py1 - b.py0,
    ;
}

/// Composites the pixels of tile `k` of a `w` by `h` image; a tile that no splat touches is
/// left out.
pub fn composite_tile<
    P: Fn(usize, usize, &Splat) -> Single + Copy,
    A: Fn(&Splat, Single) -> Single + Copy,
    B: Fn(&Splat, Single, Light) -> Light + Copy,
    O: Fn(Light) -> [Single; 3] + Copy,
>(
    power: P,
    alpha: A,
    blend: B,
    over: O,
    start: Light,
    k: usize,
    w: usize,
    h: usize,
    list: &[usize],
    splats: &[Splat],
) -> (r: Option<TileForward>)
    requires
        forall|x: usize, y: usize, s: &Splat| call_requires(power, (x, y, s)),
        forall|s: &Splat, p: Single| call_requires(alpha, (s, p)),
        forall|s: &Splat, a: Single, l: Light| call_requires(blend, (s, a, l)),
        forall|l: Light| call_requires(over, (l,)),
        w + 16 <= usize::MAX,
        h + 16 <= usize::MAX,
        k < tiles_over(w as nat) * tiles_over(h as nat),
        names_splats(list@, splats@.len()),
    ensures
        r is None <==> list.len() == 0,
        r matches Some(tile) ==> {
            &&& tile.wf()
            &&& tile.bounds == bounds_of(k as int, w as int, h as int)
            &&& tile_outcome(power, alpha, blend, over, start, list@, splats@, tile)
        },
{
    if list.len() == 0 {
        return None;
    }
    let b = tile_bounds(k, w, h);
    let mut tile = TileForward { bounds: b, rgb: Vec::new(), t: Vec::new(), last: Vec::new() };
    assert((b.py0 - b.py0) * b.width() == 0) by (nonlinear_arith)
        requires
            b.py0 - b.py0 == 0,
    ;
    for py in b.py0..b.py1
        invariant
            forall|x: usize, y: usize, s: &Splat| call_requires(power, (x, y, s)),
            forall|s: &Splat, p: Single| call_requires(alpha, (s, p)),
            forall|s: &Splat, a: Single, l: Light| call_requires(blend, (s, a, l)),
            forall|l: Light| call_requires(over, (l,)),
            names_splats(list@, splats@.len()),
            tile.bounds == b,
            b.px0 <= b.px1,
            b.py0 <= b.py1,
            tile.rgb.len() == (py - b.py0) * b.width(),
            tile.t.len() == tile.rgb.len(),
            tile.last.len() == tile.rgb.len(),
            forall|x: usize, y: usize|
                b.holds(x as int, y as int) && y < py ==> pixel_outcome(
                    power,
                    alpha,
                    blend,
                    over,
                    start,
                    x,
                    y,
                    list@,
                    splats@,
                    tile.rgb[#[trigger] local(b, x as int, y as int)],
                    tile.t[local(b, x as int, y as int)],
                    tile.last[local(b, x as int, y as int)],
                ),
    {
        for px in b.px0..b.px1
            invariant
                forall|x: usize, y: usize, s: &Splat| call_requires(power, (x, y, s)),
                forall|s: &Splat, p: Single| call_requires(alpha, (s, p)),
                forall|s: &Splat, a: Single, l: Light| call_requires(blend, (s, a, l)),
                forall|l: Light| call_requires(over, (l,)),
                names_splats(list@, splats@.len()),
                tile.bounds == b,
                b.px0 <= b.px1,
                b.py0 <= py < b.py1,
                tile.rgb.len() == (py - b.py0) * b.width() + (px - b.px0),
                tile.t.len() == tile.rgb.len(),
                tile.last.len() == tile.rgb.len(),
                forall|x: usize, y: usize|
                    b.holds(x as int, y as int) && (y < py || (y == py && x < px))
                        ==> pixel_outcome(
                        power,
                        alpha,
                        blend,
                        over,
                        start,
                        x,
                        y,
                        list@,
                        splats@,
                        tile.rgb[#[trigger] local(b, x as int, y as int)],
                        tile.t[local(b, x as int, y as int)],
                        tile.last[local(b, x as int, y as int)],
                    ),
        {
            let ghost before = tile;
            let pixel = composite_pixel(power, alpha, blend, start, px, py, list, splats);
            let rgb = over(pixel.light);
            tile.rgb.push(rgb);
            tile.t.push(pixel.light.t);
            tile.last.push(pixel.last);
            proof {
                assert(pixel_outcome(
                    power,
                    alpha,
                    blend,
                    over,
                    start,
                    px,
                    py,
                    list@,
                    splats@,
                    rgb,
                    pixel.light.t,
                    pixel.last,
                ));
                assert forall|x: usize, y: usize|
                    b.holds(x as int, y as int) && (y < py || (y == py && x < px + 1)) implies
                    pixel_outcome(
                    power,
                    alpha,
                    blend,
                    over,
                    start,
                    x,
                    y,
                    list@,
                    splats@,
                    tile.rgb[#[trigger] local(b, x as int, y as int)],
                    tile.t[local(b, x as int, y as int)],
                    tile.last[local(b, x as int, y as int)],
                ) by {
                    if y < py || x < px {
                        lemma_local(b, x as int, y as int, px as int, py as int);
                        let j = local(b, x as int, y as int);
                        assert(tile.rgb[j] == before.rgb[j]);
                        assert(tile.t[j] == before.t[j]);
                        assert(tile.last[j] == before.last[j]);
                    } else {
                        assert(local(b, x as int, y as int) == before.rgb.len());
                    }
                }
            }
        }
        assert((py + 1 - b.py0) * b.width() == (py - b.py0) * b.width() + b.width())
            by (nonlinear_arith);
    }
    assert((b.py1 - b.py0) * b.width() == b.width() * b.height()) by (nonlinear_arith)
        requires
            b.height() == b.py1 - b.py0,
    ;
    Some(tile)
}

// ── the image ───────────────────────────────────────────────────────────────────────────

/// A rendered image, row by row: three colours per pixel, what shines through each pixel,
/// and the last splat that was blended there.
pub struct Rendered {
    pub rgb: Vec<Single>,
    pub t: Vec<Single>,
    pub last: Vec<Option<usize>>,
}

/// Where pixel `(px, py)` stands in an image `w` wide.
pub open spec fn at(w: int, px: int, py: int) -> int {
    py * w + px
}

impl Rendered {
    /// There is an entry for each of `n` pixels.
    pub open spec fn wf(&self, n: int) -> bool {
        &&& self.rgb.len() == 3 * n
        &&& self.t.len() == n
        &&& self.last.len() == n
    }

    /// What stands at pixel `i`.
    pub open spec fn holds(&self, i: int, rgb: [Single; 3], t: Single, last: Option<usize>) -> bool {
        &&& self.rgb[3 * i] == rgb[0]
        &&& self.rgb[3 * i + 1] == rgb[1]
        &&& self.rgb[3 * i + 2] == rgb[2]
        &&& self.t[i] == t
        &&& self.last[i] == last
    }

    /// Pixel `i` is as it is in `other`.
    pub open spec fn agrees(&self, i: int, other: &Rendered) -> bool {
        &&& self.rgb[3 * i] == other.rgb[3 * i]
        &&& self.rgb[3 * i + 1] == other.rgb[3 * i + 1]
        &&& self.rgb[3 * i + 2] == other.rgb[3 * i + 2]
        &&& self.t[i] == other.t[i]
        &&& self.last[i] == other.last[i]
    }

    /// Nothing is drawn at pixel `i`: black, and everything shines through.
    pub open spec fn blank(&self, i: int) -> bool {
        let zero = Single { bits: ZERO };
        self.holds(i, [zero, zero, zero], Single { bits: ONE }, None)
    }

    /// An image of `n` pixels with nothing drawn.
    pub fn new(n: usize) -> (r: Rendered)
        requires
            n * 3 <= usize::MAX,
        ensures
            r.wf(n as int),
            forall|i: int| 0 <= i < n ==> #[trigger] r.blank(i),
    {
        let zero = Single { bits: ZERO };
        let mut r = Rendered { rgb: Vec::new(), t: Vec::new(), last: Vec::new() };
        for i in 0..n
            invariant
                r.wf(i as int),
                zero == (Single { bits: ZERO }),
                forall|j: int| 0 <= j < i ==> #[trigger] r.blank(j),
        {
            let ghost before = r;
            r.rgb.push(zero);
            r.rgb.push(zero);
            r.rgb.push(zero);
            r.t.push(Single { bits: ONE });
            r.last.push(None);
            assert forall|j: int| 0 <= j < i + 1 implies #[trigger] r.blank(j) by {
                if j < i {
                    assert(before.blank(j));
                }
            }
        }
        r
    }
}

/// Pixel `(px, py)` holds what `tile` holds for it.
pub open spec fn placed(out: &Rendered, tile: &TileForward, w: int, px: int, py: int) -> bool {
    let j = local(tile.bounds, px, py);
    out.holds(at(w, px, py), tile.rgb[j], tile.t[j], tile.last[j])
}

/// Copies the pixels of a tile into the image.
fn place_tile(out: &mut Rendered, tile: &TileForward, w: usize, h: usize)
    requires
        w * h * 3 <= usize::MAX,
        old(out).wf(w * h),
        tile.wf(),
        tile.bounds.within(w as int, h as int),
    ensures
        final(out).wf(w * h),
        forall|px: int, py: int|
            #![trigger at(w as int, px, py)]
            0 <= px < w && 0 <= py < h ==> if tile.bounds.holds(px, py) {
                placed(final(out), tile, w as int, px, py)
            } else {
                final(out).agrees(at(w as int, px, py), old(out))
            },
{
    let b = tile.bounds;
    let tw = b.px1 - b.px0;
    for py in b.py0..b.py1
        invariant
            w * h * 3 <= usize::MAX,
            out.wf(w * h),
            tile.wf(),
            b == tile.bounds,
            tw == b.width(),
            b.within(w as int, h as int),
            forall|x: int, y: int|
                #![trigger at(w as int, x, y)]
                0 <= x < w && 0 <= y < h ==> if b.holds(x, y) && y < py {
                    placed(out, tile, w as int, x, y)
                } else {
                    out.agrees(at(w as int, x, y), old(out))
                },
    {
        for px in b.px0..b.px1
            invariant
                w * h * 3 <= usize::MAX,
                out.wf(w * h),
                tile.wf(),
                b == tile.bounds,
                tw == b.width(),
                b.within(w as int, h as int),
                b.py0 <= py < b.py1,
                forall|x: int, y: int|
                    #![trigger at(w as int, x, y)]
                    0 <= x < w && 0 <= y < h ==> if b.holds(x, y) && (y < py || (y == py && x
                        < px)) {
                        placed(out, tile, w as int, x, y)
                    } else {
                        out.agrees(at(w as int, x, y), old(out))
                    },
        {
            let ghost before = *out;
            proof {
                lemma_local_in_range(b, px as int, py as int);
                lemma_cell_at(px as int, py as int, w as int, h as int);
                lemma_local_steps(b, px as int, py as int);
            }
            let j = (py - b.py0) * tw + (px - b.px0);
            let pix = py * w + px;
            let c = tile.rgb[j];
            out.rgb[pix * 3] = c[0];
            out.rgb[pix * 3 + 1] = c[1];
            out.rgb[pix * 3 + 2] = c[2];
            out.t[pix] = tile.t[j];
            out.last[pix] = tile.last[j];
            proof {
                assert forall|x: int, y: int|
                    #![trigger at(w as int, x, y)]
                    0 <= x < w && 0 <= y < h implies if b.holds(x, y) && (y
                    < py || (y == py && x < px + 1)) {
                    placed(out, tile, w as int, x, y)
                } else {
                    out.agrees(at(w as int, x, y), old(out))
                } by {
                    lemma_cell_at(x, y, w as int, h as int);
                    if !(x == px && y == py) {
                        assert(at(w as int, x, y) != pix);
                        assert(out.agrees(at(w as int, x, y), &before));
                        assert(placed(&before, tile, w as int, x, y) || before.agrees(
                            at(w as int, x, y),
                            old(out),
                        ));
                    }
                }
            }
        }
    }
}

/// The offset of a pixel in its tile is computed without overflow.
proof fn lemma_local_steps(b: TileBounds, px: int, py: int)
    requires
        b.holds(px, py),
    ensures
        0 <= (py - b.py0) * b.width() <= local(b, px, py),
{
    assert(0 <= (py - b.py0) * b.width()) by (nonlinear_arith)
        requires
            0 <= py - b.py0,
            0 <= b.width(),
    ;
}

/// Which tile pixel `(px, py)` of an image `w` wide lies in.
pub open spec fn tile_of(w: int, px: int, py: int) -> int {
    py / 16 * tiles_over(w as nat) + px / 16
}

/// `tiles` holds the tiles of a `w` by `h` image, in order; some are left out.
pub open spec fn tiled(tiles: Seq<Option<TileForward>>, w: int, h: int) -> bool {
    &&& tiles.len() == tiles_over(w as nat) * tiles_over(h as nat)
    &&& forall|k: int|
        0 <= k < tiles.len() ==> (#[trigger] tiles[k] matches Some(tile) ==> tile.wf()
            && tile.bounds == bounds_of(k, w, h))
}

/// Puts the tiles of a `w` by `h` image together.  Where a tile is left out nothing is drawn.
pub fn place_tiles(tiles: &[Option<TileForward>], w: usize, h: usize) -> (out: Rendered)
    requires
        w + 16 <= usize::MAX,
        h + 16 <= usize::MAX,
        w * h * 3 <= usize::MAX,
        tiled(tiles@, w as int, h as int),
    ensures
        out.wf(w * h),
        forall|px: int, py: int|
            0 <= px < w && 0 <= py < h ==> match tiles[#[trigger] tile_of(w as int, px, py)] {
                Some(tile) => placed(&out, &tile, w as int, px, py),
                None => out.blank(at(w as int, px, py)),
            },
{
    assert(w * h <= usize::MAX) by (nonlinear_arith)
        requires
            w * h * 3 <= usize::MAX,
            0 <= w,
            0 <= h,
    ;
    let mut out = Rendered::new(w * h);
    proof {
        assert forall|px: int, py: int| 0 <= px < w && 0 <= py < h implies out.blank(
            #[trigger] at(w as int, px, py),
        ) by {
            lemma_cell_at(px, py, w as int, h as int);
        }
    }
    for k in 0..tiles.len()
        invariant
            w + 16 <= usize::MAX,
            h + 16 <= usize::MAX,
            w * h * 3 <= usize::MAX,
            tiled(tiles@, w as int, h as int),
            out.wf(w * h),
            forall|px: int, py: int|
                0 <= px < w && 0 <= py < h ==> {
                    let j = #[trigger] tile_of(w as int, px, py);
                    if j < k && tiles[j] is Some {
                        placed(&out, &tiles[j]->0, w as int, px, py)
                    } else {
                        out.blank(at(w as int, px, py))
                    }
                },
    {
        let ghost before = out;
        if let Some(tile) = &tiles[k] {
            proof {
                lemma_bounds_within(k as int, w as int, h as int);
            }
            place_tile(&mut out, tile, w, h);
            proof {
                assert forall|px: int, py: int| 0 <= px < w && 0 <= py < h implies {
                    let j = #[trigger] tile_of(w as int, px, py);
                    if j < k + 1 && tiles[j] is Some {
                        placed(&out, &tiles[j]->0, w as int, px, py)
                    } else {
                        out.blank(at(w as int, px, py))
                    }
                } by {
                    pixel_has_one_tile(px, py, w as int, h as int, k as int);
                    let j = tile_of(w as int, px, py);
                    if j == k {
                        assert(placed(&out, tile, w as int, px, py));
                    } else {
                        assert(!tile.bounds.holds(px, py));
                        assert(out.agrees(at(w as int, px, py), &before));
                    }
                }
            }
        } else {
            assert(tiles[k as int] is None);
        }
    }
    proof {
        assert forall|px: int, py: int| 0 <= px < w && 0 <= py < h implies match tiles[
        #[trigger] tile_of(w as int, px, py)] {
            Some(tile) => placed(&out, &tile, w as int, px, py),
            None => out.blank(at(w as int, px, py)),
        } by {
            lemma_tile_of(px, py, w as int, h as int);
        }
    }
    out
}

pub proof fn lemma_tile_of(px: int, py: int, w: int, h: int)
    requires
        0 <= px < w,
        0 <= py < h,
    ensures
        0 <= tile_of(w, px, py) < tiles_over(w as nat) * tiles_over(h as nat),
{
    lemma_cell_at(px / 16, py / 16, tiles_over(w as nat) as int, tiles_over(h as nat) as int);
}

pub proof fn lemma_bounds_within(k: int, w: int, h: int)
    requires
        0 <= w,
        0 <= h,
        w + 16 <= usize::MAX,
        h + 16 <= usize::MAX,
        0 <= k < tiles_over(w as nat) * tiles_over(h as nat),
    ensures
        bounds_of(k, w, h).within(w, h),
{
    let nx = tiles_over(w as nat) as int;
    let ny = tiles_over(h as nat) as int;
    if nx == 0 {
        assert(nx * ny == 0) by (nonlinear_arith)
            requires
                nx == 0,
        ;
    }
    super::tiles::lemma_cell(k, nx, ny);
}

/// Composites an image: every pixel of a tile that some splat touches holds its outcome over
/// the tile's list, and nothing is drawn elsewhere.
pub open spec fn image_outcome<
    P: Fn(usize, usize, &Splat) -> Single,
    A: Fn(&Splat, Single) -> Single,
    B: Fn(&Splat, Single, Light) -> Light,
    O: Fn(Light) -> [Single; 3],
>(
    power: P,
    alpha: A,
    blend: B,
    over: O,
    start: Light,
    lists: Seq<Vec<usize>>,
    splats: Seq<Splat>,
    w: int,
    h: int,
    out: &Rendered,
) -> bool {
    forall|px: usize, py: usize|
        px < w && py < h ==> {
            let k = #[trigger] tile_of(w, px as int, py as int);
            let i = at(w, px as int, py as int);
            if lists[k]@.len() == 0 {
                out.blank(i)
            } else {
                pixel_outcome(
                    power,
                    alpha,
                    blend,
                    over,
                    start,
                    px,
                    py,
                    lists[k]@,
                    splats,
                    [out.rgb[3 * i], out.rgb[3 * i + 1], out.rgb[3 * i + 2]],
                    out.t[i],
                    out.last[i],
                )
            }
        }
}

/// Composites a `w` by `h` image, tile by tile.
pub fn forward_pass<
    P: Fn(usize, usize, &Splat) -> Single + Copy,
    A: Fn(&Splat, Single) -> Single + Copy,
    B: Fn(&Splat, Single, Light) -> Light + Copy,
    O: Fn(Light) -> [Single; 3] + Copy,
>(
    power: P,
    alpha: A,
    blend: B,
    over: O,
    start: Light,
    splats: &[Splat],
    lists: &[Vec<usize>],
    w: usize,
    h: usize,
) -> (out: Rendered)
    requires
        forall|x: usize, y: usize, s: &Splat| call_requires(power, (x, y, s)),
        forall|s: &Splat, p: Single| call_requires(alpha, (s, p)),
        forall|s: &Splat, a: Single, l: Light| call_requires(blend, (s, a, l)),
        forall|l: Light| call_requires(over, (l,)),
        w + 16 <= usize::MAX,
        h + 16 <= usize::MAX,
        w * h * 3 <= usize::MAX,
        lists.len() == tiles_over(w as nat) * tiles_over(h as nat),
        forall|k: int| 0 <= k < lists.len() ==> names_splats((#[trigger] lists[k])@, splats@.len()),
    ensures
        out.wf(w * h),
        image_outcome(power, alpha, blend, over, start, lists@, splats@, w as int, h as int, &out),
{
    let mut tiles: Vec<Option<TileForward>> = Vec::new();
    for k in 0..lists.len()
        invariant
            forall|x: usize, y: usize, s: &Splat| call_requires(power, (x, y, s)),
            forall|s: &Splat, p: Single| call_requires(alpha, (s, p)),
            forall|s: &Splat, a: Single, l: Light| call_requires(blend, (s, a, l)),
            forall|l: Light| call_requires(over, (l,)),
            w + 16 <= usize::MAX,
            h + 16 <= usize::MAX,
            lists.len() == tiles_over(w as nat) * tiles_over(h as nat),
            forall|k: int|
                0 <= k < lists.len() ==> names_splats((#[trigger] lists[k])@, splats@.len()),
            tiles.len() == k,
            forall|j: int|
                0 <= j < k ==> {
                    &&& #[trigger] tiles[j] is None <==> lists[j].len() == 0
                    &&& tiles[j] matches Some(tile) ==> {
                        &&& tile.wf()
                        &&& tile.bounds == bounds_of(j, w as int, h as int)
                        &&& tile_outcome(power, alpha, blend, over, start, lists[j]@, splats@, tile)
                    }
                },
    {
        let tile = composite_tile(power, alpha, blend, over, start, k, w, h, &lists[k], splats);
        tiles.push(tile);
    }
    let out = place_tiles(&tiles, w, h);
    proof {
        assert forall|px: usize, py: usize| px < w && py < h implies {
            let k = #[trigger] tile_of(w as int, px as int, py as int);
            let i = at(w as int, px as int, py as int);
            if lists[k]@.len() == 0 {
                out.blank(i)
            } else {
                pixel_outcome(
                    power,
                    alpha,
                    blend,
                    over,
                    start,
                    px,
                    py,
                    lists[k]@,
                    splats@,
                    [out.rgb[3 * i], out.rgb[3 * i + 1], out.rgb[3 * i + 2]],
                    out.t[i],
                    out.last[i],
                )
            }
        } by {
            let k = tile_of(w as int, px as int, py as int);
            let i = at(w as int, px as int, py as int);
            lemma_tile_of(px as int, py as int, w as int, h as int);
            pixel_has_one_tile(px as int, py as int, w as int, h as int, k);
            if lists[k]@.len() > 0 {
                let tile = tiles[k]->0;
                let j = local(tile.bounds, px as int, py as int);
                assert(placed(&out, &tile, w as int, px as int, py as int));
                assert(tile.bounds.holds(px as int, py as int));
                let c = [out.rgb[3 * i], out.rgb[3 * i + 1], out.rgb[3 * i + 2]];
                assert(c =~= tile.rgb[j]);
            }
        }
    }
    out
}

} // verus!
