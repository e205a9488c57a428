//! The reverse of compositing: from the gradient of each pixel to the gradient of each splat.
//!
//! A pixel's splats are visited from the last one that was blended back to the first.  The
//! kernels are handed in: `leak` is the background's share of a pixel, and `pull` takes one
//! splat back that was blended with a given alpha, which restores the light in front of it and
//! adds to its gradient; the gradient of the alpha counts with the slope of the cap.

use super::forward::{
    at, cap, capped, names_splats, shows, visible_alpha, Light, Rendered, MAX_ALPHA,
};
use super::splat::Splat;
use super::tiles::{bounds_of, lemma_cell_at, tile_bounds, tiles_over, TileBounds};
use crate::num::fold::{lemma_reaches_nothing, lemma_reaches_push, reaches};
use crate::num::single::{Single, ONE, ZERO};
use vstd::prelude::*;

verus! {

/// The gradient of a splat: of its colour, opacity, inverse covariance and centre.
#[derive(Clone, Copy, Debug, PartialEq, Eq, Structural)]
pub struct SplatGradAccum {
    pub red: Single,
    pub green: Single,
    pub blue: Single,
    pub opacity: Single,
    pub conic_a: Single,
    pub conic_b: Single,
    pub conic_c: Single,
    pub sx: Single,
    pub sy: Single,
}

/// No gradient.
pub open spec fn no_grad() -> SplatGradAccum {
    let zero = Single { bits: ZERO };
    SplatGradAccum {
        red: zero,
        green: zero,
        blue: zero,
        opacity: zero,
        conic_a: zero,
        conic_b: zero,
        conic_c: zero,
        sx: zero,
        sy: zero,
    }
}

impl Default for SplatGradAccum {
    fn default() -> (r: SplatGradAccum)
        ensures
            r == no_grad(),
    {
        let zero = Single { bits: ZERO };
        SplatGradAccum {
            red: zero,
            green: zero,
            blue: zero,
            opacity: zero,
            conic_a: zero,
            conic_b: zero,
            conic_c: zero,
            sx: zero,
            sy: zero,
        }
    }
}

/// `n` splats without a gradient.
pub open spec fn no_grads(n: nat) -> Seq<SplatGradAccum> {
    Seq::new(n, |i: int| no_grad())
}

fn zero_grads(n: usize) -> (r: Vec<SplatGradAccum>)
    ensures
        r@ == no_grads(n as nat),
{
    let mut r: Vec<SplatGradAccum> = Vec::new();
    for i in 0..n
        invariant
            r@ == no_grads(i as nat),
    {
        r.push(SplatGradAccum::default());
        assert(r@ =~= no_grads((i + 1) as nat));
    }
    r
}

// ── one pixel ───────────────────────────────────────────────────────────────────────────

/// How an alpha that is capped follows one that shows: not at all above the cap.
pub open spec fn cap_slope(a: Single) -> Single {
    if (Single { bits: MAX_ALPHA }).below(a) {
        Single { bits: ZERO }
    } else {
        Single { bits: ONE }
    }
}

fn slope_of(a: Single) -> (r: Single)
    ensures
        r == cap_slope(a),
{
    if (Single { bits: MAX_ALPHA }).lt(a) {
        Single { bits: ZERO }
    } else {
        Single { bits: ONE }
    }
}

/// `pull` can be called.
pub open spec fn pulls_back<
    G: Fn(usize, usize, &Splat, Single, Single, [Single; 3], Light, SplatGradAccum) -> (
        Light,
        SplatGradAccum,
    ),
>(pull: G) -> bool {
    forall|
        x: usize,
        y: usize,
        s: &Splat,
        a: Single,
        b: Single,
        d: [Single; 3],
        l: Light,
        g: SplatGradAccum,
    |
        call_requires(pull, (x, y, s, a, b, d, l, g))
}

/// The light behind the splats not yet taken back, and the gradients of the tile's splats.
pub struct Back {
    pub light: Light,
    pub grads: Seq<SplatGradAccum>,
}

/// `s1` can be what taking back splat `i`, which shows by `a`, makes of `s0`.
pub open spec fn pulls<
    G: Fn(usize, usize, &Splat, Single, Single, [Single; 3], Light, SplatGradAccum) -> (
        Light,
        SplatGradAccum,
    ),
>(
    pull: G,
    px: usize,
    py: usize,
    s: Splat,
    i: int,
    a: Option<Single>,
    dl: [Single; 3],
    s0: Back,
    s1: Back,
) -> bool {
    match a {
        None => s1 == s0,
        Some(q) => exists|r: (Light, SplatGradAccum)| #[trigger]
            call_ensures(
                pull,
                (px, py, &s, capped(q), cap_slope(q), dl, s0.light, s0.grads[i]),
                r,
            ) && s1 == (Back { light: r.0, grads: s0.grads.update(i, r.1) }),
    }
}

/// One step back: splat `i` of the tile's list is taken back where it shows.
pub open spec fn back_step<
    P: Fn(usize, usize, &Splat) -> Single,
    A: Fn(&Splat, Single) -> Single,
    G: Fn(usize, usize, &Splat, Single, Single, [Single; 3], Light, SplatGradAccum) -> (
        Light,
        SplatGradAccum,
    ),
>(
    power: P,
    alpha: A,
    pull: G,
    px: usize,
    py: usize,
    dl: [Single; 3],
    list: Seq<usize>,
    splats: Seq<Splat>,
) -> spec_fn(Back, int, Back) -> bool {
    |s0: Back, i: int, s1: Back|
        exists|a: Option<Single>| #[trigger]
            shows(power, alpha, px, py, splats[list[i] as int], a) && pulls(
                pull,
                px,
                py,
                splats[list[i] as int],
                i,
                a,
                dl,
                s0,
                s1,
            )
}

/// `n - 1, n - 2, ..`, the first `k` of them.
pub open spec fn down(n: nat, k: nat) -> Seq<int> {
    Seq::new(k, |j: int| n - 1 - j)
}

/// The gradients `g1` can be what the pixel `(px, py)` makes of `g0`: from the last splat
/// that was blended there back to the first.  `dl` is the pixel's own gradient and `t` what
/// shines through it.
pub open spec fn pixel_pulls<
    P: Fn(usize, usize, &Splat) -> Single,
    A: Fn(&Splat, Single) -> Single,
    L: Fn(Single) -> Light,
    G: Fn(usize, usize, &Splat, Single, Single, [Single; 3], Light, SplatGradAccum) -> (
        Light,
        SplatGradAccum,
    ),
>(
    power: P,
    alpha: A,
    leak: L,
    pull: G,
    px: usize,
    py: usize,
    list: Seq<usize>,
    splats: Seq<Splat>,
    t: Single,
    last: Option<usize>,
    dl: [Single; 3],
    g0: Seq<SplatGradAccum>,
    g1: Seq<SplatGradAccum>,
) -> bool {
    match last {
        None => g1 == g0,
        Some(n) => exists|behind: Light, light: Light|
            #![trigger
                call_ensures(leak, (t,), behind),
                pixel_reaches(
                    power,
                    alpha,
                    pull,
                    px,
                    py,
                    dl,
                    list,
                    splats,
                    (n + 1) as nat,
                    behind,
                    light,
                    g0,
                    g1,
                )]
            call_ensures(leak, (t,), behind) && pixel_reaches(
                power,
                alpha,
                pull,
                px,
                py,
                dl,
                list,
                splats,
                (n + 1) as nat,
                behind,
                light,
                g0,
                g1,
            ),
    }
}

/// Taking back the first `n` splats of the list, the last first.
pub open spec fn pixel_reaches<
    P: Fn(usize, usize, &Splat) -> Single,
    A: Fn(&Splat, Single) -> Single,
    G: Fn(usize, usize, &Splat, Single, Single, [Single; 3], Light, SplatGradAccum) -> (
        Light,
        SplatGradAccum,
    ),
>(
    power: P,
    alpha: A,
    pull: G,
    px: usize,
    py: usize,
    dl: [Single; 3],
    list: Seq<usize>,
    splats: Seq<Splat>,
    n: nat,
    behind: Light,
    light: Light,
    g0: Seq<SplatGradAccum>,
    g1: Seq<SplatGradAccum>,
) -> bool {
    reaches(
        back_step(power, alpha, pull, px, py, dl, list, splats),
        down(n, n),
        Back { light: behind, grads: g0 },
        Back { light, grads: g1 },
    )
}

/// Takes back the splats of one pixel.
pub fn pull_pixel<
    P: Fn(usize, usize, &Splat) -> Single + Copy,
    A: Fn(&Splat, Single) -> Single + Copy,
    L: Fn(Single) -> Light + Copy,
    G: Fn(usize, usize, &Splat, Single, Single, [Single; 3], Light, SplatGradAccum) -> (
        Light,
        SplatGradAccum,
    ) + Copy,
>(
    power: P,
    alpha: A,
    leak: L,
    pull: G,
    px: usize,
    py: usize,
    list: &[usize],
    splats: &[Splat],
    t: Single,
    last: Option<usize>,
    dl: [Single; 3],
    grads: &mut Vec<SplatGradAccum>,
)
    requires
        forall|x: usize, y: usize, s: &Splat| call_requires(power, (x, y, s)),
        forall|s: &Splat, p: Single| call_requires(alpha, (s, p)),
        forall|t: Single| call_requires(leak, (t,)),
        pulls_back(pull),
        names_splats(list@, splats@.len()),
        old(grads).len() == list.len(),
        last matches Some(n) ==> n < list.len(),
    ensures
        final(grads).len() == list.len(),
        pixel_pulls(
            power,
            alpha,
            leak,
            pull,
            px,
            py,
            list@,
            splats@,
            t,
            last,
            dl,
            old(grads)@,
            final(grads)@,
        ),
{
    if let Some(n) = last {
        let ghost step = back_step(power, alpha, pull, px, py, dl, list@, splats@);
        let ghost g0 = grads@;
        let behind = leak(t);
        let mut light = behind;
        let mut i: usize = n + 1;
        let ghost start = Back { light: behind, grads: g0 };
        proof {
            lemma_reaches_nothing(step, start, Back { light, grads: grads@ });
            assert(down((n + 1) as nat, 0) =~= Seq::<int>::empty());
        }
        while i > 0
            invariant
                forall|x: usize, y: usize, s: &Splat| call_requires(power, (x, y, s)),
                forall|s: &Splat, p: Single| call_requires(alpha, (s, p)),
                pulls_back(pull),
                names_splats(list@, splats@.len()),
                n < list.len(),
                i <= n + 1,
                grads.len() == list.len(),
                step == back_step(power, alpha, pull, px, py, dl, list@, splats@),
                start == (Back { light: behind, grads: g0 }),
                reaches(
                    step,
                    down((n + 1) as nat, (n + 1 - i) as nat),
                    start,
                    Back { light, grads: grads@ },
                ),
            decreases i,
        {
            let ghost s0 = Back { light, grads: grads@ };
            let ghost k = (n + 1 - i) as nat;
            i -= 1;
            let s = &splats[list[i]];
            let a = visible_alpha(power, alpha, px, py, s);
            if let Some(q) = a {
                let (l, g) = pull(px, py, s, cap(q), slope_of(q), dl, light, grads[i]);
                light = l;
                grads[i] = g;
                assert(call_ensures(
                    pull,
                    (px, py, s, capped(q), cap_slope(q), dl, s0.light, s0.grads[i as int]),
                    (l, g),
                ));
            }
            proof {
                let s1 = Back { light, grads: grads@ };
                assert(pulls(pull, px, py, *s, i as int, a, dl, s0, s1));
                lemma_reaches_push(step, down((n + 1) as nat, k), start, s0, i as int, s1);
                assert(down((n + 1) as nat, k).push(i as int) =~= down((n + 1) as nat, k + 1));
            }
        }
        assert(pixel_reaches(
            power,
            alpha,
            pull,
            px,
            py,
            dl,
            list@,
            splats@,
            (n + 1) as nat,
            behind,
            light,
            g0,
            grads@,
        ));
    }
}

// ── one tile ────────────────────────────────────────────────────────────────────────────

/// The pixels of a tile, row by row.
pub open spec fn tile_pixels(b: TileBounds) -> Seq<(usize, usize)> {
    Seq::new(
        (b.width() * b.height()) as nat,
        |j: int| ((b.px0 + j % b.width()) as usize, (b.py0 + j / b.width()) as usize),
    )
}

/// One step of a tile: its next pixel.
pub open spec fn tile_step<
    P: Fn(usize, usize, &Splat) -> Single,
    A: Fn(&Splat, Single) -> Single,
    L: Fn(Single) -> Light,
    G: Fn(usize, usize, &Splat, Single, Single, [Single; 3], Light, SplatGradAccum) -> (
        Light,
        SplatGradAccum,
    ),
>(
    power: P,
    alpha: A,
    leak: L,
    pull: G,
    w: int,
    list: Seq<usize>,
    splats: Seq<Splat>,
    t: Seq<Single>,
    last: Seq<Option<usize>>,
    dl: Seq<Single>,
) -> spec_fn(Seq<SplatGradAccum>, (usize, usize), Seq<SplatGradAccum>) -> bool {
    |g0: Seq<SplatGradAccum>, e: (usize, usize), g1: Seq<SplatGradAccum>|
        {
            let i = at(w, e.0 as int, e.1 as int);
            pixel_pulls(
                power,
                alpha,
                leak,
                pull,
                e.0,
                e.1,
                list,
                splats,
                t[i],
                last[i],
                [dl[3 * i], dl[3 * i + 1], dl[3 * i + 2]],
                g0,
                g1,
            )
        }
}

/// `grads` can be the gradients of the splats of a tile: the sum over its pixels, row by row.
pub open spec fn tile_pulls<
    P: Fn(usize, usize, &Splat) -> Single,
    A: Fn(&Splat, Single) -> Single,
    L: Fn(Single) -> Light,
    G: Fn(usize, usize, &Splat, Single, Single, [Single; 3], Light, SplatGradAccum) -> (
        Light,
        SplatGradAccum,
    ),
>(
    power: P,
    alpha: A,
    leak: L,
    pull: G,
    b: TileBounds,
    w: int,
    list: Seq<usize>,
    splats: Seq<Splat>,
    t: Seq<Single>,
    last: Seq<Option<usize>>,
    dl: Seq<Single>,
    grads: Seq<SplatGradAccum>,
) -> bool {
    &&& grads.len() == list.len()
    &&& list.len() > 0 ==> reaches(
        tile_step(power, alpha, leak, pull, w, list, splats, t, last, dl),
        tile_pixels(b),
        no_grads(list.len()),
        grads,
    )
}

/// Every pixel of the tile names a splat of its list as the last one blended.
pub open spec fn lasts_listed(
    b: TileBounds,
    w: int,
    list: Seq<usize>,
    last: Seq<Option<usize>>,
) -> bool {
    forall|px: int, py: int|
        b.holds(px, py) ==> (last[#[trigger] at(w, px, py)] matches Some(n) ==> n < list.len())
}

/// Takes back the splats of tile `k` of a `w` by `h` image.
pub fn pull_tile<
    P: Fn(usize, usize, &Splat) -> Single + Copy,
    A: Fn(&Splat, Single) -> Single + Copy,
    L: Fn(Single) -> Light + Copy,
    G: Fn(usize, usize, &Splat, Single, Single, [Single; 3], Light, SplatGradAccum) -> (
        Light,
        SplatGradAccum,
    ) + Copy,
>(
    power: P,
    alpha: A,
    leak: L,
    pull: G,
    k: usize,
    w: usize,
    h: usize,
    list: &[usize],
    splats: &[Splat],
    image: &Rendered,
    dl: &[Single],
) -> (r: Vec<SplatGradAccum>)
    requires
        forall|x: usize, y: usize, s: &Splat| call_requires(power, (x, y, s)),
        forall|s: &Splat, p: Single| call_requires(alpha, (s, p)),
        forall|t: Single| call_requires(leak, (t,)),
        pulls_back(pull),
        w + 16 <= usize::MAX,
        h + 16 <= usize::MAX,
        w * h * 3 <= usize::MAX,
        k < tiles_over(w as nat) * tiles_over(h as nat),
        names_splats(list@, splats@.len()),
        image.wf(w * h),
        dl.len() == w * h * 3,
        list.len() > 0 ==> lasts_listed(
            bounds_of(k as int, w as int, h as int),
            w as int,
            list@,
            image.last@,
        ),
    ensures
        tile_pulls(
            power,
            alpha,
            leak,
            pull,
            bounds_of(k as int, w as int, h as int),
            w as int,
            list@,
            splats@,
            image.t@,
            image.last@,
            dl@,
            r@,
        ),
{
    let mut grads = zero_grads(list.len());
    if list.len() == 0 {
        return grads;
    }
    let b = tile_bounds(k, w, h);
    let ghost step = tile_step(
        power,
        alpha,
        leak,
        pull,
        w as int,
        list@,
        splats@,
        image.t@,
        image.last@,
        dl@,
    );
    let ghost start = no_grads(list@.len());
    let ghost events = tile_pixels(b);
    proof {
        lemma_reaches_nothing(step, start, grads@);
        assert(events.take(0) =~= Seq::<(usize, usize)>::empty());
        assert((b.py0 - b.py0) * b.width() == 0) by (nonlinear_arith)
            requires
                b.py0 - b.py0 == 0,
        ;
    }
    for py in b.py0..b.py1
        invariant
            forall|x: usize, y: usize, s: &Splat| call_requires(power, (x, y, s)),
            forall|s: &Splat, p: Single| call_requires(alpha, (s, p)),
            forall|t: Single| call_requires(leak, (t,)),
            pulls_back(pull),
            w * h * 3 <= usize::MAX,
            names_splats(list@, splats@.len()),
            image.wf(w * h),
            dl.len() == w * h * 3,
            b.within(w as int, h as int),
            lasts_listed(b, w as int, list@, image.last@),
            events == tile_pixels(b),
            step == tile_step(
                power,
                alpha,
                leak,
                pull,
                w as int,
                list@,
                splats@,
                image.t@,
                image.last@,
                dl@,
            ),
            start == no_grads(list@.len()),
            grads.len() == list.len(),
            reaches(step, events.take((py - b.py0) * b.width()), start, grads@),
    {
        for px in b.px0..b.px1
            invariant
                forall|x: usize, y: usize, s: &Splat| call_requires(power, (x, y, s)),
                forall|s: &Splat, p: Single| call_requires(alpha, (s, p)),
                forall|t: Single| call_requires(leak, (t,)),
                pulls_back(pull),
                w * h * 3 <= usize::MAX,
                names_splats(list@, splats@.len()),
                image.wf(w * h),
                dl.len() == w * h * 3,
                b.within(w as int, h as int),
                b.py0 <= py < b.py1,
                lasts_listed(b, w as int, list@, image.last@),
                events == tile_pixels(b),
                step == tile_step(
                    power,
                    alpha,
                    leak,
                    pull,
                    w as int,
                    list@,
                    splats@,
                    image.t@,
                    image.last@,
                    dl@,
                ),
                start == no_grads(list@.len()),
                grads.len() == list.len(),
                reaches(
                    step,
                    events.take((py - b.py0) * b.width() + (px - b.px0)),
                    start,
                    grads@,
                ),
        {
            let ghost g0 = grads@;
            let ghost j = (py - b.py0) * b.width() + (px - b.px0);
            proof {
                lemma_cell_at(px as int, py as int, w as int, h as int);
                lemma_cell_at(px - b.px0, py - b.py0, b.width(), b.height());
            }
            let i = py * w + px;
            assert(i == at(w as int, px as int, py as int));
            let d = [dl[i * 3], dl[i * 3 + 1], dl[i * 3 + 2]];
            pull_pixel(
                power,
                alpha,
                leak,
                pull,
                px,
                py,
                list,
                splats,
                image.t[i],
                image.last[i],
                d,
                &mut grads,
            );
            proof {
                assert(events[j] == (px, py));
                assert(step(g0, (px, py), grads@));
                lemma_reaches_push(step, events.take(j), start, g0, (px, py), grads@);
                assert(events.take(j).push((px, py)) =~= events.take(j + 1));
            }
        }
        assert((py + 1 - b.py0) * b.width() == (py - b.py0) * b.width() + b.width())
            by (nonlinear_arith);
    }
    proof {
        assert((b.py1 - b.py0) * b.width() == b.width() * b.height()) by (nonlinear_arith)
            requires
                b.height() == b.py1 - b.py0,
        ;
        assert(events.take((b.py1 - b.py0) * b.width()) =~= events);
    }
    grads
}

// ── all tiles ───────────────────────────────────────────────────────────────────────────

/// The gradients of a tile's splats, each with the splat that it belongs to.
pub open spec fn pairs(list: Seq<usize>, grads: Seq<SplatGradAccum>) -> Seq<(usize, SplatGradAccum)> {
    Seq::new(list.len(), |j: int| (list[j], grads[j]))
}

/// The pairs of the first `n` tiles, one tile after the other.
pub open spec fn all_pairs(
    lists: Seq<Vec<usize>>,
    tiles: Seq<Vec<SplatGradAccum>>,
    n: nat,
) -> Seq<(usize, SplatGradAccum)>
    decreases n,
{
    if n == 0 {
        Seq::empty()
    } else {
        all_pairs(lists, tiles, (n - 1) as nat) + pairs(lists[n - 1]@, tiles[n - 1]@)
    }
}

/// `m1` can be `m0` with the gradient `g` added to that of splat `i`.
pub open spec fn adds<D: Fn(SplatGradAccum, SplatGradAccum) -> SplatGradAccum>(
    sum_of: D,
    m0: Seq<SplatGradAccum>,
    i: usize,
    g: SplatGradAccum,
    m1: Seq<SplatGradAccum>,
) -> bool {
    exists|r: SplatGradAccum| #[trigger]
        call_ensures(sum_of, (m0[i as int], g), r) && m1 == m0.update(i as int, r)
}

/// One step of the sum over tiles: a gradient is added to that of its splat.
pub open spec fn add_step<D: Fn(SplatGradAccum, SplatGradAccum) -> SplatGradAccum>(
    sum_of: D,
) -> spec_fn(Seq<SplatGradAccum>, (usize, SplatGradAccum), Seq<SplatGradAccum>) -> bool {
    |m0: Seq<SplatGradAccum>, e: (usize, SplatGradAccum), m1: Seq<SplatGradAccum>|
        adds(sum_of, m0, e.0, e.1, m1)
}

/// Adds up the gradients of each splat over the tiles, in the order of the tiles.
pub fn merge_tiles<D: Fn(SplatGradAccum, SplatGradAccum) -> SplatGradAccum>(
    sum_of: D,
    lists: &[Vec<usize>],
    tiles: &[Vec<SplatGradAccum>],
    n: usize,
) -> (r: Vec<SplatGradAccum>)
    requires
        forall|a: SplatGradAccum, b: SplatGradAccum| call_requires(sum_of, (a, b)),
        tiles.len() == lists.len(),
        forall|k: int|
            0 <= k < lists.len() ==> names_splats((#[trigger] lists[k])@, n as nat) && tiles[k].len()
                == lists[k].len(),
    ensures
        r.len() == n,
        reaches(
            add_step(sum_of),
            all_pairs(lists@, tiles@, lists@.len()),
            no_grads(n as nat),
            r@,
        ),
{
    let mut merged = zero_grads(n);
    let ghost step = add_step(sum_of);
    let ghost start = no_grads(n as nat);
    proof {
        lemma_reaches_nothing(step, start, merged@);
    }
    for k in 0..lists.len()
        invariant
            forall|a: SplatGradAccum, b: SplatGradAccum| call_requires(sum_of, (a, b)),
            tiles.len() == lists.len(),
            forall|k: int|
                0 <= k < lists.len() ==> names_splats((#[trigger] lists[k])@, n as nat)
                    && tiles[k].len() == lists[k].len(),
            step == add_step(sum_of),
            merged.len() == n,
            reaches(step, all_pairs(lists@, tiles@, k as nat), start, merged@),
    {
        let list = &lists[k];
        let tile = &tiles[k];
        let ghost before = all_pairs(lists@, tiles@, k as nat);
        let ghost here = pairs(list@, tile@);
        assert(before + here.take(0) =~= before);
        for j in 0..list.len()
            invariant
                forall|a: SplatGradAccum, b: SplatGradAccum| call_requires(sum_of, (a, b)),
                names_splats(list@, n as nat),
                tile.len() == list.len(),
                here == pairs(list@, tile@),
                step == add_step(sum_of),
                merged.len() == n,
                reaches(step, before + here.take(j as int), start, merged@),
        {
            let ghost m0 = merged@;
            let i = list[j];
            let g = tile[j];
            let sum = sum_of(merged[i], g);
            merged[i] = sum;
            proof {
                assert(call_ensures(sum_of, (m0[i as int], g), sum));
                assert(merged@ =~= m0.update(i as int, sum));
                assert(adds(sum_of, m0, i, g, merged@));
                assert(step(m0, (i, g), merged@));
                lemma_reaches_push(step, before + here.take(j as int), start, m0, (i, g), merged@);
                assert((before + here.take(j as int)).push((i, g)) =~= before + here.take(j + 1));
            }
        }
        assert(here.take(list.len() as int) =~= here);
    }
    merged
}

/// `r` can be the gradients of all splats of a `w` by `h` image: those of each tile, added up
/// in the order of the tiles.
pub open spec fn image_pulls<
    P: Fn(usize, usize, &Splat) -> Single,
    A: Fn(&Splat, Single) -> Single,
    L: Fn(Single) -> Light,
    G: Fn(usize, usize, &Splat, Single, Single, [Single; 3], Light, SplatGradAccum) -> (
        Light,
        SplatGradAccum,
    ),
    D: Fn(SplatGradAccum, SplatGradAccum) -> SplatGradAccum,
>(
    power: P,
    alpha: A,
    leak: L,
    pull: G,
    sum_of: D,
    splats: Seq<Splat>,
    lists: Seq<Vec<usize>>,
    w: int,
    h: int,
    image: Rendered,
    dl: Seq<Single>,
    r: Seq<SplatGradAccum>,
) -> bool {
    exists|tiles: Seq<Vec<SplatGradAccum>>|
        {
            &&& tiles.len() == lists.len()
            &&& forall|k: int|
                0 <= k < lists.len() ==> tile_pulls(
                    power,
                    alpha,
                    leak,
                    pull,
                    bounds_of(k, w, h),
                    w,
                    lists[k]@,
                    splats,
                    image.t@,
                    image.last@,
                    dl,
                    (#[trigger] tiles[k])@,
                )
            &&& reaches(
                add_step(sum_of),
                #[trigger] all_pairs(lists, tiles, lists.len()),
                no_grads(splats.len()),
                r,
            )
        }
}

/// The gradient of every splat of a `w` by `h` image, from the gradient `dl` of its pixels.
pub fn backward_pass<
    P: Fn(usize, usize, &Splat) -> Single + Copy,
    A: Fn(&Splat, Single) -> Single + Copy,
    L: Fn(Single) -> Light + Copy,
    G: Fn(usize, usize, &Splat, Single, Single, [Single; 3], Light, SplatGradAccum) -> (
        Light,
        SplatGradAccum,
    ) + Copy,
    D: Fn(SplatGradAccum, SplatGradAccum) -> SplatGradAccum,
>(
    power: P,
    alpha: A,
    leak: L,
    pull: G,
    sum_of: D,
    splats: &[Splat],
    lists: &[Vec<usize>],
    w: usize,
    h: usize,
    image: &Rendered,
    dl: &[Single],
) -> (r: Vec<SplatGradAccum>)
    requires
        forall|x: usize, y: usize, s: &Splat| call_requires(power, (x, y, s)),
        forall|s: &Splat, p: Single| call_requires(alpha, (s, p)),
        forall|t: Single| call_requires(leak, (t,)),
        pulls_back(pull),
        forall|a: SplatGradAccum, b: SplatGradAccum| call_requires(sum_of, (a, b)),
        w + 16 <= usize::MAX,
        h + 16 <= usize::MAX,
        w * h * 3 <= usize::MAX,
        lists.len() == tiles_over(w as nat) * tiles_over(h as nat),
        forall|k: int| 0 <= k < lists.len() ==> names_splats((#[trigger] lists[k])@, splats@.len()),
        image.wf(w * h),
        dl.len() == w * h * 3,
        forall|k: int|
            0 <= k < lists.len() && (#[trigger] lists[k]).len() > 0 ==> lasts_listed(
                bounds_of(k, w as int, h as int),
                w as int,
                lists[k]@,
                image.last@,
            ),
    ensures
        r.len() == splats.len(),
        image_pulls(
            power,
            alpha,
            leak,
            pull,
            sum_of,
            splats@,
            lists@,
            w as int,
            h as int,
            *image,
            dl@,
            r@,
        ),
{
    let mut tiles: Vec<Vec<SplatGradAccum>> = Vec::new();
    for k in 0..lists.len()
        invariant
            forall|x: usize, y: usize, s: &Splat| call_requires(power, (x, y, s)),
            forall|s: &Splat, p: Single| call_requires(alpha, (s, p)),
            forall|t: Single| call_requires(leak, (t,)),
            pulls_back(pull),
            w + 16 <= usize::MAX,
            h + 16 <= usize::MAX,
            w * h * 3 <= usize::MAX,
            lists.len() == tiles_over(w as nat) * tiles_over(h as nat),
            forall|k: int|
                0 <= k < lists.len() ==> names_splats((#[trigger] lists[k])@, splats@.len()),
            image.wf(w * h),
            dl.len() == w * h * 3,
            forall|k: int|
                0 <= k < lists.len() && (#[trigger] lists[k]).len() > 0 ==> lasts_listed(
                    bounds_of(k, w as int, h as int),
                    w as int,
                    lists[k]@,
                    image.last@,
                ),
            tiles.len() == k,
            forall|j: int|
                0 <= j < k ==> tile_pulls(
                    power,
                    alpha,
                    leak,
                    pull,
                    bounds_of(j, w as int, h as int),
                    w as int,
                    lists[j]@,
                    splats@,
                    image.t@,
                    image.last@,
                    dl@,
                    (#[trigger] tiles[j])@,
                ),
    {
        let tile = pull_tile(power, alpha, leak, pull, k, w, h, &lists[k], splats, image, dl);
        tiles.push(tile);
    }
    let r = merge_tiles(sum_of, lists, &tiles, splats.len());
    assert(reaches(
        add_step(sum_of),
        all_pairs(lists@, tiles@, lists@.len()),
        no_grads(splats@.len()),
        r@,
    ));
    r
}

} // verus!
