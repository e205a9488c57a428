//! What the gradient of a splat is summed from.

use super::backward::{
    add_step, adds, all_pairs, back_step, cap_slope, down, image_pulls, no_grads, pairs,
    pixel_pulls, pixel_reaches, pulls, tile_pixels, tile_pulls, tile_step, Back, SplatGradAccum,
};
use super::composite_laws::{lemma_shown, sees, strength, Sight};
use super::forward::{at, capped, shows, Light, Rendered, MAX_ALPHA};
use super::splat::Splat;
use super::tiles::{bounds_of, lemma_cell, tiles_over, TileBounds};
use crate::num::fold::{lemma_reaches_last, lemma_reaches_nothing, reaches};
use crate::num::reading::less;
use crate::num::single::{Single, ONE, ZERO};
use crate::num::sum::{lemma_total_append, lemma_total_flat, lemma_total_same, total};
use vstd::prelude::*;

verus! {

// ── kernels ─────────────────────────────────────────────────────────────────────────────

/// A splat that is met on the way back through a pixel: how strongly it was blended and how that
/// follows its own strength, the gradient of the pixel, and the light behind the splat.
pub struct Meeting {
    pub px: usize,
    pub py: usize,
    pub s: Splat,
    pub a: Single,
    pub slope: Single,
    pub dl: [Single; 3],
    pub light: Light,
}

/// What the kernels do on the way back: the light that leaks through a pixel, the light in front
/// of a splat, and what a splat's gradient grows by.
pub struct WayBack {
    pub leak: spec_fn(Single) -> Light,
    pub front: spec_fn(Meeting) -> Light,
    pub part: spec_fn(Meeting) -> real,
}

/// The kernels do this, where one number, `read`, is read off a gradient.
pub open spec fn goes_back<
    L: Fn(Single) -> Light,
    G: Fn(usize, usize, &Splat, Single, Single, [Single; 3], Light, SplatGradAccum) -> (
        Light,
        SplatGradAccum,
    ),
>(leak: L, pull: G, read: spec_fn(SplatGradAccum) -> real, b: WayBack) -> bool {
    &&& forall|t: Single, r: Light| #[trigger] call_ensures(leak, (t,), r) ==> r == (b.leak)(t)
    &&& forall|
        px: usize,
        py: usize,
        s: &Splat,
        a: Single,
        slope: Single,
        dl: [Single; 3],
        light: Light,
        g: SplatGradAccum,
        r: (Light, SplatGradAccum),
    | #[trigger]
        call_ensures(pull, (px, py, s, a, slope, dl, light, g), r) ==> {
            let m = Meeting { px, py, s: *s, a, slope, dl, light };
            r.0 == (b.front)(m) && read(r.1) == read(g) + (b.part)(m)
        }
}

/// `sum_of` adds what is read off two gradients.
pub open spec fn sums<D: Fn(SplatGradAccum, SplatGradAccum) -> SplatGradAccum>(
    sum_of: D,
    read: spec_fn(SplatGradAccum) -> real,
) -> bool {
    forall|a: SplatGradAccum, b: SplatGradAccum, r: SplatGradAccum| #[trigger]
        call_ensures(sum_of, (a, b), r) ==> read(r) == read(a) + read(b)
}

/// Nothing is read off a gradient of zeros.
pub open spec fn starts_empty(read: spec_fn(SplatGradAccum) -> real) -> bool {
    forall|g: SplatGradAccum|
        #![trigger read(g)]
        g.red.bits == 0 && g.green.bits == 0 && g.blue.bits == 0 && g.opacity.bits == 0
            && g.conic_a.bits == 0 && g.conic_b.bits == 0 && g.conic_c.bits == 0 && g.sx.bits == 0
            && g.sy.bits == 0 ==> read(g) == 0real
}

// ── one pixel ───────────────────────────────────────────────────────────────────────────

/// How the strength by which a splat is blended follows its own: one for one, up to the most.
pub open spec fn slope(v: Sight, px: usize, py: usize, s: Splat) -> Single {
    if less(Single { bits: MAX_ALPHA }, (v.alpha)(s, (v.power)(px, py, s))) {
        Single { bits: ZERO }
    } else {
        Single { bits: ONE }
    }
}

/// A splat, met at a pixel.
pub open spec fn met(
    v: Sight,
    px: usize,
    py: usize,
    s: Splat,
    dl: [Single; 3],
    light: Light,
) -> Meeting {
    Meeting { px, py, s, a: strength(v, px, py, s)->0, slope: slope(v, px, py, s), dl, light }
}

/// The light in front of splat `j` of a list, on the way back from splat `n - 1`, behind which
/// there is `last`.
pub open spec fn light_before(
    b: WayBack,
    v: Sight,
    px: usize,
    py: usize,
    list: Seq<usize>,
    splats: Seq<Splat>,
    dl: [Single; 3],
    last: Light,
    n: nat,
    j: nat,
) -> Light
    decreases n - j,
{
    if j >= n {
        last
    } else {
        let s = splats[list[j as int] as int];
        let behind = light_before(b, v, px, py, list, splats, dl, last, n, j + 1);
        if strength(v, px, py, s) is Some {
            (b.front)(met(v, px, py, s, dl, behind))
        } else {
            behind
        }
    }
}

/// What a pixel adds to the gradient of splat `j` of a list, if the first `n` were blended: what
/// the kernel makes of the splat and the light behind it; nothing, if the splat does not show, or
/// was not reached.
pub open spec fn share(
    b: WayBack,
    v: Sight,
    px: usize,
    py: usize,
    list: Seq<usize>,
    splats: Seq<Splat>,
    dl: [Single; 3],
    last: Light,
    n: nat,
    j: nat,
) -> real {
    let s = splats[list[j as int] as int];
    if j < n && strength(v, px, py, s) is Some {
        let behind = light_before(b, v, px, py, list, splats, dl, last, n, j + 1);
        (b.part)(met(v, px, py, s, dl, behind))
    } else {
        0real
    }
}

proof fn lemma_taken_back<
    P: Fn(usize, usize, &Splat) -> Single,
    A: Fn(&Splat, Single) -> Single,
    L: Fn(Single) -> Light,
    G: Fn(usize, usize, &Splat, Single, Single, [Single; 3], Light, SplatGradAccum) -> (
        Light,
        SplatGradAccum,
    ),
>(
    power: P,
    alpha: A,
    leak: L,
    pull: G,
    read: spec_fn(SplatGradAccum) -> real,
    b: WayBack,
    v: Sight,
    px: usize,
    py: usize,
    list: Seq<usize>,
    splats: Seq<Splat>,
    dl: [Single; 3],
    last: Light,
    n: nat,
    k: nat,
    g0: Seq<SplatGradAccum>,
    s1: Back,
)
    requires
        sees(power, alpha, v),
        goes_back(leak, pull, read, b),
        k <= n <= g0.len(),
        reaches(
            back_step(power, alpha, pull, px, py, dl, list, splats),
            down(n, k),
            Back { light: last, grads: g0 },
            s1,
        ),
    ensures
        s1.grads.len() == g0.len(),
        s1.light == light_before(b, v, px, py, list, splats, dl, last, n, (n - k) as nat),
        forall|j: int|
            0 <= j < g0.len() ==> read(#[trigger] s1.grads[j]) == read(g0[j]) + if j >= n - k {
                share(b, v, px, py, list, splats, dl, last, n, j as nat)
            } else {
                0real
            },
    decreases k,
{
    let step = back_step(power, alpha, pull, px, py, dl, list, splats);
    let s0 = Back { light: last, grads: g0 };
    if k == 0 {
        assert(down(n, 0) =~= Seq::<int>::empty());
        lemma_reaches_nothing(step, s0, s1);
    } else {
        let m = lemma_reaches_last(step, down(n, k), s0, s1);
        assert(down(n, k).drop_last() =~= down(n, (k - 1) as nat));
        let i = n - k;
        assert(down(n, k).last() == i);
        lemma_taken_back(
            power,
            alpha,
            leak,
            pull,
            read,
            b,
            v,
            px,
            py,
            list,
            splats,
            dl,
            last,
            n,
            (k - 1) as nat,
            g0,
            m,
        );
        let s = splats[list[i] as int];
        let a = choose|a: Option<Single>| #[trigger]
            shows(power, alpha, px, py, s, a) && pulls(pull, px, py, s, i, a, dl, m, s1);
        lemma_shown(power, alpha, v, px, py, s, a);
        lemma_slope(power, alpha, v, px, py, s, a);
        assert((n - (k - 1)) as nat == (i as nat) + 1);
        if let Some(q) = a {
            let r = choose|r: (Light, SplatGradAccum)| #[trigger]
                call_ensures(
                    pull,
                    (px, py, &s, capped(q), cap_slope(q), dl, m.light, m.grads[i]),
                    r,
                ) && s1 == (Back { light: r.0, grads: m.grads.update(i, r.1) });
            assert(call_ensures(
                pull,
                (px, py, &s, capped(q), cap_slope(q), dl, m.light, m.grads[i]),
                r,
            ));
            let e = met(v, px, py, s, dl, m.light);
            assert(e.a == capped(q) && e.slope == cap_slope(q));
        }
    }
}

proof fn lemma_slope<
    P: Fn(usize, usize, &Splat) -> Single,
    A: Fn(&Splat, Single) -> Single,
>(power: P, alpha: A, v: Sight, px: usize, py: usize, s: Splat, a: Option<Single>)
    requires
        sees(power, alpha, v),
        shows(power, alpha, px, py, s, a),
    ensures
        a matches Some(q) ==> slope(v, px, py, s) == cap_slope(q),
{
    if let Some(q) = a {
        let p = choose|p: Single| #[trigger]
            call_ensures(power, (px, py, &s), p) && if (Single { bits: ZERO }).below(p) {
                a is None
            } else {
                super::forward::fades_to(alpha, s, p, a)
            };
        assert(p == (v.power)(px, py, s));
        assert(q == (v.alpha)(s, p));
    }
}

/// What a pixel adds to the gradient of splat `j` of the list of its tile; `last` is the last
/// splat that was blended there, and `t` what leaked through.
pub open spec fn pixel_share(
    b: WayBack,
    v: Sight,
    px: usize,
    py: usize,
    list: Seq<usize>,
    splats: Seq<Splat>,
    dl: [Single; 3],
    t: Single,
    last: Option<usize>,
    j: nat,
) -> real {
    match last {
        None => 0real,
        Some(n) => share(b, v, px, py, list, splats, dl, (b.leak)(t), (n + 1) as nat, j),
    }
}

/// A pixel adds its share to the gradient of every splat of its list that was blended there, and
/// nothing to the others.
pub proof fn pixels_add_their_share<
    P: Fn(usize, usize, &Splat) -> Single,
    A: Fn(&Splat, Single) -> Single,
    L: Fn(Single) -> Light,
    G: Fn(usize, usize, &Splat, Single, Single, [Single; 3], Light, SplatGradAccum) -> (
        Light,
        SplatGradAccum,
    ),
>(
    power: P,
    alpha: A,
    leak: L,
    pull: G,
    read: spec_fn(SplatGradAccum) -> real,
    b: WayBack,
    v: Sight,
    px: usize,
    py: usize,
    list: Seq<usize>,
    splats: Seq<Splat>,
    t: Single,
    last: Option<usize>,
    dl: [Single; 3],
    g0: Seq<SplatGradAccum>,
    g1: Seq<SplatGradAccum>,
)
    requires
        sees(power, alpha, v),
        goes_back(leak, pull, read, b),
        last matches Some(n) ==> n < g0.len(),
        pixel_pulls(power, alpha, leak, pull, px, py, list, splats, t, last, dl, g0, g1),
    ensures
        g1.len() == g0.len(),
        forall|j: int|
            0 <= j < g0.len() ==> read(#[trigger] g1[j]) == read(g0[j]) + pixel_share(
                b,
                v,
                px,
                py,
                list,
                splats,
                dl,
                t,
                last,
                j as nat,
            ),
{
    if let Some(z) = last {
        let n = (z + 1) as nat;
        let (behind, light) = choose|behind: Light, light: Light|
            #![trigger
                call_ensures(leak, (t,), behind),
                pixel_reaches(power, alpha, pull, px, py, dl, list, splats, n, behind, light, g0, g1)]
            call_ensures(leak, (t,), behind) && pixel_reaches(
                power,
                alpha,
                pull,
                px,
                py,
                dl,
                list,
                splats,
                n,
                behind,
                light,
                g0,
                g1,
            );
        assert(behind == (b.leak)(t));
        lemma_taken_back(
            power,
            alpha,
            leak,
            pull,
            read,
            b,
            v,
            px,
            py,
            list,
            splats,
            dl,
            behind,
            n,
            n,
            g0,
            Back { light, grads: g1 },
        );
    }
}

// ── one tile ────────────────────────────────────────────────────────────────────────────

/// What pixel `(px, py)` of an image that is `w` wide adds to the gradient of splat `j` of a
/// list: by the gradient of its three channels, by what leaks through it, and by the last splat
/// that was blended there.
pub open spec fn share_at(
    b: WayBack,
    v: Sight,
    w: int,
    list: Seq<usize>,
    splats: Seq<Splat>,
    image: Rendered,
    dl: Seq<Single>,
    px: int,
    py: int,
    j: nat,
) -> real {
    let i = py * w + px;
    pixel_share(
        b,
        v,
        px as usize,
        py as usize,
        list,
        splats,
        [dl[3 * i], dl[3 * i + 1], dl[3 * i + 2]],
        image.t[i],
        image.last[i],
        j,
    )
}

proof fn lemma_tile_sums<
    P: Fn(usize, usize, &Splat) -> Single,
    A: Fn(&Splat, Single) -> Single,
    L: Fn(Single) -> Light,
    G: Fn(usize, usize, &Splat, Single, Single, [Single; 3], Light, SplatGradAccum) -> (
        Light,
        SplatGradAccum,
    ),
>(
    power: P,
    alpha: A,
    leak: L,
    pull: G,
    read: spec_fn(SplatGradAccum) -> real,
    b: WayBack,
    v: Sight,
    w: int,
    list: Seq<usize>,
    splats: Seq<Splat>,
    image: Rendered,
    dl: Seq<Single>,
    es: Seq<(usize, usize)>,
    g0: Seq<SplatGradAccum>,
    g1: Seq<SplatGradAccum>,
    j: int,
)
    requires
        sees(power, alpha, v),
        goes_back(leak, pull, read, b),
        g0.len() == list.len(),
        0 <= j < list.len(),
        forall|i: int|
            0 <= i < es.len() ==> (image.last[at(w, (#[trigger] es[i]).0 as int, es[i].1 as int)]
                matches Some(n) ==> n < list.len()),
        reaches(
            tile_step(power, alpha, leak, pull, w, list, splats, image.t@, image.last@, dl),
            es,
            g0,
            g1,
        ),
    ensures
        g1.len() == g0.len(),
        read(g1[j]) == read(g0[j]) + total(
            es.len(),
            |i: int|
                share_at(
                    b,
                    v,
                    w,
                    list,
                    splats,
                    image,
                    dl,
                    es[i].0 as int,
                    es[i].1 as int,
                    j as nat,
                ),
        ),
    decreases es.len(),
{
    let step = tile_step(power, alpha, leak, pull, w, list, splats, image.t@, image.last@, dl);
    let f = |i: int|
        share_at(b, v, w, list, splats, image, dl, es[i].0 as int, es[i].1 as int, j as nat);
    if es.len() == 0 {
        assert(es =~= Seq::<(usize, usize)>::empty());
        lemma_reaches_nothing(step, g0, g1);
    } else {
        let m = lemma_reaches_last(step, es, g0, g1);
        let before = es.drop_last();
        assert forall|i: int| 0 <= i < before.len() implies (image.last[at(
            w,
            (#[trigger] before[i]).0 as int,
            before[i].1 as int,
        )] matches Some(n) ==> n < list.len()) by {
            assert(before[i] == es[i]);
        }
        lemma_tile_sums(
            power,
            alpha,
            leak,
            pull,
            read,
            b,
            v,
            w,
            list,
            splats,
            image,
            dl,
            before,
            g0,
            m,
            j,
        );
        let g = |i: int|
            share_at(
                b,
                v,
                w,
                list,
                splats,
                image,
                dl,
                before[i].0 as int,
                before[i].1 as int,
                j as nat,
            );
        lemma_total_same(before.len(), g, f);
        let e = es.last();
        assert(e == es[es.len() - 1]);
        let i = at(w, e.0 as int, e.1 as int);
        pixels_add_their_share(
            power,
            alpha,
            leak,
            pull,
            read,
            b,
            v,
            e.0,
            e.1,
            list,
            splats,
            image.t[i],
            image.last[i],
            [dl[3 * i], dl[3 * i + 1], dl[3 * i + 2]],
            m,
            g1,
        );
        assert(read(g1[j]) == read(m[j]) + f(es.len() - 1));
    }
}

/// The gradient of splat `j` of the list of a tile is the sum of the shares of all its pixels, in
/// every row and every column.
pub proof fn tiles_sum_over_their_pixels<
    P: Fn(usize, usize, &Splat) -> Single,
    A: Fn(&Splat, Single) -> Single,
    L: Fn(Single) -> Light,
    G: Fn(usize, usize, &Splat, Single, Single, [Single; 3], Light, SplatGradAccum) -> (
        Light,
        SplatGradAccum,
    ),
>(
    power: P,
    alpha: A,
    leak: L,
    pull: G,
    read: spec_fn(SplatGradAccum) -> real,
    b: WayBack,
    v: Sight,
    x0: int,
    y0: int,
    x1: int,
    y1: int,
    bounds: TileBounds,
    w: int,
    list: Seq<usize>,
    splats: Seq<Splat>,
    image: Rendered,
    dl: Seq<Single>,
    grads: Seq<SplatGradAccum>,
    j: int,
)
    requires
        sees(power, alpha, v),
        goes_back(leak, pull, read, b),
        starts_empty(read),
        0 <= x0 <= x1 <= usize::MAX,
        0 <= y0 <= y1 <= usize::MAX,
        bounds.px0 == x0 && bounds.px1 == x1 && bounds.py0 == y0 && bounds.py1 == y1,
        0 <= j < list.len(),
        forall|px: int, py: int|
            x0 <= px < x1 && y0 <= py < y1 ==> (image.last[#[trigger] at(w, px, py)] matches Some(n)
                ==> n < list.len()),
        tile_pulls(
            power,
            alpha,
            leak,
            pull,
            bounds,
            w,
            list,
            splats,
            image.t@,
            image.last@,
            dl,
            grads,
        ),
    ensures
        read(grads[j]) == total(
            (y1 - y0) as nat,
            |y: int|
                total(
                    (x1 - x0) as nat,
                    |x: int|
                        share_at(b, v, w, list, splats, image, dl, x0 + x, y0 + y, j as nat),
                ),
        ),
{
    let es = tile_pixels(bounds);
    let (nx, ny) = ((x1 - x0) as nat, (y1 - y0) as nat);
    assert(bounds.width() == nx && bounds.height() == ny);
    assert(nx * ny == bounds.width() * bounds.height());
    assert(0 <= nx * ny) by (nonlinear_arith);
    assert(es.len() == nx * ny);
    assert forall|i: int| 0 <= i < es.len() implies {
        &&& (#[trigger] es[i]).0 == x0 + i % (nx as int)
        &&& es[i].1 == y0 + i / (nx as int)
        &&& x0 <= es[i].0 < x1
        &&& y0 <= es[i].1 < y1
    } by {
        if nx == 0 {
            assert(nx * ny == 0) by (nonlinear_arith)
                requires
                    nx == 0,
            ;
        }
        lemma_cell(i, nx as int, ny as int);
    }
    assert forall|i: int| 0 <= i < es.len() implies (image.last[at(
        w,
        (#[trigger] es[i]).0 as int,
        es[i].1 as int,
    )] matches Some(n) ==> n < list.len()) by {}
    let g0 = no_grads(list.len());
    assert(read(g0[j]) == 0real);
    lemma_tile_sums(
        power,
        alpha,
        leak,
        pull,
        read,
        b,
        v,
        w,
        list,
        splats,
        image,
        dl,
        es,
        g0,
        grads,
        j,
    );
    let f = |i: int|
        share_at(b, v, w, list, splats, image, dl, es[i].0 as int, es[i].1 as int, j as nat);
    lemma_total_flat(nx, ny, f);
    let rows = |y: int| total(nx, |x: int| f(y * nx + x));
    let wanted = |y: int|
        total(
            nx,
            |x: int| share_at(b, v, w, list, splats, image, dl, x0 + x, y0 + y, j as nat),
        );
    assert forall|y: int| 0 <= y < ny implies #[trigger] rows(y) == wanted(y) by {
        let here = |x: int| f(y * nx + x);
        let there = |x: int|
            share_at(b, v, w, list, splats, image, dl, x0 + x, y0 + y, j as nat);
        assert forall|x: int| 0 <= x < nx implies #[trigger] here(x) == there(x) by {
            let i = y * nx + x;
            lemma_cell_index(x, y, nx as int, ny as int);
            assert(es[i].0 == x0 + x && es[i].1 == y0 + y);
        }
        lemma_total_same(nx, here, there);
    }
    lemma_total_same(ny, rows, wanted);
}

proof fn lemma_cell_index(x: int, y: int, nx: int, ny: int)
    requires
        0 <= x < nx,
        0 <= y < ny,
    ensures
        0 <= y * nx + x < nx * ny,
        (y * nx + x) % nx == x,
        (y * nx + x) / nx == y,
{
    assert(0 <= y * nx) by (nonlinear_arith)
        requires
            0 <= y,
            0 <= nx,
    ;
    assert(y * nx + x < nx * ny) by (nonlinear_arith)
        requires
            0 <= x < nx,
            0 <= y < ny,
    ;
    vstd::arithmetic::div_mod::lemma_fundamental_div_mod_converse(y * nx + x, nx, y, x);
}

// ── all tiles ───────────────────────────────────────────────────────────────────────────

/// The gradient of entry `j` of a list, if the entry names splat `s`.
pub open spec fn entries(
    read: spec_fn(SplatGradAccum) -> real,
    list: Seq<usize>,
    grads: Seq<SplatGradAccum>,
    s: int,
) -> spec_fn(int) -> real {
    |j: int|
        if list[j] == s {
            read(grads[j])
        } else {
            0real
        }
}

/// The gradient that a tile holds of splat `s`: that of each entry of its list that names it.
pub open spec fn tile_part(
    read: spec_fn(SplatGradAccum) -> real,
    list: Seq<usize>,
    grads: Seq<SplatGradAccum>,
    s: int,
) -> real {
    total(list.len(), entries(read, list, grads, s))
}

/// The gradients among these pairs that belong to splat `s`.
pub open spec fn of_splat(
    read: spec_fn(SplatGradAccum) -> real,
    es: Seq<(usize, SplatGradAccum)>,
    s: int,
) -> spec_fn(int) -> real {
    |i: int|
        if es[i].0 == s {
            read(es[i].1)
        } else {
            0real
        }
}

proof fn lemma_added<D: Fn(SplatGradAccum, SplatGradAccum) -> SplatGradAccum>(
    sum_of: D,
    read: spec_fn(SplatGradAccum) -> real,
    es: Seq<(usize, SplatGradAccum)>,
    m0: Seq<SplatGradAccum>,
    m1: Seq<SplatGradAccum>,
    s: int,
)
    requires
        sums(sum_of, read),
        forall|i: int| 0 <= i < es.len() ==> (#[trigger] es[i]).0 < m0.len(),
        0 <= s < m0.len(),
        reaches(add_step(sum_of), es, m0, m1),
    ensures
        m1.len() == m0.len(),
        read(m1[s]) == read(m0[s]) + total(es.len(), of_splat(read, es, s)),
    decreases es.len(),
{
    let f = of_splat(read, es, s);
    if es.len() == 0 {
        assert(es =~= Seq::<(usize, SplatGradAccum)>::empty());
        lemma_reaches_nothing(add_step(sum_of), m0, m1);
    } else {
        let m = lemma_reaches_last(add_step(sum_of), es, m0, m1);
        let before = es.drop_last();
        assert forall|i: int| 0 <= i < before.len() implies (#[trigger] before[i]).0 < m0.len() by {
            assert(before[i] == es[i]);
        }
        lemma_added(sum_of, read, before, m0, m, s);
        let g = of_splat(read, before, s);
        lemma_total_same(before.len(), g, f);
        let e = es.last();
        assert(e == es[es.len() - 1]);
        assert(adds(sum_of, m, e.0, e.1, m1));
        assert(read(m1[s]) == read(m[s]) + f(es.len() - 1));
    }
}

proof fn lemma_pairs_sum(
    read: spec_fn(SplatGradAccum) -> real,
    lists: Seq<Vec<usize>>,
    tiles: Seq<Vec<SplatGradAccum>>,
    n: nat,
    bound: nat,
    s: int,
)
    requires
        n <= lists.len(),
        forall|k: int, j: int|
            0 <= k < lists.len() && 0 <= j < lists[k].len() ==> #[trigger] lists[k][j] < bound,
    ensures
        forall|i: int|
            0 <= i < all_pairs(lists, tiles, n).len() ==> (#[trigger] all_pairs(
                lists,
                tiles,
                n,
            )[i]).0 < bound,
        total(
            all_pairs(lists, tiles, n).len(),
            of_splat(read, all_pairs(lists, tiles, n), s),
        ) == total(n, |k: int| tile_part(read, lists[k]@, tiles[k]@, s)),
    decreases n,
{
    let all = all_pairs(lists, tiles, n);
    let f = of_splat(read, all, s);
    let parts = |k: int| tile_part(read, lists[k]@, tiles[k]@, s);
    if n > 0 {
        let c = (n - 1) as nat;
        let before = all_pairs(lists, tiles, c);
        let here = pairs(lists[c as int]@, tiles[c as int]@);
        lemma_pairs_sum(read, lists, tiles, c, bound, s);
        assert(all == before + here);
        lemma_total_append(before.len(), here.len(), f);
        let g = of_splat(read, before, s);
        lemma_total_same(before.len(), f, g);
        let late = |i: int| f(before.len() + i);
        let list = lists[c as int]@;
        let grads = tiles[c as int]@;
        let own = entries(read, list, grads, s);
        assert forall|i: int| 0 <= i < here.len() implies #[trigger] late(i) == own(i) by {
            assert(all[before.len() + i] == here[i]);
        }
        lemma_total_same(here.len(), late, own);
        assert(parts(c as int) == total(here.len(), own));
        assert forall|i: int| 0 <= i < all.len() implies (#[trigger] all[i]).0 < bound by {
            if i < before.len() {
                assert(all[i] == before[i]);
            } else {
                assert(all[i] == here[i - before.len()]);
                assert(lists[c as int][i - before.len()] < bound);
            }
        }
    }
}

/// The gradient of a splat is the sum over all tiles, over all entries of the list of a tile that
/// name the splat, and over all pixels of the tile, of the share of that pixel.
pub proof fn gradient_is_summed_over_the_image<
    P: Fn(usize, usize, &Splat) -> Single,
    A: Fn(&Splat, Single) -> Single,
    L: Fn(Single) -> Light,
    G: Fn(usize, usize, &Splat, Single, Single, [Single; 3], Light, SplatGradAccum) -> (
        Light,
        SplatGradAccum,
    ),
    D: Fn(SplatGradAccum, SplatGradAccum) -> SplatGradAccum,
>(
    power: P,
    alpha: A,
    leak: L,
    pull: G,
    sum_of: D,
    read: spec_fn(SplatGradAccum) -> real,
    b: WayBack,
    v: Sight,
    splats: Seq<Splat>,
    lists: Seq<Vec<usize>>,
    w: int,
    h: int,
    image: Rendered,
    dl: Seq<Single>,
    r: Seq<SplatGradAccum>,
    s: int,
)
    requires
        sees(power, alpha, v),
        goes_back(leak, pull, read, b),
        sums(sum_of, read),
        starts_empty(read),
        0 < w <= usize::MAX,
        0 < h <= usize::MAX,
        lists.len() == ((w + 15) / 16) * ((h + 15) / 16),
        forall|k: int, j: int|
            0 <= k < lists.len() && 0 <= j < lists[k].len() ==> #[trigger] lists[k][j]
                < splats.len(),
        forall|px: int, py: int|
            0 <= px < w && 0 <= py < h ==> (image.last[#[trigger] at(w, px, py)] matches Some(n)
                ==> n < lists[(py / 16) * ((w + 15) / 16) + px / 16].len()),
        image_pulls(power, alpha, leak, pull, sum_of, splats, lists, w, h, image, dl, r),
        0 <= s < splats.len(),
    ensures
        r.len() == splats.len(),
        read(r[s]) == total(
            lists.len(),
            |k: int| named_total(b, v, w, h, lists[k]@, splats, image, dl, k, s),
        ),
{
    let tiles = choose|tiles: Seq<Vec<SplatGradAccum>>|
        {
            &&& tiles.len() == lists.len()
            &&& forall|k: int|
                0 <= k < lists.len() ==> tile_pulls(
                    power,
                    alpha,
                    leak,
                    pull,
                    bounds_of(k, w, h),
                    w,
                    lists[k]@,
                    splats,
                    image.t@,
                    image.last@,
                    dl,
                    (#[trigger] tiles[k])@,
                )
            &&& reaches(
                add_step(sum_of),
                #[trigger] all_pairs(lists, tiles, lists.len()),
                no_grads(splats.len()),
                r,
            )
        };
    let m0 = no_grads(splats.len());
    lemma_pairs_sum(read, lists, tiles, lists.len(), splats.len(), s);
    lemma_added(sum_of, read, all_pairs(lists, tiles, lists.len()), m0, r, s);
    assert(read(m0[s]) == 0real);
    let parts = |k: int| tile_part(read, lists[k]@, tiles[k]@, s);
    let wanted = |k: int| named_total(b, v, w, h, lists[k]@, splats, image, dl, k, s);
    assert forall|k: int| 0 <= k < lists.len() implies #[trigger] parts(k) == wanted(k) by {
        let list = lists[k]@;
        let grads = tiles[k]@;
        let here = entries(read, list, grads, s);
        let there = named_totals(b, v, w, h, list, splats, image, dl, k, s);
        assert forall|j: int| 0 <= j < list.len() implies #[trigger] here(j) == there(j) by {
            lemma_tile_total(
                power,
                alpha,
                leak,
                pull,
                read,
                b,
                v,
                w,
                h,
                lists,
                splats,
                image,
                dl,
                grads,
                k,
                j,
            );
        }
        lemma_total_same(list.len(), here, there);
        assert(parts(k) == total(list.len(), here));
        assert(wanted(k) == total(list.len(), there));
    }
    lemma_total_same(lists.len(), parts, wanted);
}

/// The shares of all pixels of tile `k`: up to 16 columns from `16 * (k % nx)` on, and up to 16
/// rows from `16 * (k / nx)` on, where `nx` tiles stand in a row.
pub open spec fn tile_total(
    b: WayBack,
    v: Sight,
    w: int,
    h: int,
    list: Seq<usize>,
    splats: Seq<Splat>,
    image: Rendered,
    dl: Seq<Single>,
    k: int,
    j: int,
) -> real {
    let nx = (w + 15) / 16;
    let (x0, y0) = (16 * (k % nx), 16 * (k / nx));
    let columns = if x0 + 16 <= w {
        16nat
    } else {
        (w - x0) as nat
    };
    let rows = if y0 + 16 <= h {
        16nat
    } else {
        (h - y0) as nat
    };
    total(
        rows,
        |y: int|
            total(
                columns,
                |x: int| share_at(b, v, w, list, splats, image, dl, x0 + x, y0 + y, j as nat),
            ),
    )
}

/// The shares of all pixels of tile `k` in the gradient of entry `j` of its list, if the entry
/// names splat `s`.
pub open spec fn named_totals(
    b: WayBack,
    v: Sight,
    w: int,
    h: int,
    list: Seq<usize>,
    splats: Seq<Splat>,
    image: Rendered,
    dl: Seq<Single>,
    k: int,
    s: int,
) -> spec_fn(int) -> real {
    |j: int|
        if list[j] == s {
            tile_total(b, v, w, h, list, splats, image, dl, k, j)
        } else {
            0real
        }
}

/// The shares of all pixels of tile `k`, for each entry of its list that names splat `s`.
pub open spec fn named_total(
    b: WayBack,
    v: Sight,
    w: int,
    h: int,
    list: Seq<usize>,
    splats: Seq<Splat>,
    image: Rendered,
    dl: Seq<Single>,
    k: int,
    s: int,
) -> real {
    total(list.len(), named_totals(b, v, w, h, list, splats, image, dl, k, s))
}

proof fn lemma_tile_total<
    P: Fn(usize, usize, &Splat) -> Single,
    A: Fn(&Splat, Single) -> Single,
    L: Fn(Single) -> Light,
    G: Fn(usize, usize, &Splat, Single, Single, [Single; 3], Light, SplatGradAccum) -> (
        Light,
        SplatGradAccum,
    ),
>(
    power: P,
    alpha: A,
    leak: L,
    pull: G,
    read: spec_fn(SplatGradAccum) -> real,
    b: WayBack,
    v: Sight,
    w: int,
    h: int,
    lists: Seq<Vec<usize>>,
    splats: Seq<Splat>,
    image: Rendered,
    dl: Seq<Single>,
    grads: Seq<SplatGradAccum>,
    k: int,
    j: int,
)
    requires
        sees(power, alpha, v),
        goes_back(leak, pull, read, b),
        starts_empty(read),
        0 < w <= usize::MAX,
        0 < h <= usize::MAX,
        lists.len() == ((w + 15) / 16) * ((h + 15) / 16),
        0 <= k < lists.len(),
        forall|px: int, py: int|
            0 <= px < w && 0 <= py < h ==> (image.last[#[trigger] at(w, px, py)] matches Some(n)
                ==> n < lists[(py / 16) * ((w + 15) / 16) + px / 16].len()),
        tile_pulls(
            power,
            alpha,
            leak,
            pull,
            bounds_of(k, w, h),
            w,
            lists[k]@,
            splats,
            image.t@,
            image.last@,
            dl,
            grads,
        ),
        0 <= j < lists[k].len(),
    ensures
        read(grads[j]) == tile_total(b, v, w, h, lists[k]@, splats, image, dl, k, j),
{
    let nx = (w + 15) / 16;
    let ny = (h + 15) / 16;
    assert(tiles_over(w as nat) == nx && tiles_over(h as nat) == ny);
    lemma_cell(k, nx, ny);
    let (x0, y0) = (16 * (k % nx), 16 * (k / nx));
    let x1 = if x0 + 16 <= w {
        x0 + 16
    } else {
        w
    };
    let y1 = if y0 + 16 <= h {
        y0 + 16
    } else {
        h
    };
    let bounds = bounds_of(k, w, h);
    assert(x0 < w && y0 < h);
    assert(bounds.px0 == x0 && bounds.px1 == x1 && bounds.py0 == y0 && bounds.py1 == y1);
    assert forall|px: int, py: int| x0 <= px < x1 && y0 <= py < y1 implies (image.last[#[trigger] at(
        w,
        px,
        py,
    )] matches Some(n) ==> n < lists[k]@.len()) by {
        assert(px / 16 == k % nx && py / 16 == k / nx);
        vstd::arithmetic::div_mod::lemma_fundamental_div_mod(k, nx);
        assert(nx * (k / nx) == (k / nx) * nx) by (nonlinear_arith);
        assert((py / 16) * nx + px / 16 == k);
    }
    tiles_sum_over_their_pixels(
        power,
        alpha,
        leak,
        pull,
        read,
        b,
        v,
        x0,
        y0,
        x1,
        y1,
        bounds,
        w,
        lists[k]@,
        splats,
        image,
        dl,
        grads,
        j,
    );
}

} // verus!
