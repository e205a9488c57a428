//! What compositing and its reverse have to do with each other.

use super::backward::{back_step, down, lasts_listed, pixel_reaches, pulls, Back, SplatGradAccum};
use super::forward::{
    at, blends, capped, composited, fades_to, image_outcome, pixel_outcome, pixel_step, shows, tile_of,
    untouched, Light, Pixel, Rendered, MAX_ALPHA, TRANSMITTANCE_STOP,
};
use super::splat::{Splat, ALPHA_THRESHOLD};
use super::tiles::{bounds_of, pixel_has_one_tile, tiles_over};
use crate::num::fold::{
    lemma_reaches_last, lemma_reaches_nothing, lemma_reaches_push, reaches, upto,
};
use crate::num::single::Single;
use vstd::prelude::*;

verus! {

// ── the last blended splat ──────────────────────────────────────────────────────────────

proof fn lemma_last_below<
    P: Fn(usize, usize, &Splat) -> Single,
    A: Fn(&Splat, Single) -> Single,
    B: Fn(&Splat, Single, Light) -> Light,
>(
    power: P,
    alpha: A,
    blend: B,
    start: Light,
    px: usize,
    py: usize,
    list: Seq<usize>,
    splats: Seq<Splat>,
    k: nat,
    p: Pixel,
)
    requires
        k <= usize::MAX,
        reaches(
            pixel_step(power, alpha, blend, px, py, list, splats),
            upto(k),
            untouched(start),
            p,
        ),
    ensures
        p.last matches Some(n) ==> n < k,
    decreases k,
{
    let step = pixel_step(power, alpha, blend, px, py, list, splats);
    if k == 0 {
        assert(upto(0) =~= Seq::<int>::empty());
        lemma_reaches_nothing(step, untouched(start), p);
    } else {
        let q = lemma_reaches_last(step, upto(k), untouched(start), p);
        assert(upto(k).drop_last() =~= upto((k - 1) as nat));
        lemma_last_below(power, alpha, blend, start, px, py, list, splats, (k - 1) as nat, q);
        assert(upto(k).last() == k - 1);
    }
}

/// The last splat that a pixel blended is one of its tile's list.
pub proof fn last_blended_is_listed<
    P: Fn(usize, usize, &Splat) -> Single,
    A: Fn(&Splat, Single) -> Single,
    B: Fn(&Splat, Single, Light) -> Light,
>(
    power: P,
    alpha: A,
    blend: B,
    start: Light,
    px: usize,
    py: usize,
    list: Seq<usize>,
    splats: Seq<Splat>,
    fin: Pixel,
)
    requires
        list.len() <= usize::MAX,
        composited(power, alpha, blend, start, px, py, list, splats, fin),
    ensures
        fin.last matches Some(n) ==> n < list.len(),
{
    lemma_last_below(power, alpha, blend, start, px, py, list, splats, list.len(), fin);
}

/// What a forward pass leaves behind is what a backward pass asks for.
pub proof fn forward_feeds_backward<
    P: Fn(usize, usize, &Splat) -> Single,
    A: Fn(&Splat, Single) -> Single,
    B: Fn(&Splat, Single, Light) -> Light,
    O: Fn(Light) -> [Single; 3],
>(
    power: P,
    alpha: A,
    blend: B,
    over: O,
    start: Light,
    lists: Seq<Vec<usize>>,
    splats: Seq<Splat>,
    w: int,
    h: int,
    out: Rendered,
    k: int,
)
    requires
        0 <= w,
        0 <= h,
        w + 16 <= usize::MAX,
        h + 16 <= usize::MAX,
        lists.len() == tiles_over(w as nat) * tiles_over(h as nat),
        image_outcome(power, alpha, blend, over, start, lists, splats, w, h, &out),
        0 <= k < lists.len(),
        lists[k].len() > 0,
    ensures
        lasts_listed(bounds_of(k, w, h), w, lists[k]@, out.last@),
{
    let b = bounds_of(k, w, h);
    assert forall|px: int, py: int| b.holds(px, py) implies (out.last@[#[trigger] at(
        w,
        px,
        py,
    )] matches Some(n) ==> n < lists[k]@.len()) by {
        super::forward::lemma_bounds_within(k, w, h);
        pixel_has_one_tile(px, py, w, h, k);
        assert(tile_of(w, px, py) == k);
        let i = at(w, px, py);
        let (x, y) = (px as usize, py as usize);
        assert(tile_of(w, x as int, y as int) == k);
        assert(pixel_outcome(
            power,
            alpha,
            blend,
            over,
            start,
            x,
            y,
            lists[k]@,
            splats,
            [out.rgb[3 * i], out.rgb[3 * i + 1], out.rgb[3 * i + 2]],
            out.t[i],
            out.last[i],
        ));
        let fin = choose|fin: Pixel| #[trigger]
            composited(power, alpha, blend, start, x, y, lists[k]@, splats, fin) && out.t[i] == fin.light.t
                && out.last[i] == fin.last && call_ensures(
                over,
                (fin.light,),
                [out.rgb[3 * i], out.rgb[3 * i + 1], out.rgb[3 * i + 2]],
            );
        last_blended_is_listed(power, alpha, blend, start, x, y, lists[k]@, splats, fin);
    }
}

// ── forth and back ──────────────────────────────────────────────────────────────────────

/// The kernels that decide whether a splat shows give one answer.
pub open spec fn decided<P: Fn(usize, usize, &Splat) -> Single, A: Fn(&Splat, Single) -> Single>(
    power: P,
    alpha: A,
) -> bool {
    &&& forall|x: usize, y: usize, s: &Splat, p: Single, q: Single|
        #![trigger call_ensures(power, (x, y, s), p), call_ensures(power, (x, y, s), q)]
        call_ensures(power, (x, y, s), p) && call_ensures(power, (x, y, s), q) ==> p == q
    &&& forall|s: &Splat, e: Single, p: Single, q: Single|
        #![trigger call_ensures(alpha, (s, e), p), call_ensures(alpha, (s, e), q)]
        call_ensures(alpha, (s, e), p) && call_ensures(alpha, (s, e), q) ==> p == q
}

/// How strongly splat `i` of the list shows at a pixel.
pub open spec fn shown<P: Fn(usize, usize, &Splat) -> Single, A: Fn(&Splat, Single) -> Single>(
    power: P,
    alpha: A,
    px: usize,
    py: usize,
    list: Seq<usize>,
    splats: Seq<Splat>,
    i: int,
) -> Option<Single> {
    choose|a: Option<Single>| #[trigger] shows(power, alpha, px, py, splats[list[i] as int], a)
}

/// Which splats of the list, from `lo` on and before `hi`, show at a pixel, in order.
pub open spec fn visible<P: Fn(usize, usize, &Splat) -> Single, A: Fn(&Splat, Single) -> Single>(
    power: P,
    alpha: A,
    px: usize,
    py: usize,
    list: Seq<usize>,
    splats: Seq<Splat>,
    lo: int,
    hi: int,
) -> Seq<int>
    decreases hi - lo,
{
    if hi <= lo {
        Seq::empty()
    } else {
        let fewer = visible(power, alpha, px, py, list, splats, lo, hi - 1);
        if shown(power, alpha, px, py, list, splats, hi - 1) is Some {
            fewer.push(hi - 1)
        } else {
            fewer
        }
    }
}

proof fn lemma_shown<P: Fn(usize, usize, &Splat) -> Single, A: Fn(&Splat, Single) -> Single>(
    power: P,
    alpha: A,
    px: usize,
    py: usize,
    list: Seq<usize>,
    splats: Seq<Splat>,
    i: int,
    a: Option<Single>,
)
    requires
        decided(power, alpha),
        shows(power, alpha, px, py, splats[list[i] as int], a),
    ensures
        shown(power, alpha, px, py, list, splats, i) == a,
{
    let s = splats[list[i] as int];
    let b = shown(power, alpha, px, py, list, splats, i);
    assert(shows(power, alpha, px, py, s, b));
    let p = choose|p: Single| #[trigger]
        call_ensures(power, (px, py, &s), p) && if (Single { bits: crate::num::single::ZERO }).below(
            p,
        ) {
            a is None
        } else {
            fades_to(alpha, s, p, a)
        };
    let q = choose|q: Single| #[trigger]
        call_ensures(power, (px, py, &s), q) && if (Single { bits: crate::num::single::ZERO }).below(
            q,
        ) {
            b is None
        } else {
            fades_to(alpha, s, q, b)
        };
    assert(p == q);
}

/// Whatever is blended is neither too faint to leave a trace nor more opaque than the cap.
pub proof fn blended_alpha_is_bounded<
    P: Fn(usize, usize, &Splat) -> Single,
    A: Fn(&Splat, Single) -> Single,
>(power: P, alpha: A, px: usize, py: usize, s: Splat, a: Single)
    requires
        shows(power, alpha, px, py, s, Some(a)),
    ensures
        (Single { bits: ALPHA_THRESHOLD }).at_most(capped(a)),
        capped(a).at_most(Single { bits: MAX_ALPHA }),
{
}

/// Blending splat `i` where it shows.
pub open spec fn blend_visible<
    P: Fn(usize, usize, &Splat) -> Single,
    A: Fn(&Splat, Single) -> Single,
    B: Fn(&Splat, Single, Light) -> Light,
>(
    power: P,
    alpha: A,
    blend: B,
    px: usize,
    py: usize,
    list: Seq<usize>,
    splats: Seq<Splat>,
) -> spec_fn(Light, int, Light) -> bool {
    |l0: Light, i: int, l1: Light|
        call_ensures(
            blend,
            (
                &splats[list[i] as int],
                capped(shown(power, alpha, px, py, list, splats, i)->0),
                l0,
            ),
            l1,
        )
}

/// How many splats of the list come up to the last one that was blended.
pub open spec fn reached(p: Pixel) -> int {
    match p.last {
        None => 0,
        Some(n) => n + 1,
    }
}

proof fn lemma_forward<
    P: Fn(usize, usize, &Splat) -> Single,
    A: Fn(&Splat, Single) -> Single,
    B: Fn(&Splat, Single, Light) -> Light,
>(
    power: P,
    alpha: A,
    blend: B,
    start: Light,
    px: usize,
    py: usize,
    list: Seq<usize>,
    splats: Seq<Splat>,
    k: nat,
    p: Pixel,
)
    requires
        decided(power, alpha),
        k <= usize::MAX,
        reaches(
            pixel_step(power, alpha, blend, px, py, list, splats),
            upto(k),
            untouched(start),
            p,
        ),
    ensures
        reaches(
            blend_visible(power, alpha, blend, px, py, list, splats),
            visible(power, alpha, px, py, list, splats, 0, reached(p)),
            start,
            p.light,
        ),
        p.done ==> p.light.t.below(Single { bits: TRANSMITTANCE_STOP }),
        !p.done ==> visible(power, alpha, px, py, list, splats, 0, reached(p)) == visible(
            power,
            alpha,
            px,
            py,
            list,
            splats,
            0,
            k as int,
        ),
    decreases k,
{
    let step = pixel_step(power, alpha, blend, px, py, list, splats);
    let only = blend_visible(power, alpha, blend, px, py, list, splats);
    if k == 0 {
        assert(upto(0) =~= Seq::<int>::empty());
        lemma_reaches_nothing(step, untouched(start), p);
        lemma_reaches_nothing(only, start, p.light);
    } else {
        let p0 = lemma_reaches_last(step, upto(k), untouched(start), p);
        assert(upto(k).drop_last() =~= upto((k - 1) as nat));
        assert(upto(k).last() == k - 1);
        lemma_forward(power, alpha, blend, start, px, py, list, splats, (k - 1) as nat, p0);
        if !p0.done {
            let i = k - 1;
            let s = splats[list[i] as int];
            let a = choose|a: Option<Single>| #[trigger]
                shows(power, alpha, px, py, s, a) && blends(blend, s, i, a, p0, p);
            lemma_shown(power, alpha, px, py, list, splats, i, a);
            if let Some(q) = a {
                let before = visible(power, alpha, px, py, list, splats, 0, i);
                lemma_reaches_push(only, before, start, p0.light, i, p.light);
                assert(reached(p) == k);
            }
        }
    }
}

/// A pixel's light is that of the splats that show there, each blended once, in the order of
/// the list, up to the last one blended.  If the pixel is not done none was left out; if it
/// is, hardly anything would shine through.
pub proof fn forward_blends_what_shows<
    P: Fn(usize, usize, &Splat) -> Single,
    A: Fn(&Splat, Single) -> Single,
    B: Fn(&Splat, Single, Light) -> Light,
>(
    power: P,
    alpha: A,
    blend: B,
    start: Light,
    px: usize,
    py: usize,
    list: Seq<usize>,
    splats: Seq<Splat>,
    fin: Pixel,
)
    requires
        decided(power, alpha),
        list.len() <= usize::MAX,
        composited(power, alpha, blend, start, px, py, list, splats, fin),
    ensures
        reaches(
            blend_visible(power, alpha, blend, px, py, list, splats),
            visible(power, alpha, px, py, list, splats, 0, reached(fin)),
            start,
            fin.light,
        ),
        fin.done ==> fin.light.t.below(Single { bits: TRANSMITTANCE_STOP }),
        !fin.done ==> visible(power, alpha, px, py, list, splats, 0, reached(fin)) == visible(
            power,
            alpha,
            px,
            py,
            list,
            splats,
            0,
            list.len() as int,
        ),
{
    lemma_forward(power, alpha, blend, start, px, py, list, splats, list.len(), fin);
}

/// Taking back splat `i` where it shows.
pub open spec fn pull_visible<
    P: Fn(usize, usize, &Splat) -> Single,
    A: Fn(&Splat, Single) -> Single,
    G: Fn(usize, usize, &Splat, Single, Single, [Single; 3], Light, SplatGradAccum) -> (
        Light,
        SplatGradAccum,
    ),
>(
    power: P,
    alpha: A,
    pull: G,
    px: usize,
    py: usize,
    dl: [Single; 3],
    list: Seq<usize>,
    splats: Seq<Splat>,
) -> spec_fn(Back, int, Back) -> bool {
    |s0: Back, i: int, s1: Back|
        pulls(
            pull,
            px,
            py,
            splats[list[i] as int],
            i,
            Some(shown(power, alpha, px, py, list, splats, i)->0),
            dl,
            s0,
            s1,
        )
}

proof fn lemma_visible_split<
    P: Fn(usize, usize, &Splat) -> Single,
    A: Fn(&Splat, Single) -> Single,
>(
    power: P,
    alpha: A,
    px: usize,
    py: usize,
    list: Seq<usize>,
    splats: Seq<Splat>,
    lo: int,
    hi: int,
)
    requires
        lo < hi,
    ensures
        visible(power, alpha, px, py, list, splats, lo, hi) == visible(
            power,
            alpha,
            px,
            py,
            list,
            splats,
            lo,
            lo + 1,
        ) + visible(power, alpha, px, py, list, splats, lo + 1, hi),
    decreases hi - lo,
{
    let v = |a: int, b: int| visible(power, alpha, px, py, list, splats, a, b);
    if hi == lo + 1 {
        assert(v(lo, hi) + v(lo + 1, hi) =~= v(lo, hi));
    } else {
        lemma_visible_split(power, alpha, px, py, list, splats, lo, hi - 1);
        assert(v(lo, hi) =~= v(lo, lo + 1) + v(lo + 1, hi));
    }
}

proof fn lemma_backward<
    P: Fn(usize, usize, &Splat) -> Single,
    A: Fn(&Splat, Single) -> Single,
    G: Fn(usize, usize, &Splat, Single, Single, [Single; 3], Light, SplatGradAccum) -> (
        Light,
        SplatGradAccum,
    ),
>(
    power: P,
    alpha: A,
    pull: G,
    px: usize,
    py: usize,
    dl: [Single; 3],
    list: Seq<usize>,
    splats: Seq<Splat>,
    n: nat,
    k: nat,
    s0: Back,
    s1: Back,
)
    requires
        decided(power, alpha),
        k <= n,
        reaches(back_step(power, alpha, pull, px, py, dl, list, splats), down(n, k), s0, s1),
    ensures
        reaches(
            pull_visible(power, alpha, pull, px, py, dl, list, splats),
            visible(power, alpha, px, py, list, splats, n - k, n as int).reverse(),
            s0,
            s1,
        ),
    decreases k,
{
    let step = back_step(power, alpha, pull, px, py, dl, list, splats);
    let only = pull_visible(power, alpha, pull, px, py, dl, list, splats);
    let seen = visible(power, alpha, px, py, list, splats, n - k, n as int);
    if k == 0 {
        assert(down(n, 0) =~= Seq::<int>::empty());
        lemma_reaches_nothing(step, s0, s1);
        assert(seen.reverse() =~= Seq::<int>::empty());
        lemma_reaches_nothing(only, s0, s1);
    } else {
        let m = lemma_reaches_last(step, down(n, k), s0, s1);
        let i = n - k;
        assert(down(n, k).drop_last() =~= down(n, (k - 1) as nat));
        assert(down(n, k).last() == i);
        lemma_backward(power, alpha, pull, px, py, dl, list, splats, n, (k - 1) as nat, s0, m);
        lemma_visible_split(power, alpha, px, py, list, splats, i, n as int);
        let s = splats[list[i] as int];
        let a = choose|a: Option<Single>| #[trigger]
            shows(power, alpha, px, py, s, a) && pulls(pull, px, py, s, i, a, dl, m, s1);
        lemma_shown(power, alpha, px, py, list, splats, i, a);
        let rest = visible(power, alpha, px, py, list, splats, i + 1, n as int);
        let here = visible(power, alpha, px, py, list, splats, i, i + 1);
        let none = visible(power, alpha, px, py, list, splats, i, i);
        assert(none =~= Seq::<int>::empty());
        if a is Some {
            assert(here =~= seq![i]);
            lemma_reaches_push(only, rest.reverse(), s0, m, i, s1);
            assert(seen.reverse() =~= rest.reverse().push(i));
        } else {
            assert(here =~= Seq::<int>::empty());
            assert(seen.reverse() =~= rest.reverse());
        }
    }
}

/// The backward pass takes back exactly the splats that the forward pass blended at a pixel,
/// each once, in the reverse order: the splats that show among the first `n` of the list,
/// where `n` is how far the forward pass reached.
pub proof fn backward_reverses_forward<
    P: Fn(usize, usize, &Splat) -> Single,
    A: Fn(&Splat, Single) -> Single,
    G: Fn(usize, usize, &Splat, Single, Single, [Single; 3], Light, SplatGradAccum) -> (
        Light,
        SplatGradAccum,
    ),
>(
    power: P,
    alpha: A,
    pull: G,
    px: usize,
    py: usize,
    dl: [Single; 3],
    list: Seq<usize>,
    splats: Seq<Splat>,
    n: nat,
    behind: Light,
    light: Light,
    g0: Seq<SplatGradAccum>,
    g1: Seq<SplatGradAccum>,
)
    requires
        decided(power, alpha),
        pixel_reaches(power, alpha, pull, px, py, dl, list, splats, n, behind, light, g0, g1),
    ensures
        reaches(
            pull_visible(power, alpha, pull, px, py, dl, list, splats),
            visible(power, alpha, px, py, list, splats, 0, n as int).reverse(),
            (Back { light: behind, grads: g0 }),
            (Back { light, grads: g1 }),
        ),
{
    lemma_backward(
        power,
        alpha,
        pull,
        px,
        py,
        dl,
        list,
        splats,
        n,
        n,
        Back { light: behind, grads: g0 },
        Back { light, grads: g1 },
    );
}

} // verus!
