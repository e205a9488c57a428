//! What light a pixel gathers.

use super::forward::{
    at, blends, capped, composited, fades_to, image_outcome, pixel_step, shows, tile_of, untouched,
    Light, Pixel, Rendered, MAX_ALPHA, TRANSMITTANCE_STOP,
};
use super::splat::{Splat, ALPHA_THRESHOLD};
use super::tiles::tiles_over;
use crate::num::fold::{lemma_reaches_last, lemma_reaches_nothing, reaches, upto};
use crate::num::reading::less;
use crate::num::single::{Single, ONE, ZERO};
use vstd::prelude::*;

verus! {

/// What the kernels find of a splat at a pixel: its exponent, and how strongly it shows by it.
pub struct Sight {
    pub power: spec_fn(usize, usize, Splat) -> Single,
    pub alpha: spec_fn(Splat, Single) -> Single,
}

/// The kernels give this.
pub open spec fn sees<
    P: Fn(usize, usize, &Splat) -> Single,
    A: Fn(&Splat, Single) -> Single,
>(power: P, alpha: A, v: Sight) -> bool {
    &&& forall|x: usize, y: usize, s: &Splat, r: Single| #[trigger]
        call_ensures(power, (x, y, s), r) ==> r == (v.power)(x, y, *s)
    &&& forall|s: &Splat, p: Single, r: Single| #[trigger]
        call_ensures(alpha, (s, p), r) ==> r == (v.alpha)(*s, p)
}

/// A strength that is not a number, or is more than the most, is the most.
pub open spec fn at_most_all(a: Single) -> Single {
    let most = Single { bits: MAX_ALPHA };
    if a.nan() || a.value() > most.value() {
        most
    } else {
        a
    }
}

/// How strongly a splat is blended at a pixel; not at all, where its exponent is positive or it
/// is fainter than the threshold.
pub open spec fn strength(v: Sight, px: usize, py: usize, s: Splat) -> Option<Single> {
    let p = (v.power)(px, py, s);
    let a = at_most_all((v.alpha)(s, p));
    if less(Single { bits: ZERO }, p) || less(a, Single { bits: ALPHA_THRESHOLD }) {
        None
    } else {
        Some(a)
    }
}

/// `blend` lays a splat of strength `a` behind the light that was gathered: of its colour, as
/// much is added as shines through, and less shines through after it.
pub open spec fn lays_behind<B: Fn(&Splat, Single, Light) -> Light>(
    blend: B,
    val: spec_fn(Single) -> real,
) -> bool {
    forall|s: &Splat, a: Single, l: Light, r: Light| #[trigger]
        call_ensures(blend, (s, a, l), r) ==> {
            &&& val(r.red) == val(l.red) + val(l.t) * (val(a) * val(s.color[0]))
            &&& val(r.green) == val(l.green) + val(l.t) * (val(a) * val(s.color[1]))
            &&& val(r.blue) == val(l.blue) + val(l.t) * (val(a) * val(s.color[2]))
            &&& val(r.t) == val(l.t) * (1real - val(a))
        }
}

/// The share of light that splat `i` of a list leaves.
pub open spec fn leaves(
    val: spec_fn(Single) -> real,
    v: Sight,
    px: usize,
    py: usize,
    list: Seq<usize>,
    splats: Seq<Splat>,
    i: int,
) -> real {
    match strength(v, px, py, splats[list[i] as int]) {
        Some(a) => 1real - val(a),
        None => 1real,
    }
}

/// The light of channel `ch` that splat `i` of a list sends.
pub open spec fn sends(
    val: spec_fn(Single) -> real,
    v: Sight,
    px: usize,
    py: usize,
    list: Seq<usize>,
    splats: Seq<Splat>,
    ch: int,
    i: int,
) -> real {
    match strength(v, px, py, splats[list[i] as int]) {
        Some(a) => val(a) * val(splats[list[i] as int].color[ch]),
        None => 0real,
    }
}

/// The share of light from behind that the first `n` splats let through, out of `t0`.
pub open spec fn through(
    val: spec_fn(Single) -> real,
    v: Sight,
    px: usize,
    py: usize,
    list: Seq<usize>,
    splats: Seq<Splat>,
    t0: real,
    n: nat,
) -> real
    decreases n,
{
    if n == 0 {
        t0
    } else {
        through(val, v, px, py, list, splats, t0, (n - 1) as nat) * leaves(
            val,
            v,
            px,
            py,
            list,
            splats,
            n - 1,
        )
    }
}

/// The light of channel `ch` that arrives from the first `n` splats: from each, what it sends and
/// those before it let through.
pub open spec fn arrives(
    val: spec_fn(Single) -> real,
    v: Sight,
    px: usize,
    py: usize,
    list: Seq<usize>,
    splats: Seq<Splat>,
    t0: real,
    ch: int,
    n: nat,
) -> real
    decreases n,
{
    if n == 0 {
        0real
    } else {
        arrives(val, v, px, py, list, splats, t0, ch, (n - 1) as nat) + through(
            val,
            v,
            px,
            py,
            list,
            splats,
            t0,
            (n - 1) as nat,
        ) * sends(val, v, px, py, list, splats, ch, n - 1)
    }
}

/// A pixel after the first `n` splats of its list.
pub open spec fn after(
    val: spec_fn(Single) -> real,
    v: Sight,
    px: usize,
    py: usize,
    list: Seq<usize>,
    splats: Seq<Splat>,
    start: Light,
    n: nat,
    p: Pixel,
) -> bool {
    let t0 = val(start.t);
    &&& val(p.light.t) == through(val, v, px, py, list, splats, t0, n)
    &&& val(p.light.red) == val(start.red) + arrives(val, v, px, py, list, splats, t0, 0, n)
    &&& val(p.light.green) == val(start.green) + arrives(val, v, px, py, list, splats, t0, 1, n)
    &&& val(p.light.blue) == val(start.blue) + arrives(val, v, px, py, list, splats, t0, 2, n)
    &&& forall|i: int|
        0 <= i < n && (p.last is None || p.last->0 < i) ==> #[trigger] strength(
            v,
            px,
            py,
            splats[list[i] as int],
        ) is None
    &&& p.last matches Some(i) ==> i < n && strength(v, px, py, splats[list[i as int] as int]) is Some
}

pub proof fn lemma_shown<
    P: Fn(usize, usize, &Splat) -> Single,
    A: Fn(&Splat, Single) -> Single,
>(power: P, alpha: A, v: Sight, px: usize, py: usize, s: Splat, a: Option<Single>)
    requires
        sees(power, alpha, v),
        shows(power, alpha, px, py, s, a),
    ensures
        strength(v, px, py, s) == match a {
            Some(q) => Some(capped(q)),
            None => None,
        },
{
    let p = choose|p: Single| #[trigger]
        call_ensures(power, (px, py, &s), p) && if (Single { bits: ZERO }).below(p) {
            a is None
        } else {
            fades_to(alpha, s, p, a)
        };
    assert(p == (v.power)(px, py, s));
    assert(!(Single { bits: MAX_ALPHA }).nan());
}

proof fn lemma_after<
    P: Fn(usize, usize, &Splat) -> Single,
    A: Fn(&Splat, Single) -> Single,
    B: Fn(&Splat, Single, Light) -> Light,
>(
    power: P,
    alpha: A,
    blend: B,
    val: spec_fn(Single) -> real,
    v: Sight,
    start: Light,
    px: usize,
    py: usize,
    list: Seq<usize>,
    splats: Seq<Splat>,
    stop: real,
    k: nat,
    p: Pixel,
) -> (n: nat)
    requires
        sees(power, alpha, v),
        lays_behind(blend, val),
        forall|t: Single|
            #![trigger val(t)]
            less(t, Single { bits: TRANSMITTANCE_STOP }) <==> val(t) < stop,
        val(start.t) >= stop,
        k <= list.len() <= usize::MAX,
        reaches(pixel_step(power, alpha, blend, px, py, list, splats), upto(k), untouched(start), p),
    ensures
        n <= k,
        after(val, v, px, py, list, splats, start, n, p),
        p.done <==> through(val, v, px, py, list, splats, val(start.t), n) < stop,
        p.done || n == k,
        forall|i: nat|
            i < n ==> #[trigger] through(val, v, px, py, list, splats, val(start.t), i) >= stop,
    decreases k,
{
    let step = pixel_step(power, alpha, blend, px, py, list, splats);
    let t0 = val(start.t);
    if k == 0 {
        assert(upto(0) =~= Seq::<int>::empty());
        lemma_reaches_nothing(step, untouched(start), p);
        0
    } else {
        let m = (k - 1) as nat;
        let q = lemma_reaches_last(step, upto(k), untouched(start), p);
        assert(upto(k).drop_last() =~= upto(m));
        assert(upto(k).last() == m);
        let n = lemma_after(power, alpha, blend, val, v, start, px, py, list, splats, stop, m, q);
        if q.done {
            n
        } else {
            let s = splats[list[m as int] as int];
            let a = choose|a: Option<Single>| #[trigger]
                shows(power, alpha, px, py, s, a) && blends(blend, s, m as int, a, q, p);
            lemma_shown(power, alpha, v, px, py, s, a);
            let t = through(val, v, px, py, list, splats, t0, m);
            match a {
                None => {
                    assert(t * 1real == t) by (nonlinear_arith);
                    assert(t * 0real == 0real) by (nonlinear_arith);
                },
                Some(c) => {
                    let l = choose|l: Light| #[trigger]
                        call_ensures(blend, (&s, capped(c), q.light), l) && p == (Pixel {
                            light: l,
                            last: Some(m as usize),
                            done: l.t.below(Single { bits: TRANSMITTANCE_STOP }),
                        });
                    assert(call_ensures(blend, (&s, capped(c), q.light), l));
                    assert(less(l.t, Single { bits: TRANSMITTANCE_STOP }) <==> val(l.t) < stop);
                },
            }
            assert(leaves(val, v, px, py, list, splats, m as int) == match a {
                Some(c) => 1real - val(capped(c)),
                None => 1real,
            });
            k
        }
    }
}

/// A pixel gathers the light of the splats of its tile's list from front to back: each sends
/// its colour, by its strength, through all that are before it, and each lets less of the light
/// behind it through.  The first `n` splats take part: all, or as many as it takes until less
/// than the least shines through, and no more.
pub proof fn light_comes_from_front_to_back<
    P: Fn(usize, usize, &Splat) -> Single,
    A: Fn(&Splat, Single) -> Single,
    B: Fn(&Splat, Single, Light) -> Light,
>(
    power: P,
    alpha: A,
    blend: B,
    val: spec_fn(Single) -> real,
    v: Sight,
    start: Light,
    px: usize,
    py: usize,
    list: Seq<usize>,
    splats: Seq<Splat>,
    stop: real,
    fin: Pixel,
) -> (n: nat)
    requires
        sees(power, alpha, v),
        lays_behind(blend, val),
        forall|t: Single|
            #![trigger val(t)]
            less(t, Single { bits: TRANSMITTANCE_STOP }) <==> val(t) < stop,
        val(start.t) >= stop,
        list.len() <= usize::MAX,
        composited(power, alpha, blend, start, px, py, list, splats, fin),
    ensures
        n <= list.len(),
        after(val, v, px, py, list, splats, start, n, fin),
        n < list.len() ==> through(val, v, px, py, list, splats, val(start.t), n) < stop,
        forall|i: nat|
            i < n ==> #[trigger] through(val, v, px, py, list, splats, val(start.t), i) >= stop,
{
    lemma_after(
        power,
        alpha,
        blend,
        val,
        v,
        start,
        px,
        py,
        list,
        splats,
        stop,
        list.len(),
        fin,
    )
}

/// Pixel `(px, py)` of an image `w` wide is made of the list of the tile it lies in, 16 by 16
/// pixels large, and stands in row `py`, column `px`.  Where that list is empty the pixel is
/// black, and everything shines through.
pub proof fn every_pixel_shows_its_tile<
    P: Fn(usize, usize, &Splat) -> Single,
    A: Fn(&Splat, Single) -> Single,
    B: Fn(&Splat, Single, Light) -> Light,
    O: Fn(Light) -> [Single; 3],
>(
    power: P,
    alpha: A,
    blend: B,
    over: O,
    start: Light,
    lists: Seq<Vec<usize>>,
    splats: Seq<Splat>,
    w: int,
    h: int,
    out: &Rendered,
    px: usize,
    py: usize,
)
    requires
        image_outcome(power, alpha, blend, over, start, lists, splats, w, h, out),
        px < w,
        py < h,
    ensures
        ({
            let list = lists[(py as int / 16) * ((w + 15) / 16) + px as int / 16]@;
            let i = py * w + px;
            let (r, g, b) = (out.rgb[3 * i], out.rgb[3 * i + 1], out.rgb[3 * i + 2]);
            if list.len() == 0 {
                &&& r == (Single { bits: ZERO })
                &&& g == (Single { bits: ZERO })
                &&& b == (Single { bits: ZERO })
                &&& out.t[i] == (Single { bits: ONE })
                &&& out.last[i] is None
            } else {
                exists|fin: Pixel, c: [Single; 3]|
                    {
                        &&& #[trigger] composited(
                            power,
                            alpha,
                            blend,
                            start,
                            px,
                            py,
                            list,
                            splats,
                            fin,
                        )
                        &&& #[trigger] call_ensures(over, (fin.light,), c)
                        &&& r == c[0]
                        &&& g == c[1]
                        &&& b == c[2]
                        &&& out.t[i] == fin.light.t
                        &&& out.last[i] == fin.last
                    }
            }
        }),
{
    let k = tile_of(w, px as int, py as int);
    assert(tiles_over(w as nat) == (w + 15) / 16);
    assert(k == (py as int / 16) * ((w + 15) / 16) + px as int / 16);
    let i = at(w, px as int, py as int);
    assert(i == py * w + px);
    if lists[k]@.len() == 0 {
        assert(out.blank(i));
    } else {
        let c = [out.rgb[3 * i], out.rgb[3 * i + 1], out.rgb[3 * i + 2]];
        let fin = choose|fin: Pixel| #[trigger]
            composited(power, alpha, blend, start, px, py, lists[k]@, splats, fin) && out.t[i]
                == fin.light.t && out.last[i] == fin.last && call_ensures(over, (fin.light,), c);
        assert(c[0] == out.rgb[3 * i] && c[1] == out.rgb[3 * i + 1] && c[2] == out.rgb[3 * i + 2]);
        assert(call_ensures(over, (fin.light,), c));
    }
}

} // verus!
