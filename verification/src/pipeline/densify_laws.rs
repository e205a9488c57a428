//! What becomes of each Gaussian when a model is densified.

use super::densify::{
    averages, densified, densify_outcome, fades, narrows, nothing_selected, opacities_reset, parted,
    resets, select_step, selects, widest, Limits, Selection, LEAST, MOST, RESET_OPACITY,
};
use super::optimizer::{AdamState, TrainConfig};
use crate::math::{held, larger, smaller, Gaussian3D};
use crate::num::fold::{lemma_reaches_last, lemma_reaches_nothing, reaches, upto};
use crate::num::reading::{adds, less, no_more, subtracts};
use crate::num::single::{Single, ZERO};
use vstd::prelude::*;

verus! {

/// What the kernels find of a Gaussian: its opacity, its scales, and the mean of its screen
/// gradients.
pub struct Findings {
    pub opacity: spec_fn(Gaussian3D<Single>) -> Single,
    pub scales: spec_fn(Gaussian3D<Single>) -> [Single; 3],
    pub mean: spec_fn(Single, u32) -> Single,
}

/// The kernels give these findings.
pub open spec fn finds<
    A: Fn(Single, u32) -> Single,
    O: Fn(&Gaussian3D<Single>) -> Single,
    E: Fn(&Gaussian3D<Single>) -> [Single; 3],
>(average: A, opacity: O, scales: E, f: Findings) -> bool {
    &&& forall|s: Single, c: u32, r: Single| #[trigger]
        call_ensures(average, (s, c), r) ==> r == (f.mean)(s, c)
    &&& forall|g: &Gaussian3D<Single>, r: Single| #[trigger]
        call_ensures(opacity, (g,), r) ==> r == (f.opacity)(*g)
    &&& forall|g: &Gaussian3D<Single>, r: [Single; 3]| #[trigger]
        call_ensures(scales, (g,), r) ==> r == (f.scales)(*g)
}

/// Too faint to be seen, or with an axis that is too long.
pub open spec fn pruned(f: Findings, cfg: TrainConfig, limits: Limits, g: Gaussian3D<Single>) -> bool {
    ||| less((f.opacity)(g), cfg.prune_opacity_thresh)
    ||| exists|axis: int| 0 <= axis < 3 && less(limits.huge, #[trigger] (f.scales)(g)[axis])
}

/// With an axis that is long enough to be split.
pub open spec fn long(f: Findings, limits: Limits, g: Gaussian3D<Single>) -> bool {
    exists|axis: int| 0 <= axis < 3 && less(limits.large, #[trigger] (f.scales)(g)[axis])
}

/// The mean screen gradient of a Gaussian; zero where it was never seen.
pub open spec fn mean_gradient(f: Findings, sum: Single, count: u32) -> Single {
    if count == 0 {
        Single { bits: ZERO }
    } else {
        (f.mean)(sum, count)
    }
}

/// Not pruned, and with a mean screen gradient that reaches the threshold.
pub open spec fn grows(
    f: Findings,
    cfg: TrainConfig,
    limits: Limits,
    g: Gaussian3D<Single>,
    sum: Single,
    count: u32,
) -> bool {
    &&& !pruned(f, cfg, limits, g)
    &&& no_more(cfg.densify_grad_threshold, mean_gradient(f, sum, count))
}

/// `c` is made of `g`: one of the two parts of a long one, or a shifted copy of another.
pub open spec fn made_of<
    S: Fn(&Gaussian3D<Single>) -> [Gaussian3D<Single>; 2],
    D: Fn(&Gaussian3D<Single>, Single) -> Gaussian3D<Single>,
>(
    split: S,
    duplicate: D,
    f: Findings,
    limits: Limits,
    g: Gaussian3D<Single>,
    grad: Single,
    c: Gaussian3D<Single>,
) -> bool {
    if long(f, limits, g) {
        exists|r: [Gaussian3D<Single>; 2]| #[trigger]
            call_ensures(split, (&g,), r) && (c == r[0] || c == r[1])
    } else {
        call_ensures(duplicate, (&g, grad), c)
    }
}

/// How a selection came about: which Gaussians were kept, in order, and of which each added one
/// was made.
pub open spec fn explains<
    S: Fn(&Gaussian3D<Single>) -> [Gaussian3D<Single>; 2],
    D: Fn(&Gaussian3D<Single>, Single) -> Gaussian3D<Single>,
>(
    split: S,
    duplicate: D,
    f: Findings,
    cfg: TrainConfig,
    limits: Limits,
    gs: Seq<Gaussian3D<Single>>,
    sums: Seq<Single>,
    counts: Seq<u32>,
    k: int,
    kept: Seq<Gaussian3D<Single>>,
    added: Seq<Gaussian3D<Single>>,
    stays: Seq<int>,
    parents: Seq<int>,
) -> bool {
    &&& kept.len() == stays.len()
    &&& added.len() == parents.len()
    // What stays is an old Gaussian, unchanged and in order, and none that is pruned.
    &&& forall|a: int|
        0 <= a < stays.len() ==> {
            &&& 0 <= #[trigger] stays[a] < k
            &&& kept[a] == gs[stays[a]]
            &&& !pruned(f, cfg, limits, gs[stays[a]])
        }
    &&& forall|a: int, b: int| 0 <= a < b < stays.len() ==> stays[a] < stays[b]
    // What is added is made of a Gaussian that grows.
    &&& forall|a: int|
        0 <= a < parents.len() ==> {
            let i = #[trigger] parents[a];
            &&& 0 <= i < k
            &&& grows(f, cfg, limits, gs[i], sums[i], counts[i])
            &&& made_of(
                split,
                duplicate,
                f,
                limits,
                gs[i],
                mean_gradient(f, sums[i], counts[i]),
                added[a],
            )
        }
    // What is neither pruned nor grows stays, and so does what is not long.
    &&& forall|i: int|
        0 <= i < k && !pruned(f, cfg, limits, #[trigger] gs[i]) && !(grows(
            f,
            cfg,
            limits,
            gs[i],
            sums[i],
            counts[i],
        ) && long(f, limits, gs[i])) ==> stays.contains(i)
    // While there is room, all that grows is added to: a long one by two parts in its place.
    &&& gs.len() + 2 * k <= cfg.max_gaussians ==> forall|i: int|
        0 <= i < k && grows(f, cfg, limits, #[trigger] gs[i], sums[i], counts[i])
            ==> parents.contains(i) && (long(f, limits, gs[i]) ==> !stays.contains(i) && exists|
            a: int,
        |
            0 <= a < parents.len() - 1 && #[trigger] parents[a] == i && parents[a + 1] == i)
}

proof fn lemma_widest(s: [Single; 3], limit: Single)
    ensures
        limit.below(widest(s)) <==> exists|axis: int|
            0 <= axis < 3 && less(limit, #[trigger] s[axis]),
{
    if limit.below(widest(s)) {
        let w = widest(s);
        assert(w == s[0] || w == s[1] || w == s[2]);
        if w == s[0] {
            assert(less(limit, s[0]));
        } else if w == s[1] {
            assert(less(limit, s[1]));
        } else {
            assert(less(limit, s[2]));
        }
    }
    if exists|axis: int| 0 <= axis < 3 && less(limit, #[trigger] s[axis]) {
        let axis = choose|axis: int| 0 <= axis < 3 && less(limit, #[trigger] s[axis]);
        assert(axis == 0 || axis == 1 || axis == 2);
    }
}

proof fn lemma_explained<
    A: Fn(Single, u32) -> Single,
    O: Fn(&Gaussian3D<Single>) -> Single,
    E: Fn(&Gaussian3D<Single>) -> [Single; 3],
    S: Fn(&Gaussian3D<Single>) -> [Gaussian3D<Single>; 2],
    D: Fn(&Gaussian3D<Single>, Single) -> Gaussian3D<Single>,
>(
    average: A,
    opacity: O,
    scales: E,
    split: S,
    duplicate: D,
    f: Findings,
    cfg: TrainConfig,
    limits: Limits,
    gs: Seq<Gaussian3D<Single>>,
    sums: Seq<Single>,
    counts: Seq<u32>,
    k: nat,
    s: Selection,
) -> (r: (Seq<int>, Seq<int>))
    requires
        finds(average, opacity, scales, f),
        k <= gs.len(),
        reaches(
            select_step(
                average,
                opacity,
                scales,
                split,
                duplicate,
                cfg,
                limits,
                gs,
                sums,
                counts,
            ),
            upto(k),
            nothing_selected(),
            s,
        ),
    ensures
        s.added.len() <= 2 * k,
        explains(
            split,
            duplicate,
            f,
            cfg,
            limits,
            gs,
            sums,
            counts,
            k as int,
            s.kept,
            s.added,
            r.0,
            r.1,
        ),
    decreases k,
{
    let step = select_step(
        average,
        opacity,
        scales,
        split,
        duplicate,
        cfg,
        limits,
        gs,
        sums,
        counts,
    );
    if k == 0 {
        assert(upto(0) =~= Seq::<int>::empty());
        lemma_reaches_nothing(step, nothing_selected(), s);
        (Seq::empty(), Seq::empty())
    } else {
        let p = (k - 1) as nat;
        let s0 = lemma_reaches_last(step, upto(k), nothing_selected(), s);
        assert(upto(k).drop_last() =~= upto(p));
        assert(upto(k).last() == p);
        let (stays, parents) = lemma_explained(
            average,
            opacity,
            scales,
            split,
            duplicate,
            f,
            cfg,
            limits,
            gs,
            sums,
            counts,
            p,
            s0,
        );
        let i = p as int;
        let g = gs[i];
        let grad = mean_gradient(f, sums[i], counts[i]);
        let (a, e, v) = choose|a: Single, e: [Single; 3], v: Single|
            #![trigger
                call_ensures(opacity, (&g,), a),
                call_ensures(scales, (&g,), e),
                averages(average, sums[i], counts[i], v)]
            {
                &&& call_ensures(opacity, (&g,), a)
                &&& call_ensures(scales, (&g,), e)
                &&& averages(average, sums[i], counts[i], v)
                &&& selects(
                    split,
                    duplicate,
                    cfg,
                    limits,
                    gs.len() as int,
                    g,
                    a,
                    widest(e),
                    v,
                    s0,
                    s,
                )
            };
        assert(a == (f.opacity)(g) && e == (f.scales)(g) && v == grad);
        lemma_widest(e, limits.huge);
        lemma_widest(e, limits.large);
        let full = gs.len() + s0.added.len() >= cfg.max_gaussians;
        if pruned(f, cfg, limits, g) {
            assert(s == s0);
            (stays, parents)
        } else if grows(f, cfg, limits, g, sums[i], counts[i]) && !full {
            if long(f, limits, g) {
                let c = choose|c: [Gaussian3D<Single>; 2]| #[trigger]
                    call_ensures(split, (&g,), c) && s == (Selection {
                        kept: s0.kept,
                        added: s0.added.push(c[0]).push(c[1]),
                    });
                let more = parents.push(i).push(i);
                lemma_parents_grow(parents, more);
                assert(more[parents.len() as int] == i && more[parents.len() as int + 1] == i);
                assert(!stays.contains(i));
                (stays, more)
            } else {
                let more = parents.push(i);
                lemma_parents_grow(parents, more);
                lemma_stays_grow(stays, i);
                assert(more[parents.len() as int] == i);
                (stays.push(i), more)
            }
        } else {
            lemma_stays_grow(stays, i);
            (stays.push(i), parents)
        }
    }
}

proof fn lemma_parents_grow(parents: Seq<int>, more: Seq<int>)
    requires
        parents.len() <= more.len(),
        forall|a: int| 0 <= a < parents.len() ==> parents[a] == #[trigger] more[a],
    ensures
        forall|i: int| #[trigger] parents.contains(i) ==> more.contains(i),
        forall|a: int|
            0 <= a < parents.len() - 1 ==> #[trigger] parents[a] == more[a] && parents[a + 1]
                == more[a + 1],
{
    assert forall|i: int| #[trigger] parents.contains(i) implies more.contains(i) by {
        let a = choose|a: int| 0 <= a < parents.len() && parents[a] == i;
        assert(more[a] == i);
    }
    assert forall|a: int| 0 <= a < parents.len() - 1 implies #[trigger] parents[a] == more[a]
        && parents[a + 1] == more[a + 1] by {
        assert(parents[a + 1] == more[a + 1]);
        assert(parents[a] == more[a]);
    }
}

proof fn lemma_stays_grow(stays: Seq<int>, i: int)
    ensures
        forall|j: int| #[trigger] stays.push(i).contains(j) <==> stays.contains(j) || j == i,
{
    assert forall|j: int| #[trigger] stays.push(i).contains(j) <==> stays.contains(j) || j == i by {
        if stays.contains(j) {
            let a = choose|a: int| 0 <= a < stays.len() && stays[a] == j;
            assert(stays.push(i)[a] == j);
        }
        assert(stays.push(i)[stays.len() as int] == i);
    }
}

/// A densified model holds, first, old Gaussians, unchanged and in order: all that are neither
/// pruned nor split, and none that is pruned.  Then come parts and copies of Gaussians whose
/// mean screen gradient reaches the threshold, and while there is room, of all of those.
pub proof fn densification_is_explained<
    A: Fn(Single, u32) -> Single,
    O: Fn(&Gaussian3D<Single>) -> Single,
    E: Fn(&Gaussian3D<Single>) -> [Single; 3],
    S: Fn(&Gaussian3D<Single>) -> [Gaussian3D<Single>; 2],
    D: Fn(&Gaussian3D<Single>, Single) -> Gaussian3D<Single>,
>(
    average: A,
    opacity: O,
    scales: E,
    split: S,
    duplicate: D,
    f: Findings,
    cfg: TrainConfig,
    limits: Limits,
    gs: Seq<Gaussian3D<Single>>,
    sums: Seq<Single>,
    counts: Seq<u32>,
    out: Seq<Gaussian3D<Single>>,
) -> (r: (Seq<int>, Seq<int>))
    requires
        finds(average, opacity, scales, f),
        densified(
            average,
            opacity,
            scales,
            split,
            duplicate,
            cfg,
            limits,
            gs,
            sums,
            counts,
            out,
        ),
    ensures
        out.len() == r.0.len() + r.1.len(),
        explains(
            split,
            duplicate,
            f,
            cfg,
            limits,
            gs,
            sums,
            counts,
            gs.len() as int,
            out.take(r.0.len() as int),
            out.skip(r.0.len() as int),
            r.0,
            r.1,
        ),
{
    let s = choose|s: Selection| #[trigger]
        reaches(
            select_step(
                average,
                opacity,
                scales,
                split,
                duplicate,
                cfg,
                limits,
                gs,
                sums,
                counts,
            ),
            upto(gs.len()),
            nothing_selected(),
            s,
        ) && out == s.kept + s.added;
    let r = lemma_explained(
        average,
        opacity,
        scales,
        split,
        duplicate,
        f,
        cfg,
        limits,
        gs,
        sums,
        counts,
        gs.len(),
        s,
    );
    assert(out.take(r.0.len() as int) =~= s.kept);
    assert(out.skip(r.0.len() as int) =~= s.added);
    r
}

/// A model in which the mean screen gradient of every Gaussian stays below the threshold only
/// loses Gaussians: what is left are old ones, in order.
pub proof fn quiet_models_do_not_grow<
    A: Fn(Single, u32) -> Single,
    O: Fn(&Gaussian3D<Single>) -> Single,
    E: Fn(&Gaussian3D<Single>) -> [Single; 3],
    S: Fn(&Gaussian3D<Single>) -> [Gaussian3D<Single>; 2],
    D: Fn(&Gaussian3D<Single>, Single) -> Gaussian3D<Single>,
>(
    average: A,
    opacity: O,
    scales: E,
    split: S,
    duplicate: D,
    f: Findings,
    cfg: TrainConfig,
    limits: Limits,
    gs: Seq<Gaussian3D<Single>>,
    sums: Seq<Single>,
    counts: Seq<u32>,
    out: Seq<Gaussian3D<Single>>,
) -> (stays: Seq<int>)
    requires
        finds(average, opacity, scales, f),
        densified(
            average,
            opacity,
            scales,
            split,
            duplicate,
            cfg,
            limits,
            gs,
            sums,
            counts,
            out,
        ),
        forall|i: int|
            0 <= i < gs.len() ==> less(
                mean_gradient(f, #[trigger] sums[i], counts[i]),
                cfg.densify_grad_threshold,
            ),
    ensures
        out.len() == stays.len(),
        forall|a: int|
            0 <= a < stays.len() ==> 0 <= #[trigger] stays[a] < gs.len() && out[a] == gs[stays[a]],
        forall|a: int, b: int| 0 <= a < b < stays.len() ==> stays[a] < stays[b],
{
    let r = densification_is_explained(
        average,
        opacity,
        scales,
        split,
        duplicate,
        f,
        cfg,
        limits,
        gs,
        sums,
        counts,
        out,
    );
    if r.1.len() > 0 {
        let i = r.1[0];
        assert(less(mean_gradient(f, sums[i], counts[i]), cfg.densify_grad_threshold));
    }
    assert forall|a: int| 0 <= a < r.0.len() implies 0 <= #[trigger] r.0[a] < gs.len() && out[a]
        == gs[r.0[a]] by {
        assert(out.take(r.0.len() as int)[a] == out[a]);
    }
    r.0
}

// ── parts and resets ────────────────────────────────────────────────────────────────────

/// The two parts of a split Gaussian stand on either side of it, at the same distance along the
/// offset, and differ in nothing else.  They keep its rotation, its colour and two of its scales;
/// the first scale is the narrower one, and the opacity the fainter one, within their bounds.
pub proof fn parts_stand_on_either_side<
    P: Fn(Single, Single) -> Single,
    M: Fn(Single, Single) -> Single,
    N: Fn(Single) -> Single,
    L: Fn(Single) -> Single,
    F: Fn(Single) -> Single,
    G: Fn(Single) -> Single,
>(
    plus: P,
    minus: M,
    narrower: N,
    log_of: L,
    fainter: F,
    logit_of: G,
    val: spec_fn(Single) -> real,
    g: Gaussian3D<Single>,
    o: [Single; 3],
    a: Gaussian3D<Single>,
    b: Gaussian3D<Single>,
)
    requires
        adds(plus, val),
        subtracts(minus, val),
        parted(plus, narrower, log_of, fainter, logit_of, g, o, a),
        parted(minus, narrower, log_of, fainter, logit_of, g, o, b),
    ensures
        forall|i: int|
            0 <= i < 3 ==> val(#[trigger] a.position[i]) == val(g.position[i]) + val(o[i]),
        forall|i: int|
            0 <= i < 3 ==> val(#[trigger] b.position[i]) == val(g.position[i]) - val(o[i]),
        a.rotation == g.rotation && b.rotation == g.rotation,
        a.sh_coeffs == g.sh_coeffs && b.sh_coeffs == g.sh_coeffs,
        forall|i: int| 1 <= i < 3 ==> #[trigger] a.log_scale[i] == g.log_scale[i],
        forall|i: int| 1 <= i < 3 ==> #[trigger] b.log_scale[i] == g.log_scale[i],
        exists|s: Single, t: Single| #[trigger]
            call_ensures(narrower, (g.log_scale[0],), s) && #[trigger] call_ensures(
                log_of,
                (t,),
                a.log_scale[0],
            ) && at_least(s, Single { bits: LEAST }, t),
        exists|s: Single, t: Single| #[trigger]
            call_ensures(fainter, (g.opacity_logit,), s) && #[trigger] call_ensures(
                logit_of,
                (t,),
                a.opacity_logit,
            ) && kept_between(s, Single { bits: LEAST }, Single { bits: MOST }, t),
        exists|s: Single, t: Single| #[trigger]
            call_ensures(narrower, (g.log_scale[0],), s) && #[trigger] call_ensures(
                log_of,
                (t,),
                b.log_scale[0],
            ) && at_least(s, Single { bits: LEAST }, t),
        exists|s: Single, t: Single| #[trigger]
            call_ensures(fainter, (g.opacity_logit,), s) && #[trigger] call_ensures(
                logit_of,
                (t,),
                b.opacity_logit,
            ) && kept_between(s, Single { bits: LEAST }, Single { bits: MOST }, t),
{
    assert forall|i: int| 0 <= i < 3 implies val(#[trigger] a.position[i]) == val(g.position[i])
        + val(o[i]) by {
        assert(call_ensures(plus, (g.position[i], o[i]), a.position[i]));
    }
    assert forall|i: int| 0 <= i < 3 implies val(#[trigger] b.position[i]) == val(g.position[i])
        - val(o[i]) by {
        assert(call_ensures(minus, (g.position[i], o[i]), b.position[i]));
    }
    lemma_narrows(narrower, log_of, g.log_scale[0], a.log_scale[0]);
    lemma_narrows(narrower, log_of, g.log_scale[0], b.log_scale[0]);
    lemma_fades(fainter, logit_of, g.opacity_logit, a.opacity_logit);
    lemma_fades(fainter, logit_of, g.opacity_logit, b.opacity_logit);
}

/// `t` is `s`, or `least` where `s` is less or not a number.
pub open spec fn at_least(s: Single, least: Single, t: Single) -> bool {
    if no_more(least, s) {
        t == s
    } else {
        t == least
    }
}

/// `t` is `s`, moved to the nearer bound where it lies outside.
pub open spec fn kept_between(s: Single, lo: Single, hi: Single, t: Single) -> bool {
    if less(s, lo) {
        t == lo
    } else if less(hi, s) {
        t == hi
    } else {
        t == s
    }
}

proof fn lemma_narrows<N: Fn(Single) -> Single, L: Fn(Single) -> Single>(
    narrower: N,
    log_of: L,
    l0: Single,
    l1: Single,
)
    requires
        narrows(narrower, log_of, l0, l1),
    ensures
        exists|s: Single, t: Single| #[trigger]
            call_ensures(narrower, (l0,), s) && #[trigger] call_ensures(log_of, (t,), l1)
                && at_least(s, Single { bits: LEAST }, t),
{
    let least = Single { bits: LEAST };
    let s = choose|s: Single| #[trigger]
        call_ensures(narrower, (l0,), s) && call_ensures(log_of, (larger(s, least),), l1);
    assert(!least.nan());
    let t = larger(s, least);
    assert(at_least(s, least, t));
    assert(call_ensures(narrower, (l0,), s) && call_ensures(log_of, (t,), l1));
}

proof fn lemma_fades<F: Fn(Single) -> Single, G: Fn(Single) -> Single>(
    fainter: F,
    logit_of: G,
    l0: Single,
    l1: Single,
)
    requires
        fades(fainter, logit_of, l0, l1),
    ensures
        exists|s: Single, t: Single| #[trigger]
            call_ensures(fainter, (l0,), s) && #[trigger] call_ensures(logit_of, (t,), l1)
                && kept_between(s, Single { bits: LEAST }, Single { bits: MOST }, t),
{
    let (lo, hi) = (Single { bits: LEAST }, Single { bits: MOST });
    let s = choose|s: Single| #[trigger]
        call_ensures(fainter, (l0,), s) && call_ensures(logit_of, (held(s, lo, hi),), l1);
    let t = held(s, lo, hi);
    assert(kept_between(s, lo, hi, t));
    assert(call_ensures(fainter, (l0,), s) && call_ensures(logit_of, (t,), l1));
}

/// A reset lowers every opacity to the least of it and a bound, and touches nothing else.
pub proof fn resets_lower_the_opacity<O: Fn(Single) -> Single, G: Fn(Single) -> Single>(
    opacity_of: O,
    logit_of: G,
    gs0: Seq<Gaussian3D<Single>>,
    gs1: Seq<Gaussian3D<Single>>,
    i: int,
)
    requires
        opacities_reset(opacity_of, logit_of, gs0, gs1),
        0 <= i < gs0.len(),
    ensures
        gs1.len() == gs0.len(),
        gs1[i].position == gs0[i].position,
        gs1[i].rotation == gs0[i].rotation,
        gs1[i].log_scale == gs0[i].log_scale,
        gs1[i].sh_coeffs == gs0[i].sh_coeffs,
        exists|a: Single, t: Single| #[trigger]
            call_ensures(opacity_of, (gs0[i].opacity_logit,), a) && #[trigger] call_ensures(
                logit_of,
                (t,),
                gs1[i].opacity_logit,
            ) && if less(a, Single { bits: RESET_OPACITY }) {
                t == a
            } else {
                t == (Single { bits: RESET_OPACITY })
            },
{
    let most = Single { bits: RESET_OPACITY };
    let (g, h) = (gs0[i], gs1[i]);
    assert(resets(opacity_of, logit_of, g.opacity_logit, h.opacity_logit));
    let a = choose|a: Single| #[trigger]
        call_ensures(opacity_of, (g.opacity_logit,), a) && call_ensures(
            logit_of,
            (smaller(most, a),),
            h.opacity_logit,
        );
    assert(!most.nan());
    let t = smaller(most, a);
    assert(call_ensures(opacity_of, (g.opacity_logit,), a) && call_ensures(
        logit_of,
        (t,),
        h.opacity_logit,
    ));
}

/// A model is densified by the gradients that were gathered since the last time.  They start anew
/// after it, with room for every Gaussian; the moments stay, and new Gaussians have none.
pub proof fn densification_goes_by_what_was_gathered<
    A: Fn(Single, u32) -> Single,
    O: Fn(&Gaussian3D<Single>) -> Single,
    E: Fn(&Gaussian3D<Single>) -> [Single; 3],
    S: Fn(&Gaussian3D<Single>) -> [Gaussian3D<Single>; 2],
    D: Fn(&Gaussian3D<Single>, Single) -> Gaussian3D<Single>,
>(
    average: A,
    opacity: O,
    scales: E,
    split: S,
    duplicate: D,
    f: Findings,
    cfg: TrainConfig,
    limits: Limits,
    gs0: Seq<Gaussian3D<Single>>,
    s0: AdamState,
    gs1: Seq<Gaussian3D<Single>>,
    s1: AdamState,
) -> (r: (Seq<int>, Seq<int>))
    requires
        finds(average, opacity, scales, f),
        s0.wf(),
        densify_outcome(
            average,
            opacity,
            scales,
            split,
            duplicate,
            cfg,
            limits,
            gs0,
            s0,
            gs1,
            s1,
        ),
    ensures
        gs1.len() == r.0.len() + r.1.len(),
        explains(
            split,
            duplicate,
            f,
            cfg,
            limits,
            gs0,
            s0.grad_accum@,
            s0.grad_denom@,
            gs0.len() as int,
            gs1.take(r.0.len() as int),
            gs1.skip(r.0.len() as int),
            r.0,
            r.1,
        ),
        s1.t == s0.t,
        s1.grad_accum.len() >= gs1.len(),
        s1.grad_accum.len() >= s0.grad_accum.len(),
        s1.grad_accum.len() == gs1.len() || s1.grad_accum.len() == s0.grad_accum.len(),
        s1.grad_denom.len() == s1.grad_accum.len(),
        s1.m1.len() == 59 * s1.grad_accum.len(),
        s1.m2.len() == 59 * s1.grad_accum.len(),
        forall|i: int| 0 <= i < s1.grad_accum.len() ==> (#[trigger] s1.grad_accum[i]).bits == 0,
        forall|i: int| 0 <= i < s1.grad_denom.len() ==> #[trigger] s1.grad_denom[i] == 0,
        forall|c: int| 0 <= c < s0.m1.len() ==> #[trigger] s1.m1[c] == s0.m1[c],
        forall|c: int| 0 <= c < s0.m2.len() ==> #[trigger] s1.m2[c] == s0.m2[c],
        forall|c: int| s0.m1.len() <= c < s1.m1.len() ==> (#[trigger] s1.m1[c]).bits == 0,
        forall|c: int| s0.m2.len() <= c < s1.m2.len() ==> (#[trigger] s1.m2[c]).bits == 0,
{
    assert(s0.m1.len() == 59 * s0.grad_accum.len() && s0.m2.len() == 59 * s0.grad_accum.len());
    densification_is_explained(
        average,
        opacity,
        scales,
        split,
        duplicate,
        f,
        cfg,
        limits,
        gs0,
        s0.grad_accum@,
        s0.grad_denom@,
        gs1,
    )
}

} // verus!
