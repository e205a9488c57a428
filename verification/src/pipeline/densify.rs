//! Adding Gaussians where the model is coarse, and removing those that do not help.
//!
//! The kernels: `average` of a Gaussian's screen gradients, its `opacity`, its `scales`, the two
//! Gaussians that `split` makes of it, and the `duplicate` that is put beside it.

use super::optimizer::{resized, AdamState, TrainConfig};
use crate::math::{
    held, hold, larger, max_of, min_of, smaller, Gaussian3D, PARAMS_PER_GAUSSIAN,
};
use crate::num::fold::{
    lemma_reaches_last, lemma_reaches_nothing, lemma_reaches_push, lemma_upto_push, reaches, upto,
};
use crate::num::single::{Single, ZERO};
use vstd::prelude::*;

verus! {

/// What stays of the model, and what is added to it.
pub struct Selection {
    pub kept: Seq<Gaussian3D<Single>>,
    pub added: Seq<Gaussian3D<Single>>,
}

/// Scales, as shares of the extent of the scene: what is larger than `huge` is removed, what
/// is larger than `large` is split rather than duplicated.
#[derive(Clone, Copy, Debug)]
pub struct Limits {
    pub huge: Single,
    pub large: Single,
}

/// The largest of three scales.
pub open spec fn widest(s: [Single; 3]) -> Single {
    larger(larger(s[0], s[1]), s[2])
}

/// `v` can be the mean screen gradient of a Gaussian; without any it is zero.
pub open spec fn averages<A: Fn(Single, u32) -> Single>(
    average: A,
    sum: Single,
    count: u32,
    v: Single,
) -> bool {
    if count > 0 {
        call_ensures(average, (sum, count), v)
    } else {
        v == (Single { bits: ZERO })
    }
}

/// `s1` can be what becomes of the selection `s0` when a Gaussian `g` with the given opacity,
/// extent and mean screen gradient is looked at, out of `n`: too faint or too large, it is
/// removed; where its gradient is large and there is room, it is split or duplicated; else
/// it stays.
pub open spec fn selects<
    S: Fn(&Gaussian3D<Single>) -> [Gaussian3D<Single>; 2],
    D: Fn(&Gaussian3D<Single>, Single) -> Gaussian3D<Single>,
>(
    split: S,
    duplicate: D,
    cfg: TrainConfig,
    limits: Limits,
    n: int,
    g: Gaussian3D<Single>,
    opacity: Single,
    extent: Single,
    grad: Single,
    s0: Selection,
    s1: Selection,
) -> bool {
    if opacity.below(cfg.prune_opacity_thresh) || limits.huge.below(extent) {
        s1 == s0
    } else if cfg.densify_grad_threshold.at_most(grad) && n + s0.added.len() < cfg.max_gaussians {
        if limits.large.below(extent) {
            exists|c: [Gaussian3D<Single>; 2]| #[trigger]
                call_ensures(split, (&g,), c) && s1 == (Selection {
                    kept: s0.kept,
                    added: s0.added.push(c[0]).push(c[1]),
                })
        } else {
            exists|c: Gaussian3D<Single>| #[trigger]
                call_ensures(duplicate, (&g, grad), c) && s1 == (Selection {
                    kept: s0.kept.push(g),
                    added: s0.added.push(c),
                })
        }
    } else {
        s1 == (Selection { kept: s0.kept.push(g), added: s0.added })
    }
}

/// What the kernels can say of a Gaussian, and what follows for the selection.
pub open spec fn looks_at<
    A: Fn(Single, u32) -> Single,
    O: Fn(&Gaussian3D<Single>) -> Single,
    E: Fn(&Gaussian3D<Single>) -> [Single; 3],
    S: Fn(&Gaussian3D<Single>) -> [Gaussian3D<Single>; 2],
    D: Fn(&Gaussian3D<Single>, Single) -> Gaussian3D<Single>,
>(
    average: A,
    opacity: O,
    scales: E,
    split: S,
    duplicate: D,
    cfg: TrainConfig,
    limits: Limits,
    n: int,
    g: Gaussian3D<Single>,
    sum: Single,
    count: u32,
    s0: Selection,
    s1: Selection,
) -> bool {
    exists|a: Single, e: [Single; 3], v: Single|
        #![trigger
            call_ensures(opacity, (&g,), a),
            call_ensures(scales, (&g,), e),
            averages(average, sum, count, v)]
        {
            &&& call_ensures(opacity, (&g,), a)
            &&& call_ensures(scales, (&g,), e)
            &&& averages(average, sum, count, v)
            &&& selects(split, duplicate, cfg, limits, n, g, a, widest(e), v, s0, s1)
        }
}

/// One step of the selection: Gaussian `i`.
pub open spec fn select_step<
    A: Fn(Single, u32) -> Single,
    O: Fn(&Gaussian3D<Single>) -> Single,
    E: Fn(&Gaussian3D<Single>) -> [Single; 3],
    S: Fn(&Gaussian3D<Single>) -> [Gaussian3D<Single>; 2],
    D: Fn(&Gaussian3D<Single>, Single) -> Gaussian3D<Single>,
>(
    average: A,
    opacity: O,
    scales: E,
    split: S,
    duplicate: D,
    cfg: TrainConfig,
    limits: Limits,
    gs: Seq<Gaussian3D<Single>>,
    sums: Seq<Single>,
    counts: Seq<u32>,
) -> spec_fn(Selection, int, Selection) -> bool {
    |s0: Selection, i: int, s1: Selection|
        looks_at(
            average,
            opacity,
            scales,
            split,
            duplicate,
            cfg,
            limits,
            gs.len() as int,
            gs[i],
            sums[i],
            counts[i],
            s0,
            s1,
        )
}

pub open spec fn nothing_selected() -> Selection {
    Selection { kept: Seq::empty(), added: Seq::empty() }
}

/// `out` can be the densified model: what stays, in order, and then what is added.
pub open spec fn densified<
    A: Fn(Single, u32) -> Single,
    O: Fn(&Gaussian3D<Single>) -> Single,
    E: Fn(&Gaussian3D<Single>) -> [Single; 3],
    S: Fn(&Gaussian3D<Single>) -> [Gaussian3D<Single>; 2],
    D: Fn(&Gaussian3D<Single>, Single) -> Gaussian3D<Single>,
>(
    average: A,
    opacity: O,
    scales: E,
    split: S,
    duplicate: D,
    cfg: TrainConfig,
    limits: Limits,
    gs: Seq<Gaussian3D<Single>>,
    sums: Seq<Single>,
    counts: Seq<u32>,
    out: Seq<Gaussian3D<Single>>,
) -> bool {
    exists|s: Selection| #[trigger]
        reaches(
            select_step(
                average,
                opacity,
                scales,
                split,
                duplicate,
                cfg,
                limits,
                gs,
                sums,
                counts,
            ),
            upto(gs.len()),
            nothing_selected(),
            s,
        ) && out == s.kept + s.added
}

proof fn lemma_selection_bounded<
    A: Fn(Single, u32) -> Single,
    O: Fn(&Gaussian3D<Single>) -> Single,
    E: Fn(&Gaussian3D<Single>) -> [Single; 3],
    S: Fn(&Gaussian3D<Single>) -> [Gaussian3D<Single>; 2],
    D: Fn(&Gaussian3D<Single>, Single) -> Gaussian3D<Single>,
>(
    average: A,
    opacity: O,
    scales: E,
    split: S,
    duplicate: D,
    cfg: TrainConfig,
    limits: Limits,
    gs: Seq<Gaussian3D<Single>>,
    sums: Seq<Single>,
    counts: Seq<u32>,
    k: nat,
    s: Selection,
)
    requires
        k <= gs.len(),
        reaches(
            select_step(
                average,
                opacity,
                scales,
                split,
                duplicate,
                cfg,
                limits,
                gs,
                sums,
                counts,
            ),
            upto(k),
            nothing_selected(),
            s,
        ),
    ensures
        s.kept.len() <= k,
        s.kept.len() + s.added.len() <= 2 * k,
        s.added.len() == 0 || gs.len() - k + s.kept.len() + s.added.len() <= cfg.max_gaussians,
    decreases k,
{
    let step = select_step(
        average,
        opacity,
        scales,
        split,
        duplicate,
        cfg,
        limits,
        gs,
        sums,
        counts,
    );
    if k == 0 {
        assert(upto(0) =~= Seq::<int>::empty());
        lemma_reaches_nothing(step, nothing_selected(), s);
    } else {
        let m = lemma_reaches_last(step, upto(k), nothing_selected(), s);
        assert(upto(k).drop_last() =~= upto((k - 1) as nat));
        assert(upto(k).last() == k - 1);
        lemma_selection_bounded(
            average,
            opacity,
            scales,
            split,
            duplicate,
            cfg,
            limits,
            gs,
            sums,
            counts,
            (k - 1) as nat,
            m,
        );
    }
}

/// Densification stays within bounds: the model at most doubles, and where it grows it stays
/// within the configured maximum.
pub proof fn densification_is_bounded<
    A: Fn(Single, u32) -> Single,
    O: Fn(&Gaussian3D<Single>) -> Single,
    E: Fn(&Gaussian3D<Single>) -> [Single; 3],
    S: Fn(&Gaussian3D<Single>) -> [Gaussian3D<Single>; 2],
    D: Fn(&Gaussian3D<Single>, Single) -> Gaussian3D<Single>,
>(
    average: A,
    opacity: O,
    scales: E,
    split: S,
    duplicate: D,
    cfg: TrainConfig,
    limits: Limits,
    gs: Seq<Gaussian3D<Single>>,
    sums: Seq<Single>,
    counts: Seq<u32>,
    out: Seq<Gaussian3D<Single>>,
)
    requires
        densified(
            average,
            opacity,
            scales,
            split,
            duplicate,
            cfg,
            limits,
            gs,
            sums,
            counts,
            out,
        ),
    ensures
        out.len() <= 2 * gs.len(),
        out.len() <= gs.len() || out.len() <= cfg.max_gaussians,
{
    let s = choose|s: Selection| #[trigger]
        reaches(
            select_step(
                average,
                opacity,
                scales,
                split,
                duplicate,
                cfg,
                limits,
                gs,
                sums,
                counts,
            ),
            upto(gs.len()),
            nothing_selected(),
            s,
        ) && out == s.kept + s.added;
    lemma_selection_bounded(
        average,
        opacity,
        scales,
        split,
        duplicate,
        cfg,
        limits,
        gs,
        sums,
        counts,
        gs.len(),
        s,
    );
}

/// The pattern of `1e-6`: the least scale and the least opacity of a part.
pub const LEAST: u32 = 0x3586_37BD;

/// The pattern of `0.999`: the greatest opacity of a part.
pub const MOST: u32 = 0x3F7F_BE77;

/// `l1` can be the log scale of a part, where the whole has `l0`.
pub open spec fn narrows<N: Fn(Single) -> Single, L: Fn(Single) -> Single>(
    narrower: N,
    log_of: L,
    l0: Single,
    l1: Single,
) -> bool {
    exists|s: Single| #[trigger]
        call_ensures(narrower, (l0,), s) && call_ensures(
            log_of,
            (larger(s, Single { bits: LEAST }),),
            l1,
        )
}

/// `l1` can be the opacity logit of a part, where the whole has `l0`.
pub open spec fn fades<F: Fn(Single) -> Single, G: Fn(Single) -> Single>(
    fainter: F,
    logit_of: G,
    l0: Single,
    l1: Single,
) -> bool {
    exists|a: Single| #[trigger]
        call_ensures(fainter, (l0,), a) && call_ensures(
            logit_of,
            (held(a, Single { bits: LEAST }, Single { bits: MOST }),),
            l1,
        )
}

/// `c` can be a part of `g`, shifted by the offset `o`: narrower along its first axis, and
/// fainter.
pub open spec fn parted<
    S: Fn(Single, Single) -> Single,
    N: Fn(Single) -> Single,
    L: Fn(Single) -> Single,
    F: Fn(Single) -> Single,
    G: Fn(Single) -> Single,
>(
    shift: S,
    narrower: N,
    log_of: L,
    fainter: F,
    logit_of: G,
    g: Gaussian3D<Single>,
    o: [Single; 3],
    c: Gaussian3D<Single>,
) -> bool {
    &&& forall|i: int|
        0 <= i < 3 ==> call_ensures(shift, (g.position[i], o[i]), #[trigger] c.position[i])
    &&& narrows(narrower, log_of, g.log_scale[0], c.log_scale[0])
    &&& c.log_scale[1] == g.log_scale[1]
    &&& c.log_scale[2] == g.log_scale[2]
    &&& fades(fainter, logit_of, g.opacity_logit, c.opacity_logit)
    &&& c.rotation == g.rotation
    &&& c.sh_coeffs == g.sh_coeffs
}

/// Two Gaussians in place of one: on either side of it (`plus` and `minus` an `offset`), with
/// the same new scale and opacity.  `narrower` gives the scale for an old log scale and
/// `fainter` the opacity for an old logit; neither gets too small, nor the opacity too large.
pub fn split_gaussian<
    O: Fn(&Gaussian3D<Single>) -> [Single; 3],
    P: Fn(Single, Single) -> Single,
    M: Fn(Single, Single) -> Single,
    N: Fn(Single) -> Single,
    L: Fn(Single) -> Single,
    F: Fn(Single) -> Single,
    G: Fn(Single) -> Single,
>(
    offset: O,
    plus: P,
    minus: M,
    narrower: N,
    log_of: L,
    fainter: F,
    logit_of: G,
    g: &Gaussian3D<Single>,
) -> (r: [Gaussian3D<Single>; 2])
    requires
        forall|g: &Gaussian3D<Single>| call_requires(offset, (g,)),
        forall|a: Single, b: Single| call_requires(plus, (a, b)),
        forall|a: Single, b: Single| call_requires(minus, (a, b)),
        forall|v: Single| call_requires(narrower, (v,)),
        forall|v: Single| call_requires(log_of, (v,)),
        forall|v: Single| call_requires(fainter, (v,)),
        forall|v: Single| call_requires(logit_of, (v,)),
    ensures
        exists|o: [Single; 3]| #[trigger]
            call_ensures(offset, (g,), o) && parted(
                plus,
                narrower,
                log_of,
                fainter,
                logit_of,
                *g,
                o,
                r[0],
            ) && parted(minus, narrower, log_of, fainter, logit_of, *g, o, r[1]),
        r[0].log_scale == r[1].log_scale,
        r[0].opacity_logit == r[1].opacity_logit,
{
    let o = offset(g);
    let l = log_of(max_of(narrower(g.log_scale[0]), Single { bits: LEAST }));
    let log_scale = [l, g.log_scale[1], g.log_scale[2]];
    let a = hold(fainter(g.opacity_logit), Single { bits: LEAST }, Single { bits: MOST });
    let opacity_logit = logit_of(a);
    let p = g.position;
    let c = Gaussian3D {
        position: [plus(p[0], o[0]), plus(p[1], o[1]), plus(p[2], o[2])],
        opacity_logit,
        rotation: g.rotation,
        log_scale,
        sh_coeffs: g.sh_coeffs,
    };
    let d = Gaussian3D {
        position: [minus(p[0], o[0]), minus(p[1], o[1]), minus(p[2], o[2])],
        opacity_logit,
        rotation: g.rotation,
        log_scale,
        sh_coeffs: g.sh_coeffs,
    };
    assert(parted(plus, narrower, log_of, fainter, logit_of, *g, o, c));
    assert(parted(minus, narrower, log_of, fainter, logit_of, *g, o, d));
    [c, d]
}

/// A copy of a Gaussian, shifted in two directions by the `jitter` of its mean screen gradient.
pub fn clone_gaussian<J: Fn(Single) -> Single, P: Fn(Single, Single) -> Single>(
    jitter: J,
    plus: P,
    g: &Gaussian3D<Single>,
    grad: Single,
) -> (r: Gaussian3D<Single>)
    requires
        forall|v: Single| call_requires(jitter, (v,)),
        forall|a: Single, b: Single| call_requires(plus, (a, b)),
    ensures
        exists|d: Single| #[trigger]
            call_ensures(jitter, (grad,), d) && call_ensures(
                plus,
                (g.position[0], d),
                r.position[0],
            ) && call_ensures(plus, (g.position[1], d), r.position[1]),
        r.position[2] == g.position[2],
        r == (Gaussian3D { position: r.position, ..*g }),
{
    let d = jitter(grad);
    let position = [plus(g.position[0], d), plus(g.position[1], d), g.position[2]];
    Gaussian3D {
        position,
        opacity_logit: g.opacity_logit,
        rotation: g.rotation,
        log_scale: g.log_scale,
        sh_coeffs: g.sh_coeffs,
    }
}

/// `gs1` and `s1` can be what densification makes of the Gaussians `gs0` and the state `s0`:
/// the state gets room for the new model, and its screen gradients are cleared.
pub open spec fn densify_outcome<
    A: Fn(Single, u32) -> Single,
    O: Fn(&Gaussian3D<Single>) -> Single,
    E: Fn(&Gaussian3D<Single>) -> [Single; 3],
    S: Fn(&Gaussian3D<Single>) -> [Gaussian3D<Single>; 2],
    D: Fn(&Gaussian3D<Single>, Single) -> Gaussian3D<Single>,
>(
    average: A,
    opacity: O,
    scales: E,
    split: S,
    duplicate: D,
    cfg: TrainConfig,
    limits: Limits,
    gs0: Seq<Gaussian3D<Single>>,
    s0: AdamState,
    gs1: Seq<Gaussian3D<Single>>,
    s1: AdamState,
) -> bool {
    &&& densified(
        average,
        opacity,
        scales,
        split,
        duplicate,
        cfg,
        limits,
        gs0,
        s0.grad_accum@,
        s0.grad_denom@,
        gs1,
    )
    &&& s1.wf()
    &&& s1.t == s0.t
    &&& s1.slots() == if gs1.len() > s0.slots() {
        gs1.len()
    } else {
        s0.slots()
    }
    &&& resized(s0.m1@, s1.slots() * PARAMS_PER_GAUSSIAN, s1.m1@)
    &&& resized(s0.m2@, s1.slots() * PARAMS_PER_GAUSSIAN, s1.m2@)
    &&& s1.cleared()
}

/// Adaptive densification and pruning.  The state gets room for the new model, and its
/// screen gradients are cleared.
pub fn densify_and_prune<
    A: Fn(Single, u32) -> Single,
    O: Fn(&Gaussian3D<Single>) -> Single,
    E: Fn(&Gaussian3D<Single>) -> [Single; 3],
    S: Fn(&Gaussian3D<Single>) -> [Gaussian3D<Single>; 2],
    D: Fn(&Gaussian3D<Single>, Single) -> Gaussian3D<Single>,
>(
    average: A,
    opacity: O,
    scales: E,
    split: S,
    duplicate: D,
    gaussians: &mut Vec<Gaussian3D<Single>>,
    state: &mut AdamState,
    cfg: &TrainConfig,
    limits: &Limits,
)
    requires
        forall|s: Single, c: u32| call_requires(average, (s, c)),
        forall|g: &Gaussian3D<Single>| call_requires(opacity, (g,)),
        forall|g: &Gaussian3D<Single>| call_requires(scales, (g,)),
        forall|g: &Gaussian3D<Single>| call_requires(split, (g,)),
        forall|g: &Gaussian3D<Single>, v: Single| call_requires(duplicate, (g, v)),
        old(state).wf(),
        old(gaussians).len() <= old(state).slots(),
        2 * old(gaussians).len() * PARAMS_PER_GAUSSIAN <= usize::MAX,
    ensures
        densify_outcome(
            average,
            opacity,
            scales,
            split,
            duplicate,
            *cfg,
            *limits,
            old(gaussians)@,
            *old(state),
            final(gaussians)@,
            *final(state),
        ),
{
    let n = gaussians.len();
    let ghost gs = gaussians@;
    let ghost sums = state.grad_accum@;
    let ghost counts = state.grad_denom@;
    let ghost step = select_step(
        average,
        opacity,
        scales,
        split,
        duplicate,
        *cfg,
        *limits,
        gs,
        sums,
        counts,
    );
    let mut kept: Vec<Gaussian3D<Single>> = Vec::new();
    let mut added: Vec<Gaussian3D<Single>> = Vec::new();
    proof {
        lemma_reaches_nothing(
            step,
            nothing_selected(),
            Selection { kept: kept@, added: added@ },
        );
        assert(upto(0) =~= Seq::<int>::empty());
    }
    for i in 0..n
        invariant
            forall|s: Single, c: u32| call_requires(average, (s, c)),
            forall|g: &Gaussian3D<Single>| call_requires(opacity, (g,)),
            forall|g: &Gaussian3D<Single>| call_requires(scales, (g,)),
            forall|g: &Gaussian3D<Single>| call_requires(split, (g,)),
            forall|g: &Gaussian3D<Single>, v: Single| call_requires(duplicate, (g, v)),
            gs == gaussians@,
            n == gs.len(),
            sums == state.grad_accum@,
            counts == state.grad_denom@,
            n <= sums.len(),
            n <= counts.len(),
            2 * n * PARAMS_PER_GAUSSIAN <= usize::MAX,
            step == select_step(
                average,
                opacity,
                scales,
                split,
                duplicate,
                *cfg,
                *limits,
                gs,
                sums,
                counts,
            ),
            kept.len() <= i,
            kept.len() + added.len() <= 2 * i,
            reaches(
                step,
                upto(i as nat),
                nothing_selected(),
                Selection { kept: kept@, added: added@ },
            ),
    {
        let ghost s0 = Selection { kept: kept@, added: added@ };
        let g = gaussians[i];
        let count = state.grad_denom[i];
        let sum = state.grad_accum[i];
        let grad = if count > 0 {
            average(sum, count)
        } else {
            Single { bits: ZERO }
        };
        let a = opacity(&g);
        let s = scales(&g);
        let e = max_of(max_of(s[0], s[1]), s[2]);
        assert(e == widest(s));
        if !(a.lt(cfg.prune_opacity_thresh) || limits.huge.lt(e)) {
            if cfg.densify_grad_threshold.le(grad) && n + added.len() < cfg.max_gaussians {
                if limits.large.lt(e) {
                    let c = split(&g);
                    added.push(c[0]);
                    added.push(c[1]);
                    assert(call_ensures(split, (&g,), c));
                } else {
                    let c = duplicate(&g, grad);
                    kept.push(g);
                    added.push(c);
                }
            } else {
                kept.push(g);
            }
        }
        proof {
            let s1 = Selection { kept: kept@, added: added@ };
            assert(averages(average, sum, count, grad));
            assert(selects(split, duplicate, *cfg, *limits, n as int, g, a, e, grad, s0, s1));
            assert(step(s0, i as int, s1));
            lemma_reaches_push(step, upto(i as nat), nothing_selected(), s0, i as int, s1);
            lemma_upto_push(i as nat);
        }
    }
    let ghost s = Selection { kept: kept@, added: added@ };
    assert(kept@ + added@.take(0) =~= kept@);
    for i in 0..added.len()
        invariant
            kept@ == s.kept + added@.take(i as int),
    {
        kept.push(added[i]);
        assert(kept@ =~= s.kept + added@.take(i + 1));
    }
    assert(added@.take(added.len() as int) =~= added@);
    assert(kept@ == s.kept + s.added);
    assert(kept.len() * PARAMS_PER_GAUSSIAN <= usize::MAX) by (nonlinear_arith)
        requires
            kept.len() <= 2 * n,
            2 * n * PARAMS_PER_GAUSSIAN <= usize::MAX,
    ;
    state.resize(kept.len());
    *gaussians = kept;
    clear(state);
}

/// Clears the screen gradients.
fn clear(state: &mut AdamState)
    requires
        old(state).wf(),
    ensures
        final(state).wf(),
        final(state).cleared(),
        final(state).slots() == old(state).slots(),
        final(state).m1 == old(state).m1,
        final(state).m2 == old(state).m2,
        final(state).t == old(state).t,
{
    let n = state.grad_accum.len();
    for i in 0..n
        invariant
            state.grad_accum.len() == n,
            state.grad_denom.len() == n,
            state.m1 == old(state).m1,
            state.m2 == old(state).m2,
            state.t == old(state).t,
            forall|j: int|
                0 <= j < i ==> #[trigger] state.grad_accum[j] == (Single { bits: ZERO }),
            forall|j: int| 0 <= j < i ==> #[trigger] state.grad_denom[j] == 0,
    {
        state.grad_accum[i] = Single { bits: ZERO };
        state.grad_denom[i] = 0;
    }
}

/// The pattern of `0.01`: the opacity that is left after a reset.
pub const RESET_OPACITY: u32 = 0x3C23_D70A;

/// `l1` can be the opacity logit after a reset, where it was `l0`.
pub open spec fn resets<O: Fn(Single) -> Single, G: Fn(Single) -> Single>(
    opacity_of: O,
    logit_of: G,
    l0: Single,
    l1: Single,
) -> bool {
    exists|a: Single| #[trigger]
        call_ensures(opacity_of, (l0,), a) && call_ensures(
            logit_of,
            (smaller(Single { bits: RESET_OPACITY }, a),),
            l1,
        )
}

/// `gs1` can be the Gaussians `gs0` after a reset, which touches nothing but the opacities.
pub open spec fn opacities_reset<O: Fn(Single) -> Single, G: Fn(Single) -> Single>(
    opacity_of: O,
    logit_of: G,
    gs0: Seq<Gaussian3D<Single>>,
    gs1: Seq<Gaussian3D<Single>>,
) -> bool {
    &&& gs1.len() == gs0.len()
    &&& forall|i: int|
        0 <= i < gs0.len() ==> {
            let (a, b) = (gs0[i], #[trigger] gs1[i]);
            &&& b == (Gaussian3D { opacity_logit: b.opacity_logit, ..a })
            &&& resets(opacity_of, logit_of, a.opacity_logit, b.opacity_logit)
        }
}

/// Lowers every opacity that is larger than what a reset leaves.
pub fn reset_opacities<O: Fn(Single) -> Single, G: Fn(Single) -> Single>(
    opacity_of: O,
    logit_of: G,
    gaussians: &mut Vec<Gaussian3D<Single>>,
)
    requires
        forall|v: Single| call_requires(opacity_of, (v,)),
        forall|v: Single| call_requires(logit_of, (v,)),
    ensures
        opacities_reset(opacity_of, logit_of, old(gaussians)@, final(gaussians)@),
{
    let n = gaussians.len();
    let ghost before = gaussians@;
    for i in 0..n
        invariant
            forall|v: Single| call_requires(opacity_of, (v,)),
            forall|v: Single| call_requires(logit_of, (v,)),
            before.len() == n,
            gaussians.len() == n,
            forall|j: int|
                0 <= j < i ==> {
                    let (a, b) = (before[j], #[trigger] gaussians[j]);
                    &&& b == (Gaussian3D { opacity_logit: b.opacity_logit, ..a })
                    &&& resets(opacity_of, logit_of, a.opacity_logit, b.opacity_logit)
                },
            forall|j: int| i <= j < n ==> #[trigger] gaussians[j] == before[j],
    {
        let ghost mid = gaussians@;
        let mut g = gaussians[i];
        let a = opacity_of(g.opacity_logit);
        let v = logit_of(min_of(Single { bits: RESET_OPACITY }, a));
        assert(resets(opacity_of, logit_of, g.opacity_logit, v));
        g.opacity_logit = v;
        gaussians[i] = g;
        assert forall|j: int| 0 <= j < i + 1 implies {
            let (a, b) = (before[j], #[trigger] gaussians[j]);
            &&& b == (Gaussian3D { opacity_logit: b.opacity_logit, ..a })
            &&& resets(opacity_of, logit_of, a.opacity_logit, b.opacity_logit)
        } by {
            if j < i {
                assert(gaussians@[j] == mid[j]);
            }
        }
    }
}

} // verus!
