//! Training: its schedule, and what an iteration does to the model.

use super::densify::{
    densify_and_prune, densify_outcome, opacities_reset, reset_opacities, Limits,
};
use super::optimizer::{adam_step, adam_stepped, stepping, AdamState, TrainConfig};
use crate::cpu::render::GaussianGrad;
use crate::math::{Gaussian3D, PARAMS_PER_GAUSSIAN};
use crate::num::single::{Single, ONE};
use crate::num::text::{append_padded_decimal, padded_decimal};
use vstd::prelude::*;

verus! {

// ── which camera ────────────────────────────────────────────────────────────────────────

/// The seed of the camera sequence.
pub const SEED: u64 = 0x9E37_79B9_7F4A_7C15;

/// One round of the xorshift generator.
pub open spec fn xorshift(x: u64) -> u64 {
    let a = x ^ (x << 13);
    let b = a ^ (a >> 7);
    b ^ (b << 17)
}

/// A generator that is not zero never becomes zero.
pub proof fn generator_never_dies(x: u64)
    requires
        x != 0,
    ensures
        xorshift(x) != 0,
{
    let a = x ^ (x << 13);
    assert(a != 0) by (bit_vector)
        requires
            x != 0,
            a == x ^ (x << 13),
    ;
    let b = a ^ (a >> 7);
    assert(b != 0) by (bit_vector)
        requires
            a != 0,
            b == a ^ (a >> 7),
    ;
    assert(b ^ (b << 17) != 0) by (bit_vector)
        requires
            b != 0,
    ;
}

/// Draws cameras, always the same ones.
#[derive(Clone, Copy, Debug)]
pub struct CameraPicker {
    pub state: u64,
}

impl CameraPicker {
    pub fn new() -> (r: CameraPicker)
        ensures
            r.state == SEED,
    {
        CameraPicker { state: SEED }
    }

    /// The next camera out of `n`.
    pub fn next(&mut self, n: usize) -> (r: usize)
        requires
            n > 0,
        ensures
            final(self).state == xorshift(old(self).state),
            r == final(self).state as usize % n,
            r < n,
    {
        let mut x = self.state;
        x = x ^ (x << 13);
        x = x ^ (x >> 7);
        x = x ^ (x << 17);
        self.state = x;
        (x as usize) % n
    }
}

// ── what is done when ───────────────────────────────────────────────────────────────────

/// A training run: how many iterations were begun, and the camera sequence.
#[derive(Clone, Copy, Debug)]
pub struct Schedule {
    pub iter: usize,
    pub picker: CameraPicker,
}

impl Schedule {
    pub fn new() -> (r: Schedule)
        ensures
            r.iter == 0,
            r.picker.state == SEED,
    {
        Schedule { iter: 0, picker: CameraPicker::new() }
    }

    /// The next iteration and the camera that is looked through, out of `n_cams`; nothing,
    /// when all iterations were begun.
    pub fn next(&mut self, cfg: &TrainConfig, n_cams: usize) -> (r: Option<(usize, usize)>)
        requires
            n_cams > 0,
        ensures
            if old(self).iter < cfg.num_iterations {
                let state = xorshift(old(self).picker.state);
                &&& r == Some((old(self).iter, (state as usize % n_cams) as usize))
                &&& final(self).iter == old(self).iter + 1
                &&& final(self).picker.state == state
            } else {
                &&& r is None
                &&& *final(self) == *old(self)
            },
    {
        if self.iter < cfg.num_iterations {
            let iter = self.iter;
            let camera = self.picker.next(n_cams);
            self.iter = iter + 1;
            Some((iter, camera))
        } else {
            None
        }
    }
}

/// What is done after the step of an iteration.
#[derive(Clone, Copy, Debug, PartialEq, Eq, Structural)]
pub struct Chores {
    pub densify: bool,
    pub reset_opacities: bool,
    pub checkpoint: bool,
    pub report: bool,
}

/// Densification every 100 iterations within its range; resets and checkpoints at their
/// intervals; never in the first iteration.  A report every ten iterations.
pub open spec fn chores_of(iter: int, cfg: TrainConfig, save_interval: int) -> Chores {
    Chores {
        densify: cfg.densify_from_iter <= iter <= cfg.densify_until_iter && iter % 100 == 0 && iter
            > 0,
        reset_opacities: iter % cfg.opacity_reset_iter as int == 0 && iter > 0,
        checkpoint: iter % save_interval == 0 && iter > 0,
        report: iter % 10 == 0,
    }
}

pub fn chores(iter: usize, cfg: &TrainConfig, save_interval: usize) -> (r: Chores)
    requires
        cfg.opacity_reset_iter > 0,
        save_interval > 0,
    ensures
        r == chores_of(iter as int, *cfg, save_interval as int),
{
    Chores {
        densify: iter >= cfg.densify_from_iter && iter <= cfg.densify_until_iter && iter % 100 == 0
            && iter > 0,
        reset_opacities: iter % cfg.opacity_reset_iter == 0 && iter > 0,
        checkpoint: iter % save_interval == 0 && iter > 0,
        report: iter % 10 == 0,
    }
}

/// The model and the optimiser's state on the way through an iteration: after the step, and
/// then after densification, if it is due.
pub struct Midway {
    pub stepped: Seq<Gaussian3D<Single>>,
    pub state: AdamState,
    pub dense: Seq<Gaussian3D<Single>>,
}

/// `gs1` and `s1` can be what an iteration with the chores `due` makes of the Gaussians `gs0`
/// and the state `s0`, by way of `m`: a step of the optimiser, then densification, and then a
/// reset of the opacities, each where it is due.
pub open spec fn advanced<
    A: Fn(usize, Single, Single, Single, Single) -> (Single, Single, Single),
    S: Fn(Single, Single) -> Single,
    M: Fn(Single, Single) -> Single,
    N: Fn([Single; 4]) -> Single,
    D: Fn([Single; 4], Single) -> [Single; 4],
    V: Fn(Single, u32) -> Single,
    O: Fn(&Gaussian3D<Single>) -> Single,
    E: Fn(&Gaussian3D<Single>) -> [Single; 3],
    P: Fn(&Gaussian3D<Single>) -> [Gaussian3D<Single>; 2],
    C: Fn(&Gaussian3D<Single>, Single) -> Gaussian3D<Single>,
    Q: Fn(Single) -> Single,
    L: Fn(Single) -> Single,
>(
    adam: A,
    minus: S,
    more: M,
    norm: N,
    shorten: D,
    average: V,
    opacity: O,
    scales: E,
    split: P,
    duplicate: C,
    opacity_of: Q,
    logit_of: L,
    cfg: TrainConfig,
    limits: Limits,
    due: Chores,
    grads: Seq<GaussianGrad>,
    gs0: Seq<Gaussian3D<Single>>,
    s0: AdamState,
    m: Midway,
    gs1: Seq<Gaussian3D<Single>>,
    s1: AdamState,
) -> bool {
    &&& adam_stepped(adam, minus, more, norm, shorten, cfg, grads, gs0, s0, m.stepped, m.state)
    &&& if due.densify {
        densify_outcome(
            average,
            opacity,
            scales,
            split,
            duplicate,
            cfg,
            limits,
            m.stepped,
            m.state,
            m.dense,
            s1,
        )
    } else {
        m.dense == m.stepped && s1 == m.state
    }
    &&& if due.reset_opacities {
        opacities_reset(opacity_of, logit_of, m.dense, gs1)
    } else {
        gs1 == m.dense
    }
}

/// Carries out iteration `iter` of training, given the gradients of the Gaussians, and tells
/// what is due; a checkpoint and a report are left to the caller.
pub fn advance<
    A: Fn(usize, Single, Single, Single, Single) -> (Single, Single, Single) + Copy,
    S: Fn(Single, Single) -> Single + Copy,
    M: Fn(Single, Single) -> Single,
    N: Fn([Single; 4]) -> Single,
    D: Fn([Single; 4], Single) -> [Single; 4],
    V: Fn(Single, u32) -> Single,
    O: Fn(&Gaussian3D<Single>) -> Single,
    E: Fn(&Gaussian3D<Single>) -> [Single; 3],
    P: Fn(&Gaussian3D<Single>) -> [Gaussian3D<Single>; 2],
    C: Fn(&Gaussian3D<Single>, Single) -> Gaussian3D<Single>,
    Q: Fn(Single) -> Single,
    L: Fn(Single) -> Single,
>(
    adam: A,
    minus: S,
    more: M,
    norm: N,
    shorten: D,
    average: V,
    opacity: O,
    scales: E,
    split: P,
    duplicate: C,
    opacity_of: Q,
    logit_of: L,
    gaussians: &mut Vec<Gaussian3D<Single>>,
    grads: &[GaussianGrad],
    state: &mut AdamState,
    cfg: &TrainConfig,
    limits: &Limits,
    iter: usize,
    save_interval: usize,
) -> (r: Chores)
    requires
        forall|t: usize, g: Single, l: Single, a: Single, b: Single|
            call_requires(adam, (t, g, l, a, b)),
        forall|a: Single, b: Single| call_requires(minus, (a, b)),
        forall|a: Single, b: Single| call_requires(more, (a, b)),
        forall|q: [Single; 4]| call_requires(norm, (q,)),
        forall|q: [Single; 4], n: Single| call_requires(shorten, (q, n)),
        forall|s: Single, c: u32| call_requires(average, (s, c)),
        forall|g: &Gaussian3D<Single>| call_requires(opacity, (g,)),
        forall|g: &Gaussian3D<Single>| call_requires(scales, (g,)),
        forall|g: &Gaussian3D<Single>| call_requires(split, (g,)),
        forall|g: &Gaussian3D<Single>, v: Single| call_requires(duplicate, (g, v)),
        forall|v: Single| call_requires(opacity_of, (v,)),
        forall|v: Single| call_requires(logit_of, (v,)),
        old(state).wf(),
        old(state).t < usize::MAX,
        forall|i: int|
            0 <= i < stepping(old(gaussians)@.len(), grads@.len(), old(state).slots())
                ==> #[trigger] old(state).grad_denom[i] < u32::MAX,
        old(gaussians).len() <= old(state).slots(),
        2 * old(gaussians).len() * PARAMS_PER_GAUSSIAN <= usize::MAX,
        cfg.opacity_reset_iter > 0,
        save_interval > 0,
    ensures
        r == chores_of(iter as int, *cfg, save_interval as int),
        exists|m: Midway| #[trigger]
            advanced(
                adam,
                minus,
                more,
                norm,
                shorten,
                average,
                opacity,
                scales,
                split,
                duplicate,
                opacity_of,
                logit_of,
                *cfg,
                *limits,
                r,
                grads@,
                old(gaussians)@,
                *old(state),
                m,
                final(gaussians)@,
                *final(state),
            ),
{
    let due = chores(iter, cfg, save_interval);
    adam_step(adam, minus, more, norm, shorten, gaussians, grads, state, cfg);
    let ghost stepped = gaussians@;
    let ghost mid = *state;
    if due.densify {
        densify_and_prune(
            average,
            opacity,
            scales,
            split,
            duplicate,
            gaussians,
            state,
            cfg,
            limits,
        );
    }
    let ghost dense = gaussians@;
    if due.reset_opacities {
        reset_opacities(opacity_of, logit_of, gaussians);
    }
    proof {
        let m = Midway { stepped, state: mid, dense };
        assert(advanced(
            adam,
            minus,
            more,
            norm,
            shorten,
            average,
            opacity,
            scales,
            split,
            duplicate,
            opacity_of,
            logit_of,
            *cfg,
            *limits,
            due,
            grads@,
            old(gaussians)@,
            *old(state),
            m,
            gaussians@,
            *state,
        ));
    }
    due
}

/// Through all of training the optimiser's state has room for every Gaussian.
pub proof fn state_keeps_room<
    A: Fn(usize, Single, Single, Single, Single) -> (Single, Single, Single),
    S: Fn(Single, Single) -> Single,
    M: Fn(Single, Single) -> Single,
    N: Fn([Single; 4]) -> Single,
    D: Fn([Single; 4], Single) -> [Single; 4],
    V: Fn(Single, u32) -> Single,
    O: Fn(&Gaussian3D<Single>) -> Single,
    E: Fn(&Gaussian3D<Single>) -> [Single; 3],
    P: Fn(&Gaussian3D<Single>) -> [Gaussian3D<Single>; 2],
    C: Fn(&Gaussian3D<Single>, Single) -> Gaussian3D<Single>,
    Q: Fn(Single) -> Single,
    L: Fn(Single) -> Single,
>(
    adam: A,
    minus: S,
    more: M,
    norm: N,
    shorten: D,
    average: V,
    opacity: O,
    scales: E,
    split: P,
    duplicate: C,
    opacity_of: Q,
    logit_of: L,
    cfg: TrainConfig,
    limits: Limits,
    due: Chores,
    grads: Seq<GaussianGrad>,
    gs0: Seq<Gaussian3D<Single>>,
    s0: AdamState,
    m: Midway,
    gs1: Seq<Gaussian3D<Single>>,
    s1: AdamState,
)
    requires
        advanced(
            adam,
            minus,
            more,
            norm,
            shorten,
            average,
            opacity,
            scales,
            split,
            duplicate,
            opacity_of,
            logit_of,
            cfg,
            limits,
            due,
            grads,
            gs0,
            s0,
            m,
            gs1,
            s1,
        ),
        gs0.len() <= s0.slots(),
    ensures
        s1.wf(),
        s1.t == s0.t + 1,
        gs1.len() <= s1.slots(),
        s0.slots() <= s1.slots(),
{
}

/// The first iteration is a plain one.
pub proof fn first_iteration_is_plain(cfg: TrainConfig, save_interval: int)
    ensures
        !chores_of(0, cfg, save_interval).densify,
        !chores_of(0, cfg, save_interval).reset_opacities,
        !chores_of(0, cfg, save_interval).checkpoint,
{
}

/// The interval of checkpoints, at least one iteration.
pub fn checkpoint_interval(save_interval: usize) -> (r: usize)
    ensures
        r == if save_interval >= 1 {
            save_interval
        } else {
            1
        },
{
    if save_interval >= 1 {
        save_interval
    } else {
        1
    }
}

/// The file name of a checkpoint.
pub fn checkpoint_name(iter: usize) -> (r: String)
    ensures
        r@ == "ckpt_"@ + padded_decimal(iter as nat, 6) + ".ply"@,
{
    let mut name = String::new();
    name.append("ckpt_");
    append_padded_decimal(&mut name, iter, 6);
    name.append(".ply");
    assert(name@ =~= "ckpt_"@ + padded_decimal(iter as nat, 6) + ".ply"@);
    name
}

// ── the scene ───────────────────────────────────────────────────────────────────────────

/// The pattern of the largest finite value.
pub const LARGEST: u32 = 0x7F7F_FFFF;

/// The pattern of the smallest finite value.
pub const SMALLEST: u32 = 0xFF7F_FFFF;

/// The least coordinate of the first `n` Gaussians along an axis; what is not a number does
/// not count.
pub open spec fn least(gs: Seq<Gaussian3D<Single>>, axis: int, n: nat) -> Single
    decreases n,
{
    if n == 0 {
        Single { bits: LARGEST }
    } else {
        let m = least(gs, axis, (n - 1) as nat);
        if gs[n - 1].position[axis].below(m) {
            gs[n - 1].position[axis]
        } else {
            m
        }
    }
}

/// The greatest coordinate of the first `n` Gaussians along an axis.
pub open spec fn greatest(gs: Seq<Gaussian3D<Single>>, axis: int, n: nat) -> Single
    decreases n,
{
    if n == 0 {
        Single { bits: SMALLEST }
    } else {
        let m = greatest(gs, axis, (n - 1) as nat);
        if m.below(gs[n - 1].position[axis]) {
            gs[n - 1].position[axis]
        } else {
            m
        }
    }
}

/// Every centre whose coordinates are numbers lies within the bounds.
pub proof fn bounds_hold_centres(gs: Seq<Gaussian3D<Single>>, axis: int, n: nat, i: int)
    requires
        0 <= i < n <= gs.len(),
        0 <= axis < 3,
        !gs[i].position[axis].nan(),
    ensures
        !least(gs, axis, n).nan(),
        !greatest(gs, axis, n).nan(),
        least(gs, axis, n).value() <= gs[i].position[axis].value(),
        gs[i].position[axis].value() <= greatest(gs, axis, n).value(),
    decreases n,
{
    lemma_bounds_are_numbers(gs, axis, (n - 1) as nat);
    if i < n - 1 {
        bounds_hold_centres(gs, axis, (n - 1) as nat, i);
    }
}

proof fn lemma_bounds_are_numbers(gs: Seq<Gaussian3D<Single>>, axis: int, n: nat)
    ensures
        !least(gs, axis, n).nan(),
        !greatest(gs, axis, n).nan(),
    decreases n,
{
    if n > 0 {
        lemma_bounds_are_numbers(gs, axis, (n - 1) as nat);
    }
}

/// The extent of the scene: `diagonal` of the box around all centres; one, without any.
pub fn estimate_scene_extent<D: Fn([Single; 3], [Single; 3]) -> Single>(
    diagonal: D,
    gaussians: &[Gaussian3D<Single>],
) -> (r: Single)
    requires
        forall|a: [Single; 3], b: [Single; 3]| call_requires(diagonal, (a, b)),
    ensures
        gaussians.len() == 0 ==> r == (Single { bits: ONE }),
        gaussians.len() > 0 ==> exists|lo: [Single; 3], hi: [Single; 3]|
            {
                &&& #[trigger] call_ensures(diagonal, (lo, hi), r)
                &&& forall|i: int|
                    0 <= i < 3 ==> #[trigger] lo[i] == least(gaussians@, i, gaussians@.len())
                &&& forall|i: int|
                    0 <= i < 3 ==> #[trigger] hi[i] == greatest(gaussians@, i, gaussians@.len())
            },
{
    if gaussians.len() == 0 {
        return Single { bits: ONE };
    }
    let (l, s) = (Single { bits: LARGEST }, Single { bits: SMALLEST });
    let mut lo = [l, l, l];
    let mut hi = [s, s, s];
    for n in 0..gaussians.len()
        invariant
            forall|i: int| 0 <= i < 3 ==> #[trigger] lo[i] == least(gaussians@, i, n as nat),
            forall|i: int| 0 <= i < 3 ==> #[trigger] hi[i] == greatest(gaussians@, i, n as nat),
    {
        let g = gaussians[n];
        for a in 0..3usize
            invariant
                n < gaussians.len(),
                g == gaussians[n as int],
                forall|i: int|
                    0 <= i < a ==> #[trigger] lo[i] == least(gaussians@, i, (n + 1) as nat),
                forall|i: int|
                    0 <= i < a ==> #[trigger] hi[i] == greatest(gaussians@, i, (n + 1) as nat),
                forall|i: int| a <= i < 3 ==> #[trigger] lo[i] == least(gaussians@, i, n as nat),
                forall|i: int|
                    a <= i < 3 ==> #[trigger] hi[i] == greatest(gaussians@, i, n as nat),
        {
            let x = g.position[a];
            if x.lt(lo[a]) {
                lo[a] = x;
            }
            if hi[a].lt(x) {
                hi[a] = x;
            }
        }
    }
    diagonal(lo, hi)
}

} // verus!
