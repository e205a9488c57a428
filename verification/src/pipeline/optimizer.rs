//! The optimiser's state and its step.
//!
//! The kernels are handed in.  For a step: `adam` makes the new moments of a parameter and
//! its update, `minus` applies the update, `more` adds to the screen gradient, `norm` is the
//! length of a quaternion and `shorten` divides by it.

use crate::cpu::render::GaussianGrad;
use crate::math::{lemma_gaussian_view, Gaussian3D, PARAMS_PER_GAUSSIAN};

use crate::num::single::{Single, ZERO};
use vstd::prelude::*;

verus! {

/// The pattern of `1e-8`: shorter quaternions are left alone.
pub const MIN_NORM: u32 = 0x322B_CC77;

/// Hyper-parameters.
#[derive(Clone, Copy, Debug)]
pub struct TrainConfig {
    pub num_iterations: usize,
    pub lr_position: Single,
    pub lr_rotation: Single,
    pub lr_scale: Single,
    pub lr_opacity: Single,
    pub lr_sh_dc: Single,
    pub lr_sh_rest: Single,
    pub beta1: Single,
    pub beta2: Single,
    pub eps: Single,
    pub densify_from_iter: usize,
    pub densify_until_iter: usize,
    pub densify_grad_threshold: Single,
    pub opacity_reset_iter: usize,
    pub prune_opacity_thresh: Single,
    pub max_gaussians: usize,
}

/// The defaults: rates of `0.00016`, `0.001`, `0.005`, `0.05`, `0.0025` and `0.000125`,
/// decays of `0.9` and `0.999`, `1e-8`, and thresholds of `0.0002` and `0.005`.
pub open spec fn default_config() -> TrainConfig {
    TrainConfig {
        num_iterations: 30_000,
        lr_position: Single { bits: 0x3927_C5AC },
        lr_rotation: Single { bits: 0x3A83_126F },
        lr_scale: Single { bits: 0x3BA3_D70A },
        lr_opacity: Single { bits: 0x3D4C_CCCD },
        lr_sh_dc: Single { bits: 0x3B23_D70A },
        lr_sh_rest: Single { bits: 0x3903_126F },
        beta1: Single { bits: 0x3F66_6666 },
        beta2: Single { bits: 0x3F7F_BE77 },
        eps: Single { bits: 0x322B_CC77 },
        densify_from_iter: 500,
        densify_until_iter: 15_000,
        densify_grad_threshold: Single { bits: 0x3951_B717 },
        opacity_reset_iter: 3000,
        prune_opacity_thresh: Single { bits: 0x3BA3_D70A },
        max_gaussians: 3_000_000,
    }
}

impl Default for TrainConfig {
    fn default() -> (r: TrainConfig)
        ensures
            r == default_config(),
    {
        TrainConfig {
            num_iterations: 30_000,
            lr_position: Single { bits: 0x3927_C5AC },
            lr_rotation: Single { bits: 0x3A83_126F },
            lr_scale: Single { bits: 0x3BA3_D70A },
            lr_opacity: Single { bits: 0x3D4C_CCCD },
            lr_sh_dc: Single { bits: 0x3B23_D70A },
            lr_sh_rest: Single { bits: 0x3903_126F },
            beta1: Single { bits: 0x3F66_6666 },
            beta2: Single { bits: 0x3F7F_BE77 },
            eps: Single { bits: 0x322B_CC77 },
            densify_from_iter: 500,
            densify_until_iter: 15_000,
            densify_grad_threshold: Single { bits: 0x3951_B717 },
            opacity_reset_iter: 3000,
            prune_opacity_thresh: Single { bits: 0x3BA3_D70A },
            max_gaussians: 3_000_000,
        }
    }
}

// ── state ───────────────────────────────────────────────────────────────────────────────

/// Moments of every parameter, and the screen gradients since the last densification.
pub struct AdamState {
    /// First moments, 59 per Gaussian.
    pub m1: Vec<Single>,
    /// Second moments.
    pub m2: Vec<Single>,
    /// Sum of the screen gradients of each Gaussian, and how many there were.
    pub grad_accum: Vec<Single>,
    pub grad_denom: Vec<u32>,
    /// How many steps were taken.
    pub t: usize,
}

/// `b` is `a` cut or extended with zeros to `n` entries.
pub open spec fn resized(a: Seq<Single>, n: int, b: Seq<Single>) -> bool {
    &&& b.len() == n
    &&& forall|i: int|
        0 <= i < n ==> #[trigger] b[i] == if i < a.len() {
            a[i]
        } else {
            Single { bits: ZERO }
        }
}

impl AdamState {
    /// For how many Gaussians there is room.
    pub open spec fn slots(&self) -> nat {
        self.grad_accum@.len()
    }

    /// Every Gaussian has its moments and its sums.
    pub open spec fn wf(&self) -> bool {
        &&& self.m1.len() == self.slots() * PARAMS_PER_GAUSSIAN
        &&& self.m2.len() == self.slots() * PARAMS_PER_GAUSSIAN
        &&& self.grad_denom.len() == self.slots()
    }

    /// No screen gradient was added up.
    pub open spec fn cleared(&self) -> bool {
        &&& forall|i: int|
            0 <= i < self.grad_accum.len() ==> #[trigger] self.grad_accum[i] == (Single {
                bits: ZERO,
            })
        &&& forall|i: int| 0 <= i < self.grad_denom.len() ==> #[trigger] self.grad_denom[i] == 0
    }

    /// A state for `n` Gaussians.
    pub fn new(n: usize) -> (r: AdamState)
        requires
            n * PARAMS_PER_GAUSSIAN <= usize::MAX,
        ensures
            r.wf(),
            r.slots() == n,
            r.cleared(),
            resized(Seq::empty(), n * PARAMS_PER_GAUSSIAN, r.m1@),
            resized(Seq::empty(), n * PARAMS_PER_GAUSSIAN, r.m2@),
            r.t == 0,
    {
        let mut r = AdamState {
            m1: Vec::new(),
            m2: Vec::new(),
            grad_accum: Vec::new(),
            grad_denom: Vec::new(),
            t: 0,
        };
        r.resize(n);
        r
    }

    /// Makes room for `new_n` Gaussians; room is never given up.
    pub fn resize(&mut self, new_n: usize)
        requires
            old(self).wf(),
            new_n * PARAMS_PER_GAUSSIAN <= usize::MAX,
        ensures
            final(self).wf(),
            final(self).t == old(self).t,
            final(self).slots() == if new_n > old(self).slots() {
                new_n as nat
            } else {
                old(self).slots()
            },
            resized(old(self).m1@, final(self).slots() * PARAMS_PER_GAUSSIAN, final(self).m1@),
            resized(old(self).m2@, final(self).slots() * PARAMS_PER_GAUSSIAN, final(self).m2@),
            resized(old(self).grad_accum@, final(self).slots() as int, final(self).grad_accum@),
            forall|i: int|
                0 <= i < final(self).slots() ==> #[trigger] final(self).grad_denom[i] == if i
                    < old(self).slots() {
                    old(self).grad_denom[i]
                } else {
                    0
                },
    {
        let zero = Single { bits: ZERO };
        let old_n = self.m1.len() / PARAMS_PER_GAUSSIAN;
        assert(old_n == self.slots());
        if new_n > old_n {
            pad(&mut self.m1, new_n * PARAMS_PER_GAUSSIAN);
            pad(&mut self.m2, new_n * PARAMS_PER_GAUSSIAN);
            pad(&mut self.grad_accum, new_n);
            let ghost before = self.grad_denom@;
            while self.grad_denom.len() < new_n
                invariant
                    before.len() <= self.grad_denom.len() <= new_n,
                    forall|i: int|
                        0 <= i < self.grad_denom.len() ==> #[trigger] self.grad_denom[i] == if i
                            < before.len() {
                            before[i]
                        } else {
                            0
                        },
                    self.m1@.len() == new_n * PARAMS_PER_GAUSSIAN,
                    self.m2@.len() == new_n * PARAMS_PER_GAUSSIAN,
                    self.grad_accum@.len() == new_n,
                    resized(old(self).m1@, new_n * PARAMS_PER_GAUSSIAN, self.m1@),
                    resized(old(self).m2@, new_n * PARAMS_PER_GAUSSIAN, self.m2@),
                    resized(old(self).grad_accum@, new_n as int, self.grad_accum@),
                    self.t == old(self).t,
                decreases new_n - self.grad_denom.len(),
            {
                self.grad_denom.push(0);
            }
        }
    }
}

/// Extends `v` with zeros to `n` entries.
fn pad(v: &mut Vec<Single>, n: usize)
    requires
        old(v).len() <= n,
    ensures
        resized(old(v)@, n as int, final(v)@),
{
    while v.len() < n
        invariant
            old(v).len() <= v.len() <= n,
            resized(old(v)@, v.len() as int, v@),
        decreases n - v.len(),
    {
        v.push(Single { bits: ZERO });
    }
}

// ── layout ──────────────────────────────────────────────────────────────────────────────

/// The learning rate of parameter `j`.
pub open spec fn rate(cfg: TrainConfig, j: int) -> Single {
    if j < 3 {
        cfg.lr_position
    } else if j < 7 {
        cfg.lr_rotation
    } else if j < 10 {
        cfg.lr_scale
    } else if j == 10 {
        cfg.lr_opacity
    } else if j < 14 {
        cfg.lr_sh_dc
    } else {
        cfg.lr_sh_rest
    }
}

/// The learning rates of all parameters, in order.
pub fn learning_rates(cfg: &TrainConfig) -> (r: Vec<Single>)
    ensures
        r@ == Seq::new(PARAMS_PER_GAUSSIAN as nat, |j: int| rate(*cfg, j)),
{
    let mut r: Vec<Single> = Vec::new();
    for j in 0..PARAMS_PER_GAUSSIAN
        invariant
            r@ == Seq::new(j as nat, |i: int| rate(*cfg, i)),
    {
        let v = if j < 3 {
            cfg.lr_position
        } else if j < 7 {
            cfg.lr_rotation
        } else if j < 10 {
            cfg.lr_scale
        } else if j == 10 {
            cfg.lr_opacity
        } else if j < 14 {
            cfg.lr_sh_dc
        } else {
            cfg.lr_sh_rest
        };
        r.push(v);
        assert(r@ =~= Seq::new((j + 1) as nat, |i: int| rate(*cfg, i)));
    }
    r
}

/// The gradient as a row, in the order of the parameters.
pub fn flatten_grad(g: &GaussianGrad) -> (r: Vec<Single>)
    ensures
        r@ == g@,
        r.len() == PARAMS_PER_GAUSSIAN,
{
    let mut r: Vec<Single> = Vec::new();
    for j in 0..PARAMS_PER_GAUSSIAN
        invariant
            r@ == g@.take(j as int),
    {
        let v = if j < 3 {
            g.d_position[j]
        } else if j < 7 {
            g.d_rotation[j - 3]
        } else if j < 10 {
            g.d_log_scale[j - 7]
        } else if j == 10 {
            g.d_opacity_logit
        } else {
            g.d_sh[j - 11]
        };
        r.push(v);
        assert(r@ =~= g@.take(j + 1));
    }
    assert(g@.take(59) =~= g@);
    r
}

/// A Gaussian and its gradient are laid out alike: position, rotation, log scale, opacity,
/// then the spherical harmonics.
pub proof fn layouts_agree(g: Gaussian3D<Single>, d: GaussianGrad, j: int)
    requires
        0 <= j < PARAMS_PER_GAUSSIAN,
    ensures
        g@.len() == d@.len(),
        if j < 3 {
            g@[j] == g.position[j] && d@[j] == d.d_position[j]
        } else if j < 7 {
            g@[j] == g.rotation[j - 3] && d@[j] == d.d_rotation[j - 3]
        } else if j < 10 {
            g@[j] == g.log_scale[j - 7] && d@[j] == d.d_log_scale[j - 7]
        } else if j == 10 {
            g@[j] == g.opacity_logit && d@[j] == d.d_opacity_logit
        } else {
            g@[j] == g.sh_coeffs[j - 11] && d@[j] == d.d_sh[j - 11]
        },
{
}

/// Subtracts the update from parameter `j`.
pub fn apply_update_to_gaussian<S: Fn(Single, Single) -> Single>(
    minus: S,
    g: &mut Gaussian3D<Single>,
    j: usize,
    update: Single,
)
    requires
        forall|a: Single, b: Single| call_requires(minus, (a, b)),
        j < PARAMS_PER_GAUSSIAN,
    ensures
        updated(minus, old(g)@, j as int, update, final(g)@),
{
    let v = minus(g.param(j), update);
    g.set_param(j, v);
}

/// `q` can be `p` with the update subtracted from parameter `j`.
pub open spec fn updated<S: Fn(Single, Single) -> Single>(
    minus: S,
    p: Seq<Single>,
    j: int,
    update: Single,
    q: Seq<Single>,
) -> bool {
    exists|v: Single| #[trigger] call_ensures(minus, (p[j], update), v) && q == p.update(j, v)
}

// ── one step ────────────────────────────────────────────────────────────────────────────

/// Where the moments of parameter `j` of Gaussian `i` stand.
pub open spec fn slot(i: int, j: int) -> int {
    i * PARAMS_PER_GAUSSIAN + j
}

/// Every parameter of every Gaussian has its own moments.
pub proof fn moments_are_not_shared(i: int, j: int, a: int, b: int)
    requires
        0 <= j < PARAMS_PER_GAUSSIAN,
        0 <= b < PARAMS_PER_GAUSSIAN,
        slot(i, j) == slot(a, b),
    ensures
        i == a,
        j == b,
{
}

/// `a`, `b` and `q` can be the moments and the value of a parameter after step `t`, before
/// which they were `m1`, `m2` and `p`.
pub open spec fn param_stepped<
    A: Fn(usize, Single, Single, Single, Single) -> (Single, Single, Single),
    S: Fn(Single, Single) -> Single,
>(
    adam: A,
    minus: S,
    t: usize,
    grad: Single,
    lr: Single,
    m1: Single,
    m2: Single,
    p: Single,
    a: Single,
    b: Single,
    q: Single,
) -> bool {
    exists|r: (Single, Single, Single)| #[trigger]
        call_ensures(adam, (t, grad, lr, m1, m2), r) && a == r.0 && b == r.1 && call_ensures(
            minus,
            (p, r.2),
            q,
        )
}

/// `mids` and the moments can be what step `t` makes of the first `k` Gaussians; the others
/// are left alone.
pub open spec fn all_stepped<
    A: Fn(usize, Single, Single, Single, Single) -> (Single, Single, Single),
    S: Fn(Single, Single) -> Single,
>(
    adam: A,
    minus: S,
    t: usize,
    cfg: TrainConfig,
    k: int,
    grads: Seq<GaussianGrad>,
    olds: Seq<Gaussian3D<Single>>,
    m1: Seq<Single>,
    m2: Seq<Single>,
    mids: Seq<Gaussian3D<Single>>,
    n1: Seq<Single>,
    n2: Seq<Single>,
) -> bool {
    &&& mids.len() == olds.len()
    &&& n1.len() == m1.len()
    &&& n2.len() == m2.len()
    &&& forall|i: int, j: int|
        #![trigger slot(i, j)]
        0 <= i < k && 0 <= j < PARAMS_PER_GAUSSIAN ==> param_stepped(
            adam,
            minus,
            t,
            grads[i]@[j],
            rate(cfg, j),
            m1[slot(i, j)],
            m2[slot(i, j)],
            olds[i]@[j],
            n1[slot(i, j)],
            n2[slot(i, j)],
            mids[i]@[j],
        )
    &&& forall|i: int| k <= i < olds.len() ==> #[trigger] mids[i] == olds[i]
    &&& forall|c: int| k * PARAMS_PER_GAUSSIAN <= c < m1.len() ==> #[trigger] n1[c] == m1[c]
    &&& forall|c: int| k * PARAMS_PER_GAUSSIAN <= c < m2.len() ==> #[trigger] n2[c] == m2[c]
}

/// `b` can be the rotation `a`, divided by its length where that is not tiny.
pub open spec fn turned<N: Fn([Single; 4]) -> Single, D: Fn([Single; 4], Single) -> [Single; 4]>(
    norm: N,
    shorten: D,
    a: [Single; 4],
    b: [Single; 4],
) -> bool {
    exists|n: Single| #[trigger]
        call_ensures(norm, (a,), n) && if (Single { bits: MIN_NORM }).below(n) {
            call_ensures(shorten, (a, n), b)
        } else {
            b == a
        }
}

/// `b` can be the Gaussian `a` with its rotation normalised.
pub open spec fn normalised<
    N: Fn([Single; 4]) -> Single,
    D: Fn([Single; 4], Single) -> [Single; 4],
>(norm: N, shorten: D, a: Gaussian3D<Single>, b: Gaussian3D<Single>) -> bool {
    &&& turned(norm, shorten, a.rotation, b.rotation)
    &&& b == (Gaussian3D { rotation: b.rotation, ..a })
}

/// How many Gaussians a step updates: those that have a gradient and room in the state.
pub open spec fn stepping(n: nat, grads: nat, slots: nat) -> int {
    if n <= grads && n <= slots {
        n as int
    } else if grads <= slots {
        grads as int
    } else {
        slots as int
    }
}

/// The screen gradients of the first `k` Gaussians were added up and counted; the others are
/// left alone.
pub open spec fn sums_stepped<M: Fn(Single, Single) -> Single>(
    more: M,
    k: int,
    grads: Seq<GaussianGrad>,
    s0: AdamState,
    s1: AdamState,
) -> bool {
    &&& forall|i: int|
        0 <= i < k ==> call_ensures(
            more,
            (s0.grad_accum[i], grads[i].screen_grad_norm),
            #[trigger] s1.grad_accum[i],
        )
    &&& forall|i: int| 0 <= i < k ==> #[trigger] s1.grad_denom[i] == s0.grad_denom[i] + 1
    &&& forall|i: int|
        k <= i < s0.grad_accum.len() ==> #[trigger] s1.grad_accum[i] == s0.grad_accum[i]
    &&& forall|i: int|
        k <= i < s0.grad_denom.len() ==> #[trigger] s1.grad_denom[i] == s0.grad_denom[i]
}

fn step_moments<
    A: Fn(usize, Single, Single, Single, Single) -> (Single, Single, Single) + Copy,
    S: Fn(Single, Single) -> Single + Copy,
>(
    adam: A,
    minus: S,
    cfg: &TrainConfig,
    lrs: &[Single],
    k: usize,
    gaussians: &mut Vec<Gaussian3D<Single>>,
    grads: &[GaussianGrad],
    state: &mut AdamState,
)
    requires
        forall|t: usize, g: Single, l: Single, a: Single, b: Single|
            call_requires(adam, (t, g, l, a, b)),
        forall|a: Single, b: Single| call_requires(minus, (a, b)),
        old(state).wf(),
        k <= old(gaussians).len(),
        k <= grads.len(),
        k <= old(state).slots(),
        lrs@ == Seq::new(PARAMS_PER_GAUSSIAN as nat, |j: int| rate(*cfg, j)),
    ensures
        all_stepped(
            adam,
            minus,
            old(state).t,
            *cfg,
            k as int,
            grads@,
            old(gaussians)@,
            old(state).m1@,
            old(state).m2@,
            final(gaussians)@,
            final(state).m1@,
            final(state).m2@,
        ),
        final(state).grad_accum == old(state).grad_accum,
        final(state).grad_denom == old(state).grad_denom,
        final(state).t == old(state).t,
{
    let t = state.t;
    let ghost olds = gaussians@;
    let ghost m1 = state.m1@;
    let ghost m2 = state.m2@;
    assert(0 * PARAMS_PER_GAUSSIAN == 0);
    for i in 0..k
        invariant
            forall|t: usize, g: Single, l: Single, a: Single, b: Single|
                call_requires(adam, (t, g, l, a, b)),
            forall|a: Single, b: Single| call_requires(minus, (a, b)),
            k <= olds.len(),
            k <= grads.len(),
            m1.len() == m2.len(),
            k * PARAMS_PER_GAUSSIAN <= m1.len() <= usize::MAX,
            lrs@ == Seq::new(PARAMS_PER_GAUSSIAN as nat, |j: int| rate(*cfg, j)),
            state.grad_accum == old(state).grad_accum,
            state.grad_denom == old(state).grad_denom,
            state.t == old(state).t,
            t == state.t,
            all_stepped(
                adam,
                minus,
                t,
                *cfg,
                i as int,
                grads@,
                olds,
                m1,
                m2,
                gaussians@,
                state.m1@,
                state.m2@,
            ),
    {
        let grad = flatten_grad(&grads[i]);
        let mut g = gaussians[i];
        let ghost g0 = g@;
        let ghost mids = gaussians@;
        proof {
            lemma_gaussian_view(g);
        }
        for j in 0..PARAMS_PER_GAUSSIAN
            invariant
                forall|t: usize, g: Single, l: Single, a: Single, b: Single|
                    call_requires(adam, (t, g, l, a, b)),
                forall|a: Single, b: Single| call_requires(minus, (a, b)),
                i < k <= olds.len(),
                k <= grads.len(),
                m1.len() == m2.len(),
                k * PARAMS_PER_GAUSSIAN <= m1.len() <= usize::MAX,
                lrs@ == Seq::new(PARAMS_PER_GAUSSIAN as nat, |j: int| rate(*cfg, j)),
                grad@ == grads[i as int]@,
                grad.len() == PARAMS_PER_GAUSSIAN,
                state.grad_accum == old(state).grad_accum,
                state.grad_denom == old(state).grad_denom,
                state.t == old(state).t,
                t == state.t,
                g@.len() == PARAMS_PER_GAUSSIAN,
                g0 == olds[i as int]@,
                mids == gaussians@,
                mids.len() == olds.len(),
                state.m1.len() == m1.len(),
                state.m2.len() == m2.len(),
                forall|a: int, b: int|
                    #![trigger slot(a, b)]
                    0 <= a < i && 0 <= b < PARAMS_PER_GAUSSIAN ==> param_stepped(
                        adam,
                        minus,
                        t,
                        grads[a]@[b],
                        rate(*cfg, b),
                        m1[slot(a, b)],
                        m2[slot(a, b)],
                        olds[a]@[b],
                        state.m1[slot(a, b)],
                        state.m2[slot(a, b)],
                        mids[a]@[b],
                    ),
                forall|b: int|
                    #![trigger slot(i as int, b)]
                    0 <= b < j ==> param_stepped(
                        adam,
                        minus,
                        t,
                        grads[i as int]@[b],
                        rate(*cfg, b),
                        m1[slot(i as int, b)],
                        m2[slot(i as int, b)],
                        g0[b],
                        state.m1[slot(i as int, b)],
                        state.m2[slot(i as int, b)],
                        g@[b],
                    ),
                forall|b: int| j <= b < PARAMS_PER_GAUSSIAN ==> #[trigger] g@[b] == g0[b],
                forall|a: int| i <= a < olds.len() ==> #[trigger] mids[a] == olds[a],
                forall|c: int|
                    i * PARAMS_PER_GAUSSIAN + j <= c < m1.len() ==> #[trigger] state.m1@[c] == m1[c],
                forall|c: int|
                    i * PARAMS_PER_GAUSSIAN + j <= c < m2.len() ==> #[trigger] state.m2@[c] == m2[c],
        {
            let at = i * PARAMS_PER_GAUSSIAN + j;
            assert(at == slot(i as int, j as int));
            let ghost s1 = state.m1@;
            let ghost s2 = state.m2@;
            let ghost before = g@;
            let (a, b, u) = adam(t, grad[j], lrs[j], state.m1[at], state.m2[at]);
            state.m1[at] = a;
            state.m2[at] = b;
            apply_update_to_gaussian(minus, &mut g, j, u);
            proof {
                assert(lrs[j as int] == rate(*cfg, j as int));
                assert(call_ensures(
                    adam,
                    (t, grad[j as int], rate(*cfg, j as int), m1[at as int], m2[at as int]),
                    (a, b, u),
                ));
                let v = choose|v: Single| #[trigger]
                    call_ensures(minus, (before[j as int], u), v) && g@ == before.update(
                        j as int,
                        v,
                    );
                assert(g@[j as int] == v);
                assert(param_stepped(
                    adam,
                    minus,
                    t,
                    grads[i as int]@[j as int],
                    rate(*cfg, j as int),
                    m1[at as int],
                    m2[at as int],
                    g0[j as int],
                    a,
                    b,
                    v,
                ));
                assert forall|x: int, y: int|
                    #![trigger slot(x, y)]
                    0 <= x < i && 0 <= y < PARAMS_PER_GAUSSIAN implies param_stepped(
                    adam,
                    minus,
                    t,
                    grads[x]@[y],
                    rate(*cfg, y),
                    m1[slot(x, y)],
                    m2[slot(x, y)],
                    olds[x]@[y],
                    state.m1[slot(x, y)],
                    state.m2[slot(x, y)],
                    mids[x]@[y],
                ) by {
                    assert(slot(x, y) != at);
                    assert(state.m1@[slot(x, y)] == s1[slot(x, y)]);
                    assert(state.m2@[slot(x, y)] == s2[slot(x, y)]);
                }
                assert forall|y: int|
                    #![trigger slot(i as int, y)]
                    0 <= y < j + 1 implies param_stepped(
                    adam,
                    minus,
                    t,
                    grads[i as int]@[y],
                    rate(*cfg, y),
                    m1[slot(i as int, y)],
                    m2[slot(i as int, y)],
                    g0[y],
                    state.m1[slot(i as int, y)],
                    state.m2[slot(i as int, y)],
                    g@[y],
                ) by {
                    if y < j {
                        assert(slot(i as int, y) != at);
                        assert(state.m1@[slot(i as int, y)] == s1[slot(i as int, y)]);
                        assert(state.m2@[slot(i as int, y)] == s2[slot(i as int, y)]);
                        assert(g@[y] == before[y]);
                    }
                }
            }
        }
        gaussians[i] = g;
        proof {
            assert forall|a: int, b: int|
                #![trigger slot(a, b)]
                0 <= a < i + 1 && 0 <= b < PARAMS_PER_GAUSSIAN implies param_stepped(
                adam,
                minus,
                t,
                grads[a]@[b],
                rate(*cfg, b),
                m1[slot(a, b)],
                m2[slot(a, b)],
                olds[a]@[b],
                state.m1[slot(a, b)],
                state.m2[slot(a, b)],
                gaussians[a]@[b],
            ) by {
                if a < i {
                    assert(gaussians@[a] == mids[a]);
                } else {
                    assert(slot(a, b) == slot(i as int, b));
                }
            }
        }
    }
}

/// `gs1` and `s1` can be what a step of the optimiser makes of the Gaussians `gs0` and the
/// state `s0`: those with a gradient are updated, and then every rotation is normalised.
pub open spec fn adam_stepped<
    A: Fn(usize, Single, Single, Single, Single) -> (Single, Single, Single),
    S: Fn(Single, Single) -> Single,
    M: Fn(Single, Single) -> Single,
    N: Fn([Single; 4]) -> Single,
    D: Fn([Single; 4], Single) -> [Single; 4],
>(
    adam: A,
    minus: S,
    more: M,
    norm: N,
    shorten: D,
    cfg: TrainConfig,
    grads: Seq<GaussianGrad>,
    gs0: Seq<Gaussian3D<Single>>,
    s0: AdamState,
    gs1: Seq<Gaussian3D<Single>>,
    s1: AdamState,
) -> bool {
    let k = stepping(gs0.len(), grads.len(), s0.slots());
    &&& s1.wf()
    &&& s1.slots() == s0.slots()
    &&& s1.t == s0.t + 1
    &&& gs1.len() == gs0.len()
    &&& exists|mids: Seq<Gaussian3D<Single>>|
        {
            &&& #[trigger] all_stepped(
                adam,
                minus,
                s1.t,
                cfg,
                k,
                grads,
                gs0,
                s0.m1@,
                s0.m2@,
                mids,
                s1.m1@,
                s1.m2@,
            )
            &&& forall|i: int|
                0 <= i < mids.len() ==> normalised(norm, shorten, #[trigger] mids[i], gs1[i])
        }
    &&& sums_stepped(more, k, grads, s0, s1)
}

/// One step of the optimiser over all Gaussians.  A Gaussian is updated if there is a
/// gradient for it; every rotation is normalised.
pub fn adam_step<
    A: Fn(usize, Single, Single, Single, Single) -> (Single, Single, Single) + Copy,
    S: Fn(Single, Single) -> Single + Copy,
    M: Fn(Single, Single) -> Single,
    N: Fn([Single; 4]) -> Single,
    D: Fn([Single; 4], Single) -> [Single; 4],
>(
    adam: A,
    minus: S,
    more: M,
    norm: N,
    shorten: D,
    gaussians: &mut Vec<Gaussian3D<Single>>,
    grads: &[GaussianGrad],
    state: &mut AdamState,
    cfg: &TrainConfig,
)
    requires
        forall|t: usize, g: Single, l: Single, a: Single, b: Single|
            call_requires(adam, (t, g, l, a, b)),
        forall|a: Single, b: Single| call_requires(minus, (a, b)),
        forall|a: Single, b: Single| call_requires(more, (a, b)),
        forall|q: [Single; 4]| call_requires(norm, (q,)),
        forall|q: [Single; 4], n: Single| call_requires(shorten, (q, n)),
        old(state).wf(),
        old(state).t < usize::MAX,
        forall|i: int|
            0 <= i < stepping(old(gaussians)@.len(), grads@.len(), old(state).slots())
                ==> #[trigger] old(state).grad_denom[i] < u32::MAX,
    ensures
        adam_stepped(
            adam,
            minus,
            more,
            norm,
            shorten,
            *cfg,
            grads@,
            old(gaussians)@,
            *old(state),
            final(gaussians)@,
            *final(state),
        ),
{
    let lrs = learning_rates(cfg);
    let n = gaussians.len();
    let slots = state.grad_accum.len();
    let k = if n <= grads.len() && n <= slots {
        n
    } else if grads.len() <= slots {
        grads.len()
    } else {
        slots
    };
    state.t = state.t + 1;
    step_moments(adam, minus, cfg, &lrs, k, gaussians, grads, state);
    let ghost mids = gaussians@;
    let ghost accum = state.grad_accum@;
    let ghost denom = state.grad_denom@;
    let ghost m1 = state.m1@;
    let ghost m2 = state.m2@;
    for i in 0..k
        invariant
            forall|a: Single, b: Single| call_requires(more, (a, b)),
            k <= grads.len(),
            k <= accum.len(),
            accum.len() == denom.len(),
            state.grad_accum.len() == accum.len(),
            state.grad_denom.len() == denom.len(),
            state.m1@ == m1,
            state.m2@ == m2,
            state.t == old(state).t + 1,
            forall|j: int| 0 <= j < k ==> #[trigger] denom[j] < u32::MAX,
            forall|j: int|
                0 <= j < i ==> call_ensures(
                    more,
                    (accum[j], grads[j].screen_grad_norm),
                    #[trigger] state.grad_accum[j],
                ),
            forall|j: int| 0 <= j < i ==> #[trigger] state.grad_denom[j] == denom[j] + 1,
            forall|j: int| i <= j < accum.len() ==> #[trigger] state.grad_accum[j] == accum[j],
            forall|j: int| i <= j < denom.len() ==> #[trigger] state.grad_denom[j] == denom[j],
    {
        let a = more(state.grad_accum[i], grads[i].screen_grad_norm);
        state.grad_accum[i] = a;
        let d = state.grad_denom[i];
        assert(d == denom[i as int]);
        state.grad_denom[i] = d + 1;
    }
    for i in 0..n
        invariant
            forall|q: [Single; 4]| call_requires(norm, (q,)),
            forall|q: [Single; 4], n: Single| call_requires(shorten, (q, n)),
            gaussians.len() == n,
            mids.len() == n,
            forall|j: int|
                0 <= j < i ==> normalised(norm, shorten, #[trigger] mids[j], gaussians[j]),
            forall|j: int| i <= j < n ==> #[trigger] gaussians[j] == mids[j],
    {
        let ghost before = gaussians@;
        let mut g = gaussians[i];
        let q = g.rotation;
        let len = norm(q);
        if (Single { bits: MIN_NORM }).lt(len) {
            g.rotation = shorten(q, len);
        }
        assert(turned(norm, shorten, q, g.rotation));
        assert(normalised(norm, shorten, mids[i as int], g));
        gaussians[i] = g;
        assert forall|j: int| 0 <= j < i + 1 implies normalised(
            norm,
            shorten,
            #[trigger] mids[j],
            gaussians[j],
        ) by {
            if j < i {
                assert(gaussians@[j] == before[j]);
            }
        }
    }
    assert(k == stepping(old(gaussians)@.len(), grads@.len(), old(state).slots()));
    assert(all_stepped(
        adam,
        minus,
        state.t,
        *cfg,
        stepping(old(gaussians)@.len(), grads@.len(), old(state).slots()),
        grads@,
        old(gaussians)@,
        old(state).m1@,
        old(state).m2@,
        mids,
        state.m1@,
        state.m2@,
    ));
}

} // verus!
