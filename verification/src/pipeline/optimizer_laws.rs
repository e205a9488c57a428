//! What a step of the optimiser does to each parameter.

use super::optimizer::{
    adam_stepped, all_stepped, layouts_agree, normalised, param_stepped, rate, slot, stepping,
    turned, AdamState, TrainConfig, MIN_NORM,
};
use crate::cpu::render::GaussianGrad;
use crate::math::Gaussian3D;
use crate::num::reading::less;
use crate::num::single::Single;
use vstd::prelude::*;

verus! {

/// Parameter `j` of Gaussian `i` moves from `p` to `q`: the kernel gets its gradient, its rate
/// and its own moments, which are replaced, and what it gives is subtracted.
pub open spec fn moves<
    A: Fn(usize, Single, Single, Single, Single) -> (Single, Single, Single),
    S: Fn(Single, Single) -> Single,
>(
    adam: A,
    minus: S,
    s0: AdamState,
    s1: AdamState,
    i: int,
    j: int,
    grad: Single,
    lr: Single,
    p: Single,
    q: Single,
) -> bool {
    exists|a: Single, b: Single, update: Single|
        {
            &&& #[trigger] call_ensures(
                adam,
                ((s0.t + 1) as usize, grad, lr, s0.m1[59 * i + j], s0.m2[59 * i + j]),
                (a, b, update),
            )
            &&& s1.m1[59 * i + j] == a
            &&& s1.m2[59 * i + j] == b
            &&& call_ensures(minus, (p, update), q)
        }
}

proof fn lemma_moves<
    A: Fn(usize, Single, Single, Single, Single) -> (Single, Single, Single),
    S: Fn(Single, Single) -> Single,
>(
    adam: A,
    minus: S,
    s0: AdamState,
    s1: AdamState,
    i: int,
    j: int,
    grad: Single,
    lr: Single,
    p: Single,
    q: Single,
)
    requires
        s1.t == s0.t + 1,
        param_stepped(
            adam,
            minus,
            s1.t,
            grad,
            lr,
            s0.m1@[slot(i, j)],
            s0.m2@[slot(i, j)],
            p,
            s1.m1@[slot(i, j)],
            s1.m2@[slot(i, j)],
            q,
        ),
    ensures
        moves(adam, minus, s0, s1, i, j, grad, lr, p, q),
{
    assert(slot(i, j) == 59 * i + j);
    let r = choose|r: (Single, Single, Single)| #[trigger]
        call_ensures(adam, (s1.t, grad, lr, s0.m1@[slot(i, j)], s0.m2@[slot(i, j)]), r)
            && s1.m1@[slot(i, j)] == r.0 && s1.m2@[slot(i, j)] == r.1 && call_ensures(
            minus,
            (p, r.2),
            q,
        );
    assert(call_ensures(
        adam,
        ((s0.t + 1) as usize, grad, lr, s0.m1[59 * i + j], s0.m2[59 * i + j]),
        (r.0, r.1, r.2),
    ));
}

/// A step moves every parameter of a Gaussian that has a gradient and room in the state: by the
/// gradient of that parameter, with the rate of its kind and with its own moments.  The rotation
/// that results is then made one long, where it is not tiny.  Nothing else changes.
pub proof fn every_parameter_is_moved<
    A: Fn(usize, Single, Single, Single, Single) -> (Single, Single, Single),
    S: Fn(Single, Single) -> Single,
    M: Fn(Single, Single) -> Single,
    N: Fn([Single; 4]) -> Single,
    D: Fn([Single; 4], Single) -> [Single; 4],
>(
    adam: A,
    minus: S,
    more: M,
    norm: N,
    shorten: D,
    cfg: TrainConfig,
    grads: Seq<GaussianGrad>,
    gs0: Seq<Gaussian3D<Single>>,
    s0: AdamState,
    gs1: Seq<Gaussian3D<Single>>,
    s1: AdamState,
    i: int,
) -> (mid: [Single; 4])
    requires
        s0.wf(),
        adam_stepped(adam, minus, more, norm, shorten, cfg, grads, gs0, s0, gs1, s1),
        0 <= i < gs0.len(),
        i < grads.len(),
        i < s0.grad_accum.len(),
    ensures
        s1.t == s0.t + 1,
        gs1.len() == gs0.len(),
        forall|a: int|
            #![trigger gs1[i].position[a]]
            0 <= a < 3 ==> moves(
                adam,
                minus,
                s0,
                s1,
                i,
                a,
                grads[i].d_position[a],
                cfg.lr_position,
                gs0[i].position[a],
                gs1[i].position[a],
            ),
        forall|a: int|
            #![trigger mid[a]]
            0 <= a < 4 ==> moves(
                adam,
                minus,
                s0,
                s1,
                i,
                3 + a,
                grads[i].d_rotation[a],
                cfg.lr_rotation,
                gs0[i].rotation[a],
                mid[a],
            ),
        forall|a: int|
            #![trigger gs1[i].log_scale[a]]
            0 <= a < 3 ==> moves(
                adam,
                minus,
                s0,
                s1,
                i,
                7 + a,
                grads[i].d_log_scale[a],
                cfg.lr_scale,
                gs0[i].log_scale[a],
                gs1[i].log_scale[a],
            ),
        moves(
            adam,
            minus,
            s0,
            s1,
            i,
            10,
            grads[i].d_opacity_logit,
            cfg.lr_opacity,
            gs0[i].opacity_logit,
            gs1[i].opacity_logit,
        ),
        forall|a: int|
            #![trigger gs1[i].sh_coeffs[a]]
            0 <= a < 48 ==> moves(
                adam,
                minus,
                s0,
                s1,
                i,
                11 + a,
                grads[i].d_sh[a],
                if a < 3 {
                    cfg.lr_sh_dc
                } else {
                    cfg.lr_sh_rest
                },
                gs0[i].sh_coeffs[a],
                gs1[i].sh_coeffs[a],
            ),
        turns(norm, shorten, mid, gs1[i].rotation),
        call_ensures(more, (s0.grad_accum[i], grads[i].screen_grad_norm), s1.grad_accum[i]),
        s1.grad_denom[i] == s0.grad_denom[i] + 1,
{
    let k = stepping(gs0.len(), grads.len(), s0.slots());
    assert(i < k);
    let mids = choose|mids: Seq<Gaussian3D<Single>>|
        {
            &&& #[trigger] all_stepped(
                adam,
                minus,
                s1.t,
                cfg,
                k,
                grads,
                gs0,
                s0.m1@,
                s0.m2@,
                mids,
                s1.m1@,
                s1.m2@,
            )
            &&& forall|i: int|
                0 <= i < mids.len() ==> normalised(norm, shorten, #[trigger] mids[i], gs1[i])
        };
    let g = mids[i];
    assert(normalised(norm, shorten, g, gs1[i]));
    let (g0, g1, d) = (gs0[i], gs1[i], grads[i]);
    assert forall|j: int| 0 <= j < 59 implies #[trigger] moves(
        adam,
        minus,
        s0,
        s1,
        i,
        j,
        d@[j],
        rate(cfg, j),
        g0@[j],
        g@[j],
    ) by {
        assert(param_stepped(
            adam,
            minus,
            s1.t,
            grads[i]@[j],
            rate(cfg, j),
            s0.m1@[slot(i, j)],
            s0.m2@[slot(i, j)],
            gs0[i]@[j],
            s1.m1@[slot(i, j)],
            s1.m2@[slot(i, j)],
            mids[i]@[j],
        ));
        lemma_moves(adam, minus, s0, s1, i, j, d@[j], rate(cfg, j), g0@[j], g@[j]);
    }
    assert forall|a: int|
        #![trigger g1.position[a]]
        0 <= a < 3 implies moves(
        adam,
        minus,
        s0,
        s1,
        i,
        a,
        d.d_position[a],
        cfg.lr_position,
        g0.position[a],
        g1.position[a],
    ) by {
        layouts_agree(g0, d, a);
        layouts_agree(g, d, a);
        assert(moves(adam, minus, s0, s1, i, a, d@[a], rate(cfg, a), g0@[a], g@[a]));
    }
    assert forall|a: int|
        #![trigger g.rotation[a]]
        0 <= a < 4 implies moves(
        adam,
        minus,
        s0,
        s1,
        i,
        3 + a,
        d.d_rotation[a],
        cfg.lr_rotation,
        g0.rotation[a],
        g.rotation[a],
    ) by {
        layouts_agree(g0, d, 3 + a);
        layouts_agree(g, d, 3 + a);
        assert(moves(
            adam,
            minus,
            s0,
            s1,
            i,
            3 + a,
            d@[3 + a],
            rate(cfg, 3 + a),
            g0@[3 + a],
            g@[3 + a],
        ));
    }
    assert forall|a: int|
        #![trigger g1.log_scale[a]]
        0 <= a < 3 implies moves(
        adam,
        minus,
        s0,
        s1,
        i,
        7 + a,
        d.d_log_scale[a],
        cfg.lr_scale,
        g0.log_scale[a],
        g1.log_scale[a],
    ) by {
        layouts_agree(g0, d, 7 + a);
        layouts_agree(g, d, 7 + a);
        assert(moves(
            adam,
            minus,
            s0,
            s1,
            i,
            7 + a,
            d@[7 + a],
            rate(cfg, 7 + a),
            g0@[7 + a],
            g@[7 + a],
        ));
    }
    layouts_agree(g0, d, 10);
    layouts_agree(g, d, 10);
    assert(moves(adam, minus, s0, s1, i, 10, d@[10], rate(cfg, 10), g0@[10], g@[10]));
    assert forall|a: int|
        #![trigger g1.sh_coeffs[a]]
        0 <= a < 48 implies moves(
        adam,
        minus,
        s0,
        s1,
        i,
        11 + a,
        d.d_sh[a],
        if a < 3 {
            cfg.lr_sh_dc
        } else {
            cfg.lr_sh_rest
        },
        g0.sh_coeffs[a],
        g1.sh_coeffs[a],
    ) by {
        layouts_agree(g0, d, 11 + a);
        layouts_agree(g, d, 11 + a);
        assert(moves(
            adam,
            minus,
            s0,
            s1,
            i,
            11 + a,
            d@[11 + a],
            rate(cfg, 11 + a),
            g0@[11 + a],
            g@[11 + a],
        ));
    }
    g.rotation
}

/// `b` is the rotation `a`, divided by its length where that is more than the least.
pub open spec fn turns<N: Fn([Single; 4]) -> Single, D: Fn([Single; 4], Single) -> [Single; 4]>(
    norm: N,
    shorten: D,
    a: [Single; 4],
    b: [Single; 4],
) -> bool {
    exists|n: Single|
        {
            &&& #[trigger] call_ensures(norm, (a,), n)
            &&& less(Single { bits: MIN_NORM }, n) ==> call_ensures(shorten, (a, n), b)
            &&& !less(Single { bits: MIN_NORM }, n) ==> b == a
        }
}

/// Where a Gaussian has no gradient, or no room in the state, a step leaves it alone but for
/// the length of its rotation.
pub proof fn others_are_left_alone<
    A: Fn(usize, Single, Single, Single, Single) -> (Single, Single, Single),
    S: Fn(Single, Single) -> Single,
    M: Fn(Single, Single) -> Single,
    N: Fn([Single; 4]) -> Single,
    D: Fn([Single; 4], Single) -> [Single; 4],
>(
    adam: A,
    minus: S,
    more: M,
    norm: N,
    shorten: D,
    cfg: TrainConfig,
    grads: Seq<GaussianGrad>,
    gs0: Seq<Gaussian3D<Single>>,
    s0: AdamState,
    gs1: Seq<Gaussian3D<Single>>,
    s1: AdamState,
    i: int,
)
    requires
        s0.wf(),
        adam_stepped(adam, minus, more, norm, shorten, cfg, grads, gs0, s0, gs1, s1),
        grads.len() <= i || s0.grad_accum.len() <= i,
        0 <= i < gs0.len(),
    ensures
        gs1[i].position == gs0[i].position,
        gs1[i].log_scale == gs0[i].log_scale,
        gs1[i].opacity_logit == gs0[i].opacity_logit,
        gs1[i].sh_coeffs == gs0[i].sh_coeffs,
        turns(norm, shorten, gs0[i].rotation, gs1[i].rotation),
        i < s0.grad_accum.len() ==> s1.grad_accum[i] == s0.grad_accum[i],
        i < s0.grad_accum.len() ==> s1.grad_denom[i] == s0.grad_denom[i],
        forall|j: int|
            0 <= j < 59 && i < s0.grad_accum.len() ==> s1.m1[59 * i + j] == s0.m1[59 * i + j]
                && #[trigger] s1.m2[59 * i + j] == s0.m2[59 * i + j],
{
    let k = stepping(gs0.len(), grads.len(), s0.slots());
    assert(k <= i);
    let mids = choose|mids: Seq<Gaussian3D<Single>>|
        {
            &&& #[trigger] all_stepped(
                adam,
                minus,
                s1.t,
                cfg,
                k,
                grads,
                gs0,
                s0.m1@,
                s0.m2@,
                mids,
                s1.m1@,
                s1.m2@,
            )
            &&& forall|i: int|
                0 <= i < mids.len() ==> normalised(norm, shorten, #[trigger] mids[i], gs1[i])
        };
    assert(normalised(norm, shorten, mids[i], gs1[i]));
    assert(mids[i] == gs0[i]);
    assert(s0.grad_accum@.len() == s0.slots());
    assert forall|j: int| 0 <= j < 59 && i < s0.grad_accum.len() implies s1.m1[59 * i + j] == s0.m1[59
        * i + j] && #[trigger] s1.m2[59 * i + j] == s0.m2[59 * i + j] by {
        let c = 59 * i + j;
        assert(s1.m1@[c] == s0.m1@[c]);
        assert(s1.m2@[c] == s0.m2@[c]);
    }
}

proof fn lemma_unit(a: real, b: real, c: real, d: real, n: real)
    requires
        n > 0real,
        n * n == (a * n) * (a * n) + (b * n) * (b * n) + (c * n) * (c * n) + (d * n) * (d * n),
    ensures
        a * a + b * b + c * c + d * d == 1real,
{
    let m = n * n;
    assert((a * n) * (a * n) == (a * a) * m) by (nonlinear_arith)
        requires
            m == n * n,
    ;
    assert((b * n) * (b * n) == (b * b) * m) by (nonlinear_arith)
        requires
            m == n * n,
    ;
    assert((c * n) * (c * n) == (c * c) * m) by (nonlinear_arith)
        requires
            m == n * n,
    ;
    assert((d * n) * (d * n) == (d * d) * m) by (nonlinear_arith)
        requires
            m == n * n,
    ;
    let (w, x, y, z) = (a * a, b * b, c * c, d * d);
    assert((w + x + y + z) * m == w * m + x * m + y * m + z * m) by (nonlinear_arith);
    let s = w + x + y + z;
    assert(m > 0real) by (nonlinear_arith)
        requires
            m == n * n,
            n > 0real,
    ;
    assert(s == 1real) by (nonlinear_arith)
        requires
            s * m == m,
            m > 0real,
    ;
}

/// A rotation that is not tiny has length one after a step.
pub proof fn rotations_become_unit<
    N: Fn([Single; 4]) -> Single,
    D: Fn([Single; 4], Single) -> [Single; 4],
>(
    norm: N,
    shorten: D,
    val: spec_fn(Single) -> real,
    a: [Single; 4],
    b: [Single; 4],
)
    requires
        turned(norm, shorten, a, b),
        forall|q: [Single; 4], n: Single| #[trigger]
            call_ensures(norm, (q,), n) ==> less(Single { bits: MIN_NORM }, n) && val(n) > 0real
                && val(n) * val(n) == val(q[0]) * val(q[0]) + val(q[1]) * val(q[1]) + val(q[2])
                * val(q[2]) + val(q[3]) * val(q[3]),
        forall|q: [Single; 4], n: Single, r: [Single; 4]| #[trigger]
            call_ensures(shorten, (q, n), r) ==> val(q[0]) == val(r[0]) * val(n) && val(q[1])
                == val(r[1]) * val(n) && val(q[2]) == val(r[2]) * val(n) && val(q[3]) == val(r[3])
                * val(n),
    ensures
        val(b[0]) * val(b[0]) + val(b[1]) * val(b[1]) + val(b[2]) * val(b[2]) + val(b[3]) * val(
            b[3],
        ) == 1real,
{
    let n = choose|n: Single| #[trigger]
        call_ensures(norm, (a,), n) && if (Single { bits: MIN_NORM }).below(n) {
            call_ensures(shorten, (a, n), b)
        } else {
            b == a
        };
    assert(call_ensures(norm, (a,), n));
    assert(call_ensures(shorten, (a, n), b));
    lemma_unit(val(b[0]), val(b[1]), val(b[2]), val(b[3]), val(n));
}

} // verus!
