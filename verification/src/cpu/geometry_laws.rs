//! What the gradient of a Gaussian is made of.

use super::backward::SplatGradAccum;
use super::geometry::{
    assembled, basis_grad, coefficients, color_grad, conic_grad, turned_by, Parts, MIN_DISTANCE,
};
use super::render::{is_zero, GaussianGrad};
use super::splat::Splat;
use crate::math::sh::passed;
use crate::math::sh_laws::every_coefficient_has_a_gradient;
use crate::math::Gaussian3D;
use crate::num::reading::less;
use crate::num::single::{Single, ONE, ZERO};
use vstd::prelude::*;

verus! {

/// `m` is the gradient `d` of a colour where the colour lies strictly inside the unit interval,
/// and else zero.
pub open spec fn passes(raw: Single, d: Single, m: Single) -> bool {
    if less(Single { bits: ZERO }, raw) && less(raw, Single { bits: ONE }) {
        m == d
    } else {
        m == (Single { bits: ZERO })
    }
}

/// `weigh` sums the products of three gradients and three coefficients.
pub open spec fn weighs<U: Fn([Single; 3], [Single; 3]) -> Single>(
    weigh: U,
    val: spec_fn(Single) -> real,
) -> bool {
    forall|m: [Single; 3], c: [Single; 3], r: Single| #[trigger]
        call_ensures(weigh, (m, c), r) ==> val(r) == val(m[0]) * val(c[0]) + val(m[1]) * val(c[1])
            + val(m[2]) * val(c[2])
}

/// The gradient of a splat goes back to the parameters of its Gaussian: that of its opacity to
/// the opacity; that of its colour, where the clamp lets it pass, to each of the 48
/// coefficients; that of its inverse covariance, by way of the covariance, to the scales, the
/// rotation and the position; that of its centre to the position and to the length that tells
/// where to densify.  The colour follows the position too, through each value of the basis, if
/// the camera is not at the Gaussian.
pub proof fn gradient_goes_back_to_every_parameter<
    F: Fn(Single, Single) -> Single,
    M: Fn(Single, Single) -> Single,
    I: Fn([Single; 3], [Single; 3]) -> [Single; 3],
    S: Fn(&Gaussian3D<Single>, [Single; 3], [Single; 3]) -> ([Single; 3], [Single; 4]),
    P: Fn(&Gaussian3D<Single>, [Single; 3], [Single; 3], (Single, Single)) -> [Single; 3],
    A: Fn([Single; 3]) -> Single,
    U: Fn([Single; 3], [Single; 3]) -> Single,
    T: Fn([Single; 3], [Single; 16]) -> [Single; 3],
    B: Fn([Single; 3], [Single; 3]) -> [Single; 3],
    L: Fn(Single, Single) -> Single,
>(
    logit: F,
    times: M,
    invert: I,
    shape: S,
    place: P,
    away: A,
    weigh: U,
    turn: T,
    both: B,
    length: L,
    val: spec_fn(Single) -> real,
    s: Splat,
    acc: SplatGradAccum,
    g: Gaussian3D<Single>,
    p: Parts,
    r: GaussianGrad,
)
    requires
        weighs(weigh, val),
        assembled(
            logit,
            times,
            invert,
            shape,
            place,
            away,
            weigh,
            turn,
            both,
            length,
            s,
            acc,
            g,
            p,
            r,
        ),
    ensures
        call_ensures(logit, (acc.opacity, s.opacity), r.d_opacity_logit),
        passes(s.raw_color[0], acc.red, p.masked[0]),
        passes(s.raw_color[1], acc.green, p.masked[1]),
        passes(s.raw_color[2], acc.blue, p.masked[2]),
        forall|ch: int, k: int|
            #![trigger r.d_sh[16 * ch + k]]
            0 <= ch < 3 && 0 <= k < 16 ==> call_ensures(
                times,
                (p.masked[ch], s.basis[k]),
                r.d_sh[16 * ch + k],
            ),
        exists|c: [Single; 3]|
            c[0] == acc.conic_a && c[1] == acc.conic_b && c[2] == acc.conic_c && #[trigger]
                call_ensures(invert, (c, s.cov2d), p.cov),
        call_ensures(shape, (&g, s.pcam, p.cov), (r.d_log_scale, r.d_rotation)),
        call_ensures(place, (&g, s.pcam, p.cov, (acc.sx, acc.sy)), p.placed),
        call_ensures(length, (acc.sx, acc.sy), r.screen_grad_norm),
        exists|far: Single|
            {
                &&& #[trigger] call_ensures(away, (g.position,), far)
                &&& !less(Single { bits: MIN_DISTANCE }, far) ==> r.d_position == p.placed
                &&& less(Single { bits: MIN_DISTANCE }, far) ==> exists|
                    d: [Single; 16],
                    e: [Single; 3],
                |
                    {
                        &&& #[trigger] call_ensures(turn, (g.position, d), e)
                        &&& call_ensures(both, (p.placed, e), r.d_position)
                        &&& forall|k: int|
                            0 <= k < 16 ==> val(#[trigger] d[k]) == val(p.masked[0]) * val(
                                g.sh_coeffs[k],
                            ) + val(p.masked[1]) * val(g.sh_coeffs[16 + k]) + val(p.masked[2])
                                * val(g.sh_coeffs[32 + k])
                    }
            },
{
    let c = color_grad(acc);
    assert(c[0] == acc.red && c[1] == acc.green && c[2] == acc.blue);
    assert(p.masked[0] == passed(s.raw_color[0], c[0]));
    assert(p.masked[1] == passed(s.raw_color[1], c[1]));
    assert(p.masked[2] == passed(s.raw_color[2], c[2]));
    assert forall|ch: int, k: int|
        #![trigger r.d_sh[16 * ch + k]]
        0 <= ch < 3 && 0 <= k < 16 implies call_ensures(
        times,
        (p.masked[ch], s.basis[k]),
        r.d_sh[16 * ch + k],
    ) by {
        every_coefficient_has_a_gradient(times, p.masked, s.basis, r.d_sh, ch, k);
    }
    let q = conic_grad(acc);
    assert(q[0] == acc.conic_a && q[1] == acc.conic_b && q[2] == acc.conic_c);
    assert(call_ensures(invert, (q, s.cov2d), p.cov));
    let far = choose|far: Single| #[trigger]
        call_ensures(away, (g.position,), far) && if (Single { bits: MIN_DISTANCE }).below(far) {
            turned_by(weigh, turn, both, g, p.masked, p.placed, r.d_position)
        } else {
            r.d_position == p.placed
        };
    assert(call_ensures(away, (g.position,), far));
    if less(Single { bits: MIN_DISTANCE }, far) {
        let (d, e) = choose|d: [Single; 16], e: [Single; 3]|
            {
                &&& #[trigger] basis_grad(weigh, p.masked, g.sh_coeffs, d)
                &&& #[trigger] call_ensures(turn, (g.position, d), e)
                &&& call_ensures(both, (p.placed, e), r.d_position)
            };
        assert forall|k: int| 0 <= k < 16 implies val(#[trigger] d[k]) == val(p.masked[0]) * val(
            g.sh_coeffs[k],
        ) + val(p.masked[1]) * val(g.sh_coeffs[16 + k]) + val(p.masked[2]) * val(
            g.sh_coeffs[32 + k],
        ) by {
            let t = coefficients(g.sh_coeffs, k);
            assert(call_ensures(weigh, (p.masked, t), d[k]));
            assert(t[0] == g.sh_coeffs[k] && t[1] == g.sh_coeffs[16 + k] && t[2] == g.sh_coeffs[32
                + k]);
        }
        assert(call_ensures(turn, (g.position, d), e));
    }
}

/// A Gaussian that no splat shows has no gradient in any parameter.
pub proof fn unseen_gaussians_have_no_gradient(g: GaussianGrad)
    requires
        is_zero(g),
    ensures
        forall|j: int| 0 <= j < 3 ==> #[trigger] g.d_position[j] == (Single { bits: ZERO }),
        forall|j: int| 0 <= j < 4 ==> #[trigger] g.d_rotation[j] == (Single { bits: ZERO }),
        forall|j: int| 0 <= j < 3 ==> #[trigger] g.d_log_scale[j] == (Single { bits: ZERO }),
        g.d_opacity_logit == (Single { bits: ZERO }),
        forall|j: int| 0 <= j < 48 ==> #[trigger] g.d_sh[j] == (Single { bits: ZERO }),
        g.screen_grad_norm == (Single { bits: ZERO }),
{
    let zero = Single { bits: ZERO };
    assert(forall|j: int| 0 <= j < 59 ==> #[trigger] g@[j] == zero);
    assert forall|j: int| 0 <= j < 3 implies #[trigger] g.d_position[j] == zero by {
        assert(g@[j] == g.d_position[j]);
    }
    assert forall|j: int| 0 <= j < 4 implies #[trigger] g.d_rotation[j] == zero by {
        assert(g@[3 + j] == g.d_rotation[j]);
    }
    assert forall|j: int| 0 <= j < 3 implies #[trigger] g.d_log_scale[j] == zero by {
        assert(g@[7 + j] == g.d_log_scale[j]);
    }
    assert(g@[10] == g.d_opacity_logit);
    assert forall|j: int| 0 <= j < 48 implies #[trigger] g.d_sh[j] == zero by {
        assert(g@[11 + j] == g.d_sh[j]);
    }
}

} // verus!
