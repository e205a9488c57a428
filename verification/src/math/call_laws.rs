//! What calls give, in terms of what they are handed.

use super::covariance::build_cov3d;
use super::laws::{
    covariance_is_turned_and_scaled, directions_point_to_the_camera, divides,
    fresh_gaussians_are_plain, planes_bound_the_frustum, side, squares,
};
use super::projection::{frustum_planes, Plane};
use super::sh::{
    backprop_color, differs_by, eval_sh_deg3, eval_sh_raw, normalized, view_dir, MIN_LENGTH,
};
use super::sh_laws::{colour_is_the_whole_sum, every_coefficient_has_a_gradient};
use super::{clamp, hold, max_of, min_of, softplus, unit, Gaussian3D};
use crate::num::reading::{fuses, less, lifts, multiplies, reads_zero, subtracts};
use crate::num::single::{lemma_rank_is_order, Single};
use crate::num::sum::total;
use vstd::prelude::*;

verus! {

// ── scalars ─────────────────────────────────────────────────────────────────────────────

/// A softplus is its argument above 20, and else what the kernel gives of it.
pub proof fn softplus_is_straight_above_twenty<S: Fn(Single) -> Single>(
    soft: S,
    x: Single,
    r: Single,
)
    requires
        call_ensures(softplus::<S>, (soft, x), r),
    ensures
        less(Single { bits: 0x41A0_0000 }, x) ==> r == x,
        !less(Single { bits: 0x41A0_0000 }, x) ==> call_ensures(soft, (x,), r),
{
}

/// The calls for the larger and the smaller of two numbers give one of them, and no value beyond
/// it is among them.
pub proof fn extremes_are_found(a: Single, b: Single, hi: Single, lo: Single)
    requires
        call_ensures(max_of, (a, b), hi),
        call_ensures(min_of, (a, b), lo),
        !a.nan(),
        !b.nan(),
    ensures
        hi == a || hi == b,
        lo == a || lo == b,
        lo.value() <= a.value() <= hi.value(),
        lo.value() <= b.value() <= hi.value(),
{
}

/// A number is moved into an interval as little as possible.
pub proof fn values_are_moved_into_intervals(x: Single, lo: Single, hi: Single, r: Single, q: Single)
    requires
        call_ensures(clamp, (x, lo, hi), r),
        call_ensures(hold, (x, lo, hi), q),
        !x.nan(),
        !lo.nan(),
        !hi.nan(),
        lo.value() <= hi.value(),
    ensures
        lo.value() <= x.value() <= hi.value() ==> r == x && q == x,
        x.value() < lo.value() ==> r.value() == lo.value() && q == lo,
        x.value() > hi.value() ==> r == hi && q == hi,
{
}

/// A number is moved into the unit interval: to zero from below, to one from above.
pub proof fn values_are_moved_into_the_unit_interval(x: Single, r: Single)
    requires
        call_ensures(unit, (x,), r),
        !x.nan(),
    ensures
        less(x, Single { bits: 0 }) ==> r.bits == 0,
        less(Single { bits: 0x3F80_0000 }, x) ==> r.bits == 0x3F80_0000,
        !less(x, Single { bits: 0 }) && !less(Single { bits: 0x3F80_0000 }, x) ==> r == x,
{
    lemma_rank_is_order(Single { bits: 0 }, Single { bits: 0x3F80_0000 });
}

// ── colour ──────────────────────────────────────────────────────────────────────────────

/// Every channel of a colour is `half` more than the sum of all its sixteen coefficients, each
/// times its basis value; what is drawn is that, moved into the unit interval.
pub proof fn colours_sum_all_coefficients<
    M: Fn(Single, Single, Single) -> Single + Copy,
    L: Fn(Single) -> Single + Copy,
>(
    mac: M,
    lift: L,
    val: spec_fn(Single) -> real,
    half: real,
    coeffs: [Single; 48],
    basis: [Single; 16],
    raw: [Single; 3],
    r: ([Single; 3], [Single; 3]),
    ch: int,
)
    requires
        reads_zero(val),
        fuses(mac, val),
        lifts(lift, val, half),
        call_ensures(eval_sh_raw::<M, L>, (mac, lift, &coeffs, &basis), raw),
        call_ensures(eval_sh_deg3::<M, L>, (mac, lift, &coeffs, &basis), r),
        0 <= ch < 3,
    ensures
        val(raw[ch]) == half + total(16, |k: int| val(basis[k]) * val(coeffs[16 * ch + k])),
        val(r.0[ch]) == half + total(16, |k: int| val(basis[k]) * val(coeffs[16 * ch + k])),
        !r.0[ch].nan() && less(r.0[ch], Single { bits: 0 }) ==> r.1[ch].bits == 0,
        !r.0[ch].nan() && less(Single { bits: 0x3F80_0000 }, r.0[ch]) ==> r.1[ch].bits
            == 0x3F80_0000,
        !less(r.0[ch], Single { bits: 0 }) && !less(Single { bits: 0x3F80_0000 }, r.0[ch])
            ==> r.1[ch] == r.0[ch],
{
    lemma_rank_is_order(Single { bits: 0 }, Single { bits: 0x3F80_0000 });
    colour_is_the_whole_sum(mac, lift, val, half, coeffs@, basis@, ch, raw[ch]);
    colour_is_the_whole_sum(mac, lift, val, half, coeffs@, basis@, ch, r.0[ch]);
    let f = |k: int| val(basis@[k]) * val(coeffs@[16 * ch + k]);
    let g = |k: int| val(basis[k]) * val(coeffs[16 * ch + k]);
    crate::num::sum::lemma_total_same(16, f, g);
}

/// The gradient of a channel passes where the colour lies strictly inside the unit interval, and
/// then reaches all sixteen coefficients of the channel, each times its basis value.
pub proof fn colour_gradients_reach_all_coefficients<T: Fn(Single, Single) -> Single>(
    times: T,
    val: spec_fn(Single) -> real,
    raw: [Single; 3],
    grad: [Single; 3],
    basis: [Single; 16],
    r: ([Single; 3], [Single; 48]),
    ch: int,
    k: int,
)
    requires
        reads_zero(val),
        multiplies(times, val),
        call_ensures(backprop_color::<T>, (times, &raw, &grad, &basis), r),
        0 <= ch < 3,
        0 <= k < 16,
    ensures
        ({
            let inside = less(Single { bits: 0 }, raw[ch]) && less(
                raw[ch],
                Single { bits: 0x3F80_0000 },
            );
            &&& inside ==> val(r.1[16 * ch + k]) == val(grad[ch]) * val(basis[k])
            &&& !inside ==> val(r.1[16 * ch + k]) == 0real
        }),
{
    every_coefficient_has_a_gradient(times, r.0, basis, r.1, ch, k);
    assert(val(r.1[16 * ch + k]) == val(r.0[ch]) * val(basis[k]));
    assert(0real * val(basis[k]) == 0real) by (nonlinear_arith);
}

// ── space ───────────────────────────────────────────────────────────────────────────────

/// A direction is the way from the Gaussian to the camera, over its length.
pub proof fn directions_are_the_way_to_the_camera<
    M: Fn(Single, Single) -> Single,
    N: Fn([Single; 3]) -> Single,
    D: Fn(Single, Single) -> Single,
>(
    minus: M,
    norm: N,
    divide: D,
    val: spec_fn(Single) -> real,
    gaussian: [Single; 3],
    camera: [Single; 3],
    r: [Single; 3],
) -> (n: Single)
    requires
        subtracts(minus, val),
        divides(divide, val),
        call_ensures(view_dir::<M, N, D>, (minus, norm, divide, gaussian, camera), r),
    ensures
        !less(n, Single { bits: MIN_LENGTH }) && val(n) != 0real ==> forall|i: int|
            0 <= i < 3 ==> val(#[trigger] r[i]) * val(n) == val(camera[i]) - val(gaussian[i]),
        less(n, Single { bits: MIN_LENGTH }) ==> r[0].bits == 0 && r[1].bits == 0 && r[2].bits
            == 0x3F80_0000,
{
    let d = choose|d: [Single; 3]| #[trigger]
        differs_by(minus, camera, gaussian, d) && normalized(norm, divide, d, r);
    directions_point_to_the_camera(minus, norm, divide, val, gaussian, camera, d, r)
}

/// The covariance of a Gaussian has its squared scales along the columns of its rotation.
pub proof fn covariances_have_their_scales<
    T: Fn(Single, Single) -> Single,
    G: Fn([[Single; 3]; 3]) -> [[Single; 3]; 3],
>(
    times: T,
    gram: G,
    val: spec_fn(Single) -> real,
    r: [[Single; 3]; 3],
    scale: [Single; 3],
    c: [[Single; 3]; 3],
    i: int,
    j: int,
)
    requires
        multiplies(times, val),
        squares(gram, val),
        call_ensures(build_cov3d::<T, G>, (times, gram, &r, scale), c),
        0 <= i < 3,
        0 <= j < 3,
    ensures
        val(c[i][j]) == (val(scale[0]) * val(scale[0])) * (val(r[i][0]) * val(r[j][0])) + (val(
            scale[1],
        ) * val(scale[1])) * (val(r[i][1]) * val(r[j][1])) + (val(scale[2]) * val(scale[2])) * (val(
            r[i][2],
        ) * val(r[j][2])),
{
    let m = choose|m: [[Single; 3]; 3]| #[trigger]
        super::covariance::columns_scaled(times, r, scale, m) && call_ensures(gram, (m,), c);
    covariance_is_turned_and_scaled(times, gram, val, r, scale, m, c, i, j);
}

/// A new Gaussian stands where it is put; it is round, not turned, slightly opaque and grey.
pub proof fn new_gaussians_are_plain(position: [Single; 3], g: Gaussian3D<Single>)
    requires
        call_ensures(Gaussian3D::<Single>::new, (position,), g),
    ensures
        g.position == position,
        g.rotation[0].bits == 0x3F80_0000,
        forall|a: int| 1 <= a < 4 ==> (#[trigger] g.rotation[a]).bits == 0,
        forall|a: int| 0 <= a < 3 ==> (#[trigger] g.log_scale[a]).bits == 0xC040_0000,
        g.opacity_logit.bits == 0xC000_0000,
        forall|a: int| 0 <= a < 48 ==> (#[trigger] g.sh_coeffs[a]).bits == 0,
{
    fresh_gaussians_are_plain(g, position@);
}

/// Each of the six planes of a frustum is the last row of the matrix, plus or minus the row of its
/// side, over the length of its normal.
pub proof fn planes_are_rows_of_the_matrix<
    P: Fn(Single, Single) -> Single + Copy,
    M: Fn(Single, Single) -> Single + Copy,
    N: Fn([Single; 3]) -> Single + Copy,
    D: Fn(Single, Single) -> Single + Copy,
>(
    plus: P,
    minus: M,
    norm: N,
    divide: D,
    val: spec_fn(Single) -> real,
    m: [[Single; 4]; 4],
    r: [Plane; 6],
    i: int,
) -> (n: Single)
    requires
        crate::num::reading::adds(plus, val),
        subtracts(minus, val),
        divides(divide, val),
        call_ensures(frustum_planes::<P, M, N, D>, (plus, minus, norm, divide, &m), r),
        0 <= i < 6,
    ensures
        val(n) != 0real ==> {
            &&& forall|c: int|
                0 <= c < 3 ==> val(#[trigger] r[i].0[c]) * val(n) == if side(i).1 {
                    val(m[3][c]) + val(m[side(i).0][c])
                } else {
                    val(m[3][c]) - val(m[side(i).0][c])
                }
            &&& val(r[i].1) * val(n) == if side(i).1 {
                val(m[3][3]) + val(m[side(i).0][3])
            } else {
                val(m[3][3]) - val(m[side(i).0][3])
            }
        },
{
    let (normal, n) = planes_bound_the_frustum(plus, minus, norm, divide, val, m, i, r[i]);
    if val(n) != 0real {
        assert forall|c: int| 0 <= c < 3 implies val(#[trigger] r[i].0[c]) * val(n) == if side(i).1 {
            val(m[3][c]) + val(m[side(i).0][c])
        } else {
            val(m[3][c]) - val(m[side(i).0][c])
        } by {
            assert(val(normal[c]) == if side(i).1 {
                val(m[3][c]) + val(m[side(i).0][c])
            } else {
                val(m[3][c]) - val(m[side(i).0][c])
            });
        }
    }
    n
}

} // verus!
