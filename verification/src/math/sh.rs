//! Spherical harmonics: how the coefficients of a colour are combined.
//!
//! The kernels: `mac` multiplies and accumulates, `lift` adds one half, `times` multiplies;
//! `norm` is the length of a vector, `divide` and `minus` what they say.

use super::{in_unit, unit};
use crate::num::fold::{lemma_reaches_nothing, lemma_reaches_push, lemma_upto_push, reaches, upto};
use crate::num::single::{Single, ONE, ZERO};
use vstd::prelude::*;

verus! {

/// One step of the sum over the basis, for channel `ch`.
pub open spec fn sh_step<M: Fn(Single, Single, Single) -> Single>(
    mac: M,
    coeffs: Seq<Single>,
    basis: Seq<Single>,
    ch: int,
) -> spec_fn(Single, int, Single) -> bool {
    |a: Single, k: int, b: Single| call_ensures(mac, (a, basis[k], coeffs[ch * 16 + k]), b)
}

/// `v` can be channel `ch` of the colour: one half more than the sum of its 16 coefficients,
/// weighted by the basis.
pub open spec fn sh_channel<
    M: Fn(Single, Single, Single) -> Single,
    L: Fn(Single) -> Single,
>(mac: M, lift: L, coeffs: Seq<Single>, basis: Seq<Single>, ch: int, v: Single) -> bool {
    exists|sum: Single| #[trigger]
        reaches(sh_step(mac, coeffs, basis, ch), upto(16), Single { bits: ZERO }, sum)
            && call_ensures(lift, (sum,), v)
}

fn channel<M: Fn(Single, Single, Single) -> Single, L: Fn(Single) -> Single>(
    mac: M,
    lift: L,
    coeffs: &[Single; 48],
    basis: &[Single; 16],
    ch: usize,
) -> (r: Single)
    requires
        forall|a: Single, b: Single, c: Single| call_requires(mac, (a, b, c)),
        forall|a: Single| call_requires(lift, (a,)),
        ch < 3,
    ensures
        sh_channel(mac, lift, coeffs@, basis@, ch as int, r),
{
    let zero = Single { bits: ZERO };
    let ghost step = sh_step(mac, coeffs@, basis@, ch as int);
    let mut acc = zero;
    proof {
        lemma_reaches_nothing(step, zero, acc);
        assert(upto(0) =~= Seq::<int>::empty());
    }
    for k in 0..16usize
        invariant
            forall|a: Single, b: Single, c: Single| call_requires(mac, (a, b, c)),
            ch < 3,
            zero == (Single { bits: ZERO }),
            step == sh_step(mac, coeffs@, basis@, ch as int),
            reaches(step, upto(k as nat), zero, acc),
    {
        let ghost acc0 = acc;
        acc = mac(acc, basis[k], coeffs[ch * 16 + k]);
        proof {
            assert(step(acc0, k as int, acc));
            lemma_reaches_push(step, upto(k as nat), zero, acc0, k as int, acc);
            lemma_upto_push(k as nat);
        }
    }
    lift(acc)
}

/// The colour before it is clamped.  The coefficients are 16 red, 16 green and 16 blue ones.
pub fn eval_sh_raw<
    M: Fn(Single, Single, Single) -> Single + Copy,
    L: Fn(Single) -> Single + Copy,
>(mac: M, lift: L, coeffs: &[Single; 48], basis: &[Single; 16]) -> (r: [Single; 3])
    requires
        forall|a: Single, b: Single, c: Single| call_requires(mac, (a, b, c)),
        forall|a: Single| call_requires(lift, (a,)),
    ensures
        forall|ch: int|
            0 <= ch < 3 ==> sh_channel(mac, lift, coeffs@, basis@, ch, #[trigger] r[ch]),
{
    [
        channel(mac, lift, coeffs, basis, 0),
        channel(mac, lift, coeffs, basis, 1),
        channel(mac, lift, coeffs, basis, 2),
    ]
}

/// The colour before and after it is clamped to the unit interval.
pub fn eval_sh_deg3<
    M: Fn(Single, Single, Single) -> Single + Copy,
    L: Fn(Single) -> Single + Copy,
>(mac: M, lift: L, coeffs: &[Single; 48], basis: &[Single; 16]) -> (r: ([Single; 3], [Single; 3]))
    requires
        forall|a: Single, b: Single, c: Single| call_requires(mac, (a, b, c)),
        forall|a: Single| call_requires(lift, (a,)),
    ensures
        forall|ch: int|
            0 <= ch < 3 ==> sh_channel(mac, lift, coeffs@, basis@, ch, #[trigger] r.0[ch]),
        forall|ch: int| 0 <= ch < 3 ==> #[trigger] r.1[ch] == in_unit(r.0[ch]),
{
    let raw = eval_sh_raw(mac, lift, coeffs, basis);
    let color = [unit(raw[0]), unit(raw[1]), unit(raw[2])];
    (raw, color)
}

/// What of a channel's gradient passes the clamp: all of it strictly inside the unit
/// interval, nothing elsewhere.
pub open spec fn passed(raw: Single, grad: Single) -> Single {
    if (Single { bits: ZERO }).below(raw) && raw.below(Single { bits: ONE }) {
        grad
    } else {
        Single { bits: ZERO }
    }
}

fn pass(raw: Single, grad: Single) -> (r: Single)
    ensures
        r == passed(raw, grad),
{
    if (Single { bits: ZERO }).lt(raw) && raw.lt(Single { bits: ONE }) {
        grad
    } else {
        Single { bits: ZERO }
    }
}

/// `d` can be the gradient of the coefficients: that of each channel times each basis value.
pub open spec fn sh_grads<T: Fn(Single, Single) -> Single>(
    times: T,
    masked: [Single; 3],
    basis: [Single; 16],
    d: [Single; 48],
) -> bool {
    forall|j: int|
        0 <= j < 48 ==> call_ensures(times, (masked[j / 16], basis[j % 16]), #[trigger] d[j])
}

/// The gradient of the colour before it was clamped, and of the coefficients.
pub fn backprop_color<T: Fn(Single, Single) -> Single>(
    times: T,
    raw: &[Single; 3],
    grad: &[Single; 3],
    basis: &[Single; 16],
) -> (r: ([Single; 3], [Single; 48]))
    requires
        forall|a: Single, b: Single| call_requires(times, (a, b)),
    ensures
        forall|ch: int| 0 <= ch < 3 ==> #[trigger] r.0[ch] == passed(raw[ch], grad[ch]),
        sh_grads(times, r.0, *basis, r.1),
{
    let masked = [pass(raw[0], grad[0]), pass(raw[1], grad[1]), pass(raw[2], grad[2])];
    let mut d = super::no_coefficients();
    for j in 0..48usize
        invariant
            forall|a: Single, b: Single| call_requires(times, (a, b)),
            forall|i: int|
                0 <= i < j ==> call_ensures(
                    times,
                    (masked[i / 16], basis[i % 16]),
                    #[trigger] d[i],
                ),
    {
        d[j] = times(masked[j / 16], basis[j % 16]);
    }
    (masked, d)
}

// ── directions ──────────────────────────────────────────────────────────────────────────

/// The pattern of `1e-8`: what is shorter has no direction.
pub const MIN_LENGTH: u32 = 0x322B_CC77;

/// `r` can be `v` made one long; where `v` has hardly any length, the third axis.
pub open spec fn normalized<N: Fn([Single; 3]) -> Single, D: Fn(Single, Single) -> Single>(
    norm: N,
    divide: D,
    v: [Single; 3],
    r: [Single; 3],
) -> bool {
    exists|n: Single| #[trigger]
        call_ensures(norm, (v,), n) && forall|i: int|
            0 <= i < 3 ==> if n.below(Single { bits: MIN_LENGTH }) {
                #[trigger] r[i] == (Single {
                    bits: if i == 2 {
                        ONE
                    } else {
                        ZERO
                    },
                })
            } else {
                call_ensures(divide, (v[i], n), r[i])
            }
}

/// Makes a direction one long.
pub fn normalize<N: Fn([Single; 3]) -> Single, D: Fn(Single, Single) -> Single>(
    norm: N,
    divide: D,
    v: [Single; 3],
) -> (r: [Single; 3])
    requires
        forall|v: [Single; 3]| call_requires(norm, (v,)),
        forall|a: Single, b: Single| call_requires(divide, (a, b)),
    ensures
        normalized(norm, divide, v, r),
{
    let n = norm(v);
    if n.lt(Single { bits: MIN_LENGTH }) {
        let zero = Single { bits: ZERO };
        [zero, zero, Single { bits: ONE }]
    } else {
        [divide(v[0], n), divide(v[1], n), divide(v[2], n)]
    }
}

/// `d` can be the difference of two points.
pub open spec fn differs_by<M: Fn(Single, Single) -> Single>(
    minus: M,
    a: [Single; 3],
    b: [Single; 3],
    d: [Single; 3],
) -> bool {
    forall|i: int| 0 <= i < 3 ==> call_ensures(minus, (a[i], b[i]), #[trigger] d[i])
}

/// The direction from a Gaussian to the camera.
pub fn view_dir<
    M: Fn(Single, Single) -> Single,
    N: Fn([Single; 3]) -> Single,
    D: Fn(Single, Single) -> Single,
>(minus: M, norm: N, divide: D, gaussian_pos: [Single; 3], camera_pos: [Single; 3]) -> (r: [Single;
    3])
    requires
        forall|a: Single, b: Single| call_requires(minus, (a, b)),
        forall|v: [Single; 3]| call_requires(norm, (v,)),
        forall|a: Single, b: Single| call_requires(divide, (a, b)),
    ensures
        exists|d: [Single; 3]| #[trigger]
            differs_by(minus, camera_pos, gaussian_pos, d) && normalized(norm, divide, d, r),
{
    let d = [
        minus(camera_pos[0], gaussian_pos[0]),
        minus(camera_pos[1], gaussian_pos[1]),
        minus(camera_pos[2], gaussian_pos[2]),
    ];
    assert(differs_by(minus, camera_pos, gaussian_pos, d));
    normalize(norm, divide, d)
}

} // verus!
