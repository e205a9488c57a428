//! What the colour of a Gaussian is, and what its gradient is.

use super::sh::{passed, sh_channel, sh_grads, sh_step};
use super::in_unit;
use crate::num::fold::{reaches, upto};
use crate::num::reading::{fuses, lemma_fold_sums, lifts, multiplies, reads_zero};
use crate::num::single::{Single, ONE, ZERO};
use crate::num::sum::{lemma_total_plus, lemma_total_same, lemma_total_scaled, total};
use vstd::prelude::*;

verus! {

/// All sixteen coefficients of a channel enter its colour, each once and with its own basis
/// value: the colour is `half` more than the sum of their products.
pub proof fn colour_is_the_whole_sum<
    M: Fn(Single, Single, Single) -> Single,
    L: Fn(Single) -> Single,
>(
    mac: M,
    lift: L,
    val: spec_fn(Single) -> real,
    half: real,
    coeffs: Seq<Single>,
    basis: Seq<Single>,
    ch: int,
    v: Single,
)
    requires
        reads_zero(val),
        fuses(mac, val),
        lifts(lift, val, half),
        0 <= ch < 3,
        sh_channel(mac, lift, coeffs, basis, ch, v),
    ensures
        val(v) == half + total(16, |k: int| val(basis[k]) * val(coeffs[16 * ch + k])),
{
    let step = sh_step(mac, coeffs, basis, ch);
    let f = |k: int| val(basis[k]) * val(coeffs[16 * ch + k]);
    let sum = choose|sum: Single| #[trigger]
        reaches(step, upto(16), Single { bits: ZERO }, sum) && call_ensures(lift, (sum,), v);
    lemma_fold_sums(step, 16, Single { bits: ZERO }, sum, val, f);
}

/// A change of one coefficient changes its channel by as much, times its basis value.
pub proof fn colour_follows_each_coefficient<
    M: Fn(Single, Single, Single) -> Single,
    L: Fn(Single) -> Single,
>(
    mac: M,
    lift: L,
    val: spec_fn(Single) -> real,
    half: real,
    coeffs: Seq<Single>,
    basis: Seq<Single>,
    ch: int,
    k: int,
    c: Single,
    before: Single,
    after: Single,
)
    requires
        reads_zero(val),
        fuses(mac, val),
        lifts(lift, val, half),
        coeffs.len() == 48,
        0 <= ch < 3,
        0 <= k < 16,
        sh_channel(mac, lift, coeffs, basis, ch, before),
        sh_channel(mac, lift, coeffs.update(16 * ch + k, c), basis, ch, after),
    ensures
        val(after) - val(before) == val(basis[k]) * (val(c) - val(coeffs[16 * ch + k])),
{
    let changed = coeffs.update(16 * ch + k, c);
    colour_is_the_whole_sum(mac, lift, val, half, coeffs, basis, ch, before);
    colour_is_the_whole_sum(mac, lift, val, half, changed, basis, ch, after);
    let f = |i: int| val(basis[i]) * val(coeffs[16 * ch + i]);
    let g = |i: int| val(basis[i]) * val(changed[16 * ch + i]);
    lemma_one_differs(16, f, g, k);
    let (b, x, y) = (val(basis[k]), val(c), val(coeffs[16 * ch + k]));
    assert(b * x - b * y == b * (x - y)) by (nonlinear_arith);
}

/// Sums that differ in one summand differ by that.
pub proof fn lemma_one_differs(
    n: nat,
    f: spec_fn(int) -> real,
    g: spec_fn(int) -> real,
    k: int,
)
    requires
        0 <= k < n,
        forall|i: int| 0 <= i < n && i != k ==> #[trigger] f(i) == g(i),
    ensures
        total(n, g) - total(n, f) == g(k) - f(k),
    decreases n,
{
    let m = (n - 1) as nat;
    if k == m {
        lemma_total_same(m, f, g);
    } else {
        lemma_one_differs(m, f, g, k);
        assert(f(m as int) == g(m as int));
    }
}

/// The colour of a channel does not look at the coefficients of the others.
pub proof fn channels_are_apart<
    M: Fn(Single, Single, Single) -> Single,
    L: Fn(Single) -> Single,
>(
    mac: M,
    lift: L,
    val: spec_fn(Single) -> real,
    half: real,
    a: Seq<Single>,
    b: Seq<Single>,
    basis: Seq<Single>,
    ch: int,
    u: Single,
    v: Single,
)
    requires
        reads_zero(val),
        fuses(mac, val),
        lifts(lift, val, half),
        0 <= ch < 3,
        forall|k: int| 0 <= k < 16 ==> a[16 * ch + k] == #[trigger] b[16 * ch + k],
        sh_channel(mac, lift, a, basis, ch, u),
        sh_channel(mac, lift, b, basis, ch, v),
    ensures
        val(u) == val(v),
{
    colour_is_the_whole_sum(mac, lift, val, half, a, basis, ch, u);
    colour_is_the_whole_sum(mac, lift, val, half, b, basis, ch, v);
    let f = |k: int| val(basis[k]) * val(a[16 * ch + k]);
    let g = |k: int| val(basis[k]) * val(b[16 * ch + k]);
    assert forall|k: int| 0 <= k < 16 implies #[trigger] f(k) == g(k) by {
        assert(a[16 * ch + k] == b[16 * ch + k]);
    }
    lemma_total_same(16, f, g);
}

/// Each of the 48 coefficients has as gradient that of its channel times its basis value.
pub proof fn every_coefficient_has_a_gradient<T: Fn(Single, Single) -> Single>(
    times: T,
    masked: [Single; 3],
    basis: [Single; 16],
    d: [Single; 48],
    ch: int,
    k: int,
)
    requires
        sh_grads(times, masked, basis, d),
        0 <= ch < 3,
        0 <= k < 16,
    ensures
        call_ensures(times, (masked[ch], basis[k]), d[16 * ch + k]),
{
    let j = 16 * ch + k;
    assert(j / 16 == ch && j % 16 == k);
    assert(d[j] == d[j]);
}

/// The gradient of the coefficients is the adjoint of the colour: if the coefficients of a
/// Gaussian change, its unclamped colour changes, weighted with the gradient of the colour, by
/// as much as the coefficients do, weighted with their own gradient.
pub proof fn gradient_is_the_adjoint_of_colour<
    M: Fn(Single, Single, Single) -> Single,
    L: Fn(Single) -> Single,
    T: Fn(Single, Single) -> Single,
>(
    mac: M,
    lift: L,
    times: T,
    val: spec_fn(Single) -> real,
    half: real,
    a: Seq<Single>,
    b: Seq<Single>,
    basis: [Single; 16],
    masked: [Single; 3],
    d: [Single; 48],
    ch: int,
    u: Single,
    v: Single,
)
    requires
        reads_zero(val),
        fuses(mac, val),
        lifts(lift, val, half),
        multiplies(times, val),
        0 <= ch < 3,
        sh_channel(mac, lift, a, basis@, ch, u),
        sh_channel(mac, lift, b, basis@, ch, v),
        sh_grads(times, masked, basis, d),
    ensures
        val(masked[ch]) * (val(v) - val(u)) == total(
            16,
            |k: int| val(d[16 * ch + k]) * (val(b[16 * ch + k]) - val(a[16 * ch + k])),
        ),
{
    colour_is_the_whole_sum(mac, lift, val, half, a, basis@, ch, u);
    colour_is_the_whole_sum(mac, lift, val, half, b, basis@, ch, v);
    let m = val(masked[ch]);
    let f = |k: int| val(basis@[k]) * val(a[16 * ch + k]);
    let g = |k: int| val(basis@[k]) * val(b[16 * ch + k]);
    let mf = |k: int| m * f(k);
    let mg = |k: int| m * g(k);
    let w = |k: int| val(d[16 * ch + k]) * (val(b[16 * ch + k]) - val(a[16 * ch + k]));
    lemma_total_scaled(16, m, f);
    lemma_total_scaled(16, m, g);
    lemma_total_plus(16, mf, w);
    let both = |k: int| mf(k) + w(k);
    assert forall|k: int| 0 <= k < 16 implies #[trigger] both(k) == mg(k) by {
        every_coefficient_has_a_gradient(times, masked, basis, d, ch, k);
        let (x, y, z) = (val(basis@[k]), val(a[16 * ch + k]), val(b[16 * ch + k]));
        assert(m * (x * y) + m * x * (z - y) == m * (x * z)) by (nonlinear_arith);
    }
    lemma_total_same(16, both, mg);
    let (s, t) = (total(16, f), total(16, g));
    assert(m * (t - s) == m * t - m * s) by (nonlinear_arith);
}

/// The gradient passes the clamp exactly where the colour lies strictly inside the unit
/// interval, and is zero where the clamp holds the colour.
pub proof fn gradient_passes_inside_the_interval(raw: Single, grad: Single)
    ensures
        !raw.nan() && (Single { bits: ZERO }).value() < raw.value() < (Single {
            bits: ONE,
        }).value() ==> passed(raw, grad) == grad && in_unit(raw) == raw,
        raw.nan() || raw.value() <= (Single { bits: ZERO }).value() || raw.value() >= (Single {
            bits: ONE,
        }).value() ==> passed(raw, grad) == (Single { bits: ZERO }),
{
}

} // verus!
