//! The scene: Gaussians and cameras.

pub mod call_laws;
pub mod camera;
pub mod covariance;
pub mod laws;
pub mod projection;
pub mod quaternion;
pub mod sh;
pub mod sh_laws;

use crate::num::single::{lemma_rank_is_order, Single, ONE, ZERO};
use vstd::prelude::*;

verus! {

/// Trainable scalars per Gaussian:
/// position (3), rotation (4), log scale (3), opacity (1), spherical harmonics (48).
pub const PARAMS_PER_GAUSSIAN: usize = 59;

/// The pattern of `-2.0`.
pub const MINUS_TWO: u32 = 0xC000_0000;

/// The pattern of `-3.0`.
pub const MINUS_THREE: u32 = 0xC040_0000;

/// One Gaussian, with its parameters in the form that is optimised.
#[derive(Clone, Copy, Debug)]
pub struct Gaussian3D<T> {
    /// Centre in world space.
    pub position: [T; 3],
    /// Opacity before the sigmoid.
    pub opacity_logit: T,
    /// Rotation quaternion `[w, x, y, z]`.
    pub rotation: [T; 4],
    /// Logarithm of the scale along each axis.
    pub log_scale: [T; 3],
    /// 16 red, 16 green, then 16 blue coefficients.
    pub sh_coeffs: [T; 48],
}

/// A Gaussian is the row of its parameters, in the optimiser's order.
impl<T> View for Gaussian3D<T> {
    type V = Seq<T>;

    open spec fn view(&self) -> Seq<T> {
        self.position@ + self.rotation@ + self.log_scale@ + seq![self.opacity_logit]
            + self.sh_coeffs@
    }
}

pub proof fn lemma_gaussian_view<T>(g: Gaussian3D<T>)
    ensures
        g@.len() == PARAMS_PER_GAUSSIAN,
        forall|j: int| 0 <= j < 3 ==> g@[j] == #[trigger] g.position[j],
        forall|j: int| 0 <= j < 4 ==> g@[3 + j] == #[trigger] g.rotation[j],
        forall|j: int| 0 <= j < 3 ==> g@[7 + j] == #[trigger] g.log_scale[j],
        g@[10] == g.opacity_logit,
        forall|j: int| 0 <= j < 48 ==> g@[11 + j] == #[trigger] g.sh_coeffs[j],
{
}

/// Gaussians with the same parameters are the same.
pub proof fn lemma_gaussian_ext<T>(a: Gaussian3D<T>, b: Gaussian3D<T>)
    requires
        a@ == b@,
    ensures
        a == b,
{
    lemma_gaussian_view(a);
    lemma_gaussian_view(b);
    assert(a.position =~= b.position) by {
        assert forall|j: int| 0 <= j < 3 implies a.position[j] == b.position[j] by {
            assert(a@[j] == b@[j]);
        }
    }
    assert(a.rotation =~= b.rotation) by {
        assert forall|j: int| 0 <= j < 4 implies a.rotation[j] == b.rotation[j] by {
            assert(a@[3 + j] == b@[3 + j]);
        }
    }
    assert(a.log_scale =~= b.log_scale) by {
        assert forall|j: int| 0 <= j < 3 implies a.log_scale[j] == b.log_scale[j] by {
            assert(a@[7 + j] == b@[7 + j]);
        }
    }
    assert(a.opacity_logit == b.opacity_logit) by {
        assert(a@[10] == b@[10]);
    }
    assert(a.sh_coeffs =~= b.sh_coeffs) by {
        assert forall|j: int| 0 <= j < 48 implies a.sh_coeffs[j] == b.sh_coeffs[j] by {
            assert(a@[11 + j] == b@[11 + j]);
        }
    }
}

impl<T: Copy> Gaussian3D<T> {
    /// Parameter `j`, in the optimiser's order.
    pub fn param(&self, j: usize) -> (r: T)
        requires
            j < PARAMS_PER_GAUSSIAN,
        ensures
            r == self@[j as int],
    {
        proof {
            lemma_gaussian_view(*self);
        }
        if j < 3 {
            self.position[j]
        } else if j < 7 {
            self.rotation[j - 3]
        } else if j < 10 {
            self.log_scale[j - 7]
        } else if j == 10 {
            self.opacity_logit
        } else {
            self.sh_coeffs[j - 11]
        }
    }

    /// Replaces parameter `j`.
    pub fn set_param(&mut self, j: usize, v: T)
        requires
            j < PARAMS_PER_GAUSSIAN,
        ensures
            final(self)@ == old(self)@.update(j as int, v),
    {
        if j < 3 {
            self.position[j] = v;
        } else if j < 7 {
            self.rotation[j - 3] = v;
        } else if j < 10 {
            self.log_scale[j - 7] = v;
        } else if j == 10 {
            self.opacity_logit = v;
        } else {
            self.sh_coeffs[j - 11] = v;
        }
        assert(self@ =~= old(self)@.update(j as int, v));
    }
}

/// The parameters of a fresh Gaussian at `position`: no rotation, a small scale, slightly
/// opaque, grey.
pub open spec fn fresh(position: Seq<Single>) -> Seq<Single> {
    Seq::new(
        PARAMS_PER_GAUSSIAN as nat,
        |j: int|
            if j < 3 {
                position[j]
            } else if j == 3 {
                Single { bits: ONE }
            } else if j < 7 {
                Single { bits: ZERO }
            } else if j < 10 {
                Single { bits: MINUS_THREE }
            } else if j == 10 {
                Single { bits: MINUS_TWO }
            } else {
                Single { bits: ZERO }
            },
    )
}

/// Spherical-harmonics coefficients that are all zero.
pub fn no_coefficients() -> (r: [Single; 48])
    ensures
        forall|j: int| 0 <= j < 48 ==> #[trigger] r@[j] == (Single { bits: ZERO }),
{
    let zero = Single { bits: ZERO };
    [
        zero, zero, zero, zero, zero, zero, zero, zero, zero, zero, zero, zero, zero, zero, zero, zero,
        zero, zero, zero, zero, zero, zero, zero, zero, zero, zero, zero, zero, zero, zero, zero, zero,
        zero, zero, zero, zero, zero, zero, zero, zero, zero, zero, zero, zero, zero, zero, zero, zero,
    ]
}

impl Gaussian3D<Single> {
    pub fn new(position: [Single; 3]) -> (g: Gaussian3D<Single>)
        ensures
            g@ == fresh(position@),
            g.position == position,
    {
        let zero = Single { bits: ZERO };
        let small = Single { bits: MINUS_THREE };
        let g = Gaussian3D {
            position,
            opacity_logit: Single { bits: MINUS_TWO },
            rotation: [Single { bits: ONE }, zero, zero, zero],
            log_scale: [small, small, small],
            sh_coeffs: no_coefficients(),
        };
        proof {
            lemma_gaussian_view(g);
        }
        assert(g@ =~= fresh(position@));
        g
    }
}

impl Gaussian3D<Single> {
    /// What `lift` makes of the first three coefficients.
    pub fn base_color<L: Fn(Single) -> Single>(&self, lift: L) -> (r: [Single; 3])
        requires
            forall|v: Single| call_requires(lift, (v,)),
        ensures
            forall|i: int|
                0 <= i < 3 ==> call_ensures(lift, (self.sh_coeffs[i],), #[trigger] r[i]),
    {
        [lift(self.sh_coeffs[0]), lift(self.sh_coeffs[1]), lift(self.sh_coeffs[2])]
    }
}

// ── scalars ─────────────────────────────────────────────────────────────────────────────

/// The pattern of `20.0`.
pub const TWENTY: u32 = 0x41A0_0000;

/// The logarithm of one more than the exponential of `x`, which is `soft`; where `x` is large
/// that is `x` itself.
pub fn softplus<S: Fn(Single) -> Single>(soft: S, x: Single) -> (r: Single)
    requires
        forall|v: Single| call_requires(soft, (v,)),
    ensures
        if (Single { bits: TWENTY }).below(x) {
            r == x
        } else {
            call_ensures(soft, (x,), r)
        },
{
    if (Single { bits: TWENTY }).lt(x) {
        x
    } else {
        soft(x)
    }
}

/// The larger of two values; the number, where only one is a number.
pub open spec fn larger(a: Single, b: Single) -> Single {
    if a.nan() || a.below(b) {
        b
    } else {
        a
    }
}

/// The smaller of two values; the number, where only one is a number.
pub open spec fn smaller(a: Single, b: Single) -> Single {
    if a.nan() || b.below(a) {
        b
    } else {
        a
    }
}

pub fn max_of(a: Single, b: Single) -> (r: Single)
    ensures
        r == larger(a, b),
{
    if a.is_nan() || a.lt(b) {
        b
    } else {
        a
    }
}

pub fn min_of(a: Single, b: Single) -> (r: Single)
    ensures
        r == smaller(a, b),
{
    if a.is_nan() || b.lt(a) {
        b
    } else {
        a
    }
}

/// `x`, moved up to `lo` and then down to `hi`.
pub fn clamp(x: Single, lo: Single, hi: Single) -> (r: Single)
    ensures
        r == smaller(larger(x, lo), hi),
{
    min_of(max_of(x, lo), hi)
}

/// `x` where it lies between `lo` and `hi`, or is not a number; else the nearer of the two.
pub open spec fn held(x: Single, lo: Single, hi: Single) -> Single {
    if x.below(lo) {
        lo
    } else if hi.below(x) {
        hi
    } else {
        x
    }
}

pub fn hold(x: Single, lo: Single, hi: Single) -> (r: Single)
    ensures
        r == held(x, lo, hi),
{
    if x.lt(lo) {
        lo
    } else if hi.lt(x) {
        hi
    } else {
        x
    }
}

/// `x`, held in the unit interval.
pub open spec fn in_unit(x: Single) -> Single {
    held(x, Single { bits: ZERO }, Single { bits: ONE })
}

pub fn unit(x: Single) -> (r: Single)
    ensures
        r == in_unit(x),
{
    hold(x, Single { bits: ZERO }, Single { bits: ONE })
}

/// A number that is clamped lies between the bounds.
pub proof fn clamped_is_between(x: Single, lo: Single, hi: Single)
    requires
        !lo.nan(),
        !hi.nan(),
        lo.value() <= hi.value(),
    ensures
        !smaller(larger(x, lo), hi).nan(),
        lo.value() <= smaller(larger(x, lo), hi).value() <= hi.value(),
{
    lemma_rank_is_order(x, lo);
    lemma_rank_is_order(hi, larger(x, lo));
}

/// A number that is held lies between the bounds; what is not a number stays so.
pub proof fn held_is_between(x: Single, lo: Single, hi: Single)
    requires
        !lo.nan(),
        !hi.nan(),
        lo.value() <= hi.value(),
    ensures
        held(x, lo, hi).nan() <==> x.nan(),
        !x.nan() ==> lo.value() <= held(x, lo, hi).value() <= hi.value(),
{
    lemma_rank_is_order(x, lo);
    lemma_rank_is_order(hi, x);
}

} // verus!
