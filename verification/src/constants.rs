//! What the constants of the library stand for.

use crate::cpu::forward::{MAX_ALPHA, TRANSMITTANCE_STOP};
use crate::cpu::geometry::MIN_DISTANCE;
use crate::cpu::loss::DSSIM_WEIGHT;
use crate::cpu::project::{MIN_DETERMINANT, MINUS_MARGIN, NEAR};
use crate::cpu::rasterizer::LINEAR_KNEE;
use crate::cpu::splat::ALPHA_THRESHOLD;
use crate::io::images::SRGB_KNEE;
use crate::io::splat::TOP;
use crate::math::{quaternion, sh, MINUS_THREE, MINUS_TWO, TWENTY};
use crate::num::single::{INFINITE, ONE, ZERO};
use crate::pipeline::densify::{LEAST, MOST, RESET_OPACITY};
use crate::pipeline::optimizer::{default_config, MIN_NORM};
use crate::pipeline::run::EXTRACT_FPS;
use crate::pipeline::sfm::seeds::{LEAST_SCALE, LONE_SCALE, NEIGHBOURS, WINDOW};
use crate::pipeline::train::{LARGEST, SMALLEST};
use vstd::arithmetic::power2::{lemma2_to64, lemma2_to64_rest, pow2};
use vstd::prelude::*;

verus! {

/// No pattern stands for a value that is closer to `num / den` than this one: a positive number
/// of 24 binary digits, which is off by at most half of its last digit.
pub open spec fn nearest(bits: u32, num: int, den: int) -> bool {
    let exponent = bits as int / 0x80_0000;
    let digits = 0x80_0000 + bits as int % 0x80_0000;
    let off = den * digits - num * pow2((150 - exponent) as nat);
    0 < exponent <= 150 && -den <= 2 * off <= den
}

/// The pattern of a value with the sign turned.
pub open spec fn opposite(bits: u32) -> u32 {
    (bits - 0x8000_0000) as u32
}

/// What decides about a splat: it is nearer than `0.001` from the camera's plane or not, its
/// determinant is above `1e-8` or not, its centre is at most 128 pixels off the screen, it shows
/// by at least `1/255` and by at most `0.99`, and a pixel is full when less than `0.0001` shines
/// through.
pub proof fn splats_are_judged_by_these()
    ensures
        nearest(NEAR, 1, 1_000),
        nearest(MIN_DETERMINANT, 1, 100_000_000),
        nearest(opposite(MINUS_MARGIN), 128, 1),
        nearest(ALPHA_THRESHOLD, 1, 255),
        nearest(MAX_ALPHA, 99, 100),
        nearest(TRANSMITTANCE_STOP, 1, 10_000),
        nearest(MIN_DISTANCE, 1, 100_000_000),
{
    lemma2_to64();
    lemma2_to64_rest();
}

/// What decides about lengths, curves and colours: a rotation is longer than `1e-12`, or than
/// `1e-8` when it is optimised, a direction than `1e-8`; a softplus is its argument from 20 on;
/// both curves between linear and coded light are straight up to their knee; a byte is at most
/// 255.
pub proof fn values_are_judged_by_these()
    ensures
        nearest(quaternion::MIN_LENGTH, 1, 1_000_000_000_000),
        nearest(MIN_NORM, 1, 100_000_000),
        nearest(sh::MIN_LENGTH, 1, 100_000_000),
        nearest(TWENTY, 20, 1),
        nearest(LINEAR_KNEE, 31_308, 10_000_000),
        nearest(SRGB_KNEE, 4_045, 100_000),
        nearest(TOP, 255, 1),
        nearest(ONE, 1, 1),
        ZERO == 0,
{
    lemma2_to64();
    lemma2_to64_rest();
}

/// What a Gaussian starts from, and what densification and seeding hold it to.
pub proof fn gaussians_are_made_by_these()
    ensures
        nearest(opposite(MINUS_THREE), 3, 1),
        nearest(opposite(MINUS_TWO), 2, 1),
        nearest(LEAST, 1, 1_000_000),
        nearest(MOST, 999, 1_000),
        nearest(RESET_OPACITY, 1, 100),
        nearest(LONE_SCALE, 1, 100),
        nearest(LEAST_SCALE, 1, 10_000),
        WINDOW == 50,
        NEIGHBOURS == 3,
        nearest(EXTRACT_FPS, 2, 1),
        nearest(DSSIM_WEIGHT, 1, 5),
{
    lemma2_to64();
    lemma2_to64_rest();
}

/// The least and the greatest number are those next to the infinities.
pub proof fn extremes_are_next_to_infinity()
    ensures
        LARGEST + 1 == INFINITE,
        SMALLEST == LARGEST + 0x8000_0000,
        INFINITE as int == 255 * 0x80_0000,
{
}

/// The settings that training starts from.
pub proof fn defaults_are_these()
    ensures
        ({
            let c = default_config();
            &&& c.num_iterations == 30_000
            &&& nearest(c.lr_position.bits, 16, 100_000)
            &&& nearest(c.lr_rotation.bits, 1, 1_000)
            &&& nearest(c.lr_scale.bits, 5, 1_000)
            &&& nearest(c.lr_opacity.bits, 5, 100)
            &&& nearest(c.lr_sh_dc.bits, 25, 10_000)
            &&& nearest(c.lr_sh_rest.bits, 125, 1_000_000)
            &&& nearest(c.beta1.bits, 9, 10)
            &&& nearest(c.beta2.bits, 999, 1_000)
            &&& nearest(c.eps.bits, 1, 100_000_000)
            &&& c.densify_from_iter == 500
            &&& c.densify_until_iter == 15_000
            &&& nearest(c.densify_grad_threshold.bits, 2, 10_000)
            &&& c.opacity_reset_iter == 3_000
            &&& nearest(c.prune_opacity_thresh.bits, 5, 1_000)
            &&& c.max_gaussians == 3_000_000
        }),
{
    lemma2_to64();
    lemma2_to64_rest();
}

} // verus!
