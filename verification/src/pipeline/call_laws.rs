//! What calls give, in terms of what they are handed.

use super::densify::{clone_gaussian, split_gaussian, LEAST, MOST};
use super::densify_laws::{at_least, kept_between, parts_stand_on_either_side};
use super::optimizer::{flatten_grad, learning_rates, AdamState, TrainConfig};
use super::run::{image_dir, PipelineConfig};
use super::sfm::points::SfMPoint;
use super::sfm::seed_laws::{seeds_look_like_their_points, seeds_stand_at_their_points};
use super::sfm::seeds::{gaussians_from_sfm, scales_of, seeded};
use super::train::{checkpoint_interval, checkpoint_name, estimate_scene_extent};
use crate::cpu::render::GaussianGrad;
use crate::math::Gaussian3D;
use crate::num::reading::{adds, subtracts};
use crate::num::single::{Double, Single};
use vstd::prelude::*;

verus! {

// ── seeds ───────────────────────────────────────────────────────────────────────────────

/// Every point seeds one Gaussian, in order: at all three of its coordinates, in its colour, with
/// the given opacity, round and not turned.
pub proof fn points_seed_gaussians<
    F: Fn([Double; 3], [Double; 3]) -> Double + Copy,
    M: Fn(&Vec<Double>) -> Single + Copy,
    L: Fn(Single) -> Single,
    C: Fn(u8) -> Single,
>(
    distance: F,
    mean: M,
    log_of: L,
    dc: C,
    opacity: Single,
    points: &[SfMPoint],
    gs: Vec<Gaussian3D<Single>>,
    i: int,
)
    requires
        call_ensures(
            gaussians_from_sfm::<F, M, L, C>,
            (distance, mean, log_of, dc, opacity, points),
            Some(gs),
        ),
        0 <= i < points@.len(),
    ensures
        gs.len() == points@.len(),
        gs[i].position[0] == points@[i].xyz[0].narrowed(),
        gs[i].position[1] == points@[i].xyz[1].narrowed(),
        gs[i].position[2] == points@[i].xyz[2].narrowed(),
        gs[i].opacity_logit == opacity,
        gs[i].rotation[0].bits == 0x3F80_0000,
        forall|j: int| 1 <= j < 4 ==> (#[trigger] gs[i].rotation[j]).bits == 0,
        gs[i].log_scale[1] == gs[i].log_scale[0],
        gs[i].log_scale[2] == gs[i].log_scale[0],
        call_ensures(dc, (points@[i].rgb[0],), gs[i].sh_coeffs[0]),
        call_ensures(dc, (points@[i].rgb[1],), gs[i].sh_coeffs[16]),
        call_ensures(dc, (points@[i].rgb[2],), gs[i].sh_coeffs[32]),
        forall|ch: int, k: int|
            0 <= ch < 3 && 1 <= k < 16 ==> (#[trigger] gs[i].sh_coeffs[16 * ch + k]).bits == 0,
{
    let scales = choose|scales: Seq<Single>| #[trigger]
        scales_of(distance, mean, points@, Some(scales)) && seeded(
            log_of,
            dc,
            opacity,
            points@,
            scales,
            gs@,
        );
    seeds_stand_at_their_points(log_of, dc, opacity, points@, scales, gs@);
    seeds_look_like_their_points(log_of, dc, opacity, points@, scales, gs@, i);
    assert(gs@[i].position[0] == points@[i].xyz[0].narrowed());
    assert(gs@[i].position[1] == points@[i].xyz[1].narrowed());
    assert(gs@[i].position[2] == points@[i].xyz[2].narrowed());
    let (a, b, c) = (0int, 1int, 2int);
    assert(call_ensures(dc, (points@[i].rgb[a],), gs@[i].sh_coeffs[16 * a]));
    assert(call_ensures(dc, (points@[i].rgb[b],), gs@[i].sh_coeffs[16 * b]));
    assert(call_ensures(dc, (points@[i].rgb[c],), gs@[i].sh_coeffs[16 * c]));
}

// ── parts ───────────────────────────────────────────────────────────────────────────────

/// The two parts of a Gaussian stand at the same offset on either side of it, turned and coloured
/// as it is; the first scale is narrower and the opacity fainter, within their bounds.
pub proof fn parts_share_their_gaussian<
    O: Fn(&Gaussian3D<Single>) -> [Single; 3],
    P: Fn(Single, Single) -> Single,
    M: Fn(Single, Single) -> Single,
    N: Fn(Single) -> Single,
    L: Fn(Single) -> Single,
    F: Fn(Single) -> Single,
    G: Fn(Single) -> Single,
>(
    offset: O,
    plus: P,
    minus: M,
    narrower: N,
    log_of: L,
    fainter: F,
    logit_of: G,
    val: spec_fn(Single) -> real,
    g: Gaussian3D<Single>,
    r: [Gaussian3D<Single>; 2],
) -> (o: [Single; 3])
    requires
        adds(plus, val),
        subtracts(minus, val),
        call_ensures(
            split_gaussian::<O, P, M, N, L, F, G>,
            (offset, plus, minus, narrower, log_of, fainter, logit_of, &g),
            r,
        ),
    ensures
        call_ensures(offset, (&g,), o),
        forall|i: int|
            0 <= i < 3 ==> val(#[trigger] r[0].position[i]) == val(g.position[i]) + val(o[i]),
        forall|i: int|
            0 <= i < 3 ==> val(#[trigger] r[1].position[i]) == val(g.position[i]) - val(o[i]),
        r[0].rotation == g.rotation && r[1].rotation == g.rotation,
        r[0].sh_coeffs == g.sh_coeffs && r[1].sh_coeffs == g.sh_coeffs,
        r[0].log_scale == r[1].log_scale && r[0].opacity_logit == r[1].opacity_logit,
        forall|i: int| 1 <= i < 3 ==> #[trigger] r[0].log_scale[i] == g.log_scale[i],
        exists|s: Single, t: Single| #[trigger]
            call_ensures(narrower, (g.log_scale[0],), s) && #[trigger] call_ensures(
                log_of,
                (t,),
                r[0].log_scale[0],
            ) && at_least(s, Single { bits: LEAST }, t),
        exists|s: Single, t: Single| #[trigger]
            call_ensures(fainter, (g.opacity_logit,), s) && #[trigger] call_ensures(
                logit_of,
                (t,),
                r[0].opacity_logit,
            ) && kept_between(s, Single { bits: LEAST }, Single { bits: MOST }, t),
{
    let o = choose|o: [Single; 3]| #[trigger]
        call_ensures(offset, (&g,), o) && super::densify::parted(
            plus,
            narrower,
            log_of,
            fainter,
            logit_of,
            g,
            o,
            r[0],
        ) && super::densify::parted(minus, narrower, log_of, fainter, logit_of, g, o, r[1]);
    parts_stand_on_either_side(
        plus,
        minus,
        narrower,
        log_of,
        fainter,
        logit_of,
        val,
        g,
        o,
        r[0],
        r[1],
    );
    o
}

/// A copy of a Gaussian is moved by the same amount along the first two axes, and is else the
/// same.
pub proof fn copies_are_moved_a_little<
    J: Fn(Single) -> Single,
    P: Fn(Single, Single) -> Single,
>(
    jitter: J,
    plus: P,
    val: spec_fn(Single) -> real,
    g: Gaussian3D<Single>,
    grad: Single,
    r: Gaussian3D<Single>,
) -> (d: Single)
    requires
        adds(plus, val),
        call_ensures(clone_gaussian::<J, P>, (jitter, plus, &g, grad), r),
    ensures
        call_ensures(jitter, (grad,), d),
        val(r.position[0]) == val(g.position[0]) + val(d),
        val(r.position[1]) == val(g.position[1]) + val(d),
        r.position[2] == g.position[2],
        r.rotation == g.rotation,
        r.log_scale == g.log_scale,
        r.opacity_logit == g.opacity_logit,
        r.sh_coeffs == g.sh_coeffs,
{
    let d = choose|d: Single| #[trigger]
        call_ensures(jitter, (grad,), d) && call_ensures(plus, (g.position[0], d), r.position[0])
            && call_ensures(plus, (g.position[1], d), r.position[1]);
    d
}

// ── training ────────────────────────────────────────────────────────────────────────────

/// Each of the 59 parameters is learned at the rate of its kind.
pub proof fn parameters_have_their_rates(cfg: TrainConfig, r: Vec<Single>, j: int)
    requires
        call_ensures(learning_rates, (&cfg,), r),
        0 <= j < 59,
    ensures
        r.len() == 59,
        0 <= j < 3 ==> r[j] == cfg.lr_position,
        3 <= j < 7 ==> r[j] == cfg.lr_rotation,
        7 <= j < 10 ==> r[j] == cfg.lr_scale,
        j == 10 ==> r[j] == cfg.lr_opacity,
        11 <= j < 14 ==> r[j] == cfg.lr_sh_dc,
        14 <= j < 59 ==> r[j] == cfg.lr_sh_rest,
{
}

/// A gradient is laid out as the parameters are.
pub proof fn gradients_are_laid_out_as_parameters(g: GaussianGrad, r: Vec<Single>, a: int)
    requires
        call_ensures(flatten_grad, (&g,), r),
    ensures
        r.len() == 59,
        0 <= a < 3 ==> r@[a] == g.d_position[a],
        0 <= a < 4 ==> r@[3 + a] == g.d_rotation[a],
        0 <= a < 3 ==> r@[7 + a] == g.d_log_scale[a],
        r@[10] == g.d_opacity_logit,
        0 <= a < 48 ==> r@[11 + a] == g.d_sh[a],
{
}

/// Checkpoints are saved every so many iterations, but never more often than every one, each
/// under its own name.
pub proof fn checkpoints_have_intervals_and_names(n: usize, i: usize, iter: usize, name: String)
    requires
        call_ensures(checkpoint_interval, (n,), i),
        call_ensures(checkpoint_name, (iter,), name),
    ensures
        n == 0 ==> i == 1,
        n > 0 ==> i == n,
        name@ == "ckpt_"@ + crate::num::text::padded_decimal(iter as nat, 6) + ".ply"@,
{
}

/// Images lie with the input if that is a directory of frames, and else where frames are extracted
/// to.
pub proof fn images_lie_with_the_frames<P>(input: P, extracted: P, a: P, b: P)
    requires
        call_ensures(image_dir::<P>, (true, input, extracted), a),
        call_ensures(image_dir::<P>, (false, input, extracted), b),
    ensures
        a == input,
        b == extracted,
{
}

/// The extent of a scene is the diagonal of a box whose corners are coordinates of Gaussians, in
/// each direction the outermost.
pub proof fn extents_span_all_centres<D: Fn([Single; 3], [Single; 3]) -> Single>(
    diagonal: D,
    gs: &[Gaussian3D<Single>],
    r: Single,
) -> (b: ([Single; 3], [Single; 3]))
    requires
        call_ensures(estimate_scene_extent::<D>, (diagonal, gs), r),
        gs@.len() > 0,
    ensures
        call_ensures(diagonal, b, r),
        forall|i: int, a: int|
            #![trigger gs@[i].position[a]]
            0 <= i < gs@.len() && 0 <= a < 3 && !gs@[i].position[a].nan() ==> b.0[a].value()
                <= gs@[i].position[a].value() <= b.1[a].value(),
{
    let (lo, hi) = choose|lo: [Single; 3], hi: [Single; 3]|
        {
            &&& #[trigger] call_ensures(diagonal, (lo, hi), r)
            &&& forall|i: int|
                0 <= i < 3 ==> #[trigger] lo[i] == super::train::least(gs@, i, gs@.len())
            &&& forall|i: int|
                0 <= i < 3 ==> #[trigger] hi[i] == super::train::greatest(gs@, i, gs@.len())
        };
    assert forall|i: int, a: int|
        #![trigger gs@[i].position[a]]
        0 <= i < gs@.len() && 0 <= a < 3 && !gs@[i].position[a].nan() implies lo[a].value()
        <= gs@[i].position[a].value() <= hi[a].value() by {
        super::train::bounds_hold_centres(gs@, a, gs@.len(), i);
    }
    (lo, hi)
}

/// A run on a video starts from the defaults: two frames in a second, no card, a checkpoint every
/// 5000 iterations, a black background, and a reconstruction of its own.
pub proof fn videos_are_run_by_default<P>(video: P, output: P, r: PipelineConfig<P>)
    requires
        call_ensures(PipelineConfig::<P>::from_video, (video, output), r),
    ensures
        r.input_video == video,
        r.output_dir == output,
        r.extract_fps.bits == 0x4000_0000,
        !r.use_gpu,
        !r.skip_sfm,
        r.save_interval == 5000,
        r.bg_color[0].bits == 0 && r.bg_color[1].bits == 0 && r.bg_color[2].bits == 0,
        r.train.num_iterations == 30_000,
        r.train.max_gaussians == 3_000_000,
{
}

/// A new state has room for so many Gaussians, and no moments and no gradients yet.
pub proof fn new_states_are_empty(n: usize, r: AdamState)
    requires
        call_ensures(AdamState::new, (n,), r),
    ensures
        r.t == 0,
        r.m1.len() == 59 * n && r.m2.len() == 59 * n,
        r.grad_accum.len() == n && r.grad_denom.len() == n,
        forall|c: int| 0 <= c < r.m1.len() ==> (#[trigger] r.m1[c]).bits == 0,
        forall|c: int| 0 <= c < r.m2.len() ==> (#[trigger] r.m2[c]).bits == 0,
        forall|i: int| 0 <= i < n ==> (#[trigger] r.grad_accum[i]).bits == 0,
        forall|i: int| 0 <= i < n ==> #[trigger] r.grad_denom[i] == 0,
{
}

} // verus!
