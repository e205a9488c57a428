//! Configuration, the stages of a run, training and densification.

use rgsplat::cpu::render::GaussianGrad;
use rgsplat::math::Gaussian3D;
use rgsplat::num::single::Single;
use rgsplat::pipeline::color::{parse_rgb, ColorFault};
use rgsplat::pipeline::densify::{
    clone_gaussian, densify_and_prune, reset_opacities, split_gaussian, Limits,
};
use rgsplat::pipeline::optimizer::{
    adam_step, apply_update_to_gaussian, flatten_grad, learning_rates, AdamState, TrainConfig,
};
use rgsplat::pipeline::run::{
    image_dir, proceed, start, Action, Outcome, PipelineConfig, RunFault,
};
use rgsplat::pipeline::train::{
    advance, checkpoint_interval, checkpoint_name, chores, estimate_scene_extent, CameraPicker,
    Schedule,
};

fn bits(x: f32) -> Single {
    Single { bits: x.to_bits() }
}

fn float(x: Single) -> f32 {
    f32::from_bits(x.bits)
}

fn gaussian(position: [f32; 3]) -> Gaussian3D<Single> {
    Gaussian3D::new(position.map(bits))
}

// ── configuration ─────────────────────────────────────────────────────────────

#[test]
fn defaults_are_the_documented_ones() {
    let c = TrainConfig::default();
    assert_eq!(c.num_iterations, 30_000);
    assert_eq!(
        [c.lr_position, c.lr_rotation, c.lr_scale, c.lr_opacity, c.lr_sh_dc, c.lr_sh_rest].map(float),
        [0.00016, 0.001, 0.005, 0.05, 0.0025, 0.000125]
    );
    assert_eq!([c.beta1, c.beta2, c.eps].map(float), [0.9, 0.999, 1e-8]);
    assert_eq!((c.densify_from_iter, c.densify_until_iter), (500, 15_000));
    assert_eq!(float(c.densify_grad_threshold), 0.0002);
    assert_eq!(c.opacity_reset_iter, 3000);
    assert_eq!(float(c.prune_opacity_thresh), 0.005);
    assert_eq!(c.max_gaussians, 3_000_000);
}

#[test]
fn videos_are_sampled_twice_a_second() {
    let c = PipelineConfig::from_video("v.mp4", "out");
    assert_eq!((c.input_video, c.output_dir), ("v.mp4", "out"));
    assert_eq!(float(c.extract_fps), 2.0);
    assert!(!c.use_gpu && !c.skip_sfm);
    assert_eq!(c.save_interval, 5000);
    assert_eq!(c.bg_color.map(float), [0.0; 3]);
    assert_eq!(c.train.num_iterations, 30_000);
}

fn number(s: &str) -> Result<Single, String> {
    s.parse::<f32>().map(bits).map_err(|e| e.to_string())
}

#[test]
fn colours_are_three_numbers() {
    let c = parse_rgb(number, "0.5, 1 ,\t0").unwrap();
    assert_eq!(c.map(float), [0.5, 1.0, 0.0]);
    assert!(matches!(parse_rgb(number, "0,0"), Err(ColorFault::Count)));
    assert!(matches!(parse_rgb(number, "0,0,0,0"), Err(ColorFault::Count)));
    let e = parse_rgb(number, "0,x,y");
    assert!(matches!(e, Err(ColorFault::Number(m)) if m == "invalid float literal"));
    let e = parse_rgb(number, "0,,0,0,0");
    assert!(matches!(e, Err(ColorFault::Number(m)) if m == "cannot parse float from empty string"));
}

// ── stages ────────────────────────────────────────────────────────────────────

#[test]
fn runs_go_through_their_stages() {
    let mut seen = vec![start(false, false)];
    for o in [
        Outcome::Extracted(12),
        Outcome::Reconstructed,
        Outcome::Loaded(3),
        Outcome::Trained,
        Outcome::Saved,
    ] {
        seen.push(proceed(o).unwrap());
    }
    assert_eq!(
        seen,
        [
            Action::Extract,
            Action::Reconstruct,
            Action::Load,
            Action::Train,
            Action::Save,
            Action::Finish,
        ]
    );
    assert_eq!(start(false, true), Action::Reconstruct);
    assert_eq!(start(true, false), Action::Load);
    assert_eq!(start(true, true), Action::Load);
}

#[test]
fn empty_stages_end_a_run() {
    assert_eq!(proceed(Outcome::Extracted(0)), Err(RunFault::NoFrames));
    assert_eq!(proceed(Outcome::Loaded(0)), Err(RunFault::NoCameras));
}

#[test]
fn given_frames_are_used_where_they_lie() {
    assert_eq!(image_dir(true, "in", "out/frames"), "in");
    assert_eq!(image_dir(false, "in", "out/frames"), "out/frames");
}

// ── training ──────────────────────────────────────────────────────────────────

/// The first cameras of seven.
const PICKED: [usize; 4] = [5, 4, 0, 3];

#[test]
fn cameras_are_picked_by_xorshift() {
    let mut p = CameraPicker::new();
    let picked: Vec<usize> = (0..4).map(|_| p.next(7)).collect();
    assert_eq!(picked, PICKED);
    let mut p = CameraPicker::new();
    assert!((0..50).all(|_| p.next(1) == 0));
}

#[test]
fn schedule_ends_after_the_last_iteration() {
    let mut cfg = TrainConfig::default();
    cfg.num_iterations = 2;
    let mut s = Schedule::new();
    assert_eq!(s.next(&cfg, 7), Some((0, PICKED[0])));
    assert_eq!(s.next(&cfg, 7), Some((1, PICKED[1])));
    assert_eq!(s.next(&cfg, 7), None);
    assert_eq!(s.next(&cfg, 7), None);
}

#[test]
fn chores_come_at_their_intervals() {
    let cfg = TrainConfig::default();
    let c = chores(0, &cfg, 5000);
    assert!(!c.densify && !c.reset_opacities && !c.checkpoint && c.report);
    let c = chores(500, &cfg, 5000);
    assert!(c.densify && !c.reset_opacities && !c.checkpoint && c.report);
    assert!(!chores(400, &cfg, 5000).densify);
    assert!(!chores(550, &cfg, 5000).densify);
    let c = chores(15_000, &cfg, 5000);
    assert!(c.densify && c.reset_opacities && c.checkpoint && c.report);
    let c = chores(15_100, &cfg, 5000);
    assert!(!c.densify && !c.reset_opacities && !c.checkpoint);
    assert!(!chores(7, &cfg, 5000).report);
    assert_eq!(checkpoint_interval(0), 1);
    assert_eq!(checkpoint_interval(9), 9);
}

#[test]
fn checkpoints_are_numbered() {
    assert_eq!(checkpoint_name(5000), "ckpt_005000.ply");
    assert_eq!(checkpoint_name(0), "ckpt_000000.ply");
    assert_eq!(checkpoint_name(12_345_678), "ckpt_12345678.ply");
}

#[test]
fn extent_is_the_diagonal_of_the_bounds() {
    let diagonal = |lo: [Single; 3], hi: [Single; 3]| {
        let d: Vec<f32> = (0..3).map(|i| float(hi[i]) - float(lo[i])).collect();
        bits((d[0] * d[0] + d[1] * d[1] + d[2] * d[2]).sqrt())
    };
    let gs = [gaussian([-1.0, 2.0, 0.0]), gaussian([1.0, -2.0, 4.0]), gaussian([0.0, f32::NAN, 1.0])];
    assert_eq!(float(estimate_scene_extent(diagonal, &gs)), 6.0);
    assert_eq!(float(estimate_scene_extent(diagonal, &[])), 1.0);
}

// ── optimizer ─────────────────────────────────────────────────────────────────

#[test]
fn layouts_agree_on_every_parameter() {
    let mut g = GaussianGrad::default();
    g.d_position = [1.0, 2.0, 3.0].map(bits);
    g.d_rotation = [4.0, 5.0, 6.0, 7.0].map(bits);
    g.d_log_scale = [8.0, 9.0, 10.0].map(bits);
    g.d_opacity_logit = bits(11.0);
    for k in 0..48 {
        g.d_sh[k] = bits(12.0 + k as f32);
    }
    let flat = flatten_grad(&g);
    assert_eq!(flat.len(), 59);
    assert!((0..59).all(|j| float(flat[j]) == 1.0 + j as f32));

    let rates: Vec<f32> = learning_rates(&TrainConfig::default()).into_iter().map(float).collect();
    assert_eq!(rates.len(), 59);
    assert_eq!(rates[..3], [0.00016; 3]);
    assert_eq!(rates[3..7], [0.001; 4]);
    assert_eq!(rates[7..10], [0.005; 3]);
    assert_eq!(rates[10], 0.05);
    assert_eq!(rates[11..14], [0.0025; 3]);
    assert_eq!(rates[14..], [0.000125; 45]);

    let minus = |a: Single, b: Single| bits(float(a) - float(b));
    for j in 0..59 {
        let mut x = gaussian([0.0; 3]);
        let before = x;
        apply_update_to_gaussian(minus, &mut x, j, bits(0.5));
        assert_eq!(float(x.param(j)), float(before.param(j)) - 0.5);
        assert!((0..59).all(|i| i == j || x.param(i) == before.param(i)));
    }
}

#[test]
fn state_only_grows() {
    let mut s = AdamState::new(2);
    assert_eq!((s.m1.len(), s.m2.len(), s.grad_accum.len(), s.t), (118, 118, 2, 0));
    s.m1[5] = bits(3.0);
    s.resize(4);
    assert_eq!((s.m1.len(), s.grad_denom.len()), (236, 4));
    assert_eq!(float(s.m1[5]), 3.0);
    assert_eq!(float(s.m1[200]), 0.0);
    s.resize(1);
    assert_eq!(s.m1.len(), 236);
}

#[test]
fn first_step_has_the_size_of_the_rate() {
    let cfg = TrainConfig::default();
    let mut gs = vec![gaussian([0.0; 3]), gaussian([5.0; 3])];
    let mut state = AdamState::new(2);
    let mut grad = GaussianGrad::default();
    grad.d_position[0] = bits(2.0);
    adam_step(
        |t: usize, g: Single, lr: Single, m1: Single, m2: Single| {
            let g = float(g);
            let m1 = 0.9 * float(m1) + 0.1 * g;
            let m2 = 0.999 * float(m2) + 0.001 * g * g;
            let hat1 = m1 / (1.0 - 0.9f32.powi(t as i32));
            let hat2 = m2 / (1.0 - 0.999f32.powi(t as i32));
            (bits(m1), bits(m2), bits(float(lr) * hat1 / (hat2.sqrt() + 1e-8)))
        },
        |a: Single, b: Single| bits(float(a) - float(b)),
        |a: Single, b: Single| bits(float(a) + float(b)),
        |q: [Single; 4]| bits(q.iter().map(|&v| float(v) * float(v)).sum::<f32>().sqrt()),
        |q: [Single; 4], n: Single| q.map(|v| bits(float(v) / float(n))),
        &mut gs,
        &[grad],
        &mut state,
        &cfg,
    );
    assert!((float(gs[0].position[0]) + 0.00016).abs() < 1e-6);
    // One gradient reaches one Gaussian.
    assert_eq!(gs[1].position.map(float), [5.0; 3]);
    assert_eq!(state.grad_denom, [1, 0]);
    assert_eq!(float(state.m1[0]), 0.2);
}

// ── densification ─────────────────────────────────────────────────────────────

fn plus(a: Single, b: Single) -> Single {
    bits(float(a) + float(b))
}

fn parts(g: &Gaussian3D<Single>) -> [Gaussian3D<Single>; 2] {
    split_gaussian(
        |g: &Gaussian3D<Single>| [bits(0.5), g.rotation[0], g.rotation[1]],
        plus,
        |a: Single, b: Single| bits(float(a) - float(b)),
        |v: Single| bits(float(v) - 0.25),
        |v: Single| bits(float(v) * 2.0),
        |v: Single| bits(float(v) * 0.5),
        |v: Single| bits(-float(v)),
        g,
    )
}

fn grow(gs: &mut Vec<Gaussian3D<Single>>, state: &mut AdamState, cfg: &TrainConfig) {
    let limits = Limits { huge: bits(1.0), large: bits(0.1) };
    densify_and_prune(
        |sum: Single, n: u32| bits(float(sum) / n as f32),
        |g: &Gaussian3D<Single>| g.opacity_logit,
        |g: &Gaussian3D<Single>| g.log_scale,
        parts,
        |g: &Gaussian3D<Single>, v: Single| clone_gaussian(|v: Single| v, plus, g, v),
        gs,
        state,
        cfg,
        &limits,
    );
}

fn measured(x: f32, opacity: f32, size: f32) -> Gaussian3D<Single> {
    let mut g = gaussian([x, 0.0, 0.0]);
    g.opacity_logit = bits(opacity);
    g.log_scale = [bits(size); 3];
    g
}

fn xs(gs: &[Gaussian3D<Single>]) -> Vec<f32> {
    gs.iter().map(|g| float(g.position[0])).collect()
}

#[test]
fn gaussians_are_pruned_split_and_cloned() {
    let cfg = TrainConfig::default();
    let mut gs = vec![
        measured(0.0, 0.001, 0.05),
        measured(1.0, 0.5, 2.0),
        measured(2.0, 0.5, 0.5),
        measured(3.0, 0.5, 0.05),
        measured(4.0, 0.5, 0.05),
    ];
    let mut state = AdamState::new(5);
    for i in 0..4 {
        state.grad_accum[i] = bits(1.0);
        state.grad_denom[i] = 4;
    }
    grow(&mut gs, &mut state, &cfg);
    assert_eq!(xs(&gs), [3.0, 4.0, 2.5, 1.5, 3.25]);
    assert_eq!(state.grad_denom, [0; 5]);
    assert!(state.grad_accum.iter().all(|&v| float(v) == 0.0));
    assert_eq!(state.m1.len(), 5 * 59);
}

#[test]
fn parts_stand_on_either_side() {
    let mut g = measured(2.0, 0.5, 1.0);
    g.sh_coeffs[5] = bits(9.0);
    let [a, b] = parts(&g);
    assert_eq!(a.position.map(float), [2.5, 1.0, 0.0]);
    assert_eq!(b.position.map(float), [1.5, -1.0, 0.0]);
    for c in [a, b] {
        assert_eq!(c.log_scale.map(float), [1.5, 1.0, 1.0]);
        assert_eq!(float(c.opacity_logit), -0.25);
        assert_eq!(c.rotation, g.rotation);
        assert_eq!(c.sh_coeffs, g.sh_coeffs);
    }
}

#[test]
fn parts_are_neither_too_small_nor_too_opaque() {
    let [a, _] = parts(&measured(0.0, 9.0, -5.0));
    assert_eq!(float(a.log_scale[0]), 2e-6);
    assert_eq!(float(a.opacity_logit), -0.999);
    let [a, _] = parts(&measured(0.0, -9.0, 0.0));
    assert_eq!(float(a.opacity_logit), -1e-6);
}

#[test]
fn the_largest_scale_decides() {
    let cfg = TrainConfig::default();
    let mut wide = measured(1.0, 0.5, 0.05);
    wide.log_scale[2] = bits(2.0);
    let mut gs = vec![measured(0.0, 0.5, 0.05), wide];
    let mut state = AdamState::new(2);
    grow(&mut gs, &mut state, &cfg);
    assert_eq!(xs(&gs), [0.0]);
}

#[test]
fn copies_are_shifted_in_two_directions() {
    let g = gaussian([1.0, 2.0, 3.0]);
    let c = clone_gaussian(|v: Single| bits(float(v) * 2.0), plus, &g, bits(0.25));
    assert_eq!(c.position.map(float), [1.5, 2.5, 3.0]);
    assert!((3..59).all(|j| c.param(j) == g.param(j)));
}

#[test]
fn growth_stops_at_the_limit() {
    let mut cfg = TrainConfig::default();
    cfg.max_gaussians = 4;
    let mut gs = vec![measured(0.0, 0.5, 0.05); 3];
    let mut state = AdamState::new(3);
    for i in 0..3 {
        state.grad_accum[i] = bits(1.0);
        state.grad_denom[i] = 1;
    }
    grow(&mut gs, &mut state, &cfg);
    assert_eq!(gs.len(), 4);
    assert_eq!(state.grad_accum.len(), 4);
}

#[test]
fn resetting_only_touches_opacities() {
    let mut gs = vec![measured(1.0, 3.0, 0.5), measured(2.0, 0.004, 0.5)];
    reset_opacities(
        |v: Single| bits(float(v) * 0.5),
        |a: Single| bits(float(a) + 1.0),
        &mut gs,
    );
    assert_eq!(float(gs[0].opacity_logit), 1.01);
    assert_eq!(float(gs[1].opacity_logit), 1.002);
    assert_eq!(xs(&gs), [1.0, 2.0]);
    assert_eq!(float(gs[0].log_scale[1]), 0.5);
}

#[test]
fn an_iteration_steps_then_densifies_then_resets() {
    let mut cfg = TrainConfig::default();
    cfg.densify_from_iter = 0;
    cfg.opacity_reset_iter = 200;
    let run = |iter: usize| {
        let mut gs = vec![measured(1.0, 0.5, 0.05), measured(2.0, 0.001, 0.05)];
        let mut state = AdamState::new(2);
        let mut grad = GaussianGrad::default();
        grad.d_position[0] = bits(1.0);
        grad.screen_grad_norm = bits(0.5);
        let due = advance(
            |_: usize, g: Single, _: Single, _: Single, _: Single| (g, g, g),
            |v: Single, u: Single| bits(float(v) - float(u)),
            plus,
            |_: [Single; 4]| bits(1.0),
            |q: [Single; 4], _: Single| q,
            |sum: Single, n: u32| bits(float(sum) / n as f32),
            |g: &Gaussian3D<Single>| g.opacity_logit,
            |g: &Gaussian3D<Single>| g.log_scale,
            parts,
            |g: &Gaussian3D<Single>, v: Single| clone_gaussian(|v: Single| v, plus, g, v),
            |v: Single| v,
            |a: Single| a,
            &mut gs,
            &[grad, grad],
            &mut state,
            &cfg,
            &Limits { huge: bits(1.0), large: bits(0.1) },
            iter,
            1000,
        );
        (gs, state, due)
    };
    let (gs, state, due) = run(1);
    assert!(!due.densify && !due.reset_opacities && !due.checkpoint && !due.report);
    assert_eq!(xs(&gs), [0.0, 1.0]);
    assert_eq!((state.t, state.grad_denom), (1, vec![1, 1]));
    let (gs, state, due) = run(100);
    assert!(due.densify && !due.reset_opacities && !due.checkpoint && due.report);
    assert_eq!(xs(&gs), [0.0, 0.5]);
    assert_eq!(state.grad_denom, [0, 0]);
    assert_eq!(float(gs[0].opacity_logit), 0.5);
    let (gs, _, due) = run(1000);
    assert!(due.densify && due.reset_opacities && due.checkpoint);
    assert_eq!(xs(&gs), [0.0, 0.5]);
    assert_eq!(float(gs[1].opacity_logit), 0.01);
}
