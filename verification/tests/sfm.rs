//! What COLMAP writes, and what is made of it.

use std::collections::HashMap;

use rgsplat::math::camera::{unit_matrix, Camera};
use rgsplat::num::single::{Double, Single};
use rgsplat::pipeline::sfm::cameras::{colmap_camera_params, parse_cameras_bin};
use rgsplat::pipeline::sfm::images::{parse_images_bin, ColmapImage};
use rgsplat::pipeline::sfm::plan::{
    colmap_args, ffmpeg_args, is_frame, reconstruction, ColmapStep,
};
use rgsplat::pipeline::sfm::points::{parse_points3d_bin, SfMPoint};
use rgsplat::pipeline::sfm::poses::{build_cameras, Pose};
use rgsplat::pipeline::sfm::seeds::{
    estimate_initial_scales, gaussians_from_sfm, initial_scale, scale_from, sort_by_x,
};
use rgsplat::pipeline::sfm::SfmFault;

fn bits(x: f32) -> Single {
    Single { bits: x.to_bits() }
}

fn float(x: Single) -> f32 {
    f32::from_bits(x.bits)
}

fn bits64(x: f64) -> Double {
    Double { bits: x.to_bits() }
}

fn float64(x: Double) -> f64 {
    f64::from_bits(x.bits)
}

// ── points ────────────────────────────────────────────────────────────────────

fn point_bytes(id: u64, xyz: [f64; 3], rgb: [u8; 3], track: u64) -> Vec<u8> {
    let mut d = id.to_le_bytes().to_vec();
    for v in xyz {
        d.extend(v.to_le_bytes());
    }
    d.extend(rgb);
    d.extend(0.25f64.to_le_bytes());
    d.extend(track.to_le_bytes());
    for i in 0..track {
        d.extend((i as u32).to_le_bytes());
        d.extend(99u32.to_le_bytes());
    }
    d
}

#[test]
fn points_are_read_past_their_tracks() {
    let mut data = 2u64.to_le_bytes().to_vec();
    data.extend(point_bytes(7, [1.0, -2.0, 3.5], [10, 20, 30], 3));
    data.extend(point_bytes(8, [0.5, 0.0, 0.0], [1, 2, 3], 0));
    let p = parse_points3d_bin(&data).unwrap();
    assert_eq!(p.len(), 2);
    assert_eq!((p[0].id, p[0].track_length, p[0].rgb), (7, 3, [10, 20, 30]));
    assert_eq!(p[0].xyz.map(float64), [1.0, -2.0, 3.5]);
    assert_eq!(float64(p[0].error), 0.25);
    assert_eq!((p[1].id, p[1].track_length), (8, 0));
}

#[test]
fn points_that_end_early_are_refused() {
    assert_eq!(parse_points3d_bin(&[]).err(), Some(SfmFault::End));
    let mut data = 1u64.to_le_bytes().to_vec();
    let p = point_bytes(7, [1.0, -2.0, 3.5], [10, 20, 30], 1);
    data.extend(&p[..p.len() - 1]);
    assert_eq!(parse_points3d_bin(&data).err(), Some(SfmFault::End));
    assert_eq!(parse_points3d_bin(&0u64.to_le_bytes()).unwrap().len(), 0);
}

#[test]
fn counts_beyond_memory_are_refused() {
    assert_eq!(
        parse_points3d_bin(&u64::MAX.to_le_bytes()).err(),
        Some(SfmFault::CapacityOverflow)
    );
    assert_eq!(
        parse_images_bin(&u64::MAX.to_le_bytes()).err(),
        Some(SfmFault::CapacityOverflow)
    );
}

// ── cameras ───────────────────────────────────────────────────────────────────

fn camera_bytes(id: u32, model: i32, size: (u64, u64), params: &[f64]) -> Vec<u8> {
    let mut d = id.to_le_bytes().to_vec();
    d.extend(model.to_le_bytes());
    d.extend(size.0.to_le_bytes());
    d.extend(size.1.to_le_bytes());
    for p in params {
        d.extend(p.to_le_bytes());
    }
    d
}

#[test]
fn models_have_their_parameters() {
    let counts: Vec<usize> = (-1..7).map(colmap_camera_params).collect();
    assert_eq!(counts, [4, 3, 4, 4, 5, 8, 4, 4]);
}

#[test]
fn intrinsics_depend_on_the_model() {
    let mut data = 3u64.to_le_bytes().to_vec();
    data.extend(camera_bytes(1, 1, (640, 480), &[500.0, 501.0, 320.0, 240.0]));
    data.extend(camera_bytes(2, 2, (0, 480), &[400.0, 300.0, 200.0, 0.1]));
    data.extend(camera_bytes(9, 0, (10, 20), &[1.0, 2.0, 3.0]));
    let cams = parse_cameras_bin(&data, 1920, 1080).unwrap();
    assert_eq!(cams.len(), 3);
    let c = &cams[&1];
    assert_eq!((c.width, c.height), (640, 480));
    assert_eq!([c.fx, c.fy, c.cx, c.cy].map(float), [500.0, 501.0, 320.0, 240.0]);
    let c = &cams[&2];
    assert_eq!((c.width, c.height), (1920, 1080));
    assert_eq!([c.fx, c.fy, c.cx, c.cy].map(float), [400.0, 400.0, 300.0, 200.0]);
    assert!(c.c2w == unit_matrix() && c.image_path.is_none());
    let c = &cams[&9];
    assert_eq!([c.fx, c.fy, c.cx, c.cy].map(float), [1.0, 1.0, 2.0, 3.0]);
}

#[test]
fn last_camera_of_an_id_counts() {
    let mut data = 2u64.to_le_bytes().to_vec();
    data.extend(camera_bytes(1, 0, (1, 1), &[1.0, 1.0, 1.0]));
    data.extend(camera_bytes(1, 0, (2, 2), &[2.0, 2.0, 2.0]));
    let cams = parse_cameras_bin(&data, 0, 0).unwrap();
    assert_eq!(cams.len(), 1);
    assert_eq!(cams[&1].width, 2);
    let short = parse_cameras_bin(&data[..data.len() - 1], 0, 0);
    assert_eq!(short.err(), Some(SfmFault::End));
}

// ── images ────────────────────────────────────────────────────────────────────

fn image_bytes(id: u32, camera: u32, name: &[u8], observations: u64) -> Vec<u8> {
    let mut d = id.to_le_bytes().to_vec();
    for v in [1.0f64, 0.0, 0.0, 0.0, 4.0, 5.0, 6.0] {
        d.extend(v.to_le_bytes());
    }
    d.extend(camera.to_le_bytes());
    d.extend(name);
    d.push(0);
    d.extend(observations.to_le_bytes());
    for _ in 0..observations * 24 {
        d.push(0xAA);
    }
    d
}

#[test]
fn images_are_read_past_their_observations() {
    let mut data = 2u64.to_le_bytes().to_vec();
    data.extend(image_bytes(3, 1, "größe.png".as_bytes(), 2));
    data.extend(image_bytes(4, 2, b"", 0));
    let i = parse_images_bin(&data).unwrap();
    assert_eq!(i.len(), 2);
    assert_eq!((i[0].image_id, i[0].camera_id, i[0].name.as_str()), (3, 1, "größe.png"));
    assert_eq!(i[0].qvec.map(float64), [1.0, 0.0, 0.0, 0.0]);
    assert_eq!(i[0].tvec.map(float64), [4.0, 5.0, 6.0]);
    assert_eq!((i[1].image_id, i[1].name.as_str()), (4, ""));
}

#[test]
fn names_that_are_not_text_are_mended() {
    let mut data = 1u64.to_le_bytes().to_vec();
    data.extend(image_bytes(3, 1, b"a\xffb", 0));
    assert_eq!(parse_images_bin(&data).unwrap()[0].name, "a\u{FFFD}b");
}

#[test]
fn names_must_end() {
    let mut data = 1u64.to_le_bytes().to_vec();
    let i = image_bytes(3, 1, b"name", 0);
    data.extend(&i[..i.len() - 9]);
    assert_eq!(parse_images_bin(&data).err(), Some(SfmFault::End));
}

// ── poses ─────────────────────────────────────────────────────────────────────

fn registered(camera_id: u32, name: &str) -> ColmapImage {
    ColmapImage {
        image_id: 1,
        qvec: [1.0, 0.0, 0.0, 0.0].map(bits64),
        tvec: [4.0, 5.0, 6.0].map(bits64),
        camera_id,
        name: name.to_string(),
    }
}

#[test]
fn images_of_unknown_cameras_are_left_out() {
    let mut intrinsics = HashMap::new();
    intrinsics.insert(
        5,
        Camera {
            width: 8,
            height: 6,
            fx: bits(1.0),
            fy: bits(2.0),
            cx: bits(3.0),
            cy: bits(4.0),
            c2w: unit_matrix(),
            distortion: [bits(0.0); 3],
            image_path: None,
        },
    );
    let pose = |q: [Single; 4], t: [Single; 3]| Pose {
        rotation: [[q[0], q[1], q[2]], [q[1], q[0], q[3]], [q[2], q[3], q[0]]],
        center: t.map(|v| bits(-float(v))),
    };
    let images = [registered(5, "a.png"), registered(6, "b.png"), registered(5, "c.png")];
    let cams = build_cameras(pose, &images, &intrinsics);
    assert_eq!(cams.len(), 2);
    assert_eq!(cams[0].image_path.as_deref(), Some("a.png"));
    assert_eq!(cams[1].image_path.as_deref(), Some("c.png"));
    assert_eq!((cams[0].width, float(cams[0].fy)), (8, 2.0));
    let m = cams[0].c2w.map(|row| row.map(float));
    assert_eq!(m[0], [1.0, 0.0, 0.0, -4.0]);
    assert_eq!(m[1], [0.0, 1.0, 0.0, -5.0]);
    assert_eq!(m[3], [0.0, 0.0, 0.0, 1.0]);
}

// ── seeds ─────────────────────────────────────────────────────────────────────

fn at(x: f64, y: f64) -> SfMPoint {
    SfMPoint {
        id: 0,
        xyz: [x, y, 0.0].map(bits64),
        rgb: [0, 128, 255],
        error: bits64(0.0),
        track_length: 0,
    }
}

fn distance(a: [Double; 3], b: [Double; 3]) -> Double {
    let mut sum = 0.0;
    for i in 0..3 {
        let d = float64(a[i]) - float64(b[i]);
        sum += d * d;
    }
    bits64(sum.sqrt())
}

fn mean(d: &Vec<Double>) -> Single {
    bits((d.iter().map(|&v| float64(v)).sum::<f64>() / d.len() as f64) as f32)
}

#[test]
fn points_are_sorted_along_x() {
    let points = [at(3.0, 0.0), at(-1.0, 0.0), at(2.0, 0.0), at(-1.0, 5.0)];
    assert_eq!(sort_by_x(&points), vec![1, 3, 2, 0]);
}

#[test]
fn scale_is_the_mean_of_the_three_nearest() {
    let d = [5.0, 1.0, 4.0, 3.0].map(bits64);
    assert_eq!(scale_from(mean, &d).map(float), Some(8.0 / 3.0));
    assert_eq!(scale_from(mean, &d[..2]).map(float), Some(3.0));
    assert_eq!(scale_from(mean, &[]).map(float), Some(0.01));
    assert!(scale_from(mean, &[1.0, f64::NAN].map(bits64)).is_none());
}

#[test]
fn scales_follow_the_neighbours() {
    let points = [at(0.0, 0.0), at(1.0, 0.0), at(3.0, 0.0), at(7.0, 0.0)];
    let scales = estimate_initial_scales(distance, mean, &points).unwrap();
    let want = [11.0 / 3.0, 3.0, 3.0, 17.0 / 3.0f32];
    for (i, s) in scales.iter().enumerate() {
        assert!((float(*s) - want[i]).abs() < 1e-6);
    }
    let sorted = sort_by_x(&points);
    let one = initial_scale(distance, mean, &points, &sorted, 2);
    assert_eq!(one, Some(scales[2]));
}

#[test]
fn every_point_has_its_neighbours() {
    let points = [at(0.0, 0.0), at(1.0, 0.0), at(3.0, 0.0)];
    let scales = estimate_initial_scales(distance, mean, &points).unwrap();
    assert_eq!(scales.iter().map(|&s| float(s)).collect::<Vec<_>>(), [2.0, 1.5, 2.5]);
    // At either end of a long row there are three others too.
    let row: Vec<SfMPoint> = (0..80).map(|i| at(i as f64, 0.0)).collect();
    let scales = estimate_initial_scales(distance, mean, &row).unwrap();
    assert_eq!([float(scales[0]), float(scales[79])], [2.0, 2.0]);
}

#[test]
fn only_a_window_is_searched() {
    // Two rows of points with nothing between; the far row is nearer along x only.
    let mut points: Vec<SfMPoint> = (0..120).map(|i| at(i as f64, 0.0)).collect();
    points.push(at(0.0, 0.5));
    let scales = estimate_initial_scales(distance, mean, &points).unwrap();
    // Neighbours at 0.5, 1 and 2.
    assert!((float(scales[0]) - 3.5 / 3.0).abs() < 1e-6);
    assert!((float(scales[60]) - 4.0 / 3.0).abs() < 1e-6);
    // Of sixty points the last looks back over 25, the first ahead over 49.
    let row = |twins: [usize; 2]| -> Vec<SfMPoint> {
        (0..60).map(|i| at(i as f64 / 1024.0, if twins.contains(&i) { 0.0 } else { 1000.0 })).collect()
    };
    let last = |twin: usize| {
        float(estimate_initial_scales(distance, mean, &row([twin, 59])).unwrap()[59])
    };
    let first = |twin: usize| {
        float(estimate_initial_scales(distance, mean, &row([twin, 0])).unwrap()[0])
    };
    assert!(last(34) < 667.0 && last(33) > 999.0);
    assert!(first(49) < 667.0 && first(50) > 999.0);
}

fn seeds(points: &[SfMPoint]) -> Option<Vec<rgsplat::math::Gaussian3D<Single>>> {
    gaussians_from_sfm(
        distance,
        mean,
        |s: Single| bits(float(s).ln()),
        |b: u8| bits(b as f32),
        bits(-2.5),
        points,
    )
}

#[test]
fn points_become_gaussians() {
    let points = [at(0.0, 0.0), at(1.0, 0.0)];
    let g = seeds(&points).unwrap();
    assert_eq!(g.len(), 2);
    assert_eq!(g[1].position.map(float), [1.0, 0.0, 0.0]);
    assert_eq!([g[0].sh_coeffs[0], g[0].sh_coeffs[16], g[0].sh_coeffs[32]].map(float), [0.0, 128.0, 255.0]);
    assert_eq!(g[0].log_scale.map(float), [0.0; 3]);
    assert_eq!(float(g[0].opacity_logit), -2.5);
    assert_eq!(g[0].rotation.map(float), [1.0, 0.0, 0.0, 0.0]);
    assert_eq!(seeds(&[]).unwrap().len(), 0);
    // Points on top of each other have a distance of zero.
    let g = seeds(&[at(0.0, 0.0), at(0.0, 0.0)]).unwrap();
    assert_eq!(g[1].log_scale.map(float), [1e-4f32.ln(); 3]);
}

#[test]
fn points_that_cannot_be_compared_are_refused() {
    assert!(seeds(&[at(0.0, 0.0), at(f64::NAN, 0.0)]).is_none());
}

// ── commands ──────────────────────────────────────────────────────────────────

#[test]
fn frames_are_asked_of_ffmpeg() {
    assert_eq!(
        ffmpeg_args("v.mp4", "2", "out/frame_%06d.png"),
        [
            "-i", "v.mp4", "-vf", "fps=2", "-qscale:v", "1", "-f", "image2",
            "out/frame_%06d.png", "-y", "-loglevel", "error",
        ]
    );
}

#[test]
fn frames_end_in_png() {
    assert!(is_frame("frame_000001.png"));
    assert!(is_frame("a.b.png"));
    assert!(!is_frame("frame.jpg"));
    assert!(!is_frame("png"));
    assert!(!is_frame(".png"));
    assert!(!is_frame("frame.PNG"));
}

#[test]
fn reconstruction_has_three_steps() {
    let steps = reconstruction();
    assert_eq!(steps, [ColmapStep::Features, ColmapStep::Matching, ColmapStep::Mapping]);
    let args = |s: ColmapStep, gpu: bool| colmap_args(s, "db", "in", "sp", gpu);
    assert_eq!(
        args(ColmapStep::Features, true),
        [
            "feature_extractor", "--database_path", "db", "--image_path", "in",
            "--ImageReader.single_camera", "1", "--SiftExtraction.use_gpu", "1",
        ]
    );
    assert_eq!(
        args(ColmapStep::Matching, false),
        ["exhaustive_matcher", "--database_path", "db", "--SiftMatching.use_gpu", "0"]
    );
    assert_eq!(
        args(ColmapStep::Mapping, false),
        ["mapper", "--database_path", "db", "--image_path", "in", "--output_path", "sp"]
    );
}
