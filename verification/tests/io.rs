//! Files: PLY, `.splat`, images and `transforms.json`.

use image::{DynamicImage, Rgba, RgbaImage};

use rgsplat::io::cameras::{
    load_transforms_json, opengl_to_opencv_c2w, resolve_path, save_transforms_json, Frame,
    Transforms,
};
use rgsplat::io::images::{linear_image, load_target, TargetImage};
use rgsplat::io::ply::reader::load_ply;
use rgsplat::io::ply::writer::save_ply;
use rgsplat::io::ply::{PlyError, PlyFault};
use rgsplat::io::splat::save_splat;
use rgsplat::math::camera::{unit_matrix, Camera};
use rgsplat::math::Gaussian3D;
use rgsplat::num::single::Single;

fn bits(x: f32) -> Single {
    Single { bits: x.to_bits() }
}

fn float(x: Single) -> f32 {
    f32::from_bits(x.bits)
}

fn parse(word: &str) -> Single {
    bits(word.parse::<f32>().unwrap_or(0.0))
}

fn gaussian(position: [f32; 3]) -> Gaussian3D<Single> {
    Gaussian3D::new(position.map(bits))
}

fn read(data: &[u8]) -> Result<Vec<Gaussian3D<Single>>, PlyError> {
    load_ply(data, parse)
}

// ── PLY ───────────────────────────────────────────────────────────────────────

#[test]
fn ply_roundtrip_preserves_parameters() {
    let mut g = gaussian([1.0, -2.0, 3.5]);
    g.opacity_logit = bits(0.42);
    g.log_scale = [-1.0, -2.0, -0.5].map(bits);
    let q = [0.3f32, 0.7, -0.2, 0.5];
    let n = q.iter().map(|v| v * v).sum::<f32>().sqrt();
    g.rotation = q.map(|v| bits(v / n));
    for i in 0..48 {
        g.sh_coeffs[i] = bits((i as f32) * 0.01 - 0.2);
    }
    let original = vec![g, gaussian([0.0, 0.0, 0.0])];

    let loaded = read(&save_ply(&original)).unwrap();

    assert_eq!(loaded.len(), original.len());
    let (a, b) = (&original[0], &loaded[0]);
    for i in 0..3 {
        assert!((float(a.position[i]) - float(b.position[i])).abs() < 1e-5);
        assert!((float(a.log_scale[i]) - float(b.log_scale[i])).abs() < 1e-5);
    }
    assert!((float(a.opacity_logit) - float(b.opacity_logit)).abs() < 1e-5);
    for i in 0..48 {
        assert!(
            (float(a.sh_coeffs[i]) - float(b.sh_coeffs[i])).abs() < 1e-5,
            "sh[{i}] mismatch"
        );
    }
    // Nothing is rounded, so every pattern comes back.
    for (a, b) in original.iter().zip(&loaded) {
        assert!((0..59).all(|j| a.param(j) == b.param(j)));
    }
}

#[test]
fn ply_header_names_every_column() {
    let data = save_ply(&[gaussian([1.0, 2.0, 3.0])]);
    let end = b"end_header\n";
    let at = data.windows(end.len()).position(|w| w == end).unwrap() + end.len();
    let header = String::from_utf8(data[..at].to_vec()).unwrap();
    assert!(header.starts_with("ply\nformat binary_little_endian 1.0\nelement vertex 1\n"));
    assert_eq!(header.matches("property float ").count(), 62);
    assert!(header.contains("property float nx\n"));
    assert!(header.contains("property float f_rest_44\n"));
    assert_eq!(data.len() - at, 62 * 4);
    assert_eq!(data[at..at + 4], 1.0f32.to_le_bytes());
    // Normals are zero.
    assert_eq!(data[at + 12..at + 24], [0; 12]);
}

#[test]
fn ply_of_nothing_is_a_header() {
    assert_eq!(read(&save_ply(&[])).unwrap().len(), 0);
}

#[test]
fn ply_columns_may_come_in_any_order() {
    let text = b"ply\nformat ascii 1.0\ncomment by hand\nelement vertex 2\nproperty float z\nproperty float x\nproperty float f_rest_15\nproperty float whatever\nelement face 3\nend_header\n1 2 3 4\n5 six\n";
    let g = read(text).unwrap();
    assert_eq!(g.len(), 2);
    assert_eq!(g[0].position.map(float), [2.0, 0.0, 1.0]);
    assert_eq!(float(g[0].sh_coeffs[17]), 3.0);
    assert_eq!(g[0].rotation.map(float), [1.0, 0.0, 0.0, 0.0]);
    // What cannot be read, or is missing, is zero.
    assert_eq!(g[1].position.map(float), [0.0, 0.0, 5.0]);
    assert_eq!(float(g[1].sh_coeffs[17]), 0.0);
}

/// An ASCII file with `n` higher coefficients, which are counted up from one.
fn with_rest(n: usize) -> Vec<u8> {
    with_rest_from(0, n)
}

/// Such a file whose columns are numbered from `first`.
fn with_rest_from(first: usize, n: usize) -> Vec<u8> {
    let mut text = String::from("ply\nformat ascii 1.0\nelement vertex 1\n");
    for i in first..first + n {
        text.push_str(&format!("property float f_rest_{i}\n"));
    }
    text.push_str("end_header\n");
    for i in 0..n {
        text.push_str(&format!("{} ", i + 1));
    }
    text.push('\n');
    text.into_bytes()
}

/// The coefficients of each channel after its first, up to the first that is zero.
fn rest_of(g: &Gaussian3D<Single>) -> [Vec<f32>; 3] {
    [0, 16, 32].map(|c| {
        assert_eq!(float(g.sh_coeffs[c]), 0.0);
        let all: Vec<f32> = g.sh_coeffs[c + 1..c + 16].iter().map(|&v| float(v)).collect();
        let n = all.iter().position(|&v| v == 0.0).unwrap_or(15);
        assert!(all[n..].iter().all(|&v| v == 0.0));
        all[..n].to_vec()
    })
}

fn counted(from: usize, n: usize) -> Vec<f32> {
    (from..from + n).map(|i| i as f32).collect()
}

#[test]
fn ply_of_lower_degree_keeps_its_channels_apart() {
    let g = read(&with_rest(9)).unwrap();
    assert_eq!(rest_of(&g[0]), [vec![1.0, 2.0, 3.0], vec![4.0, 5.0, 6.0], vec![7.0, 8.0, 9.0]]);
    let g = read(&with_rest(24)).unwrap();
    assert_eq!(rest_of(&g[0]), [counted(1, 8), counted(9, 8), counted(17, 8)]);
    let g = read(&with_rest(45)).unwrap();
    assert_eq!(rest_of(&g[0]), [counted(1, 15), counted(16, 15), counted(31, 15)]);
    let g = read(&with_rest(0)).unwrap();
    assert_eq!(rest_of(&g[0]), [vec![], vec![], vec![]]);
}

#[test]
fn ply_of_no_degree_is_read_as_the_third() {
    let g = read(&with_rest(20)).unwrap();
    assert_eq!(rest_of(&g[0]), [counted(1, 15), counted(16, 5), vec![]]);
    // Nine or 24 columns are those of a lower degree only if they are numbered like them.
    let g = read(&with_rest_from(15, 9)).unwrap();
    assert_eq!(rest_of(&g[0]), [vec![], counted(1, 9), vec![]]);
    let g = read(&with_rest_from(15, 24)).unwrap();
    assert_eq!(rest_of(&g[0]), [vec![], counted(1, 15), counted(16, 9)]);
    let text = "ply\nformat ascii 1.0\nelement vertex 1\n".to_string()
        + &[0, 1, 2, 3, 4, 5, 6, 7, 9].map(|i| format!("property float f_rest_{i}\n")).concat()
        + "end_header\n1 2 3 4 5 6 7 8 9\n";
    let g = read(text.as_bytes()).unwrap();
    assert_eq!(g[0].sh_coeffs[1..11].iter().map(|&v| float(v)).collect::<Vec<_>>(), [
        1.0, 2.0, 3.0, 4.0, 5.0, 6.0, 7.0, 8.0, 0.0, 9.0
    ]);
    // What is numbered beyond the third channel is skipped.
    let g = read(&with_rest(48)).unwrap();
    assert_eq!(rest_of(&g[0]), [counted(1, 15), counted(16, 15), counted(31, 15)]);
}

#[test]
fn ply_with_its_columns_rearranged_is_the_same() {
    let rest: Vec<String> = (0..9).map(|i| format!("f_rest_{i}")).collect();
    let mut names: Vec<&str> = vec!["x", "y", "z", "f_dc_1", "opacity", "scale_2", "rot_3"];
    names.extend(rest.iter().map(|s| s.as_str()));
    let write = |format: &str, columns: &[(&str, f32)]| {
        let mut data = format!("ply\nformat {format} 1.0\nelement vertex 1\n").into_bytes();
        for (name, _) in columns {
            data.extend(format!("property float {name}\n").into_bytes());
        }
        data.extend(b"end_header\n");
        for (_, v) in columns {
            if format == "ascii" {
                data.extend(format!("{v} ").into_bytes());
            } else {
                data.extend(v.to_le_bytes());
            }
        }
        data
    };
    let a: Vec<(&str, f32)> = names.iter().zip(1..).map(|(&n, v)| (n, v as f32 * 0.5)).collect();
    let mut b = a.clone();
    b.reverse();
    b.insert(3, ("whatever", 99.0));
    b.insert(0, ("nx", 98.0));
    b.push(("f_rest_", 97.0));
    for format in ["ascii", "binary_little_endian"] {
        let (p, q) = (read(&write(format, &a)).unwrap(), read(&write(format, &b)).unwrap());
        assert_eq!((p.len(), q.len()), (1, 1));
        assert!((0..59).all(|j| p[0].param(j) == q[0].param(j)));
        assert_eq!(p[0].position.map(float), [0.5, 1.0, 1.5]);
        assert_eq!(float(p[0].sh_coeffs[33]), 7.0);
    }
}

#[test]
fn ply_values_have_the_width_they_declare() {
    let mut data = b"ply\nformat binary_big_endian 1.0\nelement vertex 1\nproperty double x\nproperty ushort y\nproperty uchar z\nproperty float opacity\nend_header\n".to_vec();
    data.extend(1.0000000001f64.to_be_bytes());
    data.extend(258u16.to_be_bytes());
    data.push(7);
    data.extend((-3.5f32).to_be_bytes());
    let g = read(&data).unwrap();
    assert_eq!(g[0].position.map(float), [1.0000000001f64 as f32, 258.0, 7.0]);
    assert_eq!(float(g[0].opacity_logit), -3.5);
}

#[test]
fn ply_refuses_what_it_cannot_read() {
    assert!(matches!(read(b"plyx\n"), Err(PlyFault::NotPly)));
    assert!(matches!(read(b""), Err(PlyFault::NotPly)));
    assert!(matches!(read(b"ply\n\xff\n"), Err(PlyFault::NotText)));
    assert!(matches!(read(b"ply\nformat ascii 1.0\n"), Err(PlyFault::HeaderEnd)));
    let e = read(b"ply\nformat text 1.0\n");
    assert!(matches!(e, Err(PlyFault::UnknownFormat(s)) if s == "text"));
    assert!(matches!(read(b"ply\nelement vertex many\n"), Err(PlyFault::VertexCount)));
    let e = read(b"ply\nproperty half x\n");
    assert!(matches!(e, Err(PlyFault::UnknownType(s)) if s == "half"));
    let e = read(b"ply\nelement vertex 18446744073709551615\nend_header\n");
    assert!(matches!(e, Err(PlyFault::CapacityOverflow)));
    let e = read(b"ply\nformat binary_little_endian 1.0\nelement vertex 1\nproperty float x\nend_header\nabc");
    assert!(matches!(e, Err(PlyFault::BodyEnd)));
}

#[test]
fn ply_text_may_hold_any_letters() {
    let text = "ply\ncomment größe \u{1F600}\nformat\u{3000}ascii 1.0\nelement vertex 1\nproperty float x\nend_header\n4\n";
    let g = read(text.as_bytes()).unwrap();
    assert_eq!(float(g[0].position[0]), 4.0);
}

// ── .splat ────────────────────────────────────────────────────────────────────

fn splat(gaussians: &[Gaussian3D<Single>]) -> Vec<u8> {
    save_splat(
        |v: Single| bits(float(v).exp()),
        |v: Single| bits(0.5 + float(v) * 0.28209479177387814),
        |v: Single| bits(1.0 / (1.0 + (-float(v)).exp())),
        |x: Single| (float(x) * 255.0).round() as u8,
        |q: [Single; 4]| bits(q.map(|v| float(v) * float(v)).iter().sum::<f32>().sqrt()),
        |a: Single, b: Single| bits(float(a) / float(b)),
        |v: Single| bits(float(v) * 128.0 + 128.0),
        |x: Single| float(x).round() as u8,
        gaussians,
    )
}

#[test]
fn splat_record_is_32_bytes() {
    let g = vec![gaussian([0.0, 0.0, 0.0]); 10];
    assert_eq!(splat(&g).len(), 32 * 10);
}

#[test]
fn splat_record_holds_its_fields_in_order() {
    let mut g = gaussian([1.0, -2.0, 0.5]);
    g.log_scale = [0.0, 1.0, -1.0].map(bits);
    g.sh_coeffs[0] = bits(10.0);
    g.sh_coeffs[16] = bits(-10.0);
    g.opacity_logit = bits(0.0);
    let r = splat(&[g]);
    assert_eq!(r[0..4], 1.0f32.to_le_bytes());
    assert_eq!(r[4..8], (-2.0f32).to_le_bytes());
    assert_eq!(r[12..16], 1.0f32.to_le_bytes());
    assert_eq!(r[16..20], 1.0f32.exp().to_le_bytes());
    assert_eq!(r[24..28], [255, 0, 128, 128]);
    assert_eq!(r[28..32], [255, 128, 128, 128]);
    g.rotation = [0.0, -3.0, 0.0, 4.0].map(bits);
    assert_eq!(splat(&[g])[28..32], [128, 51, 128, 230]);
    g.rotation = [0.0; 4].map(bits);
    assert_eq!(splat(&[g])[28..32], [255, 128, 128, 128]);
}

// ── images ────────────────────────────────────────────────────────────────────

fn linear(b: u8) -> Single {
    bits(b as f32 / 255.0 * 0.5)
}

fn share(b: u8) -> Single {
    bits(b as f32 / 255.0)
}

#[test]
fn black_image_has_opaque_alpha() {
    let img = TargetImage::black(4, 4);
    assert_eq!(img.data.len(), 4 * 4 * 4);
    assert_eq!(float(img.data[3]), 1.0);
}

#[test]
fn colours_are_linear_and_alpha_is_kept() {
    let img = linear_image(linear, share, &[255, 0, 51, 102, 0, 255, 0, 255], 2, 1);
    let got: Vec<f32> = img.data.iter().map(|&v| float(v)).collect();
    assert_eq!(got, [0.5, 0.0, 0.1, 0.4, 0.0, 0.5, 0.0, 1.0]);
}

#[test]
fn target_of_the_right_size_is_not_resampled() {
    let mut img = RgbaImage::new(2, 1);
    img.put_pixel(0, 0, Rgba([255, 0, 0, 255]));
    img.put_pixel(1, 0, Rgba([0, 0, 255, 0]));
    let t = load_target(linear, share, DynamicImage::ImageRgba8(img), 2, 1).unwrap();
    assert_eq!((t.width, t.height), (2, 1));
    let got: Vec<f32> = t.data.iter().map(|&v| float(v)).collect();
    assert_eq!(got, [0.5, 0.0, 0.0, 1.0, 0.0, 0.0, 0.5, 0.0]);
}

#[test]
fn target_is_resized_to_the_camera() {
    let img = RgbaImage::from_pixel(3, 5, Rgba([255, 0, 255, 255]));
    let t = load_target(linear, share, DynamicImage::ImageRgba8(img), 4, 2).unwrap();
    assert_eq!((t.width, t.height), (4, 2));
    assert_eq!(t.data.len(), 4 * 2 * 4);
    for px in t.data.chunks(4) {
        assert_eq!([px[0], px[1], px[2], px[3]].map(float), [0.5, 0.0, 0.5, 1.0]);
    }
}

#[test]
fn grey_targets_become_colours() {
    let img = DynamicImage::new_luma8(2, 2);
    let t = load_target(linear, share, img, 2, 2).unwrap();
    assert_eq!([t.data[0], t.data[3]].map(float), [0.0, 1.0]);
}

#[test]
fn target_that_is_too_large_is_refused() {
    let img = DynamicImage::new_rgba8(1, 1);
    assert!(load_target(linear, share, img, u32::MAX, u32::MAX).is_none());
    let img = DynamicImage::new_luma8(4_429_467, 1);
    assert!(load_target(linear, share, img, 8_771_446, 1).is_none());
    let img = DynamicImage::new_luma8(1, 8_388_610);
    assert!(load_target(linear, share, img, 2, 8_388_610).is_none());
}

#[test]
fn long_targets_are_resized() {
    for side in [1_100_000, 5_000_000] {
        let img = DynamicImage::new_luma8(side, 1);
        let t = load_target(linear, share, img, 2, 1).unwrap();
        assert_eq!((t.width, t.height, t.data.len()), (2, 1, 8));
    }
    let img = RgbaImage::from_pixel(1, 1, Rgba([255, 0, 0, 255]));
    let t = load_target(linear, share, DynamicImage::ImageRgba8(img), 1_100_000, 1).unwrap();
    assert_eq!((t.width, t.height), (1_100_000, 1));
    let last = &t.data[t.data.len() - 4..];
    assert_eq!([last[0], last[1], last[2], last[3]].map(float), [0.5, 0.0, 0.0, 1.0]);
    let img = DynamicImage::new_luma8(5_000_000, 0);
    let t = load_target(linear, share, img, 9_000_000, 0).unwrap();
    assert_eq!((t.width, t.height, t.data.len()), (9_000_000, 0, 0));
}

// ── transforms.json ───────────────────────────────────────────────────────────

fn focal(w: u32, angle: Single) -> Single {
    bits(0.5 * w as f32 / (0.5 * float(angle)).tan())
}

fn whole(w: u32) -> Single {
    bits(w as f32)
}

fn half(w: u32) -> Single {
    bits(w as f32 / 2.0)
}

fn matrix() -> [[Single; 4]; 4] {
    [
        [1.0, 2.0, 3.0, 4.0],
        [5.0, 6.0, 7.0, 8.0],
        [9.0, 10.0, 11.0, 12.0],
        [0.0, 0.0, 0.0, 1.0],
    ]
    .map(|row| row.map(bits))
}

fn bare(file_path: &str) -> Transforms {
    Transforms {
        camera_angle_x: None,
        fl_x: None,
        fl_y: None,
        cx: None,
        cy: None,
        w: None,
        h: None,
        frames: vec![Frame { file_path: file_path.to_string(), transform_matrix: matrix() }],
    }
}

fn load(t: &Transforms, known: &[&str]) -> Vec<Camera<Single>> {
    load_transforms_json(focal, whole, half, |s: &str| known.contains(&s), t, (640, 480))
}

#[test]
fn missing_intrinsics_have_defaults() {
    let cams = load(&bare("a"), &["a"]);
    assert_eq!(cams.len(), 1);
    let c = &cams[0];
    assert_eq!((c.width, c.height), (640, 480));
    assert_eq!([c.fx, c.fy, c.cx, c.cy].map(float), [640.0, 640.0, 320.0, 240.0]);
    assert_eq!(c.image_path.as_deref(), Some("a"));
    assert_eq!(c.distortion.map(float), [0.0; 3]);
}

#[test]
fn focal_length_comes_from_the_angle() {
    let mut t = bare("a");
    t.camera_angle_x = Some(bits(std::f32::consts::FRAC_PI_2));
    t.w = Some(100);
    let c = &load(&t, &["a"])[0];
    assert!((float(c.fx) - 50.0).abs() < 1e-3);
    assert_eq!(c.fy, c.fx);
    t.fl_x = Some(bits(70.0));
    t.fl_y = Some(bits(71.0));
    let c = &load(&t, &["a"])[0];
    assert_eq!([c.fx, c.fy].map(float), [70.0, 71.0]);
}

#[test]
fn two_axes_are_flipped() {
    let m = opengl_to_opencv_c2w(&matrix()).map(|row| row.map(float));
    assert_eq!(m[0], [1.0, -2.0, -3.0, 4.0]);
    assert_eq!(m[2], [9.0, -10.0, -11.0, 12.0]);
    assert_eq!(m[3], [0.0, 0.0, 0.0, 1.0]);
    let back = opengl_to_opencv_c2w(&opengl_to_opencv_c2w(&matrix()));
    assert!(back == matrix());
}

#[test]
fn missing_extensions_are_tried_in_order() {
    let files = ["f.jpeg", "f.jpg", "g"];
    let known = |s: &str| files.contains(&s);
    assert_eq!(resolve_path(known, "f"), "f.jpg");
    assert_eq!(resolve_path(known, "g"), "g");
    assert_eq!(resolve_path(known, "h"), "h");
}

#[test]
fn cameras_survive_being_saved() {
    let cam = Camera {
        width: 64,
        height: 32,
        fx: bits(50.0),
        fy: bits(51.0),
        cx: bits(32.5),
        cy: bits(16.5),
        c2w: matrix(),
        distortion: [bits(0.0); 3],
        image_path: Some("a.png".to_string()),
    };
    let mut second = cam.clone();
    second.c2w = unit_matrix();
    second.image_path = None;
    let angle = |w: u32, f: Single| bits(2.0 * (0.5 * w as f32 / float(f)).atan());
    let t = save_transforms_json(angle, &[cam.clone(), second]);
    assert_eq!(t.frames[1].file_path, "frame_000001");
    assert_eq!(t.w, Some(64));
    assert!(t.camera_angle_x.is_some());
    let back = load(&t, &["a.png"]);
    assert_eq!(back.len(), 2);
    assert!(back[0].c2w == cam.c2w && back[1].c2w == unit_matrix());
    assert_eq!(back[0].fx, cam.fx);
    assert_eq!(back[0].image_path.as_deref(), Some("a.png"));
    assert_eq!(back[1].image_path.as_deref(), Some("frame_000001"));
}

#[test]
fn no_cameras_say_nothing_of_the_lens() {
    let t = save_transforms_json(|_: u32, _: Single| bits(1.0), &[]);
    assert!(t.fl_x.is_none() && t.w.is_none() && t.camera_angle_x.is_none());
    assert!(t.frames.is_empty());
}
