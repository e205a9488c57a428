//! Buffers for the graphics card, and compositing what it projects.

use rgsplat::cpu::forward::Light;
use rgsplat::gpu::composite::{composite, Extent};
use rgsplat::gpu::layout::{
    dispatch, download_splats, upload_camera, upload_gaussians, SplatInfo2D,
};
use rgsplat::gpu::sort::depth_order;
use rgsplat::math::camera::{unit_matrix, Camera};
use rgsplat::math::Gaussian3D;
use rgsplat::num::single::Single;

fn bits(x: f32) -> Single {
    Single { bits: x.to_bits() }
}

fn float(x: Single) -> f32 {
    f32::from_bits(x.bits)
}

fn word(bytes: &[u8], i: usize) -> f32 {
    f32::from_ne_bytes(bytes[i * 4..i * 4 + 4].try_into().unwrap())
}

fn splat(alpha: f32, depth: f32) -> SplatInfo2D {
    SplatInfo2D {
        sx: bits(4.0),
        sy: bits(4.0),
        conic_a: bits(0.5),
        conic_b: bits(0.0),
        conic_c: bits(0.5),
        color_r: bits(1.0),
        color_g: bits(0.5),
        color_b: bits(0.0),
        alpha: bits(alpha),
        depth: bits(depth),
    }
}

#[test]
fn gaussian_rows_are_padded() {
    let mut g = Gaussian3D::new([1.0, 2.0, 3.0].map(bits));
    g.log_scale = [4.0, 5.0, 6.0].map(bits);
    g.sh_coeffs[0] = bits(7.0);
    g.sh_coeffs[47] = bits(8.0);
    let bytes = upload_gaussians(&[g, g]);
    assert_eq!(bytes.len(), 2 * 240);
    for row in 0..2 {
        let at = row * 60;
        assert_eq!([word(&bytes, at), word(&bytes, at + 2)], [1.0, 3.0]);
        assert_eq!(word(&bytes, at + 3), float(g.opacity_logit));
        assert_eq!(word(&bytes, at + 4), 1.0);
        assert_eq!(word(&bytes, at + 10), 6.0);
        assert_eq!(word(&bytes, at + 11), 0.0);
        assert_eq!(word(&bytes, at + 12), 7.0);
        assert_eq!(word(&bytes, at + 59), 8.0);
    }
}

#[test]
fn camera_matrices_go_by_columns() {
    let mut view = unit_matrix();
    view[0][3] = bits(9.0);
    let camera = Camera {
        width: 640,
        height: 480,
        fx: bits(1.0),
        fy: bits(2.0),
        cx: bits(3.0),
        cy: bits(4.0),
        c2w: {
            let mut m = unit_matrix();
            m[1][3] = bits(5.0);
            m
        },
        distortion: [bits(0.0); 3],
        image_path: None,
    };
    let bytes = upload_camera(&view, &unit_matrix(), &camera);
    assert_eq!(bytes.len(), 176);
    assert_eq!(word(&bytes, 12), 9.0);
    assert_eq!(word(&bytes, 3), 0.0);
    assert_eq!([word(&bytes, 32), word(&bytes, 33)], [0.0, 5.0]);
    assert_eq!(bytes[35 * 4..36 * 4], 640u32.to_ne_bytes());
    assert_eq!(bytes[36 * 4..37 * 4], 480u32.to_ne_bytes());
    assert_eq!([word(&bytes, 37), word(&bytes, 40)], [1.0, 4.0]);
    assert_eq!(bytes[41 * 4..], [0; 12]);
}

#[test]
fn splats_are_read_back() {
    let mut bytes = Vec::new();
    for i in 0..25 {
        bytes.extend((i as f32).to_ne_bytes());
    }
    let s = download_splats(&bytes, 2);
    assert_eq!(s.len(), 2);
    assert_eq!([s[0].sx, s[0].alpha, s[0].depth].map(float), [0.0, 8.0, 9.0]);
    assert_eq!([s[1].sx, s[1].color_r].map(float), [10.0, 15.0]);
}

#[test]
fn every_gaussian_has_a_thread() {
    assert!(dispatch(0).is_none());
    let d = dispatch(257).unwrap();
    assert_eq!((d.splat_bytes, d.key_bytes, d.groups), (257 * 40, 257 * 4, 2));
    assert_eq!(dispatch(256).unwrap().groups, 1);
}

#[test]
fn order_is_by_depth_among_the_visible() {
    let splats = [
        splat(0.5, 3.0),
        splat(0.0, 1.0),
        splat(0.5, -1.0),
        splat(1.0 / 255.0, 2.0),
        splat(0.9, f32::INFINITY),
        splat(0.9, f32::NAN),
    ];
    assert_eq!(depth_order(&splats), vec![3, 0, 4]);
}

fn image(splats: &[SplatInfo2D], w: usize, h: usize) -> Vec<f32> {
    composite(
        |x: usize, y: usize, s: &SplatInfo2D| {
            let dx = x as f32 + 0.5 - float(s.sx);
            let dy = y as f32 + 0.5 - float(s.sy);
            bits(-0.5 * (float(s.conic_a) * dx * dx + float(s.conic_c) * dy * dy))
        },
        |s: &SplatInfo2D, p: Single| bits(float(s.alpha) * float(p).exp()),
        |s: &SplatInfo2D, a: Single, l: Light| {
            let weight = float(a) * float(l.t);
            Light {
                red: bits(float(l.red) + float(s.color_r) * weight),
                green: bits(float(l.green) + float(s.color_g) * weight),
                blue: bits(float(l.blue) + float(s.color_b) * weight),
                t: bits(float(l.t) * (1.0 - float(a))),
            }
        },
        |s: &SplatInfo2D| Extent {
            x0: (float(s.sx) - 2.0).max(0.0) as usize,
            y0: (float(s.sy) - 2.0).max(0.0) as usize,
            x1: (float(s.sx) + 2.0) as i64,
            y1: (float(s.sy) + 2.0) as i64,
        },
        |l: Light| {
            let t = float(l.t);
            [
                bits(float(l.red) + t * 0.25),
                bits(float(l.green) + t * 0.25),
                bits(float(l.blue) + t * 0.25),
            ]
        },
        splats,
        w,
        h,
    )
    .into_iter()
    .map(float)
    .collect()
}

#[test]
fn splats_are_laid_over_the_background() {
    let img = image(&[splat(0.5, 1.0)], 8, 8);
    assert_eq!(img.len(), 8 * 8 * 3);
    // Beyond the extent there is only the background.
    assert_eq!(img[..3], [0.25, 0.25, 0.25]);
    let c = (3 * 8 + 3) * 3;
    let a = 0.5 * (-0.125f32).exp();
    assert!((img[c] - (a + (1.0 - a) * 0.25)).abs() < 1e-6);
    assert!((img[c + 2] - (1.0 - a) * 0.25).abs() < 1e-6);
}

#[test]
fn no_splat_hides_everything() {
    let mut s = splat(5.0, 1.0);
    s.conic_a = bits(0.0);
    s.conic_c = bits(0.0);
    let c = (3 * 8 + 3) * 3;
    let img = image(&[s], 8, 8);
    assert_eq!(img[c + 2], (1.0 - 0.99f32) * 0.25);
}

#[test]
fn nearest_splat_is_laid_first() {
    let mut far = splat(0.99, 5.0);
    far.color_r = bits(0.0);
    far.color_b = bits(1.0);
    let near = splat(0.99, 1.0);
    let img = image(&[far, near], 8, 8);
    let c = (3 * 8 + 3) * 3;
    assert!(img[c] > img[c + 2]);
    assert_eq!(img, image(&[near, far], 8, 8));
}

#[test]
fn extents_are_cut_at_the_border() {
    let mut s = splat(0.9, 1.0);
    s.sx = bits(-1.0);
    s.sy = bits(7.0);
    let img = image(&[s], 8, 8);
    assert!(img[7 * 8 * 3] > 0.25);
    assert_eq!(img[(7 * 8 + 3) * 3], 0.25);
}
