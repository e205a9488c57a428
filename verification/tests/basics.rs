//! Numbers, text, boxes and tiles.

use rgsplat::cpu::blur::blur;
use rgsplat::cpu::project::{project, Screen};
use rgsplat::cpu::splat::{project_and_bin, Splat};
use rgsplat::cpu::tiles::{bin, n_tiles, tile_bounds, TileBounds, TileRect};
use rgsplat::math::camera::{unit_matrix, Camera};
use rgsplat::math::projection::gaussian_aabb_2d;
use rgsplat::math::{clamp, hold, max_of, min_of, softplus, unit, Gaussian3D};
use rgsplat::num::bytes::{put_single, u16_at, u32_at, u64_at};
use rgsplat::num::order::stable_order;
use rgsplat::num::single::{Double, Single};
use rgsplat::num::text::{
    append_decimal, append_padded_decimal, chars_of, is_white, parse_usize, same_text, split_words,
};

fn bits(x: f32) -> Single {
    Single { bits: x.to_bits() }
}

fn float(x: Single) -> f32 {
    f32::from_bits(x.bits)
}

const SAMPLES: [f32; 14] = [
    0.0,
    -0.0,
    1.0,
    -1.0,
    1.5,
    f32::MIN_POSITIVE,
    -f32::MIN_POSITIVE,
    1e-45,
    f32::MAX,
    f32::MIN,
    f32::INFINITY,
    f32::NEG_INFINITY,
    f32::NAN,
    0.1,
];

// ── numbers ───────────────────────────────────────────────────────────────────

#[test]
fn patterns_compare_as_their_floats_do() {
    for &a in &SAMPLES {
        assert_eq!(bits(a).is_nan(), a.is_nan());
        assert_eq!(bits(a).abs().bits, a.abs().to_bits());
        assert_eq!(bits(a).neg().bits, (-a).to_bits());
        for &b in &SAMPLES {
            assert_eq!(bits(a).lt(bits(b)), a < b, "{a} < {b}");
            assert_eq!(bits(a).le(bits(b)), a <= b, "{a} <= {b}");
            if !a.is_nan() && !b.is_nan() {
                assert_eq!(bits(a).signed() < bits(b).signed(), a < b);
            }
        }
    }
}

#[test]
fn doubles_narrow_as_casts_do() {
    let mut samples = vec![
        0.0f64,
        -0.0,
        1.0,
        -2.5,
        0.1,
        1e-40,
        1e-45,
        0.7e-45,
        0.70064923216240854e-45,
        1e-60,
        3.4028235e38,
        3.4028235677973366e38,
        1e39,
        f64::INFINITY,
        f64::NEG_INFINITY,
        f64::MIN_POSITIVE,
        f64::MAX,
        16777217.0,
        16777219.0,
        1.0000000596046448,
        1.000000059604645,
    ];
    let mut x = 0x9E37_79B9_7F4A_7C15u64;
    for _ in 0..20_000 {
        x ^= x << 13;
        x ^= x >> 7;
        x ^= x << 17;
        samples.push(f64::from_bits(x));
        samples.push(f64::from_bits(x & 0x800F_FFFF_FFFF_FFFF | ((870 + x % 300) << 52)));
    }
    for v in samples {
        let d = Double { bits: v.to_bits() };
        assert_eq!(d.is_nan(), v.is_nan());
        if v.is_nan() {
            assert!(d.narrow().is_nan());
        } else {
            assert_eq!(d.narrow().bits, (v as f32).to_bits(), "{v:e}");
            let n = Double { bits: (-v).to_bits() };
            assert_eq!(n.narrow().bits, (-v as f32).to_bits(), "{v:e}");
        }
    }
}

#[test]
fn doubles_are_ordered() {
    let v = [f64::NEG_INFINITY, -1.0, -1e-300, 0.0, 1e-310, 2.0, f64::INFINITY];
    for a in v {
        for b in v {
            let (x, y) = (Double { bits: a.to_bits() }, Double { bits: b.to_bits() });
            assert_eq!(x.signed() < y.signed(), a < b);
        }
    }
}

#[test]
fn short_integers_become_floats() {
    for n in 0..=u16::MAX {
        assert_eq!(Single::from_u16(n).bits, (n as f32).to_bits());
    }
}

#[test]
fn bytes_hold_little_endian_words() {
    let d = [1u8, 2, 3, 4, 5, 6, 7, 8, 9];
    assert_eq!(u16_at(&d, 1), 0x0302);
    assert_eq!(u32_at(&d, 2), 0x0605_0403);
    assert_eq!(u64_at(&d, 1), 0x0908_0706_0504_0302);
    let mut out = vec![9u8];
    put_single(&mut out, bits(-1.25));
    assert_eq!(out[1..], (-1.25f32).to_le_bytes());
}

#[test]
fn equal_keys_keep_their_order() {
    assert_eq!(stable_order(&[3, 1, 2, 1, -5, 3]), vec![4, 1, 3, 2, 0, 5]);
    assert_eq!(stable_order(&[]), Vec::<usize>::new());
    let keys: Vec<i64> = (0..200).map(|i| (i * 37 % 11) as i64).collect();
    let mut want: Vec<usize> = (0..200).collect();
    want.sort_by_key(|&i| keys[i]);
    assert_eq!(stable_order(&keys), want);
}

// ── text ──────────────────────────────────────────────────────────────────────

#[test]
fn white_space_is_what_unicode_says() {
    for c in (0..0x11_0000u32).filter_map(char::from_u32) {
        assert_eq!(is_white(c), c.is_whitespace(), "{c:?}");
    }
}

#[test]
fn words_are_split_at_white_space() {
    let s = "  property\u{3000}float \t f_dc_0\r\n";
    let want: Vec<&str> = s.split_whitespace().collect();
    assert_eq!(split_words(s), want);
    assert!(split_words("").is_empty());
    assert_eq!(chars_of("aö"), ['a', 'ö']);
    assert!(same_text("ply", "ply") && !same_text("ply", "pl") && !same_text("ply", "plx"));
}

#[test]
fn numbers_parse_as_in_the_standard_library() {
    let samples = [
        "0",
        "007",
        "+5",
        "-5",
        "",
        "+",
        "1_0",
        " 1",
        "12a",
        "18446744073709551615",
        "18446744073709551616",
        "99999999999999999999999",
    ];
    for s in samples {
        assert_eq!(parse_usize(s), s.parse::<usize>().ok(), "{s:?}");
    }
}

#[test]
fn numbers_are_written_in_decimal() {
    let mut s = String::from("n=");
    append_decimal(&mut s, 0);
    append_decimal(&mut s, usize::MAX);
    assert_eq!(s, format!("n=0{}", usize::MAX));
    let mut s = String::new();
    append_padded_decimal(&mut s, 42, 6);
    append_padded_decimal(&mut s, 1234567, 6);
    assert_eq!(s, "0000421234567");
}

// ── Gaussians and cameras ─────────────────────────────────────────────────────

#[test]
fn new_gaussians_are_small_and_faint() {
    let g = Gaussian3D::new([1.0, 2.0, 3.0].map(bits));
    assert_eq!(g.position.map(float), [1.0, 2.0, 3.0]);
    assert_eq!(float(g.opacity_logit), -2.0);
    assert_eq!(g.rotation.map(float), [1.0, 0.0, 0.0, 0.0]);
    assert_eq!(g.sh_coeffs.map(float), [0.0; 48]);
    assert_eq!(g.log_scale.map(float), [-3.0; 3]);
}

#[test]
fn parameters_are_numbered_in_one_row() {
    let mut g = Gaussian3D::new([bits(0.0); 3]);
    for j in 0..59 {
        g.set_param(j, bits(j as f32));
    }
    assert!((0..59).all(|j| float(g.param(j)) == j as f32));
    assert_eq!(g.rotation.map(float), [3.0, 4.0, 5.0, 6.0]);
    assert_eq!(g.log_scale.map(float), [7.0, 8.0, 9.0]);
    assert_eq!(float(g.opacity_logit), 10.0);
    assert_eq!(float(g.sh_coeffs[47]), 58.0);
}

#[test]
fn cameras_stand_where_their_pose_says() {
    let mut c2w = unit_matrix();
    c2w[0][3] = bits(1.0);
    c2w[2][3] = bits(-2.0);
    let c = Camera {
        width: 1,
        height: 1,
        fx: bits(3.0),
        fy: bits(4.0),
        cx: bits(0.0),
        cy: bits(0.0),
        c2w,
        distortion: [bits(0.0); 3],
        image_path: None,
    };
    assert_eq!(c.position().map(float), [1.0, 0.0, -2.0]);
    assert_eq!((float(c.focal().0), float(c.focal().1)), (3.0, 4.0));
}

#[test]
fn clamping_keeps_to_the_bounds() {
    for &x in &SAMPLES {
        let r = float(clamp(bits(x), bits(-1.0), bits(0.5)));
        assert_eq!(r, x.max(-1.0).min(0.5));
    }
    assert_eq!(float(clamp(bits(1.0), bits(f32::NAN), bits(0.5))), 0.5);
    assert!(clamp(bits(f32::NAN), bits(f32::NAN), bits(f32::NAN)).is_nan());
}

#[test]
fn holding_is_clamping_that_keeps_what_is_no_number() {
    for &x in &SAMPLES {
        let r = hold(bits(x), bits(-1.0), bits(0.5));
        assert_eq!(r.bits, x.clamp(-1.0, 0.5).to_bits());
        assert_eq!(unit(bits(x)).bits, x.clamp(0.0, 1.0).to_bits());
        for &y in &SAMPLES {
            if x.is_nan() && y.is_nan() {
                continue;
            }
            assert_eq!(float(max_of(bits(x), bits(y))), x.max(y));
            assert_eq!(float(min_of(bits(x), bits(y))), x.min(y));
        }
    }
    assert!(unit(bits(f32::NAN)).is_nan());
    assert_eq!(float(max_of(bits(f32::NAN), bits(2.0))), 2.0);
    assert_eq!(float(min_of(bits(2.0), bits(f32::NAN))), 2.0);
}

#[test]
fn softplus_is_straight_far_out() {
    let soft = |v: Single| bits((1.0 + float(v).exp()).ln());
    assert_eq!(float(softplus(soft, bits(20.5))), 20.5);
    assert_eq!(float(softplus(soft, bits(0.0))), 2.0f32.ln());
    assert!(softplus(soft, bits(f32::NAN)).is_nan());
}

#[test]
fn base_colour_is_of_the_first_coefficients() {
    let mut g = Gaussian3D::new([bits(0.0); 3]);
    g.sh_coeffs[0] = bits(1.0);
    g.sh_coeffs[1] = bits(2.0);
    g.sh_coeffs[2] = bits(3.0);
    let c = g.base_color(|v: Single| bits(0.5 + float(v)));
    assert_eq!(c.map(float), [1.5, 2.5, 3.5]);
}

// ── boxes and tiles ───────────────────────────────────────────────────────────

#[test]
fn boxes_are_cut_at_the_screen() {
    assert_eq!(gaussian_aabb_2d((-5, 3), (10, 7), 100, 50), Some((0, 3, 11, 8)));
    assert_eq!(gaussian_aabb_2d((90, 40), (200, 200), 100, 50), Some((90, 40, 100, 50)));
    assert_eq!(gaussian_aabb_2d((100, 0), (110, 5), 100, 50), None);
    assert_eq!(gaussian_aabb_2d((-9, 0), (-2, 5), 100, 50), None);
}

#[test]
fn pixels_have_one_tile() {
    assert_eq!([n_tiles(0), n_tiles(1), n_tiles(16), n_tiles(17)], [0, 1, 1, 2]);
    let (w, h) = (40, 20);
    assert_eq!(tile_bounds(5, w, h), TileBounds { px0: 32, py0: 16, px1: 40, py1: 20 });
    let mut seen = vec![0; w * h];
    for k in 0..n_tiles(w) * n_tiles(h) {
        let b = tile_bounds(k, w, h);
        for y in b.py0..b.py1 {
            for x in b.px0..b.px1 {
                seen[y * w + x] += 1;
            }
        }
    }
    assert!(seen.iter().all(|&n| n == 1));
}

#[test]
fn splats_are_listed_where_they_reach() {
    assert_eq!(TileRect::over(0, 15, 16, 17), TileRect { x0: 0, y0: 0, x1: 1, y1: 2 });
    let rects = [
        TileRect { x0: 0, y0: 0, x1: 2, y1: 1 },
        TileRect { x0: 1, y0: 0, x1: 9, y1: 9 },
    ];
    assert_eq!(
        bin(&rects, 3, 2),
        vec![vec![0], vec![0, 1], vec![1], vec![], vec![1], vec![1]]
    );
}

/// What kernels say of a Gaussian.
#[derive(Clone, Copy)]
struct Said {
    opacity: f32,
    depth: f32,
    centre: (f32, f32),
    det: f32,
    reach: ((i32, i32), (i32, i32)),
}

const SEEN: Said = Said {
    opacity: 0.5,
    depth: 1.0,
    centre: (10.0, 10.0),
    det: 1.0,
    reach: ((4, 4), (20, 12)),
};

/// Projects to a screen of 64 by 64 pixels; how many kernels were called, too.
fn projected(said: Said) -> (Option<Splat>, usize) {
    let calls = std::cell::Cell::new(0);
    let called = || calls.set(calls.get() + 1);
    let mut g = Gaussian3D::new([bits(0.0); 3]);
    g.sh_coeffs[0] = bits(3.0);
    g.sh_coeffs[16] = bits(0.125);
    let splat = project(
        |_: &Gaussian3D<Single>| {
            called();
            bits(said.opacity)
        },
        |_: &Gaussian3D<Single>| {
            called();
            [bits(7.0), bits(8.0), bits(said.depth)]
        },
        |_: [Single; 3]| {
            called();
            (bits(said.centre.0), bits(said.centre.1))
        },
        |_: &Gaussian3D<Single>| {
            called();
            [bits(1.0), bits(2.0), bits(3.0)]
        },
        |_: [Single; 3]| {
            called();
            bits(said.det)
        },
        |_: (Single, Single), _: [Single; 3]| {
            called();
            said.reach
        },
        |cov: [Single; 3], det: Single| {
            called();
            [cov[2], det, cov[0]]
        },
        |_: &Gaussian3D<Single>| {
            called();
            [bits(0.5); 16]
        },
        |acc: Single, b: Single, c: Single| bits(float(acc) + float(b) * float(c)),
        |v: Single| bits(float(v) + 0.5),
        &g,
        6,
        &Screen { width: 64, height: 64, right: bits(192.0), bottom: bits(192.0) },
    );
    (splat, calls.get())
}

#[test]
fn splats_hold_what_was_measured() {
    let (splat, calls) = projected(SEEN);
    let s = splat.unwrap();
    assert_eq!(calls, 8);
    assert_eq!(s.gi, 6);
    assert_eq!([s.sx, s.sy, s.opacity, s.depth].map(float), [10.0, 10.0, 0.5, 1.0]);
    assert_eq!(s.pcam.map(float), [7.0, 8.0, 1.0]);
    assert_eq!(s.cov2d.map(float), [1.0, 2.0, 3.0]);
    assert_eq!(s.conic.map(float), [3.0, 1.0, 1.0]);
    assert_eq!(s.raw_color.map(float), [2.0, 0.5625, 0.5]);
    assert_eq!(s.color.map(float), [1.0, 0.5625, 0.5]);
    assert_eq!(s.tiles, TileRect { x0: 0, y0: 0, x1: 2, y1: 1 });
}

#[test]
fn what_cannot_be_seen_is_culled() {
    let calls = |said: Said| match projected(said) {
        (None, n) => n,
        (Some(_), _) => panic!("drawn"),
    };
    assert_eq!(calls(Said { opacity: 0.003, ..SEEN }), 1);
    assert_eq!(calls(Said { depth: 0.001, ..SEEN }), 2);
    assert_eq!(calls(Said { centre: (-128.5, 0.0), ..SEEN }), 3);
    assert_eq!(calls(Said { centre: (192.5, 0.0), ..SEEN }), 3);
    assert_eq!(calls(Said { centre: (0.0, -129.0), ..SEEN }), 3);
    assert_eq!(calls(Said { centre: (0.0, 193.0), ..SEEN }), 3);
    assert_eq!(calls(Said { det: -1e-9, ..SEEN }), 5);
    assert_eq!(calls(Said { reach: ((70, 0), (80, 5)), ..SEEN }), 6);
    assert!(projected(Said { centre: (-128.0, 192.0), ..SEEN }).0.is_some());
    assert!(projected(Said { opacity: f32::NAN, ..SEEN }).0.is_some());
}

#[test]
fn drawn_splats_are_kept_nearest_first() {
    let z = bits(0.0);
    let splat = |gi: usize, depth: f32| {
        Some(Splat {
            gi,
            sx: z,
            sy: z,
            conic: [z; 3],
            cov2d: [z; 3],
            color: [z; 3],
            raw_color: [z; 3],
            opacity: z,
            depth: bits(depth),
            basis: [z; 16],
            pcam: [z; 3],
            tiles: TileRect { x0: 0, y0: 0, x1: 1, y1: 1 },
        })
    };
    let projected = [splat(0, 3.0), None, splat(2, 1.0), splat(3, 3.0), splat(4, 0.5)];
    let (splats, lists, nx) = project_and_bin(&projected, 20, 16);
    let order: Vec<usize> = splats.iter().map(|s| s.gi).collect();
    assert_eq!(order, [4, 2, 0, 3]);
    assert_eq!((nx, lists), (2, vec![vec![0, 1, 2, 3], vec![]]));
}

// ── blur ──────────────────────────────────────────────────────────────────────

fn blurred(src: &[f32], w: usize, h: usize, k: &[f32]) -> Vec<f32> {
    let src: Vec<Single> = src.iter().map(|&v| bits(v)).collect();
    let k: Vec<Single> = k.iter().map(|&v| bits(v)).collect();
    let mac = |acc: Single, weight: Single, v: Single| bits(float(acc) + float(weight) * float(v));
    blur(mac, &src, w, h, &k).into_iter().map(float).collect()
}

#[test]
fn blur_spreads_over_both_axes() {
    let mut src = vec![0.0; 15];
    src[7] = 1.0;
    let out = blurred(&src, 5, 3, &[1.0, 2.0, 3.0]);
    // The weight that falls on the point depends on the side it is seen from.
    assert_eq!(
        out,
        [
            0.0, 9.0, 6.0, 3.0, 0.0, //
            0.0, 6.0, 4.0, 2.0, 0.0, //
            0.0, 3.0, 2.0, 1.0, 0.0,
        ]
    );
}

#[test]
fn blur_pads_with_zero() {
    assert_eq!(blurred(&[1.0, 1.0, 1.0], 3, 1, &[1.0, 1.0, 1.0]), [2.0, 3.0, 2.0]);
    assert_eq!(blurred(&[], 0, 0, &[1.0]), Vec::<f32>::new());
}

#[test]
fn blur_is_its_own_adjoint() {
    let (w, h) = (5, 4);
    let k = [0.25, 0.5, 0.25];
    let a: Vec<f32> = (0..20).map(|i| (i * 7 % 5) as f32).collect();
    let b: Vec<f32> = (0..20).map(|i| (i * 3 % 7) as f32).collect();
    let dot = |x: &[f32], y: &[f32]| x.iter().zip(y).map(|(p, q)| p * q).sum::<f32>();
    assert_eq!(dot(&blurred(&a, w, h, &k), &b), dot(&a, &blurred(&b, w, h, &k)));
}

#[test]
fn blur_that_rounds_is_nearly_its_own_adjoint() {
    let (w, h) = (7, 5);
    let k = [0.1f32, 0.2, 0.4, 0.2, 0.1];
    let a: Vec<f32> = (0..35).map(|i| (i * 7 % 11) as f32 / 11.0).collect();
    let b: Vec<f32> = (0..35).map(|i| (i * 5 % 13) as f32 / 13.0).collect();
    let dot = |x: &[f32], y: &[f32]| -> f64 {
        x.iter().zip(y).map(|(&p, &q)| p as f64 * q as f64).sum()
    };
    let mass = |x: &[f32]| -> f64 { x.iter().map(|&v| v.abs() as f64).sum() };
    // Two roundings of values that stay below two.
    let eps = 2.0 * 2.0f64.powi(-24) * 2.0;
    let gain: f64 = k.iter().map(|&v| v as f64).sum();
    let error = (1.0 + gain) * k.len() as f64 * eps;
    let off = dot(&blurred(&a, w, h, &k), &b) - dot(&a, &blurred(&b, w, h, &k));
    assert!(off.abs() <= error * (mass(&a) + mass(&b)));
}
