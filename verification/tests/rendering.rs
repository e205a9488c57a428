//! Rendering, its gradients and training, with floating-point kernels.

use nalgebra::{Matrix3, Matrix4, Quaternion, UnitQuaternion, Vector3, Vector4};

use rgsplat::cpu::backward::{backward_pass, merge_tiles, pull_tile, SplatGradAccum};
use rgsplat::cpu::forward::{composite_tile, forward_pass, no_light, place_tiles, Light};
use rgsplat::cpu::geometry::{Unprojection, View3D};
use rgsplat::cpu::loss::{
    photometric_loss_grad, ssim_channel, LossConfig, Moments, Photometric, Slope, Terms,
};
use rgsplat::cpu::project::{project_all, Screen};
use rgsplat::cpu::rasterizer::{self, rasterize};
use rgsplat::cpu::render::{render_and_backward, render_color, GaussianGrad};
use rgsplat::cpu::splat::{project_and_bin, Splat};
use rgsplat::cpu::tiles::TileRect;
use rgsplat::io::images::{self, TargetImage};
use rgsplat::math::camera::Camera;
use rgsplat::math::projection::{frustum_planes, sphere_in_frustum, Plane};
use rgsplat::math::sh::{backprop_color, eval_sh_deg3};
use rgsplat::math::{covariance, quaternion, sh, Gaussian3D};
use rgsplat::num::single::Single;
use rgsplat::pipeline::optimizer::{adam_step, AdamState, TrainConfig};

// ── kernels ───────────────────────────────────────────────────────────────────

/// The pattern of a float.
fn bits(x: f32) -> Single {
    Single { bits: x.to_bits() }
}

/// The float of a pattern.
fn float(x: Single) -> f32 {
    f32::from_bits(x.bits)
}

fn bits_array<const N: usize>(v: [f32; N]) -> [Single; N] {
    v.map(bits)
}

fn float_array<const N: usize>(v: [Single; N]) -> [f32; N] {
    v.map(float)
}

/// A Gaussian of floats.
fn float_gaussian(g: &Gaussian3D<Single>) -> Gaussian3D<f32> {
    Gaussian3D {
        position: float_array(g.position),
        opacity_logit: float(g.opacity_logit),
        rotation: float_array(g.rotation),
        log_scale: float_array(g.log_scale),
        sh_coeffs: float_array(g.sh_coeffs),
    }
}

/// The inverse of [`sigmoid`].
fn logit(p: f32) -> f32 {
    (p / (1.0 - p)).ln()
}

/// `1 / (1 + exp(-x))`.
fn sigmoid(x: f32) -> f32 {
    1.0 / (1.0 + (-x).exp())
}

/// sRGB to linear light.
fn srgb_to_linear(x: f32) -> f32 {
    float(images::srgb_to_linear(
        |v: Single| bits(float(v) / 12.92),
        |v: Single| bits(((float(v) + 0.055) / 1.055).powf(2.4)),
        bits(x),
    ))
}

/// Linear light to sRGB.
fn linear_to_srgb(x: f32) -> f32 {
    float(rasterizer::linear_to_srgb(
        |v: Single| bits(12.92 * float(v)),
        |v: Single| bits(1.055 * float(v).powf(1.0 / 2.4) - 0.055),
        bits(x),
    ))
}

fn scale(g: &Gaussian3D<f32>) -> [f32; 3] {
    g.log_scale.map(f32::exp)
}

fn rotation_quat(g: &Gaussian3D<f32>) -> UnitQuaternion<f32> {
    let [w, x, y, z] = g.rotation;
    UnitQuaternion::from_quaternion(Quaternion::new(w, x, y, z))
}

/// The covariance in world space.
fn covariance_3d(g: &Gaussian3D<f32>) -> Matrix3<f32> {
    let r = rotation_quat(g).to_rotation_matrix();
    let s = scale(g);
    let rs = r.matrix() * Matrix3::from_diagonal(&Vector3::new(s[0], s[1], s[2]));
    rs * rs.transpose()
}

/// The pose as a matrix; it is stored row by row.
fn c2w_matrix(c: &Camera<f32>) -> Matrix4<f32> {
    Matrix4::from_fn(|row, col| c.c2w[row][col])
}

/// World to camera.
fn view_matrix(c: &Camera<f32>) -> Matrix4<f32> {
    c2w_matrix(c).try_inverse().expect("c2w must be invertible")
}

fn divide(a: Single, b: Single) -> Single {
    bits(float(a) / float(b))
}

fn minus(a: Single, b: Single) -> Single {
    bits(float(a) - float(b))
}

/// The length of a quaternion.
fn norm4(q: [Single; 4]) -> Single {
    let [a, b, c, d] = float_array(q);
    bits((a * a + b * b + c * c + d * d).sqrt())
}

/// The length of a vector.
fn norm3(v: [Single; 3]) -> Single {
    let [a, b, c] = float_array(v);
    bits((a * a + b * b + c * c).sqrt())
}

/// A quaternion of length one; the identity, where it has hardly any length.
fn normalize_quaternion(q: [f32; 4]) -> [f32; 4] {
    float_array(quaternion::normalize(norm4, divide, bits_array(q)))
}

/// The rotation matrix formula, without normalising.
fn mat_from_quat_components(q: [f32; 4]) -> Matrix3<f32> {
    let [w, x, y, z] = q;
    Matrix3::new(
        1.0 - 2.0 * (y * y + z * z),
        2.0 * (x * y - w * z),
        2.0 * (x * z + w * y),
        2.0 * (x * y + w * z),
        1.0 - 2.0 * (x * x + z * z),
        2.0 * (y * z - w * x),
        2.0 * (x * z - w * y),
        2.0 * (y * z + w * x),
        1.0 - 2.0 * (x * x + y * y),
    )
}

fn to_rotation_matrix(q: [f32; 4]) -> Matrix3<f32> {
    mat_from_quat_components(normalize_quaternion(q))
}

/// The derivative of the rotation matrix by each component, at the normalised quaternion.
fn rotation_jacobian(q: [f32; 4]) -> [Matrix3<f32>; 4] {
    let [w, x, y, z] = normalize_quaternion(q);
    [
        Matrix3::new(
            0.0, -2.0 * z, 2.0 * y, 2.0 * z, 0.0, -2.0 * x, -2.0 * y, 2.0 * x, 0.0,
        ),
        Matrix3::new(
            0.0, 2.0 * y, 2.0 * z, 2.0 * y, -4.0 * x, -2.0 * w, 2.0 * z, 2.0 * w, -4.0 * x,
        ),
        Matrix3::new(
            -4.0 * y, 2.0 * x, 2.0 * w, 2.0 * x, 0.0, 2.0 * z, -2.0 * w, 2.0 * z, -4.0 * y,
        ),
        Matrix3::new(
            -4.0 * z, -2.0 * w, 2.0 * x, 2.0 * w, -4.0 * z, 2.0 * y, 2.0 * x, 2.0 * y, 0.0,
        ),
    ]
}

fn rows(m: &Matrix3<f32>) -> [[Single; 3]; 3] {
    let row = |i: usize| bits_array([m[(i, 0)], m[(i, 1)], m[(i, 2)]]);
    [row(0), row(1), row(2)]
}

fn matrix(m: [[Single; 3]; 3]) -> Matrix3<f32> {
    Matrix3::from_fn(|i, j| float(m[i][j]))
}

fn build_cov3d(scale: [f32; 3], rot: [f32; 4]) -> Matrix3<f32> {
    let gram = |m: [[Single; 3]; 3]| {
        let m = matrix(m);
        rows(&(m * m.transpose()))
    };
    let r = rows(&to_rotation_matrix(rot));
    matrix(covariance::build_cov3d(times, gram, &r, bits_array(scale)))
}

/// From the gradient of the covariance to those of the log scales and the rotation.
fn backprop_cov3d(
    scale: [f32; 3],
    rot: [f32; 4],
    dl_dsigma: &Matrix3<f32>,
) -> ([f32; 3], [f32; 4]) {
    let (d_log_scale, d_rot) = covariance::backprop_cov3d(
        mac,
        times,
        |g: [[Single; 3]; 3], m: [[Single; 3]; 3]| {
            let g = matrix(g);
            rows(&((g + g.transpose()) * matrix(m)))
        },
        |a: [[Single; 3]; 3], b: [[Single; 3]; 3]| bits(matrix(a).component_mul(&matrix(b)).sum()),
        &rows(&to_rotation_matrix(rot)),
        &rotation_jacobian(rot).map(|j| rows(&j)),
        bits_array(scale),
        &rows(dl_dsigma),
    );
    (float_array(d_log_scale), float_array(d_rot))
}

/// The covariance on the screen; the upper left block of the result.
fn project_covariance(
    sigma_3d: &Matrix3<f32>,
    position: &[f32; 3],
    view: &Matrix4<f32>,
    focal: (f32, f32),
) -> Matrix3<f32> {
    let p_cam = view * Vector4::new(position[0], position[1], position[2], 1.0);
    let (tx, ty, tz) = (p_cam.x, p_cam.y, p_cam.z.max(0.001));
    let (fx, fy) = focal;
    let j = Matrix3::new(
        fx / tz,
        0.0,
        -fx * tx / (tz * tz),
        0.0,
        fy / tz,
        -fy * ty / (tz * tz),
        0.0,
        0.0,
        0.0,
    );
    let w = view.fixed_view::<3, 3>(0, 0).into_owned();
    let t = j * w;
    let mut result = t * sigma_3d * t.transpose();
    result[(0, 0)] += 0.3;
    result[(1, 1)] += 0.3;
    result
}

/// A perspective projection for a pinhole camera.
fn make_projection(
    fx: f32,
    fy: f32,
    cx: f32,
    cy: f32,
    w: f32,
    h: f32,
    near: f32,
    far: f32,
) -> Matrix4<f32> {
    Matrix4::new(
        2.0 * fx / w,
        0.0,
        (w - 2.0 * cx) / w,
        0.0,
        0.0,
        -2.0 * fy / h,
        (h - 2.0 * cy) / h,
        0.0,
        0.0,
        0.0,
        -(far + near) / (far - near),
        -(2.0 * far * near) / (far - near),
        0.0,
        0.0,
        -1.0,
        0.0,
    )
}

/// The six planes of a view frustum, as normals and distances.
fn planes_of(m: &Matrix4<f32>) -> [Plane; 6] {
    let row = |i: usize| bits_array([m[(i, 0)], m[(i, 1)], m[(i, 2)], m[(i, 3)]]);
    frustum_planes(plus, minus, norm3, divide, &[row(0), row(1), row(2), row(3)])
}

/// The signed distance of a point to a plane.
fn distance(p: Plane, point: [Single; 3]) -> Single {
    let normal = Vector3::from(float_array(p.0));
    bits(normal.dot(&Vector3::from(float_array(point))) + float(p.1))
}

/// The corners around a mean, `n_sigma` standard deviations away, rounded towards zero.
fn extent_2d(
    mean: (f32, f32),
    [a, b, c]: [f32; 3],
    n_sigma: f32,
) -> ((i32, i32), (i32, i32)) {
    let mid = (a + c) * 0.5;
    let disc = ((a - c) * (a - c) * 0.25 + b * b).sqrt();
    let lambda1 = (mid + disc).max(0.0);
    let lambda2 = (mid - disc).max(0.0);
    let r = n_sigma * lambda1.sqrt().max(lambda2.sqrt());
    let (mx, my) = mean;
    (
        ((mx - r) as i32, (my - r) as i32),
        ((mx + r) as i32, (my + r) as i32),
    )
}

const SH_C0: f32 = 0.28209479177387814;

const SH_C1: f32 = 0.4886025119029199;

const SH_C2: [f32; 5] = [
    1.0925484305920792,
    -1.0925484305920792,
    0.31539156525252005,
    -1.0925484305920792,
    0.5462742152960396,
];

const SH_C3: [f32; 7] = [
    -0.5900435899266435,
    2.890611442640554,
    -0.4570457994644658,
    0.3731763325901154,
    -0.4570457994644658,
    1.445305721320277,
    -0.5900435899266435,
];

/// The 16 basis values in a direction.
fn sh_basis(dir: [f32; 3]) -> [f32; 16] {
    let [x, y, z] = dir;
    let (xx, yy, zz) = (x * x, y * y, z * z);
    let (xy, xz, yz) = (x * y, x * z, y * z);
    [
        SH_C0,
        SH_C1 * -y,
        SH_C1 * z,
        SH_C1 * -x,
        SH_C2[0] * xy,
        SH_C2[1] * yz,
        SH_C2[2] * (2.0 * zz - xx - yy),
        SH_C2[3] * xz,
        SH_C2[4] * (xx - yy),
        SH_C3[0] * y * (3.0 * xx - yy),
        SH_C3[1] * xy * z,
        SH_C3[2] * y * (4.0 * zz - xx - yy),
        SH_C3[3] * z * (2.0 * zz - 3.0 * xx - 3.0 * yy),
        SH_C3[4] * x * (4.0 * zz - xx - yy),
        SH_C3[5] * z * (xx - yy),
        SH_C3[6] * x * (xx - 3.0 * yy),
    ]
}

/// The gradient of each basis value by the direction.
fn sh_basis_grad(dir: [f32; 3]) -> [[f32; 3]; 16] {
    let [x, y, z] = dir;
    let (xx, yy, zz) = (x * x, y * y, z * z);
    [
        [0.0, 0.0, 0.0],
        [0.0, -SH_C1, 0.0],
        [0.0, 0.0, SH_C1],
        [-SH_C1, 0.0, 0.0],
        [SH_C2[0] * y, SH_C2[0] * x, 0.0],
        [0.0, SH_C2[1] * z, SH_C2[1] * y],
        [SH_C2[2] * -2.0 * x, SH_C2[2] * -2.0 * y, SH_C2[2] * 4.0 * z],
        [SH_C2[3] * z, 0.0, SH_C2[3] * x],
        [SH_C2[4] * 2.0 * x, SH_C2[4] * -2.0 * y, 0.0],
        [SH_C3[0] * 6.0 * x * y, SH_C3[0] * 3.0 * (xx - yy), 0.0],
        [SH_C3[1] * y * z, SH_C3[1] * x * z, SH_C3[1] * x * y],
        [
            SH_C3[2] * -2.0 * x * y,
            SH_C3[2] * (4.0 * zz - xx - 3.0 * yy),
            SH_C3[2] * 8.0 * y * z,
        ],
        [
            SH_C3[3] * -6.0 * x * z,
            SH_C3[3] * -6.0 * y * z,
            SH_C3[3] * (6.0 * zz - 3.0 * xx - 3.0 * yy),
        ],
        [
            SH_C3[4] * (4.0 * zz - 3.0 * xx - yy),
            SH_C3[4] * -2.0 * x * y,
            SH_C3[4] * 8.0 * x * z,
        ],
        [
            SH_C3[5] * 2.0 * x * z,
            SH_C3[5] * -2.0 * y * z,
            SH_C3[5] * (xx - yy),
        ],
        [SH_C3[6] * 3.0 * (xx - yy), SH_C3[6] * -6.0 * x * y, 0.0],
    ]
}

/// From a Gaussian to the camera.
fn view_dir(gaussian_pos: [f32; 3], camera_pos: [f32; 3]) -> [f32; 3] {
    let (g, c) = (bits_array(gaussian_pos), bits_array(camera_pos));
    float_array(sh::view_dir(minus, norm3, divide, g, c))
}

/// The offset of a pixel's centre from a splat's.
fn offset(px: usize, py: usize, sx: Single, sy: Single) -> (f32, f32) {
    (px as f32 + 0.5 - float(sx), py as f32 + 0.5 - float(sy))
}

fn exponent(a: f32, b: f32, c: f32, dx: f32, dy: f32) -> f32 {
    -0.5 * (a * dx * dx + 2.0 * b * dx * dy + c * dy * dy)
}

fn add_light(color: [f32; 3], alpha: f32, l: Light) -> Light {
    let t = float(l.t);
    let weight = alpha * t;
    Light {
        red: bits(float(l.red) + color[0] * weight),
        green: bits(float(l.green) + color[1] * weight),
        blue: bits(float(l.blue) + color[2] * weight),
        t: bits(t * (1.0 - alpha)),
    }
}

/// The exponent of a splat at a pixel.
fn power(px: usize, py: usize, s: &Splat) -> Single {
    let (dx, dy) = offset(px, py, s.sx, s.sy);
    let [a, b, c] = float_array(s.conic);
    bits(exponent(a, b, c, dx, dy))
}

/// What of a splat's opacity an exponent leaves.
fn alpha(s: &Splat, power: Single) -> Single {
    bits(float(s.opacity) * float(power).exp())
}

fn blend(s: &Splat, alpha: Single, l: Light) -> Light {
    add_light(float_array(s.color), float(alpha), l)
}

/// Light over a background.
fn over(bg: [f32; 3]) -> impl Fn(Light) -> [Single; 3] + Copy + Sync {
    move |l: Light| {
        let t = float(l.t);
        [
            bits(float(l.red) + t * bg[0]),
            bits(float(l.green) + t * bg[1]),
            bits(float(l.blue) + t * bg[2]),
        ]
    }
}

/// The background's share of a pixel.
fn leak(bg: [f32; 3]) -> impl Fn(Single) -> Light + Copy + Sync {
    move |t: Single| {
        let v = float(t);
        Light {
            red: bits(v * bg[0]),
            green: bits(v * bg[1]),
            blue: bits(v * bg[2]),
            t,
        }
    }
}

/// How much of the background is hidden.
fn coverage(t: Single) -> Single {
    bits(1.0 - float(t))
}

/// Takes one blended splat back.
fn pull(
    px: usize,
    py: usize,
    s: &Splat,
    alpha: Single,
    slope: Single,
    dl: [Single; 3],
    behind: Light,
    g: SplatGradAccum,
) -> (Light, SplatGradAccum) {
    let (dx, dy) = offset(px, py, s.sx, s.sy);
    let [a, b, c] = float_array(s.conic);
    let g_exp = exponent(a, b, c, dx, dy).exp();
    let opacity = float(s.opacity);
    let alpha = float(alpha);
    let color = float_array(s.color);
    let dl = float_array(dl);
    let back = [float(behind.red), float(behind.green), float(behind.blue)];

    let t = float(behind.t) / (1.0 - alpha);
    let weight = alpha * t;
    let inv_1ma = 1.0 / (1.0 - alpha);
    let mut dl_dalpha = 0.0f32;
    for ch in 0..3 {
        dl_dalpha += dl[ch] * (t * color[ch] - back[ch] * inv_1ma);
    }
    let dl_draw = dl_dalpha * float(slope);
    let dl_dpower = dl_draw * opacity * g_exp;

    let grad = SplatGradAccum {
        red: bits(float(g.red) + dl[0] * weight),
        green: bits(float(g.green) + dl[1] * weight),
        blue: bits(float(g.blue) + dl[2] * weight),
        opacity: bits(float(g.opacity) + dl_draw * g_exp),
        conic_a: bits(float(g.conic_a) + dl_dpower * (-0.5 * dx * dx)),
        conic_b: bits(float(g.conic_b) + dl_dpower * (-dx * dy)),
        conic_c: bits(float(g.conic_c) + dl_dpower * (-0.5 * dy * dy)),
        sx: bits(float(g.sx) + dl_dpower * (a * dx + b * dy)),
        sy: bits(float(g.sy) + dl_dpower * (b * dx + c * dy)),
    };
    let light = Light {
        red: bits(back[0] + weight * color[0]),
        green: bits(back[1] + weight * color[1]),
        blue: bits(back[2] + weight * color[2]),
        t: bits(t),
    };
    (light, grad)
}

fn plus(a: Single, b: Single) -> Single {
    bits(float(a) + float(b))
}

fn sum_of(a: SplatGradAccum, b: SplatGradAccum) -> SplatGradAccum {
    SplatGradAccum {
        red: plus(a.red, b.red),
        green: plus(a.green, b.green),
        blue: plus(a.blue, b.blue),
        opacity: plus(a.opacity, b.opacity),
        conic_a: plus(a.conic_a, b.conic_a),
        conic_b: plus(a.conic_b, b.conic_b),
        conic_c: plus(a.conic_c, b.conic_c),
        sx: plus(a.sx, b.sx),
        sy: plus(a.sy, b.sy),
    }
}

fn add_up(a: Single, b: Single) -> Single {
    plus(a, b)
}

fn times(a: Single, b: Single) -> Single {
    bits(float(a) * float(b))
}

fn mac(acc: Single, weight: Single, v: Single) -> Single {
    bits(float(acc) + float(weight) * float(v))
}

/// The similarity at a pixel and its partial derivatives.
fn ssim_terms(m: Moments) -> Terms {
    const C1: f32 = 0.01 * 0.01;
    const C2: f32 = 0.03 * 0.03;
    let (mx, my) = (float(m.mx), float(m.my));
    let sx2 = float(m.xx) - mx * mx;
    let sy2 = float(m.yy) - my * my;
    let sxy = float(m.xy) - mx * my;
    let a1 = 2.0 * mx * my + C1;
    let a2 = 2.0 * sxy + C2;
    let b1 = mx * mx + my * my + C1;
    let b2 = sx2 + sy2 + C2;
    let num = a1 * a2;
    let den = b1 * b2;
    let inv_den = 1.0 / den;
    let p = inv_den * (2.0 * my * a2) - (num / (den * den)) * (2.0 * mx * b2);
    let q = inv_den * (2.0 * a1);
    let r = -(num / (den * den)) * b1;
    Terms {
        ssim: bits(num / den),
        p: bits(p),
        q: bits(q),
        r: bits(r),
        q_mu: bits(q * my),
        r_mu: bits(r * mx),
    }
}

fn ssim_slope(s: Slope) -> Single {
    bits(
        float(s.p) + float(s.y) * float(s.q) - float(s.q_mu) + 2.0 * float(s.x) * float(s.r)
            - 2.0 * float(s.r_mu),
    )
}

/// A normalised Gaussian window.
fn gaussian_kernel_1d(radius: usize, sigma: f32) -> Vec<Single> {
    let mut k = vec![0.0f32; 2 * radius + 1];
    let mut sum = 0.0;
    for (i, v) in k.iter_mut().enumerate() {
        let d = i as f32 - radius as f32;
        *v = (-0.5 * d * d / (sigma * sigma)).exp();
        sum += *v;
    }
    k.into_iter().map(|v| bits(v / sum)).collect()
}

fn miss(acc: Single, r: Single, t: Single) -> Single {
    bits(float(acc) + (float(r) - float(t)).abs())
}

/// The gradient of a sample's absolute error.
fn sign(lambda: f32, samples: f32) -> impl Fn(Single, Single) -> Single + Copy {
    move |r: Single, t: Single| {
        bits((1.0 - lambda) * (float(r) - float(t)).signum() / samples)
    }
}

/// Adds the similarity's gradient.
fn correct(lambda: f32, samples: f32) -> impl Fn(Single, Single) -> Single + Copy {
    move |d: Single, g: Single| bits(float(d) + -lambda * float(g) / samples)
}

/// Weighs the sums of both terms.
fn total(lambda: f32, samples: f32) -> impl Fn(Single, Single) -> Single + Copy {
    move |l1: Single, ssim: Single| {
        let l1 = float(l1) / samples;
        let mean = float(ssim) / samples;
        bits((1.0 - lambda) * l1 + lambda * (1.0 - mean))
    }
}

/// A camera, as the gradient of a Gaussian needs it.
struct Viewpoint {
    view3: Matrix3<f32>,
    focal: (f32, f32),
    position: [f32; 3],
}

/// Geometry with floating-point linear algebra for kernels.
fn geometry_of(at: &Viewpoint) -> impl Unprojection + '_ {
    View3D {
        logit: |d: Single, opacity: Single| {
            let op = float(opacity);
            bits(float(d) * op * (1.0 - op))
        },
        times,
        invert: |conic: [Single; 3], cov: [Single; 3]| {
            bits_array(cov_grad(float_array(conic), float_array(cov)))
        },
        shape: move |g: &Gaussian3D<Single>, pcam: [Single; 3], cov: [Single; 3]| {
            let g = float_gaussian(g);
            let t_mat = jacobian(float_array(pcam), at.focal) * at.view3;
            let dl_dsigma3d = t_mat.transpose() * symmetric(float_array(cov)) * t_mat;
            let (d_log_scale, d_rotation) =
                backprop_cov3d(scale(&g), g.rotation, &dl_dsigma3d);
            (bits_array(d_log_scale), bits_array(d_rotation))
        },
        place: move |g: &Gaussian3D<Single>, pcam: [Single; 3], cov: [Single; 3], d: (Single, Single)| {
            let sigma3d = covariance_3d(&float_gaussian(g));
            let d = (float(d.0), float(d.1));
            bits_array(position_grad(&sigma3d, float_array(pcam), float_array(cov), d, at))
        },
        away: move |position: [Single; 3]| bits(to_camera(float_array(position), at).norm()),
        weigh: |masked: [Single; 3], c: [Single; 3]| {
            let (m, c) = (float_array(masked), float_array(c));
            bits(m[0] * c[0] + m[1] * c[1] + m[2] * c[2])
        },
        turn: move |position: [Single; 3], dl_dbasis: [Single; 16]| {
            bits_array(direction_grad(float_array(position), float_array(dl_dbasis), at))
        },
        both: |a: [Single; 3], b: [Single; 3]| [plus(a[0], b[0]), plus(a[1], b[1]), plus(a[2], b[2])],
        length: |x: Single, y: Single| bits((float(x) * float(x) + float(y) * float(y)).sqrt()),
    }
}

/// From the gradient of an inverse covariance to that of the covariance.
fn cov_grad([ga, gb, gc]: [f32; 3], [a, b, c]: [f32; 3]) -> [f32; 3] {
    let det = a * c - b * b;
    let det2 = det * det;
    [
        (-ga * c * c + gb * b * c - gc * b * b) / det2,
        (2.0 * ga * b * c - gb * (det + 2.0 * b * b) + 2.0 * gc * a * b) / det2,
        (-ga * b * b + gb * a * b - gc * a * a) / det2,
    ]
}

/// The derivative of the projection at a point in camera space.
fn jacobian([tx, ty, tz]: [f32; 3], (fx, fy): (f32, f32)) -> Matrix3<f32> {
    Matrix3::new(
        fx / tz,
        0.0,
        -fx * tx / (tz * tz),
        0.0,
        fy / tz,
        -fy * ty / (tz * tz),
        0.0,
        0.0,
        0.0,
    )
}

/// The gradient of a covariance as a matrix; both off-diagonal entries carry one half.
fn symmetric([a, b, c]: [f32; 3]) -> Matrix3<f32> {
    Matrix3::new(a, 0.5 * b, 0.0, 0.5 * b, c, 0.0, 0.0, 0.0, 0.0)
}

/// The gradient of a position, from that of the screen covariance and the screen centre.
fn position_grad(
    sigma3d: &Matrix3<f32>,
    pcam: [f32; 3],
    [da, db, dc]: [f32; 3],
    (dsx, dsy): (f32, f32),
    at: &Viewpoint,
) -> [f32; 3] {
    let (fx, fy) = at.focal;
    let [tx, ty, tz] = pcam;
    let t_mat = jacobian(pcam, at.focal) * at.view3;
    let mut dl_dpcam = Vector3::new(
        dsx * fx / tz,
        dsy * fy / tz,
        dsx * (-fx * tx / (tz * tz)) + dsy * (-fy * ty / (tz * tz)),
    );
    let dj = [
        Matrix3::new(0.0, 0.0, -fx / (tz * tz), 0.0, 0.0, 0.0, 0.0, 0.0, 0.0),
        Matrix3::new(0.0, 0.0, 0.0, 0.0, 0.0, -fy / (tz * tz), 0.0, 0.0, 0.0),
        Matrix3::new(
            -fx / (tz * tz),
            0.0,
            2.0 * fx * tx / (tz * tz * tz),
            0.0,
            -fy / (tz * tz),
            2.0 * fy * ty / (tz * tz * tz),
            0.0,
            0.0,
            0.0,
        ),
    ];
    let sig_tt = sigma3d * t_mat.transpose();
    for k in 0..3 {
        let dt = dj[k] * at.view3;
        let dsigma2d = dt * sig_tt + t_mat * sigma3d * dt.transpose();
        dl_dpcam[k] += da * dsigma2d[(0, 0)] + db * dsigma2d[(0, 1)] + dc * dsigma2d[(1, 1)];
    }
    let d = at.view3.transpose() * dl_dpcam;
    [d[0], d[1], d[2]]
}

/// From a position to the camera.
fn to_camera(position: [f32; 3], at: &Viewpoint) -> Vector3<f32> {
    Vector3::new(
        at.position[0] - position[0],
        at.position[1] - position[1],
        at.position[2] - position[2],
    )
}

/// What the gradient of the basis adds to that of the position.
fn direction_grad(position: [f32; 3], dl_dbasis: [f32; 16], at: &Viewpoint) -> [f32; 3] {
    let u = to_camera(position, at);
    let len = u.norm();
    let dir = u / len;
    let dbasis = sh_basis_grad([dir[0], dir[1], dir[2]]);
    let mut dl_ddir = Vector3::zeros();
    for k in 0..16 {
        dl_ddir += dl_dbasis[k] * Vector3::new(dbasis[k][0], dbasis[k][1], dbasis[k][2]);
    }
    let along = dl_ddir - dir * dir.dot(&dl_ddir);
    let d = -(along / len);
    [d[0], d[1], d[2]]
}

// ── scenes ────────────────────────────────────────────────────────────────────

/// A camera at the origin that looks along +z.
fn test_camera(w: u32, h: u32) -> Camera<f32> {
    Camera {
        width: w,
        height: h,
        fx: w as f32,
        fy: w as f32,
        cx: w as f32 / 2.0,
        cy: h as f32 / 2.0,
        c2w: [
            [1.0, 0.0, 0.0, 0.0],
            [0.0, 1.0, 0.0, 0.0],
            [0.0, 0.0, 1.0, 0.0],
            [0.0, 0.0, 0.0, 1.0],
        ],
        distortion: [0.0; 3],
        image_path: None,
    }
}

fn solid_target(w: usize, h: usize, color: [f32; 3]) -> TargetImage {
    let mut data = Vec::new();
    for _ in 0..w * h {
        data.extend([bits(color[0]), bits(color[1]), bits(color[2]), bits(1.0)]);
    }
    TargetImage { width: w, height: h, data }
}

fn gaussian(position: [f32; 3]) -> Gaussian3D<Single> {
    Gaussian3D::new(bits_array(position))
}

fn seen_by(gaussians: &[Gaussian3D<Single>], camera: &Camera<f32>) -> Vec<Option<Splat>> {
    let view = view_matrix(camera);
    let (fx, fy) = camera.focal();
    project_all(
        |g: &Gaussian3D<Single>| bits(sigmoid(float(g.opacity_logit))),
        |g: &Gaussian3D<Single>| {
            let [x, y, z] = float_array(g.position);
            let p = view * Vector4::new(x, y, z, 1.0);
            bits_array([p.x, p.y, p.z])
        },
        |pcam: [Single; 3]| {
            let [x, y, z] = float_array(pcam);
            (bits(fx * x / z + camera.cx), bits(fy * y / z + camera.cy))
        },
        |g: &Gaussian3D<Single>| {
            let g = float_gaussian(g);
            let sigma = project_covariance(&covariance_3d(&g), &g.position, &view, (fx, fy));
            bits_array([sigma[(0, 0)], sigma[(0, 1)], sigma[(1, 1)]])
        },
        |cov: [Single; 3]| {
            let [a, b, c] = float_array(cov);
            bits(a * c - b * b)
        },
        |c: (Single, Single), cov: [Single; 3]| {
            extent_2d((float(c.0), float(c.1)), float_array(cov), 3.0)
        },
        |cov: [Single; 3], det: Single| {
            let [a, b, c] = float_array(cov);
            let det = float(det);
            bits_array([c / det, -b / det, a / det])
        },
        |g: &Gaussian3D<Single>| {
            bits_array(sh_basis(view_dir(float_array(g.position), camera.position())))
        },
        mac,
        lift,
        gaussians,
        &Screen {
            width: camera.width,
            height: camera.height,
            right: bits(camera.width as f32 + 128.0),
            bottom: bits(camera.height as f32 + 128.0),
        },
    )
}

fn lift(v: Single) -> Single {
    bits(float(v) + 0.5)
}

fn image_of(gaussians: &[Gaussian3D<Single>], camera: &Camera<f32>, bg: [f32; 3]) -> Vec<f32> {
    let (w, h) = (camera.width as usize, camera.height as usize);
    let projected = seen_by(gaussians, camera);
    render_color(power, alpha, blend, over(bg), &projected, w, h)
        .into_iter()
        .map(float)
        .collect()
}

fn image_loss(
    rendered: &[Single],
    target: &[Single],
    w: usize,
    h: usize,
    lambda: f32,
) -> (Single, Vec<Single>) {
    let m = (w * h * 3) as f32;
    photometric_loss_grad(
        mac,
        times,
        ssim_terms,
        add_up,
        ssim_slope,
        miss,
        sign(lambda, m),
        correct(lambda, m),
        total(lambda, m),
        &gaussian_kernel_1d(5, 1.5),
        rendered,
        target,
        w,
        h,
    )
}

fn loss_and_grads(
    gaussians: &[Gaussian3D<Single>],
    camera: &Camera<f32>,
    target: &TargetImage,
    bg: [f32; 3],
    cfg: &LossConfig,
) -> (f32, Vec<GaussianGrad>) {
    let (w, h) = (camera.width as usize, camera.height as usize);
    let lambda = float(cfg.lambda_dssim);
    let at = Viewpoint {
        view3: view_matrix(camera).fixed_view::<3, 3>(0, 0).into_owned(),
        focal: camera.focal(),
        position: camera.position(),
    };
    let m = (w * h * 3) as f32;
    let loss_of = Photometric {
        mac,
        times,
        terms: ssim_terms,
        plus: add_up,
        slope: ssim_slope,
        miss,
        sign: sign(lambda, m),
        correct: correct(lambda, m),
        total: total(lambda, m),
        window: &gaussian_kernel_1d(5, 1.5),
        target_rgba: &target.data,
    };
    let (loss, grads) = render_and_backward(
        power,
        alpha,
        blend,
        over(bg),
        leak(bg),
        pull,
        sum_of,
        &loss_of,
        &geometry_of(&at),
        gaussians,
        &seen_by(gaussians, camera),
        w,
        h,
    );
    (float(loss), grads)
}

// ── loss ──────────────────────────────────────────────────────────────────────

#[test]
fn ssim_of_identical_images_is_one() {
    let w = 16;
    let h = 16;
    let img: Vec<Single> = (0..w * h).map(|i| bits((i % 7) as f32 / 7.0)).collect();
    let k = gaussian_kernel_1d(5, 1.5);
    let (s, _) = ssim_channel(mac, times, ssim_terms, add_up, ssim_slope, &img, &img, w, h, &k);
    assert!((float(s) / (w * h) as f32 - 1.0).abs() < 1e-4);
}

#[test]
fn image_loss_gradient_matches_finite_difference() {
    let (w, h) = (12usize, 12usize);
    let mut rendered = vec![0.0f32; w * h * 3];
    let mut target = vec![0.0f32; w * h * 4];
    for p in 0..w * h {
        for ch in 0..3 {
            rendered[p * 3 + ch] = ((p * 3 + ch) as f32 * 0.123).sin() * 0.4 + 0.5;
            target[p * 4 + ch] = ((p * 5 + ch) as f32 * 0.077).cos() * 0.4 + 0.5;
        }
        target[p * 4 + 3] = 1.0;
    }
    let lambda = 0.2;
    let target: Vec<Single> = target.into_iter().map(bits).collect();
    let loss_grad = |r: &[f32]| {
        let r: Vec<Single> = r.iter().map(|&v| bits(v)).collect();
        image_loss(&r, &target, w, h, lambda)
    };
    let (_, grad) = loss_grad(&rendered);

    let eps = 1e-3;
    for &(p, ch) in &[(0usize, 0usize), (40, 1), (77, 2), (143, 0)] {
        let idx = p * 3 + ch;
        let mut rp = rendered.clone();
        let mut rm = rendered.clone();
        rp[idx] += eps;
        rm[idx] -= eps;
        let lp = float(loss_grad(&rp).0);
        let lm = float(loss_grad(&rm).0);
        let num = (lp - lm) / (2.0 * eps);
        assert!(
            (float(grad[idx]) - num).abs() < 2e-3,
            "loss grad mismatch at ({p},{ch}): analytic {} vs numeric {}",
            float(grad[idx]),
            num
        );
    }
}

#[test]
fn loss_of_equal_images_is_only_rounding() {
    let (w, h) = (8usize, 8usize);
    let rendered: Vec<Single> = (0..w * h * 3).map(|i| bits((i % 5) as f32 / 5.0)).collect();
    let mut target = Vec::new();
    for px in rendered.chunks(3) {
        target.extend([px[0], px[1], px[2], bits(1.0)]);
    }
    let (loss, grad) = image_loss(&rendered, &target, w, h, 0.2);
    assert!(float(loss).abs() < 1e-5);
    assert_eq!(grad.len(), w * h * 3);
}

#[test]
fn weight_of_the_similarity_is_a_fifth() {
    assert_eq!(float(LossConfig::default().lambda_dssim), 0.2);
}

// ── rendering ─────────────────────────────────────────────────────────────────

#[test]
fn render_produces_nonblack_for_visible_gaussian() {
    let cam = test_camera(32, 32);
    let mut g = gaussian([0.0, 0.0, 2.0]);
    g.opacity_logit = bits(logit(0.9));
    g.log_scale = bits_array([-1.5, -1.5, -1.5]);
    g.sh_coeffs[0] = bits(2.0);
    let img = image_of(&[g], &cam, [0.0, 0.0, 0.0]);
    let center = (16 * 32 + 16) * 3;
    assert!(img[center] > 0.01, "center pixel should be lit: {}", img[center]);
}

#[test]
fn nothing_drawn_leaves_the_image_as_it_was_made() {
    // No tile lists anything, so not even the background is laid down.
    let cam = test_camera(20, 20);
    let behind = gaussian([0.0, 0.0, -2.0]);
    let img = image_of(&[behind], &cam, [0.5, 0.25, 0.125]);
    assert_eq!(img.len(), 20 * 20 * 3);
    assert!(img.iter().all(|&v| v == 0.0));
}

#[test]
fn nearer_splat_hides_a_farther_one() {
    let cam = test_camera(32, 32);
    let mut far = gaussian([0.0, 0.0, 4.0]);
    far.opacity_logit = bits(logit(0.95));
    far.log_scale = bits_array([-0.5, -0.5, -0.5]);
    far.sh_coeffs[0] = bits(1.7);
    far.sh_coeffs[16] = bits(-1.7);
    let mut near = far;
    near.position = bits_array([0.0, 0.0, 2.0]);
    near.sh_coeffs[0] = bits(-1.7);
    near.sh_coeffs[16] = bits(1.7);
    let a = image_of(&[far, near], &cam, [0.0, 0.0, 0.0]);
    let b = image_of(&[near, far], &cam, [0.0, 0.0, 0.0]);
    assert_eq!(a, b);
    let c = (16 * 32 + 16) * 3;
    assert!(a[c + 1] > 5.0 * a[c]);

    let projected = seen_by(&[far, near], &cam);
    let (splats, lists, n_tiles_x) = project_and_bin(&projected, 32, 32);
    assert_eq!(splats[0].gi, 1);
    assert_eq!(splats[1].gi, 0);
    assert_eq!(n_tiles_x, 2);
    assert_eq!(lists.len(), 4);
    assert!(lists.iter().all(|l| l == &vec![0, 1]));
}

#[test]
fn splats_bear_the_numbers_of_their_gaussians() {
    let cam = test_camera(32, 32);
    let mut g = gaussian([0.0, 0.0, 2.0]);
    g.opacity_logit = bits(logit(0.9));
    let hidden = gaussian([0.0, 0.0, -2.0]);
    let numbers: Vec<Option<usize>> = seen_by(&[g, hidden, g, g], &cam)
        .iter()
        .map(|s| s.map(|s| s.gi))
        .collect();
    assert_eq!(numbers, [Some(0), None, Some(2), Some(3)]);
}

#[test]
fn rasterizing_marks_what_is_covered() {
    let cam = test_camera(32, 32);
    let mut g = gaussian([-0.8, -0.8, 2.0]);
    g.opacity_logit = bits(logit(0.9));
    g.log_scale = bits_array([-4.0, -4.0, -4.0]);
    let projected = seen_by(&[g], &cam);
    let bg = bits_array([0.25, 0.5, 0.75]);
    let frame = rasterize(power, alpha, blend, coverage, &projected, bg, 32, 32);
    assert_eq!((frame.width, frame.height), (32, 32));
    assert_eq!(frame.data.len(), 32 * 32 * 4);
    // The splat stands at (3.2, 3.2), in the first tile.
    let lit = (3 * 32 + 3) * 4;
    assert!(float(frame.data[lit + 3]) > 0.5);
    assert!(float(frame.data[lit]) > 0.25);
    // A pixel of the same tile that it does not reach shows the background.
    let free = (15 * 32 + 15) * 4;
    assert_eq!(float(frame.data[free]), 0.25);
    assert_eq!(float(frame.data[free + 1]), 0.5);
    assert_eq!(float(frame.data[free + 3]), 0.0);
    // The other tiles are not touched.
    let other = (20 * 32 + 20) * 4;
    assert_eq!(float(frame.data[other]), 0.0);
    let bytes = frame.to_u8_srgb(
        |v: Single| (float(v) * 100.0) as u8,
        |v: Single| (float(v) * 255.0) as u8,
    );
    assert_eq!(bytes.len(), frame.data.len());
    assert_eq!(bytes[free..free + 4], [25, 50, 75, 0]);
}

#[test]
fn bytes_are_of_the_unit_interval() {
    let mut frame = rasterizer::Framebuffer::new(1, 1);
    frame.data = bits_array([-0.5, 0.25, 7.0, 1.5]).to_vec();
    let bytes = frame.to_u8_srgb(
        |v: Single| (float(v) * 100.0) as u8,
        |v: Single| (float(v) * 255.0) as u8,
    );
    assert_eq!(bytes, [0, 25, 100, 255]);
}

#[test]
fn alpha_is_capped_and_passes_no_gradient_there() {
    // An opacity of one, right at the centre of a pixel.
    let s = |opacity: f32| Splat {
        gi: 0,
        sx: bits(0.5),
        sy: bits(0.5),
        conic: bits_array([1.0, 0.0, 1.0]),
        cov2d: bits_array([1.0, 0.0, 1.0]),
        color: bits_array([1.0, 0.0, 0.0]),
        raw_color: bits_array([1.0, 0.0, 0.0]),
        opacity: bits(opacity),
        depth: bits(1.0),
        basis: [bits(0.0); 16],
        pcam: bits_array([0.0, 0.0, 1.0]),
        tiles: TileRect { x0: 0, y0: 0, x1: 1, y1: 1 },
    };
    for (opacity, alpha_blended, slope) in [(1.0, 0.99, 0.0), (0.5, 0.5, 1.0)] {
        let splats = [s(opacity)];
        let lists = vec![vec![0usize]];
        let image =
            forward_pass(power, alpha, blend, over([0.0; 3]), no_light(), &splats, &lists, 1, 1);
        assert_eq!(float(image.rgb[0]), alpha_blended);
        assert_eq!(float(image.t[0]), 1.0 - alpha_blended);
        let dl = bits_array([1.0, 0.0, 0.0]);
        let g = backward_pass(
            power, alpha, leak([0.0; 3]), pull, sum_of, &splats, &lists, 1, 1, &image, &dl,
        );
        assert_eq!(float(g[0].opacity), slope);
        assert_eq!(float(g[0].red), alpha_blended);
    }
}

#[test]
fn tile_by_tile_is_the_whole() {
    let cam = test_camera(40, 24);
    let mut gaussians = Vec::new();
    for i in 0..6 {
        let mut g = gaussian([-0.5 + 0.2 * i as f32, 0.1 * i as f32 - 0.3, 2.0 + 0.3 * i as f32]);
        g.opacity_logit = bits(logit(0.7));
        g.log_scale = bits_array([-2.0, -1.8, -2.2]);
        g.sh_coeffs[0] = bits(0.1 * i as f32);
        gaussians.push(g);
    }
    let (w, h) = (40, 24);
    let bg = [0.1, 0.2, 0.3];
    let (splats, lists, _) = project_and_bin(&seen_by(&gaussians, &cam), w, h);
    let whole = forward_pass(power, alpha, blend, over(bg), no_light(), &splats, &lists, w, h);
    let tiles: Vec<_> = lists
        .iter()
        .enumerate()
        .map(|(k, l)| {
            composite_tile(power, alpha, blend, over(bg), no_light(), k, w, h, l, &splats)
        })
        .collect();
    let placed = place_tiles(&tiles, w, h);
    assert!(whole.rgb == placed.rgb && whole.t == placed.t && whole.last == placed.last);

    let dl: Vec<Single> = (0..w * h * 3).map(|i| bits((i % 3) as f32 * 0.01)).collect();
    let grads = backward_pass(
        power, alpha, leak(bg), pull, sum_of, &splats, &lists, w, h, &whole, &dl,
    );
    let pulled: Vec<_> = lists
        .iter()
        .enumerate()
        .map(|(k, l)| pull_tile(power, alpha, leak(bg), pull, k, w, h, l, &splats, &whole, &dl))
        .collect();
    let merged = merge_tiles(sum_of, &lists, &pulled, splats.len());
    assert!(grads == merged);
    assert!(grads.iter().any(|g| float(g.opacity) != 0.0));
}

#[test]
fn last_blended_splat_is_listed() {
    let cam = test_camera(16, 16);
    let mut g = gaussian([0.0, 0.0, 2.0]);
    g.opacity_logit = bits(logit(0.9));
    g.log_scale = bits_array([-1.0, -1.0, -1.0]);
    let (splats, lists, _) = project_and_bin(&seen_by(&[g], &cam), 16, 16);
    let image = forward_pass(
        power,
        alpha,
        blend,
        over([0.0; 3]),
        no_light(),
        &splats,
        &lists,
        16,
        16,
    );
    assert_eq!(image.last[8 * 16 + 8], Some(0));
    assert!(image.last.iter().all(|l| l.map_or(true, |i| i < lists[0].len())));
}

// ── gradients ─────────────────────────────────────────────────────────────────

fn shift(v: &mut Single, e: f32) {
    *v = bits(float(*v) + e);
}

#[test]
fn parameter_gradients_match_finite_difference() {
    let cam = test_camera(24, 24);
    let bg = [0.0, 0.0, 0.0];
    let cfg = LossConfig { lambda_dssim: bits(0.0) };
    let target = solid_target(24, 24, [0.0, 0.0, 0.0]);

    let mut g = gaussian([0.1, -0.05, 2.0]);
    g.opacity_logit = bits(logit(0.6));
    g.log_scale = bits_array([-2.2, -2.0, -2.1]);
    g.rotation = bits_array(normalize_quaternion([0.9, 0.1, -0.2, 0.15]));
    for ch in 0..3 {
        g.sh_coeffs[ch * 16] = bits(0.4);
        for k in 1..16 {
            g.sh_coeffs[ch * 16 + k] = bits(((ch * 16 + k) as f32 * 0.05).sin() * 0.04);
        }
    }
    let gauss = vec![g];

    let (_, grads) = loss_and_grads(&gauss, &cam, &target, bg, &cfg);
    let grad = &grads[0];

    let loss_at = |gs: &[Gaussian3D<Single>]| loss_and_grads(gs, &cam, &target, bg, &cfg).0;
    let eps = 1e-3;
    let numeric = |perturb: &dyn Fn(&mut Gaussian3D<Single>, f32)| -> f32 {
        let mut gp = gauss.clone();
        let mut gm = gauss.clone();
        perturb(&mut gp[0], eps);
        perturb(&mut gm[0], -eps);
        (loss_at(&gp) - loss_at(&gm)) / (2.0 * eps)
    };
    let check = |analytic: Single, num: f32, name: &str| {
        let analytic = float(analytic);
        let denom = analytic.abs().max(num.abs()).max(1e-4);
        let rel = (analytic - num).abs() / denom;
        assert!(
            rel < 0.05 || (analytic - num).abs() < 3e-4,
            "{name}: analytic {analytic} vs numeric {num} (rel {rel})"
        );
    };
    for k in 0..3 {
        check(
            grad.d_position[k],
            numeric(&move |g, e| shift(&mut g.position[k], e)),
            "d_position",
        );
    }
    check(
        grad.d_opacity_logit,
        numeric(&|g, e| shift(&mut g.opacity_logit, e)),
        "d_opacity",
    );
    for k in 0..3 {
        check(
            grad.d_log_scale[k],
            numeric(&move |g, e| shift(&mut g.log_scale[k], e)),
            "d_log_scale",
        );
    }
    for &k in &[0usize, 1, 16, 33] {
        check(
            grad.d_sh[k],
            numeric(&move |g, e| shift(&mut g.sh_coeffs[k], e)),
            "d_sh",
        );
    }

    // Only what is tangent to the quaternion counts: rendering normalises it.
    let q = float_array(gauss[0].rotation);
    let mut num_rot = [0.0f32; 4];
    for k in 0..4 {
        num_rot[k] = numeric(&move |g, e| shift(&mut g.rotation[k], e));
    }
    let proj_tangent = |v: [f32; 4]| {
        let dot = v[0] * q[0] + v[1] * q[1] + v[2] * q[2] + v[3] * q[3];
        [
            v[0] - dot * q[0],
            v[1] - dot * q[1],
            v[2] - dot * q[2],
            v[3] - dot * q[3],
        ]
    };
    let a = proj_tangent(float_array(grad.d_rotation));
    let n = proj_tangent(num_rot);
    let diff: f32 = (0..4).map(|i| (a[i] - n[i]).powi(2)).sum::<f32>().sqrt();
    let mag: f32 = (0..4).map(|i| n[i] * n[i]).sum::<f32>().sqrt().max(1e-3);
    assert!(diff / mag < 0.1, "rotation tangential grad: analytic {a:?} vs numeric {n:?}");
}

#[test]
fn gradient_of_an_undrawn_gaussian_is_zero() {
    let cam = test_camera(16, 16);
    let mut shown = gaussian([0.0, 0.0, 2.0]);
    shown.opacity_logit = bits(logit(0.5));
    shown.log_scale = bits_array([-1.5, -1.5, -1.5]);
    let hidden = gaussian([0.0, 0.0, -1.0]);
    let target = solid_target(16, 16, [1.0, 1.0, 1.0]);
    let (_, grads) =
        loss_and_grads(&[hidden, shown], &cam, &target, [0.0; 3], &LossConfig::default());
    assert_eq!(grads.len(), 2);
    assert_eq!(float_array(grads[0].d_position), [0.0; 3]);
    assert_eq!(float(grads[0].d_opacity_logit), 0.0);
    assert!(float(grads[1].d_opacity_logit) != 0.0);
}

// ── training ──────────────────────────────────────────────────────────────────

/// One step of Adam for a parameter.
fn adam(
    cfg: TrainConfig,
) -> impl Fn(usize, Single, Single, Single, Single) -> (Single, Single, Single) + Copy {
    move |t: usize, g: Single, lr: Single, m1: Single, m2: Single| {
        let (b1, b2) = (float(cfg.beta1), float(cfg.beta2));
        let bc1 = 1.0 - b1.powi(t as i32);
        let bc2 = 1.0 - b2.powi(t as i32);
        let g = float(g);
        let m1 = b1 * float(m1) + (1.0 - b1) * g;
        let m2 = b2 * float(m2) + (1.0 - b2) * g * g;
        let update = float(lr) * (m1 / bc1) / ((m2 / bc2).sqrt() + float(cfg.eps));
        (bits(m1), bits(m2), bits(update))
    }
}

fn step(
    gaussians: &mut Vec<Gaussian3D<Single>>,
    grads: &[GaussianGrad],
    state: &mut AdamState,
    cfg: &TrainConfig,
) {
    adam_step(
        adam(*cfg),
        |a: Single, b: Single| bits(float(a) - float(b)),
        add_up,
        |q: [Single; 4]| {
            let [a, b, c, d] = float_array(q);
            bits((a * a + b * b + c * c + d * d).sqrt())
        },
        |q: [Single; 4], n: Single| q.map(|v| bits(float(v) / float(n))),
        gaussians,
        grads,
        state,
        cfg,
    )
}

#[test]
fn training_reduces_photometric_loss() {
    let (w, h) = (32u32, 32u32);
    let cam = test_camera(w, h);
    let bg = [0.0, 0.0, 0.0];
    let cfg = LossConfig { lambda_dssim: bits(0.2) };
    let target = solid_target(w as usize, h as usize, [0.2, 0.55, 0.5]);

    let mut gaussians = Vec::new();
    for &(x, y) in &[(-0.3f32, -0.3f32), (0.3, -0.3), (-0.3, 0.3), (0.3, 0.3), (0.0, 0.0)] {
        let mut g = gaussian([x, y, 2.0]);
        g.opacity_logit = bits(logit(0.5));
        g.log_scale = bits_array([-1.3, -1.3, -1.3]);
        for ch in 0..3 {
            g.sh_coeffs[ch * 16] = bits(0.0);
        }
        gaussians.push(g);
    }

    let train_cfg = TrainConfig::default();
    let mut state = AdamState::new(gaussians.len());

    let initial = loss_and_grads(&gaussians, &cam, &target, bg, &cfg).0;

    let mut last = initial;
    for _ in 0..200 {
        let (loss, grads) = loss_and_grads(&gaussians, &cam, &target, bg, &cfg);
        step(&mut gaussians, &grads, &mut state, &train_cfg);
        last = loss;
    }

    assert!(
        last < initial * 0.5,
        "expected loss to drop substantially: initial {initial:.4} → final {last:.4}"
    );

    let img = image_of(&gaussians, &cam, bg);
    let c = ((h as usize / 2) * w as usize + w as usize / 2) * 3;
    for ch in 0..3 {
        let want = float(target.data[ch]);
        let err = (img[c + ch] - want).abs();
        assert!(err < 0.15, "channel {ch} far from target: {} vs {}", img[c + ch], want);
    }
}

#[test]
fn step_moves_against_the_gradient_and_keeps_rotations_unit() {
    let cfg = TrainConfig::default();
    let mut gaussians = vec![gaussian([1.0, 2.0, 3.0])];
    gaussians[0].rotation = bits_array([2.0, 0.0, 0.0, 0.0]);
    let mut state = AdamState::new(1);
    let mut grad = GaussianGrad::default();
    grad.d_position = bits_array([1.0, -1.0, 0.0]);
    grad.screen_grad_norm = bits(0.5);
    step(&mut gaussians, &[grad], &mut state, &cfg);
    let p = float_array(gaussians[0].position);
    assert!(p[0] < 1.0 && p[1] > 2.0 && p[2] == 3.0);
    assert_eq!(float_array(gaussians[0].rotation), [1.0, 0.0, 0.0, 0.0]);
    assert_eq!(state.t, 1);
    assert_eq!(float(state.grad_accum[0]), 0.5);
    assert_eq!(state.grad_denom[0], 1);
}

// ── colour curves ─────────────────────────────────────────────────────────────

#[test]
fn test_linear_srgb() {
    assert!((linear_to_srgb(0.0) - 0.0).abs() < 1e-6);
    assert!((linear_to_srgb(1.0) - 1.0).abs() < 1e-6);
    assert!(linear_to_srgb(0.5) > 0.5);
}

#[test]
fn srgb_linear_endpoints() {
    assert!((srgb_to_linear(0.0)).abs() < 1e-6);
    assert!((srgb_to_linear(1.0) - 1.0).abs() < 1e-5);
    assert!(srgb_to_linear(0.5) < 0.5);
}

#[test]
fn curves_bend_at_their_knees() {
    assert_eq!(srgb_to_linear(0.04045), 0.04045 / 12.92);
    assert!(srgb_to_linear(0.0405) > 0.0405 / 12.92 * 0.999);
    assert_eq!(linear_to_srgb(0.0031308), 12.92 * 0.0031308);
    assert_eq!(linear_to_srgb(-1.0), -12.92);
}

// ── rotations and covariances ─────────────────────────────────────────────────

#[test]
fn cov_is_symmetric_psd() {
    let cov = build_cov3d([0.3, 0.2, 0.5], [0.5, 0.5, 0.5, 0.5]);
    assert!((cov - cov.transpose()).abs().max() <= 1e-6);
    assert!(cov.determinant() > 0.0);
}

#[test]
fn scale_gradient_matches_finite_difference() {
    let w = Matrix3::new(0.7, 0.1, -0.2, 0.1, 0.4, 0.3, -0.2, 0.3, 0.9);
    let log_scale = [-1.0f32, -0.5, 0.2];
    let rot = normalize_quaternion([0.4, 0.2, -0.7, 0.5]);
    let scale = [log_scale[0].exp(), log_scale[1].exp(), log_scale[2].exp()];

    let (d_log_scale, _) = backprop_cov3d(scale, rot, &w);

    let eps = 1e-3;
    for k in 0..3 {
        let mut lp = log_scale;
        let mut lm = log_scale;
        lp[k] += eps;
        lm[k] -= eps;
        let sp = [lp[0].exp(), lp[1].exp(), lp[2].exp()];
        let sm = [lm[0].exp(), lm[1].exp(), lm[2].exp()];
        let loss = |s: [f32; 3]| w.component_mul(&build_cov3d(s, rot)).sum();
        let num = (loss(sp) - loss(sm)) / (2.0 * eps);
        assert!((d_log_scale[k] - num).abs() <= 1e-2);
    }
}

#[test]
fn what_has_no_length_has_a_default_direction() {
    assert_eq!(normalize_quaternion([0.0, 1e-13, 0.0, 0.0]), [1.0, 0.0, 0.0, 0.0]);
    assert_eq!(normalize_quaternion([0.0, 0.0, 2.0, 0.0]), [0.0, 0.0, 1.0, 0.0]);
    assert_eq!(view_dir([1.0, 2.0, 3.0], [1.0, 2.0, 3.0]), [0.0, 0.0, 1.0]);
    assert_eq!(view_dir([1.0, 2.0, 3.0], [1.0, 4.0, 3.0]), [0.0, 1.0, 0.0]);
}

// ── geometry that the library decides on ──────────────────────────────────────

#[test]
fn test_sh_dc_only() {
    let mut coeffs = [0.0f32; 48];
    coeffs[0] = 1.0 / SH_C0;
    let dir = [0.0, 0.0, 1.0];
    let (_, c) = eval_sh_deg3(mac, lift, &bits_array(coeffs), &bits_array(sh_basis(dir)));
    let c = float_array(c);
    assert!((c[0] - 1.0).abs() < 1e-5, "R should clamp to 1.0, got {}", c[0]);
    assert!((c[1] - 0.5).abs() < 1e-5, "G should be 0.5, got {}", c[1]);
    assert!((c[2] - 0.5).abs() < 1e-5, "B should be 0.5, got {}", c[2]);
}

#[test]
fn clamped_channels_pass_no_gradient() {
    let raw = bits_array([1.5, 0.5, 0.0]);
    let grad = bits_array([2.0, 3.0, 4.0]);
    let mut basis = [bits(1.0); 16];
    basis[2] = bits(-0.5);
    let (masked, d_sh) = backprop_color(times, &raw, &grad, &basis);
    assert_eq!(float_array(masked), [0.0, 3.0, 0.0]);
    let d_sh = float_array(d_sh);
    assert_eq!(d_sh[0], 0.0);
    assert_eq!(d_sh[16], 3.0);
    assert_eq!(d_sh[18], -1.5);
    assert_eq!(d_sh[47], 0.0);
}

fn in_view(center: &[f32; 3], radius: f32) -> bool {
    let proj = make_projection(400.0, 400.0, 200.0, 200.0, 400.0, 400.0, 0.1, 100.0);
    let planes = planes_of(&(proj * Matrix4::identity()));
    sphere_in_frustum(distance, &bits_array(*center), bits(radius), &planes)
}

#[test]
fn test_frustum_cull() {
    assert!(in_view(&[0.0, 0.0, -5.0], 0.1));
}

#[test]
fn spheres_beyond_one_plane_are_out_of_view() {
    assert!(!in_view(&[0.0, 0.0, 500.0], 1.0));
    assert!(!in_view(&[1000.0, 0.0, -5.0], 1.0));
    assert!(in_view(&[1000.0, 0.0, -5.0], 2000.0));
}

#[test]
fn planes_come_in_opposite_pairs() {
    let m = Matrix4::new(
        3.0, 0.0, 0.0, 1.0, 0.0, 2.0, 0.0, 2.0, 0.0, 0.0, 1.0, 3.0, 0.0, 4.0, 0.0, 5.0,
    );
    let p = planes_of(&m).map(|(n, d)| (float_array(n), float(d)));
    // The last row plus and minus the first: (3, 4, 0 | 6) and (-3, 4, 0 | 4).
    assert_eq!(p[0], ([0.6, 0.8, 0.0], 1.2));
    assert_eq!(p[1], ([-0.6, 0.8, 0.0], 0.8));
    assert_eq!(p[2], ([0.0, 1.0, 0.0], 7.0 / 6.0));
    assert_eq!(p[3], ([0.0, 1.0, 0.0], 1.5));
    let len = 17.0f32.sqrt();
    assert_eq!(p[4], ([0.0, 4.0 / len, 1.0 / len], 8.0 / len));
    assert_eq!(p[5], ([0.0, 4.0 / len, -1.0 / len], 2.0 / len));
}
