//! What vectors, matrices and scalars become.

use super::camera::is_unit;
use super::covariance::{column_step, column_sums_to, columns_scaled, cov_pulled, CovParts};
use super::projection::{normal_of, plane_of, raw_plane, scaled_plane, stands, Plane};
use super::{fresh, held, in_unit, larger, quaternion, sh, smaller, Gaussian3D};
use super::lemma_gaussian_view;
use crate::num::reading::{fuses, lemma_fold_sums, less, multiplies, reads_zero, subtracts};
use crate::num::single::{lemma_rank_is_order, Single, ONE, ZERO};
use crate::num::sum::total;
use vstd::prelude::*;

verus! {

// ── scalars ─────────────────────────────────────────────────────────────────────────────

/// Of two numbers, the larger is no less than both and is one of them, and so is the smaller no
/// more than both; beside what is not a number, the number counts.
pub proof fn extremes_are_extreme(a: Single, b: Single)
    ensures
        !a.nan() && !b.nan() ==> {
            &&& larger(a, b).value() >= a.value() && larger(a, b).value() >= b.value()
            &&& larger(a, b) == a || larger(a, b) == b
            &&& smaller(a, b).value() <= a.value() && smaller(a, b).value() <= b.value()
            &&& smaller(a, b) == a || smaller(a, b) == b
        },
        a.nan() ==> larger(a, b) == b && smaller(a, b) == b,
        !a.nan() && b.nan() ==> larger(a, b) == a && smaller(a, b) == a,
{
}

/// A value that lies within the bounds is held as it is, one below them becomes the lower bound,
/// one above them the upper.
pub proof fn held_values_keep_to_the_bounds(x: Single, lo: Single, hi: Single)
    requires
        !lo.nan(),
        !hi.nan(),
        lo.value() <= hi.value(),
        !x.nan(),
    ensures
        lo.value() <= x.value() <= hi.value() ==> held(x, lo, hi) == x && smaller(
            larger(x, lo),
            hi,
        ) == x,
        x.value() < lo.value() ==> held(x, lo, hi) == lo,
        x.value() > hi.value() ==> held(x, lo, hi) == hi && smaller(larger(x, lo), hi) == hi,
        x.value() < lo.value() ==> smaller(larger(x, lo), hi).value() == lo.value(),
{
}

/// A number is held in the unit interval: zero below it, one above it, and else as it is.
pub proof fn unit_interval_is_kept(x: Single)
    requires
        !x.nan(),
    ensures
        less(x, Single { bits: 0 }) ==> in_unit(x) == (Single { bits: 0 }),
        less(Single { bits: 0x3F80_0000 }, x) ==> in_unit(x) == (Single { bits: 0x3F80_0000 }),
        !less(x, Single { bits: 0 }) && !less(Single { bits: 0x3F80_0000 }, x) ==> in_unit(x) == x,
{
    lemma_rank_is_order(Single { bits: 0 }, Single { bits: 0x3F80_0000 });
}

// ── Gaussians ───────────────────────────────────────────────────────────────────────────

/// A fresh Gaussian stands at its position, is not turned, has the log scale `-3` along each axis
/// and the opacity logit `-2`, and no colour of its own.
pub proof fn fresh_gaussians_are_plain(g: Gaussian3D<Single>, position: Seq<Single>)
    requires
        g@ == fresh(position),
        position.len() == 3,
    ensures
        forall|a: int| 0 <= a < 3 ==> #[trigger] g.position[a] == position[a],
        g.rotation[0].bits == 0x3F80_0000,
        forall|a: int| 1 <= a < 4 ==> (#[trigger] g.rotation[a]).bits == 0,
        forall|a: int| 0 <= a < 3 ==> (#[trigger] g.log_scale[a]).bits == 0xC040_0000,
        g.opacity_logit.bits == 0xC000_0000,
        forall|a: int| 0 <= a < 48 ==> (#[trigger] g.sh_coeffs[a]).bits == 0,
{
    lemma_gaussian_view(g);
    assert forall|a: int| 0 <= a < 3 implies #[trigger] g.position[a] == position[a] by {
        assert(g@[a] == g.position[a]);
    }
    assert(g.rotation[0] == g@[3]) by {
        let a: int = 0;
        assert(g@[3 + a] == g.rotation[a]);
    }
    assert forall|a: int| 1 <= a < 4 implies (#[trigger] g.rotation[a]).bits == 0 by {
        assert(g@[3 + a] == g.rotation[a]);
    }
    assert forall|a: int| 0 <= a < 3 implies (#[trigger] g.log_scale[a]).bits == 0xC040_0000 by {
        assert(g@[7 + a] == g.log_scale[a]);
    }
    assert(g@[10] == g.opacity_logit);
    assert forall|a: int| 0 <= a < 48 implies (#[trigger] g.sh_coeffs[a]).bits == 0 by {
        assert(g@[11 + a] == g.sh_coeffs[a]);
    }
}

/// The unit matrix has ones on its diagonal and zeros elsewhere.
pub proof fn unit_matrix_is_diagonal(m: [[Single; 4]; 4])
    requires
        is_unit(m),
    ensures
        forall|i: int| 0 <= i < 4 ==> (#[trigger] m[i][i]).bits == 0x3F80_0000,
        forall|i: int, j: int|
            0 <= i < 4 && 0 <= j < 4 && i != j ==> (#[trigger] m[i][j]).bits == 0,
{
}

// ── directions ──────────────────────────────────────────────────────────────────────────

/// `divide` divides.
pub open spec fn divides<D: Fn(Single, Single) -> Single>(
    divide: D,
    val: spec_fn(Single) -> real,
) -> bool {
    forall|a: Single, b: Single, r: Single| #[trigger]
        call_ensures(divide, (a, b), r) && val(b) != 0real ==> val(r) * val(b) == val(a)
}

/// The direction from a Gaussian to the camera: the difference of their positions, divided by its
/// length; the third axis, if it has hardly any.
pub proof fn directions_point_to_the_camera<
    M: Fn(Single, Single) -> Single,
    N: Fn([Single; 3]) -> Single,
    D: Fn(Single, Single) -> Single,
>(
    minus: M,
    norm: N,
    divide: D,
    val: spec_fn(Single) -> real,
    gaussian: [Single; 3],
    camera: [Single; 3],
    d: [Single; 3],
    r: [Single; 3],
) -> (n: Single)
    requires
        subtracts(minus, val),
        divides(divide, val),
        sh::differs_by(minus, camera, gaussian, d),
        sh::normalized(norm, divide, d, r),
    ensures
        call_ensures(norm, (d,), n),
        forall|i: int| 0 <= i < 3 ==> val(#[trigger] d[i]) == val(camera[i]) - val(gaussian[i]),
        less(n, Single { bits: sh::MIN_LENGTH }) ==> r[0].bits == 0 && r[1].bits == 0 && r[2].bits
            == 0x3F80_0000,
        !less(n, Single { bits: sh::MIN_LENGTH }) && val(n) != 0real ==> forall|i: int|
            0 <= i < 3 ==> val(#[trigger] r[i]) * val(n) == val(camera[i]) - val(gaussian[i]),
{
    let n = choose|n: Single| #[trigger]
        call_ensures(norm, (d,), n) && forall|i: int|
            0 <= i < 3 ==> if n.below(Single { bits: sh::MIN_LENGTH }) {
                #[trigger] r[i] == (Single {
                    bits: if i == 2 {
                        ONE
                    } else {
                        ZERO
                    },
                })
            } else {
                call_ensures(divide, (d[i], n), r[i])
            };
    assert(forall|i: int| 0 <= i < 3 ==> call_ensures(minus, (camera[i], gaussian[i]), #[trigger] d[i]));
    assert(r[0] == r[0] && r[1] == r[1] && r[2] == r[2]);
    assert forall|i: int| 0 <= i < 3 implies val(#[trigger] d[i]) == val(camera[i]) - val(
        gaussian[i],
    ) by {
        assert(call_ensures(minus, (camera[i], gaussian[i]), d[i]));
    }
    if !less(n, Single { bits: sh::MIN_LENGTH }) && val(n) != 0real {
        assert forall|i: int| 0 <= i < 3 implies val(#[trigger] r[i]) * val(n) == val(camera[i])
            - val(gaussian[i]) by {
            assert(call_ensures(divide, (d[i], n), r[i]));
        }
    }
    n
}

/// A quaternion is divided by its length; one of hardly any length becomes the rotation that
/// turns nothing.
pub proof fn quaternions_keep_their_direction<
    N: Fn([Single; 4]) -> Single,
    D: Fn(Single, Single) -> Single,
>(norm: N, divide: D, val: spec_fn(Single) -> real, q: [Single; 4], r: [Single; 4]) -> (n: Single)
    requires
        divides(divide, val),
        quaternion::normalized(norm, divide, q, r),
    ensures
        call_ensures(norm, (q,), n),
        less(n, Single { bits: quaternion::MIN_LENGTH }) ==> r[0].bits == 0x3F80_0000 && r[1].bits
            == 0 && r[2].bits == 0 && r[3].bits == 0,
        !less(n, Single { bits: quaternion::MIN_LENGTH }) && val(n) != 0real ==> forall|i: int|
            0 <= i < 4 ==> val(#[trigger] r[i]) * val(n) == val(q[i]),
{
    let n = choose|n: Single| #[trigger]
        call_ensures(norm, (q,), n) && forall|i: int|
            0 <= i < 4 ==> if n.below(Single { bits: quaternion::MIN_LENGTH }) {
                #[trigger] r[i] == (Single {
                    bits: if i == 0 {
                        ONE
                    } else {
                        ZERO
                    },
                })
            } else {
                call_ensures(divide, (q[i], n), r[i])
            };
    assert(r[0] == r[0] && r[1] == r[1] && r[2] == r[2] && r[3] == r[3]);
    if !less(n, Single { bits: quaternion::MIN_LENGTH }) && val(n) != 0real {
        assert forall|i: int| 0 <= i < 4 implies val(#[trigger] r[i]) * val(n) == val(q[i]) by {
            assert(call_ensures(divide, (q[i], n), r[i]));
        }
    }
    n
}

// ── covariance ──────────────────────────────────────────────────────────────────────────

/// `gram` multiplies a matrix with its transpose.
pub open spec fn squares<G: Fn([[Single; 3]; 3]) -> [[Single; 3]; 3]>(
    gram: G,
    val: spec_fn(Single) -> real,
) -> bool {
    forall|m: [[Single; 3]; 3], c: [[Single; 3]; 3]| #[trigger]
        call_ensures(gram, (m,), c) ==> forall|i: int, j: int|
            0 <= i < 3 && 0 <= j < 3 ==> val(#[trigger] c[i][j]) == val(m[i][0]) * val(m[j][0])
                + val(m[i][1]) * val(m[j][1]) + val(m[i][2]) * val(m[j][2])
}

/// The covariance of a Gaussian: its three scales, squared, along the three columns of its
/// rotation.
pub proof fn covariance_is_turned_and_scaled<
    T: Fn(Single, Single) -> Single,
    G: Fn([[Single; 3]; 3]) -> [[Single; 3]; 3],
>(
    times: T,
    gram: G,
    val: spec_fn(Single) -> real,
    r: [[Single; 3]; 3],
    scale: [Single; 3],
    m: [[Single; 3]; 3],
    c: [[Single; 3]; 3],
    i: int,
    j: int,
)
    requires
        multiplies(times, val),
        squares(gram, val),
        columns_scaled(times, r, scale, m),
        call_ensures(gram, (m,), c),
        0 <= i < 3,
        0 <= j < 3,
    ensures
        val(c[i][j]) == (val(scale[0]) * val(scale[0])) * (val(r[i][0]) * val(r[j][0])) + (val(
            scale[1],
        ) * val(scale[1])) * (val(r[i][1]) * val(r[j][1])) + (val(scale[2]) * val(scale[2])) * (val(
            r[i][2],
        ) * val(r[j][2])),
{
    assert forall|a: int, k: int| 0 <= a < 3 && 0 <= k < 3 implies val(#[trigger] m[a][k]) == val(
        r[a][k],
    ) * val(scale[k]) by {
        assert(call_ensures(times, (r[a][k], scale[k]), m[a][k]));
    }
    assert(val(c[i][j]) == val(m[i][0]) * val(m[j][0]) + val(m[i][1]) * val(m[j][1]) + val(m[i][2])
        * val(m[j][2]));
    lemma_four(val(r[i][0]), val(scale[0]), val(r[j][0]));
    lemma_four(val(r[i][1]), val(scale[1]), val(r[j][1]));
    lemma_four(val(r[i][2]), val(scale[2]), val(r[j][2]));
}

proof fn lemma_four(a: real, s: real, b: real)
    ensures
        (a * s) * (b * s) == (s * s) * (a * b),
{
    assert((a * s) * (b * s) == (s * s) * (a * b)) by (nonlinear_arith);
}

/// `unfold` multiplies a gradient and its transpose, together, with a matrix.
pub open spec fn unfolds<U: Fn([[Single; 3]; 3], [[Single; 3]; 3]) -> [[Single; 3]; 3]>(
    unfold: U,
    val: spec_fn(Single) -> real,
) -> bool {
    forall|d: [[Single; 3]; 3], m: [[Single; 3]; 3], r: [[Single; 3]; 3]| #[trigger]
        call_ensures(unfold, (d, m), r) ==> forall|i: int, j: int|
            0 <= i < 3 && 0 <= j < 3 ==> val(#[trigger] r[i][j]) == (val(d[i][0]) + val(d[0][i]))
                * val(m[0][j]) + (val(d[i][1]) + val(d[1][i])) * val(m[1][j]) + (val(d[i][2]) + val(
                d[2][i],
            )) * val(m[2][j])
}

/// The gradient of the scaled rotation, of the entry in row `i` and column `j`: that of the
/// covariance, by rows and by columns, along column `j` of the scaled rotation.
pub open spec fn pulled_entry(
    val: spec_fn(Single) -> real,
    r: [[Single; 3]; 3],
    scale: [Single; 3],
    d: [[Single; 3]; 3],
    i: int,
    j: int,
) -> real {
    (val(d[i][0]) + val(d[0][i])) * (val(r[0][j]) * val(scale[j])) + (val(d[i][1]) + val(d[1][i]))
        * (val(r[1][j]) * val(scale[j])) + (val(d[i][2]) + val(d[2][i])) * (val(r[2][j]) * val(
        scale[j],
    ))
}

/// The gradient of a log scale is that of the scaled rotation along the scale's column, times the
/// scale; the gradient of the quaternion comes from that of the rotation, which is that of the
/// scaled rotation, scaled once more, by the derivative for the same component.
pub proof fn covariance_gradient_reaches_scales_and_rotation<
    M: Fn(Single, Single, Single) -> Single,
    T: Fn(Single, Single) -> Single,
    U: Fn([[Single; 3]; 3], [[Single; 3]; 3]) -> [[Single; 3]; 3],
    C: Fn([[Single; 3]; 3], [[Single; 3]; 3]) -> Single,
>(
    mac: M,
    times: T,
    unfold: U,
    contract: C,
    val: spec_fn(Single) -> real,
    r: [[Single; 3]; 3],
    jac: [[[Single; 3]; 3]; 4],
    scale: [Single; 3],
    dl_dsigma: [[Single; 3]; 3],
    p: CovParts,
    d: ([Single; 3], [Single; 4]),
)
    requires
        reads_zero(val),
        fuses(mac, val),
        multiplies(times, val),
        unfolds(unfold, val),
        cov_pulled(mac, times, unfold, contract, r, jac, scale, dl_dsigma, p, d),
    ensures
        forall|j: int|
            0 <= j < 3 ==> val(#[trigger] d.0[j]) == (pulled_entry(val, r, scale, dl_dsigma, 0, j)
                * val(r[0][j]) + pulled_entry(val, r, scale, dl_dsigma, 1, j) * val(r[1][j])
                + pulled_entry(val, r, scale, dl_dsigma, 2, j) * val(r[2][j])) * val(scale[j]),
        forall|i: int, j: int|
            0 <= i < 3 && 0 <= j < 3 ==> val(#[trigger] p.dr[i][j]) == pulled_entry(
                val,
                r,
                scale,
                dl_dsigma,
                i,
                j,
            ) * val(scale[j]),
        call_ensures(contract, (jac[0], p.dr), d.1[0]),
        call_ensures(contract, (jac[1], p.dr), d.1[1]),
        call_ensures(contract, (jac[2], p.dr), d.1[2]),
        call_ensures(contract, (jac[3], p.dr), d.1[3]),
{
    assert(d.1[0] == d.1[0] && d.1[1] == d.1[1] && d.1[2] == d.1[2] && d.1[3] == d.1[3]);
    assert forall|a: int, k: int| 0 <= a < 3 && 0 <= k < 3 implies val(#[trigger] p.m[a][k]) == val(
        r[a][k],
    ) * val(scale[k]) by {
        assert(call_ensures(times, (r[a][k], scale[k]), p.m[a][k]));
    }
    assert forall|i: int, j: int| 0 <= i < 3 && 0 <= j < 3 implies val(#[trigger] p.dm[i][j])
        == pulled_entry(val, r, scale, dl_dsigma, i, j) by {
        assert(val(p.m[0][j]) == val(r[0][j]) * val(scale[j]));
        assert(val(p.m[1][j]) == val(r[1][j]) * val(scale[j]));
        assert(val(p.m[2][j]) == val(r[2][j]) * val(scale[j]));
    }
    assert forall|i: int, j: int| 0 <= i < 3 && 0 <= j < 3 implies val(#[trigger] p.dr[i][j])
        == pulled_entry(val, r, scale, dl_dsigma, i, j) * val(scale[j]) by {
        assert(call_ensures(times, (p.dm[i][j], scale[j]), p.dr[i][j]));
        assert(val(p.dm[i][j]) == pulled_entry(val, r, scale, dl_dsigma, i, j));
    }
    assert forall|j: int| 0 <= j < 3 implies val(#[trigger] d.0[j]) == (pulled_entry(
        val,
        r,
        scale,
        dl_dsigma,
        0,
        j,
    ) * val(r[0][j]) + pulled_entry(val, r, scale, dl_dsigma, 1, j) * val(r[1][j]) + pulled_entry(
        val,
        r,
        scale,
        dl_dsigma,
        2,
        j,
    ) * val(r[2][j])) * val(scale[j]) by {
        assert(call_ensures(times, (p.ds[j], scale[j]), d.0[j]));
        lemma_column(mac, val, p.dm, r, j, p.ds[j]);
        assert(val(p.dm[0][j]) == pulled_entry(val, r, scale, dl_dsigma, 0, j));
        assert(val(p.dm[1][j]) == pulled_entry(val, r, scale, dl_dsigma, 1, j));
        assert(val(p.dm[2][j]) == pulled_entry(val, r, scale, dl_dsigma, 2, j));
    }
}

proof fn lemma_column<M: Fn(Single, Single, Single) -> Single>(
    mac: M,
    val: spec_fn(Single) -> real,
    a: [[Single; 3]; 3],
    b: [[Single; 3]; 3],
    j: int,
    sum: Single,
)
    requires
        reads_zero(val),
        fuses(mac, val),
        column_sums_to(mac, a, b, j, sum),
    ensures
        val(sum) == val(a[0][j]) * val(b[0][j]) + val(a[1][j]) * val(b[1][j]) + val(a[2][j]) * val(
            b[2][j],
        ),
{
    let f = |i: int| val(a[i][j]) * val(b[i][j]);
    lemma_fold_sums(column_step(mac, a, b, j), 3, Single { bits: ZERO }, sum, val, f);
    reveal_with_fuel(total, 4);
}

// ── frustum ─────────────────────────────────────────────────────────────────────────────

/// The row of a matrix that a plane of its frustum belongs to, and whether the row is added to
/// the last one: left, right, bottom, top, near and far.
pub open spec fn side(i: int) -> (int, bool) {
    if i == 0 {
        (0, true)
    } else if i == 1 {
        (0, false)
    } else if i == 2 {
        (1, true)
    } else if i == 3 {
        (1, false)
    } else if i == 4 {
        (2, true)
    } else {
        (2, false)
    }
}

/// A plane of a frustum, times the length of its normal, is the last row of the matrix plus or
/// minus the row of its side: in all four coefficients.
pub proof fn planes_bound_the_frustum<
    P: Fn(Single, Single) -> Single,
    M: Fn(Single, Single) -> Single,
    N: Fn([Single; 3]) -> Single,
    D: Fn(Single, Single) -> Single,
>(
    plus: P,
    minus: M,
    norm: N,
    divide: D,
    val: spec_fn(Single) -> real,
    m: [[Single; 4]; 4],
    i: int,
    p: Plane,
) -> (r: ([Single; 3], Single))
    requires
        crate::num::reading::adds(plus, val),
        subtracts(minus, val),
        divides(divide, val),
        plane_of(plus, minus, norm, divide, m, i, p),
        0 <= i < 6,
    ensures
        call_ensures(norm, (r.0,), r.1),
        forall|c: int|
            0 <= c < 3 ==> val(#[trigger] r.0[c]) == if side(i).1 {
                val(m[3][c]) + val(m[side(i).0][c])
            } else {
                val(m[3][c]) - val(m[side(i).0][c])
            },
        val(r.1) != 0real ==> {
            &&& forall|c: int| 0 <= c < 3 ==> val(#[trigger] p.0[c]) * val(r.1) == val(r.0[c])
            &&& val(p.1) * val(r.1) == if side(i).1 {
                val(m[3][3]) + val(m[side(i).0][3])
            } else {
                val(m[3][3]) - val(m[side(i).0][3])
            }
        },
{
    let raw = choose|raw: [Single; 4]| #[trigger]
        raw_plane(plus, minus, m, i, raw) && scaled_plane(norm, divide, raw, p);
    let n = choose|n: Single| #[trigger]
        call_ensures(norm, (normal_of(raw),), n) && (forall|c: int|
            0 <= c < 3 ==> call_ensures(divide, (raw[c], n), #[trigger] p.0[c])) && call_ensures(
            divide,
            (raw[3], n),
            p.1,
        );
    let normal = normal_of(raw);
    assert(i / 2 == side(i).0);
    assert((i % 2 == 0) == side(i).1);
    assert forall|c: int| 0 <= c < 4 implies val(#[trigger] raw[c]) == if side(i).1 {
        val(m[3][c]) + val(m[side(i).0][c])
    } else {
        val(m[3][c]) - val(m[side(i).0][c])
    } by {
        if i % 2 == 0 {
            assert(call_ensures(plus, (m[3][c], m[i / 2][c]), raw[c]));
        } else {
            assert(call_ensures(minus, (m[3][c], m[i / 2][c]), raw[c]));
        }
    }
    assert(normal[0] == raw[0] && normal[1] == raw[1] && normal[2] == raw[2]);
    assert forall|c: int| 0 <= c < 3 implies val(#[trigger] normal[c]) == if side(i).1 {
        val(m[3][c]) + val(m[side(i).0][c])
    } else {
        val(m[3][c]) - val(m[side(i).0][c])
    } by {
        assert(normal[c] == raw[c]);
    }
    if val(n) != 0real {
        assert forall|c: int| 0 <= c < 3 implies val(#[trigger] p.0[c]) * val(n) == val(normal[c]) by {
            assert(call_ensures(divide, (raw[c], n), p.0[c]));
            assert(normal[c] == raw[c]);
        }
        assert(call_ensures(divide, (raw[3], n), p.1));
    }
    (normal, n)
}

/// A sphere is beyond a plane if its centre is further from it than its radius, on the side that
/// the normal points away from.
pub proof fn spheres_beyond_a_plane_are_far_from_it<D: Fn(Plane, [Single; 3]) -> Single>(
    distance: D,
    at: Single,
    p: Plane,
    center: [Single; 3],
    radius: Single,
    beyond: bool,
)
    requires
        forall|d: Single| #[trigger] call_ensures(distance, (p, center), d) ==> d == at,
        stands(distance, p, center, radius, beyond),
        !at.nan(),
        !radius.nan(),
        radius.bits < 0x8000_0000,
    ensures
        beyond <==> at.value() < -radius.value(),
{
    let m = radius.negated();
    assert(m.bits == radius.bits + 0x8000_0000);
}

} // verus!
