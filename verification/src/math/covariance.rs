//! The covariance of a Gaussian, out of a rotation and scales, and the way back.
//!
//! Matrices are rows of rows.  The kernels: `times` multiplies, `mac` multiplies and
//! accumulates, `gram` is a matrix times its transpose, `unfold` takes the gradient of that
//! product back to the matrix, and `contract` sums the products of two matrices' entries.

use crate::num::fold::{lemma_reaches_nothing, lemma_reaches_push, lemma_upto_push, reaches, upto};
use crate::num::single::{Single, ZERO};
use vstd::prelude::*;

verus! {

/// `m` can be `a` with each column multiplied by its factor.
pub open spec fn columns_scaled<T: Fn(Single, Single) -> Single>(
    times: T,
    a: [[Single; 3]; 3],
    by: [Single; 3],
    m: [[Single; 3]; 3],
) -> bool {
    forall|i: int, j: int|
        0 <= i < 3 && 0 <= j < 3 ==> call_ensures(times, (a[i][j], by[j]), #[trigger] m[i][j])
}

/// The rotation `r` times the diagonal matrix of the scales.
pub fn rs_matrix<T: Fn(Single, Single) -> Single>(
    times: T,
    r: &[[Single; 3]; 3],
    scale: [Single; 3],
) -> (m: [[Single; 3]; 3])
    requires
        forall|a: Single, b: Single| call_requires(times, (a, b)),
    ensures
        columns_scaled(times, *r, scale, m),
{
    [
        [times(r[0][0], scale[0]), times(r[0][1], scale[1]), times(r[0][2], scale[2])],
        [times(r[1][0], scale[0]), times(r[1][1], scale[1]), times(r[1][2], scale[2])],
        [times(r[2][0], scale[0]), times(r[2][1], scale[1]), times(r[2][2], scale[2])],
    ]
}

/// The covariance of a Gaussian with the rotation `r`.
pub fn build_cov3d<
    T: Fn(Single, Single) -> Single,
    G: Fn([[Single; 3]; 3]) -> [[Single; 3]; 3],
>(times: T, gram: G, r: &[[Single; 3]; 3], scale: [Single; 3]) -> (c: [[Single; 3]; 3])
    requires
        forall|a: Single, b: Single| call_requires(times, (a, b)),
        forall|m: [[Single; 3]; 3]| call_requires(gram, (m,)),
    ensures
        exists|m: [[Single; 3]; 3]| #[trigger]
            columns_scaled(times, *r, scale, m) && call_ensures(gram, (m,), c),
{
    gram(rs_matrix(times, r, scale))
}

/// One step of the sum over column `j` of the products of two matrices' entries.
pub open spec fn column_step<M: Fn(Single, Single, Single) -> Single>(
    mac: M,
    a: [[Single; 3]; 3],
    b: [[Single; 3]; 3],
    j: int,
) -> spec_fn(Single, int, Single) -> bool {
    |s0: Single, i: int, s1: Single| call_ensures(mac, (s0, a[i][j], b[i][j]), s1)
}

/// `sum` can be the sum over column `j`.
pub open spec fn column_sums_to<M: Fn(Single, Single, Single) -> Single>(
    mac: M,
    a: [[Single; 3]; 3],
    b: [[Single; 3]; 3],
    j: int,
    sum: Single,
) -> bool {
    reaches(column_step(mac, a, b, j), upto(3), Single { bits: ZERO }, sum)
}

fn sum_column<M: Fn(Single, Single, Single) -> Single>(
    mac: M,
    a: &[[Single; 3]; 3],
    b: &[[Single; 3]; 3],
    j: usize,
) -> (r: Single)
    requires
        forall|a: Single, b: Single, c: Single| call_requires(mac, (a, b, c)),
        j < 3,
    ensures
        column_sums_to(mac, *a, *b, j as int, r),
{
    let zero = Single { bits: ZERO };
    let ghost step = column_step(mac, *a, *b, j as int);
    let mut sum = zero;
    proof {
        lemma_reaches_nothing(step, zero, sum);
        assert(upto(0) =~= Seq::<int>::empty());
    }
    for i in 0..3usize
        invariant
            forall|a: Single, b: Single, c: Single| call_requires(mac, (a, b, c)),
            j < 3,
            step == column_step(mac, *a, *b, j as int),
            reaches(step, upto(i as nat), zero, sum),
    {
        let ghost before = sum;
        sum = mac(sum, a[i][j], b[i][j]);
        proof {
            assert(step(before, i as int, sum));
            lemma_reaches_push(step, upto(i as nat), zero, before, i as int, sum);
            lemma_upto_push(i as nat);
        }
    }
    sum
}

/// What is computed on the way back: the scaled rotation and its gradient, and the gradients
/// of the scales and of the rotation.
pub struct CovParts {
    pub m: [[Single; 3]; 3],
    pub dm: [[Single; 3]; 3],
    pub ds: [Single; 3],
    pub dr: [[Single; 3]; 3],
}

/// The gradients can be those of the log scales and of the quaternion, by way of `p`.  A
/// scale's own gradient times the scale is that of its logarithm; `jac` holds the derivative
/// of the rotation by each component of the quaternion.
pub open spec fn cov_pulled<
    M: Fn(Single, Single, Single) -> Single,
    T: Fn(Single, Single) -> Single,
    U: Fn([[Single; 3]; 3], [[Single; 3]; 3]) -> [[Single; 3]; 3],
    C: Fn([[Single; 3]; 3], [[Single; 3]; 3]) -> Single,
>(
    mac: M,
    times: T,
    unfold: U,
    contract: C,
    r: [[Single; 3]; 3],
    jac: [[[Single; 3]; 3]; 4],
    scale: [Single; 3],
    dl_dsigma: [[Single; 3]; 3],
    p: CovParts,
    d: ([Single; 3], [Single; 4]),
) -> bool {
    &&& columns_scaled(times, r, scale, p.m)
    &&& call_ensures(unfold, (dl_dsigma, p.m), p.dm)
    &&& forall|j: int| 0 <= j < 3 ==> column_sums_to(mac, p.dm, r, j, #[trigger] p.ds[j])
    &&& columns_scaled(times, p.dm, scale, p.dr)
    &&& forall|j: int|
        0 <= j < 3 ==> call_ensures(times, (p.ds[j], scale[j]), #[trigger] d.0[j])
    &&& forall|k: int|
        0 <= k < 4 ==> call_ensures(contract, (jac[k], p.dr), #[trigger] d.1[k])
}

/// From the gradient of the covariance to those of the log scales and of the quaternion.
pub fn backprop_cov3d<
    M: Fn(Single, Single, Single) -> Single + Copy,
    T: Fn(Single, Single) -> Single + Copy,
    U: Fn([[Single; 3]; 3], [[Single; 3]; 3]) -> [[Single; 3]; 3],
    C: Fn([[Single; 3]; 3], [[Single; 3]; 3]) -> Single,
>(
    mac: M,
    times: T,
    unfold: U,
    contract: C,
    r: &[[Single; 3]; 3],
    jac: &[[[Single; 3]; 3]; 4],
    scale: [Single; 3],
    dl_dsigma: &[[Single; 3]; 3],
) -> (d: ([Single; 3], [Single; 4]))
    requires
        forall|a: Single, b: Single, c: Single| call_requires(mac, (a, b, c)),
        forall|a: Single, b: Single| call_requires(times, (a, b)),
        forall|a: [[Single; 3]; 3], b: [[Single; 3]; 3]| call_requires(unfold, (a, b)),
        forall|a: [[Single; 3]; 3], b: [[Single; 3]; 3]| call_requires(contract, (a, b)),
    ensures
        exists|p: CovParts| #[trigger]
            cov_pulled(
                mac,
                times,
                unfold,
                contract,
                *r,
                *jac,
                scale,
                *dl_dsigma,
                p,
                d,
            ),
{
    let m = rs_matrix(times, r, scale);
    let dm = unfold(*dl_dsigma, m);
    let ds = [sum_column(mac, &dm, r, 0), sum_column(mac, &dm, r, 1), sum_column(mac, &dm, r, 2)];
    let dr = rs_matrix(times, &dm, scale);
    let d_log_scale = [times(ds[0], scale[0]), times(ds[1], scale[1]), times(ds[2], scale[2])];
    let d_rot = [
        contract(jac[0], dr),
        contract(jac[1], dr),
        contract(jac[2], dr),
        contract(jac[3], dr),
    ];
    let d = (d_log_scale, d_rot);
    proof {
        let p = CovParts { m, dm, ds, dr };
        assert(cov_pulled(
            mac,
            times,
            unfold,
            contract,
            *r,
            *jac,
            scale,
            *dl_dsigma,
            p,
            d,
        ));
    }
    d
}

} // verus!
