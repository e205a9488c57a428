//! Rotation quaternions `[w, x, y, z]`.
//!
//! The kernels: the `norm` of a quaternion, and `divide`.

use crate::num::single::{Single, ONE, ZERO};
use vstd::prelude::*;

verus! {

/// The pattern of `1e-12`: what is shorter has no direction.
pub const MIN_LENGTH: u32 = 0x2B8C_BCCC;

/// `r` can be `q` made one long; where `q` has hardly any length, no rotation.
pub open spec fn normalized<
    N: Fn([Single; 4]) -> Single,
    D: Fn(Single, Single) -> Single,
>(norm: N, divide: D, q: [Single; 4], r: [Single; 4]) -> bool {
    exists|n: Single| #[trigger]
        call_ensures(norm, (q,), n) && forall|i: int|
            0 <= i < 4 ==> if n.below(Single { bits: MIN_LENGTH }) {
                #[trigger] r[i] == (Single {
                    bits: if i == 0 {
                        ONE
                    } else {
                        ZERO
                    },
                })
            } else {
                call_ensures(divide, (q[i], n), r[i])
            }
}

/// Makes a quaternion one long.
pub fn normalize<N: Fn([Single; 4]) -> Single, D: Fn(Single, Single) -> Single>(
    norm: N,
    divide: D,
    q: [Single; 4],
) -> (r: [Single; 4])
    requires
        forall|q: [Single; 4]| call_requires(norm, (q,)),
        forall|a: Single, b: Single| call_requires(divide, (a, b)),
    ensures
        normalized(norm, divide, q, r),
{
    let n = norm(q);
    if n.lt(Single { bits: MIN_LENGTH }) {
        let zero = Single { bits: ZERO };
        [Single { bits: ONE }, zero, zero, zero]
    } else {
        [divide(q[0], n), divide(q[1], n), divide(q[2], n), divide(q[3], n)]
    }
}

} // verus!
