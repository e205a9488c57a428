//! What calls give, in terms of what they are handed.

use super::layout::{dispatch, mat_to_cols, Dispatch, SplatInfo2D};
use super::laws::seen_splats_come_nearest_first;
use super::sort::depth_order;
use crate::cpu::splat::ALPHA_THRESHOLD;
use crate::num::reading::{less, no_more};
use crate::num::single::Single;
use vstd::prelude::*;

verus! {

/// A matrix is handed over column by column.
pub proof fn matrices_are_transposed(m: [[Single; 4]; 4], r: [[Single; 4]; 4], row: int, col: int)
    requires
        call_ensures(mat_to_cols, (&m,), r),
        0 <= row < 4,
        0 <= col < 4,
    ensures
        r[col][row] == m[row][col],
{
}

/// There are groups of 256 for all Gaussians, and no group without one; each Gaussian gets forty
/// bytes for its splat and four for its key.
pub proof fn groups_hold_all_gaussians(n: usize, d: Dispatch)
    requires
        call_ensures(dispatch, (n,), Some(d)),
    ensures
        n > 0,
        256 * (d.groups - 1) < n <= 256 * d.groups,
        d.splat_bytes == 40 * n,
        d.key_bytes == 4 * n,
{
}

/// The order names each splat that is seen once, the nearest first, and no other.
pub proof fn orders_name_what_is_seen(splats: &[SplatInfo2D], r: Vec<usize>)
    requires
        call_ensures(depth_order, (splats,), r),
        splats@.len() <= usize::MAX,
    ensures
        r@.no_duplicates(),
        forall|i: usize| #[trigger]
            r@.contains(i) <==> i < splats@.len() && no_more(
                Single { bits: ALPHA_THRESHOLD },
                splats@[i as int].alpha,
            ) && less(Single { bits: 0 }, splats@[i as int].depth),
        forall|a: int, b: int|
            0 <= a < b < r.len() ==> (#[trigger] splats@[r@[a] as int]).depth.value() <= (
            #[trigger] splats@[r@[b] as int]).depth.value(),
{
    seen_splats_come_nearest_first(splats@, r@);
}

} // verus!
