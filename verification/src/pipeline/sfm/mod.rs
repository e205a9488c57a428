//! Structure from motion: COLMAP's sparse models, and the Gaussians that they seed.

pub mod cameras;
pub mod format_laws;
pub mod images;
pub mod plan;
pub mod plan_laws;
pub mod points;
pub mod pose_laws;
pub mod poses;
pub mod seed_laws;
pub mod seeds;

use vstd::prelude::*;

verus! {

/// Why a sparse model is refused.
#[derive(Clone, Copy, Debug, PartialEq, Eq, Structural)]
pub enum SfmFault {
    /// The data ends too early.
    End,
    /// The data declares more than memory can be asked for.
    CapacityOverflow,
}

} // verus!
