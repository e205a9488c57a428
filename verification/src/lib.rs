//! 3D Gaussian splatting: file formats, tile rasterisation, optimiser bookkeeping
//! and pipeline control, with contracts that Verus proves.
//!
//! Floating-point arithmetic stays outside this crate.  A scalar is either an opaque
//! value of a type parameter, moved but never computed with, or an IEEE bit pattern
//! ([`num::single::Single`], [`num::single::Double`]) whose order and conversions are
//! integer arithmetic.  Where an algorithm needs a float kernel (the power of a splat at
//! a pixel, one Adam update) the caller hands it over as a function, and the contract
//! says on which arguments it is called and in which order the results are combined.

pub mod constants;
pub mod cpu;
pub mod gpu;
pub mod io;
pub mod math;
pub mod num;
pub mod pipeline;
