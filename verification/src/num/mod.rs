//! Numbers and sequences: IEEE bit patterns, folds over caller-supplied kernels, sorting.

pub mod bytes;
pub mod fold;
pub mod order;
pub mod order_laws;
pub mod reading;
pub mod single;
pub mod sum;
pub mod text;
pub mod text_laws;
