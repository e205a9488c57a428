//! Model files, training images and camera files.

pub mod call_laws;
pub mod cameras;
pub mod file_laws;
pub mod images;
pub mod ply;
pub mod splat;
