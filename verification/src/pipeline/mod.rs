//! From a video to a trained model.

pub mod call_laws;
pub mod color;
pub mod densify;
pub mod densify_laws;
pub mod optimizer;
pub mod optimizer_laws;
pub mod run;
pub mod sfm;
pub mod train;
pub mod train_laws;
