//! The processor's rendering path: tiles, compositing, gradients and the loss.

pub mod adjoint;
pub mod backward;
pub mod backward_laws;
pub mod blur;
pub mod call_laws;
pub mod composite_laws;
pub mod draw_laws;
pub mod forward;
pub mod frame_laws;
pub mod geometry;
pub mod geometry_laws;
pub mod laws;
pub mod loss;
pub mod loss_laws;
pub mod project;
pub mod rasterizer;
pub mod render;
pub mod render_laws;
pub mod splat;
pub mod tiles;
