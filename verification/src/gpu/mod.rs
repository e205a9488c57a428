//! The graphics card's side: what is uploaded, what comes back, and how it is composited.

pub mod call_laws;
pub mod composite;
pub mod laws;
pub mod layout;
pub mod sort;
