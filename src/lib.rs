//! Row-band partitioning, on-demand work distribution and pixel-buffer
//! filling for an escape-time fractal renderer.

pub mod bands;
pub mod queue;
pub mod render;
pub mod parse;
