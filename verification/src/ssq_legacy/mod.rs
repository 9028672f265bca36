//! Legacy (pre-DDR-World) SSQ support.

pub mod laws;
pub mod modernize;
