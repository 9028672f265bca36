//! Conversion of song and chart assets between DDR arcade and StepMania 5
//! formats.

use vstd::prelude::*;

pub mod cli;
pub mod error;
pub mod job;
pub mod model;
pub mod ogg;
pub mod sm;
pub mod ssc;
pub mod ssq;
pub mod ssq_legacy;
pub mod util;
pub mod wavm;
pub mod xsb;
pub mod xwb;

pub use error::Error;

verus! {

} // verus!
