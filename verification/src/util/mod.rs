//! Helpers shared by the format modules.

pub mod bits;
pub mod chars;
pub mod io;
pub mod logging;
pub mod number;
pub mod pair;
pub mod pair_laws;
pub mod path;
pub mod path_laws;
pub mod sort;
pub mod text;
