//! OGG Vorbis decode and encode.
//!
//! Decode uses `lewton` (pure Rust). For encoding, this library checks the
//! audio and cuts it into the planar blocks that an encoder takes.

pub mod bits;
pub mod codebooks;
pub mod decode;
pub mod encode;
pub mod floors;
pub mod pages;
pub mod residues;
pub mod setup;
pub mod stream;

use vstd::prelude::*;

verus! {

#[derive(Debug)]
pub enum OggError {
    Decode(String),
    Encode(String),
}

} // verus!
