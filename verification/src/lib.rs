//! LZW dictionary compression over byte buffers, emitting fixed-width
//! 16-bit big-endian codes, together with the matching decoder.

use vstd::prelude::*;

pub mod codec;
pub mod laws;
pub mod model;

pub use codec::{compress, decompress, LzwError};

verus! {

} // verus!
