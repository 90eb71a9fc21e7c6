//! Decoder for a rhythm-game replay file format: a cursor-based binary
//! reader, an LZMA-compressed frame-stream decoder, and the fixed-schema
//! field extraction that assembles the final replay record.

pub mod error;
pub mod mods;
pub mod frames;
pub mod reader;
pub mod replay;

use vstd::prelude::*;

verus! {

} // verus!
