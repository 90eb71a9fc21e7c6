//! The decode error taxonomy: every structural violation in a replay
//! buffer surfaces as one of these fatal, non-recoverable errors.

use vstd::prelude::*;

verus! {

/// A fatal decode failure. No partial replay record is ever returned.
#[derive(Clone, Copy, PartialEq, Eq, Structural, Debug)]
pub enum DecodeError {
    /// A read would run past the end of the buffer (or a block length
    /// field is negative, making the block unreadable).
    Bounds,
    /// The embedded compressed block is malformed, truncated, or does
    /// not decompress to UTF-8 text.
    Decompression,
    /// A frame record has the wrong field count or a field fails
    /// numeric parsing.
    FrameParse,
}

} // verus!
