//! The failure taxonomy shared by every decoder in the crate.
//!
//! Each operation reports exactly one of these; nothing in the crate panics
//! on malformed input.

use vstd::prelude::*;

verus! {

/// Why a decode operation rejected its input.
#[derive(Clone, Copy, Debug, PartialEq, Eq, Structural)]
pub enum DecodeError {
    /// Wrong magic, empty entry table, or entries out of ascending order.
    Format,
    /// A fixed-offset read would pass the end of the buffer; holds the
    /// offset at which the read was attempted.
    Bounds(usize),
    /// Bytes that should have been text are not valid UTF-8.
    Encoding,
    /// A frame-compressed range is corrupt or truncated.
    Compression,
    /// A scan finished without finding anything.
    NotFound,
    /// No dimension/mip/footprint combination matches the data length.
    Inference,
    /// A declared or inferred size exceeds the bytes actually present.
    Size,
}

} // verus!
