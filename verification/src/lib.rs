//! Decoders for a proprietary packed-asset container and the data it holds:
//! the `GRP2` archive format, heuristically located mesh-chunk records, and
//! block-compressed (BC1/BC3/BC5) texture data.
//!
//! Everything here is a pure function over byte buffers that the caller has
//! already loaded; file and screen I/O live outside this crate.

pub mod bytes;
pub mod codec;
pub mod errors;
pub mod grp;
pub mod mdl;
pub mod tfd;
pub mod tree;
