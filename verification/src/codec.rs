//! The frame compression codec: detection by magic and decompression.
//!
//! A byte range is frame-compressed exactly when its first four bytes are
//! the fixed magic `28 B5 2F FD`; everything else is raw.

use vstd::prelude::*;

use crate::errors::DecodeError;

verus! {

/// How an archive entry's bytes are stored.
#[derive(Clone, Copy, Debug, PartialEq, Eq, Structural)]
pub enum Compression {
    /// The bytes are stored as they are.
    Raw,
    /// The bytes are one frame-compressed stream.
    FrameCompressed,
}

/// True when the four bytes at `off` are the frame-compression magic.
pub open spec fn frame_magic_at(b: Seq<u8>, off: int) -> bool {
    &&& off + 4 <= b.len()
    &&& b[off] == 0x28u8
    &&& b[off + 1] == 0xB5u8
    &&& b[off + 2] == 0x2Fu8
    &&& b[off + 3] == 0xFDu8
}

/// The compression kind of the range of `size` bytes at `off`: only a range
/// that holds at least four bytes and starts with the magic is compressed.
pub open spec fn spec_classify(b: Seq<u8>, off: int, size: int) -> Compression {
    if size >= 4 && frame_magic_at(b, off) {
        Compression::FrameCompressed
    } else {
        Compression::Raw
    }
}

/// Classifies the range of `size` bytes at `off` by inspecting its first
/// up-to-four bytes.
pub fn classify(b: &[u8], off: usize, size: usize) -> (r: Compression)
    requires
        off + size <= b@.len(),
    ensures
        r == spec_classify(b@, off as int, size as int),
{
    if size >= 4 && b[off] == 0x28 && b[off + 1] == 0xB5 && b[off + 2] == 0x2F && b[off + 3]
        == 0xFD {
        Compression::FrameCompressed
    } else {
        Compression::Raw
    }
}

/// What the frame decoder yields on a byte sequence: the decoded bytes, or
/// nothing when the sequence is not a well-formed frame stream. The result
/// depends on the bytes alone.
pub uninterp spec fn frame_decode(frame: Seq<u8>) -> Option<Seq<u8>>;

/// Relies on `zstd::stream::decode_all`: it streams the whole input through
/// the frame decoder, returning the decoded bytes, and fails exactly on a
/// corrupt or truncated stream. The outcome is a function of the bytes alone.
#[verifier::external_body]
fn frame_decompress(bytes: &[u8]) -> (r: Option<Vec<u8>>)
    ensures
        r is Some <==> frame_decode(bytes@) is Some,
        r matches Some(v) ==> frame_decode(bytes@) == Some(v@),
{
    zstd::stream::decode_all(std::io::Cursor::new(bytes)).ok()
}

/// Materializes a byte range: a fresh copy for a raw range, the decoded
/// stream for a frame-compressed one, and a compression failure exactly when
/// the frame decoder rejects the range.
pub fn decompress(bytes: &[u8], kind: Compression) -> (r: Result<Vec<u8>, DecodeError>)
    ensures
        match r {
            Ok(out) => match kind {
                Compression::Raw => out@ == bytes@,
                Compression::FrameCompressed => frame_decode(bytes@) == Some(out@),
            },
            Err(e) => {
                &&& e == DecodeError::Compression
                &&& kind is FrameCompressed
                &&& frame_decode(bytes@) is None
            },
        },
{
    match kind {
        Compression::Raw => {
            let mut out: Vec<u8> = Vec::new();
            let mut k: usize = 0;
            while k < bytes.len()
                invariant
                    k <= bytes@.len(),
                    out@ == bytes@.subrange(0, k as int),
                decreases bytes@.len() - k,
            {
                out.push(bytes[k]);
                proof {
                    assert(out@ =~= bytes@.subrange(0, k + 1));
                }
                k = k + 1;
            }
            proof {
                assert(out@ =~= bytes@);
            }
            Ok(out)
        },
        Compression::FrameCompressed => match frame_decompress(bytes) {
            Some(v) => Ok(v),
            None => Err(DecodeError::Compression),
        },
    }
}

} // verus!
