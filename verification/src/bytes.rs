//! Bounds-checked little-endian field extraction from a byte buffer.
//!
//! Every other decoder in the crate reads its scalars through this module.

use vstd::prelude::*;
use vstd::utf8::{decode_utf8, valid_utf8};

use crate::errors::DecodeError;

verus! {

/// The unsigned 16-bit little-endian value stored at `off`.
pub open spec fn le16_at(b: Seq<u8>, off: int) -> u16
    recommends
        0 <= off,
        off + 2 <= b.len(),
{
    (b[off] as u16) | ((b[off + 1] as u16) << 8)
}

/// The unsigned 32-bit little-endian value stored at `off`.
pub open spec fn le32_at(b: Seq<u8>, off: int) -> u32
    recommends
        0 <= off,
        off + 4 <= b.len(),
{
    (b[off] as u32) | ((b[off + 1] as u32) << 8) | ((b[off + 2] as u32) << 16) | ((b[off
        + 3] as u32) << 24)
}

/// Reads an unsigned 16-bit little-endian value; the caller guarantees bounds.
pub fn read_u16_le(b: &[u8], off: usize) -> (r: u16)
    requires
        off + 2 <= b@.len(),
    ensures
        r == le16_at(b@, off as int),
{
    let lo = b[off] as u16;
    let hi = b[off + 1] as u16;
    lo | (hi << 8)
}

/// Reads a signed 16-bit little-endian value; the caller guarantees bounds.
pub fn read_i16_le(b: &[u8], off: usize) -> (r: i16)
    requires
        off + 2 <= b@.len(),
    ensures
        r == le16_at(b@, off as int) as i16,
{
    read_u16_le(b, off) as i16
}

/// Reads an unsigned 32-bit little-endian value; the caller guarantees bounds.
pub fn read_u32_le(b: &[u8], off: usize) -> (r: u32)
    requires
        off + 4 <= b@.len(),
    ensures
        r == le32_at(b@, off as int),
{
    let b0 = b[off] as u32;
    let b1 = b[off + 1] as u32;
    let b2 = b[off + 2] as u32;
    let b3 = b[off + 3] as u32;
    b0 | (b1 << 8) | (b2 << 16) | (b3 << 24)
}

/// Bounds-checked unsigned 32-bit little-endian read: rejects, naming the
/// offset, instead of demanding bounds from the caller.
pub fn get_u32(data: &[u8], off: usize) -> (r: Result<u32, DecodeError>)
    ensures
        match r {
            Ok(v) => off + 4 <= data@.len() && v == le32_at(data@, off as int),
            Err(e) => off + 4 > data@.len() && e == DecodeError::Bounds(off),
        },
{
    if data.len() < 4 || off > data.len() - 4 {
        return Err(DecodeError::Bounds(off));
    }
    Ok(read_u32_le(data, off))
}

/// The position of the first zero byte at or after `off`, or `b.len()` if
/// the buffer ends first.
pub open spec fn cstr_end(b: Seq<u8>, off: int) -> int
    decreases b.len() - off,
{
    if off < 0 || off >= b.len() {
        b.len() as int
    } else if b[off] == 0 {
        off
    } else {
        cstr_end(b, off + 1)
    }
}

/// A scan that saw no zero byte in `[off, end)` and stopped at `end` pins
/// down `cstr_end`.
pub proof fn lemma_cstr_end_from_scan(b: Seq<u8>, off: int, end: int)
    requires
        0 <= off <= end <= b.len(),
        forall|j: int| off <= j < end ==> b[j] != 0,
        end == b.len() || b[end] == 0,
    ensures
        cstr_end(b, off) == end,
    decreases end - off,
{
    if off < end {
        lemma_cstr_end_from_scan(b, off + 1, end);
    }
}

/// Relies on `String::from_utf8`: it returns `Ok` exactly when the bytes are
/// valid UTF-8, and then holds the characters those bytes encode.
#[verifier::external_body]
fn utf8_to_string(bytes: Vec<u8>) -> (r: Option<String>)
    ensures
        r is Some <==> valid_utf8(bytes@),
        r matches Some(s) ==> s@ == decode_utf8(bytes@),
{
    String::from_utf8(bytes).ok()
}

/// Reads the zero-terminated string that starts at `off`: rejects with the
/// offset when no terminator exists, and as non-text when the bytes before
/// the terminator are not valid UTF-8.
pub fn read_cstr(buf: &[u8], off: usize) -> (r: Result<String, DecodeError>)
    ensures
        match r {
            Ok(s) => {
                &&& off <= cstr_end(buf@, off as int) < buf@.len()
                &&& valid_utf8(buf@.subrange(off as int, cstr_end(buf@, off as int)))
                &&& s@ == decode_utf8(buf@.subrange(off as int, cstr_end(buf@, off as int)))
            },
            Err(DecodeError::Bounds(o)) => o == off && (off > buf@.len() || cstr_end(
                buf@,
                off as int,
            ) == buf@.len()),
            Err(DecodeError::Encoding) => {
                &&& off <= cstr_end(buf@, off as int) < buf@.len()
                &&& !valid_utf8(buf@.subrange(off as int, cstr_end(buf@, off as int)))
            },
            Err(_) => false,
        },
{
    if off > buf.len() {
        return Err(DecodeError::Bounds(off));
    }
    let mut end: usize = off;
    while end < buf.len() && buf[end] != 0
        invariant
            off <= end <= buf@.len(),
            forall|j: int| off <= j < end ==> buf@[j] != 0,
        decreases buf@.len() - end,
    {
        end = end + 1;
    }
    proof {
        lemma_cstr_end_from_scan(buf@, off as int, end as int);
    }
    if end == buf.len() {
        return Err(DecodeError::Bounds(off));
    }
    let mut name: Vec<u8> = Vec::new();
    let mut k: usize = off;
    while k < end
        invariant
            off <= k <= end <= buf@.len(),
            name@ == buf@.subrange(off as int, k as int),
        decreases end - k,
    {
        name.push(buf[k]);
        proof {
            assert(name@ =~= buf@.subrange(off as int, k + 1));
        }
        k = k + 1;
    }
    match utf8_to_string(name) {
        Some(s) => Ok(s),
        None => Err(DecodeError::Encoding),
    }
}

} // verus!
