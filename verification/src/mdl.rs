//! Heuristic scanner for fixed-layout mesh-chunk records embedded in a raw
//! byte stream, plus the grouping of decoded chunks into level-of-detail
//! families.
//!
//! No container header marks these records, so the scanner walks the buffer
//! in 16-byte steps looking for a signature, and treats any record whose
//! computed vertex or index arrays would leave the buffer as a false
//! positive. Positions are kept as IEEE-754 single-precision bit patterns,
//! so the decoder stays exact, bit for bit; a renderer reinterprets them as
//! floating-point values.

use vstd::prelude::*;

use crate::bytes::{le16_at, le32_at, read_u16_le, read_u32_le};
use crate::errors::DecodeError;

verus! {

/// The single-precision bit pattern a half-precision subnormal normalizes
/// to: the mantissa doubles and the exponent drops until the implicit-one
/// bit appears. Exponent 103 encodes the smallest magnitude reachable from
/// a half-precision subnormal, so the walk stops there.
pub open spec fn subnormal_bits(s: u32, mant: u32, exp: u32) -> u32
    decreases exp,
{
    if 1 <= mant < 1024 && exp > 103 {
        subnormal_bits(s, (2 * mant) as u32, (exp - 1) as u32)
    } else {
        (s << 31) | (exp << 23) | ((mant & 0x3FF) << 13)
    }
}

/// The single-precision bit pattern that a half-precision bit pattern
/// denotes: sign in bit 15, 5 exponent bits, 10 mantissa bits. Exponent 0
/// is zero or a subnormal, exponent 31 is an infinity (zero mantissa) or a
/// NaN (non-zero mantissa), and everything else is rebiased from 15 to 127.
pub open spec fn spec_f16_to_f32_bits(u: u16) -> u32 {
    let s = ((u >> 15) & 1) as u32;
    let e = ((u >> 10) & 0x1F) as u32;
    let f = (u & 0x3FF) as u32;
    if e == 0 {
        if f == 0 {
            s << 31
        } else {
            subnormal_bits(s, f, 113)
        }
    } else if e == 31 {
        (s << 31) | 0x7F800000 | (f << 13)
    } else {
        (s << 31) | (((e + 112) as u32) << 23) | (f << 13)
    }
}

/// Converts a half-precision bit pattern to the single-precision bit
/// pattern of the same value, by standard IEEE half semantics.
pub fn f16_to_f32_bits(u: u16) -> (r: u32)
    ensures
        r == spec_f16_to_f32_bits(u),
{
    let s = ((u >> 15) & 1) as u32;
    let e = ((u >> 10) & 0x1F) as u32;
    let f = (u & 0x3FF) as u32;
    if e == 0 {
        if f == 0 {
            return s << 31;
        }
        assert(f < 1024) by (bit_vector)
            requires
                f == (u & 0x3FF) as u32,
        ;
        let mut mant = f;
        let mut exp: u32 = 113;
        while exp > 103 && mant < 1024
            invariant
                1 <= mant < 2048,
                103 <= exp <= 113,
                subnormal_bits(s, mant, exp) == subnormal_bits(s, f, 113),
            decreases exp,
        {
            mant = mant * 2;
            exp = exp - 1;
        }
        return (s << 31) | (exp << 23) | ((mant & 0x3FF) << 13);
    }
    if e == 31 {
        return (s << 31) | 0x7F800000 | (f << 13);
    }
    (s << 31) | ((e + 112) << 23) | (f << 13)
}

/// One decoded mesh record.
#[derive(Clone, Debug)]
pub struct MdlChunk {
    /// Offset of the record's header in the scanned buffer.
    pub header_off: usize,
    /// Bytes from one vertex to the next.
    pub stride: u8,
    /// Position format: 0x04 for three single-precision floats, 0x05 for
    /// three half-precision values.
    pub fmt_tag: u8,
    /// Number of vertices.
    pub vcount: u32,
    /// Number of 16-bit indices (three per triangle).
    pub icount: u32,
    /// The three attribute-layout descriptor codes.
    pub codes: [u16; 3],
    /// The three attribute byte offsets (the header stores them in units of
    /// 1/256 byte).
    pub offs_bytes: [u16; 3],
    /// Decoded positions, one single-precision bit pattern per axis.
    pub vertices: Vec<[u32; 3]>,
    /// Decoded triangles, each three vertex indices.
    pub indices: Vec<[u32; 3]>,
}

/// The mathematical shape of a decoded mesh record.
#[verifier::ext_equal]
pub struct SpecChunk {
    pub header_off: int,
    pub stride: u8,
    pub fmt_tag: u8,
    pub vcount: u32,
    pub icount: u32,
    pub codes: (u16, u16, u16),
    pub offs_bytes: (u16, u16, u16),
    pub vertices: Seq<(u32, u32, u32)>,
    pub indices: Seq<(u32, u32, u32)>,
}

/// The three components of a decoded position or triangle.
pub open spec fn arr3_view(v: [u32; 3]) -> (u32, u32, u32) {
    (v@[0], v@[1], v@[2])
}

impl View for MdlChunk {
    type V = SpecChunk;

    open spec fn view(&self) -> SpecChunk {
        SpecChunk {
            header_off: self.header_off as int,
            stride: self.stride,
            fmt_tag: self.fmt_tag,
            vcount: self.vcount,
            icount: self.icount,
            codes: (self.codes@[0], self.codes@[1], self.codes@[2]),
            offs_bytes: (self.offs_bytes@[0], self.offs_bytes@[1], self.offs_bytes@[2]),
            vertices: self.vertices@.map_values(|v: [u32; 3]| arr3_view(v)),
            indices: self.indices@.map_values(|v: [u32; 3]| arr3_view(v)),
        }
    }
}

/// True when the bytes at `c` look like a record header: marker bytes 1
/// and 0, a known position format, and a plausible stride.
pub open spec fn sig_at(b: Seq<u8>, c: int) -> bool {
    &&& b[c + 0x9C] == 1u8
    &&& b[c + 0x9D] == 0u8
    &&& (b[c + 0x9E] == 4u8 || b[c + 0x9E] == 5u8)
    &&& 4 <= b[c + 0x9F] <= 64
}

/// The vertex count recorded at `c`.
pub open spec fn chunk_vcount(b: Seq<u8>, c: int) -> u32 {
    le32_at(b, c + 0xA4)
}

/// The index count recorded at `c`.
pub open spec fn chunk_icount(b: Seq<u8>, c: int) -> u32 {
    le32_at(b, c + 0xA8)
}

/// Where the vertex array of the record at `c` starts.
pub open spec fn chunk_vaddr(c: int) -> int {
    c + 0x110
}

/// Where the index array of the record at `c` starts.
pub open spec fn chunk_iaddr(b: Seq<u8>, c: int) -> int {
    chunk_vaddr(c) + (b[c + 0x9F] as int) * (chunk_vcount(b, c) as int)
}

/// Where the index array of the record at `c` ends.
pub open spec fn chunk_iend(b: Seq<u8>, c: int) -> int {
    chunk_iaddr(b, c) + 2 * (chunk_icount(b, c) as int)
}

/// How many bytes one position occupies in the given format.
pub open spec fn vertex_read_size(fmt: u8) -> int {
    if fmt == 4 {
        12
    } else {
        6
    }
}

/// True when every byte the record at `c` makes the decoder read lies
/// inside the buffer; a record that fails this is a false positive.
pub open spec fn chunk_fits(b: Seq<u8>, c: int) -> bool {
    &&& chunk_iend(b, c) <= b.len()
    &&& chunk_vaddr(c) < b.len()
    &&& chunk_iaddr(b, c) <= b.len()
    &&& (chunk_vcount(b, c) == 0 || chunk_iaddr(b, c) - (b[c + 0x9F] as int) + vertex_read_size(
        b[c + 0x9E],
    ) <= b.len())
}

/// The position decoded from `base`: three consecutive single-precision
/// floats, or three half-precision values widened to single precision.
pub open spec fn vertex_at(b: Seq<u8>, base: int, fmt: u8) -> (u32, u32, u32) {
    if fmt == 4 {
        (le32_at(b, base), le32_at(b, base + 4), le32_at(b, base + 8))
    } else {
        (
            spec_f16_to_f32_bits(le16_at(b, base)),
            spec_f16_to_f32_bits(le16_at(b, base + 2)),
            spec_f16_to_f32_bits(le16_at(b, base + 4)),
        )
    }
}

/// All positions of the record at `c`.
pub open spec fn spec_vertices(b: Seq<u8>, c: int) -> Seq<(u32, u32, u32)> {
    Seq::new(
        chunk_vcount(b, c) as nat,
        |i: int|
            vertex_at(b, chunk_vaddr(c) + i * (b[c + 0x9F] as int), b[c + 0x9E]),
    )
}

/// All triangles of the record at `c`: consecutive unsigned 16-bit
/// little-endian indices, three per triangle, widened to 32 bits.
pub open spec fn spec_indices(b: Seq<u8>, c: int) -> Seq<(u32, u32, u32)> {
    Seq::new(
        (chunk_icount(b, c) / 3) as nat,
        |t: int|
            (
                le16_at(b, chunk_iaddr(b, c) + 6 * t) as u32,
                le16_at(b, chunk_iaddr(b, c) + 6 * t + 2) as u32,
                le16_at(b, chunk_iaddr(b, c) + 6 * t + 4) as u32,
            ),
    )
}

/// The whole record decoded at `c`: counts, the three (descriptor code,
/// byte offset) pairs that identify the model family, positions and
/// triangles. The stored attribute offsets are in units of 1/256 byte, so
/// they are shifted down by 8.
pub open spec fn spec_chunk_at(b: Seq<u8>, c: int) -> SpecChunk {
    SpecChunk {
        header_off: c,
        stride: b[c + 0x9F],
        fmt_tag: b[c + 0x9E],
        vcount: chunk_vcount(b, c),
        icount: chunk_icount(b, c),
        codes: (le16_at(b, c + 0x64), le16_at(b, c + 0x68), le16_at(b, c + 0x6C)),
        offs_bytes: (
            le16_at(b, c + 0x66) >> 8,
            le16_at(b, c + 0x6A) >> 8,
            le16_at(b, c + 0x6E) >> 8,
        ),
        vertices: spec_vertices(b, c),
        indices: spec_indices(b, c),
    }
}

/// Every record the scan finds from cursor `c` on: a matching, in-bounds
/// record is decoded and the cursor jumps to its index array's end;
/// anything else advances the cursor by the fixed 16-byte step.
pub open spec fn spec_scan(b: Seq<u8>, c: int) -> Seq<SpecChunk>
    decreases b.len() - c,
{
    if c < 0 || c + 0x110 > b.len() {
        Seq::empty()
    } else if sig_at(b, c) && chunk_fits(b, c) {
        seq![spec_chunk_at(b, c)] + spec_scan(b, chunk_iend(b, c))
    } else {
        spec_scan(b, c + 16)
    }
}

/// Decodes the record whose header sits at `off`, once the signature and
/// bounds checks have accepted it.
#[verifier::loop_isolation(false)]
#[verifier::rlimit(60)]
fn decode_chunk_at(
    bytes: &[u8],
    off: usize,
    stride: u8,
    fmt_tag: u8,
    vcount: u32,
    icount: u32,
    vaddr: usize,
    iaddr: usize,
) -> (r: MdlChunk)
    requires
        off + 0x110 <= bytes@.len(),
        sig_at(bytes@, off as int),
        chunk_fits(bytes@, off as int),
        stride == bytes@[off + 0x9C + 3],
        fmt_tag == bytes@[off + 0x9C + 2],
        vcount == chunk_vcount(bytes@, off as int),
        icount == chunk_icount(bytes@, off as int),
        vaddr == off + 0x110,
        iaddr as int == chunk_iaddr(bytes@, off as int),
    ensures
        r@ == spec_chunk_at(bytes@, off as int),
{
    let len = bytes.len();
    let code0 = read_u16_le(bytes, off + 0x64);
    let off0 = read_u16_le(bytes, off + 0x66) >> 8;
    let code1 = read_u16_le(bytes, off + 0x68);
    let off1 = read_u16_le(bytes, off + 0x6A) >> 8;
    let code2 = read_u16_le(bytes, off + 0x6C);
    let off2 = read_u16_le(bytes, off + 0x6E) >> 8;

    let ghost c = off as int;
    let mut vertices: Vec<[u32; 3]> = Vec::new();
    let mut i: usize = 0;
    while i < vcount as usize
        invariant
            i <= vcount,
            vertices@.len() == i,
            forall|j: int|
                0 <= j < i ==> arr3_view(#[trigger] vertices@[j]) == vertex_at(
                    bytes@,
                    chunk_vaddr(c) + j * (stride as int),
                    fmt_tag,
                ),
        decreases vcount - i,
    {
        proof {
            assert((i as int) * (stride as int) + (stride as int) <= (vcount as int) * (
            stride as int)) by (nonlinear_arith)
                requires
                    0 <= (i as int) && (i as int) < (vcount as int),
                    0 <= stride as int;
            assert((stride as int) * (vcount as int) == (vcount as int) * (stride as int))
                by (nonlinear_arith);
            assert(vaddr as int + (vcount as int) * (stride as int) == iaddr as int);
            assert(vaddr as int + (i as int) * (stride as int) + (stride as int) <= iaddr as int);
        }
        let base = vaddr + i * (stride as usize);
        let pos: [u32; 3] = if fmt_tag == 4 {
            [read_u32_le(bytes, base), read_u32_le(bytes, base + 4), read_u32_le(bytes, base + 8)]
        } else {
            [
                f16_to_f32_bits(read_u16_le(bytes, base)),
                f16_to_f32_bits(read_u16_le(bytes, base + 2)),
                f16_to_f32_bits(read_u16_le(bytes, base + 4)),
            ]
        };
        vertices.push(pos);
        i = i + 1;
    }

    let tri_total = (icount as usize) / 3;
    let mut indices: Vec<[u32; 3]> = Vec::new();
    let mut t: usize = 0;
    while t < tri_total
        invariant
            t <= tri_total,
            tri_total == chunk_icount(bytes@, c) as int / 3,
            indices@.len() == t,
            forall|j: int|
                0 <= j < t ==> arr3_view(#[trigger] indices@[j]) == (
                    le16_at(bytes@, chunk_iaddr(bytes@, c) + 6 * j) as u32,
                    le16_at(bytes@, chunk_iaddr(bytes@, c) + 6 * j + 2) as u32,
                    le16_at(bytes@, chunk_iaddr(bytes@, c) + 6 * j + 4) as u32,
                ),
        decreases tri_total - t,
    {
        proof {
            assert(6 * (t as int) + 6 <= 2 * (icount as int)) by (nonlinear_arith)
                requires
                    0 <= (t as int) && (t as int) < (icount as int) / 3;
        }
        let base = iaddr + 6 * t;
        let ia = read_u16_le(bytes, base) as u32;
        let ib = read_u16_le(bytes, base + 2) as u32;
        let ic = read_u16_le(bytes, base + 4) as u32;
        indices.push([ia, ib, ic]);
        t = t + 1;
    }

    let r = MdlChunk {
        header_off: off,
        stride,
        fmt_tag,
        vcount,
        icount,
        codes: [code0, code1, code2],
        offs_bytes: [off0, off1, off2],
        vertices,
        indices,
    };
    proof {
        assert(r@.vertices =~= spec_vertices(bytes@, c));
        assert(r@.indices =~= spec_indices(bytes@, c));
        assert(r@ =~= spec_chunk_at(bytes@, c));
    }
    r
}

/// Tests the signature at `off` and, when the record also fits the buffer,
/// decodes it and reports where its index array ends.
#[verifier::loop_isolation(false)]
fn try_chunk_at(bytes: &[u8], off: usize) -> (r: Option<(MdlChunk, usize)>)
    requires
        off + 0x110 <= bytes@.len(),
    ensures
        match r {
            Some(p) => {
                &&& sig_at(bytes@, off as int) && chunk_fits(bytes@, off as int)
                &&& p.0@ == spec_chunk_at(bytes@, off as int)
                &&& p.1 as int == chunk_iend(bytes@, off as int)
                &&& off < p.1 <= bytes@.len()
            },
            None => !(sig_at(bytes@, off as int) && chunk_fits(bytes@, off as int)),
        },
{
    let len = bytes.len();
    if !(bytes[off + 0x9C] == 1 && bytes[off + 0x9D] == 0) {
        return None;
    }
    let fmt_tag = bytes[off + 0x9E];
    let stride = bytes[off + 0x9F];
    if !(fmt_tag == 4 || fmt_tag == 5) {
        return None;
    }
    if !(4 <= stride && stride <= 64) {
        return None;
    }
    let vcount = read_u32_le(bytes, off + 0xA4);
    let icount = read_u32_le(bytes, off + 0xA8);
    let vaddr = off + 0x110;
    let vb = match (stride as usize).checked_mul(vcount as usize) {
        Some(v) => v,
        None => {
            return None;
        },
    };
    let iaddr = match vaddr.checked_add(vb) {
        Some(v) => v,
        None => {
            return None;
        },
    };
    let ib = match (icount as usize).checked_mul(2) {
        Some(v) => v,
        None => {
            return None;
        },
    };
    let iend = match iaddr.checked_add(ib) {
        Some(v) => v,
        None => {
            return None;
        },
    };
    if !(iend <= len && vaddr < len && iaddr <= len) {
        return None;
    }
    let vsize: usize = if fmt_tag == 4 {
        12
    } else {
        6
    };
    if !(vcount == 0 || iaddr - (stride as usize) <= len - vsize) {
        return None;
    }
    let chunk = decode_chunk_at(bytes, off, stride, fmt_tag, vcount, icount, vaddr, iaddr);
    Some((chunk, iend))
}

/// Scans a raw buffer for mesh records: the cursor walks in 16-byte steps,
/// each accepted record is decoded and skipped over, and a scan that ends
/// with no record at all is reported as such.
pub fn parse_all_chunks(bytes: &[u8]) -> (r: Result<Vec<MdlChunk>, DecodeError>)
    ensures
        match r {
            Ok(v) => {
                &&& spec_scan(bytes@, 0).len() > 0
                &&& v@.len() == spec_scan(bytes@, 0).len()
                &&& forall|i: int|
                    0 <= i < v@.len() ==> (#[trigger] v@[i])@ == spec_scan(bytes@, 0)[i]
            },
            Err(e) => {
                &&& e == DecodeError::NotFound
                &&& spec_scan(bytes@, 0).len() == 0
            },
        },
{
    broadcast use vstd::seq_lib::group_seq_properties;

    let len = bytes.len();
    let mut chunks: Vec<MdlChunk> = Vec::new();
    let mut off: usize = 0;
    while len >= 0x110 && off <= len - 0x110
        invariant
            off <= len,
            len == bytes@.len(),
            spec_scan(bytes@, 0).len() == chunks@.len() + spec_scan(bytes@, off as int).len(),
            forall|i: int|
                0 <= i < chunks@.len() ==> (#[trigger] chunks@[i])@ == spec_scan(bytes@, 0)[i],
            spec_scan(bytes@, off as int) == spec_scan(bytes@, 0).skip(chunks@.len() as int),
        decreases len - off,
    {
        match try_chunk_at(bytes, off) {
            Some((chunk, next)) => {
                proof {
                    let n = chunks@.len() as int;
                    let scan0 = spec_scan(bytes@, 0);
                    let here = spec_scan(bytes@, off as int);
                    let tail = spec_scan(bytes@, next as int);
                    assert(here == seq![spec_chunk_at(bytes@, off as int)] + tail);
                    assert(chunk@ == here[0]);
                    assert(scan0[n] == scan0.skip(n)[0]);
                    assert forall|k: int| 0 <= k < tail.len() implies tail[k] == scan0.skip(
                        n + 1,
                    )[k] by {
                        assert(here[k + 1] == tail[k]);
                        assert(scan0.skip(n)[k + 1] == scan0[n + k + 1]);
                        assert(scan0.skip(n + 1)[k] == scan0[n + 1 + k]);
                    }
                    assert(tail =~= scan0.skip(n + 1));
                }
                chunks.push(chunk);
                off = next;
            },
            None => {
                proof {
                    assert(spec_scan(bytes@, off as int) == spec_scan(bytes@, off + 16));
                }
                off = off + 16;
            },
        }
    }
    proof {
        assert(spec_scan(bytes@, off as int).len() == 0);
    }
    if chunks.len() == 0 {
        Err(DecodeError::NotFound)
    } else {
        Ok(chunks)
    }
}

/// The identity of a model family: chunks of one model at different levels
/// of detail share the position format, the stride and the three
/// descriptor codes.
#[derive(Clone, Copy, Debug, PartialEq, Eq, PartialOrd, Ord, Hash)]
pub struct ModelKey {
    /// Position format tag.
    pub fmt_tag: u8,
    /// Vertex stride in bytes.
    pub stride: u8,
    /// The three attribute-layout descriptor codes.
    pub codes: [u16; 3],
}

/// One model family: its key and its member chunks (as indices into the
/// scanned chunk sequence), finest level of detail first.
#[derive(Debug)]
pub struct ModelGroup {
    /// What the members have in common.
    pub key: ModelKey,
    /// Chunk indices ordered by descending vertex count; position 0 is the
    /// highest-detail variant.
    pub lods: Vec<usize>,
}

/// The fields a key consists of, as one tuple.
pub open spec fn key_view(k: ModelKey) -> (u8, u8, u16, u16, u16) {
    (k.fmt_tag, k.stride, k.codes@[0], k.codes@[1], k.codes@[2])
}

/// The key fields of a decoded chunk, as the same tuple.
pub open spec fn mdl_key(c: MdlChunk) -> (u8, u8, u16, u16, u16) {
    (c.fmt_tag, c.stride, c.codes@[0], c.codes@[1], c.codes@[2])
}

/// Strict ordering of keys: field by field, codes last, which makes the
/// group order deterministic.
pub open spec fn key_lt(a: ModelKey, b: ModelKey) -> bool {
    if a.fmt_tag != b.fmt_tag {
        a.fmt_tag < b.fmt_tag
    } else if a.stride != b.stride {
        a.stride < b.stride
    } else if a.codes@[0] != b.codes@[0] {
        a.codes@[0] < b.codes@[0]
    } else if a.codes@[1] != b.codes@[1] {
        a.codes@[1] < b.codes@[1]
    } else {
        a.codes@[2] < b.codes@[2]
    }
}

/// Chunk `a` belongs before chunk `b` inside a group: more vertices first,
/// and the earlier chunk first among equals.
pub open spec fn lod_before(chunks: Seq<MdlChunk>, a: int, b: int) -> bool {
    ||| chunks[a].vcount > chunks[b].vcount
    ||| (chunks[a].vcount == chunks[b].vcount && a < b)
}

/// True when some group's member list holds chunk index `j`.
pub open spec fn covered(groups: Seq<ModelGroup>, j: usize) -> bool {
    exists|gi: int| 0 <= gi < groups.len() && (#[trigger] groups[gi]).lods@.contains(j)
}

/// A well-formed group over a chunk sequence: every member is a valid
/// index whose key fields equal the group's key, and the members descend
/// by vertex count (ties by index).
pub open spec fn group_wf(chunks: Seq<MdlChunk>, g: ModelGroup) -> bool {
    &&& forall|li: int|
        0 <= li < g.lods@.len() ==> (#[trigger] g.lods@[li]) < chunks.len() && mdl_key(
            chunks[g.lods@[li] as int],
        ) == key_view(g.key)
    &&& forall|li: int, lj: int|
        0 <= li < lj < g.lods@.len() ==> lod_before(
            chunks,
            #[trigger] g.lods@[li] as int,
            #[trigger] g.lods@[lj] as int,
        )
}

/// Key order is total on distinct keys, irreflexive, and transitive.
proof fn lemma_key_order(a: ModelKey, b: ModelKey, c: ModelKey)
    ensures
        key_view(a) != key_view(b) ==> (key_lt(a, b) || key_lt(b, a)),
        !(key_lt(a, b) && key_lt(b, a)),
        key_lt(a, b) && key_lt(b, c) ==> key_lt(a, c),
{
}

/// True when the two keys hold the same fields.
fn key_is_eq(a: &ModelKey, b: &ModelKey) -> (r: bool)
    ensures
        r == (key_view(*a) == key_view(*b)),
{
    a.fmt_tag == b.fmt_tag && a.stride == b.stride && a.codes[0] == b.codes[0] && a.codes[1]
        == b.codes[1] && a.codes[2] == b.codes[2]
}

/// True when `a` orders strictly before `b`.
fn key_is_lt(a: &ModelKey, b: &ModelKey) -> (r: bool)
    ensures
        r == key_lt(*a, *b),
{
    if a.fmt_tag != b.fmt_tag {
        a.fmt_tag < b.fmt_tag
    } else if a.stride != b.stride {
        a.stride < b.stride
    } else if a.codes[0] != b.codes[0] {
        a.codes[0] < b.codes[0]
    } else if a.codes[1] != b.codes[1] {
        a.codes[1] < b.codes[1]
    } else {
        a.codes[2] < b.codes[2]
    }
}

/// Inserts chunk index `x` into a group's member list at its ordered
/// position. Every present member precedes `x` in scan order, so among
/// equal vertex counts `x` lands last.
#[verifier::loop_isolation(false)]
fn insert_lod(chunks: &[MdlChunk], lods: &mut Vec<usize>, x: usize)
    requires
        x < chunks@.len(),
        forall|li: int| 0 <= li < old(lods)@.len() ==> (#[trigger] old(lods)@[li]) < x,
        forall|li: int, lj: int|
            0 <= li < lj < old(lods)@.len() ==> lod_before(
                chunks@,
                #[trigger] old(lods)@[li] as int,
                #[trigger] old(lods)@[lj] as int,
            ),
    ensures
        final(lods)@.len() == old(lods)@.len() + 1,
        forall|li: int|
            0 <= li < final(lods)@.len() ==> ((#[trigger] final(lods)@[li]) == x || old(
                lods,
            )@.contains(final(lods)@[li])),
        forall|v: usize| old(lods)@.contains(v) ==> final(lods)@.contains(v),
        final(lods)@.contains(x),
        forall|li: int, lj: int|
            0 <= li < lj < final(lods)@.len() ==> lod_before(
                chunks@,
                #[trigger] final(lods)@[li] as int,
                #[trigger] final(lods)@[lj] as int,
            ),
{
    let xv = chunks[x].vcount;
    let mut p: usize = 0;
    while p < lods.len() && chunks[lods[p]].vcount >= xv
        invariant
            p <= lods@.len(),
            lods@ == old(lods)@,
            forall|q: int| 0 <= q < p ==> chunks@[#[trigger] lods@[q] as int].vcount >= xv,
        decreases lods@.len() - p,
    {
        p = p + 1;
    }
    proof {
        assert(forall|q: int|
            p <= q < lods@.len() ==> chunks@[#[trigger] lods@[q] as int].vcount < xv);
    }
    lods.insert(p, x);
    proof {
        let new = lods@;
        let old_l = old(lods)@;
        assert(new == old_l.insert(p as int, x));
        assert forall|li: int| 0 <= li < new.len() implies ((#[trigger] new[li]) == x
            || old_l.contains(new[li])) by {
            if li < p {
                assert(new[li] == old_l[li]);
            } else if li > p {
                assert(new[li] == old_l[li - 1]);
            }
        }
        assert forall|v: usize| old_l.contains(v) implies new.contains(v) by {
            let q = choose|q: int| 0 <= q < old_l.len() && old_l[q] == v;
            if q < p {
                assert(new[q] == v);
            } else {
                assert(new[q + 1] == v);
            }
        }
        assert(new[p as int] == x);
        assert forall|li: int, lj: int| 0 <= li < lj < new.len() implies lod_before(
            chunks@,
            #[trigger] new[li] as int,
            #[trigger] new[lj] as int,
        ) by {
            if lj < p {
                assert(new[li] == old_l[li] && new[lj] == old_l[lj]);
            } else if li > p {
                assert(new[li] == old_l[li - 1] && new[lj] == old_l[lj - 1]);
            } else if li < p && lj == p {
                assert(new[li] == old_l[li] && new[lj] == x);
                assert(chunks@[old_l[li] as int].vcount >= xv);
                assert(old_l[li] < x);
            } else if li < p && lj > p {
                assert(new[li] == old_l[li] && new[lj] == old_l[lj - 1]);
                if li < lj - 1 {
                    assert(lod_before(chunks@, old_l[li] as int, old_l[lj - 1] as int));
                } else {
                    assert(chunks@[old_l[li] as int].vcount >= xv);
                    assert(chunks@[old_l[lj - 1] as int].vcount < xv);
                }
            } else if li == p && lj > p {
                assert(new[li] == x && new[lj] == old_l[lj - 1]);
                assert(chunks@[old_l[lj - 1] as int].vcount < xv);
            }
        }
    }
}

/// Partitions decoded chunks into model families: one group per distinct
/// key, groups in ascending key order, members in descending vertex-count
/// order (position 0 is the finest level of detail). Every chunk lands in
/// exactly the group that carries its key.
#[verifier::loop_isolation(false)]
#[verifier::rlimit(60)]
pub fn group_models(chunks: &[MdlChunk]) -> (groups: Vec<ModelGroup>)
    ensures
        forall|gi: int|
            0 <= gi < groups@.len() ==> group_wf(chunks@, #[trigger] groups@[gi]),
        forall|gi: int| 0 <= gi < groups@.len() ==> (#[trigger] groups@[gi]).lods@.len() > 0,
        forall|gi: int, gj: int|
            0 <= gi < gj < groups@.len() ==> key_lt(
                (#[trigger] groups@[gi]).key,
                (#[trigger] groups@[gj]).key,
            ),
        forall|j: usize| j < chunks@.len() ==> #[trigger] covered(groups@, j),
{
    let n = chunks.len();
    let mut groups: Vec<ModelGroup> = Vec::new();
    let mut i: usize = 0;
    while i < n
        invariant
            i <= n,
            n == chunks@.len(),
            forall|gi: int|
                0 <= gi < groups@.len() ==> group_wf(chunks@, #[trigger] groups@[gi]),
            forall|gi: int| 0 <= gi < groups@.len() ==> (#[trigger] groups@[gi]).lods@.len() > 0,
            forall|gi: int, gj: int|
                0 <= gi < gj < groups@.len() ==> key_lt(
                    (#[trigger] groups@[gi]).key,
                    (#[trigger] groups@[gj]).key,
                ),
            forall|gi: int, li: int|
                0 <= gi < groups@.len() && 0 <= li < (#[trigger] groups@[gi]).lods@.len() ==> (
                #[trigger] groups@[gi].lods@[li]) < i,
            forall|j: usize| j < i ==> #[trigger] covered(groups@, j),
        decreases n - i,
    {
        let ck = ModelKey {
            fmt_tag: chunks[i].fmt_tag,
            stride: chunks[i].stride,
            codes: chunks[i].codes,
        };
        proof {
            assert(key_view(ck) == mdl_key(chunks@[i as int]));
        }
        let mut p: usize = 0;
        while p < groups.len() && key_is_lt(&groups[p].key, &ck)
            invariant
                p <= groups@.len(),
                forall|q: int| 0 <= q < p ==> key_lt((#[trigger] groups@[q]).key, ck),
            decreases groups@.len() - p,
        {
            p = p + 1;
        }
        let hit = p < groups.len() && key_is_eq(&groups[p].key, &ck);
        if hit {
            let ghost old_groups = groups@;
            let mut g = groups.remove(p);
            insert_lod(chunks, &mut g.lods, i);
            groups.insert(p, g);
            proof {
                let new = groups@;
                assert forall|gi: int| 0 <= gi < new.len() implies new[gi]
                    == (if gi == p { new[p as int] } else { old_groups[gi] }) by {}
                assert(new.len() == old_groups.len());
                assert(new[p as int].key == old_groups[p as int].key);
                assert(group_wf(chunks@, new[p as int]));
                assert forall|j: usize| j < i + 1 implies #[trigger] covered(new, j) by {
                    if j == i {
                        assert(new[p as int].lods@.contains(j));
                    } else {
                        assert(covered(old_groups, j));
                        let gi = choose|gi: int|
                            0 <= gi < old_groups.len() && (#[trigger] old_groups[gi]).lods@.contains(
                                j,
                            );
                        if gi == p {
                            assert(new[p as int].lods@.contains(j));
                        } else {
                            assert(new[gi].lods@.contains(j));
                        }
                    }
                }
            }
        } else {
            proof {
                assert forall|q: int| p <= q < groups@.len() implies key_lt(
                    ck,
                    (#[trigger] groups@[q]).key,
                ) by {
                    lemma_key_order(groups@[p as int].key, ck, ck);
                    lemma_key_order(ck, groups@[p as int].key, groups@[q].key);
                }
            }
            let ghost old_groups = groups@;
            let mut lods: Vec<usize> = Vec::new();
            lods.push(i);
            let g = ModelGroup { key: ck, lods };
            proof {
                assert(g.lods@ =~= seq![i]);
                assert(group_wf(chunks@, g));
            }
            groups.insert(p, g);
            proof {
                let new = groups@;
                assert(new == old_groups.insert(p as int, g));
                assert(new[p as int] == g);
                assert(g.lods@[0] == i);
                assert forall|j: usize| j < i + 1 implies #[trigger] covered(new, j) by {
                    if j == i {
                        assert(new[p as int].lods@[0] == j);
                        assert(new[p as int].lods@.contains(j));
                    } else {
                        assert(covered(old_groups, j));
                        let gi = choose|gi: int|
                            0 <= gi < old_groups.len() && (#[trigger] old_groups[gi]).lods@.contains(
                                j,
                            );
                        if gi < p {
                            assert(new[gi].lods@.contains(j));
                        } else {
                            assert(new[gi + 1].lods@.contains(j));
                        }
                    }
                }
            }
        }
        i = i + 1;
    }
    groups
}

} // verus!
