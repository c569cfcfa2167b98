//! Texture decoding for a TFH/TFD blob pair: infer the top dimension, mip
//! count and block footprint from the data length, then expand the top mip
//! level of BC1/BC3/BC5 block compression to RGBA8.
//!
//! Textures are assumed square, with power-of-two dimensions; only the top
//! mip level is decoded.

use vstd::prelude::*;

use crate::bytes::{le16_at, le32_at, read_u16_le, read_u32_le};
use crate::errors::DecodeError;

verus! {

/// How many bytes one 4x4 block occupies.
#[derive(Clone, Copy, Debug, PartialEq, Eq, Structural)]
pub enum BcFootprint {
    /// 8 bytes per block (BC1).
    Bc1_4,
    /// 16 bytes per block (BC3, BC5, BC7).
    Bc3_5_7,
}

impl BcFootprint {
    /// The footprint in bytes, as a mathematical value.
    pub open spec fn spec_bytes(self) -> int {
        if self is Bc1_4 {
            8
        } else {
            16
        }
    }

}

/// The byte size of a standard mip chain: level by level the dimension
/// halves (never below one), each level holds one footprint's worth of
/// bytes per 4x4 block.
pub open spec fn spec_sum_bc(top: int, bpb: int, mips: int) -> int
    decreases mips,
{
    if mips <= 0 {
        0
    } else {
        let w = if top < 1 {
            1
        } else {
            top
        };
        let bw = (w + 3) / 4;
        bw * bw * bpb + spec_sum_bc(w / 2, bpb, mips - 1)
    }
}

/// Sums the byte size of a mip chain with the given square top dimension,
/// bytes per block, and level count.
pub fn sum_bc_bytes(top: usize, bpb: usize, mips: usize) -> (r: usize)
    requires
        top <= 8192,
        bpb <= 16,
        mips <= 9,
    ensures
        r as int == spec_sum_bc(top as int, bpb as int, mips as int),
{
    let mut total: usize = 0;
    let mut w = top;
    let mut m: usize = 0;
    while m < mips
        invariant
            m <= mips,
            mips <= 9,
            bpb <= 16,
            w <= 8192,
            total <= m * 67108864,
            total as int + spec_sum_bc(w as int, bpb as int, (mips - m) as int) == spec_sum_bc(
                top as int,
                bpb as int,
                mips as int,
            ),
        decreases mips - m,
    {
        let wc: usize = if w < 1 {
            1
        } else {
            w
        };
        let bw = (wc + 3) / 4;
        proof {
            assert(bw <= 2048);
            assert(bw * bw <= 4194304) by (nonlinear_arith)
                requires
                    0 <= bw <= 2048;
            assert(bw * bw * bpb <= 67108864) by (nonlinear_arith)
                requires
                    0 <= bw <= 2048,
                    0 <= bpb <= 16;
        }
        let level = bw * bw * bpb;
        total = total + level;
        w = wc / 2;
        m = m + 1;
    }
    total
}

/// The candidate square top dimensions, tried from largest to smallest.
pub open spec fn spec_top_candidate(i: int) -> int {
    if i == 0 {
        4096
    } else if i == 1 {
        2048
    } else if i == 2 {
        1024
    } else if i == 3 {
        512
    } else if i == 4 {
        256
    } else if i == 5 {
        128
    } else {
        64
    }
}

/// The first mip count in `[m, 10)` whose chain for this dimension and
/// footprint has exactly the observed length.
pub open spec fn spec_guess_mips(len: int, top: int, bpb: int, m: int) -> Option<int>
    decreases 10 - m,
{
    if m >= 10 {
        None
    } else if spec_sum_bc(top, bpb, m) == len {
        Some(m)
    } else {
        spec_guess_mips(len, top, bpb, m + 1)
    }
}

/// The first candidate dimension from position `i` on whose chain matches
/// the observed length, with its mip count.
pub open spec fn spec_guess_tops(len: int, bpb: int, i: int) -> Option<(int, int)>
    decreases 7 - i,
{
    if i >= 7 {
        None
    } else {
        match spec_guess_mips(len, spec_top_candidate(i), bpb, 1) {
            Some(m) => Some((spec_top_candidate(i), m)),
            None => spec_guess_tops(len, bpb, i + 1),
        }
    }
}

/// What the brute-force search infers from a data length alone: the 8-byte
/// footprint is tried before the 16-byte one, dimensions from largest to
/// smallest, mip counts from one up.
pub open spec fn spec_guess(len: int) -> Option<(int, int, BcFootprint)> {
    match spec_guess_tops(len, 8, 0) {
        Some(tm) => Some((tm.0, tm.1, BcFootprint::Bc1_4)),
        None => match spec_guess_tops(len, 16, 0) {
            Some(tm) => Some((tm.0, tm.1, BcFootprint::Bc3_5_7)),
            None => None,
        },
    }
}

/// The candidate dimension at position `i`.
fn top_candidate(i: usize) -> (r: usize)
    requires
        i < 7,
    ensures
        r as int == spec_top_candidate(i as int),
        64 <= r <= 8192,
{
    if i == 0 {
        4096
    } else if i == 1 {
        2048
    } else if i == 2 {
        1024
    } else if i == 3 {
        512
    } else if i == 4 {
        256
    } else if i == 5 {
        128
    } else {
        64
    }
}

/// Searches the mip counts 1 to 9 for one whose chain size matches the
/// observed length exactly.
#[verifier::loop_isolation(false)]
fn find_mips(tfd_len: usize, top: usize, bpb: usize) -> (r: Option<usize>)
    requires
        top <= 8192,
        bpb <= 16,
    ensures
        match r {
            Some(m) => spec_guess_mips(tfd_len as int, top as int, bpb as int, 1) == Some(
                m as int,
            ),
            None => spec_guess_mips(tfd_len as int, top as int, bpb as int, 1) is None,
        },
{
    let mut mips: usize = 1;
    while mips < 10
        invariant
            1 <= mips <= 10,
            spec_guess_mips(tfd_len as int, top as int, bpb as int, 1) == spec_guess_mips(
                tfd_len as int,
                top as int,
                bpb as int,
                mips as int,
            ),
        decreases 10 - mips,
    {
        if sum_bc_bytes(top, bpb, mips) == tfd_len {
            return Some(mips);
        }
        mips = mips + 1;
    }
    None
}

/// Searches all candidate dimensions for one footprint.
#[verifier::loop_isolation(false)]
fn guess_with_bpb(tfd_len: usize, bpb: usize) -> (r: Option<(usize, usize)>)
    requires
        bpb == 8 || bpb == 16,
    ensures
        match r {
            Some(tm) => spec_guess_tops(tfd_len as int, bpb as int, 0) == Some(
                (tm.0 as int, tm.1 as int),
            ),
            None => spec_guess_tops(tfd_len as int, bpb as int, 0) is None,
        },
{
    let mut ti: usize = 0;
    while ti < 7
        invariant
            ti <= 7,
            spec_guess_tops(tfd_len as int, bpb as int, 0) == spec_guess_tops(
                tfd_len as int,
                bpb as int,
                ti as int,
            ),
        decreases 7 - ti,
    {
        let top = top_candidate(ti);
        match find_mips(tfd_len, top, bpb) {
            Some(m) => {
                return Some((top, m));
            },
            None => {},
        }
        ti = ti + 1;
    }
    None
}

/// Infers (top dimension, mip count, footprint) from the data length: the
/// first combination, in the fixed search order, whose mip-chain size
/// equals the length exactly.
pub fn guess_from_tfd_len(tfd_len: usize) -> (r: Option<(usize, usize, BcFootprint)>)
    ensures
        match r {
            Some(g) => spec_guess(tfd_len as int) == Some((g.0 as int, g.1 as int, g.2)),
            None => spec_guess(tfd_len as int) is None,
        },
{
    match guess_with_bpb(tfd_len, 8) {
        Some(tm) => Some((tm.0, tm.1, BcFootprint::Bc1_4)),
        None => match guess_with_bpb(tfd_len, 16) {
            Some(tm) => Some((tm.0, tm.1, BcFootprint::Bc3_5_7)),
            None => None,
        },
    }
}

/// True for a plausible header dimension hint: a power of two between 64
/// and 8192.
pub open spec fn spec_dim_ok(w: int) -> bool {
    ||| w == 64
    ||| w == 128
    ||| w == 256
    ||| w == 512
    ||| w == 1024
    ||| w == 2048
    ||| w == 4096
    ||| w == 8192
}

/// Reads the header's dimension hint: the 32-bit field at offset 0xA0,
/// accepted only when it is a power of two in [64, 8192].
pub fn tfh_dim_hint(tfh: &[u8]) -> (r: Option<usize>)
    ensures
        match r {
            Some(w) => {
                &&& tfh@.len() >= 0xA4
                &&& w == le32_at(tfh@, 0xA0) as usize
                &&& spec_dim_ok(w as int)
            },
            None => tfh@.len() < 0xA4 || !spec_dim_ok(le32_at(tfh@, 0xA0) as int),
        },
{
    if tfh.len() < 0xA4 {
        return None;
    }
    let w = read_u32_le(tfh, 0xA0) as usize;
    if w == 64 || w == 128 || w == 256 || w == 512 || w == 1024 || w == 2048 || w == 4096 || w
        == 8192 {
        Some(w)
    } else {
        None
    }
}

/// The 5:6:5 color expanded to 8 bits per channel, rounding up at the
/// half step.
pub open spec fn spec_rgb565(c: u16) -> (u8, u8, u8) {
    let r = ((c >> 11) & 0x1F) as int;
    let g = ((c >> 5) & 0x3F) as int;
    let b = (c & 0x1F) as int;
    (((r * 255 + 15) / 31) as u8, ((g * 255 + 31) / 63) as u8, ((b * 255 + 15) / 31) as u8)
}

/// Expands a packed 5:6:5 color to three 8-bit channels.
pub fn rgb565_to_888(c: u16) -> (rgb: [u8; 3])
    ensures
        (rgb@[0], rgb@[1], rgb@[2]) == spec_rgb565(c),
{
    let r = ((c >> 11) & 0x1F) as u32;
    let g = ((c >> 5) & 0x3F) as u32;
    let b = (c & 0x1F) as u32;
    proof {
        assert(((c >> 11) & 0x1F) <= 31 && ((c >> 5) & 0x3F) <= 63 && (c & 0x1F) <= 31)
            by (bit_vector);
    }
    [((r * 255 + 15) / 31) as u8, ((g * 255 + 31) / 63) as u8, ((b * 255 + 15) / 31) as u8]
}

/// One channel of an RGBA texel.
pub open spec fn rgba_channel(px: (u8, u8, u8, u8), k: int) -> u8 {
    if k == 0 {
        px.0
    } else if k == 1 {
        px.1
    } else if k == 2 {
        px.2
    } else {
        px.3
    }
}

/// The two-bit palette index of texel `t` in a BC1 block: packed into the
/// last four bytes, low bits first.
pub open spec fn bc1_code(block: Seq<u8>, t: int) -> int {
    ((le32_at(block, 4) >> ((2 * t) as u32)) & 3) as int
}

/// Palette entry `code` of a BC1 block. With the first endpoint strictly
/// greater, the two middle entries interpolate at thirds and all four are
/// opaque; otherwise the third entry is the midpoint and the fourth is
/// fully transparent black.
pub open spec fn bc1_palette(block: Seq<u8>, code: int) -> (u8, u8, u8, u8) {
    let c0 = le16_at(block, 0);
    let c1 = le16_at(block, 2);
    let p0 = spec_rgb565(c0);
    let p1 = spec_rgb565(c1);
    if code == 0 {
        (p0.0, p0.1, p0.2, 255u8)
    } else if code == 1 {
        (p1.0, p1.1, p1.2, 255u8)
    } else if c0 > c1 {
        if code == 2 {
            (
                ((2 * (p0.0 as int) + (p1.0 as int)) / 3) as u8,
                ((2 * (p0.1 as int) + (p1.1 as int)) / 3) as u8,
                ((2 * (p0.2 as int) + (p1.2 as int)) / 3) as u8,
                255u8,
            )
        } else {
            (
                (((p0.0 as int) + 2 * (p1.0 as int)) / 3) as u8,
                (((p0.1 as int) + 2 * (p1.1 as int)) / 3) as u8,
                (((p0.2 as int) + 2 * (p1.2 as int)) / 3) as u8,
                255u8,
            )
        }
    } else if code == 2 {
        (
            (((p0.0 as int) + (p1.0 as int)) / 2) as u8,
            (((p0.1 as int) + (p1.1 as int)) / 2) as u8,
            (((p0.2 as int) + (p1.2 as int)) / 2) as u8,
            255u8,
        )
    } else {
        (0u8, 0u8, 0u8, 0u8)
    }
}

/// The 4x4 RGBA tile an 8-byte BC1 block decodes to, row-major.
pub open spec fn bc1_tile(block: Seq<u8>) -> Seq<u8> {
    Seq::new(64, |i: int| rgba_channel(bc1_palette(block, bc1_code(block, i / 4)), i % 4))
}

/// Decodes one 8-byte BC1 block to its 64-byte RGBA tile.
#[verifier::loop_isolation(false)]
fn decode_bc1_block(block: &[u8]) -> (tile: Vec<u8>)
    requires
        block@.len() == 8,
    ensures
        tile@.len() == 64,
        tile@ == bc1_tile(block@),
{
    let c0 = read_u16_le(block, 0);
    let c1 = read_u16_le(block, 2);
    let idx = read_u32_le(block, 4);
    let p0 = rgb565_to_888(c0);
    let p1 = rgb565_to_888(c1);
    let pal23: [[u8; 4]; 2] = if c0 > c1 {
        [
            [
                ((2 * (p0[0] as u16) + (p1[0] as u16)) / 3) as u8,
                ((2 * (p0[1] as u16) + (p1[1] as u16)) / 3) as u8,
                ((2 * (p0[2] as u16) + (p1[2] as u16)) / 3) as u8,
                255,
            ],
            [
                (((p0[0] as u16) + 2 * (p1[0] as u16)) / 3) as u8,
                (((p0[1] as u16) + 2 * (p1[1] as u16)) / 3) as u8,
                (((p0[2] as u16) + 2 * (p1[2] as u16)) / 3) as u8,
                255,
            ],
        ]
    } else {
        [
            [
                (((p0[0] as u16) + (p1[0] as u16)) / 2) as u8,
                (((p0[1] as u16) + (p1[1] as u16)) / 2) as u8,
                (((p0[2] as u16) + (p1[2] as u16)) / 2) as u8,
                255,
            ],
            [0, 0, 0, 0],
        ]
    };
    let pal: [[u8; 4]; 4] = [
        [p0[0], p0[1], p0[2], 255],
        [p1[0], p1[1], p1[2], 255],
        pal23[0],
        pal23[1],
    ];
    proof {
        assert forall|cd: int| 0 <= cd < 4 implies (
            pal@[cd]@[0],
            pal@[cd]@[1],
            pal@[cd]@[2],
            pal@[cd]@[3],
        ) == bc1_palette(block@, cd) by {}
    }
    let mut tile: Vec<u8> = Vec::new();
    let mut t: usize = 0;
    while t < 16
        invariant
            t <= 16,
            tile@.len() == 4 * t,
            forall|j: int| 0 <= j < 4 * t ==> tile@[j] == bc1_tile(block@)[j],
        decreases 16 - t,
    {
        let sh = (2 * t) as u32;
        let code_bits = (idx >> sh) & 3;
        proof {
            assert((idx >> sh) & 3 < 4) by (bit_vector);
        }
        let code = code_bits as usize;
        let e = pal[code];
        tile.push(e[0]);
        tile.push(e[1]);
        tile.push(e[2]);
        tile.push(e[3]);
        proof {
            assert forall|j: int| 0 <= j < 4 * (t + 1) implies tile@[j] == bc1_tile(block@)[j] by {
                if j >= 4 * t {
                    assert(j / 4 == t && j % 4 == j - 4 * t) by (nonlinear_arith)
                        requires
                            4 * (t as int) <= j < 4 * (t as int) + 4;
                    assert(bc1_code(block@, t as int) == code);
                }
            }
        }
        t = t + 1;
    }
    tile
}

/// What the BC3 decoder yields on one 16-byte block: a 64-byte row-major
/// RGBA tile. The result depends on the block's bytes alone.
pub uninterp spec fn bc3_tile(block: Seq<u8>) -> Seq<u8>;

/// Relies on `bcdec_rs::bc3`: it decodes one 16-byte BC3 block to a 4x4
/// RGBA8 tile, a pure function of the block.
#[verifier::external_body]
fn bc3_decode_block(block: &[u8]) -> (r: Vec<u8>)
    requires
        block@.len() == 16,
    ensures
        r@.len() == 64,
        r@ == bc3_tile(block@),
{
    let mut tmp = [0u8; 64];
    bcdec_rs::bc3(block, &mut tmp, 4 * 4);
    tmp.to_vec()
}

/// What the BC5 decoder yields on one 16-byte block: a 32-byte row-major
/// two-channel (RG8) tile. The result depends on the block's bytes alone.
pub uninterp spec fn bc5_tile(block: Seq<u8>) -> Seq<u8>;

/// Relies on `bcdec_rs::bc5`: it decodes one 16-byte BC5 block to a 4x4
/// two-channel tile (two bytes per texel), a pure function of the block.
#[verifier::external_body]
fn bc5_decode_block(block: &[u8]) -> (r: Vec<u8>)
    requires
        block@.len() == 16,
    ensures
        r@.len() == 32,
        r@ == bc5_tile(block@),
{
    let mut tmp = [0u8; 32];
    bcdec_rs::bc5(block, &mut tmp, 4 * 2, true);
    tmp.to_vec()
}

/// The RGBA tile a BC5 block maps to: the two stored channels, a zero
/// third channel, opaque alpha.
pub open spec fn bc5_rgba_tile(block: Seq<u8>) -> Seq<u8> {
    Seq::new(
        64,
        |i: int|
            {
                let t = i / 4;
                let k = i % 4;
                if k == 0 {
                    bc5_tile(block)[2 * t]
                } else if k == 1 {
                    bc5_tile(block)[2 * t + 1]
                } else if k == 2 {
                    0u8
                } else {
                    255u8
                }
            },
    )
}

/// Expands one BC5 block to RGBA: stored channels first, then the fixed
/// zero channel and opaque alpha.
#[verifier::loop_isolation(false)]
fn bc5_block_to_rgba(block: &[u8]) -> (tile: Vec<u8>)
    requires
        block@.len() == 16,
    ensures
        tile@.len() == 64,
        tile@ == bc5_rgba_tile(block@),
{
    let rg = bc5_decode_block(block);
    let mut tile: Vec<u8> = Vec::new();
    let mut t: usize = 0;
    while t < 16
        invariant
            t <= 16,
            rg@.len() == 32,
            rg@ == bc5_tile(block@),
            tile@.len() == 4 * t,
            forall|j: int| 0 <= j < 4 * t ==> tile@[j] == bc5_rgba_tile(block@)[j],
        decreases 16 - t,
    {
        tile.push(rg[2 * t]);
        tile.push(rg[2 * t + 1]);
        tile.push(0);
        tile.push(255);
        proof {
            assert forall|j: int| 0 <= j < 4 * (t + 1) implies tile@[j] == bc5_rgba_tile(
                block@,
            )[j] by {
                if j >= 4 * t {
                    assert(j / 4 == t && j % 4 == j - 4 * t) by (nonlinear_arith)
                        requires
                            4 * (t as int) <= j < 4 * (t as int) + 4;
                }
            }
        }
        t = t + 1;
    }
    tile
}

/// Which block compression is being expanded.
#[derive(Clone, Copy, Debug, PartialEq, Eq, Structural)]
pub enum BcMode {
    /// Color only, 8 bytes per block.
    Bc1,
    /// Color plus interpolated alpha, 16 bytes per block.
    Bc3,
    /// Two independent channels, 16 bytes per block.
    Bc5,
}

/// The block footprint of a mode, in bytes.
pub open spec fn mode_bpb(m: BcMode) -> int {
    if m is Bc1 {
        8
    } else {
        16
    }
}

/// The RGBA tile one block decodes to under a mode.
pub open spec fn mode_tile(m: BcMode, block: Seq<u8>) -> Seq<u8> {
    match m {
        BcMode::Bc1 => bc1_tile(block),
        BcMode::Bc3 => bc3_tile(block),
        BcMode::Bc5 => bc5_rgba_tile(block),
    }
}

/// Decodes one block to its RGBA tile under the given mode.
fn decode_block(mode: BcMode, block: &[u8]) -> (tile: Vec<u8>)
    requires
        block@.len() == mode_bpb(mode),
    ensures
        tile@.len() == 64,
        tile@ == mode_tile(mode, block@),
{
    match mode {
        BcMode::Bc1 => decode_bc1_block(block),
        BcMode::Bc3 => bc3_decode_block(block),
        BcMode::Bc5 => bc5_block_to_rgba(block),
    }
}

/// Blocks per row (or column) of a dimension.
pub open spec fn blocks_across(w: int) -> int {
    (w + 3) / 4
}

/// The horizontal block coordinate that output byte `o` falls in.
pub open spec fn block_x_of(o: int, w: int) -> int {
    (((o / 4) % w) / 4)
}

/// The vertical block coordinate that output byte `o` falls in.
pub open spec fn block_y_of(o: int, w: int) -> int {
    (((o / 4) / w) / 4)
}

/// The row, within its block, of the pixel that byte `o` belongs to.
pub open spec fn tile_row_of(o: int, w: int, by: int) -> int {
    (o / 4) / w - by * 4
}

/// Where in a 64-byte tile output byte `o` comes from.
pub open spec fn tile_index(o: int, w: int, bx: int, by: int) -> int {
    let t = o / 4;
    let x = t % w;
    let y = t / w;
    ((y - by * 4) * 4 + (x - bx * 4)) * 4 + (o % 4)
}

/// True when output byte `o` lies in block (`bx`, `by`).
pub open spec fn pixel_in_block(o: int, w: int, bx: int, by: int) -> bool {
    block_x_of(o, w) == bx && block_y_of(o, w) == by
}

/// The bytes of block (`bx`, `by`) in a row-major block stream.
pub open spec fn spec_block_at(src: Seq<u8>, w: int, bpb: int, bx: int, by: int) -> Seq<u8> {
    let off = (by * blocks_across(w) + bx) * bpb;
    src.subrange(off, off + bpb)
}

/// The whole decoded top mip level: every output byte comes from the tile
/// of the block its pixel falls in.
pub open spec fn spec_bc_image(mode: BcMode, src: Seq<u8>, w: int, h: int) -> Seq<u8> {
    Seq::new(
        (w * h * 4) as nat,
        |o: int|
            mode_tile(
                mode,
                spec_block_at(src, w, mode_bpb(mode), block_x_of(o, w), block_y_of(o, w)),
            )[tile_index(o, w, block_x_of(o, w), block_y_of(o, w))],
    )
}

/// The 16 output bytes of one tile row land in block (`bx`, `by`), in row
/// `row` of its tile, at consecutive tile indices.
proof fn lemma_block_row_forward(o: int, w: int, bx: int, by: int, row: int)
    requires
        4 <= w,
        w % 4 == 0,
        0 <= bx < w / 4,
        0 <= by,
        0 <= row < 4,
        ((by * 4 + row) * w + bx * 4) * 4 <= o < ((by * 4 + row) * w + bx * 4) * 4 + 16,
    ensures
        pixel_in_block(o, w, bx, by),
        tile_row_of(o, w, by) == row,
        tile_index(o, w, bx, by) == row * 16 + (o - ((by * 4 + row) * w + bx * 4) * 4),
{
    let base = ((by * 4 + row) * w + bx * 4) * 4;
    let j = o - base;
    let jd = j / 4;
    let jm = j % 4;
    vstd::arithmetic::div_mod::lemma_fundamental_div_mod(j, 4);
    vstd::arithmetic::div_mod::lemma_mod_bound(j, 4);
    assert(0 <= jd < 4) by {
        assert(j == 4 * jd + jm);
    }
    let big = (by * 4 + row) * w + bx * 4;
    assert(o == 4 * (big + jd) + jm);
    vstd::arithmetic::div_mod::lemma_fundamental_div_mod_converse(o, 4, big + jd, jm);
    let t = big + jd;
    assert(bx * 4 + jd < w) by (nonlinear_arith)
        requires
            0 <= bx < w / 4,
            w % 4 == 0,
            4 <= w,
            0 <= jd < 4;
    assert(t == w * (by * 4 + row) + (bx * 4 + jd)) by (nonlinear_arith)
        requires
            t == (by * 4 + row) * w + bx * 4 + jd;
    vstd::arithmetic::div_mod::lemma_fundamental_div_mod_converse(
        t,
        w,
        by * 4 + row,
        bx * 4 + jd,
    );
    assert(t % w == bx * 4 + jd && t / w == by * 4 + row);
    vstd::arithmetic::div_mod::lemma_fundamental_div_mod_converse(bx * 4 + jd, 4, bx, jd);
    vstd::arithmetic::div_mod::lemma_fundamental_div_mod_converse(by * 4 + row, 4, by, row);
    assert(block_x_of(o, w) == bx);
    assert(block_y_of(o, w) == by);
    assert(tile_index(o, w, bx, by) == (row * 4 + jd) * 4 + jm);
    assert((row * 4 + jd) * 4 + jm == row * 16 + j) by (nonlinear_arith)
        requires
            j == 4 * jd + jm;
}

/// A byte in block (`bx`, `by`) sits in one of the four tile rows.
proof fn lemma_in_block_row_bound(o: int, w: int, bx: int, by: int)
    requires
        4 <= w,
        0 <= o,
        pixel_in_block(o, w, bx, by),
    ensures
        0 <= tile_row_of(o, w, by) < 4,
{
    let t = o / 4;
    let y = t / w;
    vstd::arithmetic::div_mod::lemma_fundamental_div_mod(y, 4);
    vstd::arithmetic::div_mod::lemma_mod_bound(y, 4);
    vstd::arithmetic::div_mod::lemma_div_pos_is_pos(o, 4);
    vstd::arithmetic::div_mod::lemma_div_pos_is_pos(t, w);
    assert(y / 4 == by);
}

/// Writes one 64-byte tile into the output buffer at block position
/// (`bx`, `by`), leaving every byte outside that block untouched.
#[verifier::loop_isolation(false)]
#[verifier::rlimit(60)]
fn write_tile(out: &mut Vec<u8>, tile: &Vec<u8>, w: usize, bx: usize, by: usize)
    requires
        tile@.len() == 64,
        w % 4 == 0,
        4 <= w <= 8192,
        bx < w / 4,
        (by as int + 1) * 16 * (w as int) <= old(out)@.len(),
    ensures
        final(out)@.len() == old(out)@.len(),
        forall|o: int|
            0 <= o < final(out)@.len() && pixel_in_block(o, w as int, bx as int, by as int)
                ==> final(out)@[o] == tile@[tile_index(o, w as int, bx as int, by as int)],
        forall|o: int|
            0 <= o < final(out)@.len() && !pixel_in_block(o, w as int, bx as int, by as int)
                ==> final(out)@[o] == old(out)@[o],
{
    let cap = out.len();
    let mut row: usize = 0;
    while row < 4
        invariant
            row <= 4,
            cap == old(out)@.len(),
            out@.len() == old(out)@.len(),
            forall|o: int|
                0 <= o < out@.len() && pixel_in_block(o, w as int, bx as int, by as int)
                    && tile_row_of(o, w as int, by as int) < row ==> out@[o] == tile@[tile_index(
                    o,
                    w as int,
                    bx as int,
                    by as int,
                )],
            forall|o: int|
                0 <= o < out@.len() && !(pixel_in_block(o, w as int, bx as int, by as int)
                    && tile_row_of(o, w as int, by as int) < row) ==> out@[o] == old(out)@[o],
        decreases 4 - row,
    {
        proof {
            assert(4 * (bx as int) + 4 <= w as int) by (nonlinear_arith)
                requires
                    (bx as int) < (w as int) / 4,
                    (w as int) % 4 == 0,
                    4 <= w as int;
            assert({
                &&& (by as int) * 4 + (row as int) <= (by as int + 1) * 16 * (w as int)
                &&& ((by as int) * 4 + (row as int)) * (w as int) <= (by as int + 1) * 16 * (
                w as int)
                &&& ((by as int) * 4 + (row as int)) * (w as int) + (bx as int) * 4 <= (by as int
                    + 1) * 16 * (w as int)
                &&& (((by as int) * 4 + (row as int)) * (w as int) + (bx as int) * 4) * 4 + 16 <= (
                by as int + 1) * 16 * (w as int)
            }) by (nonlinear_arith)
                requires
                    0 <= bx as int,
                    4 * (bx as int) + 4 <= w as int,
                    0 <= (row as int) < 4,
                    0 <= by as int,
                    4 <= w as int;
        }
        let base = ((by * 4 + row) * w + bx * 4) * 4;
        let ghost out_entry = out@;
        let mut j: usize = 0;
        while j < 16
            invariant
                j <= 16,
                out@.len() == out_entry.len(),
                base == ((by as int * 4 + row) * (w as int) + bx as int * 4) * 4,
                base + 16 <= out@.len(),
                forall|o: int| base <= o < base + j ==> out@[o] == tile@[row * 16 + (o - base)],
                forall|o: int|
                    0 <= o < out@.len() && !(base <= o < base + j) ==> out@[o] == out_entry[o],
            decreases 16 - j,
        {
            out[base + j] = tile[row * 16 + j];
            j = j + 1;
        }
        proof {
            assert forall|o: int|
                0 <= o < out@.len() && pixel_in_block(o, w as int, bx as int, by as int)
                    && tile_row_of(o, w as int, by as int) < row + 1 implies out@[o]
                == tile@[tile_index(o, w as int, bx as int, by as int)] by {
                if base <= o < base + 16 {
                    lemma_block_row_forward(o, w as int, bx as int, by as int, row as int);
                } else {
                    if tile_row_of(o, w as int, by as int) == row {
                        // every byte of this tile row lies in [base, base+16)
                        let t = o / 4;
                        let x = t % (w as int);
                        let y = t / (w as int);
                        vstd::arithmetic::div_mod::lemma_fundamental_div_mod(o, 4);
                        vstd::arithmetic::div_mod::lemma_mod_bound(o, 4);
                        vstd::arithmetic::div_mod::lemma_fundamental_div_mod(t, w as int);
                        vstd::arithmetic::div_mod::lemma_mod_bound(t, w as int);
                        vstd::arithmetic::div_mod::lemma_fundamental_div_mod(x, 4);
                        vstd::arithmetic::div_mod::lemma_mod_bound(x, 4);
                        vstd::arithmetic::div_mod::lemma_div_pos_is_pos(o, 4);
                        vstd::arithmetic::div_mod::lemma_div_pos_is_pos(t, w as int);
                        assert(y == by as int * 4 + row);
                        assert(x == bx as int * 4 + x % 4);
                        assert(o == 4 * (y * (w as int) + x) + o % 4) by (nonlinear_arith)
                            requires
                                o == 4 * (o / 4) + o % 4,
                                o / 4 == (w as int) * ((o / 4) / (w as int)) + (o / 4) % (
                                w as int),
                                x == (o / 4) % (w as int),
                                y == (o / 4) / (w as int);
                        assert(4 * (y * (w as int) + x) == base + 4 * (x % 4)) by (nonlinear_arith)
                            requires
                                y == by as int * 4 + row,
                                x == bx as int * 4 + x % 4,
                                base == ((by as int * 4 + row) * (w as int) + bx as int * 4) * 4;
                        assert(base <= o < base + 16);
                    }
                }
            }
            assert forall|o: int|
                0 <= o < out@.len() && !(pixel_in_block(o, w as int, bx as int, by as int)
                    && tile_row_of(o, w as int, by as int) < row + 1) implies out@[o] == old(
                out,
            )@[o] by {
                if base <= o < base + 16 {
                    lemma_block_row_forward(o, w as int, bx as int, by as int, row as int);
                } else {
                    assert(out@[o] == out_entry[o]);
                }
            }
        }
        row = row + 1;
    }
    proof {
        assert forall|o: int|
            0 <= o < out@.len() && pixel_in_block(o, w as int, bx as int, by as int) implies out@[o]
            == tile@[tile_index(o, w as int, bx as int, by as int)] by {
            lemma_in_block_row_bound(o, w as int, bx as int, by as int);
        }
    }
}

/// The block coordinates of any output byte stay inside the block grid.
proof fn lemma_pixel_coords(o: int, w: int, h: int)
    requires
        4 <= w,
        4 <= h,
        w % 4 == 0,
        h % 4 == 0,
        0 <= o < w * h * 4,
    ensures
        0 <= block_x_of(o, w) < w / 4,
        0 <= block_y_of(o, w) < h / 4,
{
    let t = o / 4;
    let x = t % w;
    let y = t / w;
    vstd::arithmetic::div_mod::lemma_fundamental_div_mod(o, 4);
    vstd::arithmetic::div_mod::lemma_mod_bound(o, 4);
    vstd::arithmetic::div_mod::lemma_div_pos_is_pos(o, 4);
    assert(t < w * h);
    vstd::arithmetic::div_mod::lemma_fundamental_div_mod(t, w);
    vstd::arithmetic::div_mod::lemma_mod_bound(t, w);
    vstd::arithmetic::div_mod::lemma_div_pos_is_pos(t, w);
    assert(y < h) by (nonlinear_arith)
        requires
            t == w * y + x,
            0 <= x < w,
            t < w * h,
            4 <= w;
    vstd::arithmetic::div_mod::lemma_fundamental_div_mod(x, 4);
    vstd::arithmetic::div_mod::lemma_mod_bound(x, 4);
    vstd::arithmetic::div_mod::lemma_div_pos_is_pos(x, 4);
    vstd::arithmetic::div_mod::lemma_fundamental_div_mod(y, 4);
    vstd::arithmetic::div_mod::lemma_mod_bound(y, 4);
    vstd::arithmetic::div_mod::lemma_div_pos_is_pos(y, 4);
    assert(4 * (x / 4) <= x && 4 * (y / 4) <= y);
    assert(block_x_of(o, w) < w / 4) by (nonlinear_arith)
        requires
            block_x_of(o, w) == x / 4,
            x == 4 * (x / 4) + x % 4,
            0 <= x % 4 < 4,
            x < w,
            w % 4 == 0,
            w == 4 * (w / 4);
    assert(w == 4 * (w / 4)) by {
        vstd::arithmetic::div_mod::lemma_fundamental_div_mod(w, 4);
    }
    assert(h == 4 * (h / 4)) by {
        vstd::arithmetic::div_mod::lemma_fundamental_div_mod(h, 4);
    }
    assert(block_y_of(o, w) < h / 4) by (nonlinear_arith)
        requires
            block_y_of(o, w) == y / 4,
            y == 4 * (y / 4) + y % 4,
            0 <= y % 4 < 4,
            y < h,
            h == 4 * (h / 4);
}

/// A vector of `n` zero bytes.
fn zero_vec(n: usize) -> (r: Vec<u8>)
    ensures
        r@.len() == n,
{
    let mut r: Vec<u8> = Vec::new();
    let mut k: usize = 0;
    while k < n
        invariant
            k <= n,
            r@.len() == k,
        decreases n - k,
    {
        r.push(0);
        k = k + 1;
    }
    r
}

/// Expands the top mip level of a row-major block stream to a tightly
/// packed RGBA8 buffer, or rejects a stream shorter than its block grid.
#[verifier::loop_isolation(false)]
#[verifier::rlimit(100)]
fn decode_top_mip(src: &[u8], w: usize, h: usize, mode: BcMode) -> (r: Result<
    Vec<u8>,
    DecodeError,
>)
    requires
        w % 4 == 0,
        h % 4 == 0,
        4 <= w <= 8192,
        4 <= h <= 8192,
    ensures
        match r {
            Ok(out) => {
                &&& blocks_across(w as int) * blocks_across(h as int) * mode_bpb(mode)
                    <= src@.len()
                &&& out@.len() == (w as int) * (h as int) * 4
                &&& out@ == spec_bc_image(mode, src@, w as int, h as int)
            },
            Err(e) => {
                &&& e == DecodeError::Size
                &&& src@.len() < blocks_across(w as int) * blocks_across(h as int) * mode_bpb(
                    mode,
                )
            },
        },
{
    let bw = (w + 3) / 4;
    let bh = (h + 3) / 4;
    let bpb: usize = match mode {
        BcMode::Bc1 => 8,
        _ => 16,
    };
    proof {
        assert(bw <= 2048 && bh <= 2048);
        assert(bw * bh <= 4194304) by (nonlinear_arith)
            requires
                0 <= bw <= 2048,
                0 <= bh <= 2048;
        assert(bw * bh * bpb <= 67108864) by (nonlinear_arith)
            requires
                0 <= bw * bh <= 4194304,
                0 <= bpb <= 16;
    }
    let need = bw * bh * bpb;
    if src.len() < need {
        return Err(DecodeError::Size);
    }
    proof {
        assert(w * h <= 67108864) by (nonlinear_arith)
            requires
                4 <= (w as int) <= 8192,
                4 <= (h as int) <= 8192;
    }
    let total = w * h * 4;
    let mut out = zero_vec(total);
    let ghost image = spec_bc_image(mode, src@, w as int, h as int);
    let mut by: usize = 0;
    while by < bh
        invariant
            by <= bh,
            out@.len() == total,
            forall|o: int|
                0 <= o < total && block_y_of(o, w as int) < by ==> out@[o] == image[o],
        decreases bh - by,
    {
        let mut bx: usize = 0;
        while bx < bw
            invariant
                bx <= bw,
                out@.len() == total,
                forall|o: int|
                    0 <= o < total && (block_y_of(o, w as int) < by || (block_y_of(o, w as int)
                        == by && block_x_of(o, w as int) < bx)) ==> out@[o] == image[o],
            decreases bw - bx,
        {
            proof {
                assert((by as int) * bw + bx + 1 <= (bh as int) * bw) by (nonlinear_arith)
                    requires
                        0 <= (bx as int) < bw as int,
                        0 <= (by as int) < bh as int;
                assert(((by as int) * bw + bx) * bpb + bpb <= (bh as int) * bw * bpb)
                    by (nonlinear_arith)
                    requires
                        ((by as int) * bw + bx) + 1 <= (bh as int) * (bw as int),
                        0 <= (by as int) * bw + bx,
                        0 < bpb;
                assert((bh as int) * bw * bpb == (bw as int) * bh * bpb) by (nonlinear_arith);
                assert((by as int + 1) * 16 * (w as int) <= total as int) by (nonlinear_arith)
                    requires
                        (by as int) + 1 <= bh as int,
                        (bh as int) * 4 == (h as int),
                        4 <= w as int,
                        total as int == (w as int) * (h as int) * 4;
                assert((bh as int) * 4 == h as int) by {
                    vstd::arithmetic::div_mod::lemma_fundamental_div_mod(h as int, 4);
                }
            }
            let off = (by * bw + bx) * bpb;
            let block = &src[off..off + bpb];
            let tile = decode_block(mode, block);
            write_tile(&mut out, &tile, w, bx, by);
            proof {
                assert forall|o: int|
                    0 <= o < total && (block_y_of(o, w as int) < by || (block_y_of(o, w as int)
                        == by && block_x_of(o, w as int) < bx + 1)) implies out@[o] == image[
                o] by {
                    if pixel_in_block(o, w as int, bx as int, by as int) {
                        assert(block@ == spec_block_at(
                            src@,
                            w as int,
                            mode_bpb(mode),
                            bx as int,
                            by as int,
                        ));
                        assert(out@[o] == tile@[tile_index(o, w as int, bx as int, by as int)]);
                    }
                }
            }
            bx = bx + 1;
        }
        proof {
            assert forall|o: int|
                0 <= o < total && block_y_of(o, w as int) < by + 1 implies out@[o] == image[o] by {
                lemma_pixel_coords(o, w as int, h as int);
            }
        }
        by = by + 1;
    }
    proof {
        assert forall|o: int| 0 <= o < total implies out@[o] == image[o] by {
            lemma_pixel_coords(o, w as int, h as int);
        }
        assert(out@ =~= image);
    }
    Ok(out)
}

/// Decodes the top mip level of a BC1 block stream to RGBA8.
pub fn decode_bc1_top_mip_to_rgba(src: &[u8], w: usize, h: usize) -> (r: Result<
    Vec<u8>,
    DecodeError,
>)
    requires
        w % 4 == 0,
        h % 4 == 0,
        4 <= w <= 8192,
        4 <= h <= 8192,
    ensures
        match r {
            Ok(out) => {
                &&& blocks_across(w as int) * blocks_across(h as int) * 8 <= src@.len()
                &&& out@ == spec_bc_image(BcMode::Bc1, src@, w as int, h as int)
            },
            Err(e) => {
                &&& e == DecodeError::Size
                &&& src@.len() < blocks_across(w as int) * blocks_across(h as int) * 8
            },
        },
{
    decode_top_mip(src, w, h, BcMode::Bc1)
}

/// Decodes the top mip level of a BC3 block stream to RGBA8.
pub fn decode_bc3_top_mip_to_rgba(src: &[u8], w: usize, h: usize) -> (r: Result<
    Vec<u8>,
    DecodeError,
>)
    requires
        w % 4 == 0,
        h % 4 == 0,
        4 <= w <= 8192,
        4 <= h <= 8192,
    ensures
        match r {
            Ok(out) => {
                &&& blocks_across(w as int) * blocks_across(h as int) * 16 <= src@.len()
                &&& out@ == spec_bc_image(BcMode::Bc3, src@, w as int, h as int)
            },
            Err(e) => {
                &&& e == DecodeError::Size
                &&& src@.len() < blocks_across(w as int) * blocks_across(h as int) * 16
            },
        },
{
    decode_top_mip(src, w, h, BcMode::Bc3)
}

/// Decodes the top mip level of a BC5 block stream to RGBA8, the two
/// stored channels first in each texel.
pub fn decode_bc5_top_mip_to_rgba(src: &[u8], w: usize, h: usize) -> (r: Result<
    Vec<u8>,
    DecodeError,
>)
    requires
        w % 4 == 0,
        h % 4 == 0,
        4 <= w <= 8192,
        4 <= h <= 8192,
    ensures
        match r {
            Ok(out) => {
                &&& blocks_across(w as int) * blocks_across(h as int) * 16 <= src@.len()
                &&& out@ == spec_bc_image(BcMode::Bc5, src@, w as int, h as int)
            },
            Err(e) => {
                &&& e == DecodeError::Size
                &&& src@.len() < blocks_across(w as int) * blocks_across(h as int) * 16
            },
        },
{
    decode_top_mip(src, w, h, BcMode::Bc5)
}

/// Decoded top-mip-level texture: square, tightly packed RGBA8.
#[derive(Debug)]
pub struct TfdImage {
    /// Width in pixels.
    pub width: usize,
    /// Height in pixels; the format is assumed square.
    pub height: usize,
    /// Row-major RGBA bytes, `width * height * 4` of them.
    pub rgba: Vec<u8>,
}

/// The bytes the block decoders will see: the data blob itself when its
/// length is a multiple of 8, else what the frame decoder makes of it.
pub open spec fn spec_raw(tfd: Seq<u8>) -> Option<Seq<u8>> {
    if tfd.len() % 8 == 0 {
        Some(tfd)
    } else {
        crate::codec::frame_decode(tfd)
    }
}

/// The header-hint fallback: with a plausible dimension in the header,
/// search mip counts for that dimension, the 8-byte footprint first when
/// it is allowed at all.
pub open spec fn spec_hint_infer(len: int, tfh: Seq<u8>, compressed: bool) -> Option<
    (int, int, BcFootprint),
> {
    if tfh.len() >= 0xA4 && spec_dim_ok(le32_at(tfh, 0xA0) as int) {
        let hint = le32_at(tfh, 0xA0) as int;
        if compressed {
            match spec_guess_mips(len, hint, 16, 1) {
                Some(m) => Some((hint, m, BcFootprint::Bc3_5_7)),
                None => None,
            }
        } else {
            match spec_guess_mips(len, hint, 8, 1) {
                Some(m) => Some((hint, m, BcFootprint::Bc1_4)),
                None => match spec_guess_mips(len, hint, 16, 1) {
                    Some(m) => Some((hint, m, BcFootprint::Bc3_5_7)),
                    None => None,
                },
            }
        }
    } else {
        None
    }
}

/// The whole inference: the brute-force search over the candidate
/// dimensions first (restricted to the 16-byte footprint for a
/// frame-compressed stream), the header hint as the fallback.
pub open spec fn spec_infer(len: int, tfh: Seq<u8>, compressed: bool) -> Option<
    (int, int, BcFootprint),
> {
    if compressed {
        match spec_guess_tops(len, 16, 0) {
            Some(tm) => Some((tm.0, tm.1, BcFootprint::Bc3_5_7)),
            None => spec_hint_infer(len, tfh, true),
        }
    } else {
        match spec_guess(len) {
            Some(g) => Some(g),
            None => spec_hint_infer(len, tfh, false),
        }
    }
}

/// A mip-chain size is never negative.
proof fn lemma_sum_bc_nonneg(top: int, bpb: int, mips: int)
    requires
        bpb >= 0,
    ensures
        spec_sum_bc(top, bpb, mips) >= 0,
    decreases mips,
{
    if mips > 0 {
        let w = if top < 1 {
            1
        } else {
            top
        };
        let bw = (w + 3) / 4;
        assert(bw >= 0);
        assert(bw * bw * bpb >= 0) by (nonlinear_arith)
            requires
                bw >= 0,
                bpb >= 0;
        lemma_sum_bc_nonneg(w / 2, bpb, mips - 1);
    }
}

/// A chain of at least one level holds at least its top level's blocks.
proof fn lemma_sum_bc_first(top: int, bpb: int, mips: int)
    requires
        bpb >= 0,
        mips >= 1,
        top >= 1,
    ensures
        spec_sum_bc(top, bpb, mips) >= blocks_across(top) * blocks_across(top) * bpb,
{
    lemma_sum_bc_nonneg(top / 2, bpb, mips - 1);
}

/// What a successful mip search pins down.
proof fn lemma_guess_mips_props(len: int, top: int, bpb: int, m: int, mm: int)
    requires
        spec_guess_mips(len, top, bpb, m) == Some(mm),
        m >= 1,
    ensures
        m <= mm < 10,
        spec_sum_bc(top, bpb, mm) == len,
    decreases 10 - m,
{
    if m < 10 && spec_sum_bc(top, bpb, m) != len {
        lemma_guess_mips_props(len, top, bpb, m + 1, mm);
    }
}

/// What a successful dimension search pins down: a candidate dimension
/// (all are multiples of four between 64 and 4096) and a matching mip
/// count.
proof fn lemma_guess_tops_props(len: int, bpb: int, i: int, tm: (int, int))
    requires
        spec_guess_tops(len, bpb, i) == Some(tm),
        0 <= i,
    ensures
        64 <= tm.0 <= 4096,
        tm.0 % 4 == 0,
        1 <= tm.1 < 10,
        spec_sum_bc(tm.0, bpb, tm.1) == len,
    decreases 7 - i,
{
    if i < 7 {
        match spec_guess_mips(len, spec_top_candidate(i), bpb, 1) {
            Some(m) => {
                lemma_guess_mips_props(len, spec_top_candidate(i), bpb, 1, m);
            },
            None => {
                lemma_guess_tops_props(len, bpb, i + 1, tm);
            },
        }
    }
}

/// What any successful inference pins down: a square dimension that is a
/// multiple of four in [64, 8192], a mip count in [1, 10), and a chain
/// size equal to the observed length; a compressed stream always infers
/// the 16-byte footprint.
proof fn lemma_infer_props(len: int, tfh: Seq<u8>, compressed: bool, g: (int, int, BcFootprint))
    requires
        spec_infer(len, tfh, compressed) == Some(g),
    ensures
        64 <= g.0 <= 8192,
        g.0 % 4 == 0,
        1 <= g.1 < 10,
        spec_sum_bc(g.0, g.2.spec_bytes(), g.1) == len,
        blocks_across(g.0) * blocks_across(g.0) * g.2.spec_bytes() <= len,
        compressed ==> g.2 is Bc3_5_7,
{
    if compressed {
        match spec_guess_tops(len, 16, 0) {
            Some(tm) => {
                lemma_guess_tops_props(len, 16, 0, tm);
            },
            None => {
                lemma_guess_mips_props(len, g.0, 16, 1, g.1);
            },
        }
    } else {
        match spec_guess_tops(len, 8, 0) {
            Some(tm) => {
                lemma_guess_tops_props(len, 8, 0, tm);
            },
            None => match spec_guess_tops(len, 16, 0) {
                Some(tm) => {
                    lemma_guess_tops_props(len, 16, 0, tm);
                },
                None => {
                    if tfh.len() >= 0xA4 && spec_dim_ok(le32_at(tfh, 0xA0) as int) {
                        let hint = le32_at(tfh, 0xA0) as int;
                        match spec_guess_mips(len, hint, 8, 1) {
                            Some(m) => {
                                lemma_guess_mips_props(len, hint, 8, 1, m);
                            },
                            None => {
                                lemma_guess_mips_props(len, hint, 16, 1, g.1);
                            },
                        }
                    }
                },
            },
        }
    }
    lemma_sum_bc_first(g.0, g.2.spec_bytes(), g.1);
}

/// Runs the inference over a data length and the header.
fn infer(len: usize, tfh: &[u8], compressed: bool) -> (r: Option<(usize, usize, BcFootprint)>)
    ensures
        match r {
            Some(g) => spec_infer(len as int, tfh@, compressed) == Some(
                (g.0 as int, g.1 as int, g.2),
            ),
            None => spec_infer(len as int, tfh@, compressed) is None,
        },
{
    if compressed {
        match guess_with_bpb(len, 16) {
            Some(tm) => {
                return Some((tm.0, tm.1, BcFootprint::Bc3_5_7));
            },
            None => {},
        }
    } else {
        match guess_from_tfd_len(len) {
            Some(g) => {
                return Some(g);
            },
            None => {},
        }
    }
    let hint = match tfh_dim_hint(tfh) {
        Some(w) => w,
        None => {
            return None;
        },
    };
    if compressed {
        match find_mips(len, hint, 16) {
            Some(m) => Some((hint, m, BcFootprint::Bc3_5_7)),
            None => None,
        }
    } else {
        match find_mips(len, hint, 8) {
            Some(m) => Some((hint, m, BcFootprint::Bc1_4)),
            None => match find_mips(len, hint, 16) {
                Some(m) => Some((hint, m, BcFootprint::Bc3_5_7)),
                None => None,
            },
        }
    }
}

/// Decodes a TFD data blob with help from its TFH header: decompress a
/// frame-compressed stream, infer the dimensions and footprint from the
/// resulting length (with the header's dimension as fallback), and expand
/// the top mip level to a square RGBA image. A compressed stream holds the
/// two-channel format; a raw stream holds color data in the inferred
/// footprint.
#[verifier::rlimit(60)]
pub fn decode(tfd: &[u8], tfh: &[u8]) -> (r: Result<TfdImage, DecodeError>)
    ensures
        ({
            let compressed = tfd@.len() % 8 != 0;
            match r {
                Ok(img) => {
                    &&& spec_raw(tfd@) matches Some(raw)
                    &&& spec_infer(spec_raw(tfd@).unwrap().len() as int, tfh@, compressed)
                        matches Some(g) && {
                        let mode = if compressed {
                            BcMode::Bc5
                        } else if g.2 is Bc1_4 {
                            BcMode::Bc1
                        } else {
                            BcMode::Bc3
                        };
                        &&& img.width as int == g.0
                        &&& img.height as int == g.0
                        &&& img.rgba@ == spec_bc_image(mode, spec_raw(tfd@).unwrap(), g.0, g.0)
                    }
                },
                Err(DecodeError::Compression) => compressed && crate::codec::frame_decode(tfd@)
                    is None,
                Err(DecodeError::Inference) => spec_raw(tfd@) matches Some(raw) && spec_infer(
                    raw.len() as int,
                    tfh@,
                    compressed,
                ) is None,
                Err(_) => false,
            }
        }),
{
    let compressed = tfd.len() % 8 != 0;
    let kind = if compressed {
        crate::codec::Compression::FrameCompressed
    } else {
        crate::codec::Compression::Raw
    };
    let raw = match crate::codec::decompress(tfd, kind) {
        Ok(v) => v,
        Err(e) => {
            return Err(e);
        },
    };
    let g = match infer(raw.len(), tfh, compressed) {
        Some(g) => g,
        None => {
            return Err(DecodeError::Inference);
        },
    };
    let (top, _mips, fp) = g;
    proof {
        lemma_infer_props(
            raw@.len() as int,
            tfh@,
            compressed,
            (top as int, _mips as int, fp),
        );
    }
    let mode = if compressed {
        BcMode::Bc5
    } else {
        match fp {
            BcFootprint::Bc1_4 => BcMode::Bc1,
            BcFootprint::Bc3_5_7 => BcMode::Bc3,
        }
    };
    let rgba = match decode_top_mip(raw.as_slice(), top, top, mode) {
        Ok(v) => v,
        Err(_) => {
            proof {
                // inference matched the length exactly, so the top level fits
                assert(false);
            }
            return Err(DecodeError::Inference);
        },
    };
    Ok(TfdImage { width: top, height: top, rgba })
}

} // verus!
