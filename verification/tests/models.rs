//! Tests for the half-float converter, the chunk scanner, the grouper and
//! the path tree.

use grpview::errors::DecodeError;
use grpview::mdl::{
    f16_to_f32_bits, group_models, parse_all_chunks, MdlChunk, ModelKey,
};
use grpview::tree::TreeNode;

#[test]
fn half_float_one() {
    assert_eq!(f32::from_bits(f16_to_f32_bits(0x3C00)), 1.0f32);
}

#[test]
fn half_float_zero() {
    assert_eq!(f16_to_f32_bits(0x0000), 0x00000000);
    assert_eq!(f16_to_f32_bits(0x8000), 0x80000000);
}

#[test]
fn half_float_minus_two() {
    assert_eq!(f32::from_bits(f16_to_f32_bits(0xC000)), -2.0f32);
}

#[test]
fn half_float_infinities() {
    assert_eq!(f32::from_bits(f16_to_f32_bits(0x7C00)), f32::INFINITY);
    assert_eq!(f32::from_bits(f16_to_f32_bits(0xFC00)), f32::NEG_INFINITY);
}

#[test]
fn half_float_nan() {
    assert!(f32::from_bits(f16_to_f32_bits(0x7C01)).is_nan());
    assert!(f32::from_bits(f16_to_f32_bits(0xFE00)).is_nan());
}

#[test]
fn half_float_subnormals_and_normals() {
    // smallest positive subnormal: 2^-14 / 1024 = 2^-24
    assert_eq!(f32::from_bits(f16_to_f32_bits(0x0001)), 2.0f32.powi(-24));
    // largest subnormal: 2^-14 * 1023/1024
    assert_eq!(
        f32::from_bits(f16_to_f32_bits(0x03FF)),
        2.0f32.powi(-14) * 1023.0 / 1024.0
    );
    // smallest normal: 2^-14
    assert_eq!(f32::from_bits(f16_to_f32_bits(0x0400)), 2.0f32.powi(-14));
    // 1.5 = 0x3E00
    assert_eq!(f32::from_bits(f16_to_f32_bits(0x3E00)), 1.5f32);
}

/// A well-formed chunk record at `off` (which must be 16-byte aligned) in
/// a buffer of the given total length, with two float32 vertices and one
/// triangle.
fn build_mdl(off: usize, total: usize) -> Vec<u8> {
    let mut b = vec![0xABu8; total];
    b[off + 0x9C] = 1;
    b[off + 0x9D] = 0;
    b[off + 0x9E] = 0x04;
    b[off + 0x9F] = 12; // stride
    b[off + 0xA4..off + 0xA8].copy_from_slice(&2u32.to_le_bytes()); // vcount
    b[off + 0xA8..off + 0xAC].copy_from_slice(&3u32.to_le_bytes()); // icount
    // descriptor pairs
    b[off + 0x64..off + 0x66].copy_from_slice(&0x0101u16.to_le_bytes());
    b[off + 0x66..off + 0x68].copy_from_slice(&0x0200u16.to_le_bytes()); // 2 bytes after >>8
    b[off + 0x68..off + 0x6A].copy_from_slice(&0x0202u16.to_le_bytes());
    b[off + 0x6A..off + 0x6C].copy_from_slice(&0x0300u16.to_le_bytes());
    b[off + 0x6C..off + 0x6E].copy_from_slice(&0x0303u16.to_le_bytes());
    b[off + 0x6E..off + 0x70].copy_from_slice(&0x0400u16.to_le_bytes());
    let vaddr = off + 0x110;
    let verts: [f32; 6] = [1.0, 2.0, 3.0, -1.0, 0.5, 0.25];
    for (i, v) in verts.iter().enumerate() {
        b[vaddr + 4 * i..vaddr + 4 * i + 4].copy_from_slice(&v.to_bits().to_le_bytes());
    }
    let iaddr = vaddr + 24;
    for (i, ix) in [0u16, 1, 0].iter().enumerate() {
        b[iaddr + 2 * i..iaddr + 2 * i + 2].copy_from_slice(&ix.to_le_bytes());
    }
    b
}

#[test]
fn scan_finds_single_chunk_among_padding() {
    let off = 0x40;
    let buf = build_mdl(off, 0x400);
    let chunks = parse_all_chunks(&buf).unwrap();
    assert_eq!(chunks.len(), 1);
    let c = &chunks[0];
    assert_eq!(c.header_off, off);
    assert_eq!(c.fmt_tag, 0x04);
    assert_eq!(c.stride, 12);
    assert_eq!(c.vcount, 2);
    assert_eq!(c.icount, 3);
    assert_eq!(c.codes, [0x0101, 0x0202, 0x0303]);
    assert_eq!(c.offs_bytes, [0x02, 0x03, 0x04]);
    assert_eq!(c.vertices.len(), 2);
    assert_eq!(c.vertices[0], [1.0f32.to_bits(), 2.0f32.to_bits(), 3.0f32.to_bits()]);
    assert_eq!(
        c.vertices[1],
        [(-1.0f32).to_bits(), 0.5f32.to_bits(), 0.25f32.to_bits()]
    );
    assert_eq!(c.indices, vec![[0u32, 1, 0]]);
}

#[test]
fn scan_decodes_half_float_positions() {
    let off = 0x20;
    let mut b = vec![0x55u8; 0x300];
    b[off + 0x9C] = 1;
    b[off + 0x9D] = 0;
    b[off + 0x9E] = 0x05;
    b[off + 0x9F] = 6;
    b[off + 0xA4..off + 0xA8].copy_from_slice(&1u32.to_le_bytes());
    b[off + 0xA8..off + 0xAC].copy_from_slice(&0u32.to_le_bytes());
    let vaddr = off + 0x110;
    for (i, h) in [0x3C00u16, 0xC000, 0x7C00].iter().enumerate() {
        b[vaddr + 2 * i..vaddr + 2 * i + 2].copy_from_slice(&h.to_le_bytes());
    }
    let chunks = parse_all_chunks(&b).unwrap();
    assert_eq!(chunks.len(), 1);
    assert_eq!(
        chunks[0].vertices[0],
        [1.0f32.to_bits(), (-2.0f32).to_bits(), f32::INFINITY.to_bits()]
    );
}

#[test]
fn scan_reports_nothing_found() {
    assert_eq!(parse_all_chunks(&vec![0u8; 0x800]).unwrap_err(), DecodeError::NotFound);
    assert_eq!(parse_all_chunks(&[]).unwrap_err(), DecodeError::NotFound);
}

fn chunk_with(vcount: u32, fmt_tag: u8, codes: [u16; 3]) -> MdlChunk {
    MdlChunk {
        header_off: 0,
        stride: 12,
        fmt_tag,
        vcount,
        icount: 0,
        codes,
        offs_bytes: [0, 0, 0],
        vertices: Vec::new(),
        indices: Vec::new(),
    }
}

#[test]
fn grouping_orders_lods_by_vertex_count() {
    let chunks = vec![
        chunk_with(10, 4, [7, 8, 9]),
        chunk_with(50, 4, [7, 8, 9]),
        chunk_with(30, 4, [7, 8, 9]),
    ];
    let groups = group_models(&chunks);
    assert_eq!(groups.len(), 1);
    assert_eq!(groups[0].lods, vec![1, 2, 0]);
    assert_eq!(
        groups[0].key,
        ModelKey { fmt_tag: 4, stride: 12, codes: [7, 8, 9] }
    );
}

#[test]
fn grouping_separates_and_orders_keys() {
    let chunks = vec![
        chunk_with(5, 5, [1, 1, 1]),
        chunk_with(9, 4, [1, 1, 1]),
        chunk_with(7, 5, [1, 1, 1]),
    ];
    let groups = group_models(&chunks);
    assert_eq!(groups.len(), 2);
    assert_eq!(groups[0].key.fmt_tag, 4);
    assert_eq!(groups[0].lods, vec![1]);
    assert_eq!(groups[1].key.fmt_tag, 5);
    assert_eq!(groups[1].lods, vec![2, 0]);
}

#[test]
fn grouping_keeps_ties_in_scan_order() {
    let chunks = vec![
        chunk_with(20, 4, [0, 0, 0]),
        chunk_with(20, 4, [0, 0, 0]),
        chunk_with(40, 4, [0, 0, 0]),
    ];
    let groups = group_models(&chunks);
    assert_eq!(groups.len(), 1);
    assert_eq!(groups[0].lods, vec![2, 0, 1]);
}

#[test]
fn tree_insert_builds_nested_nodes() {
    let mut root = TreeNode::new();
    root.insert(&["a", "b", "x.bin"], 0);
    root.insert(&["a", "c.bin"], 1);
    root.insert(&["top.bin"], 2);
    assert_eq!(root.children.len(), 1);
    assert_eq!(root.children[0].0, "a");
    assert_eq!(root.files.len(), 1);
    assert_eq!(root.files[0], ("top.bin".to_string(), 2));
    let a = &root.children[0].1;
    assert_eq!(a.children.len(), 1);
    assert_eq!(a.children[0].0, "b");
    assert_eq!(a.files, vec![("c.bin".to_string(), 1)]);
    assert_eq!(a.children[0].1.files, vec![("x.bin".to_string(), 0)]);
}

#[test]
fn tree_insert_overwrites_same_path() {
    let mut root = TreeNode::new();
    root.insert(&["f"], 1);
    root.insert(&["f"], 9);
    assert_eq!(root.files, vec![("f".to_string(), 9)]);
}

#[test]
fn tree_insert_empty_path_is_a_no_op() {
    let mut root = TreeNode::new();
    root.insert(&[], 3);
    assert_eq!(root.children.len(), 0);
    assert_eq!(root.files.len(), 0);
}
