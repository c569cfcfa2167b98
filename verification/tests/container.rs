//! Tests for the archive container parser and the compression codec.

use grpview::codec::{decompress, Compression};
use grpview::errors::DecodeError;
use grpview::grp::GrpFile;
use grpview::bytes::{get_u32, read_cstr, read_i16_le, read_u16_le, read_u32_le};

fn put_u32(buf: &mut Vec<u8>, off: usize, v: u32) {
    buf[off..off + 4].copy_from_slice(&v.to_le_bytes());
}

/// Builds a well-formed container holding the given named blobs,
/// contiguously from the first data offset to the end of the buffer.
fn build_grp(names: &[&str], blobs: &[Vec<u8>]) -> Vec<u8> {
    let n = names.len();
    assert_eq!(n, blobs.len());
    let mut buf = vec![0u8; 0x40];
    buf[0] = 0x47;
    buf[1] = 0x52;
    buf[2] = 0x50;
    buf[3] = 0x32;
    put_u32(&mut buf, 0x04, 0x40);
    put_u32(&mut buf, 0x14, n as u32);
    buf.resize(0x40 + 4 * n, 0);
    let mut name_offs = Vec::new();
    for name in names {
        name_offs.push(buf.len() as u32);
        buf.extend_from_slice(name.as_bytes());
        buf.push(0);
    }
    for (i, off) in name_offs.iter().enumerate() {
        put_u32(&mut buf, 0x40 + 4 * i, *off);
    }
    // the index table sits 5 bytes past the last name's terminator
    let index_base = (buf.len() - 1) + 5;
    buf.resize(index_base + 12 * n, 0xEE);
    let data_start = index_base + 12 * n;
    let mut cur = data_start;
    for (i, b) in blobs.iter().enumerate() {
        put_u32(&mut buf, index_base + 12 * i, cur as u32);
        cur += b.len();
    }
    for b in blobs {
        buf.extend_from_slice(b);
    }
    buf
}

#[test]
fn parse_recovers_contiguous_entries() {
    let blobs = vec![vec![1u8; 10], vec![2u8; 20], vec![3u8; 5]];
    let buf = build_grp(&["a/x.bin", "a/y.bin", "z.bin"], &blobs);
    let total = buf.len() as u64;
    let g = GrpFile::parse(buf).unwrap();
    assert_eq!(g.file_count, 3);
    assert_eq!(g.entries.len(), 3);
    assert_eq!(g.entries[0].full_path, "a/x.bin");
    assert_eq!(g.entries[1].full_path, "a/y.bin");
    assert_eq!(g.entries[2].full_path, "z.bin");
    // the byte ranges tile [first start, buffer length) without gaps
    for i in 0..2 {
        assert_eq!(
            g.entries[i].start + g.entries[i].size,
            g.entries[i + 1].start
        );
    }
    assert_eq!(g.entries[2].start + g.entries[2].size, total);
    assert_eq!(g.entries[0].size, 10);
    assert_eq!(g.entries[1].size, 20);
    assert_eq!(g.entries[2].size, 5);
    for e in &g.entries {
        assert_eq!(e.compression, Compression::Raw);
    }
}

#[test]
fn parse_rejects_wrong_magic() {
    let blobs = vec![vec![0u8; 4]];
    let mut buf = build_grp(&["f"], &blobs);
    buf[1] = b'X';
    assert_eq!(GrpFile::parse(buf).unwrap_err(), DecodeError::Format);
}

#[test]
fn parse_rejects_short_header() {
    let buf = vec![0x47, 0x52, 0x50, 0x32, 0, 0];
    assert_eq!(GrpFile::parse(buf).unwrap_err(), DecodeError::Bounds(0x04));
    let mut buf2 = vec![0u8; 0x10];
    buf2[0] = 0x47;
    buf2[1] = 0x52;
    buf2[2] = 0x50;
    buf2[3] = 0x32;
    assert_eq!(GrpFile::parse(buf2).unwrap_err(), DecodeError::Bounds(0x14));
}

#[test]
fn parse_rejects_zero_entries() {
    let mut buf = vec![0u8; 0x40];
    buf[0] = 0x47;
    buf[1] = 0x52;
    buf[2] = 0x50;
    buf[3] = 0x32;
    assert_eq!(GrpFile::parse(buf.drain(..).collect()).unwrap_err(), DecodeError::Format);
}

#[test]
fn parse_rejects_non_text_name() {
    let blobs = vec![vec![0u8; 4]];
    let mut buf = build_grp(&["abc"], &blobs);
    // corrupt the first byte of the path string: 0xFF is never valid UTF-8
    let name_off = u32::from_le_bytes([buf[0x40], buf[0x41], buf[0x42], buf[0x43]]) as usize;
    buf[name_off] = 0xFF;
    assert_eq!(GrpFile::parse(buf).unwrap_err(), DecodeError::Encoding);
}

#[test]
fn parse_rejects_unterminated_name() {
    let blobs = vec![vec![7u8; 4]];
    let mut buf = build_grp(&["abc"], &blobs);
    // point the name into the trailing non-zero data, where no terminator follows
    let data_start = (buf.len() - 4) as u32;
    put_u32(&mut buf, 0x40, data_start);
    assert_eq!(
        GrpFile::parse(buf).unwrap_err(),
        DecodeError::Bounds(data_start as usize)
    );
}

#[test]
fn read_entry_returns_raw_bytes() {
    let payload = vec![9u8, 8, 7, 6, 5];
    let buf = build_grp(&["p"], &[payload.clone()]);
    let g = GrpFile::parse(buf).unwrap();
    let entry = g.entries[0].clone();
    assert_eq!(g.read_entry(&entry).unwrap(), payload);
}

#[test]
fn read_entry_decompresses_frame_entry() {
    // a synthetic compressed entry round-trips through the codec
    let original: Vec<u8> = (0..10000u32).map(|i| (i % 251) as u8).collect();
    let packed = zstd::stream::encode_all(std::io::Cursor::new(&original), 0).unwrap();
    assert_eq!(&packed[0..4], &[0x28, 0xB5, 0x2F, 0xFD]);
    let buf = build_grp(&["big.bin"], &[packed]);
    let g = GrpFile::parse(buf).unwrap();
    let entry = g.entries[0].clone();
    assert_eq!(entry.compression, Compression::FrameCompressed);
    assert_eq!(g.read_entry(&entry).unwrap(), original);
}

#[test]
fn frame_round_trip() {
    let x: Vec<u8> = (0..4096u32).map(|i| (i * 7 % 256) as u8).collect();
    let packed = zstd::stream::encode_all(std::io::Cursor::new(&x), 3).unwrap();
    let back = decompress(&packed, Compression::FrameCompressed).unwrap();
    assert_eq!(back, x);
}

#[test]
fn decompress_rejects_corrupt_frame() {
    let junk = vec![0x28u8, 0xB5, 0x2F, 0xFD, 1, 2, 3];
    assert_eq!(
        decompress(&junk, Compression::FrameCompressed),
        Err(DecodeError::Compression)
    );
}

#[test]
fn decompress_raw_copies() {
    let x = vec![1u8, 2, 3];
    assert_eq!(decompress(&x, Compression::Raw).unwrap(), x);
}

#[test]
fn get_u32_reads_little_endian() {
    let b = [0x78u8, 0x56, 0x34, 0x12, 0xFF];
    assert_eq!(get_u32(&b, 0).unwrap(), 0x12345678);
    assert_eq!(get_u32(&b, 1).unwrap(), 0xFF123456);
    assert_eq!(get_u32(&b, 2), Err(DecodeError::Bounds(2)));
}

#[test]
fn field_readers_read_little_endian() {
    let b = [0x01u8, 0x80, 0xFF, 0x7F];
    assert_eq!(read_u16_le(&b, 0), 0x8001);
    assert_eq!(read_i16_le(&b, 0), -32767);
    assert_eq!(read_u16_le(&b, 2), 0x7FFF);
    assert_eq!(read_u32_le(&b, 0), 0x7FFF8001);
}

#[test]
fn read_cstr_scans_to_terminator() {
    let b = b"hi/there\0rest";
    assert_eq!(read_cstr(b, 0).unwrap(), "hi/there");
    assert_eq!(read_cstr(b, 3).unwrap(), "there");
    assert_eq!(read_cstr(b, 9).unwrap_err(), DecodeError::Bounds(9));
    let bad = [0xFFu8, 0x00];
    assert_eq!(read_cstr(&bad, 0).unwrap_err(), DecodeError::Encoding);
}
