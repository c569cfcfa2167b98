//! Tests for texture inference and block decoding.

use grpview::errors::DecodeError;
use grpview::tfd::{
    decode, decode_bc1_top_mip_to_rgba, decode_bc3_top_mip_to_rgba,
    decode_bc5_top_mip_to_rgba, guess_from_tfd_len, rgb565_to_888, sum_bc_bytes,
    tfh_dim_hint, BcFootprint,
};

#[test]
fn sum_bc_bytes_exact_values() {
    assert_eq!(sum_bc_bytes(256, 16, 1), 65536);
    assert_eq!(sum_bc_bytes(256, 8, 1), 32768);
    // 64, 32, 16, 8, 4, 2, 1, 1, 1 -> 256+64+16+4+1+1+1+1+1 blocks
    assert_eq!(sum_bc_bytes(64, 8, 9), 345 * 8);
    assert_eq!(sum_bc_bytes(64, 16, 2), (256 + 64) * 16);
    assert_eq!(sum_bc_bytes(4096, 8, 1), 1024 * 1024 * 8);
}

#[test]
fn inference_picks_exact_combination() {
    // 65536 bytes: only (top 256, 1 mip, 16-byte blocks) matches
    assert_eq!(guess_from_tfd_len(65536), Some((256, 1, BcFootprint::Bc3_5_7)));
    // 32768 bytes: 256x256 with the 8-byte footprint
    assert_eq!(guess_from_tfd_len(32768), Some((256, 1, BcFootprint::Bc1_4)));
    assert_eq!(guess_from_tfd_len(7), None);
}

#[test]
fn header_hint_accepts_only_plausible_dimensions() {
    let mut tfh = vec![0u8; 0xA4];
    tfh[0xA0..0xA4].copy_from_slice(&256u32.to_le_bytes());
    assert_eq!(tfh_dim_hint(&tfh), Some(256));
    tfh[0xA0..0xA4].copy_from_slice(&100u32.to_le_bytes());
    assert_eq!(tfh_dim_hint(&tfh), None);
    tfh[0xA0..0xA4].copy_from_slice(&8192u32.to_le_bytes());
    assert_eq!(tfh_dim_hint(&tfh), Some(8192));
    tfh[0xA0..0xA4].copy_from_slice(&32u32.to_le_bytes());
    assert_eq!(tfh_dim_hint(&tfh), None);
    assert_eq!(tfh_dim_hint(&tfh[0..0x80]), None);
}

#[test]
fn rgb565_expands_to_full_range() {
    assert_eq!(rgb565_to_888(0xFFFF), [255, 255, 255]);
    assert_eq!(rgb565_to_888(0x0000), [0, 0, 0]);
    assert_eq!(rgb565_to_888(0xF800), [255, 0, 0]);
    assert_eq!(rgb565_to_888(0x07E0), [0, 255, 0]);
    assert_eq!(rgb565_to_888(0x001F), [0, 0, 255]);
    // one step of red: round(1 * 255 / 31) = 8
    assert_eq!(rgb565_to_888(0x0800), [8, 0, 0]);
}

#[test]
fn bc1_equal_endpoints_zero_indices_is_uniform_opaque() {
    // c0 == c1 selects the midpoint branch; all-zero indices select c0
    let mut block = [0u8; 8];
    block[0..2].copy_from_slice(&0xF800u16.to_le_bytes());
    block[2..4].copy_from_slice(&0xF800u16.to_le_bytes());
    let rgba = decode_bc1_top_mip_to_rgba(&block, 4, 4).unwrap();
    assert_eq!(rgba.len(), 64);
    for px in rgba.chunks(4) {
        assert_eq!(px, [255, 0, 0, 255]);
    }
}

#[test]
fn bc1_transparent_fourth_entry() {
    // equal endpoints and all indices 3: fully transparent black
    let mut block = [0xFFu8; 8];
    block[0..2].copy_from_slice(&0x07E0u16.to_le_bytes());
    block[2..4].copy_from_slice(&0x07E0u16.to_le_bytes());
    let rgba = decode_bc1_top_mip_to_rgba(&block, 4, 4).unwrap();
    for px in rgba.chunks(4) {
        assert_eq!(px, [0, 0, 0, 0]);
    }
}

#[test]
fn bc1_thirds_interpolation_when_first_endpoint_greater() {
    let mut block = [0xAAu8; 8]; // all indices 2
    block[0..2].copy_from_slice(&0xF800u16.to_le_bytes()); // red
    block[2..4].copy_from_slice(&0x001Fu16.to_le_bytes()); // blue
    let rgba = decode_bc1_top_mip_to_rgba(&block, 4, 4).unwrap();
    for px in rgba.chunks(4) {
        assert_eq!(px, [170, 0, 85, 255]);
    }
}

#[test]
fn bc1_multi_block_placement() {
    // two blocks horizontally: left red, right blue, 8x4 pixels
    let mut src = [0u8; 16];
    src[0..2].copy_from_slice(&0xF800u16.to_le_bytes());
    src[2..4].copy_from_slice(&0xF800u16.to_le_bytes());
    src[8..10].copy_from_slice(&0x001Fu16.to_le_bytes());
    src[10..12].copy_from_slice(&0x001Fu16.to_le_bytes());
    let rgba = decode_bc1_top_mip_to_rgba(&src, 8, 4).unwrap();
    assert_eq!(rgba.len(), 8 * 4 * 4);
    for y in 0..4 {
        for x in 0..8 {
            let o = (y * 8 + x) * 4;
            let expected = if x < 4 { [255u8, 0, 0, 255] } else { [0, 0, 255, 255] };
            assert_eq!(&rgba[o..o + 4], expected);
        }
    }
}

#[test]
fn bc1_rejects_short_source() {
    let src = [0u8; 8];
    assert_eq!(
        decode_bc1_top_mip_to_rgba(&src, 8, 8).unwrap_err(),
        DecodeError::Size
    );
}

#[test]
fn texture_inference_decodes_256_square() {
    // a blob whose length matches (top 256, 1 mip, 16-byte footprint)
    // exactly must decode as a 256x256 image
    let tfd = vec![0u8; 65536];
    let img = decode(&tfd, &[]).unwrap();
    assert_eq!(img.width, 256);
    assert_eq!(img.height, 256);
    assert_eq!(img.rgba.len(), 256 * 256 * 4);
    let expected = decode_bc3_top_mip_to_rgba(&tfd, 256, 256).unwrap();
    assert_eq!(img.rgba, expected);
}

#[test]
fn decode_reports_inference_failure() {
    let tfd = vec![0u8; 8];
    assert_eq!(decode(&tfd, &[]).unwrap_err(), DecodeError::Inference);
}

#[test]
fn decode_reports_corrupt_frame() {
    // length not a multiple of 8 routes through the frame decoder
    let tfd = vec![1u8, 2, 3];
    assert_eq!(decode(&tfd, &[]).unwrap_err(), DecodeError::Compression);
}

#[test]
fn decode_expands_compressed_two_channel_stream() {
    // a compressed stream holding one 64x64 mip of 16-byte blocks
    let raw: Vec<u8> = (0..4096u32).map(|i| (i * 31 % 256) as u8).collect();
    let mut packed = None;
    for filler in 0..64u32 {
        let mut data = raw.clone();
        data[0] = filler as u8;
        let p = zstd::stream::encode_all(std::io::Cursor::new(&data), 0).unwrap();
        if p.len() % 8 != 0 {
            packed = Some((data, p));
            break;
        }
    }
    let (data, packed) = packed.expect("no compressed length avoided the raw path");
    let img = decode(&packed, &[]).unwrap();
    assert_eq!(img.width, 64);
    assert_eq!(img.height, 64);
    let expected = decode_bc5_top_mip_to_rgba(&data, 64, 64).unwrap();
    assert_eq!(img.rgba, expected);
}

#[test]
fn bc5_tile_has_fixed_third_channel_and_alpha() {
    let src = [0x55u8; 16];
    let rgba = decode_bc5_top_mip_to_rgba(&src, 4, 4).unwrap();
    assert_eq!(rgba.len(), 64);
    for px in rgba.chunks(4) {
        assert_eq!(px[2], 0);
        assert_eq!(px[3], 255);
    }
}

#[test]
fn bc3_matches_bc1_colors_with_opaque_alpha_block() {
    // alpha endpoints 255/255 make every texel opaque; the color half is
    // a BC1 block with distinct endpoints (thirds interpolation)
    let mut block = [0u8; 16];
    block[0] = 255;
    block[1] = 255;
    block[8..10].copy_from_slice(&0xF800u16.to_le_bytes());
    block[10..12].copy_from_slice(&0x001Fu16.to_le_bytes());
    // all color indices 0 -> first endpoint
    let rgba = decode_bc3_top_mip_to_rgba(&block, 4, 4).unwrap();
    for px in rgba.chunks(4) {
        assert_eq!(px, [255, 0, 0, 255]);
    }
}
