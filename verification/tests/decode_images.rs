use block_compression::decode::{
    decode_block_bc1, decode_block_bc3, decode_block_bc4, decode_block_bc5, decode_block_bc6h,
    decode_block_bc7, decode_color_block, decode_sharp_alpha_block, decode_smooth_alpha_block,
    decompress_blocks_as_rgba16f, decompress_blocks_as_rgba8,
};
use block_compression::{BC6HSettings, BC7Settings, CompressionVariant};

#[test]
fn bc7_block_without_mode_decodes_to_zeros() {
    let mut block = [0xFFu8; 16];
    block[0] = 0;
    let mut decoded = [0x55u8; 80];
    decode_block_bc7(&block, &mut decoded, 20);
    for (i, byte) in decoded.iter().enumerate() {
        let expected = if i % 20 < 16 { 0 } else { 0x55 };
        assert_eq!(*byte, expected, "byte {}", i);
    }
}

#[test]
fn bc6h_blocks_of_reserved_modes_decode_to_zeros() {
    for first in [0b10011u8, 0b10111, 0b11011, 0b11111, 0b1111_0011, 0b0111_1111] {
        let mut block = [0xA7u8; 16];
        block[0] = first;
        for signed in [false, true] {
            let mut decoded = [0x1234u16; 60];
            decode_block_bc6h(&block, &mut decoded, 15, signed);
            for (i, value) in decoded.iter().enumerate() {
                let expected = if i % 15 < 12 { 0 } else { 0x1234 };
                assert_eq!(*value, expected, "value {}", i);
            }
        }
    }
}

#[test]
fn every_first_byte_is_decoded() {
    for first in 0..=255u8 {
        for fill in [0x00u8, 0xFF, 0x5A, 0xC3] {
            let mut block = [fill; 16];
            block[0] = first;
            let mut pixels = [0u8; 64];
            decode_block_bc7(&block, &mut pixels, 16);
            let mut halves = [0u16; 48];
            decode_block_bc6h(&block, &mut halves, 12, false);
            decode_block_bc6h(&block, &mut halves, 12, true);
        }
    }
}

#[test]
fn bc1_with_transparent_entry() {
    let block = [0x00, 0x00, 0xFF, 0xFF, 0b11_10_01_00, 0, 0, 0xFF];
    let mut decoded = [9u8; 64];
    decode_block_bc1(&block, &mut decoded, 16);
    assert_eq!(&decoded[0..4], &[0, 0, 0, 255]);
    assert_eq!(&decoded[4..8], &[255, 255, 255, 255]);
    assert_eq!(&decoded[8..12], &[128, 128, 128, 255]);
    assert_eq!(&decoded[12..16], &[0, 0, 0, 0]);
    assert_eq!(&decoded[60..64], &[0, 0, 0, 0]);
    let mut opaque = [9u8; 64];
    decode_color_block(&block, &mut opaque, 16, true);
    assert_eq!(&opaque[8..12], &[85, 85, 85, 255]);
    assert_eq!(&opaque[12..16], &[170, 170, 170, 255]);
}

#[test]
fn alpha_blocks_write_only_their_places() {
    let block = [0x10, 0x32, 0x54, 0x76, 0x98, 0xBA, 0xDC, 0xFE];
    let mut decoded = [7u8; 64];
    decode_sharp_alpha_block(&block, &mut decoded, 16);
    for i in 0..64 {
        let expected = if i % 4 == 3 { ((i / 4) * 17) as u8 } else { 7 };
        assert_eq!(decoded[i], expected);
    }
    let block = [0xFF, 0x00, 0x88, 0xC6, 0xFA, 0x88, 0xC6, 0xFA];
    let mut decoded = [7u8; 64];
    decode_smooth_alpha_block(&block, &mut decoded, 16, 4);
    let palette = [255, 0, 218, 182, 145, 109, 72, 36];
    for i in 0..64 {
        let expected = if i % 4 == 0 { palette[(i / 4) % 8] } else { 7 };
        assert_eq!(decoded[i], expected, "byte {}", i);
    }
}

#[test]
fn rows_that_overlap_keep_the_later_row() {
    let block = [0xFF, 0x00, 0x88, 0xC6, 0xFA, 0x88, 0xC6, 0xFA];
    let mut decoded = [7u8; 16];
    decode_block_bc4(&block, &mut decoded, 2);
    let palette = [255u8, 0, 218, 182, 145, 109, 72, 36];
    assert_eq!(&decoded[..10], &[
        palette[0], palette[1], palette[4], palette[5], palette[0], palette[1], palette[4],
        palette[5], palette[6], palette[7],
    ]);
    assert!(decoded[10..].iter().all(|b| *b == 7));
}

fn bc1_block(c0: u16, c1: u16, selectors: u32) -> [u8; 8] {
    let mut block = [0u8; 8];
    block[..2].copy_from_slice(&c0.to_le_bytes());
    block[2..4].copy_from_slice(&c1.to_le_bytes());
    block[4..].copy_from_slice(&selectors.to_le_bytes());
    block
}

#[test]
fn images_are_decoded_block_by_block() {
    let width = 12u32;
    let height = 8u32;
    let mut blocks = Vec::new();
    for n in 0..6u16 {
        blocks.extend_from_slice(&bc1_block(0xF800 + n, 0x07E0 + n, 0x1B1B_1B1B + n as u32));
    }
    let mut rgba = vec![0xABu8; (width * height * 4) as usize];
    decompress_blocks_as_rgba8(CompressionVariant::BC1, width, height, &blocks, &mut rgba);
    for n in 0..6 {
        let mut tile = [0u8; 64];
        decode_block_bc1(&blocks[n * 8..n * 8 + 8], &mut tile, 16);
        let (bx, by) = (n % 3, n / 3);
        for y in 0..4 {
            for x in 0..4 {
                let at = ((by * 4 + y) * 12 + bx * 4 + x) * 4;
                assert_eq!(&rgba[at..at + 4], &tile[(4 * y + x) * 4..(4 * y + x) * 4 + 4]);
            }
        }
    }
}

#[test]
fn images_of_every_byte_variant_are_decoded() {
    let variants = [
        CompressionVariant::BC2,
        CompressionVariant::BC3,
        CompressionVariant::BC4,
        CompressionVariant::BC5,
        CompressionVariant::BC7(BC7Settings::alpha_basic()),
    ];
    for variant in variants {
        let size = variant.blocks_byte_size(8, 8);
        let per_block = size / 4;
        let blocks: Vec<u8> = (0..size).map(|i| (i * 37 + i / 5 + 64) as u8).collect();
        let mut rgba = vec![0xABu8; 8 * 8 * 4];
        decompress_blocks_as_rgba8(variant, 8, 8, &blocks, &mut rgba);
        for n in 0..4 {
            let block = &blocks[n * per_block..(n + 1) * per_block];
            let mut tile = [0u8; 64];
            match variant {
                CompressionVariant::BC2 => {
                    block_compression::decode::decode_block_bc2(block, &mut tile, 16)
                }
                CompressionVariant::BC3 => decode_block_bc3(block, &mut tile, 16),
                CompressionVariant::BC4 => {
                    let mut red = [0u8; 16];
                    decode_block_bc4(block, &mut red, 4);
                    for k in 0..16 {
                        tile[4 * k] = red[k];
                    }
                }
                CompressionVariant::BC5 => {
                    let mut pair = [0u8; 32];
                    decode_block_bc5(block, &mut pair, 8);
                    for k in 0..16 {
                        tile[4 * k] = pair[2 * k];
                        tile[4 * k + 1] = pair[2 * k + 1];
                    }
                }
                _ => decode_block_bc7(block, &mut tile, 16),
            }
            let (bx, by) = (n % 2, n / 2);
            for y in 0..4 {
                for x in 0..4 {
                    let at = ((by * 4 + y) * 8 + bx * 4 + x) * 4;
                    assert_eq!(
                        &rgba[at..at + 4],
                        &tile[(4 * y + x) * 4..(4 * y + x) * 4 + 4],
                        "{} block {}",
                        variant.name(),
                        n
                    );
                }
            }
        }
    }
}

#[test]
fn half_float_images_hold_four_values_to_a_pixel() {
    let variant = CompressionVariant::BC6H(BC6HSettings::basic());
    let blocks: Vec<u8> = (0..4 * 16).map(|i| (i * 29 + 3) as u8).collect();
    let mut halves = vec![0x7777u16; 8 * 8 * 4];
    decompress_blocks_as_rgba16f(variant, 8, 8, &blocks, &mut halves);
    for y in 0..8 {
        for x in 0..8 {
            let n = (y / 4) * 2 + x / 4;
            let mut tile = [0u16; 48];
            decode_block_bc6h(&blocks[n * 16..n * 16 + 16], &mut tile, 12, false);
            let pixel = 3 * (4 * (y % 4) + x % 4);
            let at = 4 * (y * 8 + x);
            assert_eq!(&halves[at..at + 3], &tile[pixel..pixel + 3]);
            assert_eq!(halves[at + 3], 0);
        }
    }
}

#[test]
fn the_second_pixel_of_a_half_float_image_starts_with_its_red() {
    // One block whose pixels differ in red and green.
    let block: [u8; 16] = [
        0x40, 0xAF, 0xF6, 0x0B, 0xFD, 0x2E, 0xFF, 0xFF, 0x11, 0x71, 0x10, 0xA1, 0x21, 0xF2, 0x33,
        0x73,
    ];
    let mut tile = [0u16; 48];
    decode_block_bc6h(&block, &mut tile, 12, false);
    assert_ne!(tile[3], tile[4]);
    let mut halves = vec![0xFFFFu16; 4 * 4 * 4];
    decompress_blocks_as_rgba16f(
        CompressionVariant::BC6H(BC6HSettings::basic()),
        4,
        4,
        &block,
        &mut halves,
    );
    assert_eq!(halves[4], tile[3]);
    assert_eq!(halves[5], tile[4]);
    assert_eq!(halves[6], tile[5]);
    assert_eq!(halves[7], 0);
    // the first pixel of the second row
    assert_eq!(&halves[16..19], &tile[12..15]);
    assert_eq!(halves[19], 0);
}

#[test]
fn empty_images() {
    let mut rgba: Vec<u8> = Vec::new();
    decompress_blocks_as_rgba8(CompressionVariant::BC1, 0, 0, &[], &mut rgba);
    decompress_blocks_as_rgba8(CompressionVariant::BC3, 0, 8, &[], &mut rgba);
    assert!(rgba.is_empty());
}
