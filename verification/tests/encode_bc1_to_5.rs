use block_compression::decode::{decode_block_bc1, decode_block_bc2, decode_block_bc4};
use block_compression::encode::bc1_to_5::{
    alpha_selector, dec_rgb565, enc_rgb565, fix_qbits, load_block_alpha_4bit, pack_alpha_block,
    pack_color_block,
};
use block_compression::encode::store::{
    load_block_g_8bit, load_block_interleaved_16bit, load_block_interleaved_rgba,
    load_block_r_8bit, store_data, store_image_blocks,
};
use block_compression::{BC7Settings, CompressionVariant};

#[test]
fn rgb565_round_trip() {
    for p in 0..65536 {
        let c = dec_rgb565(p);
        assert_eq!(enc_rgb565(&c), p);
    }
}

#[test]
fn rgb565_values() {
    assert_eq!(dec_rgb565(0), [0, 0, 0]);
    assert_eq!(dec_rgb565(0xFFFF), [255, 255, 255]);
    assert_eq!(dec_rgb565(0xF800), [255, 0, 0]);
    assert_eq!(dec_rgb565(0x07E0), [0, 255, 0]);
    assert_eq!(dec_rgb565(0x001F), [0, 0, 255]);
    assert_eq!(dec_rgb565(0x8410), [132, 130, 132]);
    assert_eq!(enc_rgb565(&[255, 255, 255]), 0xFFFF);
    assert_eq!(enc_rgb565(&[0, 0, 0]), 0);
    assert_eq!(enc_rgb565(&[128, 128, 128]), (16 << 11) + (32 << 5) + 16);
    assert_eq!(enc_rgb565(&[4, 2, 3]), 0);
    assert_eq!(enc_rgb565(&[5, 3, 5]), (1 << 11) + (1 << 5) + 1);
}

#[test]
fn fix_qbits_maps_levels_to_palette_entries() {
    assert_eq!(fix_qbits(0), 0);
    assert_eq!(fix_qbits(0b11_10_01_00), 0b01_11_10_00);
    assert_eq!(fix_qbits(0xFFFF_FFFF), 0x5555_5555);
    assert_eq!(fix_qbits(0x5555_5555), 0xAAAA_AAAA);
    assert_eq!(fix_qbits(0xAAAA_AAAA), 0xFFFF_FFFF);
    let entries = [0u32, 2, 3, 1];
    let levels = 0x1B_E4_39_C6u32;
    let fixed = fix_qbits(levels);
    for k in 0..16 {
        assert_eq!((fixed >> (2 * k)) & 3, entries[((levels >> (2 * k)) & 3) as usize]);
    }
}

#[test]
fn color_block_decodes_to_its_levels() {
    let p0 = 0xF800;
    let p1 = 0x001F;
    let levels = 0xE4E4_E4E4u32;
    let data = pack_color_block(p0, p1, levels);
    let mut bytes = [0u8; 8];
    store_data(&mut bytes, 1, 0, 0, &data);
    assert_eq!(&bytes[..4], &[0x00, 0xF8, 0x1F, 0x00]);
    let mut decoded = [0u8; 64];
    decode_block_bc1(&bytes, &mut decoded, 16);
    let palette: [[u8; 4]; 4] = [[255, 0, 0, 255], [170, 0, 85, 255], [85, 0, 170, 255], [0, 0, 255, 255]];
    for k in 0..16 {
        let level = ((levels >> (2 * k)) & 3) as usize;
        assert_eq!(&decoded[4 * k..4 * k + 4], &palette[level], "pixel {}", k);
    }
}

#[test]
fn alpha_selectors() {
    let expected = [1, 7, 6, 5, 4, 3, 2, 0];
    for level in 0..8 {
        assert_eq!(alpha_selector(level), expected[level as usize]);
    }
}

#[test]
fn alpha_block_decodes_to_its_levels() {
    let low = 10u32;
    let high = 220u32;
    let levels: [u8; 16] = [0, 1, 2, 3, 4, 5, 6, 7, 7, 6, 5, 4, 3, 2, 1, 0];
    let data = pack_alpha_block(low, high, &levels);
    let mut bytes = [0u8; 8];
    store_data(&mut bytes, 1, 0, 0, &data);
    assert_eq!(bytes[0], 220);
    assert_eq!(bytes[1], 10);
    let mut decoded = [0u8; 16];
    decode_block_bc4(&bytes, &mut decoded, 4);
    for k in 0..16 {
        let level = levels[k] as u32;
        let expected = (level * high + (7 - level) * low) / 7;
        assert_eq!(decoded[k] as u32, expected, "pixel {}", k);
    }
}

#[test]
fn flat_alpha_block_keeps_its_value() {
    for value in [0u32, 1, 17, 128, 254, 255] {
        let data = pack_alpha_block(value, value, &[0u8; 16]);
        let mut bytes = [0u8; 8];
        store_data(&mut bytes, 1, 0, 0, &data);
        let mut decoded = [0u8; 16];
        decode_block_bc4(&bytes, &mut decoded, 4);
        assert_eq!(decoded, [value as u8; 16]);
    }
}

fn image(width: usize, height: usize) -> Vec<u8> {
    let mut data = vec![0u8; width * height * 4];
    for (i, byte) in data.iter_mut().enumerate() {
        *byte = ((i * 7 + i / 13) % 256) as u8;
    }
    data
}

#[test]
fn alpha_is_quantized_to_a_seventeenth() {
    let mut rgba = vec![0u8; 16 * 16 * 4];
    for (i, pixel) in rgba.chunks_mut(4).enumerate() {
        pixel[3] = i as u8;
    }
    for yy in 0..4 {
        for xx in 0..4 {
            let bits = load_block_alpha_4bit(&rgba, xx, yy, 64);
            for k in 0..16 {
                let x = xx * 4 + k % 4;
                let y = yy * 4 + k / 4;
                let alpha = rgba[(y * 16 + x) * 4 + 3];
                let quantized = ((alpha as f32 / 255.0) * 15.0) as u32;
                assert_eq!((bits[k / 8] >> (4 * (k % 8))) & 15, quantized, "alpha {}", alpha);
                assert_eq!(quantized, alpha as u32 / 17);
            }
        }
    }
}

#[test]
fn sharp_alpha_round_trip() {
    let mut rgba = vec![0u8; 4 * 4 * 4];
    for (i, pixel) in rgba.chunks_mut(4).enumerate() {
        pixel[3] = (i * 17) as u8;
    }
    let alpha = load_block_alpha_4bit(&rgba, 0, 0, 16);
    let color = pack_color_block(0xF800, 0xF800, 0);
    let mut bytes = [0u8; 16];
    store_data(&mut bytes, 1, 0, 0, &[alpha[0], alpha[1], color[0], color[1]]);
    let mut decoded = [0u8; 64];
    decode_block_bc2(&bytes, &mut decoded, 16);
    for k in 0..16 {
        assert_eq!(&decoded[4 * k..4 * k + 4], &[255, 0, 0, (k * 17) as u8]);
    }
}

#[test]
fn blocks_are_gathered_channel_by_channel() {
    let rgba = image(12, 8);
    let stride = 12 * 4;
    for yy in 0..2 {
        for xx in 0..3 {
            let block = load_block_interleaved_rgba(&rgba, xx, yy, stride);
            let red = load_block_r_8bit(&rgba, xx, yy, stride);
            let green = load_block_g_8bit(&rgba, xx, yy, stride);
            for y in 0..4 {
                for x in 0..4 {
                    let at = (yy * 4 + y) * stride + (xx * 4 + x) * 4;
                    for p in 0..4 {
                        assert_eq!(block[16 * p + 4 * y + x], rgba[at + p]);
                    }
                    assert_eq!(red[4 * y + x], rgba[at]);
                    assert_eq!(green[4 * y + x], rgba[at + 1]);
                }
            }
        }
    }
}

#[test]
fn half_float_blocks_are_gathered_without_alpha() {
    let halves: Vec<u16> = (0..8 * 4 * 4).map(|i| (i * 257 + 3) as u16).collect();
    for xx in 0..2 {
        let block = load_block_interleaved_16bit(&halves, xx, 0, 32);
        for y in 0..4 {
            for x in 0..4 {
                let at = y * 32 + (xx * 4 + x) * 4;
                for p in 0..3 {
                    assert_eq!(block[16 * p + 4 * y + x], halves[at + p]);
                }
                assert_eq!(block[48 + 4 * y + x], 0);
            }
        }
    }
}

#[test]
fn blocks_are_stored_at_their_places() {
    let mut buffer = vec![0xEEu8; 3 * 2 * 16];
    store_data(&mut buffer, 3, 1, 1, &[0x0403_0201, 0x0807_0605, 0x0C0B_0A09, 0x100F_0E0D]);
    let at = (1 * 3 + 1) * 16;
    for (i, byte) in buffer.iter().enumerate() {
        if i >= at && i < at + 16 {
            assert_eq!(*byte as usize, i - at + 1);
        } else {
            assert_eq!(*byte, 0xEE);
        }
    }
    let mut small = vec![0u8; 4 * 8];
    store_data(&mut small, 2, 1, 1, &[0xAABB_CCDD, 0x1122_3344]);
    assert_eq!(&small[24..], &[0xDD, 0xCC, 0xBB, 0xAA, 0x44, 0x33, 0x22, 0x11]);
    assert!(small[..24].iter().all(|b| *b == 0));
}

#[test]
fn the_blocks_of_an_image_fill_the_bytes_that_the_variant_asks_for() {
    let cases = [
        (CompressionVariant::BC1, 12u32, 8u32),
        (CompressionVariant::BC4, 4, 4),
        (CompressionVariant::BC3, 8, 16),
        (CompressionVariant::BC7(BC7Settings::alpha_basic()), 16, 4),
        (CompressionVariant::BC5, 0, 8),
    ];
    for (variant, width, height) in cases {
        let size = variant.blocks_byte_size(width, height);
        let words: Vec<u32> = (0..size as u32 / 4).map(|i| i.wrapping_mul(0x0101_0305) ^ 0xA5).collect();
        let mut buffer = vec![0x5Au8; size + 7];
        store_image_blocks(variant, &words, &mut buffer, width, height);
        let mut expected = Vec::new();
        for word in &words {
            expected.extend_from_slice(&word.to_le_bytes());
        }
        assert_eq!(expected.len(), size);
        assert_eq!(&buffer[..size], &expected[..]);
        assert_eq!(&buffer[size..], &[0x5Au8; 7]);

        let per_block = variant.block_byte_size() as usize / 4;
        let block_width = (width / 4) as usize;
        let mut one_by_one = vec![0x5Au8; size + 7];
        for n in 0..(size / 4 / per_block.max(1)) {
            store_data(
                &mut one_by_one,
                block_width,
                n % block_width,
                n / block_width,
                &words[n * per_block..(n + 1) * per_block],
            );
        }
        assert_eq!(one_by_one, buffer);
    }
}
