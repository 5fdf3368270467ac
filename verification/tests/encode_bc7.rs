use block_compression::decode::decode_block_bc7;
use block_compression::encode::bc7::{
    bc7_code_mode01237, bc7_code_mode45, bc7_code_mode6, unpack_to_byte, Mode45Parameters,
};
use block_compression::encode::store::store_data;
use block_compression::partition::{get_pattern, get_unquant_value};

fn bytes_of(data: &[u32; 5]) -> [u8; 16] {
    let mut bytes = [0u8; 16];
    store_data(&mut bytes, 1, 0, 0, &data[..4]);
    bytes
}

fn index_at(qblock: &[u32; 2], k: usize) -> i32 {
    ((qblock[k / 8] >> (4 * (k % 8))) & 15) as i32
}

fn blend(a: i32, b: i32, weight: i32) -> u8 {
    ((a * (64 - weight) + b * weight + 32) >> 6) as u8
}

fn widen(v: i32, bits: u32) -> i32 {
    let up = v << (8 - bits);
    up + (up >> bits)
}

#[test]
fn unpack_to_byte_values() {
    assert_eq!(unpack_to_byte(0, 5), 0);
    assert_eq!(unpack_to_byte(31, 5), 255);
    assert_eq!(unpack_to_byte(16, 5), 132);
    assert_eq!(unpack_to_byte(127, 7), 255);
    assert_eq!(unpack_to_byte(64, 7), 129);
    assert_eq!(unpack_to_byte(200, 8), 200);
    assert_eq!(unpack_to_byte(33, 6), 134);
    for bits in 4..=8u32 {
        for v in 0..(1i32 << bits) {
            assert_eq!(unpack_to_byte(v, bits), widen(v, bits));
        }
    }
}

#[test]
fn mode6_block_decodes_to_the_interpolation_of_its_endpoints() {
    let cases: [([i32; 8], [u32; 2]); 3] = [
        ([10, 200, 34, 254, 241, 7, 99, 1], [0x7654_3210, 0xFEDC_BA98]),
        ([11, 201, 35, 255, 240, 6, 98, 0], [0x0123_456F, 0x89AB_CDE7]),
        ([128, 128, 128, 254, 128, 128, 128, 254], [0x8888_8888, 0x1111_1111]),
    ];
    for (qep_in, qblock_in) in cases {
        let mut qep = qep_in;
        let mut qblock = qblock_in;
        let data = bc7_code_mode6(&mut qep, &mut qblock);
        let bytes = bytes_of(&data);
        let mut decoded = [0u8; 64];
        decode_block_bc7(&bytes, &mut decoded, 16);
        for k in 0..16 {
            let weight = get_unquant_value(4, index_at(&qblock_in, k));
            for c in 0..4 {
                assert_eq!(
                    decoded[4 * k + c],
                    blend(qep_in[c], qep_in[4 + c], weight),
                    "pixel {} channel {}",
                    k,
                    c
                );
            }
        }
    }
}

fn stored_precision(mode: usize) -> u32 {
    match mode {
        0 => 5,
        1 => 7,
        2 => 5,
        3 => 8,
        _ => 6,
    }
}

fn partitioned_endpoints(mode: usize, seed: i32) -> [i32; 24] {
    let pairs = if mode == 0 || mode == 2 { 3 } else { 2 };
    let limit = 1 << stored_precision(mode);
    let mut qep = [0i32; 24];
    for j in 0..2 * pairs {
        let parity = if mode == 1 { ((j / 2) as i32 + seed) % 2 } else { (j as i32 + seed) % 2 };
        for p in 0..4 {
            let mut value = (seed * 37 + (j as i32) * 29 + (p as i32) * 53) % limit;
            if mode != 2 {
                value = (value & !1) | parity;
            }
            qep[4 * j + p] = value;
        }
    }
    qep
}

fn check_partitioned(mode: usize, part_id: i32, qep_in: [i32; 24], qblock_in: [u32; 2]) {
    let bits = if mode == 0 || mode == 1 { 3 } else { 2 };
    let mut qep = qep_in;
    let data = bc7_code_mode01237(&mut qep, qblock_in, part_id, mode);
    let bytes = bytes_of(&data);
    let mut decoded = [0u8; 64];
    decode_block_bc7(&bytes, &mut decoded, 16);
    let pattern = get_pattern(part_id);
    let precision = stored_precision(mode);
    for k in 0..16 {
        let subset = ((pattern >> (2 * k)) & 3) as usize;
        let weight = get_unquant_value(bits, index_at(&qblock_in, k));
        for c in 0..4 {
            let expected = if c == 3 && mode != 7 {
                255
            } else {
                blend(
                    widen(qep_in[8 * subset + c], precision),
                    widen(qep_in[8 * subset + 4 + c], precision),
                    weight,
                )
            };
            assert_eq!(
                decoded[4 * k + c],
                expected,
                "mode {} shape {} pixel {} channel {}",
                mode,
                part_id,
                k,
                c
            );
        }
    }
}

#[test]
fn partitioned_blocks_decode_to_the_interpolation_of_their_endpoints() {
    let three_bit = [[0x7654_3210u32, 0x0123_4567u32], [0x4000_0007, 0x7000_0004], [0x1234_5674, 0x7123_4567]];
    let two_bit = [[0x3210_3210u32, 0x0123_0123u32], [0x2000_0003, 0x3000_0002], [0x1231_2312, 0x3123_1230]];
    for seed in 0..3 {
        for partition in 0..64 {
            for qblock in three_bit {
                check_partitioned(1, partition, partitioned_endpoints(1, seed), qblock);
                if partition < 16 {
                    check_partitioned(0, 64 + partition, partitioned_endpoints(0, seed), qblock);
                }
            }
            for qblock in two_bit {
                check_partitioned(2, 64 + partition, partitioned_endpoints(2, seed), qblock);
                check_partitioned(3, partition, partitioned_endpoints(3, seed), qblock);
                check_partitioned(7, partition, partitioned_endpoints(7, seed), qblock);
            }
        }
    }
}

fn check_mode45(mode: usize, params: Mode45Parameters) {
    let data = bc7_code_mode45(&params, mode);
    let bytes = bytes_of(&data);
    let mut decoded = [0u8; 64];
    decode_block_bc7(&bytes, &mut decoded, 16);
    let (color_bits, scalar_bits) = if params.swap == 1 {
        (3, 2)
    } else if mode == 4 {
        (2, 3)
    } else {
        (2, 2)
    };
    let (precision, scalar_precision) = if mode == 4 { (5, 6) } else { (7, 8) };
    for k in 0..16 {
        let color_weight = get_unquant_value(color_bits, index_at(&params.qblock, k));
        let scalar_weight = get_unquant_value(scalar_bits, index_at(&params.aqblock, k));
        let mut pixel = [0u8; 4];
        for c in 0..3 {
            pixel[c] = blend(
                widen(params.qep[c], precision),
                widen(params.qep[4 + c], precision),
                color_weight,
            );
        }
        pixel[3] = blend(
            widen(params.aqep[0], scalar_precision),
            widen(params.aqep[1], scalar_precision),
            scalar_weight,
        );
        if params.rotation < 3 {
            pixel.swap(3, params.rotation as usize);
        }
        for c in 0..4 {
            assert_eq!(decoded[4 * k + c], pixel[c], "mode {} pixel {} channel {}", mode, k, c);
        }
    }
}

#[test]
fn mode4_and_mode5_blocks_decode_to_the_interpolation_of_their_endpoints() {
    for rotation in 0..4 {
        check_mode45(
            4,
            Mode45Parameters {
                qep: [3, 31, 17, 0, 28, 0, 16, 0],
                qblock: [0x3210_3210, 0x0123_0123],
                aqep: [5, 60],
                aqblock: [0x7654_3210, 0x0123_4567],
                rotation,
                swap: 0,
            },
        );
        check_mode45(
            4,
            Mode45Parameters {
                qep: [3, 31, 17, 0, 28, 0, 16, 0],
                qblock: [0x7654_3217, 0x0123_4567],
                aqep: [63, 1],
                aqblock: [0x3210_3213, 0x0123_0123],
                rotation,
                swap: 1,
            },
        );
        check_mode45(
            5,
            Mode45Parameters {
                qep: [100, 127, 1, 0, 3, 64, 90, 0],
                qblock: [0x3210_3212, 0x0123_0123],
                aqep: [255, 13],
                aqblock: [0x0123_0123, 0x3210_3210],
                rotation,
                swap: 0,
            },
        );
    }
}
