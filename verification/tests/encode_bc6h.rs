use block_compression::decode::decode_block_bc6h;
use block_compression::encode::bc6h::{
    bc6h_code_1p, bc6h_code_2p, bc6h_pack, bit_at, get_mode_bits, get_mode_prefix, reverse_bits,
    unpack_to_uf16,
};
use block_compression::encode::store::store_data;
use block_compression::partition::{get_pattern, get_unquant_value};

fn check_pack(mode: usize, qep: [i32; 24], expected: [u32; 4]) {
    let mut packed = [0u32; 4];
    bc6h_pack(&mut packed, &qep, mode);
    assert_eq!(packed, expected, "mode {}", mode);
}

#[test]
fn bc6h_pack_mode_0_case_1() {
    check_pack(
        0,
        [1023, 1023, 1023, 0, 1023, 1023, 1023, 0, 1023, 1023, 1023, 0, 1023, 1023, 1023, 0, 0, 0, 0, 0, 0, 0, 0, 0],
        [0, 1073741823, 0, 0],
    );
}

#[test]
fn bc6h_pack_mode_0_case_2() {
    check_pack(
        0,
        [853, 20, 611, 0, 754, 396, 553, 0, 893, 331, 764, 0, 254, 886, 534, 0, 0, 0, 0, 0, 0, 0, 0, 0],
        [28, 640701269, 644014557, 584],
    );
}

#[test]
fn bc6h_pack_mode_0_case_3() {
    check_pack(
        0,
        [357, 382, 726, 0, 186, 844, 341, 0, 303, 421, 159, 0, 389, 699, 659, 0, 0, 0, 0, 0, 0, 0, 0, 0],
        [16, 761657701, 637385205, 2090],
    );
}

#[test]
fn bc6h_pack_mode_1_case_1() {
    check_pack(
        1,
        [127, 127, 127, 0, 127, 127, 127, 0, 127, 127, 127, 0, 127, 127, 127, 0, 0, 0, 0, 0, 0, 0, 0, 0],
        [1, 133299327, 0, 0],
    );
}

#[test]
fn bc6h_pack_mode_1_case_2() {
    check_pack(
        1,
        [6, 117, 86, 0, 6, 106, 0, 0, 1, 41, 45, 0, 73, 25, 106, 0, 0, 0, 0, 0, 0, 0, 0, 0],
        [21, 627955206, 514118912, 251],
    );
}

#[test]
fn bc6h_pack_mode_1_case_3() {
    check_pack(
        1,
        [27, 46, 96, 0, 59, 84, 10, 0, 59, 30, 127, 0, 55, 47, 65, 0, 0, 0, 0, 0, 0, 0, 0, 0],
        [5, 369670811, 1050777632, 1824],
    );
}

#[test]
fn bc6h_pack_mode_2_case_1() {
    check_pack(
        2,
        [2047, 2047, 2047, 0, 2047, 2047, 2047, 0, 2047, 2047, 2047, 0, 2047, 2047, 2047, 0, 0, 0, 0, 0, 0, 0, 0, 0],
        [2, 1073741823, 16793632, 0],
    );
}

#[test]
fn bc6h_pack_mode_2_case_2() {
    check_pack(
        2,
        [1776, 531, 170, 0, 672, 1234, 38, 0, 615, 938, 1432, 0, 1400, 642, 1581, 0, 0, 0, 0, 0, 0, 0, 0, 0],
        [2, 178802416, 986693104, 535],
    );
}

#[test]
fn bc6h_pack_mode_2_case_3() {
    check_pack(
        2,
        [1326, 52, 202, 0, 249, 1823, 321, 0, 1589, 735, 47, 0, 1506, 882, 497, 0, 0, 0, 0, 0, 0, 0, 0, 0],
        [2, 211865902, 377401067, 1319],
    );
}

#[test]
fn bc6h_pack_mode_3_case_1() {
    check_pack(
        3,
        [2047, 2047, 2047, 0, 2047, 2047, 2047, 0, 2047, 2047, 2047, 0, 2047, 2047, 2047, 0, 0, 0, 0, 0, 0, 0, 0, 0],
        [6, 1073741823, 16810000, 0],
    );
}

#[test]
fn bc6h_pack_mode_3_case_2() {
    check_pack(
        3,
        [1969, 252, 56, 0, 2014, 1334, 1723, 0, 825, 1492, 488, 0, 613, 327, 2027, 0, 0, 0, 0, 0, 0, 0, 0, 0],
        [6, 58979249, 37448221, 1304],
    );
}

#[test]
fn bc6h_pack_mode_3_case_3() {
    check_pack(
        3,
        [675, 1374, 944, 0, 832, 669, 666, 0, 1180, 614, 371, 0, 13, 600, 13, 0, 0, 0, 0, 0, 0, 0, 0, 0],
        [6, 990214819, 212532781, 2745],
    );
}

#[test]
fn bc6h_pack_mode_4_case_1() {
    check_pack(
        4,
        [2047, 2047, 2047, 0, 2047, 2047, 2047, 0, 2047, 2047, 2047, 0, 2047, 2047, 2047, 0, 0, 0, 0, 0, 0, 0, 0, 0],
        [10, 1073741823, 33570832, 0],
    );
}

#[test]
fn bc6h_pack_mode_4_case_2() {
    check_pack(
        4,
        [2031, 757, 392, 0, 1082, 1663, 270, 0, 1887, 1706, 745, 0, 996, 754, 111, 0, 0, 0, 0, 0, 0, 0, 0, 0],
        [10, 411817967, 74295643, 368],
    );
}

#[test]
fn bc6h_pack_mode_4_case_3() {
    check_pack(
        4,
        [1527, 1353, 720, 0, 1616, 728, 729, 0, 1019, 1692, 1710, 0, 1331, 492, 277, 0, 0, 0, 0, 0, 0, 0, 0, 0],
        [10, 755312119, 949222649, 804],
    );
}

#[test]
fn bc6h_pack_mode_5_case_1() {
    check_pack(
        5,
        [511, 511, 511, 0, 511, 511, 511, 0, 511, 511, 511, 0, 511, 511, 511, 0, 0, 0, 0, 0, 0, 0, 0, 0],
        [14, 536346111, 0, 0],
    );
}

#[test]
fn bc6h_pack_mode_5_case_2() {
    check_pack(
        5,
        [471, 199, 206, 0, 138, 238, 338, 0, 299, 128, 60, 0, 266, 437, 45, 0, 0, 0, 0, 0, 0, 0, 0, 0],
        [14, 753606103, 978230867, 3316],
    );
}

#[test]
fn bc6h_pack_mode_5_case_3() {
    check_pack(
        5,
        [372, 110, 69, 0, 159, 380, 36, 0, 281, 454, 377, 0, 411, 314, 459, 0, 0, 0, 0, 0, 0, 0, 0, 0],
        [14, 72989556, 335297035, 485],
    );
}

#[test]
fn bc6h_pack_mode_6_case_1() {
    check_pack(
        6,
        [255, 255, 255, 0, 255, 255, 255, 0, 255, 255, 255, 0, 255, 255, 255, 0, 0, 0, 0, 0, 0, 0, 0, 0],
        [18, 267648255, 0, 0],
    );
}

#[test]
fn bc6h_pack_mode_6_case_2() {
    check_pack(
        6,
        [135, 159, 252, 0, 245, 25, 135, 0, 228, 15, 112, 0, 176, 69, 1, 0, 0, 0, 0, 0, 0, 0, 0, 0],
        [18, 265191047, 280422446, 2653],
    );
}

#[test]
fn bc6h_pack_mode_6_case_3() {
    check_pack(
        6,
        [42, 15, 56, 0, 96, 203, 251, 0, 93, 139, 178, 0, 106, 153, 161, 0, 0, 0, 0, 0, 0, 0, 0, 0],
        [18, 327695914, 674951990, 51],
    );
}

#[test]
fn bc6h_pack_mode_7_case_1() {
    check_pack(
        7,
        [255, 255, 255, 0, 255, 255, 255, 0, 255, 255, 255, 0, 255, 255, 255, 0, 0, 0, 0, 0, 0, 0, 0, 0],
        [22, 267648255, 0, 0],
    );
}

#[test]
fn bc6h_pack_mode_7_case_2() {
    check_pack(
        7,
        [198, 38, 154, 0, 188, 20, 214, 0, 97, 82, 41, 0, 73, 156, 118, 0, 0, 0, 0, 0, 0, 0, 0, 0],
        [22, 967088326, 1036434230, 2299],
    );
}

#[test]
fn bc6h_pack_mode_7_case_3() {
    check_pack(
        7,
        [170, 217, 102, 0, 7, 76, 58, 0, 16, 174, 200, 0, 163, 20, 123, 0, 0, 0, 0, 0, 0, 0, 0, 0],
        [22, 913008042, 155962749, 1638],
    );
}

#[test]
fn bc6h_pack_mode_8_case_1() {
    check_pack(
        8,
        [255, 255, 255, 0, 255, 255, 255, 0, 255, 255, 255, 0, 255, 255, 255, 0, 0, 0, 0, 0, 0, 0, 0, 0],
        [26, 267648255, 0, 0],
    );
}

#[test]
fn bc6h_pack_mode_8_case_2() {
    check_pack(
        8,
        [51, 248, 76, 0, 105, 132, 183, 0, 81, 145, 19, 0, 46, 48, 106, 0, 0, 0, 0, 0, 0, 0, 0, 0],
        [26, 617341235, 515388022, 3838],
    );
}

#[test]
fn bc6h_pack_mode_8_case_3() {
    check_pack(
        8,
        [209, 7, 77, 0, 166, 83, 234, 0, 212, 225, 12, 0, 190, 14, 198, 0, 0, 0, 0, 0, 0, 0, 0, 0],
        [26, 886841041, 1037546133, 2883],
    );
}

#[test]
fn bc6h_pack_mode_9_case_1() {
    check_pack(
        9,
        [63, 63, 63, 0, 63, 63, 63, 0, 63, 63, 63, 0, 63, 63, 63, 0, 0, 0, 0, 0, 0, 0, 0, 0],
        [30, 1073741823, 1073741823, 4095],
    );
}

#[test]
fn bc6h_pack_mode_9_case_2() {
    check_pack(
        9,
        [45, 2, 40, 0, 60, 56, 5, 0, 40, 40, 49, 0, 38, 16, 48, 0, 0, 0, 0, 0, 0, 0, 0, 0],
        [30, 847448685, 72409660, 2472],
    );
}

#[test]
fn bc6h_pack_mode_9_case_3() {
    check_pack(
        9,
        [7, 14, 62, 0, 15, 12, 22, 0, 4, 6, 39, 0, 27, 12, 58, 0, 0, 0, 0, 0, 0, 0, 0, 0],
        [30, 1004681479, 493629839, 1732],
    );
}

#[test]
fn bc6h_pack_mode_10_case_1() {
    check_pack(
        10,
        [1023, 1023, 1023, 0, 1023, 1023, 1023, 0, 0, 0, 0, 0, 0, 0, 0, 0, 0, 0, 0, 0, 0, 0, 0, 0],
        [3, 1073741823, 1073741823, 0],
    );
}

#[test]
fn bc6h_pack_mode_10_case_2() {
    check_pack(
        10,
        [1022, 960, 120, 0, 867, 450, 454, 0, 0, 0, 0, 0, 0, 0, 0, 0, 0, 0, 0, 0, 0, 0, 0, 0],
        [3, 126813182, 476515171, 0],
    );
}

#[test]
fn bc6h_pack_mode_10_case_3() {
    check_pack(
        10,
        [674, 332, 784, 0, 494, 965, 369, 0, 0, 0, 0, 0, 0, 0, 0, 0, 0, 0, 0, 0, 0, 0, 0, 0],
        [3, 822424226, 387913198, 0],
    );
}

#[test]
fn bc6h_pack_mode_11_case_1() {
    check_pack(
        11,
        [2047, 2047, 2047, 0, 2047, 2047, 2047, 0, 0, 0, 0, 0, 0, 0, 0, 0, 0, 0, 0, 0, 0, 0, 0, 0],
        [7, 1073741823, 537395712, 0],
    );
}

#[test]
fn bc6h_pack_mode_11_case_2() {
    check_pack(
        11,
        [853, 876, 652, 0, 1865, 59, 798, 0, 0, 0, 0, 0, 0, 0, 0, 0, 0, 0, 0, 0, 0, 0, 0, 0],
        [7, 684569429, 153304564, 0],
    );
}

#[test]
fn bc6h_pack_mode_11_case_3() {
    check_pack(
        11,
        [299, 285, 500, 0, 386, 1086, 965, 0, 0, 0, 0, 0, 0, 0, 0, 0, 0, 0, 0, 0, 0, 0, 0, 0],
        [7, 524580139, 487883863, 0],
    );
}

#[test]
fn bc6h_pack_mode_12_case_1() {
    check_pack(
        12,
        [4095, 4095, 4095, 0, 4095, 4095, 4095, 0, 0, 0, 0, 0, 0, 0, 0, 0, 0, 0, 0, 0, 0, 0, 0, 0],
        [11, 1073741823, 806093568, 0],
    );
}

#[test]
fn bc6h_pack_mode_12_case_2() {
    check_pack(
        12,
        [1749, 2274, 1845, 0, 4076, 3032, 3659, 0, 0, 0, 0, 0, 0, 0, 0, 0, 0, 0, 0, 0, 0, 0, 0, 0],
        [11, 861113045, 560454167, 0],
    );
}

#[test]
fn bc6h_pack_mode_12_case_3() {
    check_pack(
        12,
        [3305, 2040, 3691, 0, 888, 246, 3014, 0, 0, 0, 0, 0, 0, 0, 0, 0, 0, 0, 0, 0, 0, 0, 0, 0],
        [11, 650109161, 901512079, 0],
    );
}

#[test]
fn bc6h_pack_mode_13_case_1() {
    check_pack(
        13,
        [65535, 65535, 65535, 0, 65535, 65535, 65535, 0, 0, 0, 0, 0, 0, 0, 0, 0, 0, 0, 0, 0, 0, 0, 0, 0],
        [15, 1073741823, 1057997808, 0],
    );
}

#[test]
fn bc6h_pack_mode_13_case_2() {
    check_pack(
        13,
        [31304, 52389, 64646, 0, 10802, 55248, 61021, 0, 0, 0, 0, 0, 0, 0, 0, 0, 0, 0, 0, 0, 0, 0, 0, 0],
        [15, 140678728, 1065151978, 0],
    );
}

#[test]
fn bc6h_pack_mode_13_case_3() {
    check_pack(
        13,
        [14552, 42959, 32665, 0, 58224, 39809, 55657, 0, 0, 0, 0, 0, 0, 0, 0, 0, 0, 0, 0, 0, 0, 0, 0, 0],
        [15, 966737112, 1040796104, 0],
    );
}

fn unquantize_unsigned(v: i32, bits: u32) -> i32 {
    if bits >= 15 {
        v
    } else if v == 0 {
        0
    } else if v == (1 << bits) - 1 {
        0xFFFF
    } else {
        ((v << 16) + 0x8000) >> bits
    }
}

fn expected_sample(a: i32, b: i32, bits: u32, weight: i32) -> u16 {
    let ea = unquantize_unsigned(a, bits);
    let eb = unquantize_unsigned(b, bits);
    let value = (ea * (64 - weight) + eb * weight + 32) >> 6;
    ((value * 31) >> 6) as u16
}

fn block_bytes(data: &[u32; 5]) -> [u8; 16] {
    let mut bytes = [0u8; 16];
    store_data(&mut bytes, 1, 0, 0, &data[..4]);
    bytes
}

fn index_of(qblock: &[u32; 2], k: usize) -> i32 {
    ((qblock[k / 8] >> (4 * (k % 8))) & 15) as i32
}

fn check_one_subset(mode: usize, bits: u32, qep_in: [i32; 24], qblock_in: [u32; 2]) {
    let mut qep = qep_in;
    let mut qblock = qblock_in;
    let data = bc6h_code_1p(&mut qep, &mut qblock, mode);
    let bytes = block_bytes(&data);
    let mut decoded = [0u16; 48];
    decode_block_bc6h(&bytes, &mut decoded, 12, false);
    for k in 0..16 {
        let weight = get_unquant_value(4, index_of(&qblock_in, k));
        for c in 0..3 {
            let expected = expected_sample(qep_in[c], qep_in[4 + c], bits, weight);
            assert_eq!(decoded[3 * k + c], expected, "mode {} pixel {} channel {}", mode, k, c);
        }
    }
}

fn check_two_subsets(
    mode: usize,
    bits: u32,
    part_id: i32,
    qep_in: [i32; 24],
    qblock_in: [u32; 2],
) {
    let mut qep = qep_in;
    let data = bc6h_code_2p(&mut qep, qblock_in, part_id, mode);
    let bytes = block_bytes(&data);
    let mut decoded = [0u16; 48];
    decode_block_bc6h(&bytes, &mut decoded, 12, false);
    let pattern = get_pattern(part_id);
    for k in 0..16 {
        let subset = ((pattern >> (2 * k)) & 3) as usize;
        let weight = get_unquant_value(3, index_of(&qblock_in, k));
        for c in 0..3 {
            let expected = expected_sample(
                qep_in[8 * subset + c],
                qep_in[8 * subset + 4 + c],
                bits,
                weight,
            );
            assert_eq!(
                decoded[3 * k + c],
                expected,
                "mode {} shape {} pixel {} channel {}",
                mode,
                part_id,
                k,
                c
            );
        }
    }
}

#[test]
fn bc6h_mode_10_block_decodes_to_its_endpoints() {
    let mut qep = [0i32; 24];
    qep[0] = 512;
    qep[1] = 100;
    qep[2] = 1023;
    qep[4] = 3;
    qep[5] = 900;
    qep[6] = 0;
    check_one_subset(10, 10, qep, [0x7654_3210, 0xFEDC_BA98]);
    check_one_subset(10, 10, qep, [0x0123_456F, 0x89AB_CDE7]);
}

#[test]
fn bc6h_modes_11_to_13_blocks_decode_to_their_endpoints() {
    let mut qep = [0i32; 24];
    qep[0] = 1500;
    qep[1] = 2047;
    qep[2] = 7;
    qep[4] = 1600;
    qep[5] = 1900;
    qep[6] = 200;
    check_one_subset(11, 11, qep, [0x7654_3210, 0xFEDC_BA98]);
    check_one_subset(11, 11, qep, [0x1111_111A, 0x2222_2222]);
    let mut qep = [0i32; 24];
    qep[0] = 3000;
    qep[1] = 4095;
    qep[2] = 64;
    qep[4] = 3100;
    qep[5] = 4000;
    qep[6] = 0;
    check_one_subset(12, 12, qep, [0x7654_3210, 0xFEDC_BA98]);
    check_one_subset(12, 12, qep, [0x0000_000F, 0x0000_0000]);
    let mut qep = [0i32; 24];
    qep[0] = 40000;
    qep[1] = 65535;
    qep[2] = 5;
    qep[4] = 40007;
    qep[5] = 65528;
    qep[6] = 0;
    check_one_subset(13, 16, qep, [0x7654_3210, 0xFEDC_BA98]);
    check_one_subset(13, 16, qep, [0x8888_8888, 0x8888_8888]);
}

fn two_subset_endpoints(base: [i32; 3], limit: i32, spread: i32) -> [i32; 24] {
    let mut qep = [0i32; 24];
    for e in 0..4 {
        for c in 0..3 {
            let step = ((e as i32) * 5 + (c as i32) * 3) % (2 * spread) - spread;
            let value = base[c] + if e == 0 { 0 } else { step };
            qep[4 * e + c] = value.clamp(0, limit);
        }
    }
    qep
}

#[test]
fn bc6h_two_subset_blocks_decode_to_their_endpoints() {
    let indices = [[0x7654_3210u32, 0x0123_4567u32], [0x4000_0007, 0x7000_0004], [0x1234_5674, 0x7123_4567]];
    for part_id in 0..32 {
        for qblock in indices {
            check_two_subsets(0, 10, part_id, two_subset_endpoints([500, 20, 1000], 1023, 7), qblock);
            check_two_subsets(1, 7, part_id, two_subset_endpoints([64, 100, 30], 127, 15), qblock);
            check_two_subsets(2, 11, part_id, two_subset_endpoints([1000, 2000, 40], 2047, 3), qblock);
            check_two_subsets(3, 11, part_id, two_subset_endpoints([1000, 2000, 40], 2047, 3), qblock);
            check_two_subsets(4, 11, part_id, two_subset_endpoints([1000, 2000, 40], 2047, 3), qblock);
            check_two_subsets(5, 9, part_id, two_subset_endpoints([100, 500, 300], 511, 7), qblock);
            check_two_subsets(6, 8, part_id, two_subset_endpoints([100, 200, 30], 255, 7), qblock);
            check_two_subsets(7, 8, part_id, two_subset_endpoints([100, 200, 30], 255, 7), qblock);
            check_two_subsets(8, 8, part_id, two_subset_endpoints([100, 200, 30], 255, 7), qblock);
            check_two_subsets(9, 6, part_id, two_subset_endpoints([31, 40, 20], 63, 20), qblock);
        }
    }
}

#[test]
fn bc6h_mode_tables() {
    let prefixes = [0, 1, 2, 6, 10, 14, 18, 22, 26, 30, 3, 7, 11, 15];
    let bits = [10, 7, 11, 0, 0, 9, 8, 0, 0, 6, 10, 11, 12, 16];
    for mode in 0..14 {
        assert_eq!(get_mode_prefix(mode), prefixes[mode]);
        assert_eq!(get_mode_bits(mode), bits[mode]);
    }
}

#[test]
fn bc6h_bit_helpers() {
    assert_eq!(bit_at(0b1010, 1), 1);
    assert_eq!(bit_at(0b1010, 2), 0);
    assert_eq!(bit_at(0x4000_0000, 30), 1);
    assert_eq!(reverse_bits(0b01, 2), 0b10);
    assert_eq!(reverse_bits(0b11, 2), 0b11);
    assert_eq!(reverse_bits(0b000001, 6), 0b100000);
    assert_eq!(reverse_bits(0b110100, 6), 0b001011);
}

#[test]
fn unpack_to_uf16_values() {
    assert_eq!(unpack_to_uf16(0, 10), 0);
    assert_eq!(unpack_to_uf16(1023, 10), 0xFFFF);
    assert_eq!(unpack_to_uf16(512, 10), 32800);
    assert_eq!(unpack_to_uf16(1, 6), 1536);
    assert_eq!(unpack_to_uf16(12345, 16), 12345);
    assert_eq!(unpack_to_uf16(77, 15), 77);
    for v in 1..1023 {
        assert_eq!(unpack_to_uf16(v, 10) as i32, unquantize_unsigned(v as i32, 10));
    }
}
