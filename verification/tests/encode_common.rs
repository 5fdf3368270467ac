use block_compression::encode::common::{
    bc7_code_adjust_skip_mode01237, bc7_code_apply_swap_mode01237, bc7_code_apply_swap_mode456,
    bc7_code_qblock, data_shl_1bit_from, get_nibble, partial_sort_list, put_bits,
};
use block_compression::partition::{get_pattern_mask, get_skips};

fn value_of(data: &[u32; 5]) -> u128 {
    assert_eq!(data[4], 0);
    (data[0] as u128) | (data[1] as u128) << 32 | (data[2] as u128) << 64 | (data[3] as u128) << 96
}

#[test]
fn put_bits_writes_in_order() {
    let mut data = [0u32; 5];
    let mut pos = 0u32;
    put_bits(&mut data, &mut pos, 5, 0b10110);
    assert_eq!((data, pos), ([0b10110, 0, 0, 0, 0], 5));
    put_bits(&mut data, &mut pos, 30, 0x3FFF_FFFF);
    assert_eq!(pos, 35);
    assert_eq!(data, [0xFFFF_FFF6, 0x7, 0, 0, 0]);
    put_bits(&mut data, &mut pos, 29, 0);
    put_bits(&mut data, &mut pos, 32, 0xDEAD_BEEF);
    assert_eq!(pos, 96);
    assert_eq!(data, [0xFFFF_FFF6, 0x7, 0xDEAD_BEEF, 0, 0]);
    put_bits(&mut data, &mut pos, 0, 0);
    put_bits(&mut data, &mut pos, 31, 0x7FFF_FFFF);
    put_bits(&mut data, &mut pos, 3, 0b101);
    assert_eq!(pos, 130);
    assert_eq!(data, [0xFFFF_FFF6, 0x7, 0xDEAD_BEEF, 0xFFFF_FFFF, 0x2]);
}

#[test]
fn data_shl_1bit_from_takes_one_bit_out() {
    for from_bits in 65..128usize {
        if from_bits % 32 == 0 {
            continue;
        }
        let mut data = [0x1234_5678u32, 0x9ABC_DEF0, 0xA5A5_5A5A, 0x0F0F_F0F1, 0];
        let before = value_of(&data);
        data_shl_1bit_from(&mut data, from_bits);
        let removed = from_bits - 1;
        let low = before & ((1u128 << removed) - 1);
        let high = (before >> (removed + 1)) << removed;
        assert_eq!(value_of(&data), low | high, "from {}", from_bits);
    }
}

#[test]
fn data_shl_1bit_from_at_word_starts_and_past_the_block() {
    let start = [0x1234_5678u32, 0x9ABC_DEF0, 0xA5A5_5A5B, 0x0F0F_F0F1, 1];
    let mut data = start;
    data_shl_1bit_from(&mut data, 64);
    assert_eq!(data, [0x1234_5678, 0x9ABC_DEF0, 0xD2D2_AD2D, 0x8787_F878, 0]);
    let mut data = start;
    data_shl_1bit_from(&mut data, 96);
    assert_eq!(data, [0x1234_5678, 0x9ABC_DEF0, 0xA5A5_5A5B, 0x8787_F878, 0]);
    let mut data = start;
    data_shl_1bit_from(&mut data, 128);
    assert_eq!(data, start);
    let mut data = start;
    data_shl_1bit_from(&mut data, 130);
    assert_eq!(data, start);
}

#[test]
fn put_bits_writes_into_a_clear_field_below_bits_that_are_set() {
    // Bits below and above the field are set; the field itself is clear.
    let mut data = [0xF000_00FFu32, 0xFFFF_FFF0, 0, 0x8000_0001, 0];
    let mut pos = 8u32;
    put_bits(&mut data, &mut pos, 20, 0xABCDE);
    assert_eq!(pos, 28);
    assert_eq!(data, [0xFABC_DEFF, 0xFFFF_FFF0, 0, 0x8000_0001, 0]);

    // A field that lies in two words.
    let mut data = [0x0FFF_FFFFu32, 0xFFFF_FFF0, 0, 0, 0x1234_5678];
    let mut pos = 28u32;
    put_bits(&mut data, &mut pos, 8, 0xA5);
    assert_eq!(pos, 36);
    assert_eq!(data, [0x5FFF_FFFF, 0xFFFF_FFFA, 0, 0, 0x1234_5678]);

    // The last bits of the last word.
    let mut data = [1u32, 2, 3, 4, 0x0000_FFFF];
    let mut pos = 144u32;
    put_bits(&mut data, &mut pos, 16, 0xBEEF);
    assert_eq!(pos, 160);
    assert_eq!(data, [1, 2, 3, 4, 0xBEEF_FFFF]);
}

#[test]
fn partial_sort_list_brings_the_least_to_the_front() {
    let mut list = [50, 3, 99, -7, 3, 64, 12, 0, 41];
    partial_sort_list(&mut list, 9, 4);
    assert_eq!(&list[..4], &[-7, 0, 3, 3]);
    let mut rest = list[4..].to_vec();
    rest.sort();
    assert_eq!(rest, vec![12, 41, 50, 64, 99]);

    let mut list = [5, 4, 3, 2, 1, -100];
    partial_sort_list(&mut list, 5, 5);
    assert_eq!(list, [1, 2, 3, 4, 5, -100]);

    let mut list = [9, 8, 7];
    partial_sort_list(&mut list, 3, 0);
    assert_eq!(list, [9, 8, 7]);

    let mut list = [0i32; 64];
    for part in 0..64 {
        list[part] = part as i32 + ((part as i32 * 37) % 11) * 64;
    }
    let mut sorted = list.to_vec();
    sorted.sort();
    partial_sort_list(&mut list, 64, 12);
    assert_eq!(&list[..12], &sorted[..12]);
}

#[test]
fn partial_sort_list_leaves_the_rest_where_the_exchanges_put_it() {
    // The least entry changes places with the first, then the least of the
    // rest with the second; of two equal entries the earlier one is taken.
    let mut list = [5, 3, 9, 1, 7, 3];
    partial_sort_list(&mut list, 6, 2);
    assert_eq!(list, [1, 3, 9, 5, 7, 3]);

    let mut list = [50, 3, 99, -7, 3, 64, 12, 0, 41];
    partial_sort_list(&mut list, 9, 4);
    assert_eq!(list, [-7, 0, 3, 3, 99, 64, 12, 50, 41]);

    // Entries from `length` on are not looked at.
    let mut list = [4, 2, 8, -1, -5];
    partial_sort_list(&mut list, 3, 2);
    assert_eq!(list, [2, 4, 8, -1, -5]);
}

#[test]
fn get_nibble_reads_four_bits() {
    let qblock = [0x7654_3210u32, 0xFEDC_BA98];
    for k in 0..16 {
        assert_eq!(get_nibble(&qblock, k), k as u32);
    }
}

#[test]
fn qblock_is_written_with_a_short_first_index() {
    let mut data = [0u32; 5];
    let mut pos = 0u32;
    put_bits(&mut data, &mut pos, 3, 0b111);
    bc7_code_qblock(&mut data, &mut pos, [0x3210_3211, 0x0123_0123], 2, 0);
    assert_eq!(pos, 3 + 31);
    let indices = [1, 1, 2, 3, 0, 1, 2, 3, 3, 2, 1, 0, 3, 2, 1, 0];
    let mut expected: u128 = 0b111;
    let mut at = 3;
    for (k, q) in indices.iter().enumerate() {
        expected |= (*q as u128) << at;
        at += if k == 0 { 1 } else { 2 };
    }
    assert_eq!(value_of(&data), expected);
}

#[test]
fn flipped_indices_are_counted_from_the_other_end() {
    let mut data = [0u32; 5];
    let mut pos = 0u32;
    let qblock = [0x7654_3214, 0x0123_4567];
    let flips = 0b1010_0000_0000_0101;
    bc7_code_qblock(&mut data, &mut pos, qblock, 3, flips);
    assert_eq!(pos, 47);
    let mut expected: u128 = 0;
    let mut at = 0;
    for k in 0..16 {
        let mut q = get_nibble(&qblock, k);
        if (flips >> k) & 1 == 1 {
            q = 7 - q;
        }
        expected |= (q as u128) << at;
        at += if k == 0 { 2 } else { 3 };
    }
    assert_eq!(value_of(&data), expected);
}

#[test]
fn single_subset_swap() {
    let mut qep = [1, 2, 3, 4, 5, 6, 7, 8, 9];
    let mut qblock = [0x3210_3213u32, 0x0123_0123];
    bc7_code_apply_swap_mode456(&mut qep, 4, &mut qblock, 2);
    assert_eq!(qep, [5, 6, 7, 8, 1, 2, 3, 4, 9]);
    assert_eq!(qblock, [0x0123_0120, 0x3210_3210]);

    let mut qep = [1, 2, 3, 4, 5, 6, 7, 8, 9];
    let mut qblock = [0x3210_3211u32, 0x0123_0123];
    bc7_code_apply_swap_mode456(&mut qep, 4, &mut qblock, 2);
    assert_eq!(qep, [1, 2, 3, 4, 5, 6, 7, 8, 9]);
    assert_eq!(qblock, [0x3210_3211, 0x0123_0123]);

    let mut qep = [10, 20];
    let mut qblock = [0xFEDC_BA98u32, 0x7654_3210];
    bc7_code_apply_swap_mode456(&mut qep, 1, &mut qblock, 4);
    assert_eq!(qep, [20, 10]);
    assert_eq!(qblock, [0x0123_4567, 0x89AB_CDEF]);

    let mut qep = [10, 20];
    let mut qblock = [0x0765_4324u32, 0x0123_4567];
    bc7_code_apply_swap_mode456(&mut qep, 1, &mut qblock, 3);
    assert_eq!(qep, [20, 10]);
    assert_eq!(qblock, [0x7012_3453, 0x7654_3210]);
}

#[test]
fn partitioned_swap() {
    for part_id in 0..128 {
        let mode = if part_id < 64 { 1 } else { 0 };
        let pairs = if part_id < 64 { 2 } else { 3 };
        let skips = get_skips(part_id);
        for choice in 0..8u32 {
            let mut qblock = [0u32; 2];
            let mut expected_flips = 0u32;
            let mut expected = [0i32; 24];
            let mut qep = [0i32; 24];
            for i in 0..24 {
                qep[i] = i as i32 + 1;
                expected[i] = i as i32 + 1;
            }
            for j in 0..pairs {
                if (choice >> j) & 1 == 1 {
                    let k = skips[j] as usize;
                    qblock[k / 8] |= 4 << (4 * (k % 8));
                    expected_flips |= get_pattern_mask(part_id, j as u32);
                    for p in 0..4 {
                        expected.swap(8 * j + p, 8 * j + 4 + p);
                    }
                }
            }
            let flips = bc7_code_apply_swap_mode01237(&mut qep, qblock, mode, part_id);
            assert_eq!(flips, expected_flips, "shape {}", part_id);
            assert_eq!(qep, expected, "shape {}", part_id);
        }
    }
}

#[test]
fn spare_anchor_bits_are_taken_out() {
    for part_id in 0..64 {
        let skips = get_skips(part_id);
        let mut data = [0xFFFF_FFFFu32, 0xFFFF_FFFF, 0xFFFF_FFFF, 0xFFFF_FFFF, 1];
        let before: u128 = u128::MAX;
        bc7_code_adjust_skip_mode01237(&mut data, 1, part_id);
        let from_bits = 128 + 1 - (15 - skips[1] as usize) * 3;
        if from_bits >= 128 {
            assert_eq!(data, [0xFFFF_FFFF, 0xFFFF_FFFF, 0xFFFF_FFFF, 0xFFFF_FFFF, 1]);
        } else {
            assert_eq!(data[4], 0);
            assert_eq!(value_of(&data), before, "shape {}", part_id);
        }
    }
    let mut data = [0u32, 0, 0, 0, 0];
    data[2] = 1 << 31;
    bc7_code_adjust_skip_mode01237(&mut data, 1, 17);
    assert_eq!(data, [0, 0, 1 << 30, 0, 0]);
}
