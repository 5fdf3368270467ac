use block_compression::partition::{get_pattern, get_pattern_mask, get_skips, get_unquant_value};

#[test]
fn masks_agree_with_patterns() {
    for part_id in 0..128 {
        let pattern = get_pattern(part_id);
        for k in 0..16u32 {
            let subset = (pattern >> (2 * k)) & 3;
            for j in 0..3u32 {
                let mask = get_pattern_mask(part_id, j);
                assert_eq!((mask >> k) & 1 == 1, subset == j, "shape {} pixel {}", part_id, k);
            }
        }
    }
}

#[test]
fn shapes_use_their_subsets_only() {
    for part_id in 0..128 {
        let pattern = get_pattern(part_id);
        let limit = if part_id < 64 { 2 } else { 3 };
        let mut seen = [false; 3];
        for k in 0..16 {
            let subset = ((pattern >> (2 * k)) & 3) as usize;
            assert!(subset < limit);
            seen[subset] = true;
        }
        assert!(seen[..limit].iter().all(|s| *s));
    }
}

#[test]
fn anchors_lie_in_their_subsets() {
    for part_id in 0..128 {
        let pattern = get_pattern(part_id);
        let skips = get_skips(part_id);
        assert_eq!(skips[0], 0);
        assert_eq!(pattern & 3, 0);
        assert_eq!((pattern >> (2 * skips[1])) & 3, 1);
        if part_id >= 64 {
            assert_eq!((pattern >> (2 * skips[2])) & 3, 2);
        }
        for s in 1..3 {
            let mask = get_pattern_mask(part_id, s as u32) & 0xFFFF;
            if mask != 0 {
                assert_eq!(mask.trailing_zeros(), skips[s].min(mask.trailing_zeros()));
            }
        }
    }
}

#[test]
fn known_entries() {
    assert_eq!(get_pattern(0), 0x50505050);
    assert_eq!(get_pattern(127), 0x2A4A5254);
    assert_eq!(get_pattern_mask(0, 0), 0x3333);
    assert_eq!(get_pattern_mask(0, 1), 0xCCCC);
    assert_eq!(get_pattern_mask(0, 2), 0xFFFF_0000);
    assert_eq!(get_pattern_mask(0, 7), 0xCCCC);
    assert_eq!(get_pattern_mask(64, 2), !0x0133u32 & !0x08CCu32);
    assert_eq!(get_skips(0), [0, 15, 0]);
    assert_eq!(get_skips(17), [0, 2, 0]);
    assert_eq!(get_skips(64), [0, 3, 15]);
    assert_eq!(get_skips(65), [0, 3, 8]);
}

#[test]
fn weights() {
    let two = [0, 21, 43, 64];
    let three = [0, 9, 18, 27, 37, 46, 55, 64];
    let four = [0, 4, 9, 13, 17, 21, 26, 30, 34, 38, 43, 47, 51, 55, 60, 64];
    for i in 0..16 {
        assert_eq!(get_unquant_value(2, i as i32), if i < 4 { two[i] } else { 0 });
        assert_eq!(get_unquant_value(3, i as i32), if i < 8 { three[i] } else { 0 });
        assert_eq!(get_unquant_value(4, i as i32), four[i]);
        assert_eq!(get_unquant_value(9, i as i32), four[i]);
    }
    for i in 0..4 {
        assert_eq!(two[i] + two[3 - i], 64);
    }
    for i in 0..8 {
        assert_eq!(three[i] + three[7 - i], 64);
    }
    for i in 0..16 {
        assert_eq!(four[i] + four[15 - i], 64);
    }
}
