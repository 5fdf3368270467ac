use std::collections::HashMap;

use block_compression::{BC6HSettings, BC7Settings, CompressionVariant};

fn all_variants() -> [CompressionVariant; 7] {
    [
        CompressionVariant::BC1,
        CompressionVariant::BC2,
        CompressionVariant::BC3,
        CompressionVariant::BC4,
        CompressionVariant::BC5,
        CompressionVariant::BC6H(BC6HSettings::basic()),
        CompressionVariant::BC7(BC7Settings::alpha_basic()),
    ]
}

#[test]
fn block_sizes() {
    let sizes = [8, 16, 16, 8, 16, 16, 16];
    for (variant, size) in all_variants().into_iter().zip(sizes) {
        assert_eq!(variant.block_byte_size(), size);
        assert_eq!(variant.blocks_byte_size(4, 4), size as usize);
    }
}

#[test]
fn bytes_per_row_rounds_the_width_up() {
    assert_eq!(CompressionVariant::BC1.bytes_per_row(0), 0);
    assert_eq!(CompressionVariant::BC1.bytes_per_row(1), 8);
    assert_eq!(CompressionVariant::BC1.bytes_per_row(4), 8);
    assert_eq!(CompressionVariant::BC1.bytes_per_row(5), 16);
    assert_eq!(CompressionVariant::BC3.bytes_per_row(256), 1024);
    assert_eq!(CompressionVariant::BC4.bytes_per_row(255), 512);
    assert_eq!(CompressionVariant::BC2.bytes_per_row(0x0FFF_FFFC), 0x3FFF_FFF0);
    assert_eq!(CompressionVariant::BC2.bytes_per_row(0x3FFF_FFFC), 0xFFFF_FFF0);
}

#[test]
fn blocks_byte_size_rounds_both_sides_up() {
    assert_eq!(CompressionVariant::BC1.blocks_byte_size(0, 0), 0);
    assert_eq!(CompressionVariant::BC1.blocks_byte_size(256, 256), 32768);
    assert_eq!(CompressionVariant::BC3.blocks_byte_size(256, 256), 65536);
    assert_eq!(CompressionVariant::BC2.blocks_byte_size(5, 9), 2 * 3 * 16);
    assert_eq!(CompressionVariant::BC4.blocks_byte_size(1, 1), 8);
    assert_eq!(CompressionVariant::BC5.blocks_byte_size(8, 4), 32);
    assert_eq!(
        CompressionVariant::BC7(BC7Settings::opaque_fast()).blocks_byte_size(1024, 512),
        256 * 128 * 16
    );
}

#[test]
fn names_and_entry_points() {
    let names = ["bc1", "bc2", "bc3", "bc4", "bc5", "bc6h", "bc7"];
    for (variant, name) in all_variants().into_iter().zip(names) {
        assert_eq!(variant.name(), name);
        assert_eq!(variant.entry_point(), format!("compress_{}", name));
    }
}

#[test]
fn equality_and_hash_look_at_the_format_only() {
    assert!(
        CompressionVariant::BC6H(BC6HSettings::very_fast())
            == CompressionVariant::BC6H(BC6HSettings::very_slow())
    );
    assert!(
        CompressionVariant::BC7(BC7Settings::opaque_slow())
            == CompressionVariant::BC7(BC7Settings::alpha_ultrafast())
    );
    assert!(CompressionVariant::BC1 != CompressionVariant::BC4);
    assert!(CompressionVariant::BC6H(BC6HSettings::basic()) != CompressionVariant::BC7(BC7Settings::alpha_basic()));
    let mut cache: HashMap<CompressionVariant, u32> = HashMap::new();
    for (i, variant) in all_variants().into_iter().enumerate() {
        cache.insert(variant, i as u32);
    }
    assert_eq!(cache.len(), 7);
    assert_eq!(cache.get(&CompressionVariant::BC6H(BC6HSettings::very_slow())), Some(&5));
    assert_eq!(cache.get(&CompressionVariant::BC7(BC7Settings::opaque_ultra_fast())), Some(&6));
    cache.insert(CompressionVariant::BC7(BC7Settings::alpha_slow()), 70);
    assert_eq!(cache.len(), 7);
}

#[test]
fn bc6h_presets() {
    assert_eq!(BC6HSettings::very_fast().to_words(), vec![0, 1, 0, 0, 0]);
    assert_eq!(BC6HSettings::fast().to_words(), vec![0, 1, 0, 1, 2]);
    assert_eq!(BC6HSettings::basic().to_words(), vec![0, 0, 2, 2, 4]);
    assert_eq!(BC6HSettings::slow().to_words(), vec![1, 0, 2, 2, 10]);
    assert_eq!(BC6HSettings::very_slow().to_words(), vec![1, 0, 2, 2, 32]);
    let slow = BC6HSettings::slow();
    assert!(slow.slow_mode && !slow.fast_mode);
    assert_eq!(slow.refine_iterations_1p, 2);
    assert_eq!(slow.refine_iterations_2p, 2);
    assert_eq!(slow.fast_skip_threshold, 10);
    assert!(BC6HSettings::fast() == BC6HSettings::fast());
    assert!(BC6HSettings::fast() != BC6HSettings::very_fast());
}

#[test]
fn bc7_presets() {
    assert_eq!(
        BC7Settings::opaque_ultra_fast().to_words(),
        vec![2, 2, 2, 1, 2, 2, 1, 0, 0, 0, 0, 1, 1, 3, 1, 0, 0, 0, 3]
    );
    assert_eq!(
        BC7Settings::opaque_very_fast().to_words(),
        vec![2, 2, 2, 1, 2, 2, 1, 0, 0, 1, 0, 1, 1, 3, 1, 0, 0, 0, 3]
    );
    assert_eq!(
        BC7Settings::opaque_fast().to_words(),
        vec![2, 2, 2, 1, 2, 2, 2, 0, 0, 1, 0, 1, 1, 12, 4, 0, 0, 0, 3]
    );
    assert_eq!(
        BC7Settings::opaque_basic().to_words(),
        vec![2, 2, 2, 2, 2, 2, 2, 0, 1, 1, 1, 1, 1, 12, 8, 0, 0, 2, 3]
    );
    assert_eq!(
        BC7Settings::opaque_slow().to_words(),
        vec![4, 4, 4, 4, 4, 4, 4, 0, 1, 1, 1, 1, 0, 64, 64, 0, 0, 4, 3]
    );
    assert_eq!(
        BC7Settings::alpha_ultrafast().to_words(),
        vec![2, 1, 2, 1, 1, 1, 2, 2, 0, 0, 1, 1, 1, 0, 0, 4, 3, 1, 4]
    );
    assert_eq!(
        BC7Settings::alpha_very_fast().to_words(),
        vec![2, 1, 2, 1, 2, 2, 2, 2, 0, 1, 1, 1, 1, 0, 0, 4, 3, 2, 4]
    );
    assert_eq!(
        BC7Settings::alpha_fast().to_words(),
        vec![2, 1, 2, 1, 2, 2, 2, 2, 0, 1, 1, 1, 1, 4, 4, 8, 3, 2, 4]
    );
    assert_eq!(
        BC7Settings::alpha_basic().to_words(),
        vec![2, 2, 2, 2, 2, 2, 2, 2, 1, 1, 1, 1, 1, 12, 8, 8, 0, 2, 4]
    );
    assert_eq!(
        BC7Settings::alpha_slow().to_words(),
        vec![4, 4, 4, 4, 4, 4, 4, 4, 1, 1, 1, 1, 0, 64, 64, 64, 0, 4, 4]
    );
    let preset = BC7Settings::alpha_fast();
    assert_eq!(preset.channels, 4);
    assert_eq!(preset.mode45_channel0, 3);
    assert_eq!(preset.mode_selection, [false, true, true, true]);
    assert!(preset.skip_mode2);
}
