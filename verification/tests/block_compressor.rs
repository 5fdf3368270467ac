use block_compression::block_compressor::{
    check_task, create_pipeline, shader_module_of, Binding, BlockCompressor, LayoutBinding,
    Misuse, ShaderModule,
};
use block_compression::{BC6HSettings, BC7Settings, CompressionVariant, Settings};

fn bc6h() -> CompressionVariant {
    CompressionVariant::BC6H(BC6HSettings::very_fast())
}

fn bc7() -> CompressionVariant {
    CompressionVariant::BC7(BC7Settings::opaque_ultra_fast())
}

fn add(
    compressor: &mut BlockCompressor,
    variant: CompressionVariant,
    width: u32,
    height: u32,
    offset: Option<u32>,
    settings: Option<Settings>,
) -> Vec<Binding> {
    let size = offset.unwrap_or(0) as u64 + variant.blocks_byte_size(width, height) as u64;
    assert_eq!(check_task(variant, width, height, true, size, offset, &settings), None);
    compressor.add_compression_task(variant, width, height, true, size, offset, settings)
}

#[test]
fn strides_are_aligned_sizes() {
    let compressor = BlockCompressor::new(256, 32);
    assert_eq!(compressor.uniforms_aligned_size, 256);
    assert_eq!(compressor.bc6h_aligned_size, 32);
    assert_eq!(compressor.bc7_aligned_size, 96);
    assert_eq!(compressor.uniforms_capacity, 4096);
    assert_eq!(compressor.bc6h_capacity, 512);
    assert_eq!(compressor.bc7_capacity, 1536);
    assert!(compressor.task.is_empty());

    let compressor = BlockCompressor::new(4, 1);
    assert_eq!(compressor.uniforms_aligned_size, 12);
    assert_eq!(compressor.bc6h_aligned_size, 20);
    assert_eq!(compressor.bc7_aligned_size, 76);

    let compressor = BlockCompressor::new(8, 64);
    assert_eq!(compressor.uniforms_aligned_size, 16);
    assert_eq!(compressor.bc6h_aligned_size, 64);
    assert_eq!(compressor.bc7_aligned_size, 128);
}

#[test]
fn misuse_is_named() {
    let none: Option<Settings> = None;
    let bc6h_settings = Some(Settings::BC6H(BC6HSettings::fast()));
    let bc7_settings = Some(Settings::BC7(BC7Settings::alpha_fast()));
    let variant = CompressionVariant::BC1;
    assert_eq!(check_task(variant, 8, 8, true, 32, None, &none), None);
    assert_eq!(check_task(variant, 8, 8, true, 31, None, &none), Some(Misuse::BufferTooSmall));
    assert_eq!(check_task(variant, 8, 8, true, 40, Some(8), &none), None);
    assert_eq!(check_task(variant, 8, 8, true, 39, Some(8), &none), Some(Misuse::BufferTooSmall));
    assert_eq!(
        check_task(variant, 8, 6, true, 64, None, &none),
        Some(Misuse::HeightNotMultipleOfFour)
    );
    assert_eq!(
        check_task(variant, 7, 8, true, 64, None, &none),
        Some(Misuse::WidthNotMultipleOfFour)
    );
    assert_eq!(
        check_task(variant, 7, 6, true, 64, None, &none),
        Some(Misuse::HeightNotMultipleOfFour)
    );
    assert_eq!(check_task(variant, 8, 8, false, 64, None, &none), Some(Misuse::NotAStorageBuffer));
    assert_eq!(check_task(variant, 8, 8, true, 32, None, &bc7_settings), None);
    assert_eq!(
        check_task(bc6h(), 8, 8, true, 64, None, &bc7_settings),
        Some(Misuse::Bc7SettingsForBc6h)
    );
    assert_eq!(
        check_task(bc7(), 8, 8, true, 64, None, &bc6h_settings),
        Some(Misuse::Bc6hSettingsForBc7)
    );
    assert_eq!(check_task(bc6h(), 8, 8, true, 64, None, &bc6h_settings), None);
    assert_eq!(check_task(bc7(), 8, 8, true, 64, None, &bc7_settings), None);
    assert_eq!(check_task(bc7(), 8, 8, true, 64, None, &none), None);
    assert_eq!(check_task(variant, 0, 0, true, 0, None, &none), None);
    assert_eq!(
        check_task(bc7(), 0xFFFF_FFFC, 0xFFFF_FFFC, true, u64::MAX, Some(u32::MAX), &none),
        None
    );
    assert_eq!(
        check_task(bc7(), 0xFFFF_FFFC, 0xFFFF_FFFC, true, u64::MAX / 2, Some(u32::MAX), &none),
        Some(Misuse::BufferTooSmall)
    );
}

#[test]
fn layouts_and_modules() {
    let common = vec![
        LayoutBinding::FloatTexture,
        LayoutBinding::StorageBuffer,
        LayoutBinding::DynamicUniformBuffer,
    ];
    for variant in [
        CompressionVariant::BC1,
        CompressionVariant::BC2,
        CompressionVariant::BC3,
        CompressionVariant::BC4,
        CompressionVariant::BC5,
    ] {
        assert_eq!(create_pipeline(variant), common);
        assert_eq!(shader_module_of(variant), ShaderModule::Bc1To5);
    }
    let mut with_settings = common.clone();
    with_settings.push(LayoutBinding::DynamicReadOnlyStorageBuffer { min_binding_size: 20 });
    assert_eq!(create_pipeline(bc6h()), with_settings);
    assert_eq!(shader_module_of(bc6h()), ShaderModule::Bc6h);
    with_settings[3] = LayoutBinding::DynamicReadOnlyStorageBuffer { min_binding_size: 76 };
    assert_eq!(create_pipeline(bc7()), with_settings);
    assert_eq!(shader_module_of(bc7()), ShaderModule::Bc7);
}

#[test]
fn tasks_are_queued_with_their_bindings() {
    let mut compressor = BlockCompressor::new(256, 32);
    let bindings = add(&mut compressor, CompressionVariant::BC3, 16, 8, Some(64), None);
    assert_eq!(
        bindings,
        vec![Binding::SourceTexture, Binding::Destination, Binding::Uniforms { size: 256 }]
    );
    let bindings = add(&mut compressor, bc6h(), 8, 8, None, None);
    assert_eq!(bindings.len(), 4);
    assert_eq!(bindings[3], Binding::Bc6hSettings { size: 32 });
    let bindings = add(&mut compressor, bc7(), 8, 8, None, Some(Settings::BC7(BC7Settings::alpha_fast())));
    assert_eq!(bindings[3], Binding::Bc7Settings { size: 96 });
    assert_eq!(compressor.task.len(), 3);
    assert_eq!(compressor.task[0].buffer_offset, 64);
    assert_eq!((compressor.task[0].width, compressor.task[0].height), (16, 8));
    assert!(compressor.task[0].settings.is_none());
    match compressor.task[1].settings {
        Some(Settings::BC6H(settings)) => assert!(settings == BC6HSettings::very_slow()),
        _ => panic!("a task of BC6H has its settings"),
    }
    match compressor.task[2].settings {
        Some(Settings::BC7(settings)) => assert!(settings == BC7Settings::alpha_fast()),
        _ => panic!("a task of BC7 has its settings"),
    }
    add(&mut compressor, bc7(), 8, 8, None, None);
    match compressor.task[3].settings {
        Some(Settings::BC7(settings)) => assert!(settings == BC7Settings::alpha_slow()),
        _ => panic!("a task of BC7 has its settings"),
    }
}

fn word(bytes: &[u8], at: usize) -> u32 {
    u32::from_le_bytes([bytes[at], bytes[at + 1], bytes[at + 2], bytes[at + 3]])
}

#[test]
fn a_submission_packs_and_dispatches_in_order() {
    let mut compressor = BlockCompressor::new(64, 32);
    let tasks = [
        (CompressionVariant::BC1, 64u32, 32u32, 0u32),
        (bc7(), 128, 128, 1024),
        (bc6h(), 4, 4, 17408),
        (CompressionVariant::BC5, 36, 8, 17424),
        (bc7(), 8, 260, 17712),
        (bc6h(), 16, 16, 18752),
    ];
    for (variant, width, height, offset) in tasks {
        add(&mut compressor, variant, width, height, Some(offset), None);
    }
    assert!(compressor.can_submit());
    let submission = compressor.compress();
    assert!(compressor.task.is_empty());
    assert!(submission.growth.uniforms.is_none());
    assert!(submission.growth.bc6h_settings.is_none());
    assert!(submission.growth.bc7_settings.is_none());

    let uniforms = &submission.uploads.uniforms;
    assert_eq!(uniforms.len(), 6 * 64);
    for (i, (_, width, height, offset)) in tasks.iter().enumerate() {
        assert_eq!(word(uniforms, i * 64), *width);
        assert_eq!(word(uniforms, i * 64 + 4), *height);
        assert_eq!(word(uniforms, i * 64 + 8), *offset);
        assert!(uniforms[i * 64 + 12..(i + 1) * 64].iter().all(|b| *b == 0));
    }
    let bc6h_words = BC6HSettings::very_slow().to_words();
    let bc6h_bytes = &submission.uploads.bc6h_settings;
    assert_eq!(bc6h_bytes.len(), 2 * 32);
    for slot in 0..2 {
        for (i, w) in bc6h_words.iter().enumerate() {
            assert_eq!(word(bc6h_bytes, slot * 32 + 4 * i), *w);
        }
        assert!(bc6h_bytes[slot * 32 + 20..(slot + 1) * 32].iter().all(|b| *b == 0));
    }
    let bc7_words = BC7Settings::alpha_slow().to_words();
    let bc7_bytes = &submission.uploads.bc7_settings;
    assert_eq!(bc7_bytes.len(), 2 * 96);
    for slot in 0..2 {
        for (i, w) in bc7_words.iter().enumerate() {
            assert_eq!(word(bc7_bytes, slot * 96 + 4 * i), *w);
        }
        assert!(bc7_bytes[slot * 96 + 76..(slot + 1) * 96].iter().all(|b| *b == 0));
    }

    let expected_settings = [None, Some(0), Some(0), None, Some(96), Some(32)];
    let expected_groups = [(2, 1), (4, 4), (1, 1), (2, 1), (1, 9), (1, 1)];
    assert_eq!(submission.dispatches.len(), 6);
    for (i, dispatch) in submission.dispatches.iter().enumerate() {
        assert_eq!(dispatch.task, i);
        assert!(dispatch.variant == tasks[i].0);
        assert_eq!(dispatch.uniform_offset, (i * 64) as u32);
        assert_eq!(dispatch.setting_offset, expected_settings[i]);
        assert_eq!((dispatch.workgroups_x, dispatch.workgroups_y), expected_groups[i]);
    }
}

#[test]
fn what_a_task_uploads_does_not_depend_on_the_others() {
    let mut alone = BlockCompressor::new(256, 256);
    add(&mut alone, bc7(), 64, 32, Some(4096), Some(Settings::BC7(BC7Settings::opaque_fast())));
    let alone = alone.compress();

    let mut among = BlockCompressor::new(256, 256);
    add(&mut among, CompressionVariant::BC1, 8, 8, None, None);
    add(&mut among, bc7(), 16, 16, Some(32), None);
    add(&mut among, bc6h(), 16, 16, Some(1024), None);
    add(&mut among, bc7(), 64, 32, Some(4096), Some(Settings::BC7(BC7Settings::opaque_fast())));
    add(&mut among, CompressionVariant::BC4, 4, 4, Some(8192), None);
    let among = among.compress();

    let at = among.dispatches[3].uniform_offset as usize;
    assert_eq!(at, 3 * 256);
    assert_eq!(&among.uploads.uniforms[at..at + 256], &alone.uploads.uniforms[..256]);
    let at = among.dispatches[3].setting_offset.unwrap() as usize;
    assert_eq!(at, 256);
    assert_eq!(&among.uploads.bc7_settings[at..at + 256], &alone.uploads.bc7_settings[..256]);
    assert_eq!(
        (among.dispatches[3].workgroups_x, among.dispatches[3].workgroups_y),
        (alone.dispatches[0].workgroups_x, alone.dispatches[0].workgroups_y)
    );
}

#[test]
fn buffers_grow_exactly_when_the_tasks_need_more() {
    let mut compressor = BlockCompressor::new(64, 32);
    for _ in 0..16 {
        add(&mut compressor, bc6h(), 4, 4, None, None);
    }
    let growth = compressor.update_buffer_sizes();
    assert!(growth.uniforms.is_none() && growth.bc6h_settings.is_none());
    assert!(growth.bc7_settings.is_none());
    assert_eq!(compressor.uniforms_capacity, 16 * 64);

    add(&mut compressor, bc7(), 4, 4, None, None);
    let growth = compressor.update_buffer_sizes();
    assert_eq!(growth.uniforms, Some(17 * 64));
    assert!(growth.bc6h_settings.is_none());
    assert!(growth.bc7_settings.is_none());
    assert_eq!(compressor.uniforms_capacity, 17 * 64);
    assert_eq!(compressor.bc6h_capacity, 16 * 32);

    add(&mut compressor, bc6h(), 4, 4, None, None);
    let submission = compressor.compress();
    assert_eq!(submission.growth.uniforms, Some(18 * 64));
    assert_eq!(submission.growth.bc6h_settings, Some(17 * 32));
    assert!(submission.growth.bc7_settings.is_none());
    assert_eq!(compressor.uniforms_capacity, 18 * 64);
    assert_eq!(compressor.bc6h_capacity, 17 * 32);
    assert_eq!(compressor.bc7_capacity, 16 * 96);
    assert_eq!(submission.dispatches[17].setting_offset, Some(16 * 32));
    assert_eq!(submission.dispatches[16].setting_offset, Some(0));

    for _ in 0..17 {
        add(&mut compressor, bc7(), 4, 4, None, None);
    }
    let submission = compressor.compress();
    assert!(submission.growth.uniforms.is_none());
    assert!(submission.growth.bc6h_settings.is_none());
    assert_eq!(submission.growth.bc7_settings, Some(17 * 96));
    assert_eq!(compressor.bc7_capacity, 17 * 96);

    let submission = compressor.compress();
    assert!(submission.dispatches.is_empty());
    assert!(submission.uploads.uniforms.is_empty());
    assert!(submission.growth.uniforms.is_none());
}

#[test]
fn bind_groups_are_made_anew_where_their_buffers_are() {
    // Sixteen tasks fit the buffers as they are: no bind group changes.
    let mut compressor = BlockCompressor::new(64, 32);
    for _ in 0..16 {
        add(&mut compressor, CompressionVariant::BC1, 4, 4, None, None);
    }
    let submission = compressor.compress();
    assert!(submission.dispatches.iter().all(|dispatch| !dispatch.rebind));

    // Eighteen tasks need more uniforms: every bind group names them.
    for _ in 0..18 {
        add(&mut compressor, CompressionVariant::BC3, 4, 4, None, None);
    }
    let submission = compressor.compress();
    assert_eq!(submission.growth.uniforms, Some(18 * 64));
    assert!(submission.dispatches.iter().all(|dispatch| dispatch.rebind));

    add(&mut compressor, CompressionVariant::BC1, 4, 4, None, None);
    add(&mut compressor, bc6h(), 4, 4, None, None);
    for _ in 0..17 {
        add(&mut compressor, bc7(), 4, 4, None, None);
    }
    let submission = compressor.compress();
    assert_eq!(submission.growth.uniforms, Some(19 * 64));
    assert!(submission.dispatches.iter().all(|dispatch| dispatch.rebind));

    add(&mut compressor, CompressionVariant::BC1, 4, 4, None, None);
    add(&mut compressor, bc6h(), 4, 4, None, None);
    for _ in 0..17 {
        add(&mut compressor, bc7(), 4, 4, None, None);
    }
    let submission = compressor.compress();
    assert!(submission.growth.uniforms.is_none());
    assert!(submission.growth.bc6h_settings.is_none());
    assert!(submission.growth.bc7_settings.is_none());
    assert!(submission.dispatches.iter().all(|dispatch| !dispatch.rebind));

    // Only the settings of BC7 grow: only the bind groups of BC7 change.
    let mut compressor = BlockCompressor::new(64, 32);
    for _ in 0..19 {
        add(&mut compressor, CompressionVariant::BC1, 4, 4, None, None);
    }
    let submission = compressor.compress();
    assert_eq!(submission.growth.uniforms, Some(19 * 64));
    add(&mut compressor, CompressionVariant::BC1, 4, 4, None, None);
    add(&mut compressor, bc6h(), 4, 4, None, None);
    for _ in 0..17 {
        add(&mut compressor, bc7(), 4, 4, None, None);
    }
    let submission = compressor.compress();
    assert!(submission.growth.uniforms.is_none());
    assert!(submission.growth.bc6h_settings.is_none());
    assert_eq!(submission.growth.bc7_settings, Some(17 * 96));
    assert!(!submission.dispatches[0].rebind);
    assert!(!submission.dispatches[1].rebind);
    assert!(submission.dispatches[2..].iter().all(|dispatch| dispatch.rebind));
}

#[test]
fn a_submission_holds_what_dynamic_offsets_reach() {
    // Records of two to the power 31 bytes: the second ends beyond 32 bits.
    let mut compressor = BlockCompressor::new(0x8000_0000, 32);
    assert_eq!(compressor.uniforms_aligned_size, 0x8000_0000);
    assert!(compressor.can_submit());
    add(&mut compressor, CompressionVariant::BC1, 4, 4, None, None);
    assert!(compressor.can_submit());
    add(&mut compressor, CompressionVariant::BC1, 4, 4, None, None);
    assert!(!compressor.can_submit());

    // The settings count by the tasks of their variant alone.
    let mut compressor = BlockCompressor::new(64, 0x4000_0000);
    add(&mut compressor, bc7(), 4, 4, None, None);
    add(&mut compressor, bc6h(), 4, 4, None, None);
    add(&mut compressor, bc7(), 4, 4, None, None);
    add(&mut compressor, bc6h(), 4, 4, None, None);
    for _ in 0..20 {
        add(&mut compressor, CompressionVariant::BC5, 4, 4, None, None);
    }
    add(&mut compressor, bc7(), 4, 4, None, None);
    add(&mut compressor, bc6h(), 4, 4, None, None);
    assert!(compressor.can_submit());
    add(&mut compressor, bc6h(), 4, 4, None, None);
    assert!(!compressor.can_submit());
}
