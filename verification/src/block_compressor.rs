//! The bookkeeping of the encoder on the graphics processor: the queue of
//! tasks, the packing of their uniforms and settings into buffers, and the
//! dispatches that a submission records.
use crate::encode::store::word_byte;
use crate::settings::{BC6HSettings, BC7Settings, Settings};
use crate::variant::{blocks_across, CompressionVariant};
use vstd::prelude::*;

verus! {

/// The number of bytes of the uniforms of a task.
pub const UNIFORMS_SIZE: usize = 12;

/// The number of bytes of the settings of BC6H.
pub const BC6H_SETTINGS_SIZE: usize = 20;

/// The number of bytes of the settings of BC7.
pub const BC7_SETTINGS_SIZE: usize = 76;

/// The number of records that each buffer has room for at first.
pub const INITIAL_SLOTS: usize = 16;

/// The least multiple of `alignment` that holds `size` bytes.
pub open spec fn aligned_size(size: int, alignment: int) -> int {
    ((size + alignment - 1) / alignment) * alignment
}

/// An aligned size is a multiple of the alignment, holds the size, and is the
/// least such multiple.
pub proof fn lemma_aligned_size(size: int, alignment: int)
    requires
        0 <= size,
        0 < alignment,
    ensures
        aligned_size(size, alignment) % alignment == 0,
        size <= aligned_size(size, alignment) < size + alignment,
{
    let q = (size + alignment - 1) / alignment;
    vstd::arithmetic::div_mod::lemma_fundamental_div_mod(size + alignment - 1, alignment);
    vstd::arithmetic::div_mod::lemma_mod_bound(size + alignment - 1, alignment);
    vstd::arithmetic::div_mod::lemma_mod_multiples_basic(q, alignment);
    assert(q * alignment == alignment * q) by (nonlinear_arith);
}

/// One queued job.
#[derive(Clone, Copy, Debug)]
pub struct Task {
    pub variant: CompressionVariant,
    pub width: u32,
    pub height: u32,
    /// Where the uniforms of the task lie in the buffer of uniforms.
    pub uniform_offset: u32,
    /// Where the settings of the task lie in the buffer of its variant.
    pub setting_offset: u32,
    /// Where the blocks of the task start in its destination.
    pub buffer_offset: u32,
    pub settings: Option<Settings>,
}

/// Why a task is refused.
#[derive(Copy, Clone, Debug, PartialEq, Eq, Structural)]
pub enum Misuse {
    /// The height is no multiple of four.
    HeightNotMultipleOfFour,
    /// The width is no multiple of four.
    WidthNotMultipleOfFour,
    /// The destination is no storage buffer.
    NotAStorageBuffer,
    /// The destination does not hold the blocks at the offset.
    BufferTooSmall,
    /// Settings of BC7 were given to BC6H.
    Bc7SettingsForBc6h,
    /// Settings of BC6H were given to BC7.
    Bc6hSettingsForBc7,
}

/// A binding of a bind group.
#[derive(Copy, Clone, Debug, PartialEq, Eq, Structural)]
pub enum Binding {
    /// The view of the source texture.
    SourceTexture,
    /// The whole destination buffer.
    Destination,
    /// One record of the buffer of uniforms, chosen by a dynamic offset.
    Uniforms { size: u64 },
    /// One record of the buffer of the settings of BC6H, chosen by a dynamic
    /// offset.
    Bc6hSettings { size: u64 },
    /// One record of the buffer of the settings of BC7, chosen by a dynamic
    /// offset.
    Bc7Settings { size: u64 },
}

/// A binding of a bind group layout.
#[derive(Copy, Clone, Debug, PartialEq, Eq, Structural)]
pub enum LayoutBinding {
    /// A two-dimensional texture that is sampled as filterable floats.
    FloatTexture,
    /// A storage buffer that is written.
    StorageBuffer,
    /// A uniform buffer with a dynamic offset.
    DynamicUniformBuffer,
    /// A storage buffer that is only read, with a dynamic offset and a least
    /// size.
    DynamicReadOnlyStorageBuffer { min_binding_size: u64 },
}

/// The shader modules: BC1 to BC5 share one.
#[derive(Copy, Clone, Debug, PartialEq, Eq, Structural)]
pub enum ShaderModule {
    Bc1To5,
    Bc6h,
    Bc7,
}

/// One dispatch of a submission.
pub struct Dispatch {
    /// The position of the task in the queue, which names its bind group.
    pub task: usize,
    /// The variant, which names the pipeline.
    pub variant: CompressionVariant,
    /// The offset of the uniforms of the task.
    pub uniform_offset: u32,
    /// The offset of the settings of the task, for BC6H and BC7.
    pub setting_offset: Option<u32>,
    pub workgroups_x: u32,
    pub workgroups_y: u32,
    /// Whether the bind group of the task has to be made anew before the
    /// dispatch: the submission has made a buffer anew that it names.
    pub rebind: bool,
}

/// The buffers that a submission has to make anew, each with its new size.
pub struct Growth {
    pub uniforms: Option<u64>,
    pub bc6h_settings: Option<u64>,
    pub bc7_settings: Option<u64>,
}

/// What a submission writes into the three buffers, from their start.
pub struct Uploads {
    pub bc6h_settings: Vec<u8>,
    pub bc7_settings: Vec<u8>,
    pub uniforms: Vec<u8>,
}

/// What a submission does: the buffers it makes anew, what it writes into
/// them, and its dispatches in order.
pub struct Submission {
    pub growth: Growth,
    pub uploads: Uploads,
    pub dispatches: Vec<Dispatch>,
}

/// What becomes of a buffer of `capacity` bytes of which `needed` bytes are
/// needed: it is made anew with exactly the bytes needed where it has fewer,
/// and kept else.
pub open spec fn grown(needed: int, capacity: int) -> Option<u64> {
    if needed > capacity {
        Some(needed as u64)
    } else {
        None
    }
}

/// Whether the bind group of a task of the variant with number `tag` names a
/// buffer that is made anew: that of the uniforms, which every bind group
/// names, or that of the settings of its variant.
pub open spec fn rebound(growth: Growth, tag: int) -> bool {
    growth.uniforms is Some || (tag == 6 && growth.bc6h_settings is Some) || (tag == 7
        && growth.bc7_settings is Some)
}

/// The queue of tasks and the sizes of the three buffers.
pub struct BlockCompressor {
    pub task: Vec<Task>,
    pub uniforms_capacity: usize,
    pub bc6h_capacity: usize,
    pub bc7_capacity: usize,
    pub uniforms_aligned_size: usize,
    pub bc6h_aligned_size: usize,
    pub bc7_aligned_size: usize,
}

/// The record of `words` in a slot of `stride` bytes: the bytes of the words,
/// little-endian, and zeros behind them.
pub open spec fn slot_bytes(words: Seq<u32>, stride: int) -> Seq<u8> {
    Seq::new(
        stride as nat,
        |o: int|
            if o < 4 * words.len() {
                word_byte(words[o / 4], o % 4)
            } else {
                0u8
            },
    )
}

/// The three words of the uniforms of a task.
pub open spec fn uniform_words(task: Task) -> Seq<u32> {
    seq![task.width, task.height, task.buffer_offset]
}

/// The words of the settings of a task, none where it has no settings.
pub open spec fn setting_words(task: Task) -> Seq<u32> {
    match task.settings {
        Some(Settings::BC6H(s)) => s.words(),
        Some(Settings::BC7(s)) => s.words(),
        None => Seq::empty(),
    }
}

/// The buffer of uniforms for the first `n` tasks: their records one after the
/// other.
pub open spec fn uniforms_upload(tasks: Seq<Task>, stride: int, n: nat) -> Seq<u8>
    decreases n,
{
    if n == 0 {
        Seq::empty()
    } else {
        uniforms_upload(tasks, stride, (n - 1) as nat) + slot_bytes(
            uniform_words(tasks[n - 1]),
            stride,
        )
    }
}

/// The number of tasks of the variant with number `tag` among the first `n`.
pub open spec fn count_of(tasks: Seq<Task>, tag: int, n: nat) -> nat
    decreases n,
{
    if n == 0 {
        0
    } else {
        count_of(tasks, tag, (n - 1) as nat) + (if tasks[n - 1].variant.tag() == tag {
            1nat
        } else {
            0nat
        })
    }
}

/// The buffer of settings of the variant with number `tag` for the first `n`
/// tasks: the records of the tasks of that variant one after the other.
pub open spec fn settings_upload(tasks: Seq<Task>, tag: int, stride: int, n: nat) -> Seq<u8>
    decreases n,
{
    if n == 0 {
        Seq::empty()
    } else if tasks[n - 1].variant.tag() == tag {
        settings_upload(tasks, tag, stride, (n - 1) as nat) + slot_bytes(
            setting_words(tasks[n - 1]),
            stride,
        )
    } else {
        settings_upload(tasks, tag, stride, (n - 1) as nat)
    }
}

/// The number of workgroups that cover `extent` pixels: one for eight blocks
/// of four pixels.
pub open spec fn workgroups(extent: int) -> int {
    (blocks_across(extent) + 7) / 8
}

/// Whether `queued` are the settings that a task is queued with: those
/// given, or the slowest preset where BC6H or BC7 is given none.
pub open spec fn settings_resolved(
    variant: CompressionVariant,
    given: Option<Settings>,
    queued: Option<Settings>,
) -> bool {
    if given is None && variant.tag() == 6 {
        queued == Some(
            Settings::BC6H(
                BC6HSettings {
                    slow_mode: true,
                    fast_mode: false,
                    refine_iterations_1p: 2,
                    refine_iterations_2p: 2,
                    fast_skip_threshold: 32,
                },
            ),
        )
    } else if given is None && variant.tag() == 7 {
        queued matches Some(Settings::BC7(s)) && BC7Settings::preset(
            4,
            seq![true, true, true, true],
            false,
            (64, 64, 64),
            0,
            4,
            seq![4, 4, 4, 4, 4, 4, 4, 4],
            s,
        )
    } else {
        queued == given
    }
}

/// Why a task is refused, if it is: the first of the rules that it breaks.
pub open spec fn misuse_of(
    variant: CompressionVariant,
    width: u32,
    height: u32,
    buffer_is_storage: bool,
    buffer_size: u64,
    offset: Option<u32>,
    settings: Option<Settings>,
) -> Option<Misuse> {
    let start: int = match offset {
        Some(o) => o as int,
        None => 0,
    };
    if variant.tag() == 6 && settings matches Some(Settings::BC7(_)) {
        Some(Misuse::Bc7SettingsForBc6h)
    } else if variant.tag() == 7 && settings matches Some(Settings::BC6H(_)) {
        Some(Misuse::Bc6hSettingsForBc7)
    } else if height % 4 != 0 {
        Some(Misuse::HeightNotMultipleOfFour)
    } else if width % 4 != 0 {
        Some(Misuse::WidthNotMultipleOfFour)
    } else if !buffer_is_storage {
        Some(Misuse::NotAStorageBuffer)
    } else if buffer_size < start + variant.image_bytes(width as int, height as int) {
        Some(Misuse::BufferTooSmall)
    } else {
        None
    }
}

/// Says why a task is refused, if it is.
pub fn check_task(
    variant: CompressionVariant,
    width: u32,
    height: u32,
    buffer_is_storage: bool,
    buffer_size: u64,
    offset: Option<u32>,
    settings: &Option<Settings>,
) -> (misuse: Option<Misuse>)
    ensures
        misuse == misuse_of(variant, width, height, buffer_is_storage, buffer_size, offset, *settings),
{
    let tag = variant.tag_number();
    let wrong_for_bc6h = match settings {
        Some(Settings::BC7(_)) => true,
        _ => false,
    };
    let wrong_for_bc7 = match settings {
        Some(Settings::BC6H(_)) => true,
        _ => false,
    };
    if tag == 6 && wrong_for_bc6h {
        return Some(Misuse::Bc7SettingsForBc6h);
    }
    if tag == 7 && wrong_for_bc7 {
        return Some(Misuse::Bc6hSettingsForBc7);
    }
    if height % 4 != 0 {
        return Some(Misuse::HeightNotMultipleOfFour);
    }
    if width % 4 != 0 {
        return Some(Misuse::WidthNotMultipleOfFour);
    }
    if !buffer_is_storage {
        return Some(Misuse::NotAStorageBuffer);
    }
    let start: u128 = match offset {
        Some(o) => o as u128,
        None => 0,
    };
    let across: u128 = (width / 4) as u128;
    let down: u128 = (height / 4) as u128;
    proof {
        assert(blocks_across(width as int) == width / 4);
        assert(blocks_across(height as int) == height / 4);
        assert(0 <= across * down <= 0x4000_0000 * 0x4000_0000) by (nonlinear_arith)
            requires
                0 <= across < 0x4000_0000,
                0 <= down < 0x4000_0000,
        ;
    }
    let blocks: u128 = across * down;
    let size = variant.block_byte_size() as u128;
    proof {
        assert(0 <= blocks * size <= 0x4000_0000 * 0x4000_0000 * 16) by (nonlinear_arith)
            requires
                0 <= blocks <= 0x4000_0000 * 0x4000_0000,
                0 <= size <= 16,
        ;
    }
    let needed: u128 = start + blocks * size;
    if (buffer_size as u128) < needed {
        return Some(Misuse::BufferTooSmall);
    }
    None
}

/// The shader module that holds the entry point of a variant.
pub fn shader_module_of(variant: CompressionVariant) -> (module: ShaderModule)
    ensures
        module == (if variant.tag() <= 5 {
            ShaderModule::Bc1To5
        } else if variant.tag() == 6 {
            ShaderModule::Bc6h
        } else {
            ShaderModule::Bc7
        }),
{
    match variant {
        CompressionVariant::BC6H(_) => ShaderModule::Bc6h,
        CompressionVariant::BC7(_) => ShaderModule::Bc7,
        _ => ShaderModule::Bc1To5,
    }
}

/// The bindings of the bind group layout of a variant: the source texture,
/// the destination, the uniforms, and for BC6H and BC7 their settings.
pub open spec fn layout_of(variant: CompressionVariant) -> Seq<LayoutBinding> {
    let common = seq![
        LayoutBinding::FloatTexture,
        LayoutBinding::StorageBuffer,
        LayoutBinding::DynamicUniformBuffer,
    ];
    if variant.tag() == 6 {
        common.push(LayoutBinding::DynamicReadOnlyStorageBuffer { min_binding_size: 20 })
    } else if variant.tag() == 7 {
        common.push(LayoutBinding::DynamicReadOnlyStorageBuffer { min_binding_size: 76 })
    } else {
        common
    }
}

/// The bindings of the bind group layout of a variant, binding 0 first.
pub fn create_pipeline(variant: CompressionVariant) -> (layout: Vec<LayoutBinding>)
    ensures
        layout@ == layout_of(variant),
{
    let mut layout: Vec<LayoutBinding> = Vec::new();
    layout.push(LayoutBinding::FloatTexture);
    layout.push(LayoutBinding::StorageBuffer);
    layout.push(LayoutBinding::DynamicUniformBuffer);
    let tag = variant.tag_number();
    if tag == 6 {
        layout.push(
            LayoutBinding::DynamicReadOnlyStorageBuffer {
                min_binding_size: BC6H_SETTINGS_SIZE as u64,
            },
        );
    } else if tag == 7 {
        layout.push(
            LayoutBinding::DynamicReadOnlyStorageBuffer {
                min_binding_size: BC7_SETTINGS_SIZE as u64,
            },
        );
    }
    assert(layout@ =~= layout_of(variant));
    layout
}

/// Rounds `size` up to a multiple of `alignment`.
fn align_up(size: usize, alignment: usize) -> (aligned: usize)
    requires
        0 < alignment,
        size <= 76,
        alignment <= u32::MAX,
        aligned_size(size as int, alignment as int) <= usize::MAX,
    ensures
        aligned == aligned_size(size as int, alignment as int),
        size <= aligned,
        aligned <= size + alignment,
{
    proof {
        lemma_aligned_size(size as int, alignment as int);
    }
    let count = size / alignment + (if size % alignment == 0 {
        0
    } else {
        1
    });
    proof {
        let q = size as int / alignment as int;
        let r = size as int % alignment as int;
        vstd::arithmetic::div_mod::lemma_fundamental_div_mod(size as int, alignment as int);
        vstd::arithmetic::div_mod::lemma_mod_bound(size as int, alignment as int);
        if r == 0 {
            assert(size + alignment - 1 == q * alignment + (alignment - 1)) by (nonlinear_arith)
                requires
                    size == alignment * q + r,
                    r == 0,
            ;
            vstd::arithmetic::div_mod::lemma_fundamental_div_mod_converse(
                size + alignment - 1,
                alignment as int,
                q,
                alignment - 1,
            );
        } else {
            assert(size + alignment - 1 == (q + 1) * alignment + (r - 1)) by (nonlinear_arith)
                requires
                    size == alignment * q + r,
            ;
            vstd::arithmetic::div_mod::lemma_fundamental_div_mod_converse(
                size + alignment - 1,
                alignment as int,
                q + 1,
                r - 1,
            );
        }
        assert(count == (size + alignment - 1) / (alignment as int));
        assert(aligned_size(size as int, alignment as int) == count * alignment);
    }
    count * alignment
}

/// The number of records of a buffer of settings grows with the number of
/// tasks, by at most one for each task.
pub proof fn lemma_count_of_bound(tasks: Seq<Task>, tag: int, i: nat, n: nat)
    requires
        i <= n,
    ensures
        count_of(tasks, tag, i) <= count_of(tasks, tag, n),
        count_of(tasks, tag, n) <= n,
    decreases n,
{
    if n > 0 {
        if i < n {
            lemma_count_of_bound(tasks, tag, i, (n - 1) as nat);
        } else {
            lemma_count_of_bound(tasks, tag, (n - 1) as nat, (n - 1) as nat);
        }
    }
}

/// The uniforms of the tasks fill one slot each: the buffer for `n` tasks has
/// `n` slots, and slot `i` holds the record of task `i`.
pub proof fn lemma_uniforms_upload(tasks: Seq<Task>, stride: int, n: nat, i: int)
    requires
        0 <= stride,
        0 <= i < n,
    ensures
        uniforms_upload(tasks, stride, n).len() == n * stride,
        uniforms_upload(tasks, stride, n).subrange(i * stride, i * stride + stride) == slot_bytes(
            uniform_words(tasks[i]),
            stride,
        ),
    decreases n,
{
    let prev = uniforms_upload(tasks, stride, (n - 1) as nat);
    lemma_uniforms_upload_len(tasks, stride, (n - 1) as nat);
    assert(n * stride == (n - 1) * stride + stride) by (nonlinear_arith);
    assert(0 <= i * stride && i * stride + stride <= n * stride) by (nonlinear_arith)
        requires
            0 <= i < n,
            0 <= stride,
    ;
    if i < n - 1 {
        lemma_uniforms_upload(tasks, stride, (n - 1) as nat, i);
        assert(i * stride + stride <= (n - 1) * stride) by (nonlinear_arith)
            requires
                i < n - 1,
                0 <= stride,
        ;
        assert(uniforms_upload(tasks, stride, n).subrange(i * stride, i * stride + stride)
            =~= prev.subrange(i * stride, i * stride + stride));
    } else {
        assert(uniforms_upload(tasks, stride, n).subrange(i * stride, i * stride + stride)
            =~= slot_bytes(uniform_words(tasks[i]), stride));
    }
}

/// The buffer of uniforms for `n` tasks has `n` slots.
pub proof fn lemma_uniforms_upload_len(tasks: Seq<Task>, stride: int, n: nat)
    requires
        0 <= stride,
    ensures
        uniforms_upload(tasks, stride, n).len() == n * stride,
    decreases n,
{
    if n > 0 {
        lemma_uniforms_upload_len(tasks, stride, (n - 1) as nat);
        assert(n * stride == (n - 1) * stride + stride) by (nonlinear_arith);
    } else {
        assert(0 * stride == 0);
    }
}

/// The buffer of the settings of a variant has one slot for each task of
/// that variant.
pub proof fn lemma_settings_upload_len(tasks: Seq<Task>, tag: int, stride: int, n: nat)
    requires
        0 <= stride,
    ensures
        settings_upload(tasks, tag, stride, n).len() == count_of(tasks, tag, n) * stride,
    decreases n,
{
    if n > 0 {
        lemma_settings_upload_len(tasks, tag, stride, (n - 1) as nat);
        let c = count_of(tasks, tag, (n - 1) as nat);
        assert((c + 1) * stride == c * stride + stride) by (nonlinear_arith);
    } else {
        assert(0 * stride == 0);
    }
}

/// The settings of a task of a variant lie in the buffer of that variant at
/// the offset of the task: as many slots in as there are tasks of the
/// variant before it.
pub proof fn lemma_settings_upload(tasks: Seq<Task>, tag: int, stride: int, n: nat, i: int)
    requires
        0 <= stride,
        0 <= i < n,
        tasks[i].variant.tag() == tag,
    ensures
        count_of(tasks, tag, i as nat) < count_of(tasks, tag, n),
        settings_upload(tasks, tag, stride, n).subrange(
            count_of(tasks, tag, i as nat) * stride,
            count_of(tasks, tag, i as nat) * stride + stride,
        ) == slot_bytes(setting_words(tasks[i]), stride),
    decreases n,
{
    let prev = settings_upload(tasks, tag, stride, (n - 1) as nat);
    let at = count_of(tasks, tag, i as nat);
    lemma_settings_upload_len(tasks, tag, stride, (n - 1) as nat);
    lemma_settings_upload_len(tasks, tag, stride, n);
    lemma_count_of_bound(tasks, tag, i as nat, (n - 1) as nat);
    assert(0 <= at * stride) by (nonlinear_arith)
        requires
            0 <= at,
            0 <= stride,
    ;
    if i < n - 1 {
        lemma_settings_upload(tasks, tag, stride, (n - 1) as nat, i);
        let c = count_of(tasks, tag, (n - 1) as nat);
        assert(at * stride + stride <= c * stride) by (nonlinear_arith)
            requires
                at < c,
                0 <= stride,
        ;
        assert(settings_upload(tasks, tag, stride, n).subrange(at * stride, at * stride + stride)
            =~= prev.subrange(at * stride, at * stride + stride));
    } else {
        assert(settings_upload(tasks, tag, stride, n).subrange(at * stride, at * stride + stride)
            =~= slot_bytes(setting_words(tasks[i]), stride));
    }
}

/// What a dispatch reads of its task does not depend on the other tasks of
/// the submission: two tasks of the same width, height and offset have the
/// same record of uniforms, wherever they stand in their queues.
pub proof fn lemma_uniforms_independent(
    tasks1: Seq<Task>,
    n1: nat,
    i: int,
    tasks2: Seq<Task>,
    n2: nat,
    j: int,
    stride: int,
)
    requires
        0 <= stride,
        0 <= i < n1,
        0 <= j < n2,
        tasks1[i].width == tasks2[j].width,
        tasks1[i].height == tasks2[j].height,
        tasks1[i].buffer_offset == tasks2[j].buffer_offset,
    ensures
        uniforms_upload(tasks1, stride, n1).subrange(i * stride, i * stride + stride)
            == uniforms_upload(tasks2, stride, n2).subrange(j * stride, j * stride + stride),
{
    lemma_uniforms_upload(tasks1, stride, n1, i);
    lemma_uniforms_upload(tasks2, stride, n2, j);
    assert(uniform_words(tasks1[i]) =~= uniform_words(tasks2[j]));
}

/// Appends the record of `words` in a slot of `stride` bytes.
fn push_slot(scratch: &mut Vec<u8>, words: &Vec<u32>, stride: usize)
    requires
        4 * words@.len() <= stride,
    ensures
        final(scratch)@ == old(scratch)@ + slot_bytes(words@, stride as int),
{
    let ghost slot = slot_bytes(words@, stride as int);
    let mut o: usize = 0;
    while o < stride
        invariant
            o <= stride,
            4 * words@.len() <= stride,
            slot == slot_bytes(words@, stride as int),
            scratch@ == old(scratch)@ + slot.take(o as int),
        decreases stride - o,
    {
        let byte: u8 = if o / 4 < words.len() {
            let w = words[o / 4];
            let b = o % 4;
            proof {
                crate::bits::lemma_word_bytes(w as nat);
            }
            if b == 0 {
                (w % 256) as u8
            } else if b == 1 {
                ((w / 256) % 256) as u8
            } else if b == 2 {
                ((w / 65536) % 256) as u8
            } else {
                (w / 0x100_0000) as u8
            }
        } else {
            0
        };
        assert(byte == slot[o as int]);
        scratch.push(byte);
        assert(scratch@ =~= old(scratch)@ + slot.take((o + 1) as int));
        o = o + 1;
    }
    assert(slot.take(stride as int) =~= slot);
}

/// The number of workgroups that cover `extent` pixels.
fn workgroups_for(extent: u32) -> (count: u32)
    ensures
        count == workgroups(extent as int),
{
    let blocks = extent / 4 + (if extent % 4 == 0 {
        0
    } else {
        1
    });
    (blocks + 7) / 8
}

impl BlockCompressor {
    /// Whether the state is sound: the strides hold their records, and every
    /// task has the settings of its variant.
    pub open spec fn wf(&self) -> bool {
        &&& 12 <= self.uniforms_aligned_size
        &&& 20 <= self.bc6h_aligned_size
        &&& 76 <= self.bc7_aligned_size
        &&& forall|i: int|
            0 <= i < self.task@.len() ==> ((#[trigger] self.task@[i]).variant.tag() == 6
                ==> self.task@[i].settings matches Some(Settings::BC6H(_))) && (
            self.task@[i].variant.tag() == 7 ==> self.task@[i].settings matches Some(
                Settings::BC7(_),
            ))
    }

    /// A scheduler for a device with the given least alignments of the
    /// offsets of uniform and of storage buffers. Each of the three buffers
    /// has room for sixteen records.
    pub fn new(
        min_uniform_buffer_offset_alignment: u32,
        min_storage_buffer_offset_alignment: u32,
    ) -> (compressor: Self)
        requires
            0 < min_uniform_buffer_offset_alignment,
            0 < min_storage_buffer_offset_alignment,
            16 * (aligned_size(12, min_uniform_buffer_offset_alignment as int)) <= usize::MAX,
            16 * (aligned_size(76, min_storage_buffer_offset_alignment as int)) <= usize::MAX,
        ensures
            compressor.wf(),
            compressor.task@.len() == 0,
            compressor.uniforms_aligned_size == aligned_size(
                12,
                min_uniform_buffer_offset_alignment as int,
            ),
            compressor.bc6h_aligned_size == aligned_size(
                20,
                min_storage_buffer_offset_alignment as int,
            ),
            compressor.bc7_aligned_size == aligned_size(
                76,
                min_storage_buffer_offset_alignment as int,
            ),
            compressor.uniforms_capacity == 16 * compressor.uniforms_aligned_size,
            compressor.bc6h_capacity == 16 * compressor.bc6h_aligned_size,
            compressor.bc7_capacity == 16 * compressor.bc7_aligned_size,
    {
        proof {
            let a = min_storage_buffer_offset_alignment as int;
            lemma_aligned_size(12, min_uniform_buffer_offset_alignment as int);
            lemma_aligned_size(20, a);
            lemma_aligned_size(76, a);
            assert(aligned_size(20, a) <= aligned_size(76, a)) by {
                vstd::arithmetic::div_mod::lemma_div_is_ordered(20 + a - 1, 76 + a - 1, a);
                assert(((20 + a - 1) / a) * a <= ((76 + a - 1) / a) * a) by (nonlinear_arith)
                    requires
                        (20 + a - 1) / a <= (76 + a - 1) / a,
                        a > 0,
                ;
            }
        }
        let uniforms_aligned_size = align_up(
            UNIFORMS_SIZE,
            min_uniform_buffer_offset_alignment as usize,
        );
        let bc6h_aligned_size = align_up(
            BC6H_SETTINGS_SIZE,
            min_storage_buffer_offset_alignment as usize,
        );
        let bc7_aligned_size = align_up(
            BC7_SETTINGS_SIZE,
            min_storage_buffer_offset_alignment as usize,
        );
        Self {
            task: Vec::new(),
            uniforms_capacity: uniforms_aligned_size * INITIAL_SLOTS,
            bc6h_capacity: bc6h_aligned_size * INITIAL_SLOTS,
            bc7_capacity: bc7_aligned_size * INITIAL_SLOTS,
            uniforms_aligned_size,
            bc6h_aligned_size,
            bc7_aligned_size,
        }
    }

    /// The bind group of a task of `variant`: the source texture, the whole
    /// destination, one record of the uniforms, and for BC6H and BC7 one
    /// record of their settings.
    pub open spec fn bindings_of(&self, variant: CompressionVariant) -> Seq<Binding> {
        let common = seq![
            Binding::SourceTexture,
            Binding::Destination,
            Binding::Uniforms { size: self.uniforms_aligned_size as u64 },
        ];
        if variant.tag() == 6 {
            common.push(Binding::Bc6hSettings { size: self.bc6h_aligned_size as u64 })
        } else if variant.tag() == 7 {
            common.push(Binding::Bc7Settings { size: self.bc7_aligned_size as u64 })
        } else {
            common
        }
    }

    /// Adds a task to the queue and hands out the bindings of its bind
    /// group, binding 0 first. BC6H and BC7 get the slowest preset where no
    /// settings are given.
    pub fn add_compression_task(
        &mut self,
        variant: CompressionVariant,
        width: u32,
        height: u32,
        buffer_is_storage: bool,
        buffer_size: u64,
        offset: Option<u32>,
        settings: Option<Settings>,
    ) -> (bindings: Vec<Binding>)
        requires
            old(self).wf(),
            misuse_of(variant, width, height, buffer_is_storage, buffer_size, offset, settings)
                is None,
        ensures
            final(self).wf(),
            final(self).task@.len() == old(self).task@.len() + 1,
            forall|i: int|
                0 <= i < old(self).task@.len() ==> final(self).task@[i] == old(self).task@[i],
            final(self).task@.last().variant == variant,
            final(self).task@.last().width == width,
            final(self).task@.last().height == height,
            final(self).task@.last().uniform_offset == 0,
            final(self).task@.last().setting_offset == 0,
            final(self).task@.last().buffer_offset == (match offset {
                Some(o) => o,
                None => 0u32,
            }),
            settings_resolved(variant, settings, final(self).task@.last().settings),
            final(self).uniforms_capacity == old(self).uniforms_capacity,
            final(self).bc6h_capacity == old(self).bc6h_capacity,
            final(self).bc7_capacity == old(self).bc7_capacity,
            final(self).uniforms_aligned_size == old(self).uniforms_aligned_size,
            final(self).bc6h_aligned_size == old(self).bc6h_aligned_size,
            final(self).bc7_aligned_size == old(self).bc7_aligned_size,
            bindings@ == old(self).bindings_of(variant),
    {
        let tag = variant.tag_number();
        let resolved = match settings {
            Some(s) => Some(s),
            None => {
                if tag == 6 {
                    Some(Settings::BC6H(BC6HSettings::very_slow()))
                } else if tag == 7 {
                    let slow = BC7Settings::alpha_slow();
                    Some(Settings::BC7(slow))
                } else {
                    None
                }
            },
        };
        self.add_task(variant, width, height, offset, resolved)
    }

    /// Adds a task with its settings to the queue.
    fn add_task(
        &mut self,
        variant: CompressionVariant,
        width: u32,
        height: u32,
        offset: Option<u32>,
        settings: Option<Settings>,
    ) -> (bindings: Vec<Binding>)
        requires
            old(self).wf(),
            variant.tag() == 6 ==> settings matches Some(Settings::BC6H(_)),
            variant.tag() == 7 ==> settings matches Some(Settings::BC7(_)),
        ensures
            final(self).wf(),
            final(self).task@ == old(self).task@.push(
                Task {
                    variant,
                    width,
                    height,
                    uniform_offset: 0,
                    setting_offset: 0,
                    buffer_offset: (match offset {
                        Some(o) => o,
                        None => 0u32,
                    }),
                    settings,
                },
            ),
            final(self).uniforms_capacity == old(self).uniforms_capacity,
            final(self).bc6h_capacity == old(self).bc6h_capacity,
            final(self).bc7_capacity == old(self).bc7_capacity,
            final(self).uniforms_aligned_size == old(self).uniforms_aligned_size,
            final(self).bc6h_aligned_size == old(self).bc6h_aligned_size,
            final(self).bc7_aligned_size == old(self).bc7_aligned_size,
            bindings@ == old(self).bindings_of(variant),
    {
        let tag = variant.tag_number();
        let mut bindings: Vec<Binding> = Vec::new();
        bindings.push(Binding::SourceTexture);
        bindings.push(Binding::Destination);
        bindings.push(Binding::Uniforms { size: self.uniforms_aligned_size as u64 });
        if tag == 6 {
            bindings.push(Binding::Bc6hSettings { size: self.bc6h_aligned_size as u64 });
        } else if tag == 7 {
            bindings.push(Binding::Bc7Settings { size: self.bc7_aligned_size as u64 });
        }
        assert(bindings@ =~= self.bindings_of(variant));
        let buffer_offset = match offset {
            Some(o) => o,
            None => 0,
        };
        self.task.push(
            Task {
                variant,
                width,
                height,
                uniform_offset: 0,
                setting_offset: 0,
                buffer_offset,
                settings,
            },
        );
        bindings
    }

    /// The number of bytes that the uniforms of the queued tasks take.
    pub open spec fn uniforms_needed(&self) -> int {
        self.uniforms_aligned_size * self.task@.len()
    }

    /// The number of bytes that the settings of the queued tasks of BC6H
    /// take.
    pub open spec fn bc6h_needed(&self) -> int {
        self.bc6h_aligned_size * count_of(self.task@, 6, self.task@.len())
    }

    /// The number of bytes that the settings of the queued tasks of BC7
    /// take.
    pub open spec fn bc7_needed(&self) -> int {
        self.bc7_aligned_size * count_of(self.task@, 7, self.task@.len())
    }

    /// Whether the offset of every record of the queued tasks fits the 32
    /// bits of a dynamic offset: the records of each buffer, taken together,
    /// end below two to the power 32.
    pub open spec fn fits(&self) -> bool {
        &&& self.uniforms_needed() <= u32::MAX
        &&& self.bc6h_needed() <= u32::MAX
        &&& self.bc7_needed() <= u32::MAX
    }

    /// Whether the bytes that the records of the queued tasks take can be
    /// counted on this machine.
    pub open spec fn countable(&self) -> bool {
        &&& self.uniforms_needed() <= usize::MAX
        &&& self.bc6h_needed() <= usize::MAX
        &&& self.bc7_needed() <= usize::MAX
    }

    /// Says whether the queued tasks fit one submission.
    pub fn can_submit(&self) -> (fits: bool)
        ensures
            fits == self.fits(),
    {
        let limit: u128 = 0xFFFF_FFFF;
        let n = self.task.len() as u128;
        let n6 = self.count_variant(6) as u128;
        let n7 = self.count_variant(7) as u128;
        let a = self.uniforms_aligned_size as u128;
        let b = self.bc6h_aligned_size as u128;
        let c = self.bc7_aligned_size as u128;
        proof {
            assert(0 <= a * n <= 0xFFFF_FFFF_FFFF_FFFF * 0xFFFF_FFFF_FFFF_FFFF && 0 <= b * n6
                <= 0xFFFF_FFFF_FFFF_FFFF * 0xFFFF_FFFF_FFFF_FFFF && 0 <= c * n7
                <= 0xFFFF_FFFF_FFFF_FFFF * 0xFFFF_FFFF_FFFF_FFFF) by (nonlinear_arith)
                requires
                    0 <= n <= 0xFFFF_FFFF_FFFF_FFFF,
                    0 <= n6 <= 0xFFFF_FFFF_FFFF_FFFF,
                    0 <= n7 <= 0xFFFF_FFFF_FFFF_FFFF,
                    0 <= a <= 0xFFFF_FFFF_FFFF_FFFF,
                    0 <= b <= 0xFFFF_FFFF_FFFF_FFFF,
                    0 <= c <= 0xFFFF_FFFF_FFFF_FFFF,
            ;
        }
        a * n <= limit && b * n6 <= limit && c * n7 <= limit
    }

    /// Counts the queued tasks of the variant with number `tag`.
    fn count_variant(&self, tag: u8) -> (count: usize)
        ensures
            count == count_of(self.task@, tag as int, self.task@.len()),
    {
        let mut count: usize = 0;
        let mut i: usize = 0;
        while i < self.task.len()
            invariant
                i <= self.task@.len(),
                count == count_of(self.task@, tag as int, i as nat),
                count <= i,
            decreases self.task@.len() - i,
        {
            if self.task[i].variant.tag_number() == tag {
                count = count + 1;
            }
            i = i + 1;
        }
        count
    }

    /// Makes each of the three buffers as large as the queued tasks need it,
    /// where it is smaller: a buffer is made anew exactly when the records of
    /// the queued tasks take more bytes than it has.
    pub fn update_buffer_sizes(&mut self) -> (growth: Growth)
        requires
            old(self).wf(),
            old(self).countable(),
        ensures
            final(self).wf(),
            final(self).task@ == old(self).task@,
            final(self).uniforms_aligned_size == old(self).uniforms_aligned_size,
            final(self).bc6h_aligned_size == old(self).bc6h_aligned_size,
            final(self).bc7_aligned_size == old(self).bc7_aligned_size,
            growth.uniforms == grown(old(self).uniforms_needed(), old(self).uniforms_capacity as int),
            growth.bc6h_settings == grown(old(self).bc6h_needed(), old(self).bc6h_capacity as int),
            growth.bc7_settings == grown(old(self).bc7_needed(), old(self).bc7_capacity as int),
            final(self).uniforms_capacity == (if old(self).uniforms_needed() > old(self).uniforms_capacity {
                old(self).uniforms_needed()
            } else {
                old(self).uniforms_capacity as int
            }),
            final(self).bc6h_capacity == (if old(self).bc6h_needed() > old(self).bc6h_capacity {
                old(self).bc6h_needed()
            } else {
                old(self).bc6h_capacity as int
            }),
            final(self).bc7_capacity == (if old(self).bc7_needed() > old(self).bc7_capacity {
                old(self).bc7_needed()
            } else {
                old(self).bc7_capacity as int
            }),
    {
        let count = self.task.len();
        let bc6h_count = self.count_variant(6);
        let bc7_count = self.count_variant(7);
        proof {
            let a = self.uniforms_aligned_size as int;
            let b = self.bc6h_aligned_size as int;
            let c = self.bc7_aligned_size as int;
            assert(0 <= b * bc6h_count && 0 <= c * bc7_count && 0 <= a * count)
                by (nonlinear_arith)
                requires
                    0 <= bc6h_count,
                    0 <= bc7_count,
                    0 <= count,
                    0 <= a,
                    0 <= b,
                    0 <= c,
            ;
        }
        let mut growth = Growth { uniforms: None, bc6h_settings: None, bc7_settings: None };
        let total_uniforms_size = self.uniforms_aligned_size * count;
        if total_uniforms_size > self.uniforms_capacity {
            self.uniforms_capacity = total_uniforms_size;
            growth.uniforms = Some(total_uniforms_size as u64);
        }
        let total_bc6h_size = self.bc6h_aligned_size * bc6h_count;
        if total_bc6h_size > self.bc6h_capacity {
            self.bc6h_capacity = total_bc6h_size;
            growth.bc6h_settings = Some(total_bc6h_size as u64);
        }
        let total_bc7_size = self.bc7_aligned_size * bc7_count;
        if total_bc7_size > self.bc7_capacity {
            self.bc7_capacity = total_bc7_size;
            growth.bc7_settings = Some(total_bc7_size as u64);
        }
        growth
    }

    /// Whether `after` are the tasks `before` with their offsets set: the
    /// uniforms of task `i` lie `i` slots into their buffer, and the
    /// settings of a task of BC6H or BC7 as many slots into the buffer of
    /// its variant as there are tasks of that variant before it.
    pub open spec fn offsets_set(&self, before: Seq<Task>, after: Seq<Task>) -> bool {
        &&& after.len() == before.len()
        &&& forall|i: int|
            0 <= i < before.len() ==> {
                &&& (#[trigger] after[i]).variant == before[i].variant
                &&& after[i].width == before[i].width
                &&& after[i].height == before[i].height
                &&& after[i].buffer_offset == before[i].buffer_offset
                &&& after[i].settings == before[i].settings
                &&& after[i].uniform_offset == i * self.uniforms_aligned_size
                &&& after[i].setting_offset == (if before[i].variant.tag() == 6 {
                    count_of(before, 6, i as nat) * self.bc6h_aligned_size
                } else if before[i].variant.tag() == 7 {
                    count_of(before, 7, i as nat) * self.bc7_aligned_size
                } else {
                    before[i].setting_offset as int
                })
            }
    }

    /// Packs the settings and the uniforms of the queued tasks, one slot
    /// each, and sets the offsets of the tasks.
    pub fn upload(&mut self) -> (uploads: Uploads)
        requires
            old(self).wf(),
            old(self).fits(),
        ensures
            final(self).wf(),
            final(self).offsets_set(old(self).task@, final(self).task@),
            final(self).uniforms_capacity == old(self).uniforms_capacity,
            final(self).bc6h_capacity == old(self).bc6h_capacity,
            final(self).bc7_capacity == old(self).bc7_capacity,
            final(self).uniforms_aligned_size == old(self).uniforms_aligned_size,
            final(self).bc6h_aligned_size == old(self).bc6h_aligned_size,
            final(self).bc7_aligned_size == old(self).bc7_aligned_size,
            uploads.uniforms@ == uniforms_upload(
                old(self).task@,
                old(self).uniforms_aligned_size as int,
                old(self).task@.len(),
            ),
            uploads.bc6h_settings@ == settings_upload(
                old(self).task@,
                6,
                old(self).bc6h_aligned_size as int,
                old(self).task@.len(),
            ),
            uploads.bc7_settings@ == settings_upload(
                old(self).task@,
                7,
                old(self).bc7_aligned_size as int,
                old(self).task@.len(),
            ),
    {
        let count = self.task.len();
        let ghost before = self.task@;
        let mut tasks: Vec<Task> = Vec::new();
        let mut uniforms: Vec<u8> = Vec::new();
        let mut bc6h_settings: Vec<u8> = Vec::new();
        let mut bc7_settings: Vec<u8> = Vec::new();
        let mut bc6h_index: usize = 0;
        let mut bc7_index: usize = 0;
        let mut i: usize = 0;
        while i < count
            invariant
                self.wf(),
                self.fits(),
                self.task@ == before,
                count == before.len(),
                i <= count,
                bc6h_index == count_of(before, 6, i as nat),
                bc7_index == count_of(before, 7, i as nat),
                bc6h_index <= i,
                bc7_index <= i,
                tasks@.len() == i,
                self.offsets_set(before.take(i as int), tasks@),
                uniforms@ == uniforms_upload(before, self.uniforms_aligned_size as int, i as nat),
                bc6h_settings@ == settings_upload(before, 6, self.bc6h_aligned_size as int, i as nat),
                bc7_settings@ == settings_upload(before, 7, self.bc7_aligned_size as int, i as nat),
            decreases count - i,
        {
            let task = self.task[i];
            let tag = task.variant.tag_number();
            proof {
                let a = self.uniforms_aligned_size as int;
                let b = self.bc6h_aligned_size as int;
                let c = self.bc7_aligned_size as int;
                let all6 = count_of(before, 6, count as nat);
                let all7 = count_of(before, 7, count as nat);
                lemma_count_of_bound(before, 6, i as nat, count as nat);
                lemma_count_of_bound(before, 7, i as nat, count as nat);
                lemma_count_of_bound(before, 6, (i + 1) as nat, count as nat);
                lemma_count_of_bound(before, 7, (i + 1) as nat, count as nat);
                assert(0 <= i * a <= a * count && 0 <= bc6h_index * b <= b * all6 && 0
                    <= bc7_index * c <= c * all7) by (nonlinear_arith)
                    requires
                        0 <= i < count,
                        0 <= bc6h_index <= all6,
                        0 <= bc7_index <= all7,
                        0 <= a,
                        0 <= b,
                        0 <= c,
                ;
            }
            let mut setting_offset = task.setting_offset;
            if tag == 6 {
                setting_offset = (bc6h_index * self.bc6h_aligned_size) as u32;
                match task.settings {
                    Some(Settings::BC6H(settings)) => {
                        let words = settings.to_words();
                        push_slot(&mut bc6h_settings, &words, self.bc6h_aligned_size);
                    },
                    _ => {
                        assert(false);
                    },
                }
                bc6h_index = bc6h_index + 1;
            } else if tag == 7 {
                setting_offset = (bc7_index * self.bc7_aligned_size) as u32;
                match task.settings {
                    Some(Settings::BC7(settings)) => {
                        let words = settings.to_words();
                        push_slot(&mut bc7_settings, &words, self.bc7_aligned_size);
                    },
                    _ => {
                        assert(false);
                    },
                }
                bc7_index = bc7_index + 1;
            }
            let mut words: Vec<u32> = Vec::new();
            words.push(task.width);
            words.push(task.height);
            words.push(task.buffer_offset);
            assert(words@ =~= uniform_words(task));
            push_slot(&mut uniforms, &words, self.uniforms_aligned_size);
            let ghost done = tasks@;
            tasks.push(
                Task {
                    variant: task.variant,
                    width: task.width,
                    height: task.height,
                    uniform_offset: (i * self.uniforms_aligned_size) as u32,
                    setting_offset,
                    buffer_offset: task.buffer_offset,
                    settings: task.settings,
                },
            );
            proof {
                let next = before.take((i + 1) as int);
                assert forall|j: int| 0 <= j < next.len() implies {
                    &&& (#[trigger] tasks@[j]).variant == next[j].variant
                    &&& tasks@[j].width == next[j].width
                    &&& tasks@[j].height == next[j].height
                    &&& tasks@[j].buffer_offset == next[j].buffer_offset
                    &&& tasks@[j].settings == next[j].settings
                    &&& tasks@[j].uniform_offset == j * self.uniforms_aligned_size
                    &&& tasks@[j].setting_offset == (if next[j].variant.tag() == 6 {
                        count_of(next, 6, j as nat) * self.bc6h_aligned_size
                    } else if next[j].variant.tag() == 7 {
                        count_of(next, 7, j as nat) * self.bc7_aligned_size
                    } else {
                        next[j].setting_offset as int
                    })
                } by {
                    lemma_count_of_prefix(before, next, 6, j as nat);
                    lemma_count_of_prefix(before, next, 7, j as nat);
                    if j < i {
                        let prev = before.take(i as int);
                        assert(tasks@[j] == done[j]);
                        assert(prev[j] == next[j]);
                        lemma_count_of_prefix(before, prev, 6, j as nat);
                        lemma_count_of_prefix(before, prev, 7, j as nat);
                    }
                }
            }
            i = i + 1;
        }
        proof {
            assert(before.take(count as int) =~= before);
        }
        self.task = tasks;
        Uploads { bc6h_settings, bc7_settings, uniforms }
    }

    /// The dispatch of the task at place `i` of the queue `tasks` in a
    /// submission that makes the buffers of `growth` anew.
    pub open spec fn dispatch_of(tasks: Seq<Task>, growth: Growth, i: int) -> Dispatch {
        Dispatch {
            task: i as usize,
            variant: tasks[i].variant,
            uniform_offset: tasks[i].uniform_offset,
            setting_offset: if tasks[i].variant.tag() >= 6 {
                Some(tasks[i].setting_offset)
            } else {
                None
            },
            workgroups_x: workgroups(tasks[i].width as int) as u32,
            workgroups_y: workgroups(tasks[i].height as int) as u32,
            rebind: rebound(growth, tasks[i].variant.tag()),
        }
    }

    /// Records a submission: brings the buffers to the size that the queued
    /// tasks need, packs their settings and uniforms, and dispatches them in
    /// the order in which they were queued. The queue is empty afterwards.
    pub fn compress(&mut self) -> (submission: Submission)
        requires
            old(self).wf(),
            old(self).fits(),
        ensures
            final(self).wf(),
            final(self).task@.len() == 0,
            final(self).uniforms_aligned_size == old(self).uniforms_aligned_size,
            final(self).bc6h_aligned_size == old(self).bc6h_aligned_size,
            final(self).bc7_aligned_size == old(self).bc7_aligned_size,
            final(self).uniforms_capacity == (if old(self).uniforms_needed() > old(self).uniforms_capacity {
                old(self).uniforms_needed()
            } else {
                old(self).uniforms_capacity as int
            }),
            final(self).bc6h_capacity == (if old(self).bc6h_needed() > old(self).bc6h_capacity {
                old(self).bc6h_needed()
            } else {
                old(self).bc6h_capacity as int
            }),
            final(self).bc7_capacity == (if old(self).bc7_needed() > old(self).bc7_capacity {
                old(self).bc7_needed()
            } else {
                old(self).bc7_capacity as int
            }),
            submission.growth.uniforms == grown(
                old(self).uniforms_needed(),
                old(self).uniforms_capacity as int,
            ),
            submission.growth.bc6h_settings == grown(
                old(self).bc6h_needed(),
                old(self).bc6h_capacity as int,
            ),
            submission.growth.bc7_settings == grown(
                old(self).bc7_needed(),
                old(self).bc7_capacity as int,
            ),
            submission.uploads.uniforms@ == uniforms_upload(
                old(self).task@,
                old(self).uniforms_aligned_size as int,
                old(self).task@.len(),
            ),
            submission.uploads.bc6h_settings@ == settings_upload(
                old(self).task@,
                6,
                old(self).bc6h_aligned_size as int,
                old(self).task@.len(),
            ),
            submission.uploads.bc7_settings@ == settings_upload(
                old(self).task@,
                7,
                old(self).bc7_aligned_size as int,
                old(self).task@.len(),
            ),
            submission.dispatches@.len() == old(self).task@.len(),
            forall|i: int|
                0 <= i < old(self).task@.len() ==> {
                    &&& (#[trigger] submission.dispatches@[i]).task == i
                    &&& submission.dispatches@[i].variant == old(self).task@[i].variant
                    &&& submission.dispatches@[i].uniform_offset == i * old(self).uniforms_aligned_size
                    &&& submission.dispatches@[i].setting_offset == (if old(self).task@[i].variant.tag() == 6 {
                        Some((count_of(old(self).task@, 6, i as nat) * old(self).bc6h_aligned_size) as u32)
                    } else if old(self).task@[i].variant.tag() == 7 {
                        Some((count_of(old(self).task@, 7, i as nat) * old(self).bc7_aligned_size) as u32)
                    } else {
                        None
                    })
                    &&& submission.dispatches@[i].workgroups_x == workgroups(
                        old(self).task@[i].width as int,
                    )
                    &&& submission.dispatches@[i].workgroups_y == workgroups(
                        old(self).task@[i].height as int,
                    )
                    &&& submission.dispatches@[i].rebind == rebound(
                        submission.growth,
                        old(self).task@[i].variant.tag(),
                    )
                },
    {
        let growth = self.update_buffer_sizes();
        let uploads = self.upload();
        let ghost queued = self.task@;
        let mut dispatches: Vec<Dispatch> = Vec::new();
        let mut i: usize = 0;
        while i < self.task.len()
            invariant
                self.task@ == queued,
                i <= queued.len(),
                dispatches@.len() == i,
                forall|j: int|
                    0 <= j < i ==> #[trigger] dispatches@[j] == Self::dispatch_of(
                        queued,
                        growth,
                        j,
                    ),
            decreases queued.len() - i,
        {
            let task = self.task[i];
            let tag = task.variant.tag_number();
            let setting_offset = if tag >= 6 {
                Some(task.setting_offset)
            } else {
                None
            };
            let rebind = growth.uniforms.is_some() || (tag == 6 && growth.bc6h_settings.is_some())
                || (tag == 7 && growth.bc7_settings.is_some());
            dispatches.push(
                Dispatch {
                    task: i,
                    variant: task.variant,
                    uniform_offset: task.uniform_offset,
                    setting_offset,
                    workgroups_x: workgroups_for(task.width),
                    workgroups_y: workgroups_for(task.height),
                    rebind,
                },
            );
            i = i + 1;
        }
        self.task = Vec::new();
        Submission { growth, uploads, dispatches }
    }
}

/// The count of a variant among the first tasks of a queue is that of the
/// same tasks taken alone.
pub proof fn lemma_count_of_prefix(tasks: Seq<Task>, prefix: Seq<Task>, tag: int, n: nat)
    requires
        n <= prefix.len(),
        prefix.len() <= tasks.len(),
        forall|i: int| 0 <= i < prefix.len() ==> prefix[i] == tasks[i],
    ensures
        count_of(prefix, tag, n) == count_of(tasks, tag, n),
    decreases n,
{
    if n > 0 {
        lemma_count_of_prefix(tasks, prefix, tag, (n - 1) as nat);
    }
}

} // verus!
