//! The gathering of the pixels of a block from an image, and the storing of
//! a coded block among the blocks of an image.
use crate::bits::{field, le32, lemma_drop_drop, lemma_field_bound, lemma_pow2_values};
use crate::variant::{blocks_across, CompressionVariant};
use vstd::arithmetic::power2::pow2;
use vstd::prelude::*;

verus! {

/// Byte `b` of the little-endian spelling of the word `w`.
pub open spec fn word_byte(w: u32, b: int) -> u8 {
    field(w as nat, (8 * b) as nat, 8) as u8
}

/// Four bytes that are the bytes of a word spell that word.
pub proof fn lemma_bytes_spell_word(s: Seq<u8>, at: int, w: u32)
    requires
        0 <= at,
        at + 4 <= s.len(),
        forall|b: int| 0 <= b < 4 ==> #[trigger] s[at + b] == word_byte(w, b),
    ensures
        le32(s, at) == w,
{
    crate::bits::lemma_word_bytes(w as nat);
    assert(s[at + 0] == word_byte(w, 0));
    assert(s[at + 1] == word_byte(w, 1));
    assert(s[at + 2] == word_byte(w, 2));
    assert(s[at + 3] == word_byte(w, 3));
    lemma_pow2_values();
    lemma_field_bound(w as nat, 0, 8);
    lemma_field_bound(w as nat, 8, 8);
    lemma_field_bound(w as nat, 16, 8);
    lemma_field_bound(w as nat, 24, 8);
}

/// Sixteen bytes that are the bytes of four words spell the number that the
/// words spell: a stored block is read back as the block that was coded.
pub proof fn lemma_stored_block_value(s: Seq<u8>, at: int, data: Seq<u32>)
    requires
        0 <= at,
        at + 16 <= s.len(),
        data.len() >= 4,
        forall|i: int| 0 <= i < 16 ==> #[trigger] s[at + i] == word_byte(data[i / 4], i % 4),
    ensures
        crate::bits::block_value(s.subrange(at, at + 16)) == data[0] as nat + data[1] as nat
            * 0x1_0000_0000 + data[2] as nat * 0x1_0000_0000_0000_0000 + data[3] as nat
            * 0x1_0000_0000_0000_0000_0000_0000,
{
    let block = s.subrange(at, at + 16);
    assert forall|w: int| 0 <= w < 4 implies le32(block, 4 * w) == data[w] by {
        assert forall|b: int| 0 <= b < 4 implies #[trigger] block[4 * w + b] == word_byte(
            data[w],
            b,
        ) by {
            assert(block[4 * w + b] == s[at + (4 * w + b)]);
            assert((4 * w + b) / 4 == w && (4 * w + b) % 4 == b);
        }
        lemma_bytes_spell_word(block, 4 * w, data[w]);
    }
    assert(le32(block, 0) == data[0]);
    assert(le32(block, 4) == data[1]);
    assert(le32(block, 8) == data[2]);
    assert(le32(block, 12) == data[3]);
}

/// The place of the block in column `xx` and row `yy` among blocks of `size`
/// bytes, `block_width` to a row.
pub open spec fn block_slot(block_width: int, xx: int, yy: int, size: int) -> int {
    (yy * block_width + xx) * size
}

/// The places of the blocks of an image lie within the bytes of its blocks,
/// and no two of them overlap.
pub proof fn lemma_block_slots_apart(
    block_width: int,
    block_height: int,
    size: int,
    xx: int,
    yy: int,
    xx2: int,
    yy2: int,
)
    requires
        0 <= xx < block_width,
        0 <= yy < block_height,
        0 <= xx2 < block_width,
        0 <= yy2 < block_height,
        0 < size,
    ensures
        0 <= block_slot(block_width, xx, yy, size),
        block_slot(block_width, xx, yy, size) + size <= block_width * block_height * size,
        (xx != xx2 || yy != yy2) ==> block_slot(block_width, xx, yy, size) + size <= block_slot(
            block_width,
            xx2,
            yy2,
            size,
        ) || block_slot(block_width, xx2, yy2, size) + size <= block_slot(
            block_width,
            xx,
            yy,
            size,
        ),
{
    let n = yy * block_width + xx;
    let n2 = yy2 * block_width + xx2;
    assert(0 <= n < block_width * block_height) by (nonlinear_arith)
        requires
            n == yy * block_width + xx,
            0 <= xx < block_width,
            0 <= yy < block_height,
    ;
    assert(n * size + size <= block_width * block_height * size && 0 <= n * size)
        by (nonlinear_arith)
        requires
            0 <= n < block_width * block_height,
            0 < size,
    ;
    if xx != xx2 || yy != yy2 {
        assert(n != n2) by (nonlinear_arith)
            requires
                n == yy * block_width + xx,
                n2 == yy2 * block_width + xx2,
                0 <= xx < block_width,
                0 <= xx2 < block_width,
                xx != xx2 || yy != yy2,
        ;
        assert(n * size + size <= n2 * size || n2 * size + size <= n * size) by (nonlinear_arith)
            requires
                n != n2,
                0 < size,
        ;
    }
}

/// Every byte of the blocks of an image lies in the place of one block.
pub proof fn lemma_block_slots_cover(block_width: int, block_height: int, size: int, i: int)
    requires
        0 < block_width,
        0 <= block_height,
        0 < size,
        0 <= i < block_width * block_height * size,
    ensures
        0 <= (i / size) % block_width < block_width,
        0 <= (i / size) / block_width < block_height,
        block_slot(block_width, (i / size) % block_width, (i / size) / block_width, size) <= i
            < block_slot(block_width, (i / size) % block_width, (i / size) / block_width, size)
            + size,
{
    let n = i / size;
    vstd::arithmetic::div_mod::lemma_fundamental_div_mod(i, size);
    vstd::arithmetic::div_mod::lemma_mod_bound(i, size);
    vstd::arithmetic::div_mod::lemma_fundamental_div_mod(n, block_width);
    vstd::arithmetic::div_mod::lemma_mod_bound(n, block_width);
    assert(0 <= n < block_width * block_height) by (nonlinear_arith)
        requires
            i == size * n + i % size,
            0 <= i % size < size,
            0 <= i < block_width * block_height * size,
            0 < size,
    ;
    let yy = n / block_width;
    assert(0 <= yy < block_height) by (nonlinear_arith)
        requires
            n == block_width * yy + n % block_width,
            0 <= n % block_width < block_width,
            0 <= n < block_width * block_height,
    ;
    assert(yy * block_width == block_width * yy) by (nonlinear_arith);
    assert(n * size == size * n) by (nonlinear_arith);
}

/// The blocks of an image of `width` by `height` pixels, both multiples of
/// four, fill the bytes that the variant asks for: the place of the last
/// block ends where they end.
pub proof fn lemma_blocks_fill_image(variant: CompressionVariant, width: int, height: int)
    requires
        0 <= width,
        0 <= height,
        width % 4 == 0,
        height % 4 == 0,
    ensures
        variant.image_bytes(width, height) == (width / 4) * (height / 4) * variant.block_bytes(),
        width > 0 && height > 0 ==> block_slot(
            width / 4,
            width / 4 - 1,
            height / 4 - 1,
            variant.block_bytes(),
        ) + variant.block_bytes() == variant.image_bytes(width, height),
{
    assert(blocks_across(width) == width / 4);
    assert(blocks_across(height) == height / 4);
    let bw = width / 4;
    let bh = height / 4;
    let size = variant.block_bytes();
    if width > 0 && height > 0 {
        assert(((bh - 1) * bw + (bw - 1)) * size + size == bw * bh * size) by (nonlinear_arith);
    }
}

/// Stores the words `data`, little-endian, at the place of the block in
/// column `xx` and row `yy`.
pub fn store_data(
    blocks_buffer: &mut [u8],
    block_width: usize,
    xx: usize,
    yy: usize,
    data: &[u32],
)
    requires
        block_slot(block_width as int, xx as int, yy as int, 4 * data@.len() as int) + 4 * data@.len()
            <= old(blocks_buffer)@.len(),
    ensures
        final(blocks_buffer)@.len() == old(blocks_buffer)@.len(),
        forall|i: int|
            0 <= i < 4 * data@.len() ==> #[trigger] final(blocks_buffer)@[block_slot(
                block_width as int,
                xx as int,
                yy as int,
                4 * data@.len() as int,
            ) + i] == word_byte(data@[i / 4], i % 4),
        forall|j: int|
            0 <= j < old(blocks_buffer)@.len() && !(block_slot(
                block_width as int,
                xx as int,
                yy as int,
                4 * data@.len() as int,
            ) <= j < block_slot(block_width as int, xx as int, yy as int, 4 * data@.len() as int) + 4
                * data@.len()) ==> #[trigger] final(blocks_buffer)@[j] == old(blocks_buffer)@[j],
{
    let words = data.len();
    let limit = blocks_buffer.len();
    if words == 0 {
        return ;
    }
    let ghost slot = block_slot(block_width as int, xx as int, yy as int, 4 * words as int);
    proof {
        assert(0 <= yy * block_width + xx <= slot) by (nonlinear_arith)
            requires
                slot == (yy * block_width + xx) * (4 * words),
                words >= 1,
                yy >= 0,
                block_width >= 0,
                xx >= 0,
        ;
        assert(yy * block_width >= 0) by (nonlinear_arith)
            requires
                yy >= 0,
                block_width >= 0,
        ;
    }
    let offset = (yy * block_width + xx) * (words * 4);
    let mut index: usize = 0;
    while index < words
        invariant
            words == data@.len(),
            words >= 1,
            index <= words,
            offset == slot,
            offset + 4 * words <= limit,
            blocks_buffer@.len() == limit,
            limit == old(blocks_buffer)@.len(),
            forall|i: int|
                0 <= i < 4 * index ==> #[trigger] blocks_buffer@[offset + i] == word_byte(
                    data@[i / 4],
                    i % 4,
                ),
            forall|j: int|
                0 <= j < limit && !(offset <= j < offset + 4 * index) ==> #[trigger] blocks_buffer@[j]
                    == old(blocks_buffer)@[j],
        decreases words - index,
    {
        let value = data[index];
        let at = offset + index * 4;
        proof {
            lemma_pow2_values();
            vstd::arithmetic::power2::lemma2_to64();
            lemma_drop_drop(value as nat, 8, 8);
            lemma_drop_drop(value as nat, 16, 8);
        }
        let ghost before = blocks_buffer@;
        blocks_buffer[at] = (value % 256) as u8;
        blocks_buffer[at + 1] = ((value / 256) % 256) as u8;
        blocks_buffer[at + 2] = ((value / 65536) % 256) as u8;
        blocks_buffer[at + 3] = (value / 0x100_0000) as u8;
        proof {
            assert forall|i: int| 0 <= i < 4 * (index + 1) implies #[trigger] blocks_buffer@[offset
                + i] == word_byte(data@[i / 4], i % 4) by {
                if i < 4 * index {
                    assert(blocks_buffer@[offset + i] == before[offset + i]);
                } else {
                    assert(i / 4 == index);
                    crate::bits::lemma_word_bytes(value as nat);
                }
            }
        }
        index = index + 1;
    }
}

/// Stores the coded blocks of an image of `width` by `height` pixels, both
/// multiples of four: `words` holds the words of the blocks one after the
/// other, row by row. The blocks fill the first bytes of `blocks_buffer`, as
/// many as the variant asks for, and the bytes behind them stay as they are.
pub fn store_image_blocks(
    variant: CompressionVariant,
    words: &[u32],
    blocks_buffer: &mut [u8],
    width: u32,
    height: u32,
)
    requires
        width % 4 == 0,
        height % 4 == 0,
        4 * words@.len() == variant.image_bytes(width as int, height as int),
        variant.image_bytes(width as int, height as int) <= old(blocks_buffer)@.len(),
    ensures
        final(blocks_buffer)@.len() == old(blocks_buffer)@.len(),
        forall|i: int|
            0 <= i < variant.image_bytes(width as int, height as int) ==> #[trigger] final(blocks_buffer)@[i] == word_byte(words@[i / 4], i % 4),
        forall|i: int|
            variant.image_bytes(width as int, height as int) <= i < old(blocks_buffer)@.len()
                ==> #[trigger] final(blocks_buffer)@[i] == old(blocks_buffer)@[i],
{
    let limit = blocks_buffer.len();
    let total = words.len();
    let per_block = (variant.block_byte_size() / 4) as usize;
    let block_width = (width / 4) as usize;
    let block_height = (height / 4) as usize;
    proof {
        lemma_blocks_fill_image(variant, width as int, height as int);
        assert(block_width * block_height <= block_width * block_height * variant.block_bytes())
            by (nonlinear_arith)
            requires
                variant.block_bytes() >= 8,
                block_width >= 0,
                block_height >= 0,
        ;
        assert(block_width * block_height * variant.block_bytes() == 4 * (block_width
            * block_height * per_block)) by (nonlinear_arith)
            requires
                variant.block_bytes() == 4 * per_block,
        ;
    }
    let count = block_width * block_height;
    let mut n: usize = 0;
    while n < count
        invariant
            0 < block_width || count == 0,
            count == block_width * block_height,
            per_block == 2 || per_block == 4,
            total == words@.len(),
            total == count * per_block,
            limit == old(blocks_buffer)@.len(),
            blocks_buffer@.len() == limit,
            4 * total <= limit,
            n <= count,
            forall|i: int|
                0 <= i < 4 * per_block * n ==> #[trigger] blocks_buffer@[i] == word_byte(
                    words@[i / 4],
                    i % 4,
                ),
            forall|i: int|
                4 * per_block * n <= i < limit ==> #[trigger] blocks_buffer@[i] == old(blocks_buffer)@[i],
        decreases count - n,
    {
        let yy = n / block_width;
        let xx = n % block_width;
        proof {
            assert(n * per_block + per_block <= count * per_block && n * per_block >= 0)
                by (nonlinear_arith)
                requires
                    0 <= n < count,
                    per_block >= 0,
            ;
            assert(n * per_block + per_block <= total);
            assert(yy * block_width + xx == n) by {
                vstd::arithmetic::div_mod::lemma_fundamental_div_mod(n as int, block_width as int);
                assert(yy * block_width == block_width * yy) by (nonlinear_arith);
            }
            assert(block_slot(block_width as int, xx as int, yy as int, 4 * per_block as int)
                == 4 * per_block * n) by (nonlinear_arith)
                requires
                    yy * block_width + xx == n,
                    block_slot(block_width as int, xx as int, yy as int, 4 * per_block as int)
                        == (yy * block_width + xx) * (4 * per_block),
            ;
        }
        let block = vstd::slice::slice_subrange(words, n * per_block, n * per_block + per_block);
        let ghost before = blocks_buffer@;
        proof {
            assert(block@.len() == per_block);
            assert(4 * per_block * n + 4 * per_block <= 4 * total) by (nonlinear_arith)
                requires
                    n * per_block + per_block <= total,
            ;
        }
        store_data(blocks_buffer, block_width, xx, yy, block);
        proof {
            let slot = 4 * per_block * n;
            assert forall|i: int| 0 <= i < 4 * per_block * (n + 1) implies #[trigger] blocks_buffer@[i]
                == word_byte(words@[i / 4], i % 4) by {
                if i < slot {
                    assert(blocks_buffer@[i] == before[i]);
                } else {
                    let j = i - slot;
                    assert(4 * per_block * (n + 1) == slot + 4 * per_block) by (nonlinear_arith)
                        requires
                            slot == 4 * per_block * n,
                    ;
                    assert(blocks_buffer@[slot + j] == word_byte(block@[j / 4], j % 4));
                    assert(block@[j / 4] == words@[n * per_block + j / 4]);
                    assert(i / 4 == n * per_block + j / 4 && i % 4 == j % 4) by {
                        assert(slot == 4 * (per_block * n)) by (nonlinear_arith)
                            requires
                                slot == 4 * per_block * n,
                        ;
                        assert(per_block * n == n * per_block) by (nonlinear_arith);
                    }
                }
            }
            assert forall|i: int| 4 * per_block * (n + 1) <= i < limit implies #[trigger] blocks_buffer@[i]
                == old(blocks_buffer)@[i] by {
                assert(4 * per_block * (n + 1) == slot + 4 * per_block) by (nonlinear_arith)
                    requires
                        slot == 4 * per_block * n,
                ;
                assert(blocks_buffer@[i] == before[i]);
            }
        }
        n = n + 1;
    }
    proof {
        assert(4 * per_block * count == 4 * total) by (nonlinear_arith)
            requires
                total == count * per_block,
        ;
    }
}

/// The place in an image of channel `p` of the pixel in column `x` and row
/// `y` of the block in column `xx` and row `yy`, the rows `stride` values
/// apart and the pixels four.
pub open spec fn pixel_place(xx: int, yy: int, x: int, y: int, stride: int, p: int) -> int {
    (yy * 4 + y) * stride + (xx * 4 + x) * 4 + p
}

/// Whether the block in column `xx` and row `yy` lies within an image of
/// `len` values, and the number of its last row is one that the machine can
/// hold.
pub open spec fn block_in_image(len: int, xx: int, yy: int, stride: int) -> bool {
    &&& (yy * 4 + 3) * stride + (xx * 4 + 3) * 4 + 4 <= len
    &&& yy * 4 + 3 <= usize::MAX
}

/// The places of the pixels of a block that lies within the image lie
/// within it.
pub proof fn lemma_pixel_place_bound(len: int, xx: int, yy: int, x: int, y: int, stride: int, p: int)
    requires
        0 <= xx,
        0 <= yy,
        0 <= stride,
        0 <= x < 4,
        0 <= y < 4,
        0 <= p < 4,
        block_in_image(len, xx, yy, stride),
    ensures
        0 <= pixel_place(xx, yy, x, y, stride, p) < len,
        0 <= (yy * 4 + y) * stride <= (yy * 4 + 3) * stride,
{
    assert(0 <= (yy * 4 + y) * stride <= (yy * 4 + 3) * stride) by (nonlinear_arith)
        requires
            0 <= yy,
            0 <= y <= 3,
            0 <= stride,
    ;
}

/// Gathers the sixteen pixels of a block, channel by channel: entry
/// `16 p + 4 y + x` is channel `p` of the pixel in column `x` and row `y`.
pub fn load_block_interleaved_rgba(rgba_data: &[u8], xx: usize, yy: usize, stride: usize) -> (block:
    [u8; 64])
    requires
        block_in_image(rgba_data@.len() as int, xx as int, yy as int, stride as int),
    ensures
        forall|p: int, y: int, x: int|
            0 <= p < 4 && 0 <= y < 4 && 0 <= x < 4 ==> #[trigger] block@[16 * p + 4 * y + x]
                == rgba_data@[pixel_place(xx as int, yy as int, x, y, stride as int, p)],
{
    let limit = rgba_data.len();
    let mut block = [0u8; 64];
    let mut k: usize = 0;
    while k < 64
        invariant
            k <= 64,
            limit == rgba_data@.len(),
            block_in_image(rgba_data@.len() as int, xx as int, yy as int, stride as int),
            forall|i: int|
                0 <= i < k ==> #[trigger] block@[i] == rgba_data@[pixel_place(
                    xx as int,
                    yy as int,
                    i % 4,
                    (i / 4) % 4,
                    stride as int,
                    i / 16,
                )],
        decreases 64 - k,
    {
        let p = k / 16;
        let y = (k / 4) % 4;
        let x = k % 4;
        proof {
            lemma_pixel_place_bound(
                limit as int,
                xx as int,
                yy as int,
                x as int,
                y as int,
                stride as int,
                p as int,
            );
        }
        let offset = (yy * 4 + y) * stride + (xx * 4 + x) * 4 + p;
        block[k] = rgba_data[offset];
        k = k + 1;
    }
    proof {
        assert forall|p: int, y: int, x: int| 0 <= p < 4 && 0 <= y < 4 && 0 <= x < 4 implies #[trigger] block@[16
            * p + 4 * y + x] == rgba_data@[pixel_place(
            xx as int,
            yy as int,
            x,
            y,
            stride as int,
            p,
        )] by {
            let i = 16 * p + 4 * y + x;
            assert(i % 4 == x && (i / 4) % 4 == y && i / 16 == p);
        }
    }
    block
}

/// Gathers channel `channel` of the sixteen pixels of a block, row by row.
pub fn load_block_channel(
    rgba_data: &[u8],
    xx: usize,
    yy: usize,
    stride: usize,
    channel: usize,
) -> (block: [u8; 16])
    requires
        channel < 4,
        block_in_image(rgba_data@.len() as int, xx as int, yy as int, stride as int),
    ensures
        forall|y: int, x: int|
            0 <= y < 4 && 0 <= x < 4 ==> #[trigger] block@[4 * y + x] == rgba_data@[pixel_place(
                xx as int,
                yy as int,
                x,
                y,
                stride as int,
                channel as int,
            )],
{
    let limit = rgba_data.len();
    let mut block = [0u8; 16];
    let mut k: usize = 0;
    while k < 16
        invariant
            k <= 16,
            channel < 4,
            limit == rgba_data@.len(),
            block_in_image(rgba_data@.len() as int, xx as int, yy as int, stride as int),
            forall|i: int|
                0 <= i < k ==> #[trigger] block@[i] == rgba_data@[pixel_place(
                    xx as int,
                    yy as int,
                    i % 4,
                    i / 4,
                    stride as int,
                    channel as int,
                )],
        decreases 16 - k,
    {
        let y = k / 4;
        let x = k % 4;
        proof {
            lemma_pixel_place_bound(
                limit as int,
                xx as int,
                yy as int,
                x as int,
                y as int,
                stride as int,
                channel as int,
            );
        }
        let offset = (yy * 4 + y) * stride + (xx * 4 + x) * 4 + channel;
        block[k] = rgba_data[offset];
        k = k + 1;
    }
    proof {
        assert forall|y: int, x: int| 0 <= y < 4 && 0 <= x < 4 implies #[trigger] block@[4 * y + x]
            == rgba_data@[pixel_place(xx as int, yy as int, x, y, stride as int, channel as int)] by {
            let i = 4 * y + x;
            assert(i % 4 == x && i / 4 == y);
        }
    }
    block
}

/// Gathers the red channel of the sixteen pixels of a block.
pub fn load_block_r_8bit(rgba_data: &[u8], xx: usize, yy: usize, stride: usize) -> (block: [u8; 16])
    requires
        block_in_image(rgba_data@.len() as int, xx as int, yy as int, stride as int),
    ensures
        forall|y: int, x: int|
            0 <= y < 4 && 0 <= x < 4 ==> #[trigger] block@[4 * y + x] == rgba_data@[pixel_place(
                xx as int,
                yy as int,
                x,
                y,
                stride as int,
                0,
            )],
{
    load_block_channel(rgba_data, xx, yy, stride, 0)
}

/// Gathers the green channel of the sixteen pixels of a block.
pub fn load_block_g_8bit(rgba_data: &[u8], xx: usize, yy: usize, stride: usize) -> (block: [u8; 16])
    requires
        block_in_image(rgba_data@.len() as int, xx as int, yy as int, stride as int),
    ensures
        forall|y: int, x: int|
            0 <= y < 4 && 0 <= x < 4 ==> #[trigger] block@[4 * y + x] == rgba_data@[pixel_place(
                xx as int,
                yy as int,
                x,
                y,
                stride as int,
                1,
            )],
{
    load_block_channel(rgba_data, xx, yy, stride, 1)
}

/// Gathers the half-float bit patterns of the sixteen pixels of a block,
/// channel by channel; the place of alpha holds zeros.
pub fn load_block_interleaved_16bit(rgba_data: &[u16], xx: usize, yy: usize, stride: usize) -> (block:
    [u16; 64])
    requires
        block_in_image(rgba_data@.len() as int, xx as int, yy as int, stride as int),
    ensures
        forall|p: int, y: int, x: int|
            0 <= p < 3 && 0 <= y < 4 && 0 <= x < 4 ==> #[trigger] block@[16 * p + 4 * y + x]
                == rgba_data@[pixel_place(xx as int, yy as int, x, y, stride as int, p)],
        forall|k: int| 48 <= k < 64 ==> #[trigger] block@[k] == 0,
{
    let limit = rgba_data.len();
    let mut block = [0u16; 64];
    let mut k: usize = 0;
    while k < 48
        invariant
            k <= 48,
            limit == rgba_data@.len(),
            block_in_image(rgba_data@.len() as int, xx as int, yy as int, stride as int),
            forall|i: int|
                0 <= i < k ==> #[trigger] block@[i] == rgba_data@[pixel_place(
                    xx as int,
                    yy as int,
                    i % 4,
                    (i / 4) % 4,
                    stride as int,
                    i / 16,
                )],
            forall|i: int| 48 <= i < 64 ==> #[trigger] block@[i] == 0,
        decreases 48 - k,
    {
        let p = k / 16;
        let y = (k / 4) % 4;
        let x = k % 4;
        proof {
            lemma_pixel_place_bound(
                limit as int,
                xx as int,
                yy as int,
                x as int,
                y as int,
                stride as int,
                p as int,
            );
        }
        let offset = (yy * 4 + y) * stride + (xx * 4 + x) * 4 + p;
        block[k] = rgba_data[offset];
        k = k + 1;
    }
    proof {
        assert forall|p: int, y: int, x: int| 0 <= p < 3 && 0 <= y < 4 && 0 <= x < 4 implies #[trigger] block@[16
            * p + 4 * y + x] == rgba_data@[pixel_place(
            xx as int,
            yy as int,
            x,
            y,
            stride as int,
            p,
        )] by {
            let i = 16 * p + 4 * y + x;
            assert(i % 4 == x && (i / 4) % 4 == y && i / 16 == p);
        }
    }
    block
}

} // verus!
