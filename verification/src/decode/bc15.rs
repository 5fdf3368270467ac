//! Decoding of BC1, BC2, BC3, BC4 and BC5 blocks.
use super::tile::{scatter, write_tile};
use crate::bits::{field, le64, lemma_drop_drop, lemma_field_bound, lemma_pow2_values, load_le64};
use vstd::arithmetic::power2::pow2;
use vstd::prelude::*;

verus! {

/// Channel `ch` (red, green, blue) of a colour of five, six and five bits.
pub open spec fn color565(c: nat, ch: int) -> int {
    if ch == 0 {
        c as int / 2048
    } else if ch == 1 {
        (c as int / 32) % 64
    } else {
        c as int % 32
    }
}

/// A stored channel widened to eight bits.
pub open spec fn expand565(x: int, ch: int) -> int {
    if ch == 1 {
        (x * 259 + 33) / 64
    } else {
        (x * 527 + 23) / 64
    }
}

/// Whether the colour block has four opaque colours: the first endpoint is
/// the greater number, or the format asks for it.
pub open spec fn four_colors(c0: nat, c1: nat, opaque_mode: bool) -> bool {
    c0 > c1 || opaque_mode
}

/// Channel `ch` (red, green, blue, alpha) of palette entry `entry` of a colour
/// block with endpoints `c0` and `c1`. Entries 0 and 1 are the endpoints. With
/// four colours entries 2 and 3 lie a third and two thirds of the way from the
/// first endpoint to the second; else entry 2 lies half way and entry 3 is
/// transparent black.
pub open spec fn palette_channel(c0: nat, c1: nat, opaque_mode: bool, entry: int, ch: int) -> int {
    let a = color565(c0, ch);
    let b = color565(c1, ch);
    if ch == 3 {
        if entry == 3 && !four_colors(c0, c1, opaque_mode) {
            0
        } else {
            255
        }
    } else if entry == 0 {
        expand565(a, ch)
    } else if entry == 1 {
        expand565(b, ch)
    } else if four_colors(c0, c1, opaque_mode) {
        let s = if entry == 2 {
            2 * a + b
        } else {
            a + 2 * b
        };
        if ch == 1 {
            (s * 2763 + 1039) / 2048
        } else {
            (s * 351 + 61) / 128
        }
    } else if entry == 2 {
        if ch == 1 {
            ((a + b) * 4145 + 1019) / 2048
        } else {
            ((a + b) * 1053 + 125) / 256
        }
    } else {
        0
    }
}

/// The sixteen pixels of the colour block `v`, four bytes each, row by row:
/// bits 0 to 15 and 16 to 31 are the endpoints, and two bits for each pixel
/// from bit 32 on choose its palette entry.
pub open spec fn color_tile(v: nat, opaque_mode: bool) -> Seq<u8> {
    Seq::new(
        64,
        |m: int|
            palette_channel(
                field(v, 0, 16),
                field(v, 16, 16),
                opaque_mode,
                field(v, (32 + 2 * (m / 4)) as nat, 2) as int,
                m % 4,
            ) as u8,
    )
}

/// The sixteen alpha values of the sharp alpha block `v`: four bits for each
/// pixel, scaled to eight.
pub open spec fn sharp_alpha_tile(v: nat) -> Seq<u8> {
    Seq::new(16, |k: int| (field(v, (4 * k) as nat, 4) * 17) as u8)
}

/// Entry `i` of the palette of a smooth alpha block with endpoints `a0` and
/// `a1`. Entries 0 and 1 are the endpoints. Where the first is the greater,
/// six entries lie between them; else four do, and entries 6 and 7 are 0 and 255.
pub open spec fn alpha_palette(a0: int, a1: int, i: int) -> int {
    if i == 0 {
        a0
    } else if i == 1 {
        a1
    } else if a0 > a1 {
        ((8 - i) * a0 + (i - 1) * a1) / 7
    } else if i < 6 {
        ((6 - i) * a0 + (i - 1) * a1) / 5
    } else if i == 6 {
        0
    } else {
        255
    }
}

/// The sixteen values of the smooth alpha block `v`: bits 0 to 7 and 8 to 15
/// are the endpoints, and three bits for each pixel from bit 16 on choose its
/// palette entry.
pub open spec fn smooth_alpha_tile(v: nat) -> Seq<u8> {
    Seq::new(
        16,
        |k: int|
            alpha_palette(
                field(v, 0, 8) as int,
                field(v, 8, 8) as int,
                field(v, (16 + 3 * k) as nat, 3) as int,
            ) as u8,
    )
}

/// A colour block whose two endpoints are the same colour and whose
/// selectors are all zero shows that colour, widened to eight bits, at every
/// pixel, with full alpha.
pub proof fn lemma_flat_color_block(c: nat, opaque_mode: bool, m: int)
    requires
        c < 65536,
        0 <= m < 64,
    ensures
        color_tile(c + c * 65536, opaque_mode)[m] == (if m % 4 == 3 {
            255
        } else {
            expand565(color565(c, m % 4), m % 4)
        }),
        0 <= expand565(color565(c, m % 4), m % 4) <= 255,
{
    lemma_pow2_values();
    let v = c + c * 65536;
    assert(v == v + pow2(32) * 0) by (nonlinear_arith);
    crate::bits::lemma_field_of_sum(v, 0, 32, 0, 16);
    crate::bits::lemma_field_of_sum(v, 0, 32, 16, 16);
    crate::bits::lemma_field_of_sum(v, 0, 32, (2 * (m / 4)) as nat, 2);
    assert(v == c + pow2(16) * c) by (nonlinear_arith)
        requires
            v == c + c * 65536,
            pow2(16) == 65536,
    ;
    crate::bits::lemma_field_of_sum(c, c, 16, 0, 16);
    crate::bits::lemma_field_small(c, 16);
    assert(field(v, 0, 16) == c);
    assert(field(v, 16, 16) == c);
    lemma_field_bound(0, (2 * (m / 4)) as nat, 2);
    assert(field(0, (2 * (m / 4)) as nat, 2) == 0) by {
        vstd::arithmetic::power2::lemma_pow2_pos((2 * (m / 4)) as nat);
        vstd::arithmetic::div_mod::lemma_div_basics(pow2((2 * (m / 4)) as nat) as int);
    }
    assert(field(v, (32 + 2 * (m / 4)) as nat, 2) == 0);
}

/// A smooth alpha block whose two endpoints are the same value and whose
/// selectors are all zero shows that value at every pixel.
pub proof fn lemma_flat_alpha_block(a: nat, k: int)
    requires
        a < 256,
        0 <= k < 16,
    ensures
        smooth_alpha_tile(a + a * 256)[k] == a,
{
    lemma_pow2_values();
    let v = a + a * 256;
    assert(v == v + pow2(16) * 0) by (nonlinear_arith);
    crate::bits::lemma_field_of_sum(v, 0, 16, 0, 8);
    crate::bits::lemma_field_of_sum(v, 0, 16, 8, 8);
    crate::bits::lemma_field_of_sum(v, 0, 16, (3 * k) as nat, 3);
    assert(v == a + pow2(8) * a) by (nonlinear_arith)
        requires
            v == a + a * 256,
            pow2(8) == 256,
    ;
    crate::bits::lemma_field_of_sum(a, a, 8, 0, 8);
    crate::bits::lemma_field_small(a, 8);
    assert(field(0, (3 * k) as nat, 3) == 0) by {
        vstd::arithmetic::power2::lemma_pow2_pos((3 * k) as nat);
        vstd::arithmetic::div_mod::lemma_div_basics(pow2((3 * k) as nat) as int);
    }
}

/// One channel of one palette entry.
fn palette_entry(c0: u32, c1: u32, opaque_mode: bool, entry: usize, ch: usize) -> (r: u8)
    requires
        c0 < 65536,
        c1 < 65536,
        entry < 4,
        ch < 4,
    ensures
        r == palette_channel(c0 as nat, c1 as nat, opaque_mode, entry as int, ch as int),
{
    let a = if ch == 0 {
        c0 / 2048
    } else if ch == 1 {
        (c0 / 32) % 64
    } else {
        c0 % 32
    };
    let b = if ch == 0 {
        c1 / 2048
    } else if ch == 1 {
        (c1 / 32) % 64
    } else {
        c1 % 32
    };
    let four = c0 > c1 || opaque_mode;
    let value = if ch == 3 {
        if entry == 3 && !four {
            0
        } else {
            255
        }
    } else if entry == 0 {
        if ch == 1 {
            (a * 259 + 33) / 64
        } else {
            (a * 527 + 23) / 64
        }
    } else if entry == 1 {
        if ch == 1 {
            (b * 259 + 33) / 64
        } else {
            (b * 527 + 23) / 64
        }
    } else if four {
        let s = if entry == 2 {
            2 * a + b
        } else {
            a + 2 * b
        };
        if ch == 1 {
            (s * 2763 + 1039) / 2048
        } else {
            (s * 351 + 61) / 128
        }
    } else if entry == 2 {
        if ch == 1 {
            ((a + b) * 4145 + 1019) / 2048
        } else {
            ((a + b) * 1053 + 125) / 256
        }
    } else {
        0
    };
    value as u8
}

/// Decodes a colour block into its sixteen pixels.
pub(crate) fn decode_color_tile(v: u64, opaque_mode: bool) -> (tile: [u8; 64])
    ensures
        tile@ == color_tile(v as nat, opaque_mode),
{
    proof {
        lemma_pow2_values();
        lemma_drop_drop(v as nat, 16, 16);
    }
    let c0 = (v % 65536) as u32;
    let c1 = ((v / 65536) % 65536) as u32;
    let mut selectors = v / 0x1_0000_0000;
    let mut tile = [0u8; 64];
    let mut k: usize = 0;
    while k < 16
        invariant
            k <= 16,
            c0 == field(v as nat, 0, 16),
            c1 == field(v as nat, 16, 16),
            selectors == v as nat / pow2((32 + 2 * k) as nat),
            forall|m: int| 0 <= m < 4 * k ==> #[trigger] tile@[m] == color_tile(v as nat, opaque_mode)[m],
        decreases 16 - k,
    {
        proof {
            lemma_pow2_values();
            lemma_drop_drop(v as nat, (32 + 2 * k) as nat, 2);
        }
        let entry = (selectors % 4) as usize;
        let r = palette_entry(c0, c1, opaque_mode, entry, 0);
        let g = palette_entry(c0, c1, opaque_mode, entry, 1);
        let b = palette_entry(c0, c1, opaque_mode, entry, 2);
        let a = palette_entry(c0, c1, opaque_mode, entry, 3);
        let ghost before = tile@;
        tile[4 * k] = r;
        tile[4 * k + 1] = g;
        tile[4 * k + 2] = b;
        tile[4 * k + 3] = a;
        proof {
            assert forall|m: int| 0 <= m < 4 * (k + 1) implies #[trigger] tile@[m] == color_tile(
                v as nat,
                opaque_mode,
            )[m] by {
                if m < 4 * k {
                    assert(tile@[m] == before[m]);
                } else {
                    assert(m / 4 == k);
                }
            }
        }
        selectors = selectors / 4;
        k = k + 1;
    }
    assert(tile@ =~= color_tile(v as nat, opaque_mode));
    tile
}

/// Decodes a sharp alpha block into its sixteen values.
pub(crate) fn decode_sharp_alpha_tile(v: u64) -> (tile: [u8; 16])
    ensures
        tile@ == sharp_alpha_tile(v as nat),
{
    proof {
        lemma_pow2_values();
        assert(v as nat / pow2(0) == v);
    }
    let mut nibbles = v;
    let mut tile = [0u8; 16];
    let mut k: usize = 0;
    while k < 16
        invariant
            k <= 16,
            nibbles == v as nat / pow2((4 * k) as nat),
            forall|m: int| 0 <= m < k ==> #[trigger] tile@[m] == sharp_alpha_tile(v as nat)[m],
        decreases 16 - k,
    {
        proof {
            lemma_pow2_values();
            lemma_drop_drop(v as nat, (4 * k) as nat, 4);
        }
        tile[k] = ((nibbles % 16) * 17) as u8;
        nibbles = nibbles / 16;
        k = k + 1;
    }
    assert(tile@ =~= sharp_alpha_tile(v as nat));
    tile
}

/// One entry of the palette of a smooth alpha block.
fn alpha_entry(a0: u32, a1: u32, i: u32) -> (r: u8)
    requires
        a0 < 256,
        a1 < 256,
        i < 8,
    ensures
        r == alpha_palette(a0 as int, a1 as int, i as int),
{
    proof {
        if 2 <= i {
            assert(0 <= (8 - i) * a0 <= (8 - i) * 255 && 0 <= (i - 1) * a1 <= (i - 1) * 255)
                by (nonlinear_arith)
                requires
                    2 <= i < 8,
                    a0 < 256,
                    a1 < 256,
            ;
        }
        if 2 <= i < 6 {
            assert(0 <= (6 - i) * a0 <= (6 - i) * 255) by (nonlinear_arith)
                requires
                    2 <= i < 6,
                    a0 < 256,
            ;
        }
    }
    let value = if i == 0 {
        a0
    } else if i == 1 {
        a1
    } else if a0 > a1 {
        ((8 - i) * a0 + (i - 1) * a1) / 7
    } else if i < 6 {
        ((6 - i) * a0 + (i - 1) * a1) / 5
    } else if i == 6 {
        0
    } else {
        255
    };
    value as u8
}

/// Decodes a smooth alpha block into its sixteen values.
pub(crate) fn decode_smooth_alpha_tile(v: u64) -> (tile: [u8; 16])
    ensures
        tile@ == smooth_alpha_tile(v as nat),
{
    proof {
        lemma_pow2_values();
        lemma_drop_drop(v as nat, 8, 8);
    }
    let a0 = (v % 256) as u32;
    let a1 = ((v / 256) % 256) as u32;
    let mut selectors = v / 65536;
    let mut tile = [0u8; 16];
    let mut k: usize = 0;
    while k < 16
        invariant
            k <= 16,
            a0 == field(v as nat, 0, 8),
            a1 == field(v as nat, 8, 8),
            selectors == v as nat / pow2((16 + 3 * k) as nat),
            forall|m: int| 0 <= m < k ==> #[trigger] tile@[m] == smooth_alpha_tile(v as nat)[m],
        decreases 16 - k,
    {
        proof {
            lemma_pow2_values();
            lemma_drop_drop(v as nat, (16 + 3 * k) as nat, 3);
        }
        tile[k] = alpha_entry(a0, a1, (selectors % 8) as u32);
        selectors = selectors / 8;
        k = k + 1;
    }
    assert(tile@ =~= smooth_alpha_tile(v as nat));
    tile
}

/// Decodes the colour block in the first 8 bytes of `compressed_block` and
/// writes its pixels, four bytes each, into `decompressed_block`, the rows
/// `destination_pitch` bytes apart. With `opaque_mode` the block always has
/// four opaque colours.
pub fn decode_color_block(
    compressed_block: &[u8],
    decompressed_block: &mut [u8],
    destination_pitch: usize,
    opaque_mode: bool,
)
    requires
        compressed_block@.len() >= 8,
        3 * destination_pitch + 16 <= old(decompressed_block)@.len(),
    ensures
        final(decompressed_block)@ == scatter(
            old(decompressed_block)@,
            color_tile(le64(compressed_block@, 0), opaque_mode),
            0,
            destination_pitch as int,
            4,
            4,
            64,
        ),
        final(decompressed_block)@.len() == old(decompressed_block)@.len(),
{
    let tile = decode_color_tile(load_le64(compressed_block, 0), opaque_mode);
    write_tile(decompressed_block, &tile, 0, destination_pitch, 4, 4);
}

/// Decodes the sharp alpha block in the first 8 bytes of `compressed_block`
/// and writes its values into the alpha bytes of the pixels of
/// `decompressed_block`.
pub fn decode_sharp_alpha_block(
    compressed_block: &[u8],
    decompressed_block: &mut [u8],
    destination_pitch: usize,
)
    requires
        compressed_block@.len() >= 8,
        3 * destination_pitch + 16 <= old(decompressed_block)@.len(),
    ensures
        final(decompressed_block)@ == scatter(
            old(decompressed_block)@,
            sharp_alpha_tile(le64(compressed_block@, 0)),
            3,
            destination_pitch as int,
            4,
            1,
            16,
        ),
        final(decompressed_block)@.len() == old(decompressed_block)@.len(),
{
    let tile = decode_sharp_alpha_tile(load_le64(compressed_block, 0));
    write_tile(decompressed_block, &tile, 3, destination_pitch, 4, 1);
}

/// Decodes the smooth alpha block in the first 8 bytes of `compressed_block`
/// and writes its values into `decompressed_block`, `pixel_size` bytes apart.
pub fn decode_smooth_alpha_block(
    compressed_block: &[u8],
    decompressed_block: &mut [u8],
    destination_pitch: usize,
    pixel_size: usize,
)
    requires
        compressed_block@.len() >= 8,
        3 * destination_pitch + 3 * pixel_size + 1 <= old(decompressed_block)@.len(),
    ensures
        final(decompressed_block)@ == scatter(
            old(decompressed_block)@,
            smooth_alpha_tile(le64(compressed_block@, 0)),
            0,
            destination_pitch as int,
            pixel_size as int,
            1,
            16,
        ),
        final(decompressed_block)@.len() == old(decompressed_block)@.len(),
{
    let tile = decode_smooth_alpha_tile(load_le64(compressed_block, 0));
    write_tile(decompressed_block, &tile, 0, destination_pitch, pixel_size, 1);
}

/// Decodes the BC1 block in the first 8 bytes of `compressed_block` and writes
/// its pixels, four bytes each, into `decompressed_block`, the rows
/// `destination_pitch` bytes apart.
pub fn decode_block_bc1(
    compressed_block: &[u8],
    decompressed_block: &mut [u8],
    destination_pitch: usize,
)
    requires
        compressed_block@.len() >= 8,
        3 * destination_pitch + 16 <= old(decompressed_block)@.len(),
    ensures
        final(decompressed_block)@ == scatter(
            old(decompressed_block)@,
            color_tile(le64(compressed_block@, 0), false),
            0,
            destination_pitch as int,
            4,
            4,
            64,
        ),
        final(decompressed_block)@.len() == old(decompressed_block)@.len(),
{
    decode_color_block(compressed_block, decompressed_block, destination_pitch, false);
}

/// Decodes the BC2 block in the first 16 bytes of `compressed_block`: the
/// colours of its second half, always four and opaque, and over their alpha
/// bytes the sharp alpha of its first half.
pub fn decode_block_bc2(
    compressed_block: &[u8],
    decompressed_block: &mut [u8],
    destination_pitch: usize,
)
    requires
        compressed_block@.len() >= 16,
        3 * destination_pitch + 16 <= old(decompressed_block)@.len(),
    ensures
        final(decompressed_block)@ == scatter(
            scatter(
                old(decompressed_block)@,
                color_tile(le64(compressed_block@, 8), true),
                0,
                destination_pitch as int,
                4,
                4,
                64,
            ),
            sharp_alpha_tile(le64(compressed_block@, 0)),
            3,
            destination_pitch as int,
            4,
            1,
            16,
        ),
        final(decompressed_block)@.len() == old(decompressed_block)@.len(),
{
    let colors = decode_color_tile(load_le64(compressed_block, 8), true);
    write_tile(decompressed_block, &colors, 0, destination_pitch, 4, 4);
    let alpha = decode_sharp_alpha_tile(load_le64(compressed_block, 0));
    write_tile(decompressed_block, &alpha, 3, destination_pitch, 4, 1);
}

/// Decodes the BC3 block in the first 16 bytes of `compressed_block`: the
/// colours of its second half, always four and opaque, and over their alpha
/// bytes the smooth alpha of its first half.
pub fn decode_block_bc3(
    compressed_block: &[u8],
    decompressed_block: &mut [u8],
    destination_pitch: usize,
)
    requires
        compressed_block@.len() >= 16,
        3 * destination_pitch + 16 <= old(decompressed_block)@.len(),
    ensures
        final(decompressed_block)@ == scatter(
            scatter(
                old(decompressed_block)@,
                color_tile(le64(compressed_block@, 8), true),
                0,
                destination_pitch as int,
                4,
                4,
                64,
            ),
            smooth_alpha_tile(le64(compressed_block@, 0)),
            3,
            destination_pitch as int,
            4,
            1,
            16,
        ),
        final(decompressed_block)@.len() == old(decompressed_block)@.len(),
{
    let colors = decode_color_tile(load_le64(compressed_block, 8), true);
    write_tile(decompressed_block, &colors, 0, destination_pitch, 4, 4);
    let alpha = decode_smooth_alpha_tile(load_le64(compressed_block, 0));
    write_tile(decompressed_block, &alpha, 3, destination_pitch, 4, 1);
}

/// Decodes the BC4 block in the first 8 bytes of `compressed_block` and writes
/// its values, one byte each, into `decompressed_block`, the rows
/// `destination_pitch` bytes apart.
pub fn decode_block_bc4(
    compressed_block: &[u8],
    decompressed_block: &mut [u8],
    destination_pitch: usize,
)
    requires
        compressed_block@.len() >= 8,
        3 * destination_pitch + 4 <= old(decompressed_block)@.len(),
    ensures
        final(decompressed_block)@ == scatter(
            old(decompressed_block)@,
            smooth_alpha_tile(le64(compressed_block@, 0)),
            0,
            destination_pitch as int,
            1,
            1,
            16,
        ),
        final(decompressed_block)@.len() == old(decompressed_block)@.len(),
{
    decode_smooth_alpha_block(compressed_block, decompressed_block, destination_pitch, 1);
}

/// Decodes the BC5 block in the first 16 bytes of `compressed_block` and
/// writes its pixels, two bytes each, into `decompressed_block`: red from the
/// first half of the block, green from the second.
pub fn decode_block_bc5(
    compressed_block: &[u8],
    decompressed_block: &mut [u8],
    destination_pitch: usize,
)
    requires
        compressed_block@.len() >= 16,
        3 * destination_pitch + 8 <= old(decompressed_block)@.len(),
    ensures
        final(decompressed_block)@ == scatter(
            scatter(
                old(decompressed_block)@,
                smooth_alpha_tile(le64(compressed_block@, 0)),
                0,
                destination_pitch as int,
                2,
                1,
                16,
            ),
            smooth_alpha_tile(le64(compressed_block@, 8)),
            1,
            destination_pitch as int,
            2,
            1,
            16,
        ),
        final(decompressed_block)@.len() == old(decompressed_block)@.len(),
{
    let red = decode_smooth_alpha_tile(load_le64(compressed_block, 0));
    write_tile(decompressed_block, &red, 0, destination_pitch, 2, 1);
    let green = decode_smooth_alpha_tile(load_le64(compressed_block, 8));
    write_tile(decompressed_block, &green, 1, destination_pitch, 2, 1);
}

} // verus!
