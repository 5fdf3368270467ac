//! The parts of the encoders of BC1 to BC5 that work on whole numbers.
use super::common::nibble;
use super::store::{block_in_image, lemma_pixel_place_bound, pixel_place};
use crate::bits::{
    field, lemma_field_bound, lemma_field_of_sum, lemma_field_small, lemma_pow2_values,
    lemma_run_value, run_value,
};
use crate::decode::bc15::{
    alpha_palette, color565, color_tile, palette_channel, sharp_alpha_tile, smooth_alpha_tile,
};
use vstd::arithmetic::power2::{lemma_pow2_adds, lemma_pow2_pos, lemma_pow2_strictly_increases, pow2};
use vstd::prelude::*;

verus! {

/// An eight-bit channel quantized to five bits.
pub open spec fn quantize5(c: int) -> int {
    (c * 31 + 128 + (c * 31) / 256) / 256
}

/// An eight-bit channel quantized to six bits.
pub open spec fn quantize6(c: int) -> int {
    (c * 63 + 128 + (c * 63) / 256) / 256
}

/// A five-bit channel widened to eight bits by repeating its top bits.
pub open spec fn widen5(x: int) -> int {
    x * 8 + x / 4
}

/// A six-bit channel widened to eight bits by repeating its top bits.
pub open spec fn widen6(x: int) -> int {
    x * 4 + x / 16
}

/// The colour of five, six and five bits that the channels `r`, `g`, `b`
/// quantize to.
pub open spec fn rgb565(r: int, g: int, b: int) -> int {
    quantize5(r) * 2048 + quantize6(g) * 32 + quantize5(b)
}

/// Widens a colour of five, six and five bits to three channels of eight.
pub fn dec_rgb565(p: i32) -> (c: [i32; 3])
    requires
        0 <= p < 65536,
    ensures
        c@[0] == widen5(color565(p as nat, 0)),
        c@[1] == widen6(color565(p as nat, 1)),
        c@[2] == widen5(color565(p as nat, 2)),
        forall|i: int| 0 <= i < 3 ==> 0 <= #[trigger] c@[i] <= 255,
{
    let b5 = p % 32;
    let g6 = (p / 32) % 64;
    let r5 = p / 2048;
    [r5 * 8 + r5 / 4, g6 * 4 + g6 / 16, b5 * 8 + b5 / 4]
}

/// Quantizes three channels of eight bits to a colour of five, six and five
/// bits.
pub fn enc_rgb565(c: &[i32; 3]) -> (p: i32)
    requires
        forall|i: int| 0 <= i < 3 ==> 0 <= #[trigger] c@[i] <= 255,
    ensures
        p == rgb565(c@[0] as int, c@[1] as int, c@[2] as int),
        0 <= p < 65536,
{
    let r = c[0];
    let g = c[1];
    let b = c[2];
    let r5 = (r * 31 + 128 + (r * 31) / 256) / 256;
    let g6 = (g * 63 + 128 + (g * 63) / 256) / 256;
    let b5 = (b * 31 + 128 + (b * 31) / 256) / 256;
    r5 * 2048 + g6 * 32 + b5
}

proof fn lemma_requantize5(x: u32)
    by (bit_vector)
    requires
        x < 32,
    ensures
        ((x * 8 + x / 4) * 31 + 128 + ((x * 8 + x / 4) * 31) / 256) / 256 == x,
{
}

proof fn lemma_requantize6(x: u32)
    by (bit_vector)
    requires
        x < 64,
    ensures
        ((x * 4 + x / 16) * 63 + 128 + ((x * 4 + x / 16) * 63) / 256) / 256 == x,
{
}

/// A colour of five, six and five bits that is widened and quantized again
/// is the colour it was.
pub proof fn lemma_rgb565_round_trip(p: nat)
    requires
        p < 65536,
    ensures
        rgb565(
            widen5(color565(p, 0)),
            widen6(color565(p, 1)),
            widen5(color565(p, 2)),
        ) == p,
{
    lemma_requantize5(color565(p, 0) as u32);
    lemma_requantize6(color565(p, 1) as u32);
    lemma_requantize5(color565(p, 2) as u32);
}

/// The palette entry of the decoder for a level on the way from the first
/// endpoint to the second: the endpoints are entries 0 and 1, the levels
/// between them entries 2 and 3.
pub open spec fn selector_of_level(level: nat) -> nat {
    if level == 0 {
        0
    } else if level == 1 {
        2
    } else if level == 2 {
        3
    } else {
        1
    }
}

proof fn lemma_fix_pair(q: u32, k: u32)
    by (bit_vector)
    requires
        k < 16,
    ensures
        ({
            let r = (((q & 0xAAAA_AAAAu32) >> 1u32) + ((q & 0xAAAA_AAAAu32) ^ ((q
                & 0x5555_5555u32) << 1u32))) as u32;
            let level = (q >> ((2 * k) as u32)) & 3u32;
            let selector = (r >> ((2 * k) as u32)) & 3u32;
            &&& ((q & 0xAAAA_AAAAu32) >> 1u32) + ((q & 0xAAAA_AAAAu32) ^ ((q & 0x5555_5555u32)
                << 1u32)) <= 0xFFFF_FFFFu32
            &&& level == 0 ==> selector == 0
            &&& level == 1 ==> selector == 2
            &&& level == 2 ==> selector == 3
            &&& level == 3 ==> selector == 1
        }),
{
}

/// Two bits of a word, by shift and mask.
pub proof fn lemma_pair_is_shift(w: u32, k: u32)
    requires
        k < 16,
    ensures
        (w >> ((2 * k) as u32)) & 3u32 == field(w as nat, (2 * k) as nat, 2),
{
    let sh = (2 * k) as u32;
    vstd::bits::lemma_u32_shr_is_div(w, sh);
    vstd::bits::lemma_u32_low_bits_mask_is_mod(w >> sh, 2);
    vstd::bits::lemma_low_bits_mask_values();
    lemma_pow2_values();
}

/// Level `k` of a word of sixteen levels, two bits each.
pub open spec fn level_at(qbits: u32, k: int) -> nat {
    field(qbits as nat, (2 * k) as nat, 2)
}

/// Turns the levels of the sixteen pixels, two bits each, into the palette
/// entries of the decoder.
pub fn fix_qbits(qbits: u32) -> (r: u32)
    ensures
        forall|k: int| 0 <= k < 16 ==> #[trigger] level_at(r, k) == selector_of_level(level_at(qbits, k)),
{
    let qbits0 = qbits & 0x5555_5555;
    let qbits1 = qbits & 0xAAAA_AAAA;
    proof {
        lemma_fix_pair(qbits, 0);
    }
    let r = (qbits1 >> 1) + (qbits1 ^ (qbits0 << 1));
    proof {
        assert forall|k: int| 0 <= k < 16 implies #[trigger] level_at(r, k) == selector_of_level(
            level_at(qbits, k),
        ) by {
            lemma_fix_pair(qbits, k as u32);
            lemma_pair_is_shift(qbits, k as u32);
            lemma_pair_is_shift(r, k as u32);
            lemma_field_bound(qbits as nat, (2 * k) as nat, 2);
            lemma_pow2_values();
        }
    }
    r
}

/// The number that the two words of a block of eight bytes spell.
pub open spec fn pair_value(data: Seq<u32>) -> nat {
    data[0] as nat + data[1] as nat * 0x1_0000_0000
}

/// Lays out a colour block: the two endpoints and the levels of the sixteen
/// pixels, turned into palette entries.
pub fn pack_color_block(p0: i32, p1: i32, qbits: u32) -> (data: [u32; 2])
    requires
        0 <= p0 < 65536,
        0 <= p1 < 65536,
    ensures
        field(pair_value(data@), 0, 16) == p0,
        field(pair_value(data@), 16, 16) == p1,
        forall|k: int|
            0 <= k < 16 ==> #[trigger] field(pair_value(data@), (32 + 2 * k) as nat, 2)
                == selector_of_level(level_at(qbits, k)),
{
    let selectors = fix_qbits(qbits);
    let first = (p1 as u32) * 65536 + p0 as u32;
    let data = [first, selectors];
    proof {
        lemma_pow2_values();
        let v = pair_value(data@);
        let low = first as nat;
        assert(v == low + pow2(32) * (selectors as nat)) by (nonlinear_arith)
            requires
                v == low + (selectors as nat) * 0x1_0000_0000,
                pow2(32) == 0x1_0000_0000,
        ;
        lemma_field_of_sum(low, selectors as nat, 32, 0, 16);
        lemma_field_of_sum(low, selectors as nat, 32, 16, 16);
        assert(low == p0 as nat + pow2(16) * (p1 as nat)) by (nonlinear_arith)
            requires
                low == (p1 as nat) * 65536 + p0 as nat,
                pow2(16) == 65536,
        ;
        lemma_field_of_sum(p0 as nat, p1 as nat, 16, 0, 16);
        lemma_field_small(p0 as nat, 16);
        lemma_field_small(p1 as nat, 16);
        assert forall|k: int| 0 <= k < 16 implies #[trigger] field(v, (32 + 2 * k) as nat, 2)
            == selector_of_level(level_at(qbits, k)) by {
            lemma_field_of_sum(low, selectors as nat, 32, (2 * k) as nat, 2);
            assert(level_at(selectors, k) == selector_of_level(level_at(qbits, k)));
        }
    }
    data
}

/// The palette entry of the decoder for a level on the way from the lower
/// endpoint (level 0) to the higher (level 7), the higher endpoint being
/// stored first.
pub open spec fn selector_of_alpha_level(level: int) -> int {
    if level == 7 {
        0
    } else if level == 0 {
        1
    } else {
        8 - level
    }
}

/// Turns a level between the lower and the higher endpoint into the palette
/// entry of the decoder.
pub fn alpha_selector(level: i32) -> (q: i32)
    requires
        0 <= level <= 7,
    ensures
        q == selector_of_alpha_level(level as int),
        0 <= q <= 7,
{
    let mut q = 7 - level;
    if q > 0 {
        q = q + 1;
    }
    if q == 8 {
        q = 1;
    }
    q
}

/// With the higher endpoint stored first the palette entry of level `l` lies
/// `l` sevenths of the way from the lower endpoint to the higher.
pub proof fn lemma_alpha_level_value(high: int, low: int, level: int)
    requires
        0 <= low < high <= 255,
        0 <= level <= 7,
    ensures
        alpha_palette(high, low, selector_of_alpha_level(level)) == (level * high + (7 - level)
            * low) / 7,
{
    if level == 7 {
        assert((7 * high + 0 * low) / 7 == high);
    } else if level == 0 {
        assert((0 * high + 7 * low) / 7 == low);
    } else {
        let i = 8 - level;
        assert((8 - i) * high + (i - 1) * low == level * high + (7 - level) * low)
            by (nonlinear_arith)
            requires
                i == 8 - level,
        ;
    }
}

/// The palette entries of the sixteen pixels.
pub open spec fn alpha_selectors(levels: Seq<u8>) -> Seq<nat> {
    Seq::new(16, |k: int| selector_of_alpha_level(levels[k] as int) as nat)
}

/// Lays out a smooth alpha block: the higher endpoint, the lower endpoint,
/// and the levels of the sixteen pixels, turned into palette entries of
/// three bits each.
pub fn pack_alpha_block(low: u32, high: u32, levels: &[u8; 16]) -> (data: [u32; 2])
    requires
        low <= 255,
        high <= 255,
        forall|k: int| 0 <= k < 16 ==> #[trigger] levels@[k] <= 7,
    ensures
        field(pair_value(data@), 0, 8) == high,
        field(pair_value(data@), 8, 8) == low,
        forall|k: int|
            0 <= k < 16 ==> #[trigger] field(pair_value(data@), (16 + 3 * k) as nat, 3)
                == selector_of_alpha_level(levels@[k] as int),
{
    let ghost vals = alpha_selectors(levels@);
    let mut acc: u64 = 0;
    let mut scale: u64 = 1;
    let mut k: usize = 0;
    proof {
        lemma_pow2_values();
        lemma_pow2_pos(48);
    }
    while k < 16
        invariant
            k <= 16,
            vals == alpha_selectors(levels@),
            forall|i: int| 0 <= i < 16 ==> #[trigger] levels@[i] <= 7,
            forall|i: int| 0 <= i < 16 ==> #[trigger] vals[i] < pow2(3),
            scale == pow2((3 * k) as nat),
            acc == run_value(vals, 3, k as nat),
            acc < pow2((3 * k) as nat),
            scale <= pow2(48),
        decreases 16 - k,
    {
        let q = alpha_selector(levels[k] as i32) as u64;
        proof {
            lemma_pow2_values();
            lemma_pow2_adds((3 * k) as nat, 3);
            assert(vals[k as int] == q);
            if k < 15 {
                lemma_pow2_strictly_increases((3 * k + 3) as nat, 48);
            }
            lemma_pow2_strictly_increases((3 * k) as nat, 48);
            lemma_pow2_adds(32, 16);
            assert(pow2(48) == 0x1_0000_0000_0000);
            assert(acc + q * scale < scale * 8) by (nonlinear_arith)
                requires
                    acc < scale,
                    q < 8,
            ;
            assert(((k + 1) - 1) * 3 == 3 * k);
        }
        acc = acc + q * scale;
        if k < 15 {
            scale = scale * 8;
        } else {
            proof {
                lemma_pow2_adds(45, 3);
            }
            scale = scale * 8;
        }
        k = k + 1;
    }
    proof {
        lemma_pow2_values();
        lemma_pow2_adds(32, 16);
    }
    let v: u64 = high as u64 + low as u64 * 256 + acc * 65536;
    let data = [(v % 0x1_0000_0000) as u32, (v / 0x1_0000_0000) as u32];
    proof {
        let value = pair_value(data@);
        assert(value == v);
        let head = high as nat + pow2(8) * (low as nat);
        assert(head < pow2(16));
        assert(value == head + pow2(16) * (acc as nat)) by (nonlinear_arith)
            requires
                value == high as nat + low as nat * 256 + acc as nat * 65536,
                head == high as nat + pow2(8) * (low as nat),
                pow2(8) == 256,
                pow2(16) == 65536,
        ;
        lemma_field_of_sum(head, acc as nat, 16, 0, 8);
        lemma_field_of_sum(head, acc as nat, 16, 8, 8);
        lemma_field_of_sum(high as nat, low as nat, 8, 0, 8);
        lemma_field_small(high as nat, 8);
        lemma_field_small(low as nat, 8);
        assert forall|j: int| 0 <= j < 16 implies #[trigger] field(value, (16 + 3 * j) as nat, 3)
            == selector_of_alpha_level(levels@[j] as int) by {
            lemma_field_of_sum(head, acc as nat, 16, (3 * j) as nat, 3);
            lemma_run_value(vals, 3, 16, j as nat);
            assert(vals[j] == selector_of_alpha_level(levels@[j] as int));
        }
    }
    data
}

/// Quantizes the alpha of the sixteen pixels of a block to four bits each: a
/// seventeenth of it, rounded down.
pub fn load_block_alpha_4bit(rgba_data: &[u8], xx: usize, yy: usize, stride: usize) -> (alpha_bits:
    [u32; 2])
    requires
        block_in_image(rgba_data@.len() as int, xx as int, yy as int, stride as int),
    ensures
        forall|k: int|
            0 <= k < 16 ==> #[trigger] nibble(alpha_bits@, k) == rgba_data@[pixel_place(
                xx as int,
                yy as int,
                k % 4,
                k / 4,
                stride as int,
                3,
            )] / 17,
{
    let limit = rgba_data.len();
    let mut alpha_bits = [0u32; 2];
    let ghost mut vals0: Seq<nat> = Seq::new(8, |i: int| 0nat);
    let ghost mut vals1: Seq<nat> = Seq::new(8, |i: int| 0nat);
    let mut w: usize = 0;
    while w < 2
        invariant
            w <= 2,
            limit == rgba_data@.len(),
            block_in_image(rgba_data@.len() as int, xx as int, yy as int, stride as int),
            forall|k: int|
                0 <= k < 8 * w ==> #[trigger] nibble(alpha_bits@, k) == rgba_data@[pixel_place(
                    xx as int,
                    yy as int,
                    k % 4,
                    k / 4,
                    stride as int,
                    3,
                )] / 17,
        decreases 2 - w,
    {
        let ghost mut vals: Seq<nat> = Seq::empty();
        let mut acc: u32 = 0;
        let mut scale: u64 = 1;
        let mut j: usize = 0;
        proof {
            lemma_pow2_values();
        }
        while j < 8
            invariant
                j <= 8,
                w < 2,
                limit == rgba_data@.len(),
                block_in_image(rgba_data@.len() as int, xx as int, yy as int, stride as int),
                vals.len() == j,
                forall|i: int|
                    0 <= i < j ==> #[trigger] vals[i] == rgba_data@[pixel_place(
                        xx as int,
                        yy as int,
                        (8 * w + i) % 4,
                        (8 * w + i) / 4,
                        stride as int,
                        3,
                    )] / 17,
                forall|i: int| 0 <= i < j ==> #[trigger] vals[i] < pow2(4),
                scale == pow2((4 * j) as nat),
                acc == run_value(vals, 4, j as nat),
                acc < pow2((4 * j) as nat),
            decreases 8 - j,
        {
            let k = 8 * w + j;
            let y = k / 4;
            let x = k % 4;
            proof {
                lemma_pixel_place_bound(
                    limit as int,
                    xx as int,
                    yy as int,
                    x as int,
                    y as int,
                    stride as int,
                    3,
                );
                lemma_pow2_values();
                vstd::arithmetic::power2::lemma2_to64();
                lemma_pow2_adds((4 * j) as nat, 4);
                if j < 7 {
                    lemma_pow2_strictly_increases((4 * j + 4) as nat, 32);
                }
                lemma_pow2_strictly_increases((4 * j) as nat, 32);
            }
            let offset = (yy * 4 + y) * stride + (xx * 4 + x) * 4 + 3;
            let alpha4 = (rgba_data[offset] / 17) as u32;
            let ghost old_vals = vals;
            proof {
                vals = vals.push(alpha4 as nat);
                assert(acc + alpha4 * scale < scale * 16) by (nonlinear_arith)
                    requires
                        acc < scale,
                        alpha4 < 16,
                ;
                assert(((j + 1) - 1) * 4 == 4 * j);
                lemma_run_prefix(old_vals, vals, 4, j as nat);
            }
            acc = acc + alpha4 * (scale as u32);
            scale = scale * 16;
            j = j + 1;
        }
        let ghost before = alpha_bits@;
        alpha_bits[w] = acc;
        proof {
            assert forall|k: int| 0 <= k < 8 * (w + 1) implies #[trigger] nibble(alpha_bits@, k)
                == rgba_data@[pixel_place(xx as int, yy as int, k % 4, k / 4, stride as int, 3)]
                / 17 by {
                if k < 8 * w {
                    assert(nibble(before, k) == nibble(alpha_bits@, k));
                } else {
                    let i = k - 8 * w;
                    lemma_run_value(vals, 4, 8, i as nat);
                    assert(vals[i] == rgba_data@[pixel_place(
                        xx as int,
                        yy as int,
                        (8 * w + i) % 4,
                        (8 * w + i) / 4,
                        stride as int,
                        3,
                    )] / 17);
                }
            }
        }
        w = w + 1;
    }
    alpha_bits
}

/// A run keeps its value when numbers are added behind it.
pub proof fn lemma_run_prefix(a: Seq<nat>, b: Seq<nat>, width: nat, n: nat)
    requires
        n <= a.len(),
        n <= b.len(),
        forall|i: int| 0 <= i < n ==> a[i] == b[i],
    ensures
        run_value(a, width, n) == run_value(b, width, n),
    decreases n,
{
    if n > 0 {
        lemma_run_prefix(a, b, width, (n - 1) as nat);
    }
}

/// A colour block that is laid out from two endpoints and sixteen levels
/// decodes, pixel by pixel, to the palette entry of the level of the pixel.
pub proof fn lemma_color_block_decodes(
    data: Seq<u32>,
    p0: nat,
    p1: nat,
    qbits: u32,
    opaque_mode: bool,
    m: int,
)
    requires
        data.len() == 2,
        field(pair_value(data), 0, 16) == p0,
        field(pair_value(data), 16, 16) == p1,
        forall|k: int|
            0 <= k < 16 ==> #[trigger] field(pair_value(data), (32 + 2 * k) as nat, 2)
                == selector_of_level(level_at(qbits, k)),
        0 <= m < 64,
    ensures
        color_tile(pair_value(data), opaque_mode)[m] == palette_channel(
            p0,
            p1,
            opaque_mode,
            selector_of_level(level_at(qbits, m / 4)) as int,
            m % 4,
        ) as u8,
{
    assert(field(pair_value(data), (32 + 2 * (m / 4)) as nat, 2) == selector_of_level(
        level_at(qbits, m / 4),
    ));
}

/// A smooth alpha block that is laid out from two endpoints and sixteen
/// levels decodes, pixel by pixel, to the palette entry of the level of the
/// pixel.
pub proof fn lemma_alpha_block_decodes(data: Seq<u32>, low: nat, high: nat, levels: Seq<u8>, k: int)
    requires
        data.len() == 2,
        levels.len() == 16,
        field(pair_value(data), 0, 8) == high,
        field(pair_value(data), 8, 8) == low,
        forall|j: int|
            0 <= j < 16 ==> #[trigger] field(pair_value(data), (16 + 3 * j) as nat, 3)
                == selector_of_alpha_level(levels[j] as int),
        0 <= k < 16,
    ensures
        smooth_alpha_tile(pair_value(data))[k] == alpha_palette(
            high as int,
            low as int,
            selector_of_alpha_level(levels[k] as int),
        ) as u8,
{
    assert(field(pair_value(data), (16 + 3 * k) as nat, 3) == selector_of_alpha_level(
        levels[k] as int,
    ));
}

/// The alpha of a pixel that is quantized to four bits and decoded again is
/// the greatest multiple of seventeen that is not above it.
pub proof fn lemma_sharp_alpha_round_trip(alpha_bits: Seq<u32>, alpha: u8, k: int)
    requires
        alpha_bits.len() == 2,
        0 <= k < 16,
        nibble(alpha_bits, k) == alpha / 17,
    ensures
        sharp_alpha_tile(pair_value(alpha_bits))[k] == (alpha / 17) * 17,
        alpha % 17 == 0 ==> sharp_alpha_tile(pair_value(alpha_bits))[k] == alpha,
{
    lemma_pow2_values();
    let low = alpha_bits[0] as nat;
    let high = alpha_bits[1] as nat;
    let v = pair_value(alpha_bits);
    assert(v == low + pow2(32) * high) by (nonlinear_arith)
        requires
            v == low + high * 0x1_0000_0000,
            pow2(32) == 0x1_0000_0000,
    ;
    if k < 8 {
        lemma_field_of_sum(low, high, 32, (4 * k) as nat, 4);
        assert(field(v, (4 * k) as nat, 4) == nibble(alpha_bits, k));
    } else {
        lemma_field_of_sum(low, high, 32, (4 * (k - 8)) as nat, 4);
        assert(field(v, (32 + 4 * (k - 8)) as nat, 4) == nibble(alpha_bits, k));
    }
}

} // verus!
