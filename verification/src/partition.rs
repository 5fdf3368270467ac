//! The partition shapes of the partitioned formats, their anchor pixels,
//! and the interpolation weights.
use vstd::arithmetic::power2::pow2;
use vstd::prelude::*;

verus! {

/// The shapes, one word each: pixel `k` belongs to the subset that bits `2k` and
/// `2k + 1` spell. Entries 0 to 63 split a block in two, entries 64 to 127 in three.
pub open spec fn pattern_table() -> Seq<u32> {
    seq![
        0x50505050, 0x40404040, 0x54545454, 0x54505040, 0x50404000, 0x55545450,
        0x55545040, 0x54504000, 0x50400000, 0x55555450, 0x55544000, 0x54400000,
        0x55555440, 0x55550000, 0x55555500, 0x55000000, 0x55150100, 0x00004054,
        0x15010000, 0x00405054, 0x00004050, 0x15050100, 0x05010000, 0x40505054,
        0x00404050, 0x05010100, 0x14141414, 0x05141450, 0x01155440, 0x00555500,
        0x15014054, 0x05414150, 0x44444444, 0x55005500, 0x11441144, 0x05055050,
        0x05500550, 0x11114444, 0x41144114, 0x44111144, 0x15055054, 0x01055040,
        0x05041050, 0x05455150, 0x14414114, 0x50050550, 0x41411414, 0x00141400,
        0x00041504, 0x00105410, 0x10541000, 0x04150400, 0x50410514, 0x41051450,
        0x05415014, 0x14054150, 0x41050514, 0x41505014, 0x40011554, 0x54150140,
        0x50505500, 0x00555050, 0x15151010, 0x54540404, 0xAA685050, 0x6A5A5040,
        0x5A5A4200, 0x5450A0A8, 0xA5A50000, 0xA0A05050, 0x5555A0A0, 0x5A5A5050,
        0xAA550000, 0xAA555500, 0xAAAA5500, 0x90909090, 0x94949494, 0xA4A4A4A4,
        0xA9A59450, 0x2A0A4250, 0xA5945040, 0x0A425054, 0xA5A5A500, 0x55A0A0A0,
        0xA8A85454, 0x6A6A4040, 0xA4A45000, 0x1A1A0500, 0x0050A4A4, 0xAAA59090,
        0x14696914, 0x69691400, 0xA08585A0, 0xAA821414, 0x50A4A450, 0x6A5A0200,
        0xA9A58000, 0x5090A0A8, 0xA8A09050, 0x24242424, 0x00AA5500, 0x24924924,
        0x24499224, 0x50A50A50, 0x500AA550, 0xAAAA4444, 0x66660000, 0xA5A0A5A0,
        0x50A050A0, 0x69286928, 0x44AAAA44, 0x66666600, 0xAA444444, 0x54A854A8,
        0x95809580, 0x96969600, 0xA85454A8, 0x80959580, 0xAA141414, 0x96960000,
        0xAAAA1414, 0xA05050A0, 0xA0A5A5A0, 0x96000000, 0x40804080, 0xA9A8A9A8,
        0xAAAAAA44, 0x2A4A5254,
    ]
}

/// The shapes again, as pixel masks: the low sixteen bits mark the pixels of
/// subset 0, the high sixteen those of subset 1.
pub open spec fn pattern_mask_table() -> Seq<u32> {
    seq![
        0xCCCC3333, 0x88887777, 0xEEEE1111, 0xECC81337, 0xC880377F, 0xFEEC0113,
        0xFEC80137, 0xEC80137F, 0xC80037FF, 0xFFEC0013, 0xFE80017F, 0xE80017FF,
        0xFFE80017, 0xFF0000FF, 0xFFF0000F, 0xF0000FFF, 0xF71008EF, 0x008EFF71,
        0x71008EFF, 0x08CEF731, 0x008CFF73, 0x73108CEF, 0x3100CEFF, 0x8CCE7331,
        0x088CF773, 0x3110CEEF, 0x66669999, 0x366CC993, 0x17E8E817, 0x0FF0F00F,
        0x718E8E71, 0x399CC663, 0xAAAA5555, 0xF0F00F0F, 0x5A5AA5A5, 0x33CCCC33,
        0x3C3CC3C3, 0x55AAAA55, 0x96966969, 0xA55A5AA5, 0x73CE8C31, 0x13C8EC37,
        0x324CCDB3, 0x3BDCC423, 0x69969669, 0xC33C3CC3, 0x99666699, 0x0660F99F,
        0x0272FD8D, 0x04E4FB1B, 0x4E40B1BF, 0x2720D8DF, 0xC93636C9, 0x936C6C93,
        0x39C6C639, 0x639C9C63, 0x93366CC9, 0x9CC66339, 0x817E7E81, 0xE71818E7,
        0xCCF0330F, 0x0FCCF033, 0x774488BB, 0xEE2211DD, 0x08CC0133, 0x8CC80037,
        0xCC80006F, 0xEC001331, 0x330000FF, 0x00CC3333, 0xFF000033, 0xCCCC0033,
        0x0F0000FF, 0x0FF0000F, 0x00F0000F, 0x44443333, 0x66661111, 0x22221111,
        0x136C0013, 0x008C8C63, 0x36C80137, 0x08CEC631, 0x3330000F, 0xF0000333,
        0x00EE1111, 0x88880077, 0x22C0113F, 0x443088CF, 0x0C22F311, 0x03440033,
        0x69969009, 0x9960009F, 0x03303443, 0x00660699, 0xC22C3113, 0x8C0000EF,
        0x1300007F, 0xC4003331, 0x004C1333, 0x22229999, 0x00F0F00F, 0x24929249,
        0x29429429, 0xC30C30C3, 0xC03C3C03, 0x00AA0055, 0xAA0000FF, 0x30300303,
        0xC0C03333, 0x90900909, 0xA00A5005, 0xAAA0000F, 0x0AAA0555, 0xE0E01111,
        0x70700707, 0x6660000F, 0x0EE01111, 0x07707007, 0x06660999, 0x660000FF,
        0x00660099, 0x0CC03333, 0x03303003, 0x60000FFF, 0x80807777, 0x10100101,
        0x000A0005, 0x08CE8421,
    ]
}

/// The anchor pixels: the high nibble is the anchor of subset 1, the low nibble that
/// of subset 2. The anchor of subset 0 is always pixel 0.
pub open spec fn skip_table() -> Seq<u32> {
    seq![
        0xF0, 0xF0, 0xF0, 0xF0, 0xF0, 0xF0, 0xF0, 0xF0,
        0xF0, 0xF0, 0xF0, 0xF0, 0xF0, 0xF0, 0xF0, 0xF0,
        0xF0, 0x20, 0x80, 0x20, 0x20, 0x80, 0x80, 0xF0,
        0x20, 0x80, 0x20, 0x20, 0x80, 0x80, 0x20, 0x20,
        0xF0, 0xF0, 0x60, 0x80, 0x20, 0x80, 0xF0, 0xF0,
        0x20, 0x80, 0x20, 0x20, 0x20, 0xF0, 0xF0, 0x60,
        0x60, 0x20, 0x60, 0x80, 0xF0, 0xF0, 0x20, 0x20,
        0xF0, 0xF0, 0xF0, 0xF0, 0xF0, 0x20, 0x20, 0xF0,
        0x3F, 0x38, 0xF8, 0xF3, 0x8F, 0x3F, 0xF3, 0xF8,
        0x8F, 0x8F, 0x6F, 0x6F, 0x6F, 0x5F, 0x3F, 0x38,
        0x3F, 0x38, 0x8F, 0xF3, 0x3F, 0x38, 0x6F, 0xA8,
        0x53, 0x8F, 0x86, 0x6A, 0x8F, 0x5F, 0xFA, 0xF8,
        0x8F, 0xF3, 0x3F, 0x5A, 0x6A, 0xA8, 0x89, 0xFA,
        0xF6, 0x3F, 0xF8, 0x5F, 0xF3, 0xF6, 0xF6, 0xF8,
        0x3F, 0xF3, 0x5F, 0x5F, 0x5F, 0x8F, 0x5F, 0xAF,
        0x5F, 0xAF, 0x8F, 0xDF, 0xF3, 0xCF, 0x3F, 0x38,
    ]
}

/// The subset of pixel `k` under shape `part_id`.
pub open spec fn subset_of(part_id: int, k: int) -> int {
    (pattern_table()[part_id] as int / pow2((2 * k) as nat) as int) % 4
}

proof fn lemma_two_way_words(p: u32)
    by (bit_vector)
    requires
        p == 0x50505050u32 ||
        p == 0x40404040u32 ||
        p == 0x54545454u32 ||
        p == 0x54505040u32 ||
        p == 0x50404000u32 ||
        p == 0x55545450u32 ||
        p == 0x55545040u32 ||
        p == 0x54504000u32 ||
        p == 0x50400000u32 ||
        p == 0x55555450u32 ||
        p == 0x55544000u32 ||
        p == 0x54400000u32 ||
        p == 0x55555440u32 ||
        p == 0x55550000u32 ||
        p == 0x55555500u32 ||
        p == 0x55000000u32 ||
        p == 0x55150100u32 ||
        p == 0x00004054u32 ||
        p == 0x15010000u32 ||
        p == 0x00405054u32 ||
        p == 0x00004050u32 ||
        p == 0x15050100u32 ||
        p == 0x05010000u32 ||
        p == 0x40505054u32 ||
        p == 0x00404050u32 ||
        p == 0x05010100u32 ||
        p == 0x14141414u32 ||
        p == 0x05141450u32 ||
        p == 0x01155440u32 ||
        p == 0x00555500u32 ||
        p == 0x15014054u32 ||
        p == 0x05414150u32 ||
        p == 0x44444444u32 ||
        p == 0x55005500u32 ||
        p == 0x11441144u32 ||
        p == 0x05055050u32 ||
        p == 0x05500550u32 ||
        p == 0x11114444u32 ||
        p == 0x41144114u32 ||
        p == 0x44111144u32 ||
        p == 0x15055054u32 ||
        p == 0x01055040u32 ||
        p == 0x05041050u32 ||
        p == 0x05455150u32 ||
        p == 0x14414114u32 ||
        p == 0x50050550u32 ||
        p == 0x41411414u32 ||
        p == 0x00141400u32 ||
        p == 0x00041504u32 ||
        p == 0x00105410u32 ||
        p == 0x10541000u32 ||
        p == 0x04150400u32 ||
        p == 0x50410514u32 ||
        p == 0x41051450u32 ||
        p == 0x05415014u32 ||
        p == 0x14054150u32 ||
        p == 0x41050514u32 ||
        p == 0x41505014u32 ||
        p == 0x40011554u32 ||
        p == 0x54150140u32 ||
        p == 0x50505500u32 ||
        p == 0x00555050u32 ||
        p == 0x15151010u32 ||
        p == 0x54540404u32,
    ensures
        p & 0xAAAA_AAAAu32 == 0,
{
}

proof fn lemma_three_way_words(p: u32)
    by (bit_vector)
    requires
        p == 0xAA685050u32 ||
        p == 0x6A5A5040u32 ||
        p == 0x5A5A4200u32 ||
        p == 0x5450A0A8u32 ||
        p == 0xA5A50000u32 ||
        p == 0xA0A05050u32 ||
        p == 0x5555A0A0u32 ||
        p == 0x5A5A5050u32 ||
        p == 0xAA550000u32 ||
        p == 0xAA555500u32 ||
        p == 0xAAAA5500u32 ||
        p == 0x90909090u32 ||
        p == 0x94949494u32 ||
        p == 0xA4A4A4A4u32 ||
        p == 0xA9A59450u32 ||
        p == 0x2A0A4250u32 ||
        p == 0xA5945040u32 ||
        p == 0x0A425054u32 ||
        p == 0xA5A5A500u32 ||
        p == 0x55A0A0A0u32 ||
        p == 0xA8A85454u32 ||
        p == 0x6A6A4040u32 ||
        p == 0xA4A45000u32 ||
        p == 0x1A1A0500u32 ||
        p == 0x0050A4A4u32 ||
        p == 0xAAA59090u32 ||
        p == 0x14696914u32 ||
        p == 0x69691400u32 ||
        p == 0xA08585A0u32 ||
        p == 0xAA821414u32 ||
        p == 0x50A4A450u32 ||
        p == 0x6A5A0200u32 ||
        p == 0xA9A58000u32 ||
        p == 0x5090A0A8u32 ||
        p == 0xA8A09050u32 ||
        p == 0x24242424u32 ||
        p == 0x00AA5500u32 ||
        p == 0x24924924u32 ||
        p == 0x24499224u32 ||
        p == 0x50A50A50u32 ||
        p == 0x500AA550u32 ||
        p == 0xAAAA4444u32 ||
        p == 0x66660000u32 ||
        p == 0xA5A0A5A0u32 ||
        p == 0x50A050A0u32 ||
        p == 0x69286928u32 ||
        p == 0x44AAAA44u32 ||
        p == 0x66666600u32 ||
        p == 0xAA444444u32 ||
        p == 0x54A854A8u32 ||
        p == 0x95809580u32 ||
        p == 0x96969600u32 ||
        p == 0xA85454A8u32 ||
        p == 0x80959580u32 ||
        p == 0xAA141414u32 ||
        p == 0x96960000u32 ||
        p == 0xAAAA1414u32 ||
        p == 0xA05050A0u32 ||
        p == 0xA0A5A5A0u32 ||
        p == 0x96000000u32 ||
        p == 0x40804080u32 ||
        p == 0xA9A8A9A8u32 ||
        p == 0xAAAAAA44u32 ||
        p == 0x2A4A5254u32,
    ensures
        p & (p >> 1u32) & 0x5555_5555u32 == 0,
{
}

proof fn lemma_digit(p: u32, k: u32)
    by (bit_vector)
    requires
        k < 16,
    ensures
        (p >> (2 * k) as u32) & 3u32 <= 3,
        p & 0xAAAA_AAAAu32 == 0 ==> (p >> (2 * k) as u32) & 3u32 <= 1,
        p & (p >> 1u32) & 0x5555_5555u32 == 0 ==> (p >> (2 * k) as u32) & 3u32 <= 2,
{
}

/// Under a shape that splits a block in two every pixel lies in subset 0 or 1,
/// under one that splits it in three in subset 0, 1 or 2.
pub proof fn lemma_subset_bound(part_id: int, k: int)
    requires
        0 <= part_id < 128,
        0 <= k < 16,
    ensures
        0 <= subset_of(part_id, k) <= (if part_id < 64 {
            1int
        } else {
            2int
        }),
{
    let p = pattern_table()[part_id];
    let k32 = k as u32;
    let sh = (2 * k) as u32;
    lemma_digit(p, k32);
    if part_id < 64 {
        lemma_two_way_words(p);
    } else {
        lemma_three_way_words(p);
    }
    vstd::bits::lemma_u32_shr_is_div(p, sh);
    vstd::bits::lemma_u32_low_bits_mask_is_mod(p >> sh, 2);
    vstd::arithmetic::power2::lemma2_to64();
    assert(vstd::bits::low_bits_mask(2) == 3) by {
        vstd::bits::lemma_low_bits_mask_values();
    }
}

/// The anchor pixel of subset `subset` under shape `part_id`.
pub open spec fn anchor_of(part_id: int, subset: int) -> int {
    if subset == 0 {
        0
    } else if subset == 1 {
        skip_table()[part_id] as int / 16
    } else {
        skip_table()[part_id] as int % 16
    }
}

/// The pixels of subset `j` under shape `part_id` as a mask, bit `k` for pixel `k`.
/// For `j == 2` the mask is the complement of the two others over all 32 bits.
pub open spec fn pattern_mask(part_id: int, j: int) -> int {
    let packed = pattern_mask_table()[part_id] as int;
    if j == 2 {
        0xFFFF_FFFF - packed % 0x1_0000 - packed / 0x1_0000
    } else if j == 0 {
        packed % 0x1_0000
    } else {
        packed / 0x1_0000
    }
}

/// The words of the two tables of shapes, entry by entry: a pixel is marked
/// in the mask of subset 0 or 1 exactly where the shape puts it there.
proof fn lemma_mask_words(p: u32, m: u32, k: u32)
    by (bit_vector)
    requires
        k < 16,
        (p == 0x50505050u32 && m == 0xCCCC3333u32) ||
        (p == 0x40404040u32 && m == 0x88887777u32) ||
        (p == 0x54545454u32 && m == 0xEEEE1111u32) ||
        (p == 0x54505040u32 && m == 0xECC81337u32) ||
        (p == 0x50404000u32 && m == 0xC880377Fu32) ||
        (p == 0x55545450u32 && m == 0xFEEC0113u32) ||
        (p == 0x55545040u32 && m == 0xFEC80137u32) ||
        (p == 0x54504000u32 && m == 0xEC80137Fu32) ||
        (p == 0x50400000u32 && m == 0xC80037FFu32) ||
        (p == 0x55555450u32 && m == 0xFFEC0013u32) ||
        (p == 0x55544000u32 && m == 0xFE80017Fu32) ||
        (p == 0x54400000u32 && m == 0xE80017FFu32) ||
        (p == 0x55555440u32 && m == 0xFFE80017u32) ||
        (p == 0x55550000u32 && m == 0xFF0000FFu32) ||
        (p == 0x55555500u32 && m == 0xFFF0000Fu32) ||
        (p == 0x55000000u32 && m == 0xF0000FFFu32) ||
        (p == 0x55150100u32 && m == 0xF71008EFu32) ||
        (p == 0x00004054u32 && m == 0x008EFF71u32) ||
        (p == 0x15010000u32 && m == 0x71008EFFu32) ||
        (p == 0x00405054u32 && m == 0x08CEF731u32) ||
        (p == 0x00004050u32 && m == 0x008CFF73u32) ||
        (p == 0x15050100u32 && m == 0x73108CEFu32) ||
        (p == 0x05010000u32 && m == 0x3100CEFFu32) ||
        (p == 0x40505054u32 && m == 0x8CCE7331u32) ||
        (p == 0x00404050u32 && m == 0x088CF773u32) ||
        (p == 0x05010100u32 && m == 0x3110CEEFu32) ||
        (p == 0x14141414u32 && m == 0x66669999u32) ||
        (p == 0x05141450u32 && m == 0x366CC993u32) ||
        (p == 0x01155440u32 && m == 0x17E8E817u32) ||
        (p == 0x00555500u32 && m == 0x0FF0F00Fu32) ||
        (p == 0x15014054u32 && m == 0x718E8E71u32) ||
        (p == 0x05414150u32 && m == 0x399CC663u32) ||
        (p == 0x44444444u32 && m == 0xAAAA5555u32) ||
        (p == 0x55005500u32 && m == 0xF0F00F0Fu32) ||
        (p == 0x11441144u32 && m == 0x5A5AA5A5u32) ||
        (p == 0x05055050u32 && m == 0x33CCCC33u32) ||
        (p == 0x05500550u32 && m == 0x3C3CC3C3u32) ||
        (p == 0x11114444u32 && m == 0x55AAAA55u32) ||
        (p == 0x41144114u32 && m == 0x96966969u32) ||
        (p == 0x44111144u32 && m == 0xA55A5AA5u32) ||
        (p == 0x15055054u32 && m == 0x73CE8C31u32) ||
        (p == 0x01055040u32 && m == 0x13C8EC37u32) ||
        (p == 0x05041050u32 && m == 0x324CCDB3u32) ||
        (p == 0x05455150u32 && m == 0x3BDCC423u32) ||
        (p == 0x14414114u32 && m == 0x69969669u32) ||
        (p == 0x50050550u32 && m == 0xC33C3CC3u32) ||
        (p == 0x41411414u32 && m == 0x99666699u32) ||
        (p == 0x00141400u32 && m == 0x0660F99Fu32) ||
        (p == 0x00041504u32 && m == 0x0272FD8Du32) ||
        (p == 0x00105410u32 && m == 0x04E4FB1Bu32) ||
        (p == 0x10541000u32 && m == 0x4E40B1BFu32) ||
        (p == 0x04150400u32 && m == 0x2720D8DFu32) ||
        (p == 0x50410514u32 && m == 0xC93636C9u32) ||
        (p == 0x41051450u32 && m == 0x936C6C93u32) ||
        (p == 0x05415014u32 && m == 0x39C6C639u32) ||
        (p == 0x14054150u32 && m == 0x639C9C63u32) ||
        (p == 0x41050514u32 && m == 0x93366CC9u32) ||
        (p == 0x41505014u32 && m == 0x9CC66339u32) ||
        (p == 0x40011554u32 && m == 0x817E7E81u32) ||
        (p == 0x54150140u32 && m == 0xE71818E7u32) ||
        (p == 0x50505500u32 && m == 0xCCF0330Fu32) ||
        (p == 0x00555050u32 && m == 0x0FCCF033u32) ||
        (p == 0x15151010u32 && m == 0x774488BBu32) ||
        (p == 0x54540404u32 && m == 0xEE2211DDu32) ||
        (p == 0xAA685050u32 && m == 0x08CC0133u32) ||
        (p == 0x6A5A5040u32 && m == 0x8CC80037u32) ||
        (p == 0x5A5A4200u32 && m == 0xCC80006Fu32) ||
        (p == 0x5450A0A8u32 && m == 0xEC001331u32) ||
        (p == 0xA5A50000u32 && m == 0x330000FFu32) ||
        (p == 0xA0A05050u32 && m == 0x00CC3333u32) ||
        (p == 0x5555A0A0u32 && m == 0xFF000033u32) ||
        (p == 0x5A5A5050u32 && m == 0xCCCC0033u32) ||
        (p == 0xAA550000u32 && m == 0x0F0000FFu32) ||
        (p == 0xAA555500u32 && m == 0x0FF0000Fu32) ||
        (p == 0xAAAA5500u32 && m == 0x00F0000Fu32) ||
        (p == 0x90909090u32 && m == 0x44443333u32) ||
        (p == 0x94949494u32 && m == 0x66661111u32) ||
        (p == 0xA4A4A4A4u32 && m == 0x22221111u32) ||
        (p == 0xA9A59450u32 && m == 0x136C0013u32) ||
        (p == 0x2A0A4250u32 && m == 0x008C8C63u32) ||
        (p == 0xA5945040u32 && m == 0x36C80137u32) ||
        (p == 0x0A425054u32 && m == 0x08CEC631u32) ||
        (p == 0xA5A5A500u32 && m == 0x3330000Fu32) ||
        (p == 0x55A0A0A0u32 && m == 0xF0000333u32) ||
        (p == 0xA8A85454u32 && m == 0x00EE1111u32) ||
        (p == 0x6A6A4040u32 && m == 0x88880077u32) ||
        (p == 0xA4A45000u32 && m == 0x22C0113Fu32) ||
        (p == 0x1A1A0500u32 && m == 0x443088CFu32) ||
        (p == 0x0050A4A4u32 && m == 0x0C22F311u32) ||
        (p == 0xAAA59090u32 && m == 0x03440033u32) ||
        (p == 0x14696914u32 && m == 0x69969009u32) ||
        (p == 0x69691400u32 && m == 0x9960009Fu32) ||
        (p == 0xA08585A0u32 && m == 0x03303443u32) ||
        (p == 0xAA821414u32 && m == 0x00660699u32) ||
        (p == 0x50A4A450u32 && m == 0xC22C3113u32) ||
        (p == 0x6A5A0200u32 && m == 0x8C0000EFu32) ||
        (p == 0xA9A58000u32 && m == 0x1300007Fu32) ||
        (p == 0x5090A0A8u32 && m == 0xC4003331u32) ||
        (p == 0xA8A09050u32 && m == 0x004C1333u32) ||
        (p == 0x24242424u32 && m == 0x22229999u32) ||
        (p == 0x00AA5500u32 && m == 0x00F0F00Fu32) ||
        (p == 0x24924924u32 && m == 0x24929249u32) ||
        (p == 0x24499224u32 && m == 0x29429429u32) ||
        (p == 0x50A50A50u32 && m == 0xC30C30C3u32) ||
        (p == 0x500AA550u32 && m == 0xC03C3C03u32) ||
        (p == 0xAAAA4444u32 && m == 0x00AA0055u32) ||
        (p == 0x66660000u32 && m == 0xAA0000FFu32) ||
        (p == 0xA5A0A5A0u32 && m == 0x30300303u32) ||
        (p == 0x50A050A0u32 && m == 0xC0C03333u32) ||
        (p == 0x69286928u32 && m == 0x90900909u32) ||
        (p == 0x44AAAA44u32 && m == 0xA00A5005u32) ||
        (p == 0x66666600u32 && m == 0xAAA0000Fu32) ||
        (p == 0xAA444444u32 && m == 0x0AAA0555u32) ||
        (p == 0x54A854A8u32 && m == 0xE0E01111u32) ||
        (p == 0x95809580u32 && m == 0x70700707u32) ||
        (p == 0x96969600u32 && m == 0x6660000Fu32) ||
        (p == 0xA85454A8u32 && m == 0x0EE01111u32) ||
        (p == 0x80959580u32 && m == 0x07707007u32) ||
        (p == 0xAA141414u32 && m == 0x06660999u32) ||
        (p == 0x96960000u32 && m == 0x660000FFu32) ||
        (p == 0xAAAA1414u32 && m == 0x00660099u32) ||
        (p == 0xA05050A0u32 && m == 0x0CC03333u32) ||
        (p == 0xA0A5A5A0u32 && m == 0x03303003u32) ||
        (p == 0x96000000u32 && m == 0x60000FFFu32) ||
        (p == 0x40804080u32 && m == 0x80807777u32) ||
        (p == 0xA9A8A9A8u32 && m == 0x10100101u32) ||
        (p == 0xAAAAAA44u32 && m == 0x000A0005u32) ||
        (p == 0x2A4A5254u32 && m == 0x08CE8421u32),
    ensures
        ((p >> (2 * k) as u32) & 3u32 == 0) <==> ((m >> k) & 1u32 == 1),
        ((p >> (2 * k) as u32) & 3u32 == 1) <==> ((m >> (16 + k) as u32) & 1u32 == 1),
        (m & 0xFFFFu32) & (m >> 16u32) == 0,
{
}

/// The words of the table of shapes and of the table of anchors, entry by
/// entry: the anchor of subset 1 is a pixel of subset 1.
proof fn lemma_anchor_words(p: u32, m: u32)
    by (bit_vector)
    requires
        (p == 0x50505050u32 && m == 0xF0u32) ||
        (p == 0x40404040u32 && m == 0xF0u32) ||
        (p == 0x54545454u32 && m == 0xF0u32) ||
        (p == 0x54505040u32 && m == 0xF0u32) ||
        (p == 0x50404000u32 && m == 0xF0u32) ||
        (p == 0x55545450u32 && m == 0xF0u32) ||
        (p == 0x55545040u32 && m == 0xF0u32) ||
        (p == 0x54504000u32 && m == 0xF0u32) ||
        (p == 0x50400000u32 && m == 0xF0u32) ||
        (p == 0x55555450u32 && m == 0xF0u32) ||
        (p == 0x55544000u32 && m == 0xF0u32) ||
        (p == 0x54400000u32 && m == 0xF0u32) ||
        (p == 0x55555440u32 && m == 0xF0u32) ||
        (p == 0x55550000u32 && m == 0xF0u32) ||
        (p == 0x55555500u32 && m == 0xF0u32) ||
        (p == 0x55000000u32 && m == 0xF0u32) ||
        (p == 0x55150100u32 && m == 0xF0u32) ||
        (p == 0x00004054u32 && m == 0x20u32) ||
        (p == 0x15010000u32 && m == 0x80u32) ||
        (p == 0x00405054u32 && m == 0x20u32) ||
        (p == 0x00004050u32 && m == 0x20u32) ||
        (p == 0x15050100u32 && m == 0x80u32) ||
        (p == 0x05010000u32 && m == 0x80u32) ||
        (p == 0x40505054u32 && m == 0xF0u32) ||
        (p == 0x00404050u32 && m == 0x20u32) ||
        (p == 0x05010100u32 && m == 0x80u32) ||
        (p == 0x14141414u32 && m == 0x20u32) ||
        (p == 0x05141450u32 && m == 0x20u32) ||
        (p == 0x01155440u32 && m == 0x80u32) ||
        (p == 0x00555500u32 && m == 0x80u32) ||
        (p == 0x15014054u32 && m == 0x20u32) ||
        (p == 0x05414150u32 && m == 0x20u32) ||
        (p == 0x44444444u32 && m == 0xF0u32) ||
        (p == 0x55005500u32 && m == 0xF0u32) ||
        (p == 0x11441144u32 && m == 0x60u32) ||
        (p == 0x05055050u32 && m == 0x80u32) ||
        (p == 0x05500550u32 && m == 0x20u32) ||
        (p == 0x11114444u32 && m == 0x80u32) ||
        (p == 0x41144114u32 && m == 0xF0u32) ||
        (p == 0x44111144u32 && m == 0xF0u32) ||
        (p == 0x15055054u32 && m == 0x20u32) ||
        (p == 0x01055040u32 && m == 0x80u32) ||
        (p == 0x05041050u32 && m == 0x20u32) ||
        (p == 0x05455150u32 && m == 0x20u32) ||
        (p == 0x14414114u32 && m == 0x20u32) ||
        (p == 0x50050550u32 && m == 0xF0u32) ||
        (p == 0x41411414u32 && m == 0xF0u32) ||
        (p == 0x00141400u32 && m == 0x60u32) ||
        (p == 0x00041504u32 && m == 0x60u32) ||
        (p == 0x00105410u32 && m == 0x20u32) ||
        (p == 0x10541000u32 && m == 0x60u32) ||
        (p == 0x04150400u32 && m == 0x80u32) ||
        (p == 0x50410514u32 && m == 0xF0u32) ||
        (p == 0x41051450u32 && m == 0xF0u32) ||
        (p == 0x05415014u32 && m == 0x20u32) ||
        (p == 0x14054150u32 && m == 0x20u32) ||
        (p == 0x41050514u32 && m == 0xF0u32) ||
        (p == 0x41505014u32 && m == 0xF0u32) ||
        (p == 0x40011554u32 && m == 0xF0u32) ||
        (p == 0x54150140u32 && m == 0xF0u32) ||
        (p == 0x50505500u32 && m == 0xF0u32) ||
        (p == 0x00555050u32 && m == 0x20u32) ||
        (p == 0x15151010u32 && m == 0x20u32) ||
        (p == 0x54540404u32 && m == 0xF0u32) ||
        (p == 0xAA685050u32 && m == 0x3Fu32) ||
        (p == 0x6A5A5040u32 && m == 0x38u32) ||
        (p == 0x5A5A4200u32 && m == 0xF8u32) ||
        (p == 0x5450A0A8u32 && m == 0xF3u32) ||
        (p == 0xA5A50000u32 && m == 0x8Fu32) ||
        (p == 0xA0A05050u32 && m == 0x3Fu32) ||
        (p == 0x5555A0A0u32 && m == 0xF3u32) ||
        (p == 0x5A5A5050u32 && m == 0xF8u32) ||
        (p == 0xAA550000u32 && m == 0x8Fu32) ||
        (p == 0xAA555500u32 && m == 0x8Fu32) ||
        (p == 0xAAAA5500u32 && m == 0x6Fu32) ||
        (p == 0x90909090u32 && m == 0x6Fu32) ||
        (p == 0x94949494u32 && m == 0x6Fu32) ||
        (p == 0xA4A4A4A4u32 && m == 0x5Fu32) ||
        (p == 0xA9A59450u32 && m == 0x3Fu32) ||
        (p == 0x2A0A4250u32 && m == 0x38u32) ||
        (p == 0xA5945040u32 && m == 0x3Fu32) ||
        (p == 0x0A425054u32 && m == 0x38u32) ||
        (p == 0xA5A5A500u32 && m == 0x8Fu32) ||
        (p == 0x55A0A0A0u32 && m == 0xF3u32) ||
        (p == 0xA8A85454u32 && m == 0x3Fu32) ||
        (p == 0x6A6A4040u32 && m == 0x38u32) ||
        (p == 0xA4A45000u32 && m == 0x6Fu32) ||
        (p == 0x1A1A0500u32 && m == 0xA8u32) ||
        (p == 0x0050A4A4u32 && m == 0x53u32) ||
        (p == 0xAAA59090u32 && m == 0x8Fu32) ||
        (p == 0x14696914u32 && m == 0x86u32) ||
        (p == 0x69691400u32 && m == 0x6Au32) ||
        (p == 0xA08585A0u32 && m == 0x8Fu32) ||
        (p == 0xAA821414u32 && m == 0x5Fu32) ||
        (p == 0x50A4A450u32 && m == 0xFAu32) ||
        (p == 0x6A5A0200u32 && m == 0xF8u32) ||
        (p == 0xA9A58000u32 && m == 0x8Fu32) ||
        (p == 0x5090A0A8u32 && m == 0xF3u32) ||
        (p == 0xA8A09050u32 && m == 0x3Fu32) ||
        (p == 0x24242424u32 && m == 0x5Au32) ||
        (p == 0x00AA5500u32 && m == 0x6Au32) ||
        (p == 0x24924924u32 && m == 0xA8u32) ||
        (p == 0x24499224u32 && m == 0x89u32) ||
        (p == 0x50A50A50u32 && m == 0xFAu32) ||
        (p == 0x500AA550u32 && m == 0xF6u32) ||
        (p == 0xAAAA4444u32 && m == 0x3Fu32) ||
        (p == 0x66660000u32 && m == 0xF8u32) ||
        (p == 0xA5A0A5A0u32 && m == 0x5Fu32) ||
        (p == 0x50A050A0u32 && m == 0xF3u32) ||
        (p == 0x69286928u32 && m == 0xF6u32) ||
        (p == 0x44AAAA44u32 && m == 0xF6u32) ||
        (p == 0x66666600u32 && m == 0xF8u32) ||
        (p == 0xAA444444u32 && m == 0x3Fu32) ||
        (p == 0x54A854A8u32 && m == 0xF3u32) ||
        (p == 0x95809580u32 && m == 0x5Fu32) ||
        (p == 0x96969600u32 && m == 0x5Fu32) ||
        (p == 0xA85454A8u32 && m == 0x5Fu32) ||
        (p == 0x80959580u32 && m == 0x8Fu32) ||
        (p == 0xAA141414u32 && m == 0x5Fu32) ||
        (p == 0x96960000u32 && m == 0xAFu32) ||
        (p == 0xAAAA1414u32 && m == 0x5Fu32) ||
        (p == 0xA05050A0u32 && m == 0xAFu32) ||
        (p == 0xA0A5A5A0u32 && m == 0x8Fu32) ||
        (p == 0x96000000u32 && m == 0xDFu32) ||
        (p == 0x40804080u32 && m == 0xF3u32) ||
        (p == 0xA9A8A9A8u32 && m == 0xCFu32) ||
        (p == 0xAAAAAA44u32 && m == 0x3Fu32) ||
        (p == 0x2A4A5254u32 && m == 0x38u32),
    ensures
        m >> 4u32 == m / 16u32,
        m & 15u32 == m % 16u32,
        1 <= m >> 4u32 <= 15,
        (p >> (2 * (m >> 4u32)) as u32) & 3u32 == 1,
        p & 0xAAAA_AAAAu32 == 0 ==> (m == 0x20 || m == 0x60 || m == 0x80 || m == 0xF0),
{
}

/// The same for the shapes of three subsets and the anchor of subset 2.
proof fn lemma_second_anchor_words(p: u32, m: u32)
    by (bit_vector)
    requires
        (p == 0xAA685050u32 && m == 0x3Fu32) ||
        (p == 0x6A5A5040u32 && m == 0x38u32) ||
        (p == 0x5A5A4200u32 && m == 0xF8u32) ||
        (p == 0x5450A0A8u32 && m == 0xF3u32) ||
        (p == 0xA5A50000u32 && m == 0x8Fu32) ||
        (p == 0xA0A05050u32 && m == 0x3Fu32) ||
        (p == 0x5555A0A0u32 && m == 0xF3u32) ||
        (p == 0x5A5A5050u32 && m == 0xF8u32) ||
        (p == 0xAA550000u32 && m == 0x8Fu32) ||
        (p == 0xAA555500u32 && m == 0x8Fu32) ||
        (p == 0xAAAA5500u32 && m == 0x6Fu32) ||
        (p == 0x90909090u32 && m == 0x6Fu32) ||
        (p == 0x94949494u32 && m == 0x6Fu32) ||
        (p == 0xA4A4A4A4u32 && m == 0x5Fu32) ||
        (p == 0xA9A59450u32 && m == 0x3Fu32) ||
        (p == 0x2A0A4250u32 && m == 0x38u32) ||
        (p == 0xA5945040u32 && m == 0x3Fu32) ||
        (p == 0x0A425054u32 && m == 0x38u32) ||
        (p == 0xA5A5A500u32 && m == 0x8Fu32) ||
        (p == 0x55A0A0A0u32 && m == 0xF3u32) ||
        (p == 0xA8A85454u32 && m == 0x3Fu32) ||
        (p == 0x6A6A4040u32 && m == 0x38u32) ||
        (p == 0xA4A45000u32 && m == 0x6Fu32) ||
        (p == 0x1A1A0500u32 && m == 0xA8u32) ||
        (p == 0x0050A4A4u32 && m == 0x53u32) ||
        (p == 0xAAA59090u32 && m == 0x8Fu32) ||
        (p == 0x14696914u32 && m == 0x86u32) ||
        (p == 0x69691400u32 && m == 0x6Au32) ||
        (p == 0xA08585A0u32 && m == 0x8Fu32) ||
        (p == 0xAA821414u32 && m == 0x5Fu32) ||
        (p == 0x50A4A450u32 && m == 0xFAu32) ||
        (p == 0x6A5A0200u32 && m == 0xF8u32) ||
        (p == 0xA9A58000u32 && m == 0x8Fu32) ||
        (p == 0x5090A0A8u32 && m == 0xF3u32) ||
        (p == 0xA8A09050u32 && m == 0x3Fu32) ||
        (p == 0x24242424u32 && m == 0x5Au32) ||
        (p == 0x00AA5500u32 && m == 0x6Au32) ||
        (p == 0x24924924u32 && m == 0xA8u32) ||
        (p == 0x24499224u32 && m == 0x89u32) ||
        (p == 0x50A50A50u32 && m == 0xFAu32) ||
        (p == 0x500AA550u32 && m == 0xF6u32) ||
        (p == 0xAAAA4444u32 && m == 0x3Fu32) ||
        (p == 0x66660000u32 && m == 0xF8u32) ||
        (p == 0xA5A0A5A0u32 && m == 0x5Fu32) ||
        (p == 0x50A050A0u32 && m == 0xF3u32) ||
        (p == 0x69286928u32 && m == 0xF6u32) ||
        (p == 0x44AAAA44u32 && m == 0xF6u32) ||
        (p == 0x66666600u32 && m == 0xF8u32) ||
        (p == 0xAA444444u32 && m == 0x3Fu32) ||
        (p == 0x54A854A8u32 && m == 0xF3u32) ||
        (p == 0x95809580u32 && m == 0x5Fu32) ||
        (p == 0x96969600u32 && m == 0x5Fu32) ||
        (p == 0xA85454A8u32 && m == 0x5Fu32) ||
        (p == 0x80959580u32 && m == 0x8Fu32) ||
        (p == 0xAA141414u32 && m == 0x5Fu32) ||
        (p == 0x96960000u32 && m == 0xAFu32) ||
        (p == 0xAAAA1414u32 && m == 0x5Fu32) ||
        (p == 0xA05050A0u32 && m == 0xAFu32) ||
        (p == 0xA0A5A5A0u32 && m == 0x8Fu32) ||
        (p == 0x96000000u32 && m == 0xDFu32) ||
        (p == 0x40804080u32 && m == 0xF3u32) ||
        (p == 0xA9A8A9A8u32 && m == 0xCFu32) ||
        (p == 0xAAAAAA44u32 && m == 0x3Fu32) ||
        (p == 0x2A4A5254u32 && m == 0x38u32),
    ensures
        1 <= m & 15u32 <= 15,
        (p >> (2 * (m & 15u32)) as u32) & 3u32 == 2,
        m & 15u32 != 14,
        m >> 4u32 != 14,
{
}

/// What is left of sixteen pixels when two masks that share none are taken
/// away marks the pixels that neither marks.
proof fn lemma_third_mask(m: u32, rest: u32, k: u32)
    by (bit_vector)
    requires
        k < 16,
        (m & 0xFFFFu32) & (m >> 16u32) == 0,
        rest == (0xFFFF_FFFFu32 - (m & 0xFFFFu32) - (m >> 16u32)) as u32,
    ensures
        m & 0xFFFFu32 == m % 0x1_0000u32,
        m >> 16u32 == m / 0x1_0000u32,
        ((rest >> k) & 1u32 == 1) <==> ((m >> k) & 1u32 == 0 && (m >> (16 + k) as u32) & 1u32
            == 0),
{
}

/// Whether pixel `k` is marked in the mask of subset `j` under shape `part_id`.
pub open spec fn in_mask(part_id: int, j: int, k: int) -> bool {
    crate::bits::field(pattern_mask(part_id, j) as nat, k as nat, 1) == 1
}

/// The mask of every subset marks the pixels of that subset.
#[verifier::rlimit(50)]
pub proof fn lemma_mask_is_subset(part_id: int, k: int)
    requires
        0 <= part_id < 128,
        0 <= k < 16,
    ensures
        in_mask(part_id, 0, k) <==> subset_of(part_id, k) == 0,
        in_mask(part_id, 1, k) <==> subset_of(part_id, k) == 1,
        in_mask(part_id, 2, k) <==> subset_of(part_id, k) >= 2,
        0 <= pattern_mask(part_id, 0) <= 0xFFFF,
        0 <= pattern_mask(part_id, 1) <= 0xFFFF,
        0 <= pattern_mask(part_id, 2) <= 0xFFFF_FFFF,
{
    let p = pattern_table()[part_id];
    let m = pattern_mask_table()[part_id];
    let k32 = k as u32;
    let sh = (2 * k) as u32;
    lemma_mask_words(p, m, k32);
    vstd::bits::lemma_u32_shr_is_div(p, sh);
    vstd::bits::lemma_u32_low_bits_mask_is_mod(p >> sh, 2);
    vstd::arithmetic::power2::lemma2_to64();
    assert(vstd::bits::low_bits_mask(2) == 3) by {
        vstd::bits::lemma_low_bits_mask_values();
    }
    assert(subset_of(part_id, k) == (p >> sh) & 3u32);
    crate::bits::lemma_bit_is_shift(m, k32);
    crate::bits::lemma_bit_is_shift(m, (16 + k) as u32);
    let low = (m as nat) % pow2(16);
    let high = (m as nat) / pow2(16);
    vstd::arithmetic::div_mod::lemma_fundamental_div_mod(m as int, pow2(16) as int);
    vstd::arithmetic::div_mod::lemma_mod_bound(m as int, pow2(16) as int);
    crate::bits::lemma_field_of_sum(low, high, 16, k as nat, 1);
    assert(pattern_mask(part_id, 0) == low);
    assert(pattern_mask(part_id, 1) == high);
    let rest = (0xFFFF_FFFFu32 - (m & 0xFFFFu32) - (m >> 16u32)) as u32;
    lemma_third_mask(m, rest, k32);
    assert(pattern_mask(part_id, 2) == rest);
    crate::bits::lemma_bit_is_shift(rest, k32);
}

/// The anchor of subset 1 is a pixel of subset 1 other than pixel 0, and
/// under a shape of three subsets the anchor of subset 2 is one of subset 2.
/// Under a shape of two subsets the anchor of subset 1 is pixel 2, 6, 8 or 15;
/// under one of three subsets no anchor is pixel 14.
#[verifier::rlimit(50)]
pub proof fn lemma_anchor_in_subset(part_id: int, j: int)
    requires
        0 <= part_id < 128,
        j == 1 || (j == 2 && part_id >= 64),
    ensures
        1 <= anchor_of(part_id, j) <= 15,
        subset_of(part_id, anchor_of(part_id, j)) == j,
        part_id < 64 ==> (anchor_of(part_id, 1) == 2 || anchor_of(part_id, 1) == 6 || anchor_of(
            part_id,
            1,
        ) == 8 || anchor_of(part_id, 1) == 15),
        part_id >= 64 ==> anchor_of(part_id, 1) != 14 && anchor_of(part_id, 2) != 14,
{
    if part_id < 64 {
        lemma_two_way_words(pattern_table()[part_id]);
    }
    let p = pattern_table()[part_id];
    let m = skip_table()[part_id];
    lemma_anchor_words(p, m);
    if part_id >= 64 {
        lemma_second_anchor_words(p, m);
    }
    let a = anchor_of(part_id, j) as u32;
    let sh = (2 * a) as u32;
    vstd::bits::lemma_u32_shr_is_div(p, sh);
    vstd::bits::lemma_u32_low_bits_mask_is_mod(p >> sh, 2);
    vstd::arithmetic::power2::lemma2_to64();
    assert(vstd::bits::low_bits_mask(2) == 3) by {
        vstd::bits::lemma_low_bits_mask_values();
    }
}

/// The weights of two-bit indices.
pub open spec fn weights2() -> Seq<int> {
    seq![0, 21, 43, 64]
}

/// The weights of three-bit indices.
pub open spec fn weights3() -> Seq<int> {
    seq![0, 9, 18, 27, 37, 46, 55, 64]
}

/// The weights of four-bit indices.
pub open spec fn weights4() -> Seq<int> {
    seq![0, 4, 9, 13, 17, 21, 26, 30, 34, 38, 43, 47, 51, 55, 60, 64]
}

/// The weight, out of 64, that an index of `bits` bits gives the second endpoint.
/// An index beyond the table of its width has weight 0.
pub open spec fn weight(bits: int, index: int) -> int {
    if bits == 2 {
        if index < 4 {
            weights2()[index]
        } else {
            0
        }
    } else if bits == 3 {
        if index < 8 {
            weights3()[index]
        } else {
            0
        }
    } else {
        weights4()[index]
    }
}

/// The weights of an index and of the index counted from the other end add
/// up to 64.
pub proof fn lemma_weight_mirror(bits: int, index: int)
    requires
        2 <= bits <= 4,
        0 <= index < (if bits == 2 {
            4int
        } else if bits == 3 {
            8int
        } else {
            16int
        }),
    ensures
        weight(bits, (if bits == 2 {
            3int
        } else if bits == 3 {
            7int
        } else {
            15int
        }) - index) == 64 - weight(bits, index),
{
}

/// The weight of `index` among indices of `bits` bits.
pub fn get_unquant_value(bits: u32, index: i32) -> (w: i32)
    requires
        0 <= index < 16,
    ensures
        w == weight(bits as int, index as int),
        0 <= w <= 64,
{
    let i = index as usize;
    if bits == 2 {
        let table: [i32; 16] = [0, 21, 43, 64, 0, 0, 0, 0, 0, 0, 0, 0, 0, 0, 0, 0];
        table[i]
    } else if bits == 3 {
        let table: [i32; 16] = [0, 9, 18, 27, 37, 46, 55, 64, 0, 0, 0, 0, 0, 0, 0, 0];
        table[i]
    } else {
        let table: [i32; 16] = [0, 4, 9, 13, 17, 21, 26, 30, 34, 38, 43, 47, 51, 55, 60, 64];
        table[i]
    }
}

/// The shape word of `part_id`.
pub fn get_pattern(part_id: i32) -> (pattern: u32)
    requires
        0 <= part_id < 128,
    ensures
        pattern == pattern_table()[part_id as int],
{
    let table: [u32; 128] = [
        0x50505050, 0x40404040, 0x54545454, 0x54505040, 0x50404000, 0x55545450,
        0x55545040, 0x54504000, 0x50400000, 0x55555450, 0x55544000, 0x54400000,
        0x55555440, 0x55550000, 0x55555500, 0x55000000, 0x55150100, 0x00004054,
        0x15010000, 0x00405054, 0x00004050, 0x15050100, 0x05010000, 0x40505054,
        0x00404050, 0x05010100, 0x14141414, 0x05141450, 0x01155440, 0x00555500,
        0x15014054, 0x05414150, 0x44444444, 0x55005500, 0x11441144, 0x05055050,
        0x05500550, 0x11114444, 0x41144114, 0x44111144, 0x15055054, 0x01055040,
        0x05041050, 0x05455150, 0x14414114, 0x50050550, 0x41411414, 0x00141400,
        0x00041504, 0x00105410, 0x10541000, 0x04150400, 0x50410514, 0x41051450,
        0x05415014, 0x14054150, 0x41050514, 0x41505014, 0x40011554, 0x54150140,
        0x50505500, 0x00555050, 0x15151010, 0x54540404, 0xAA685050, 0x6A5A5040,
        0x5A5A4200, 0x5450A0A8, 0xA5A50000, 0xA0A05050, 0x5555A0A0, 0x5A5A5050,
        0xAA550000, 0xAA555500, 0xAAAA5500, 0x90909090, 0x94949494, 0xA4A4A4A4,
        0xA9A59450, 0x2A0A4250, 0xA5945040, 0x0A425054, 0xA5A5A500, 0x55A0A0A0,
        0xA8A85454, 0x6A6A4040, 0xA4A45000, 0x1A1A0500, 0x0050A4A4, 0xAAA59090,
        0x14696914, 0x69691400, 0xA08585A0, 0xAA821414, 0x50A4A450, 0x6A5A0200,
        0xA9A58000, 0x5090A0A8, 0xA8A09050, 0x24242424, 0x00AA5500, 0x24924924,
        0x24499224, 0x50A50A50, 0x500AA550, 0xAAAA4444, 0x66660000, 0xA5A0A5A0,
        0x50A050A0, 0x69286928, 0x44AAAA44, 0x66666600, 0xAA444444, 0x54A854A8,
        0x95809580, 0x96969600, 0xA85454A8, 0x80959580, 0xAA141414, 0x96960000,
        0xAAAA1414, 0xA05050A0, 0xA0A5A5A0, 0x96000000, 0x40804080, 0xA9A8A9A8,
        0xAAAAAA44, 0x2A4A5254,
    ];
    table[part_id as usize]
}

/// The pixel mask of subset `j` under shape `part_id`.
pub fn get_pattern_mask(part_id: i32, j: u32) -> (mask: u32)
    requires
        0 <= part_id < 128,
    ensures
        mask == pattern_mask(part_id as int, j as int),
{
    let table: [u32; 128] = [
        0xCCCC3333, 0x88887777, 0xEEEE1111, 0xECC81337, 0xC880377F, 0xFEEC0113,
        0xFEC80137, 0xEC80137F, 0xC80037FF, 0xFFEC0013, 0xFE80017F, 0xE80017FF,
        0xFFE80017, 0xFF0000FF, 0xFFF0000F, 0xF0000FFF, 0xF71008EF, 0x008EFF71,
        0x71008EFF, 0x08CEF731, 0x008CFF73, 0x73108CEF, 0x3100CEFF, 0x8CCE7331,
        0x088CF773, 0x3110CEEF, 0x66669999, 0x366CC993, 0x17E8E817, 0x0FF0F00F,
        0x718E8E71, 0x399CC663, 0xAAAA5555, 0xF0F00F0F, 0x5A5AA5A5, 0x33CCCC33,
        0x3C3CC3C3, 0x55AAAA55, 0x96966969, 0xA55A5AA5, 0x73CE8C31, 0x13C8EC37,
        0x324CCDB3, 0x3BDCC423, 0x69969669, 0xC33C3CC3, 0x99666699, 0x0660F99F,
        0x0272FD8D, 0x04E4FB1B, 0x4E40B1BF, 0x2720D8DF, 0xC93636C9, 0x936C6C93,
        0x39C6C639, 0x639C9C63, 0x93366CC9, 0x9CC66339, 0x817E7E81, 0xE71818E7,
        0xCCF0330F, 0x0FCCF033, 0x774488BB, 0xEE2211DD, 0x08CC0133, 0x8CC80037,
        0xCC80006F, 0xEC001331, 0x330000FF, 0x00CC3333, 0xFF000033, 0xCCCC0033,
        0x0F0000FF, 0x0FF0000F, 0x00F0000F, 0x44443333, 0x66661111, 0x22221111,
        0x136C0013, 0x008C8C63, 0x36C80137, 0x08CEC631, 0x3330000F, 0xF0000333,
        0x00EE1111, 0x88880077, 0x22C0113F, 0x443088CF, 0x0C22F311, 0x03440033,
        0x69969009, 0x9960009F, 0x03303443, 0x00660699, 0xC22C3113, 0x8C0000EF,
        0x1300007F, 0xC4003331, 0x004C1333, 0x22229999, 0x00F0F00F, 0x24929249,
        0x29429429, 0xC30C30C3, 0xC03C3C03, 0x00AA0055, 0xAA0000FF, 0x30300303,
        0xC0C03333, 0x90900909, 0xA00A5005, 0xAAA0000F, 0x0AAA0555, 0xE0E01111,
        0x70700707, 0x6660000F, 0x0EE01111, 0x07707007, 0x06660999, 0x660000FF,
        0x00660099, 0x0CC03333, 0x03303003, 0x60000FFF, 0x80807777, 0x10100101,
        0x000A0005, 0x08CE8421,
    ];
    let mask_packed = table[part_id as usize];
    let mask0 = mask_packed % 0x1_0000;
    let mask1 = mask_packed / 0x1_0000;
    if j == 2 {
        0xFFFF_FFFF - mask0 - mask1
    } else if j == 0 {
        mask0
    } else {
        mask1
    }
}

/// The anchor pixels of the three subsets under shape `part_id`.
pub fn get_skips(part_id: i32) -> (skips: [u32; 3])
    requires
        0 <= part_id < 128,
    ensures
        forall|s: int| 0 <= s < 3 ==> skips@[s] == anchor_of(part_id as int, s),
        forall|s: int| 0 <= s < 3 ==> skips@[s] < 16,
{
    let table: [u32; 128] = [
        0xF0, 0xF0, 0xF0, 0xF0, 0xF0, 0xF0, 0xF0, 0xF0,
        0xF0, 0xF0, 0xF0, 0xF0, 0xF0, 0xF0, 0xF0, 0xF0,
        0xF0, 0x20, 0x80, 0x20, 0x20, 0x80, 0x80, 0xF0,
        0x20, 0x80, 0x20, 0x20, 0x80, 0x80, 0x20, 0x20,
        0xF0, 0xF0, 0x60, 0x80, 0x20, 0x80, 0xF0, 0xF0,
        0x20, 0x80, 0x20, 0x20, 0x20, 0xF0, 0xF0, 0x60,
        0x60, 0x20, 0x60, 0x80, 0xF0, 0xF0, 0x20, 0x20,
        0xF0, 0xF0, 0xF0, 0xF0, 0xF0, 0x20, 0x20, 0xF0,
        0x3F, 0x38, 0xF8, 0xF3, 0x8F, 0x3F, 0xF3, 0xF8,
        0x8F, 0x8F, 0x6F, 0x6F, 0x6F, 0x5F, 0x3F, 0x38,
        0x3F, 0x38, 0x8F, 0xF3, 0x3F, 0x38, 0x6F, 0xA8,
        0x53, 0x8F, 0x86, 0x6A, 0x8F, 0x5F, 0xFA, 0xF8,
        0x8F, 0xF3, 0x3F, 0x5A, 0x6A, 0xA8, 0x89, 0xFA,
        0xF6, 0x3F, 0xF8, 0x5F, 0xF3, 0xF6, 0xF6, 0xF8,
        0x3F, 0xF3, 0x5F, 0x5F, 0x5F, 0x8F, 0x5F, 0xAF,
        0x5F, 0xAF, 0x8F, 0xDF, 0xF3, 0xCF, 0x3F, 0x38,
    ];
    let skip_packed = table[part_id as usize];
    [0, skip_packed / 16, skip_packed % 16]
}

} // verus!
