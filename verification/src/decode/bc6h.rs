//! Decoding of BC6H blocks into half-float bit patterns.
use super::bc7::interpolate;
use super::bitstream::{reversed, signed32, take, BitStream};
use super::tile::{scatter, write_tile};
use crate::bits::{block_value, field, lemma_drop_drop, lemma_field_bound, lemma_pow2_values};
use crate::partition::{
    anchor_of, get_pattern, get_skips, get_unquant_value, lemma_subset_bound, pattern_table,
    subset_of, weight,
};
use vstd::arithmetic::power2::pow2;
use vstd::prelude::*;

verus! {

/// The red channel.
pub const RED: u32 = 0;

/// The green channel.
pub const GREEN: u32 = 1;

/// The blue channel.
pub const BLUE: u32 = 2;

/// The first endpoint of subset 0, stored in full.
pub const W: u32 = 0;

/// The second endpoint of subset 0.
pub const X: u32 = 1;

/// The first endpoint of subset 1.
pub const Y: u32 = 2;

/// The second endpoint of subset 1.
pub const Z: u32 = 3;

/// The place of the partition number among the components of the header.
pub const PARTITION: u32 = 12;

/// A run of bits of the header: `width` bits that belong to component
/// `target` (channel times four plus endpoint, or the partition number), from
/// its bit `shift` up, or down from its bit `shift + width - 1` where the run
/// is reversed.
pub struct Piece {
    pub target: u32,
    pub shift: u32,
    pub width: u32,
    pub reversed: bool,
}

/// The run of `width` bits of `channel` of `endpoint` from bit `shift` up.
pub open spec fn piece(channel: u32, endpoint: u32, shift: u32, width: u32) -> Piece {
    Piece { target: (channel * 4 + endpoint) as u32, shift, width, reversed: false }
}

/// The run of `width` bits of `channel` of `endpoint` that ends at bit `shift`
/// and is stored highest bit first.
pub open spec fn reversed_piece(channel: u32, endpoint: u32, shift: u32, width: u32) -> Piece {
    Piece { target: (channel * 4 + endpoint) as u32, shift, width, reversed: true }
}

/// The low `width` bits of the partition number.
pub open spec fn partition_piece(width: u32) -> Piece {
    Piece { target: PARTITION, shift: 0, width, reversed: false }
}

/// The header of each mode after its mode bits, piece by piece, lowest bit
/// first.
pub open spec fn bc6h_schedule(mode: nat) -> Seq<Piece> {
    if mode == 0 {
        seq![
            piece(GREEN, Y, 4, 1),
            piece(BLUE, Y, 4, 1),
            piece(BLUE, Z, 4, 1),
            piece(RED, W, 0, 10),
            piece(GREEN, W, 0, 10),
            piece(BLUE, W, 0, 10),
            piece(RED, X, 0, 5),
            piece(GREEN, Z, 4, 1),
            piece(GREEN, Y, 0, 4),
            piece(GREEN, X, 0, 5),
            piece(BLUE, Z, 0, 1),
            piece(GREEN, Z, 0, 4),
            piece(BLUE, X, 0, 5),
            piece(BLUE, Z, 1, 1),
            piece(BLUE, Y, 0, 4),
            piece(RED, Y, 0, 5),
            piece(BLUE, Z, 2, 1),
            piece(RED, Z, 0, 5),
            piece(BLUE, Z, 3, 1),
            partition_piece(5),
        ]
    } else if mode == 1 {
        seq![
            piece(GREEN, Y, 5, 1),
            piece(GREEN, Z, 4, 1),
            piece(GREEN, Z, 5, 1),
            piece(RED, W, 0, 7),
            piece(BLUE, Z, 0, 1),
            piece(BLUE, Z, 1, 1),
            piece(BLUE, Y, 4, 1),
            piece(GREEN, W, 0, 7),
            piece(BLUE, Y, 5, 1),
            piece(BLUE, Z, 2, 1),
            piece(GREEN, Y, 4, 1),
            piece(BLUE, W, 0, 7),
            piece(BLUE, Z, 3, 1),
            piece(BLUE, Z, 5, 1),
            piece(BLUE, Z, 4, 1),
            piece(RED, X, 0, 6),
            piece(GREEN, Y, 0, 4),
            piece(GREEN, X, 0, 6),
            piece(GREEN, Z, 0, 4),
            piece(BLUE, X, 0, 6),
            piece(BLUE, Y, 0, 4),
            piece(RED, Y, 0, 6),
            piece(RED, Z, 0, 6),
            partition_piece(5),
        ]
    } else if mode == 2 {
        seq![
            piece(RED, W, 0, 10),
            piece(GREEN, W, 0, 10),
            piece(BLUE, W, 0, 10),
            piece(RED, X, 0, 5),
            piece(RED, W, 10, 1),
            piece(GREEN, Y, 0, 4),
            piece(GREEN, X, 0, 4),
            piece(GREEN, W, 10, 1),
            piece(BLUE, Z, 0, 1),
            piece(GREEN, Z, 0, 4),
            piece(BLUE, X, 0, 4),
            piece(BLUE, W, 10, 1),
            piece(BLUE, Z, 1, 1),
            piece(BLUE, Y, 0, 4),
            piece(RED, Y, 0, 5),
            piece(BLUE, Z, 2, 1),
            piece(RED, Z, 0, 5),
            piece(BLUE, Z, 3, 1),
            partition_piece(5),
        ]
    } else if mode == 3 {
        seq![
            piece(RED, W, 0, 10),
            piece(GREEN, W, 0, 10),
            piece(BLUE, W, 0, 10),
            piece(RED, X, 0, 4),
            piece(RED, W, 10, 1),
            piece(GREEN, Z, 4, 1),
            piece(GREEN, Y, 0, 4),
            piece(GREEN, X, 0, 5),
            piece(GREEN, W, 10, 1),
            piece(GREEN, Z, 0, 4),
            piece(BLUE, X, 0, 4),
            piece(BLUE, W, 10, 1),
            piece(BLUE, Z, 1, 1),
            piece(BLUE, Y, 0, 4),
            piece(RED, Y, 0, 4),
            piece(BLUE, Z, 0, 1),
            piece(BLUE, Z, 2, 1),
            piece(RED, Z, 0, 4),
            piece(GREEN, Y, 4, 1),
            piece(BLUE, Z, 3, 1),
            partition_piece(5),
        ]
    } else if mode == 4 {
        seq![
            piece(RED, W, 0, 10),
            piece(GREEN, W, 0, 10),
            piece(BLUE, W, 0, 10),
            piece(RED, X, 0, 4),
            piece(RED, W, 10, 1),
            piece(BLUE, Y, 4, 1),
            piece(GREEN, Y, 0, 4),
            piece(GREEN, X, 0, 4),
            piece(GREEN, W, 10, 1),
            piece(BLUE, Z, 0, 1),
            piece(GREEN, Z, 0, 4),
            piece(BLUE, X, 0, 5),
            piece(BLUE, W, 10, 1),
            piece(BLUE, Y, 0, 4),
            piece(RED, Y, 0, 4),
            piece(BLUE, Z, 1, 1),
            piece(BLUE, Z, 2, 1),
            piece(RED, Z, 0, 4),
            piece(BLUE, Z, 4, 1),
            piece(BLUE, Z, 3, 1),
            partition_piece(5),
        ]
    } else if mode == 5 {
        seq![
            piece(RED, W, 0, 9),
            piece(BLUE, Y, 4, 1),
            piece(GREEN, W, 0, 9),
            piece(GREEN, Y, 4, 1),
            piece(BLUE, W, 0, 9),
            piece(BLUE, Z, 4, 1),
            piece(RED, X, 0, 5),
            piece(GREEN, Z, 4, 1),
            piece(GREEN, Y, 0, 4),
            piece(GREEN, X, 0, 5),
            piece(BLUE, Z, 0, 1),
            piece(GREEN, Z, 0, 4),
            piece(BLUE, X, 0, 5),
            piece(BLUE, Z, 1, 1),
            piece(BLUE, Y, 0, 4),
            piece(RED, Y, 0, 5),
            piece(BLUE, Z, 2, 1),
            piece(RED, Z, 0, 5),
            piece(BLUE, Z, 3, 1),
            partition_piece(5),
        ]
    } else if mode == 6 {
        seq![
            piece(RED, W, 0, 8),
            piece(GREEN, Z, 4, 1),
            piece(BLUE, Y, 4, 1),
            piece(GREEN, W, 0, 8),
            piece(BLUE, Z, 2, 1),
            piece(GREEN, Y, 4, 1),
            piece(BLUE, W, 0, 8),
            piece(BLUE, Z, 3, 1),
            piece(BLUE, Z, 4, 1),
            piece(RED, X, 0, 6),
            piece(GREEN, Y, 0, 4),
            piece(GREEN, X, 0, 5),
            piece(BLUE, Z, 0, 1),
            piece(GREEN, Z, 0, 4),
            piece(BLUE, X, 0, 5),
            piece(BLUE, Z, 1, 1),
            piece(BLUE, Y, 0, 4),
            piece(RED, Y, 0, 6),
            piece(RED, Z, 0, 6),
            partition_piece(5),
        ]
    } else if mode == 7 {
        seq![
            piece(RED, W, 0, 8),
            piece(BLUE, Z, 0, 1),
            piece(BLUE, Y, 4, 1),
            piece(GREEN, W, 0, 8),
            piece(GREEN, Y, 5, 1),
            piece(GREEN, Y, 4, 1),
            piece(BLUE, W, 0, 8),
            piece(GREEN, Z, 5, 1),
            piece(BLUE, Z, 4, 1),
            piece(RED, X, 0, 5),
            piece(GREEN, Z, 4, 1),
            piece(GREEN, Y, 0, 4),
            piece(GREEN, X, 0, 6),
            piece(GREEN, Z, 0, 4),
            piece(BLUE, X, 0, 5),
            piece(BLUE, Z, 1, 1),
            piece(BLUE, Y, 0, 4),
            piece(RED, Y, 0, 5),
            piece(BLUE, Z, 2, 1),
            piece(RED, Z, 0, 5),
            piece(BLUE, Z, 3, 1),
            partition_piece(5),
        ]
    } else if mode == 8 {
        seq![
            piece(RED, W, 0, 8),
            piece(BLUE, Z, 1, 1),
            piece(BLUE, Y, 4, 1),
            piece(GREEN, W, 0, 8),
            piece(BLUE, Y, 5, 1),
            piece(GREEN, Y, 4, 1),
            piece(BLUE, W, 0, 8),
            piece(BLUE, Z, 5, 1),
            piece(BLUE, Z, 4, 1),
            piece(RED, X, 0, 5),
            piece(GREEN, Z, 4, 1),
            piece(GREEN, Y, 0, 4),
            piece(GREEN, X, 0, 5),
            piece(BLUE, Z, 0, 1),
            piece(GREEN, Z, 0, 4),
            piece(BLUE, X, 0, 6),
            piece(BLUE, Y, 0, 4),
            piece(RED, Y, 0, 5),
            piece(BLUE, Z, 2, 1),
            piece(RED, Z, 0, 5),
            piece(BLUE, Z, 3, 1),
            partition_piece(5),
        ]
    } else if mode == 9 {
        seq![
            piece(RED, W, 0, 6),
            piece(GREEN, Z, 4, 1),
            piece(BLUE, Z, 0, 1),
            piece(BLUE, Z, 1, 1),
            piece(BLUE, Y, 4, 1),
            piece(GREEN, W, 0, 6),
            piece(GREEN, Y, 5, 1),
            piece(BLUE, Y, 5, 1),
            piece(BLUE, Z, 2, 1),
            piece(GREEN, Y, 4, 1),
            piece(BLUE, W, 0, 6),
            piece(GREEN, Z, 5, 1),
            piece(BLUE, Z, 3, 1),
            piece(BLUE, Z, 5, 1),
            piece(BLUE, Z, 4, 1),
            piece(RED, X, 0, 6),
            piece(GREEN, Y, 0, 4),
            piece(GREEN, X, 0, 6),
            piece(GREEN, Z, 0, 4),
            piece(BLUE, X, 0, 6),
            piece(BLUE, Y, 0, 4),
            piece(RED, Y, 0, 6),
            piece(RED, Z, 0, 6),
            partition_piece(5),
        ]
    } else if mode == 10 {
        seq![
            piece(RED, W, 0, 10),
            piece(GREEN, W, 0, 10),
            piece(BLUE, W, 0, 10),
            piece(RED, X, 0, 10),
            piece(GREEN, X, 0, 10),
            piece(BLUE, X, 0, 10),
        ]
    } else if mode == 11 {
        seq![
            piece(RED, W, 0, 10),
            piece(GREEN, W, 0, 10),
            piece(BLUE, W, 0, 10),
            piece(RED, X, 0, 9),
            piece(RED, W, 10, 1),
            piece(GREEN, X, 0, 9),
            piece(GREEN, W, 10, 1),
            piece(BLUE, X, 0, 9),
            piece(BLUE, W, 10, 1),
        ]
    } else if mode == 12 {
        seq![
            piece(RED, W, 0, 10),
            piece(GREEN, W, 0, 10),
            piece(BLUE, W, 0, 10),
            piece(RED, X, 0, 8),
            reversed_piece(RED, W, 10, 2),
            piece(GREEN, X, 0, 8),
            reversed_piece(GREEN, W, 10, 2),
            piece(BLUE, X, 0, 8),
            reversed_piece(BLUE, W, 10, 2),
        ]
    } else {
        seq![
            piece(RED, W, 0, 10),
            piece(GREEN, W, 0, 10),
            piece(BLUE, W, 0, 10),
            piece(RED, X, 0, 4),
            reversed_piece(RED, W, 10, 6),
            piece(GREEN, X, 0, 4),
            reversed_piece(GREEN, W, 10, 6),
            piece(BLUE, X, 0, 4),
            reversed_piece(BLUE, W, 10, 6),
        ]
    }
}

/// The mode of a block: the first byte spells it in its low two bits, or in
/// its low five where the low two are neither 0 nor 1. Mode 14 stands for
/// the four reserved patterns.
pub open spec fn bc6h_mode(v: nat) -> nat {
    let first = v % 256;
    let two = first % 4;
    let five = first % 32;
    if two == 0 {
        0
    } else if two == 1 {
        1
    } else if five == 2 {
        2
    } else if five == 6 {
        3
    } else if five == 10 {
        4
    } else if five == 14 {
        5
    } else if five == 18 {
        6
    } else if five == 22 {
        7
    } else if five == 26 {
        8
    } else if five == 30 {
        9
    } else if five == 3 {
        10
    } else if five == 7 {
        11
    } else if five == 11 {
        12
    } else if five == 15 {
        13
    } else {
        14
    }
}

/// The number of bits that spell the mode.
pub open spec fn bc6h_prefix_bits(mode: nat) -> nat {
    if mode < 2 {
        2
    } else {
        5
    }
}

/// The number of bits of each channel of the first endpoint.
pub open spec fn bc6h_base_bits(mode: nat) -> nat {
    seq![10nat, 7, 11, 11, 11, 9, 8, 8, 8, 6, 10, 11, 12, 16][mode as int]
}

/// The number of bits of `channel` of the other endpoints.
pub open spec fn bc6h_delta_bits(mode: nat, channel: nat) -> nat {
    if channel == 0 {
        seq![5nat, 6, 5, 4, 4, 5, 6, 5, 5, 6, 10, 9, 8, 4][mode as int]
    } else if channel == 1 {
        seq![5nat, 6, 4, 5, 4, 5, 5, 6, 5, 6, 10, 9, 8, 4][mode as int]
    } else {
        seq![5nat, 6, 4, 4, 5, 5, 5, 5, 6, 6, 10, 9, 8, 4][mode as int]
    }
}

/// Whether the block has two subsets.
pub open spec fn bc6h_partitioned(mode: nat) -> bool {
    mode < 10
}

/// Whether the endpoints after the first are stored as differences from it.
pub open spec fn bc6h_transformed(mode: nat) -> bool {
    mode != 9 && mode != 10
}

/// The number of bits of the first `n` pieces.
pub open spec fn schedule_width(s: Seq<Piece>, n: nat) -> nat
    decreases n,
{
    if n == 0 {
        0
    } else {
        schedule_width(s, (n - 1) as nat) + s[n - 1].width as nat
    }
}

/// What piece `p`, found at bit `pos` of `v`, adds to its component.
pub open spec fn piece_value(v: nat, pos: nat, p: Piece) -> nat {
    let x = field(v, pos, p.width as nat);
    (if p.reversed {
        reversed(x, p.width as nat)
    } else {
        x
    }) * pow2(p.shift as nat)
}

/// Component `target` as the first `n` pieces of `s` spell it, the pieces
/// starting at bit `start` of `v`.
pub open spec fn gathered(s: Seq<Piece>, v: nat, start: nat, n: nat, target: nat) -> nat
    decreases n,
{
    if n == 0 {
        0
    } else {
        gathered(s, v, start, (n - 1) as nat, target) + (if s[n - 1].target == target {
            piece_value(v, start + schedule_width(s, (n - 1) as nat), s[n - 1])
        } else {
            0
        })
    }
}

/// Component `target` of the header, to `bits` bits.
pub open spec fn bc6h_component(v: nat, mode: nat, target: nat, bits: nat) -> nat {
    gathered(
        bc6h_schedule(mode),
        v,
        bc6h_prefix_bits(mode),
        bc6h_schedule(mode).len(),
        target,
    ) % pow2(bits)
}

/// The number of bits of `channel` of `endpoint`.
pub open spec fn bc6h_bits(mode: nat, endpoint: nat, channel: nat) -> nat {
    if endpoint == 0 {
        bc6h_base_bits(mode)
    } else {
        bc6h_delta_bits(mode, channel)
    }
}

/// `channel` of `endpoint` as it is stored.
pub open spec fn bc6h_stored(v: nat, mode: nat, endpoint: nat, channel: nat) -> nat {
    bc6h_component(v, mode, channel * 4 + endpoint, bc6h_bits(mode, endpoint, channel))
}

/// The partition number of the block.
pub open spec fn bc6h_partition(v: nat, mode: nat) -> nat {
    bc6h_component(v, mode, PARTITION as nat, 5)
}

/// The number in two's complement that the low `bits` bits of `x` spell.
pub open spec fn sign_extend(x: int, bits: nat) -> int {
    let m = x % (pow2(bits) as int);
    if m >= pow2((bits - 1) as nat) {
        m - pow2(bits)
    } else {
        m
    }
}

/// `channel` of `endpoint` before it is widened: the stored number, read as
/// signed where it is a difference or the format is signed, and added to the
/// first endpoint where it is a difference.
pub open spec fn bc6h_quantized(
    v: nat,
    mode: nat,
    is_signed: bool,
    endpoint: nat,
    channel: nat,
) -> int {
    let bits = bc6h_base_bits(mode);
    let base = if is_signed {
        sign_extend(bc6h_stored(v, mode, 0, channel) as int, bits)
    } else {
        bc6h_stored(v, mode, 0, channel) as int
    };
    if endpoint == 0 {
        base
    } else {
        let stored = bc6h_stored(v, mode, endpoint, channel) as int;
        let delta = if bc6h_transformed(mode) || is_signed {
            sign_extend(stored, bc6h_delta_bits(mode, channel))
        } else {
            stored
        };
        if !bc6h_transformed(mode) {
            delta
        } else if is_signed {
            sign_extend(delta + base, bits)
        } else {
            (delta + base) % (pow2(bits) as int)
        }
    }
}

/// An endpoint component of `bits` bits widened to sixteen, or to fifteen and
/// a sign.
pub open spec fn unquantize(val: int, bits: nat, is_signed: bool) -> int {
    if !is_signed {
        if bits >= 15 {
            val
        } else if val == 0 {
            0
        } else if val == pow2(bits) - 1 {
            0xFFFF
        } else {
            (val * 0x1_0000 + 0x8000) / (pow2(bits) as int)
        }
    } else if bits >= 16 {
        val
    } else {
        let magnitude = if val < 0 {
            -val
        } else {
            val
        };
        let widened = if magnitude == 0 {
            0
        } else if magnitude >= pow2((bits - 1) as nat) - 1 {
            0x7FFF
        } else {
            (magnitude * 0x8000 + 0x4000) / (pow2((bits - 1) as nat) as int)
        };
        if val < 0 {
            -widened
        } else {
            widened
        }
    }
}

/// `channel` of `endpoint`, widened.
pub open spec fn bc6h_endpoint(
    v: nat,
    mode: nat,
    is_signed: bool,
    endpoint: nat,
    channel: nat,
) -> int {
    unquantize(bc6h_quantized(v, mode, is_signed, endpoint, channel), bc6h_base_bits(mode), is_signed)
}

/// The half-float bit pattern of an interpolated value: 31/64 of it, or 31/32
/// of its magnitude under its sign where the format is signed.
pub open spec fn finish_unquantize(val: int, is_signed: bool) -> int {
    if !is_signed {
        (val * 31) / 64
    } else {
        let magnitude = if val < 0 {
            -val
        } else {
            val
        };
        let scaled = (magnitude * 31) / 32;
        if val < 0 && scaled > 0 {
            0x8000 + scaled
        } else {
            scaled
        }
    }
}

/// The number of bits of an index.
pub open spec fn bc6h_index_bits(mode: nat) -> nat {
    if bc6h_partitioned(mode) {
        3
    } else {
        4
    }
}

/// The bit at which the indices start: the end of the header.
pub open spec fn bc6h_index_pos(mode: nat) -> nat {
    bc6h_prefix_bits(mode) + schedule_width(bc6h_schedule(mode), bc6h_schedule(mode).len())
}

/// Whether pixel `k` is the anchor of its subset.
pub open spec fn bc6h_is_anchor(v: nat, mode: nat, k: nat) -> bool {
    k == 0 || (bc6h_partitioned(mode) && k == anchor_of(bc6h_partition(v, mode) as int, 1))
}

/// The number of bits of the index of pixel `k`.
pub open spec fn bc6h_index_width(v: nat, mode: nat, k: nat) -> nat {
    if bc6h_is_anchor(v, mode, k) {
        (bc6h_index_bits(mode) - 1) as nat
    } else {
        bc6h_index_bits(mode)
    }
}

/// The number of bits of the indices of the pixels before `k`.
pub open spec fn bc6h_index_offset(v: nat, mode: nat, k: nat) -> nat
    decreases k,
{
    if k == 0 {
        0
    } else {
        bc6h_index_offset(v, mode, (k - 1) as nat) + bc6h_index_width(v, mode, (k - 1) as nat)
    }
}

/// The index of pixel `k`.
pub open spec fn bc6h_index(v: nat, mode: nat, k: nat) -> nat {
    field(
        v,
        bc6h_index_pos(mode) + bc6h_index_offset(v, mode, k),
        bc6h_index_width(v, mode, k),
    )
}

/// The subset of pixel `k`.
pub open spec fn bc6h_subset(v: nat, mode: nat, k: nat) -> nat {
    if bc6h_partitioned(mode) {
        subset_of(bc6h_partition(v, mode) as int, k as int) as nat
    } else {
        0
    }
}

/// The half-float bit pattern of `channel` of pixel `k` of a block of a mode
/// from 0 to 13.
pub open spec fn bc6h_sample(v: nat, mode: nat, is_signed: bool, k: nat, channel: nat) -> int {
    let s = bc6h_subset(v, mode, k);
    finish_unquantize(
        interpolate(
            bc6h_endpoint(v, mode, is_signed, 2 * s, channel),
            bc6h_endpoint(v, mode, is_signed, 2 * s + 1, channel),
            weight(bc6h_index_bits(mode) as int, bc6h_index(v, mode, k) as int),
        ),
        is_signed,
    )
}

/// The sixteen pixels of a block, three half-float bit patterns each (red,
/// green, blue), row by row. A block of a reserved mode decodes to zeros.
pub open spec fn bc6h_tile(block: Seq<u8>, is_signed: bool) -> Seq<u16> {
    let v = block_value(block);
    let mode = bc6h_mode(v);
    Seq::new(
        48,
        |m: int|
            if mode >= 14 {
                0u16
            } else {
                bc6h_sample(v, mode, is_signed, (m / 3) as nat, (m % 3) as nat) as u16
            },
    )
}

/// The reserved modes are those whose low five bits spell 19, 23, 27 or 31;
/// a block of a reserved mode decodes to zeros.
pub proof fn lemma_bc6h_reserved(block: Seq<u8>, is_signed: bool, m: int)
    requires
        block.len() >= 16,
        0 <= m < 48,
        block[0] % 32 == 19 || block[0] % 32 == 23 || block[0] % 32 == 27 || block[0] % 32 == 31,
    ensures
        bc6h_mode(block_value(block)) == 14,
        bc6h_tile(block, is_signed)[m] == 0,
{
    lemma_bc6h_modes(block);
    let mode = bc6h_mode(block_value(block));
    assert(mode == 14);
    let zeros = Seq::new(48, |i: int| 0u16);
    assert(bc6h_tile(block, is_signed) =~= zeros);
}

/// Every block whose mode is not reserved has one of the fourteen modes.
pub proof fn lemma_bc6h_modes(block: Seq<u8>)
    requires
        block.len() >= 16,
    ensures
        bc6h_mode(block_value(block)) <= 14,
        bc6h_mode(block_value(block)) == 14 <==> (block[0] % 32 == 19 || block[0] % 32 == 23
            || block[0] % 32 == 27 || block[0] % 32 == 31),
{
}

fn make_piece(channel: u32, endpoint: u32, shift: u32, width: u32) -> (p: Piece)
    requires
        channel < 3,
        endpoint < 4,
    ensures
        p == piece(channel, endpoint, shift, width),
{
    Piece { target: channel * 4 + endpoint, shift, width, reversed: false }
}

fn make_reversed_piece(channel: u32, endpoint: u32, shift: u32, width: u32) -> (p: Piece)
    requires
        channel < 3,
        endpoint < 4,
    ensures
        p == reversed_piece(channel, endpoint, shift, width),
{
    Piece { target: channel * 4 + endpoint, shift, width, reversed: true }
}

fn make_partition_piece(width: u32) -> (p: Piece)
    ensures
        p == partition_piece(width),
{
    Piece { target: PARTITION, shift: 0, width, reversed: false }
}

/// The header of `mode` after its mode bits.
pub(crate) fn schedule_of(mode: u32) -> (s: Vec<Piece>)
    requires
        mode < 14,
    ensures
        s@ == bc6h_schedule(mode as nat),
        s@.len() <= 24,
        forall|i: int|
            0 <= i < s@.len() ==> (#[trigger] s@[i]).shift + s@[i].width <= 16 && 1 <= s@[i].width
                <= 10 && s@[i].target <= 12,
{
    if mode == 0 {
        vec![
            make_piece(GREEN, Y, 4, 1),
            make_piece(BLUE, Y, 4, 1),
            make_piece(BLUE, Z, 4, 1),
            make_piece(RED, W, 0, 10),
            make_piece(GREEN, W, 0, 10),
            make_piece(BLUE, W, 0, 10),
            make_piece(RED, X, 0, 5),
            make_piece(GREEN, Z, 4, 1),
            make_piece(GREEN, Y, 0, 4),
            make_piece(GREEN, X, 0, 5),
            make_piece(BLUE, Z, 0, 1),
            make_piece(GREEN, Z, 0, 4),
            make_piece(BLUE, X, 0, 5),
            make_piece(BLUE, Z, 1, 1),
            make_piece(BLUE, Y, 0, 4),
            make_piece(RED, Y, 0, 5),
            make_piece(BLUE, Z, 2, 1),
            make_piece(RED, Z, 0, 5),
            make_piece(BLUE, Z, 3, 1),
            make_partition_piece(5),
        ]
    } else if mode == 1 {
        vec![
            make_piece(GREEN, Y, 5, 1),
            make_piece(GREEN, Z, 4, 1),
            make_piece(GREEN, Z, 5, 1),
            make_piece(RED, W, 0, 7),
            make_piece(BLUE, Z, 0, 1),
            make_piece(BLUE, Z, 1, 1),
            make_piece(BLUE, Y, 4, 1),
            make_piece(GREEN, W, 0, 7),
            make_piece(BLUE, Y, 5, 1),
            make_piece(BLUE, Z, 2, 1),
            make_piece(GREEN, Y, 4, 1),
            make_piece(BLUE, W, 0, 7),
            make_piece(BLUE, Z, 3, 1),
            make_piece(BLUE, Z, 5, 1),
            make_piece(BLUE, Z, 4, 1),
            make_piece(RED, X, 0, 6),
            make_piece(GREEN, Y, 0, 4),
            make_piece(GREEN, X, 0, 6),
            make_piece(GREEN, Z, 0, 4),
            make_piece(BLUE, X, 0, 6),
            make_piece(BLUE, Y, 0, 4),
            make_piece(RED, Y, 0, 6),
            make_piece(RED, Z, 0, 6),
            make_partition_piece(5),
        ]
    } else if mode == 2 {
        vec![
            make_piece(RED, W, 0, 10),
            make_piece(GREEN, W, 0, 10),
            make_piece(BLUE, W, 0, 10),
            make_piece(RED, X, 0, 5),
            make_piece(RED, W, 10, 1),
            make_piece(GREEN, Y, 0, 4),
            make_piece(GREEN, X, 0, 4),
            make_piece(GREEN, W, 10, 1),
            make_piece(BLUE, Z, 0, 1),
            make_piece(GREEN, Z, 0, 4),
            make_piece(BLUE, X, 0, 4),
            make_piece(BLUE, W, 10, 1),
            make_piece(BLUE, Z, 1, 1),
            make_piece(BLUE, Y, 0, 4),
            make_piece(RED, Y, 0, 5),
            make_piece(BLUE, Z, 2, 1),
            make_piece(RED, Z, 0, 5),
            make_piece(BLUE, Z, 3, 1),
            make_partition_piece(5),
        ]
    } else if mode == 3 {
        vec![
            make_piece(RED, W, 0, 10),
            make_piece(GREEN, W, 0, 10),
            make_piece(BLUE, W, 0, 10),
            make_piece(RED, X, 0, 4),
            make_piece(RED, W, 10, 1),
            make_piece(GREEN, Z, 4, 1),
            make_piece(GREEN, Y, 0, 4),
            make_piece(GREEN, X, 0, 5),
            make_piece(GREEN, W, 10, 1),
            make_piece(GREEN, Z, 0, 4),
            make_piece(BLUE, X, 0, 4),
            make_piece(BLUE, W, 10, 1),
            make_piece(BLUE, Z, 1, 1),
            make_piece(BLUE, Y, 0, 4),
            make_piece(RED, Y, 0, 4),
            make_piece(BLUE, Z, 0, 1),
            make_piece(BLUE, Z, 2, 1),
            make_piece(RED, Z, 0, 4),
            make_piece(GREEN, Y, 4, 1),
            make_piece(BLUE, Z, 3, 1),
            make_partition_piece(5),
        ]
    } else if mode == 4 {
        vec![
            make_piece(RED, W, 0, 10),
            make_piece(GREEN, W, 0, 10),
            make_piece(BLUE, W, 0, 10),
            make_piece(RED, X, 0, 4),
            make_piece(RED, W, 10, 1),
            make_piece(BLUE, Y, 4, 1),
            make_piece(GREEN, Y, 0, 4),
            make_piece(GREEN, X, 0, 4),
            make_piece(GREEN, W, 10, 1),
            make_piece(BLUE, Z, 0, 1),
            make_piece(GREEN, Z, 0, 4),
            make_piece(BLUE, X, 0, 5),
            make_piece(BLUE, W, 10, 1),
            make_piece(BLUE, Y, 0, 4),
            make_piece(RED, Y, 0, 4),
            make_piece(BLUE, Z, 1, 1),
            make_piece(BLUE, Z, 2, 1),
            make_piece(RED, Z, 0, 4),
            make_piece(BLUE, Z, 4, 1),
            make_piece(BLUE, Z, 3, 1),
            make_partition_piece(5),
        ]
    } else if mode == 5 {
        vec![
            make_piece(RED, W, 0, 9),
            make_piece(BLUE, Y, 4, 1),
            make_piece(GREEN, W, 0, 9),
            make_piece(GREEN, Y, 4, 1),
            make_piece(BLUE, W, 0, 9),
            make_piece(BLUE, Z, 4, 1),
            make_piece(RED, X, 0, 5),
            make_piece(GREEN, Z, 4, 1),
            make_piece(GREEN, Y, 0, 4),
            make_piece(GREEN, X, 0, 5),
            make_piece(BLUE, Z, 0, 1),
            make_piece(GREEN, Z, 0, 4),
            make_piece(BLUE, X, 0, 5),
            make_piece(BLUE, Z, 1, 1),
            make_piece(BLUE, Y, 0, 4),
            make_piece(RED, Y, 0, 5),
            make_piece(BLUE, Z, 2, 1),
            make_piece(RED, Z, 0, 5),
            make_piece(BLUE, Z, 3, 1),
            make_partition_piece(5),
        ]
    } else if mode == 6 {
        vec![
            make_piece(RED, W, 0, 8),
            make_piece(GREEN, Z, 4, 1),
            make_piece(BLUE, Y, 4, 1),
            make_piece(GREEN, W, 0, 8),
            make_piece(BLUE, Z, 2, 1),
            make_piece(GREEN, Y, 4, 1),
            make_piece(BLUE, W, 0, 8),
            make_piece(BLUE, Z, 3, 1),
            make_piece(BLUE, Z, 4, 1),
            make_piece(RED, X, 0, 6),
            make_piece(GREEN, Y, 0, 4),
            make_piece(GREEN, X, 0, 5),
            make_piece(BLUE, Z, 0, 1),
            make_piece(GREEN, Z, 0, 4),
            make_piece(BLUE, X, 0, 5),
            make_piece(BLUE, Z, 1, 1),
            make_piece(BLUE, Y, 0, 4),
            make_piece(RED, Y, 0, 6),
            make_piece(RED, Z, 0, 6),
            make_partition_piece(5),
        ]
    } else if mode == 7 {
        vec![
            make_piece(RED, W, 0, 8),
            make_piece(BLUE, Z, 0, 1),
            make_piece(BLUE, Y, 4, 1),
            make_piece(GREEN, W, 0, 8),
            make_piece(GREEN, Y, 5, 1),
            make_piece(GREEN, Y, 4, 1),
            make_piece(BLUE, W, 0, 8),
            make_piece(GREEN, Z, 5, 1),
            make_piece(BLUE, Z, 4, 1),
            make_piece(RED, X, 0, 5),
            make_piece(GREEN, Z, 4, 1),
            make_piece(GREEN, Y, 0, 4),
            make_piece(GREEN, X, 0, 6),
            make_piece(GREEN, Z, 0, 4),
            make_piece(BLUE, X, 0, 5),
            make_piece(BLUE, Z, 1, 1),
            make_piece(BLUE, Y, 0, 4),
            make_piece(RED, Y, 0, 5),
            make_piece(BLUE, Z, 2, 1),
            make_piece(RED, Z, 0, 5),
            make_piece(BLUE, Z, 3, 1),
            make_partition_piece(5),
        ]
    } else if mode == 8 {
        vec![
            make_piece(RED, W, 0, 8),
            make_piece(BLUE, Z, 1, 1),
            make_piece(BLUE, Y, 4, 1),
            make_piece(GREEN, W, 0, 8),
            make_piece(BLUE, Y, 5, 1),
            make_piece(GREEN, Y, 4, 1),
            make_piece(BLUE, W, 0, 8),
            make_piece(BLUE, Z, 5, 1),
            make_piece(BLUE, Z, 4, 1),
            make_piece(RED, X, 0, 5),
            make_piece(GREEN, Z, 4, 1),
            make_piece(GREEN, Y, 0, 4),
            make_piece(GREEN, X, 0, 5),
            make_piece(BLUE, Z, 0, 1),
            make_piece(GREEN, Z, 0, 4),
            make_piece(BLUE, X, 0, 6),
            make_piece(BLUE, Y, 0, 4),
            make_piece(RED, Y, 0, 5),
            make_piece(BLUE, Z, 2, 1),
            make_piece(RED, Z, 0, 5),
            make_piece(BLUE, Z, 3, 1),
            make_partition_piece(5),
        ]
    } else if mode == 9 {
        vec![
            make_piece(RED, W, 0, 6),
            make_piece(GREEN, Z, 4, 1),
            make_piece(BLUE, Z, 0, 1),
            make_piece(BLUE, Z, 1, 1),
            make_piece(BLUE, Y, 4, 1),
            make_piece(GREEN, W, 0, 6),
            make_piece(GREEN, Y, 5, 1),
            make_piece(BLUE, Y, 5, 1),
            make_piece(BLUE, Z, 2, 1),
            make_piece(GREEN, Y, 4, 1),
            make_piece(BLUE, W, 0, 6),
            make_piece(GREEN, Z, 5, 1),
            make_piece(BLUE, Z, 3, 1),
            make_piece(BLUE, Z, 5, 1),
            make_piece(BLUE, Z, 4, 1),
            make_piece(RED, X, 0, 6),
            make_piece(GREEN, Y, 0, 4),
            make_piece(GREEN, X, 0, 6),
            make_piece(GREEN, Z, 0, 4),
            make_piece(BLUE, X, 0, 6),
            make_piece(BLUE, Y, 0, 4),
            make_piece(RED, Y, 0, 6),
            make_piece(RED, Z, 0, 6),
            make_partition_piece(5),
        ]
    } else if mode == 10 {
        vec![
            make_piece(RED, W, 0, 10),
            make_piece(GREEN, W, 0, 10),
            make_piece(BLUE, W, 0, 10),
            make_piece(RED, X, 0, 10),
            make_piece(GREEN, X, 0, 10),
            make_piece(BLUE, X, 0, 10),
        ]
    } else if mode == 11 {
        vec![
            make_piece(RED, W, 0, 10),
            make_piece(GREEN, W, 0, 10),
            make_piece(BLUE, W, 0, 10),
            make_piece(RED, X, 0, 9),
            make_piece(RED, W, 10, 1),
            make_piece(GREEN, X, 0, 9),
            make_piece(GREEN, W, 10, 1),
            make_piece(BLUE, X, 0, 9),
            make_piece(BLUE, W, 10, 1),
        ]
    } else if mode == 12 {
        vec![
            make_piece(RED, W, 0, 10),
            make_piece(GREEN, W, 0, 10),
            make_piece(BLUE, W, 0, 10),
            make_piece(RED, X, 0, 8),
            make_reversed_piece(RED, W, 10, 2),
            make_piece(GREEN, X, 0, 8),
            make_reversed_piece(GREEN, W, 10, 2),
            make_piece(BLUE, X, 0, 8),
            make_reversed_piece(BLUE, W, 10, 2),
        ]
    } else {
        vec![
            make_piece(RED, W, 0, 10),
            make_piece(GREEN, W, 0, 10),
            make_piece(BLUE, W, 0, 10),
            make_piece(RED, X, 0, 4),
            make_reversed_piece(RED, W, 10, 6),
            make_piece(GREEN, X, 0, 4),
            make_reversed_piece(GREEN, W, 10, 6),
            make_piece(BLUE, X, 0, 4),
            make_reversed_piece(BLUE, W, 10, 6),
        ]
    }
}

/// Two to the power `k`.
pub(crate) fn pow2_u32(k: u32) -> (r: u32)
    requires
        k <= 17,
    ensures
        r == pow2(k as nat),
{
    let table: [u32; 18] = [
        1,
        2,
        4,
        8,
        16,
        32,
        64,
        128,
        256,
        512,
        1024,
        2048,
        4096,
        8192,
        16384,
        32768,
        65536,
        131072,
    ];
    proof {
        lemma_pow2_values();
        vstd::arithmetic::power2::lemma2_to64();
    }
    table[k as usize]
}

/// The mode that the first byte of a block spells.
fn mode_of(first: u8, Ghost(v): Ghost<nat>) -> (mode: u32)
    requires
        first == v % 256,
    ensures
        mode == bc6h_mode(v),
        mode <= 14,
{
    let two = first % 4;
    let five = first % 32;
    if two == 0 {
        0
    } else if two == 1 {
        1
    } else if five == 2 {
        2
    } else if five == 6 {
        3
    } else if five == 10 {
        4
    } else if five == 14 {
        5
    } else if five == 18 {
        6
    } else if five == 22 {
        7
    } else if five == 26 {
        8
    } else if five == 30 {
        9
    } else if five == 3 {
        10
    } else if five == 7 {
        11
    } else if five == 11 {
        12
    } else if five == 15 {
        13
    } else {
        14
    }
}

/// The low `n` bits of `x` in reverse order.
pub(crate) fn reverse_low_bits(x: u32, n: u32) -> (r: u32)
    requires
        n <= 16,
        x < pow2(n as nat),
    ensures
        r == reversed(x as nat, n as nat),
        r < pow2(n as nat),
{
    let mut bits = x;
    let mut result: u32 = 0;
    let mut k: u32 = 0;
    proof {
        lemma_pow2_values();
    }
    while k < n
        invariant
            k <= n <= 16,
            bits == x as nat / pow2(k as nat),
            result == reversed(x as nat, k as nat),
        decreases n - k,
    {
        proof {
            lemma_pow2_values();
            super::bitstream::lemma_reversed_bound(x as nat, k as nat);
            vstd::arithmetic::power2::lemma_pow2_strictly_increases(k as nat, 17);
            vstd::arithmetic::power2::lemma2_to64();
            lemma_drop_drop(x as nat, k as nat, 1);
        }
        result = result * 2 + bits % 2;
        bits = bits / 2;
        k = k + 1;
    }
    proof {
        super::bitstream::lemma_reversed_bound(x as nat, n as nat);
    }
    result
}

/// Reads the header, piece by piece, and gathers the components.
fn read_header(bs: &mut BitStream, mode: u32, Ghost(v): Ghost<nat>) -> (raw: [u32; 13])
    requires
        mode < 14,
        old(bs)@ == v / pow2(bc6h_prefix_bits(mode as nat)),
    ensures
        forall|t: int|
            0 <= t < 13 ==> #[trigger] raw@[t] == gathered(
                bc6h_schedule(mode as nat),
                v,
                bc6h_prefix_bits(mode as nat),
                bc6h_schedule(mode as nat).len(),
                t as nat,
            ),
        final(bs)@ == v / pow2(bc6h_index_pos(mode as nat)),
{
    let schedule = schedule_of(mode);
    let ghost s = schedule@;
    let ghost start = bc6h_prefix_bits(mode as nat);
    let mut raw = [0u32; 13];
    let mut i: usize = 0;
    while i < schedule.len()
        invariant
            mode < 14,
            s == schedule@,
            s == bc6h_schedule(mode as nat),
            s.len() <= 24,
            start == bc6h_prefix_bits(mode as nat),
            forall|j: int|
                0 <= j < s.len() ==> (#[trigger] s[j]).shift + s[j].width <= 16 && 1 <= s[j].width
                    <= 10 && s[j].target <= 12,
            i <= s.len(),
            bs@ == v / pow2(start + schedule_width(s, i as nat)),
            forall|t: int|
                0 <= t < 13 ==> #[trigger] raw@[t] == gathered(s, v, start, i as nat, t as nat),
            forall|t: int| 0 <= t < 13 ==> #[trigger] raw@[t] <= i * 0x1_0000,
        decreases s.len() - i,
    {
        let p = &schedule[i];
        let ghost pos = start + schedule_width(s, i as nat);
        assert(s[i as int].shift + s[i as int].width <= 16);
        let taken = take(bs, p.width, Ghost(v), Ghost(pos));
        let x = if p.reversed {
            reverse_low_bits(taken, p.width)
        } else {
            taken
        };
        let scale = pow2_u32(p.shift);
        proof {
            vstd::arithmetic::power2::lemma_pow2_adds(p.width as nat, p.shift as nat);
            if p.width + p.shift < 16 {
                vstd::arithmetic::power2::lemma_pow2_strictly_increases(
                    (p.width + p.shift) as nat,
                    16,
                );
            }
            lemma_pow2_values();
            assert(x * scale < pow2(p.width as nat) * pow2(p.shift as nat)) by (nonlinear_arith)
                requires
                    x < pow2(p.width as nat),
                    scale == pow2(p.shift as nat),
                    scale > 0,
            ;
            assert(x * scale == piece_value(v, pos, s[i as int]));
        }
        let target = p.target as usize;
        let ghost before = raw@;
        raw[target] = raw[target] + x * scale;
        proof {
            assert forall|t: int| 0 <= t < 13 implies #[trigger] raw@[t] == gathered(
                s,
                v,
                start,
                (i + 1) as nat,
                t as nat,
            ) by {
                if t != target {
                    assert(raw@[t] == before[t]);
                }
            }
            assert forall|t: int| 0 <= t < 13 implies #[trigger] raw@[t] <= (i + 1) * 0x1_0000 by {
                if t != target {
                    assert(raw@[t] == before[t]);
                }
            }
        }
        i = i + 1;
    }
    raw
}

/// The number of bits of each channel of the first endpoint.
pub(crate) fn base_bits_of(mode: u32) -> (bits: u32)
    requires
        mode < 14,
    ensures
        bits == bc6h_base_bits(mode as nat),
        6 <= bits <= 16,
{
    let table: [u32; 14] = [10, 7, 11, 11, 11, 9, 8, 8, 8, 6, 10, 11, 12, 16];
    table[mode as usize]
}

/// The number of bits of `channel` of the other endpoints.
pub(crate) fn delta_bits_of(mode: u32, channel: usize) -> (bits: u32)
    requires
        mode < 14,
        channel < 3,
    ensures
        bits == bc6h_delta_bits(mode as nat, channel as nat),
        4 <= bits <= 10,
{
    if channel == 0 {
        let table: [u32; 14] = [5, 6, 5, 4, 4, 5, 6, 5, 5, 6, 10, 9, 8, 4];
        table[mode as usize]
    } else if channel == 1 {
        let table: [u32; 14] = [5, 6, 4, 5, 4, 5, 5, 6, 5, 6, 10, 9, 8, 4];
        table[mode as usize]
    } else {
        let table: [u32; 14] = [5, 6, 4, 4, 5, 5, 5, 5, 6, 6, 10, 9, 8, 4];
        table[mode as usize]
    }
}

/// The low `bits` bits of `x`.
fn low_bits(x: i32, bits: u32) -> (r: i32)
    requires
        1 <= bits <= 16,
        -0x2_0000 < x < 0x8000_0000 - 0x2_0000,
    ensures
        r == x as int % (pow2(bits as nat) as int),
        0 <= r < pow2(bits as nat),
{
    let p = pow2_u32(bits);
    let q = pow2_u32(17 - bits);
    let lifted = (x + 0x2_0000) as u32;
    proof {
        lemma_pow2_values();
        vstd::arithmetic::power2::lemma2_to64();
        vstd::arithmetic::power2::lemma_pow2_adds(bits as nat, (17 - bits) as nat);
        vstd::arithmetic::power2::lemma_pow2_pos(bits as nat);
        if bits < 16 {
            vstd::arithmetic::power2::lemma_pow2_strictly_increases(bits as nat, 16);
        }
        assert(p * q == 0x2_0000);
        vstd::arithmetic::div_mod::lemma_mod_multiples_vanish(q as int, x as int, p as int);
        assert(q * p == p * q) by (nonlinear_arith);
        vstd::arithmetic::div_mod::lemma_mod_bound(x as int, p as int);
    }
    (lifted % p) as i32
}

/// The number in two's complement that the low `bits` bits of `x` spell.
fn sign_extend_exec(x: i32, bits: u32) -> (r: i32)
    requires
        1 <= bits <= 16,
        -0x2_0000 < x < 0x8000_0000 - 0x2_0000,
    ensures
        r == sign_extend(x as int, bits as nat),
        -pow2((bits - 1) as nat) <= r < pow2((bits - 1) as nat),
        -0x8000 <= r < 0x8000,
{
    let m = low_bits(x, bits);
    let half = pow2_u32(bits - 1) as i32;
    proof {
        lemma_pow2_values();
        vstd::arithmetic::power2::lemma_pow2_unfold(bits as nat);
        if bits < 16 {
            vstd::arithmetic::power2::lemma_pow2_strictly_increases((bits - 1) as nat, 15);
        }
    }
    if m >= half {
        m - half - half
    } else {
        m
    }
}

/// Widens an endpoint component of `bits` bits.
fn unquantize_exec(val: i32, bits: u32, is_signed: bool) -> (r: i32)
    requires
        6 <= bits <= 16,
        is_signed ==> -pow2((bits - 1) as nat) <= val < pow2((bits - 1) as nat),
        !is_signed ==> 0 <= val < pow2(bits as nat),
    ensures
        r == unquantize(val as int, bits as nat, is_signed),
        is_signed ==> -0x8000 <= r <= 0x7FFF,
        !is_signed ==> 0 <= r <= 0xFFFF,
{
    proof {
        lemma_pow2_values();
        vstd::arithmetic::power2::lemma_pow2_unfold(bits as nat);
        vstd::arithmetic::power2::lemma_pow2_pos(bits as nat);
        vstd::arithmetic::power2::lemma_pow2_pos((bits - 1) as nat);
        if bits < 16 {
            vstd::arithmetic::power2::lemma_pow2_strictly_increases(bits as nat, 16);
            vstd::arithmetic::power2::lemma_pow2_strictly_increases((bits - 1) as nat, 15);
        }
    }
    if !is_signed {
        if bits >= 15 {
            val
        } else {
            let p = pow2_u32(bits) as i32;
            if val == 0 {
                0
            } else if val == p - 1 {
                0xFFFF
            } else {
                let widened = (val as u32 * 0x1_0000 + 0x8000) / (p as u32);
                proof {
                    assert(widened <= 0xFFFF) by (nonlinear_arith)
                        requires
                            widened == (val as int * 0x1_0000 + 0x8000) / (p as int),
                            0 < val < p - 1,
                            2 <= p <= 0x4000,
                    ;
                }
                widened as i32
            }
        }
    } else if bits >= 16 {
        val
    } else {
        let half = pow2_u32(bits - 1);
        let magnitude: u32 = if val < 0 {
            (-val) as u32
        } else {
            val as u32
        };
        let widened: u32 = if magnitude == 0 {
            0
        } else if magnitude >= half - 1 {
            0x7FFF
        } else {
            let w = (magnitude * 0x8000 + 0x4000) / half;
            proof {
                assert(w <= 0x7FFF) by (nonlinear_arith)
                    requires
                        w == (magnitude as int * 0x8000 + 0x4000) / (half as int),
                        0 < magnitude < half - 1,
                        2 <= half <= 0x4000,
                ;
            }
            w
        };
        if val < 0 {
            -(widened as i32)
        } else {
            widened as i32
        }
    }
}

/// Builds the endpoints from the components of the header: `ep[channel * 4 +
/// endpoint]`.
fn decode_endpoints(mode: u32, is_signed: bool, raw: &[u32; 13], Ghost(v): Ghost<nat>) -> (ep:
    [i32; 12])
    requires
        mode < 14,
        forall|t: int|
            0 <= t < 13 ==> #[trigger] raw@[t] == gathered(
                bc6h_schedule(mode as nat),
                v,
                bc6h_prefix_bits(mode as nat),
                bc6h_schedule(mode as nat).len(),
                t as nat,
            ),
    ensures
        forall|c: int, e: int|
            0 <= c < 3 && 0 <= e < 4 ==> #[trigger] ep@[c * 4 + e] == bc6h_endpoint(
                v,
                mode as nat,
                is_signed,
                e as nat,
                c as nat,
            ),
        forall|i: int| 0 <= i < 12 ==> -0x8000 <= #[trigger] ep@[i] <= 0xFFFF,
        forall|i: int| 0 <= i < 12 && !is_signed ==> 0 <= #[trigger] ep@[i],
        forall|i: int| 0 <= i < 12 && is_signed ==> #[trigger] ep@[i] <= 0x7FFF,
{
    let bits = base_bits_of(mode);
    let transformed = mode != 9 && mode != 10;
    let mut ep = [0i32; 12];
    let mut c: usize = 0;
    while c < 3
        invariant
            mode < 14,
            bits == bc6h_base_bits(mode as nat),
            6 <= bits <= 16,
            transformed == bc6h_transformed(mode as nat),
            c <= 3,
            forall|t: int|
                0 <= t < 13 ==> #[trigger] raw@[t] == gathered(
                    bc6h_schedule(mode as nat),
                    v,
                    bc6h_prefix_bits(mode as nat),
                    bc6h_schedule(mode as nat).len(),
                    t as nat,
                ),
            forall|d: int, e: int|
                0 <= d < c && 0 <= e < 4 ==> #[trigger] ep@[d * 4 + e] == bc6h_endpoint(
                    v,
                    mode as nat,
                    is_signed,
                    e as nat,
                    d as nat,
                ),
            forall|i: int| 0 <= i < 12 ==> -0x8000 <= #[trigger] ep@[i] <= 0xFFFF,
            forall|i: int| 0 <= i < 12 && !is_signed ==> 0 <= #[trigger] ep@[i],
            forall|i: int| 0 <= i < 12 && is_signed ==> #[trigger] ep@[i] <= 0x7FFF,
        decreases 3 - c,
    {
        let stored_base = low_bits((raw[c * 4] % 0x1_0000) as i32, bits);
        proof {
            lemma_pow2_values();
            vstd::arithmetic::power2::lemma_pow2_adds(bits as nat, (16 - bits) as nat);
            vstd::arithmetic::div_mod::lemma_mod_mod(
                raw@[c * 4] as int,
                pow2(bits as nat) as int,
                pow2((16 - bits) as nat) as int,
            );
            assert(stored_base == bc6h_stored(v, mode as nat, 0, c as nat));
        }
        let base = if is_signed {
            sign_extend_exec(stored_base, bits)
        } else {
            stored_base
        };
        let dbits = delta_bits_of(mode, c);
        let mut e: usize = 0;
        while e < 4
            invariant
                mode < 14,
                bits == bc6h_base_bits(mode as nat),
                6 <= bits <= 16,
                dbits == bc6h_delta_bits(mode as nat, c as nat),
                4 <= dbits <= 10,
                transformed == bc6h_transformed(mode as nat),
                c < 3,
                e <= 4,
                base == bc6h_quantized(v, mode as nat, is_signed, 0, c as nat),
                is_signed ==> -pow2((bits - 1) as nat) <= base < pow2((bits - 1) as nat),
                !is_signed ==> 0 <= base < pow2(bits as nat),
                -0x8000 <= base <= 0xFFFF,
                forall|t: int|
                    0 <= t < 13 ==> #[trigger] raw@[t] == gathered(
                        bc6h_schedule(mode as nat),
                        v,
                        bc6h_prefix_bits(mode as nat),
                        bc6h_schedule(mode as nat).len(),
                        t as nat,
                    ),
                forall|d: int, f: int|
                    0 <= d < c && 0 <= f < 4 ==> #[trigger] ep@[d * 4 + f] == bc6h_endpoint(
                        v,
                        mode as nat,
                        is_signed,
                        f as nat,
                        d as nat,
                    ),
                forall|f: int|
                    0 <= f < e ==> #[trigger] ep@[c * 4 + f] == bc6h_endpoint(
                        v,
                        mode as nat,
                        is_signed,
                        f as nat,
                        c as nat,
                    ),
                forall|i: int| 0 <= i < 12 ==> -0x8000 <= #[trigger] ep@[i] <= 0xFFFF,
                forall|i: int| 0 <= i < 12 && !is_signed ==> 0 <= #[trigger] ep@[i],
                forall|i: int| 0 <= i < 12 && is_signed ==> #[trigger] ep@[i] <= 0x7FFF,
            decreases 4 - e,
        {
            let quantized = if e == 0 {
                base
            } else {
                let stored = low_bits((raw[c * 4 + e] % 0x1_0000) as i32, dbits);
                proof {
                    lemma_pow2_values();
                    vstd::arithmetic::power2::lemma_pow2_adds(dbits as nat, (16 - dbits) as nat);
                    vstd::arithmetic::div_mod::lemma_mod_mod(
                        raw@[c * 4 + e] as int,
                        pow2(dbits as nat) as int,
                        pow2((16 - dbits) as nat) as int,
                    );
                    assert(stored == bc6h_stored(v, mode as nat, e as nat, c as nat));
                    vstd::arithmetic::power2::lemma_pow2_strictly_increases(dbits as nat, 16);
                }
                let delta = if transformed || is_signed {
                    sign_extend_exec(stored, dbits)
                } else {
                    stored
                };
                if !transformed {
                    proof {
                        if bits > dbits {
                            vstd::arithmetic::power2::lemma_pow2_strictly_increases(
                                dbits as nat,
                                bits as nat,
                            );
                            vstd::arithmetic::power2::lemma_pow2_strictly_increases(
                                (dbits - 1) as nat,
                                (bits - 1) as nat,
                            );
                        }
                    }
                    delta
                } else if is_signed {
                    sign_extend_exec(delta + base, bits)
                } else {
                    low_bits(delta + base, bits)
                }
            };
            let value = unquantize_exec(quantized, bits, is_signed);
            let ghost before = ep@;
            ep[c * 4 + e] = value;
            proof {
                assert forall|d: int, f: int| 0 <= d < c && 0 <= f < 4 implies #[trigger] ep@[d * 4
                    + f] == bc6h_endpoint(v, mode as nat, is_signed, f as nat, d as nat) by {
                    assert(ep@[d * 4 + f] == before[d * 4 + f]);
                }
                assert forall|f: int| 0 <= f < e + 1 implies #[trigger] ep@[c * 4 + f]
                    == bc6h_endpoint(v, mode as nat, is_signed, f as nat, c as nat) by {
                    if f < e {
                        assert(ep@[c * 4 + f] == before[c * 4 + f]);
                    }
                }
            }
            e = e + 1;
        }
        c = c + 1;
    }
    ep
}

/// Reads the sixteen indices.
fn read_indices(bs: &mut BitStream, mode: u32, partition: i32, Ghost(v): Ghost<nat>) -> (indices:
    [u32; 16])
    requires
        mode < 14,
        partition == bc6h_partition(v, mode as nat),
        0 <= partition < 32,
        old(bs)@ == v / pow2(bc6h_index_pos(mode as nat)),
    ensures
        forall|k: int|
            0 <= k < 16 ==> #[trigger] indices@[k] == bc6h_index(v, mode as nat, k as nat),
        forall|k: int| 0 <= k < 16 ==> #[trigger] indices@[k] < 16,
{
    let skips = get_skips(partition);
    let partitioned = mode < 10;
    let index_bits: u32 = if partitioned {
        3
    } else {
        4
    };
    let mut indices = [0u32; 16];
    let mut k: usize = 0;
    while k < 16
        invariant
            mode < 14,
            partition == bc6h_partition(v, mode as nat),
            0 <= partition < 32,
            partitioned == bc6h_partitioned(mode as nat),
            index_bits == bc6h_index_bits(mode as nat),
            forall|s: int| 0 <= s < 3 ==> skips@[s] == anchor_of(partition as int, s),
            k <= 16,
            bs@ == v / pow2(
                bc6h_index_pos(mode as nat) + bc6h_index_offset(v, mode as nat, k as nat),
            ),
            forall|j: int|
                0 <= j < k ==> #[trigger] indices@[j] == bc6h_index(v, mode as nat, j as nat),
            forall|j: int| 0 <= j < 16 ==> #[trigger] indices@[j] < 16,
        decreases 16 - k,
    {
        let anchor = k == 0 || (partitioned && k == skips[1] as usize);
        assert(anchor == bc6h_is_anchor(v, mode as nat, k as nat));
        let width = if anchor {
            index_bits - 1
        } else {
            index_bits
        };
        let r = take(
            bs,
            width,
            Ghost(v),
            Ghost(bc6h_index_pos(mode as nat) + bc6h_index_offset(v, mode as nat, k as nat)),
        );
        proof {
            lemma_pow2_values();
            assert(bc6h_index_offset(v, mode as nat, (k + 1) as nat) == bc6h_index_offset(
                v,
                mode as nat,
                k as nat,
            ) + bc6h_index_width(v, mode as nat, k as nat));
        }
        indices[k] = r;
        k = k + 1;
    }
    indices
}

/// The subsets of the sixteen pixels.
fn pixel_subsets(mode: u32, partition: i32, Ghost(v): Ghost<nat>) -> (subsets: [usize; 16])
    requires
        mode < 14,
        partition == bc6h_partition(v, mode as nat),
        0 <= partition < 32,
    ensures
        forall|k: int|
            0 <= k < 16 ==> #[trigger] subsets@[k] == bc6h_subset(v, mode as nat, k as nat),
        forall|k: int| 0 <= k < 16 ==> #[trigger] subsets@[k] < 2,
{
    let pattern = get_pattern(partition);
    let mut shifted = pattern;
    let mut subsets = [0usize; 16];
    let mut k: usize = 0;
    proof {
        lemma_pow2_values();
        assert(pattern as nat / pow2(0) == pattern);
    }
    while k < 16
        invariant
            mode < 14,
            partition == bc6h_partition(v, mode as nat),
            0 <= partition < 32,
            pattern == pattern_table()[partition as int],
            shifted == pattern as nat / pow2((2 * k) as nat),
            k <= 16,
            forall|j: int|
                0 <= j < k ==> #[trigger] subsets@[j] == bc6h_subset(v, mode as nat, j as nat),
            forall|j: int| 0 <= j < 16 ==> #[trigger] subsets@[j] < 2,
        decreases 16 - k,
    {
        proof {
            lemma_pow2_values();
            lemma_subset_bound(partition as int, k as int);
            lemma_drop_drop(pattern as nat, (2 * k) as nat, 2);
        }
        let subset = if mode < 10 {
            (shifted % 4) as usize
        } else {
            0
        };
        subsets[k] = subset;
        shifted = shifted / 4;
        k = k + 1;
    }
    subsets
}

/// The rounded value between two endpoints.
fn interpolate_exec(a: i32, b: i32, w: i32) -> (r: i32)
    requires
        -0x8000 <= a <= 0xFFFF,
        -0x8000 <= b <= 0xFFFF,
        0 <= w <= 64,
    ensures
        r == interpolate(a as int, b as int, w as int),
        a >= 0 && b >= 0 ==> 0 <= r <= 0xFFFF,
        a <= 0x7FFF && b <= 0x7FFF ==> -0x8000 <= r <= 0x7FFF,
{
    assert(-0x8000 * 64 <= a * (64 - w) + b * w <= 0xFFFF * 64 && -0x8000 * 64 <= a * (64 - w)
        <= 0xFFFF * 64 && -0x8000 * 64 <= b * w <= 0xFFFF * 64) by (nonlinear_arith)
        requires
            -0x8000 <= a <= 0xFFFF,
            -0x8000 <= b <= 0xFFFF,
            0 <= w <= 64,
    ;
    assert(a >= 0 && b >= 0 ==> a * (64 - w) + b * w >= 0) by (nonlinear_arith)
        requires
            0 <= w <= 64,
    ;
    assert(a <= 0x7FFF && b <= 0x7FFF ==> a * (64 - w) + b * w <= 0x7FFF * 64)
        by (nonlinear_arith)
        requires
            0 <= w <= 64,
    ;
    let sum = a * (64 - w) + b * w + 32;
    if sum >= 0 {
        ((sum as u32) / 64) as i32
    } else {
        let up = (-sum) as u32;
        -(((up + 63) / 64) as i32)
    }
}

/// The half-float bit pattern of an interpolated value.
fn finish_exec(val: i32, is_signed: bool) -> (r: u16)
    requires
        is_signed ==> -0x8000 <= val <= 0x7FFF,
        !is_signed ==> 0 <= val <= 0xFFFF,
    ensures
        r == finish_unquantize(val as int, is_signed),
{
    if !is_signed {
        ((val as u32 * 31) / 64) as u16
    } else {
        let magnitude: u32 = if val < 0 {
            (-val) as u32
        } else {
            val as u32
        };
        let scaled = (magnitude * 31) / 32;
        if val < 0 && scaled > 0 {
            (0x8000 + scaled) as u16
        } else {
            scaled as u16
        }
    }
}

/// Interpolates the sixteen pixels between the endpoints of their subsets.
fn shade(
    mode: u32,
    is_signed: bool,
    subsets: &[usize; 16],
    ep: &[i32; 12],
    indices: &[u32; 16],
    Ghost(v): Ghost<nat>,
) -> (tile: [u16; 48])
    requires
        mode < 14,
        forall|k: int|
            0 <= k < 16 ==> #[trigger] subsets@[k] == bc6h_subset(v, mode as nat, k as nat),
        forall|k: int| 0 <= k < 16 ==> #[trigger] subsets@[k] < 2,
        forall|c: int, e: int|
            0 <= c < 3 && 0 <= e < 4 ==> #[trigger] ep@[c * 4 + e] == bc6h_endpoint(
                v,
                mode as nat,
                is_signed,
                e as nat,
                c as nat,
            ),
        forall|i: int| 0 <= i < 12 ==> -0x8000 <= #[trigger] ep@[i] <= 0xFFFF,
        forall|i: int| 0 <= i < 12 && !is_signed ==> 0 <= #[trigger] ep@[i],
        forall|i: int| 0 <= i < 12 && is_signed ==> #[trigger] ep@[i] <= 0x7FFF,
        forall|k: int|
            0 <= k < 16 ==> #[trigger] indices@[k] == bc6h_index(v, mode as nat, k as nat),
        forall|k: int| 0 <= k < 16 ==> #[trigger] indices@[k] < 16,
    ensures
        forall|m: int|
            0 <= m < 48 ==> #[trigger] tile@[m] == bc6h_sample(
                v,
                mode as nat,
                is_signed,
                (m / 3) as nat,
                (m % 3) as nat,
            ) as u16,
{
    let index_bits: u32 = if mode < 10 {
        3
    } else {
        4
    };
    let mut tile = [0u16; 48];
    let mut m: usize = 0;
    while m < 48
        invariant
            mode < 14,
            index_bits == bc6h_index_bits(mode as nat),
            m <= 48,
            forall|k: int|
                0 <= k < 16 ==> #[trigger] subsets@[k] == bc6h_subset(v, mode as nat, k as nat),
            forall|k: int| 0 <= k < 16 ==> #[trigger] subsets@[k] < 2,
            forall|c: int, e: int|
                0 <= c < 3 && 0 <= e < 4 ==> #[trigger] ep@[c * 4 + e] == bc6h_endpoint(
                    v,
                    mode as nat,
                    is_signed,
                    e as nat,
                    c as nat,
                ),
            forall|i: int| 0 <= i < 12 ==> -0x8000 <= #[trigger] ep@[i] <= 0xFFFF,
            forall|i: int| 0 <= i < 12 && !is_signed ==> 0 <= #[trigger] ep@[i],
            forall|i: int| 0 <= i < 12 && is_signed ==> #[trigger] ep@[i] <= 0x7FFF,
            forall|k: int|
                0 <= k < 16 ==> #[trigger] indices@[k] == bc6h_index(v, mode as nat, k as nat),
            forall|k: int| 0 <= k < 16 ==> #[trigger] indices@[k] < 16,
            forall|n: int|
                0 <= n < m ==> #[trigger] tile@[n] == bc6h_sample(
                    v,
                    mode as nat,
                    is_signed,
                    (n / 3) as nat,
                    (n % 3) as nat,
                ) as u16,
        decreases 48 - m,
    {
        let k = m / 3;
        let c = m % 3;
        let subset = subsets[k];
        let w = get_unquant_value(index_bits, indices[k] as i32);
        let first = c * 4 + 2 * subset;
        proof {
            assert(ep@[c * 4 + 2 * subset] == bc6h_endpoint(
                v,
                mode as nat,
                is_signed,
                (2 * subset) as nat,
                c as nat,
            ));
            assert(ep@[c * 4 + (2 * subset + 1)] == bc6h_endpoint(
                v,
                mode as nat,
                is_signed,
                (2 * subset + 1) as nat,
                c as nat,
            ));
        }
        let value = interpolate_exec(ep[first], ep[first + 1], w);
        let sample = finish_exec(value, is_signed);
        tile[m] = sample;
        m = m + 1;
    }
    tile
}

/// Decodes one block into its sixteen pixels.
pub(crate) fn decode_tile_bc6h(block: &[u8], is_signed: bool) -> (tile: [u16; 48])
    requires
        block@.len() >= 16,
    ensures
        tile@ == bc6h_tile(block@, is_signed),
{
    let ghost v = block_value(block@);
    let mut bs = BitStream::new(block);
    let mode = mode_of(block[0], Ghost(v));
    if mode >= 14 {
        let tile = [0u16; 48];
        assert(tile@ =~= bc6h_tile(block@, is_signed));
        return tile;
    }
    let prefix: u32 = if mode < 2 {
        2
    } else {
        5
    };
    proof {
        lemma_pow2_values();
    }
    let _ = take(&mut bs, prefix, Ghost(v), Ghost(0));
    let raw = read_header(&mut bs, mode, Ghost(v));
    let partition = (raw[12] % 32) as i32;
    let ep = decode_endpoints(mode, is_signed, &raw, Ghost(v));
    let indices = read_indices(&mut bs, mode, partition, Ghost(v));
    let subsets = pixel_subsets(mode, partition, Ghost(v));
    let tile = shade(mode, is_signed, &subsets, &ep, &indices, Ghost(v));
    assert(tile@ =~= bc6h_tile(block@, is_signed));
    tile
}

/// Decodes the BC6H block in the first 16 bytes of `compressed_block` and writes
/// its pixels, three half-float bit patterns each, into `decompressed_block`,
/// the rows `destination_pitch` values apart.
pub fn decode_block_bc6h(
    compressed_block: &[u8],
    decompressed_block: &mut [u16],
    destination_pitch: usize,
    is_signed: bool,
)
    requires
        compressed_block@.len() >= 16,
        3 * destination_pitch + 12 <= old(decompressed_block)@.len(),
    ensures
        final(decompressed_block)@ == scatter(
            old(decompressed_block)@,
            bc6h_tile(compressed_block@, is_signed),
            0,
            destination_pitch as int,
            3,
            3,
            48,
        ),
        final(decompressed_block)@.len() == old(decompressed_block)@.len(),
{
    let tile = decode_tile_bc6h(compressed_block, is_signed);
    write_tile(decompressed_block, &tile, 0, destination_pitch, 3, 3);
}

} // verus!
