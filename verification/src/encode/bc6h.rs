//! The layout of the bits of a BC6H block.
use super::common::{
    bc7_code_adjust_skip_mode01237, bc7_code_apply_swap_mode01237, bc7_code_apply_swap_mode456,
    bc7_code_qblock, coded_indices, lemma_anchor_index_short, lemma_words_below, nibble,
    pow2_u64, put_bits, skips_adjusted, subset_swapped, swap_flips, words_value,
};
use super::common::{anchor_top, coded_index, removed_bit, without_bit};
use crate::partition::anchor_of;
use crate::bits::{field, lemma_field_bound, lemma_pow2_values};
use crate::decode::bc6h::{
    base_bits_of, bc6h_base_bits, bc6h_delta_bits, bc6h_mode, bc6h_partitioned,
    bc6h_prefix_bits, bc6h_schedule, bc6h_transformed, delta_bits_of, pow2_u32, reverse_low_bits,
    partition_piece, schedule_of, schedule_width, unquantize, Piece, PARTITION,
};
use crate::decode::bc6h::{bc6h_bits, bc6h_stored, gathered, piece_value};
use crate::decode::bitstream::{lemma_reversed_bound, lemma_reversed_twice, reversed};
use vstd::arithmetic::power2::{lemma_pow2_adds, lemma_pow2_pos, lemma_pow2_strictly_increases, pow2};
use vstd::prelude::*;

verus! {

/// The bits that spell `mode`.
pub open spec fn mode_prefix(mode: nat) -> nat {
    seq![0nat, 1, 2, 6, 10, 14, 18, 22, 26, 30, 3, 7, 11, 15][mode as int]
}

/// The bits that spell `mode`, as the decoder expects them.
pub fn get_mode_prefix(mode: usize) -> (prefix: u32)
    requires
        mode < 14,
    ensures
        prefix == mode_prefix(mode as nat),
        prefix < pow2(bc6h_prefix_bits(mode as nat)),
        bc6h_mode(prefix as nat) == mode,
{
    let table: [u32; 14] = [0, 1, 2, 6, 10, 14, 18, 22, 26, 30, 3, 7, 11, 15];
    proof {
        lemma_pow2_values();
    }
    table[mode]
}

/// The number of bits of each channel of the first endpoint in the modes that
/// the encoder starts from; 0 for modes 3, 4, 7 and 8, which it reaches from
/// modes 2 and 6.
pub fn get_mode_bits(mode: usize) -> (bits: u32)
    requires
        mode < 14,
    ensures
        bits == (if mode == 3 || mode == 4 || mode == 7 || mode == 8 {
            0
        } else {
            bc6h_base_bits(mode as nat)
        }),
{
    let table: [u32; 14] = [10, 7, 11, 0, 0, 9, 8, 0, 0, 6, 10, 11, 12, 16];
    table[mode]
}

/// Bit `pos` of `v`.
pub fn bit_at(v: i32, pos: u32) -> (bit: u32)
    requires
        0 <= v,
        pos <= 30,
    ensures
        bit == field(v as nat, pos as nat, 1),
{
    let scale = pow2_u64(pos);
    proof {
        lemma_pow2_values();
        lemma_pow2_pos(pos as nat);
    }
    (((v as u64) / scale) % 2) as u32
}

/// The low `bits` bits of `v` in reverse order, for fields of two and of six
/// bits.
pub fn reverse_bits(v: u32, bits: u32) -> (r: u32)
    requires
        bits == 2 || bits == 6,
        v < pow2(bits as nat),
    ensures
        r == reversed(v as nat, bits as nat),
{
    reverse_low_bits(v, bits)
}

/// A quantized endpoint component of `bits` bits widened to sixteen, as the
/// decoder of the unsigned format widens it.
pub fn unpack_to_uf16(v: u32, bits: u32) -> (r: u32)
    requires
        1 <= bits <= 16,
        v < pow2(bits as nat),
    ensures
        r == unquantize(v as int, bits as nat, false),
{
    proof {
        lemma_pow2_values();
        lemma_pow2_pos(bits as nat);
        if bits < 16 {
            lemma_pow2_strictly_increases(bits as nat, 16);
        }
    }
    if bits >= 15 {
        v
    } else if v == 0 {
        0
    } else {
        let p = pow2_u32(bits);
        if v == p - 1 {
            0xFFFF
        } else {
            let up = pow2_u32(15 - bits);
            proof {
                lemma_pow2_adds(bits as nat, (15 - bits) as nat);
                assert(p * up == 0x8000);
                assert((2 * v + 1) * up < 0x1_0000) by (nonlinear_arith)
                    requires
                        v < p - 1,
                        p * up == 0x8000,
                        up >= 1,
                ;
                assert(v * 0x1_0000 + 0x8000 == ((2 * v + 1) * up) * p) by (nonlinear_arith)
                    requires
                        p * up == 0x8000,
                ;
                vstd::arithmetic::div_mod::lemma_div_multiples_vanish(
                    ((2 * v + 1) * up) as int,
                    p as int,
                );
                assert((((2 * v + 1) * up) * p) / (p as int) == (2 * v + 1) * up) by {
                    assert(((2 * v + 1) * up) * p == p * ((2 * v + 1) * up)) by (nonlinear_arith);
                }
            }
            (2 * v + 1) * up
        }
    }
}

/// The number of endpoints that a block of `mode` stores.
pub open spec fn endpoint_count(mode: nat) -> nat {
    if bc6h_partitioned(mode) {
        4
    } else {
        2
    }
}

/// The number of pieces of the header that hold endpoints: all but the
/// partition number, which ends the header of a block with two subsets.
pub open spec fn endpoint_pieces(mode: nat) -> nat {
    if bc6h_partitioned(mode) {
        (bc6h_schedule(mode).len() - 1) as nat
    } else {
        bc6h_schedule(mode).len()
    }
}

/// Whether the quantized endpoints fit `mode`: every component lies below two
/// to the number of bits of the first endpoint, and, where the other
/// endpoints are stored as they are, below two to their own number of bits.
pub open spec fn qep_fits(qep: Seq<i32>, mode: nat) -> bool {
    forall|e: int, c: int|
        0 <= e < endpoint_count(mode) && 0 <= c < 3 ==> 0 <= #[trigger] qep[4 * e + c] < pow2(
            if e == 0 || bc6h_transformed(mode) {
                bc6h_base_bits(mode)
            } else {
                bc6h_delta_bits(mode, c as nat)
            },
        )
}

/// What is stored for `channel` of `endpoint`: the first endpoint as it is,
/// the others as their difference from it to the number of bits that the
/// mode gives them, or as they are where the mode stores no differences.
pub open spec fn stored_component(qep: Seq<i32>, mode: nat, endpoint: nat, channel: nat) -> nat {
    if endpoint >= endpoint_count(mode) {
        0
    } else if endpoint == 0 {
        qep[channel as int] as nat
    } else if bc6h_transformed(mode) {
        ((qep[(4 * endpoint + channel) as int] - qep[channel as int]) % (pow2(
            bc6h_delta_bits(mode, channel),
        ) as int)) as nat
    } else {
        qep[(4 * endpoint + channel) as int] as nat
    }
}

/// The components of the header, channel by channel and endpoint by endpoint;
/// the last place, that of the partition number, holds 0.
pub open spec fn stored_components(qep: Seq<i32>, mode: nat) -> Seq<nat> {
    Seq::new(
        13,
        |t: int|
            if t == 12 {
                0nat
            } else {
                stored_component(qep, mode, (t % 4) as nat, (t / 4) as nat)
            },
    )
}

/// The bits of component `x` that piece `p` holds, in the order in which
/// they are stored.
pub open spec fn piece_bits(x: nat, p: Piece) -> nat {
    let f = field(x, p.shift as nat, p.width as nat);
    if p.reversed {
        reversed(f, p.width as nat)
    } else {
        f
    }
}

/// The first `n` pieces of `s`, filled from the components `stored` and laid
/// out from bit `start` on, as one number.
pub open spec fn scattered(s: Seq<Piece>, stored: Seq<nat>, start: nat, n: nat) -> nat
    decreases n,
{
    if n == 0 {
        0
    } else {
        scattered(s, stored, start, (n - 1) as nat) + piece_bits(
            stored[s[n - 1].target as int],
            s[n - 1],
        ) * pow2(start + schedule_width(s, (n - 1) as nat))
    }
}

/// The header of a block of `mode` with the quantized endpoints `qep`: the
/// bits of the mode and, above them, the pieces of the endpoints.
pub open spec fn bc6h_header(qep: Seq<i32>, mode: nat) -> nat {
    mode_prefix(mode) + scattered(
        bc6h_schedule(mode),
        stored_components(qep, mode),
        bc6h_prefix_bits(mode),
        endpoint_pieces(mode),
    )
}

/// A header cut into the four fields in which it is handed on: 5, 30, 30 and
/// 12 bits.
pub open spec fn header_words(h: nat) -> Seq<u32> {
    seq![
        field(h, 0, 5) as u32,
        field(h, 5, 30) as u32,
        field(h, 35, 30) as u32,
        field(h, 65, 12) as u32,
    ]
}

proof fn lemma_header_length_0()
    ensures
        schedule_width(bc6h_schedule(0), 20) == 80,
        bc6h_schedule(0).len() == 20,
        bc6h_schedule(0)[19].target == PARTITION,
        bc6h_schedule(0)[19].width == 5,
{
    let s = bc6h_schedule(0);
    assert(schedule_width(s, 0) == 0);
    assert(schedule_width(s, 1) == 1);
    assert(schedule_width(s, 2) == 2);
    assert(schedule_width(s, 3) == 3);
    assert(schedule_width(s, 4) == 13);
    assert(schedule_width(s, 5) == 23);
    assert(schedule_width(s, 6) == 33);
    assert(schedule_width(s, 7) == 38);
    assert(schedule_width(s, 8) == 39);
    assert(schedule_width(s, 9) == 43);
    assert(schedule_width(s, 10) == 48);
    assert(schedule_width(s, 11) == 49);
    assert(schedule_width(s, 12) == 53);
    assert(schedule_width(s, 13) == 58);
    assert(schedule_width(s, 14) == 59);
    assert(schedule_width(s, 15) == 63);
    assert(schedule_width(s, 16) == 68);
    assert(schedule_width(s, 17) == 69);
    assert(schedule_width(s, 18) == 74);
    assert(schedule_width(s, 19) == 75);
    assert(schedule_width(s, 20) == 80);
}

proof fn lemma_header_length_1()
    ensures
        schedule_width(bc6h_schedule(1), 24) == 80,
        bc6h_schedule(1).len() == 24,
        bc6h_schedule(1)[23].target == PARTITION,
        bc6h_schedule(1)[23].width == 5,
{
    let s = bc6h_schedule(1);
    assert(schedule_width(s, 0) == 0);
    assert(schedule_width(s, 1) == 1);
    assert(schedule_width(s, 2) == 2);
    assert(schedule_width(s, 3) == 3);
    assert(schedule_width(s, 4) == 10);
    assert(schedule_width(s, 5) == 11);
    assert(schedule_width(s, 6) == 12);
    assert(schedule_width(s, 7) == 13);
    assert(schedule_width(s, 8) == 20);
    assert(schedule_width(s, 9) == 21);
    assert(schedule_width(s, 10) == 22);
    assert(schedule_width(s, 11) == 23);
    assert(schedule_width(s, 12) == 30);
    assert(schedule_width(s, 13) == 31);
    assert(schedule_width(s, 14) == 32);
    assert(schedule_width(s, 15) == 33);
    assert(schedule_width(s, 16) == 39);
    assert(schedule_width(s, 17) == 43);
    assert(schedule_width(s, 18) == 49);
    assert(schedule_width(s, 19) == 53);
    assert(schedule_width(s, 20) == 59);
    assert(schedule_width(s, 21) == 63);
    assert(schedule_width(s, 22) == 69);
    assert(schedule_width(s, 23) == 75);
    assert(schedule_width(s, 24) == 80);
}

proof fn lemma_header_length_2()
    ensures
        schedule_width(bc6h_schedule(2), 19) == 77,
        bc6h_schedule(2).len() == 19,
        bc6h_schedule(2)[18].target == PARTITION,
        bc6h_schedule(2)[18].width == 5,
{
    let s = bc6h_schedule(2);
    assert(schedule_width(s, 0) == 0);
    assert(schedule_width(s, 1) == 10);
    assert(schedule_width(s, 2) == 20);
    assert(schedule_width(s, 3) == 30);
    assert(schedule_width(s, 4) == 35);
    assert(schedule_width(s, 5) == 36);
    assert(schedule_width(s, 6) == 40);
    assert(schedule_width(s, 7) == 44);
    assert(schedule_width(s, 8) == 45);
    assert(schedule_width(s, 9) == 46);
    assert(schedule_width(s, 10) == 50);
    assert(schedule_width(s, 11) == 54);
    assert(schedule_width(s, 12) == 55);
    assert(schedule_width(s, 13) == 56);
    assert(schedule_width(s, 14) == 60);
    assert(schedule_width(s, 15) == 65);
    assert(schedule_width(s, 16) == 66);
    assert(schedule_width(s, 17) == 71);
    assert(schedule_width(s, 18) == 72);
    assert(schedule_width(s, 19) == 77);
}

proof fn lemma_header_length_3()
    ensures
        schedule_width(bc6h_schedule(3), 21) == 77,
        bc6h_schedule(3).len() == 21,
        bc6h_schedule(3)[20].target == PARTITION,
        bc6h_schedule(3)[20].width == 5,
{
    let s = bc6h_schedule(3);
    assert(schedule_width(s, 0) == 0);
    assert(schedule_width(s, 1) == 10);
    assert(schedule_width(s, 2) == 20);
    assert(schedule_width(s, 3) == 30);
    assert(schedule_width(s, 4) == 34);
    assert(schedule_width(s, 5) == 35);
    assert(schedule_width(s, 6) == 36);
    assert(schedule_width(s, 7) == 40);
    assert(schedule_width(s, 8) == 45);
    assert(schedule_width(s, 9) == 46);
    assert(schedule_width(s, 10) == 50);
    assert(schedule_width(s, 11) == 54);
    assert(schedule_width(s, 12) == 55);
    assert(schedule_width(s, 13) == 56);
    assert(schedule_width(s, 14) == 60);
    assert(schedule_width(s, 15) == 64);
    assert(schedule_width(s, 16) == 65);
    assert(schedule_width(s, 17) == 66);
    assert(schedule_width(s, 18) == 70);
    assert(schedule_width(s, 19) == 71);
    assert(schedule_width(s, 20) == 72);
    assert(schedule_width(s, 21) == 77);
}

proof fn lemma_header_length_4()
    ensures
        schedule_width(bc6h_schedule(4), 21) == 77,
        bc6h_schedule(4).len() == 21,
        bc6h_schedule(4)[20].target == PARTITION,
        bc6h_schedule(4)[20].width == 5,
{
    let s = bc6h_schedule(4);
    assert(schedule_width(s, 0) == 0);
    assert(schedule_width(s, 1) == 10);
    assert(schedule_width(s, 2) == 20);
    assert(schedule_width(s, 3) == 30);
    assert(schedule_width(s, 4) == 34);
    assert(schedule_width(s, 5) == 35);
    assert(schedule_width(s, 6) == 36);
    assert(schedule_width(s, 7) == 40);
    assert(schedule_width(s, 8) == 44);
    assert(schedule_width(s, 9) == 45);
    assert(schedule_width(s, 10) == 46);
    assert(schedule_width(s, 11) == 50);
    assert(schedule_width(s, 12) == 55);
    assert(schedule_width(s, 13) == 56);
    assert(schedule_width(s, 14) == 60);
    assert(schedule_width(s, 15) == 64);
    assert(schedule_width(s, 16) == 65);
    assert(schedule_width(s, 17) == 66);
    assert(schedule_width(s, 18) == 70);
    assert(schedule_width(s, 19) == 71);
    assert(schedule_width(s, 20) == 72);
    assert(schedule_width(s, 21) == 77);
}

proof fn lemma_header_length_5()
    ensures
        schedule_width(bc6h_schedule(5), 20) == 77,
        bc6h_schedule(5).len() == 20,
        bc6h_schedule(5)[19].target == PARTITION,
        bc6h_schedule(5)[19].width == 5,
{
    let s = bc6h_schedule(5);
    assert(schedule_width(s, 0) == 0);
    assert(schedule_width(s, 1) == 9);
    assert(schedule_width(s, 2) == 10);
    assert(schedule_width(s, 3) == 19);
    assert(schedule_width(s, 4) == 20);
    assert(schedule_width(s, 5) == 29);
    assert(schedule_width(s, 6) == 30);
    assert(schedule_width(s, 7) == 35);
    assert(schedule_width(s, 8) == 36);
    assert(schedule_width(s, 9) == 40);
    assert(schedule_width(s, 10) == 45);
    assert(schedule_width(s, 11) == 46);
    assert(schedule_width(s, 12) == 50);
    assert(schedule_width(s, 13) == 55);
    assert(schedule_width(s, 14) == 56);
    assert(schedule_width(s, 15) == 60);
    assert(schedule_width(s, 16) == 65);
    assert(schedule_width(s, 17) == 66);
    assert(schedule_width(s, 18) == 71);
    assert(schedule_width(s, 19) == 72);
    assert(schedule_width(s, 20) == 77);
}

proof fn lemma_header_length_6()
    ensures
        schedule_width(bc6h_schedule(6), 20) == 77,
        bc6h_schedule(6).len() == 20,
        bc6h_schedule(6)[19].target == PARTITION,
        bc6h_schedule(6)[19].width == 5,
{
    let s = bc6h_schedule(6);
    assert(schedule_width(s, 0) == 0);
    assert(schedule_width(s, 1) == 8);
    assert(schedule_width(s, 2) == 9);
    assert(schedule_width(s, 3) == 10);
    assert(schedule_width(s, 4) == 18);
    assert(schedule_width(s, 5) == 19);
    assert(schedule_width(s, 6) == 20);
    assert(schedule_width(s, 7) == 28);
    assert(schedule_width(s, 8) == 29);
    assert(schedule_width(s, 9) == 30);
    assert(schedule_width(s, 10) == 36);
    assert(schedule_width(s, 11) == 40);
    assert(schedule_width(s, 12) == 45);
    assert(schedule_width(s, 13) == 46);
    assert(schedule_width(s, 14) == 50);
    assert(schedule_width(s, 15) == 55);
    assert(schedule_width(s, 16) == 56);
    assert(schedule_width(s, 17) == 60);
    assert(schedule_width(s, 18) == 66);
    assert(schedule_width(s, 19) == 72);
    assert(schedule_width(s, 20) == 77);
}

proof fn lemma_header_length_7()
    ensures
        schedule_width(bc6h_schedule(7), 22) == 77,
        bc6h_schedule(7).len() == 22,
        bc6h_schedule(7)[21].target == PARTITION,
        bc6h_schedule(7)[21].width == 5,
{
    let s = bc6h_schedule(7);
    assert(schedule_width(s, 0) == 0);
    assert(schedule_width(s, 1) == 8);
    assert(schedule_width(s, 2) == 9);
    assert(schedule_width(s, 3) == 10);
    assert(schedule_width(s, 4) == 18);
    assert(schedule_width(s, 5) == 19);
    assert(schedule_width(s, 6) == 20);
    assert(schedule_width(s, 7) == 28);
    assert(schedule_width(s, 8) == 29);
    assert(schedule_width(s, 9) == 30);
    assert(schedule_width(s, 10) == 35);
    assert(schedule_width(s, 11) == 36);
    assert(schedule_width(s, 12) == 40);
    assert(schedule_width(s, 13) == 46);
    assert(schedule_width(s, 14) == 50);
    assert(schedule_width(s, 15) == 55);
    assert(schedule_width(s, 16) == 56);
    assert(schedule_width(s, 17) == 60);
    assert(schedule_width(s, 18) == 65);
    assert(schedule_width(s, 19) == 66);
    assert(schedule_width(s, 20) == 71);
    assert(schedule_width(s, 21) == 72);
    assert(schedule_width(s, 22) == 77);
}

proof fn lemma_header_length_8()
    ensures
        schedule_width(bc6h_schedule(8), 22) == 77,
        bc6h_schedule(8).len() == 22,
        bc6h_schedule(8)[21].target == PARTITION,
        bc6h_schedule(8)[21].width == 5,
{
    let s = bc6h_schedule(8);
    assert(schedule_width(s, 0) == 0);
    assert(schedule_width(s, 1) == 8);
    assert(schedule_width(s, 2) == 9);
    assert(schedule_width(s, 3) == 10);
    assert(schedule_width(s, 4) == 18);
    assert(schedule_width(s, 5) == 19);
    assert(schedule_width(s, 6) == 20);
    assert(schedule_width(s, 7) == 28);
    assert(schedule_width(s, 8) == 29);
    assert(schedule_width(s, 9) == 30);
    assert(schedule_width(s, 10) == 35);
    assert(schedule_width(s, 11) == 36);
    assert(schedule_width(s, 12) == 40);
    assert(schedule_width(s, 13) == 45);
    assert(schedule_width(s, 14) == 46);
    assert(schedule_width(s, 15) == 50);
    assert(schedule_width(s, 16) == 56);
    assert(schedule_width(s, 17) == 60);
    assert(schedule_width(s, 18) == 65);
    assert(schedule_width(s, 19) == 66);
    assert(schedule_width(s, 20) == 71);
    assert(schedule_width(s, 21) == 72);
    assert(schedule_width(s, 22) == 77);
}

proof fn lemma_header_length_9()
    ensures
        schedule_width(bc6h_schedule(9), 24) == 77,
        bc6h_schedule(9).len() == 24,
        bc6h_schedule(9)[23].target == PARTITION,
        bc6h_schedule(9)[23].width == 5,
{
    let s = bc6h_schedule(9);
    assert(schedule_width(s, 0) == 0);
    assert(schedule_width(s, 1) == 6);
    assert(schedule_width(s, 2) == 7);
    assert(schedule_width(s, 3) == 8);
    assert(schedule_width(s, 4) == 9);
    assert(schedule_width(s, 5) == 10);
    assert(schedule_width(s, 6) == 16);
    assert(schedule_width(s, 7) == 17);
    assert(schedule_width(s, 8) == 18);
    assert(schedule_width(s, 9) == 19);
    assert(schedule_width(s, 10) == 20);
    assert(schedule_width(s, 11) == 26);
    assert(schedule_width(s, 12) == 27);
    assert(schedule_width(s, 13) == 28);
    assert(schedule_width(s, 14) == 29);
    assert(schedule_width(s, 15) == 30);
    assert(schedule_width(s, 16) == 36);
    assert(schedule_width(s, 17) == 40);
    assert(schedule_width(s, 18) == 46);
    assert(schedule_width(s, 19) == 50);
    assert(schedule_width(s, 20) == 56);
    assert(schedule_width(s, 21) == 60);
    assert(schedule_width(s, 22) == 66);
    assert(schedule_width(s, 23) == 72);
    assert(schedule_width(s, 24) == 77);
}

proof fn lemma_header_length_10()
    ensures
        schedule_width(bc6h_schedule(10), 6) == 60,
        bc6h_schedule(10).len() == 6,
        bc6h_schedule(10)[5].target == 9,
{
    let s = bc6h_schedule(10);
    assert(schedule_width(s, 0) == 0);
    assert(schedule_width(s, 1) == 10);
    assert(schedule_width(s, 2) == 20);
    assert(schedule_width(s, 3) == 30);
    assert(schedule_width(s, 4) == 40);
    assert(schedule_width(s, 5) == 50);
    assert(schedule_width(s, 6) == 60);
}

proof fn lemma_header_length_11()
    ensures
        schedule_width(bc6h_schedule(11), 9) == 60,
        bc6h_schedule(11).len() == 9,
        bc6h_schedule(11)[8].target == 8,
{
    let s = bc6h_schedule(11);
    assert(schedule_width(s, 0) == 0);
    assert(schedule_width(s, 1) == 10);
    assert(schedule_width(s, 2) == 20);
    assert(schedule_width(s, 3) == 30);
    assert(schedule_width(s, 4) == 39);
    assert(schedule_width(s, 5) == 40);
    assert(schedule_width(s, 6) == 49);
    assert(schedule_width(s, 7) == 50);
    assert(schedule_width(s, 8) == 59);
    assert(schedule_width(s, 9) == 60);
}

proof fn lemma_header_length_12()
    ensures
        schedule_width(bc6h_schedule(12), 9) == 60,
        bc6h_schedule(12).len() == 9,
        bc6h_schedule(12)[8].target == 8,
{
    let s = bc6h_schedule(12);
    assert(schedule_width(s, 0) == 0);
    assert(schedule_width(s, 1) == 10);
    assert(schedule_width(s, 2) == 20);
    assert(schedule_width(s, 3) == 30);
    assert(schedule_width(s, 4) == 38);
    assert(schedule_width(s, 5) == 40);
    assert(schedule_width(s, 6) == 48);
    assert(schedule_width(s, 7) == 50);
    assert(schedule_width(s, 8) == 58);
    assert(schedule_width(s, 9) == 60);
}

proof fn lemma_header_length_13()
    ensures
        schedule_width(bc6h_schedule(13), 9) == 60,
        bc6h_schedule(13).len() == 9,
        bc6h_schedule(13)[8].target == 8,
{
    let s = bc6h_schedule(13);
    assert(schedule_width(s, 0) == 0);
    assert(schedule_width(s, 1) == 10);
    assert(schedule_width(s, 2) == 20);
    assert(schedule_width(s, 3) == 30);
    assert(schedule_width(s, 4) == 34);
    assert(schedule_width(s, 5) == 40);
    assert(schedule_width(s, 6) == 44);
    assert(schedule_width(s, 7) == 50);
    assert(schedule_width(s, 8) == 54);
    assert(schedule_width(s, 9) == 60);
}

/// The length of the header of each mode: the indices start at bit 82 where
/// the block has two subsets, else at bit 65. The header of a block with two
/// subsets ends with the partition number.
pub proof fn lemma_header_length(mode: nat)
    requires
        mode < 14,
    ensures
        bc6h_prefix_bits(mode) + schedule_width(bc6h_schedule(mode), bc6h_schedule(mode).len())
            == (if bc6h_partitioned(mode) {
            82nat
        } else {
            65nat
        }),
        bc6h_partitioned(mode) ==> bc6h_schedule(mode).last().target == PARTITION
            && bc6h_schedule(mode).last().width == 5,
{
    if mode == 0 {
        lemma_header_length_0();
    }     else if mode == 1 {
        lemma_header_length_1();
    }     else if mode == 2 {
        lemma_header_length_2();
    }     else if mode == 3 {
        lemma_header_length_3();
    }     else if mode == 4 {
        lemma_header_length_4();
    }     else if mode == 5 {
        lemma_header_length_5();
    }     else if mode == 6 {
        lemma_header_length_6();
    }     else if mode == 7 {
        lemma_header_length_7();
    }     else if mode == 8 {
        lemma_header_length_8();
    }     else if mode == 9 {
        lemma_header_length_9();
    }     else if mode == 10 {
        lemma_header_length_10();
    }     else if mode == 11 {
        lemma_header_length_11();
    }     else if mode == 12 {
        lemma_header_length_12();
    }     else {
        lemma_header_length_13();
    }
}

/// The width of the pieces grows with their number.
pub proof fn lemma_schedule_width_grows(s: Seq<Piece>, i: nat, n: nat)
    requires
        i <= n,
    ensures
        schedule_width(s, i) <= schedule_width(s, n),
    decreases n,
{
    if i < n {
        lemma_schedule_width_grows(s, i, (n - 1) as nat);
    }
}

/// What is stored for the endpoints, place by place.
fn store_components(qep: &[i32; 24], mode: usize) -> (stored: [u32; 13])
    requires
        mode < 14,
        qep_fits(qep@, mode as nat),
    ensures
        forall|t: int| 0 <= t < 13 ==> #[trigger] stored@[t] == stored_components(qep@, mode as nat)[t],
        forall|t: int| 0 <= t < 13 ==> #[trigger] stored@[t] < 0x1_0000,
{
    let transformed = mode != 9 && mode != 10;
    let count: usize = if mode < 10 {
        4
    } else {
        2
    };
    let bits = base_bits_of(mode as u32);
    let mut stored = [0u32; 13];
    let mut t: usize = 0;
    proof {
        lemma_pow2_values();
    }
    while t < 12
        invariant
            mode < 14,
            qep_fits(qep@, mode as nat),
            transformed == bc6h_transformed(mode as nat),
            count == endpoint_count(mode as nat),
            bits == bc6h_base_bits(mode as nat),
            6 <= bits <= 16,
            t <= 12,
            stored@[12] == 0,
            forall|i: int| 0 <= i < t ==> #[trigger] stored@[i] == stored_components(qep@, mode as nat)[i],
            forall|i: int| 0 <= i < 13 ==> #[trigger] stored@[i] < 0x1_0000,
        decreases 12 - t,
    {
        let c = t / 4;
        let e = t % 4;
        let dbits = delta_bits_of(mode as u32, c);
        proof {
            lemma_pow2_values();
            if bits < 16 {
                lemma_pow2_strictly_increases(bits as nat, 16);
            }
            lemma_pow2_strictly_increases(dbits as nat, 16);
            lemma_pow2_pos(dbits as nat);
            if e < count {
                assert(0 <= qep@[4 * 0 + c] < pow2(bits as nat));
                assert(0 <= qep@[4 * e + c]);
            }
        }
        let value: u32 = if e >= count {
            0
        } else if e == 0 {
            qep[c] as u32
        } else if transformed {
            let p = pow2_u32(dbits);
            let q = pow2_u32(16 - dbits);
            let lifted = (qep[4 * e + c] - qep[c] + 0x1_0000) as u32;
            proof {
                lemma_pow2_adds(dbits as nat, (16 - dbits) as nat);
                assert(q * p == 0x1_0000) by (nonlinear_arith)
                    requires
                        p * q == 0x1_0000,
                ;
                vstd::arithmetic::div_mod::lemma_mod_multiples_vanish(
                    q as int,
                    (qep@[4 * e + c] - qep@[c as int]) as int,
                    p as int,
                );
                vstd::arithmetic::div_mod::lemma_mod_bound(
                    (qep@[4 * e + c] - qep@[c as int]) as int,
                    p as int,
                );
            }
            lifted % p
        } else {
            qep[4 * e + c] as u32
        };
        stored[t] = value;
        t = t + 1;
    }
    stored
}

/// The number of bits of the header that hold the mode and the endpoints: 77
/// where the block has two subsets, else 65.
pub open spec fn endpoint_end(mode: nat) -> nat {
    if bc6h_partitioned(mode) {
        77
    } else {
        65
    }
}

/// Writes the mode and the endpoints into an empty block.
fn write_header(data: &mut [u32; 5], pos: &mut u32, qep: &[i32; 24], mode: usize)
    requires
        mode < 14,
        qep_fits(qep@, mode as nat),
        *old(pos) == 0,
        words_value(old(data)@) == 0,
    ensures
        words_value(final(data)@) == bc6h_header(qep@, mode as nat),
        words_value(final(data)@) < pow2(endpoint_end(mode as nat)),
        *final(pos) == endpoint_end(mode as nat),
{
    let schedule = schedule_of(mode as u32);
    let stored = store_components(qep, mode);
    let ghost s = schedule@;
    let ghost parts = stored_components(qep@, mode as nat);
    let ghost start = bc6h_prefix_bits(mode as nat);
    let count = if mode < 10 {
        schedule.len() - 1
    } else {
        schedule.len()
    };
    proof {
        lemma_pow2_values();
        lemma_header_length(mode as nat);
    }
    let prefix_bits: u32 = if mode < 2 {
        2
    } else {
        5
    };
    proof {
        crate::bits::lemma_field_above(words_value(data@), *pos as nat, prefix_bits as nat);
    }
    put_bits(data, pos, prefix_bits, get_mode_prefix(mode));
    let mut i: usize = 0;
    while i < count
        invariant
            mode < 14,
            s == schedule@,
            s == bc6h_schedule(mode as nat),
            s.len() <= 24,
            count == endpoint_pieces(mode as nat),
            count <= s.len(),
            start == bc6h_prefix_bits(mode as nat),
            start + schedule_width(s, s.len()) <= 82,
            forall|j: int|
                0 <= j < s.len() ==> (#[trigger] s[j]).shift + s[j].width <= 16 && 1 <= s[j].width
                    <= 10 && s[j].target <= 12,
            forall|t: int| 0 <= t < 13 ==> #[trigger] stored@[t] == parts[t],
            forall|t: int| 0 <= t < 13 ==> #[trigger] stored@[t] < 0x1_0000,
            i <= count,
            *pos == start + schedule_width(s, i as nat),
            words_value(data@) == mode_prefix(mode as nat) + scattered(s, parts, start, i as nat),
            words_value(data@) < pow2(*pos as nat),
        decreases count - i,
    {
        let p = &schedule[i];
        proof {
            lemma_schedule_width_grows(s, (i + 1) as nat, s.len());
            assert(s[i as int].shift + s[i as int].width <= 16);
            lemma_pow2_values();
            lemma_pow2_pos(p.shift as nat);
            lemma_field_bound(stored@[p.target as int] as nat, p.shift as nat, p.width as nat);
        }
        let x = stored[p.target as usize];
        let f = (x / pow2_u32(p.shift)) % pow2_u32(p.width);
        let bits = if p.reversed {
            reverse_low_bits(f, p.width)
        } else {
            f
        };
        assert(bits == piece_bits(parts[p.target as int], s[i as int]));
        proof {
            crate::bits::lemma_field_above(words_value(data@), *pos as nat, p.width as nat);
        }
        put_bits(data, pos, p.width, bits);
        i = i + 1;
    }
    proof {
        if mode < 10 {
            assert(schedule_width(s, s.len()) == schedule_width(s, (s.len() - 1) as nat) + s.last().width);
        }
    }
}

/// Lays the quantized endpoints `qep` out as the header of a block of `mode`,
/// cut into four fields of 5, 30, 30 and 12 bits.
pub fn bc6h_pack(packed: &mut [u32; 4], qep: &[i32; 24], mode: usize)
    requires
        mode < 14,
        qep_fits(qep@, mode as nat),
    ensures
        final(packed)@ == header_words(bc6h_header(qep@, mode as nat)),
{
    let mut data = [0u32; 5];
    let mut pos: u32 = 0;
    write_header(&mut data, &mut pos, qep, mode);
    proof {
        lemma_pow2_values();
        lemma_pow2_strictly_increases(pos as nat, 96);
        lemma_pow2_adds(64, 32);
        lemma_words_below(data@, 2, 0x1_0000_0000);
    }
    let h: u128 = data[0] as u128 + data[1] as u128 * 0x1_0000_0000 + data[2] as u128
        * 0x1_0000_0000_0000_0000;
    proof {
        assert(h == bc6h_header(qep@, mode as nat));
        vstd::arithmetic::power2::lemma2_to64();
        lemma_pow2_adds(32, 3);
        lemma_pow2_adds(64, 1);
        assert(pow2(0) == 1 && pow2(5) == 32 && pow2(30) == 0x4000_0000 && pow2(35)
            == 0x8_0000_0000 && pow2(65) == 0x2_0000_0000_0000_0000 && pow2(12) == 4096);
    }
    packed[0] = (h % 32) as u32;
    packed[1] = ((h / 32) % 0x4000_0000) as u32;
    packed[2] = ((h / 0x8_0000_0000) % 0x4000_0000) as u32;
    packed[3] = ((h / 0x2_0000_0000_0000_0000) % 4096) as u32;
    assert(packed@ =~= header_words(bc6h_header(qep@, mode as nat)));
}

/// The block of a mode with two subsets: the header of the endpoints after
/// those of every subset have changed places whose anchor needs it, the
/// partition number, and the indices, the spare bit of the second anchor
/// taken out.
pub open spec fn bc6h_block_2p(qep: Seq<i32>, qblock: Seq<u32>, part_id: int, mode: nat) -> nat {
    skips_adjusted(
        bc6h_header(qep, mode) + part_id as nat * pow2(77) + coded_indices(
            qblock,
            3,
            swap_flips(qblock, 1, part_id, 2),
            16,
        ) * pow2(82),
        1,
        part_id,
    )
}

/// Codes a block of a mode with two subsets, 0 to 9, from its quantized
/// endpoints and indices. The endpoints of a subset change places in `qep`
/// where the index of its anchor has its top bit set.
pub fn bc6h_code_2p(qep: &mut [i32; 24], qblock: [u32; 2], part_id: i32, mode: usize) -> (data: [u32;
    5])
    requires
        mode < 10,
        0 <= part_id < 32,
        qep_fits(old(qep)@, mode as nat),
        forall|k: int| 0 <= k < 16 ==> nibble(qblock@, k) < 8,
    ensures
        qep_fits(final(qep)@, mode as nat),
        words_value(data@) == bc6h_block_2p(final(qep)@, qblock@, part_id as int, mode as nat),
        forall|j: int, p: int|
            0 <= j < 2 && 0 <= p < 4 ==> #[trigger] final(qep)@[8 * j + p] == (if subset_swapped(
                qblock@,
                1,
                part_id as int,
                j,
            ) {
                old(qep)@[8 * j + 4 + p]
            } else {
                old(qep)@[8 * j + p]
            }),
        forall|j: int, p: int|
            0 <= j < 2 && 0 <= p < 4 ==> #[trigger] final(qep)@[8 * j + 4 + p] == (
            if subset_swapped(qblock@, 1, part_id as int, j) {
                old(qep)@[8 * j + p]
            } else {
                old(qep)@[8 * j + 4 + p]
            }),
{
    let flips = bc7_code_apply_swap_mode01237(qep, qblock, 1, part_id);
    proof {
        lemma_pow2_values();
        assert forall|e: int, c: int| 0 <= e < 4 && 0 <= c < 3 implies 0 <= #[trigger] qep@[4 * e
            + c] < pow2(
            if e == 0 || bc6h_transformed(mode as nat) {
                bc6h_base_bits(mode as nat)
            } else {
                bc6h_delta_bits(mode as nat, c as nat)
            },
        ) by {
            let j = e / 2;
            let half = e % 2;
            assert(qep@[8 * j + c] == old(qep)@[4 * (2 * j) + c] || qep@[8 * j + c] == old(qep)@[4 * (2 * j + 1) + c]);
            assert(qep@[8 * j + 4 + c] == old(qep)@[4 * (2 * j) + c] || qep@[8 * j + 4 + c] == old(qep)@[4 * (2 * j + 1) + c]);
            assert(0 <= old(qep)@[4 * (2 * j) + c]);
            assert(0 <= old(qep)@[4 * (2 * j + 1) + c]);
        }
        lemma_anchor_index_short(qblock@, 1, part_id as int);
    }
    let mut data = [0u32; 5];
    let mut pos: u32 = 0;
    write_header(&mut data, &mut pos, qep, mode);
    proof {
        crate::bits::lemma_field_above(words_value(data@), pos as nat, 5);
    }
    put_bits(&mut data, &mut pos, 5, part_id as u32);
    bc7_code_qblock(&mut data, &mut pos, qblock, 3, flips);
    bc7_code_adjust_skip_mode01237(&mut data, 1, part_id);
    data
}

/// The block of a mode with one subset: the header of the endpoints and the
/// indices.
pub open spec fn bc6h_block_1p(qep: Seq<i32>, qblock: Seq<u32>, mode: nat) -> nat {
    bc6h_header(qep, mode) + coded_indices(qblock, 4, 0, 16) * pow2(65)
}

/// Codes a block of a mode with one subset, 10 to 13, from its quantized
/// endpoints and indices. Where the index of pixel 0 has its top bit set the
/// endpoints change places in `qep` and every index in `qblock` is counted
/// from the other end.
pub fn bc6h_code_1p(qep: &mut [i32; 24], qblock: &mut [u32; 2], mode: usize) -> (data: [u32; 5])
    requires
        10 <= mode < 14,
        qep_fits(old(qep)@, mode as nat),
    ensures
        qep_fits(final(qep)@, mode as nat),
        words_value(data@) == bc6h_block_1p(final(qep)@, final(qblock)@, mode as nat),
        nibble(old(qblock)@, 0) < 8 ==> final(qep)@ == old(qep)@ && final(qblock)@ == old(qblock)@,
        nibble(old(qblock)@, 0) >= 8 ==> {
            &&& forall|p: int|
                0 <= p < 4 ==> #[trigger] final(qep)@[p] == old(qep)@[4 + p] && final(qep)@[4 + p]
                    == old(qep)@[p]
            &&& forall|k: int|
                0 <= k < 16 ==> #[trigger] nibble(final(qblock)@, k) == 15 - nibble(old(qblock)@, k)
        },
{
    proof {
        lemma_pow2_values();
        assert forall|k: int| 0 <= k < 16 implies nibble(qblock@, k) < pow2(4) by {
            lemma_field_bound(qblock@[k / 8] as nat, (4 * (k % 8)) as nat, 4);
        }
    }
    bc7_code_apply_swap_mode456(qep, 4, qblock, 4);
    proof {
        assert forall|e: int, c: int| 0 <= e < 2 && 0 <= c < 3 implies 0 <= #[trigger] qep@[4 * e
            + c] < pow2(
            if e == 0 || bc6h_transformed(mode as nat) {
                bc6h_base_bits(mode as nat)
            } else {
                bc6h_delta_bits(mode as nat, c as nat)
            },
        ) by {
            assert(0 <= old(qep)@[4 * 0 + c]);
            assert(0 <= old(qep)@[4 * 1 + c]);
            assert(qep@[c] == old(qep)@[c] || qep@[c] == old(qep)@[4 + c]);
            assert(qep@[4 + c] == old(qep)@[c] || qep@[4 + c] == old(qep)@[4 + c]);
        }
        assert(field(0, 0, 1) == 0) by {
            lemma_field_bound(0, 0, 1);
            vstd::arithmetic::div_mod::lemma_small_mod(0, 2);
        }
    }
    let mut data = [0u32; 5];
    let mut pos: u32 = 0;
    write_header(&mut data, &mut pos, qep, mode);
    bc7_code_qblock(&mut data, &mut pos, *qblock, 4, 0);
    data
}

/// The bits of component `x` that the pieces of `target` among the first `n`
/// hold, each at its place in the component: for every such piece, what of
/// `x` lies below the end of the piece without what lies below its start.
pub open spec fn recombined(s: Seq<Piece>, x: nat, target: nat, n: nat) -> int
    decreases n,
{
    if n == 0 {
        0
    } else {
        recombined(s, x, target, (n - 1) as nat) + (if s[n - 1].target == target {
            x % pow2((s[n - 1].shift + s[n - 1].width) as nat) - x % pow2(s[n - 1].shift as nat)
        } else {
            0
        })
    }
}

/// The bits of a piece fit its width.
pub proof fn lemma_piece_bits_bound(x: nat, p: Piece)
    ensures
        piece_bits(x, p) < pow2(p.width as nat),
{
    lemma_field_bound(x, p.shift as nat, p.width as nat);
    lemma_reversed_bound(field(x, p.shift as nat, p.width as nat), p.width as nat);
}

/// The mode and the first `n` pieces lie below the end of the last piece,
/// and every piece is found at its place, whatever lies above the pieces.
#[verifier::rlimit(50)]
pub proof fn lemma_scattered_piece(
    s: Seq<Piece>,
    stored: Seq<nat>,
    prefix: nat,
    start: nat,
    n: nat,
    i: nat,
)
    requires
        n <= s.len(),
        prefix < pow2(start),
        i < n,
    ensures
        prefix + scattered(s, stored, start, n) < pow2(start + schedule_width(s, n)),
        field(
            prefix + scattered(s, stored, start, n),
            start + schedule_width(s, i),
            s[i as int].width as nat,
        ) == piece_bits(stored[s[i as int].target as int], s[i as int]),
        field(prefix + scattered(s, stored, start, n), 0, start) == prefix,
    decreases n,
{
    let b = start + schedule_width(s, (n - 1) as nat);
    let l = prefix + scattered(s, stored, start, (n - 1) as nat);
    let u = piece_bits(stored[s[n - 1].target as int], s[n - 1]);
    let w = s[n - 1].width as nat;
    lemma_piece_bits_bound(stored[s[n - 1].target as int], s[n - 1]);
    if n == 1 {
        assert(scattered(s, stored, start, 0) == 0);
    } else {
        if i < n - 1 {
            lemma_scattered_piece(s, stored, prefix, start, (n - 1) as nat, i);
        } else {
            lemma_scattered_piece(s, stored, prefix, start, (n - 1) as nat, 0);
        }
    }
    assert(l < pow2(b));
    lemma_pow2_adds(b, w);
    assert(l + u * pow2(b) < pow2(b) * pow2(w)) by (nonlinear_arith)
        requires
            l < pow2(b),
            u < pow2(w),
    ;
    assert(u * pow2(b) == pow2(b) * u) by (nonlinear_arith);
    crate::bits::lemma_field_of_sum(l, u, b, 0, start);
    if n == 1 {
        crate::bits::lemma_field_small(prefix, start);
    }
    if i < n - 1 {
        lemma_schedule_width_grows(s, i + 1, (n - 1) as nat);
        crate::bits::lemma_field_of_sum(l, u, b, start + schedule_width(s, i), s[i as int].width as nat);
    } else {
        crate::bits::lemma_field_of_sum(l, u, b, 0, w);
        crate::bits::lemma_field_small(u, w);
    }
}

/// What the decoder gathers for a component from a header that the encoder
/// has laid out is the component as its pieces hold it, whatever lies above
/// the header: every piece is read back as the bits it was written from.
#[verifier::rlimit(50)]
pub proof fn lemma_header_read_back(
    s: Seq<Piece>,
    stored: Seq<nat>,
    prefix: nat,
    start: nat,
    count: nat,
    above: nat,
    target: nat,
    n: nat,
)
    requires
        count <= s.len(),
        n <= count,
        prefix < pow2(start),
    ensures
        gathered(
            s,
            prefix + scattered(s, stored, start, count) + pow2(start + schedule_width(s, count))
                * above,
            start,
            n,
            target,
        ) == recombined(s, stored[target as int], target, n),
    decreases n,
{
    if n > 0 {
        lemma_header_read_back(s, stored, prefix, start, count, above, target, (n - 1) as nat);
        let header = prefix + scattered(s, stored, start, count);
        let end = start + schedule_width(s, count);
        let v = header + pow2(end) * above;
        let p = s[n - 1];
        let pos = start + schedule_width(s, (n - 1) as nat);
        let w = p.width as nat;
        if p.target == target {
            lemma_scattered_piece(s, stored, prefix, start, count, (n - 1) as nat);
            lemma_schedule_width_grows(s, n, count);
            crate::bits::lemma_field_of_sum(header, above, end, pos, w);
            let x = stored[target as int];
            let f = field(x, p.shift as nat, w);
            lemma_field_bound(x, p.shift as nat, w);
            assert(field(v, pos, w) == piece_bits(x, p));
            if p.reversed {
                lemma_reversed_twice(f, w);
            }
            assert(piece_value(v, pos, p) == f * pow2(p.shift as nat));
            crate::bits::lemma_field_as_difference(x, p.shift as nat, w);
        }
    }
}

/// A block whose low bits are the header of `mode` has that mode.
pub proof fn lemma_header_mode(qep: Seq<i32>, mode: nat, above: nat)
    requires
        mode < 14,
    ensures
        bc6h_mode(bc6h_header(qep, mode) + pow2(endpoint_end(mode)) * above) == mode,
{
    let s = bc6h_schedule(mode);
    let stored = stored_components(qep, mode);
    let start = bc6h_prefix_bits(mode);
    let count = endpoint_pieces(mode);
    let header = bc6h_header(qep, mode);
    let v = header + pow2(endpoint_end(mode)) * above;
    lemma_pow2_values();
    lemma_header_length(mode);
    lemma_scattered_piece(s, stored, mode_prefix(mode), start, count, 0);
    assert(schedule_width(s, s.len()) == schedule_width(s, (s.len() - 1) as nat) + s.last().width);
    assert(start + schedule_width(s, count) == endpoint_end(mode));
    crate::bits::lemma_field_of_sum(header, above, endpoint_end(mode), 0, start);
    assert(field(v, 0, start) == mode_prefix(mode));
    let p0 = pow2(0);
    assert(v / p0 == v) by (nonlinear_arith)
        requires
            p0 == 1,
    ;
    if mode < 2 {
        vstd::arithmetic::div_mod::lemma_mod_mod(v as int, 4, 64);
        assert((v % 256) % 4 == mode_prefix(mode));
    } else {
        vstd::arithmetic::div_mod::lemma_mod_mod(v as int, 32, 8);
        assert((v % 256) % 32 == mode_prefix(mode));
    }
}

/// In a block that begins with the header of `mode`, whatever follows it,
/// the decoder finds for every component of every endpoint what the header
/// stores of it: the bits that the pieces of the component hold, to the
/// number of bits of the component.
pub proof fn lemma_header_components(
    qep: Seq<i32>,
    mode: nat,
    above: nat,
    endpoint: nat,
    channel: nat,
)
    requires
        mode < 14,
        endpoint < 4,
        channel < 3,
    ensures
        bc6h_stored(
            bc6h_header(qep, mode) + pow2(endpoint_end(mode)) * above,
            mode,
            endpoint,
            channel,
        ) == recombined(
            bc6h_schedule(mode),
            stored_component(qep, mode, endpoint, channel),
            channel * 4 + endpoint,
            endpoint_pieces(mode),
        ) % (pow2(bc6h_bits(mode, endpoint, channel)) as int),
{
    let s = bc6h_schedule(mode);
    let stored = stored_components(qep, mode);
    let start = bc6h_prefix_bits(mode);
    let count = endpoint_pieces(mode);
    let t = channel * 4 + endpoint;
    let v = bc6h_header(qep, mode) + pow2(endpoint_end(mode)) * above;
    lemma_pow2_values();
    lemma_header_length(mode);
    assert(schedule_width(s, s.len()) == schedule_width(s, (s.len() - 1) as nat) + s.last().width);
    assert(start + schedule_width(s, count) == endpoint_end(mode));
    lemma_header_read_back(s, stored, mode_prefix(mode), start, count, above, t, count);
    assert(stored[t as int] == stored_component(qep, mode, (t % 4) as nat, (t / 4) as nat));
    assert(gathered(s, v, start, s.len(), t) == gathered(s, v, start, count, t));
}

/// In the modes with one subset, 10 to 13, the indices lie one after the
/// other, the first with one bit less than the others.
pub proof fn lemma_one_subset_index_offset(v: nat, mode: nat, k: nat)
    requires
        10 <= mode < 14,
        k <= 16,
    ensures
        crate::decode::bc6h::bc6h_index_offset(v, mode, k) == super::common::coded_offset(4, k),
        k < 16 ==> crate::decode::bc6h::bc6h_index_width(v, mode, k) == super::common::coded_width(
            4,
            k,
        ),
    decreases k,
{
    if k > 0 {
        lemma_one_subset_index_offset(v, mode, (k - 1) as nat);
        if k > 1 {
            super::common::lemma_coded_offset(4, (k - 1) as nat);
        }
        super::common::lemma_coded_offset(4, k);
    }
}

/// A block of a mode with one subset fills sixteen bytes, has the mode it was
/// coded in, and gives every index back to the decoder.
pub proof fn lemma_one_subset_read_back(qep: Seq<i32>, qblock: Seq<u32>, mode: nat, k: nat)
    requires
        10 <= mode < 14,
        qblock.len() == 2,
        nibble(qblock, 0) < 8,
        k < 16,
    ensures
        bc6h_block_1p(qep, qblock, mode) < pow2(128),
        bc6h_mode(bc6h_block_1p(qep, qblock, mode)) == mode,
        crate::decode::bc6h::bc6h_index(bc6h_block_1p(qep, qblock, mode), mode, k) == nibble(
            qblock,
            k as int,
        ),
{
    let s = bc6h_schedule(mode);
    let header = bc6h_header(qep, mode);
    let coded = coded_indices(qblock, 4, 0, 16);
    let v = bc6h_block_1p(qep, qblock, mode);
    lemma_pow2_values();
    lemma_header_length(mode);
    lemma_header_mode(qep, mode, coded);
    lemma_scattered_piece(
        s,
        stored_components(qep, mode),
        mode_prefix(mode),
        bc6h_prefix_bits(mode),
        endpoint_pieces(mode),
        0,
    );
    assert(header < pow2(65));
    assert forall|j: int| 0 <= j < 16 implies nibble(qblock, j) < pow2(4) by {
        lemma_field_bound(qblock[j / 8] as nat, (4 * (j % 8)) as nat, 4);
    }
    assert(field(0, 0, 1) == 0 && field(0, k, 1) == 0) by {
        lemma_field_bound(0, 0, 1);
        lemma_pow2_pos(k);
        vstd::arithmetic::div_mod::lemma_div_basics(pow2(k) as int);
        vstd::arithmetic::div_mod::lemma_small_mod(0, 2);
    }
    super::common::lemma_coded_indices_bound(qblock, 4, 0, 16);
    super::common::lemma_coded_offset(4, 16);
    lemma_pow2_adds(65, 63);
    assert(v == header + pow2(65) * coded) by (nonlinear_arith)
        requires
            v == header + coded * pow2(65),
    ;
    assert(v < pow2(128)) by (nonlinear_arith)
        requires
            v == header + pow2(65) * coded,
            header < pow2(65),
            coded < pow2(63),
            pow2(128) == pow2(65) * pow2(63),
    ;
    lemma_one_subset_index_offset(v, mode, k);
    super::common::lemma_coded_index_field(qblock, 4, 0, 16, k);
    crate::bits::lemma_field_of_sum(
        header,
        coded,
        65,
        super::common::coded_offset(4, k),
        super::common::coded_width(4, k),
    );
}

/// The pieces of mode 0, component by component.
#[verifier::rlimit(50)]
proof fn lemma_pieces_cover_0(x: nat)
    ensures
        recombined(bc6h_schedule(0), x, 0, 19) == x % pow2(10),
        recombined(bc6h_schedule(0), x, 1, 19) == x % pow2(5),
        recombined(bc6h_schedule(0), x, 2, 19) == x % pow2(5),
        recombined(bc6h_schedule(0), x, 3, 19) == x % pow2(5),
        recombined(bc6h_schedule(0), x, 4, 19) == x % pow2(10),
        recombined(bc6h_schedule(0), x, 5, 19) == x % pow2(5),
        recombined(bc6h_schedule(0), x, 6, 19) == x % pow2(5),
        recombined(bc6h_schedule(0), x, 7, 19) == x % pow2(5),
        recombined(bc6h_schedule(0), x, 8, 19) == x % pow2(10),
        recombined(bc6h_schedule(0), x, 9, 19) == x % pow2(5),
        recombined(bc6h_schedule(0), x, 10, 19) == x % pow2(5),
        recombined(bc6h_schedule(0), x, 11, 19) == x % pow2(5),
        recombined(bc6h_schedule(0), x, 12, 19) == 0,
        bc6h_schedule(0)[19] == partition_piece(5),
{
    lemma_pow2_values();
    assert(x % pow2(0) == 0) by {
        vstd::arithmetic::div_mod::lemma_mod_bound(x as int, pow2(0) as int);
    }
    reveal_with_fuel(recombined, 20);
}

/// The pieces of mode 1, component by component.
#[verifier::rlimit(50)]
proof fn lemma_pieces_cover_1(x: nat)
    ensures
        recombined(bc6h_schedule(1), x, 0, 23) == x % pow2(7),
        recombined(bc6h_schedule(1), x, 1, 23) == x % pow2(6),
        recombined(bc6h_schedule(1), x, 2, 23) == x % pow2(6),
        recombined(bc6h_schedule(1), x, 3, 23) == x % pow2(6),
        recombined(bc6h_schedule(1), x, 4, 23) == x % pow2(7),
        recombined(bc6h_schedule(1), x, 5, 23) == x % pow2(6),
        recombined(bc6h_schedule(1), x, 6, 23) == x % pow2(6),
        recombined(bc6h_schedule(1), x, 7, 23) == x % pow2(6),
        recombined(bc6h_schedule(1), x, 8, 23) == x % pow2(7),
        recombined(bc6h_schedule(1), x, 9, 23) == x % pow2(6),
        recombined(bc6h_schedule(1), x, 10, 23) == x % pow2(6),
        recombined(bc6h_schedule(1), x, 11, 23) == x % pow2(6),
        recombined(bc6h_schedule(1), x, 12, 23) == 0,
        bc6h_schedule(1)[23] == partition_piece(5),
{
    lemma_pow2_values();
    assert(x % pow2(0) == 0) by {
        vstd::arithmetic::div_mod::lemma_mod_bound(x as int, pow2(0) as int);
    }
    reveal_with_fuel(recombined, 24);
}

/// The pieces of mode 2, component by component.
#[verifier::rlimit(50)]
proof fn lemma_pieces_cover_2(x: nat)
    ensures
        recombined(bc6h_schedule(2), x, 0, 18) == x % pow2(11),
        recombined(bc6h_schedule(2), x, 1, 18) == x % pow2(5),
        recombined(bc6h_schedule(2), x, 2, 18) == x % pow2(5),
        recombined(bc6h_schedule(2), x, 3, 18) == x % pow2(5),
        recombined(bc6h_schedule(2), x, 4, 18) == x % pow2(11),
        recombined(bc6h_schedule(2), x, 5, 18) == x % pow2(4),
        recombined(bc6h_schedule(2), x, 6, 18) == x % pow2(4),
        recombined(bc6h_schedule(2), x, 7, 18) == x % pow2(4),
        recombined(bc6h_schedule(2), x, 8, 18) == x % pow2(11),
        recombined(bc6h_schedule(2), x, 9, 18) == x % pow2(4),
        recombined(bc6h_schedule(2), x, 10, 18) == x % pow2(4),
        recombined(bc6h_schedule(2), x, 11, 18) == x % pow2(4),
        recombined(bc6h_schedule(2), x, 12, 18) == 0,
        bc6h_schedule(2)[18] == partition_piece(5),
{
    lemma_pow2_values();
    assert(x % pow2(0) == 0) by {
        vstd::arithmetic::div_mod::lemma_mod_bound(x as int, pow2(0) as int);
    }
    reveal_with_fuel(recombined, 19);
}

/// The pieces of mode 3, component by component.
#[verifier::rlimit(50)]
proof fn lemma_pieces_cover_3(x: nat)
    ensures
        recombined(bc6h_schedule(3), x, 0, 20) == x % pow2(11),
        recombined(bc6h_schedule(3), x, 1, 20) == x % pow2(4),
        recombined(bc6h_schedule(3), x, 2, 20) == x % pow2(4),
        recombined(bc6h_schedule(3), x, 3, 20) == x % pow2(4),
        recombined(bc6h_schedule(3), x, 4, 20) == x % pow2(11),
        recombined(bc6h_schedule(3), x, 5, 20) == x % pow2(5),
        recombined(bc6h_schedule(3), x, 6, 20) == x % pow2(5),
        recombined(bc6h_schedule(3), x, 7, 20) == x % pow2(5),
        recombined(bc6h_schedule(3), x, 8, 20) == x % pow2(11),
        recombined(bc6h_schedule(3), x, 9, 20) == x % pow2(4),
        recombined(bc6h_schedule(3), x, 10, 20) == x % pow2(4),
        recombined(bc6h_schedule(3), x, 11, 20) == x % pow2(4),
        recombined(bc6h_schedule(3), x, 12, 20) == 0,
        bc6h_schedule(3)[20] == partition_piece(5),
{
    lemma_pow2_values();
    assert(x % pow2(0) == 0) by {
        vstd::arithmetic::div_mod::lemma_mod_bound(x as int, pow2(0) as int);
    }
    reveal_with_fuel(recombined, 21);
}

/// The pieces of mode 4, component by component.
#[verifier::rlimit(50)]
proof fn lemma_pieces_cover_4(x: nat)
    ensures
        recombined(bc6h_schedule(4), x, 0, 20) == x % pow2(11),
        recombined(bc6h_schedule(4), x, 1, 20) == x % pow2(4),
        recombined(bc6h_schedule(4), x, 2, 20) == x % pow2(4),
        recombined(bc6h_schedule(4), x, 3, 20) == x % pow2(4),
        recombined(bc6h_schedule(4), x, 4, 20) == x % pow2(11),
        recombined(bc6h_schedule(4), x, 5, 20) == x % pow2(4),
        recombined(bc6h_schedule(4), x, 6, 20) == x % pow2(4),
        recombined(bc6h_schedule(4), x, 7, 20) == x % pow2(4),
        recombined(bc6h_schedule(4), x, 8, 20) == x % pow2(11),
        recombined(bc6h_schedule(4), x, 9, 20) == x % pow2(5),
        recombined(bc6h_schedule(4), x, 10, 20) == x % pow2(5),
        recombined(bc6h_schedule(4), x, 11, 20) == x % pow2(5),
        recombined(bc6h_schedule(4), x, 12, 20) == 0,
        bc6h_schedule(4)[20] == partition_piece(5),
{
    lemma_pow2_values();
    assert(x % pow2(0) == 0) by {
        vstd::arithmetic::div_mod::lemma_mod_bound(x as int, pow2(0) as int);
    }
    reveal_with_fuel(recombined, 21);
}

/// The pieces of mode 5, component by component.
#[verifier::rlimit(50)]
proof fn lemma_pieces_cover_5(x: nat)
    ensures
        recombined(bc6h_schedule(5), x, 0, 19) == x % pow2(9),
        recombined(bc6h_schedule(5), x, 1, 19) == x % pow2(5),
        recombined(bc6h_schedule(5), x, 2, 19) == x % pow2(5),
        recombined(bc6h_schedule(5), x, 3, 19) == x % pow2(5),
        recombined(bc6h_schedule(5), x, 4, 19) == x % pow2(9),
        recombined(bc6h_schedule(5), x, 5, 19) == x % pow2(5),
        recombined(bc6h_schedule(5), x, 6, 19) == x % pow2(5),
        recombined(bc6h_schedule(5), x, 7, 19) == x % pow2(5),
        recombined(bc6h_schedule(5), x, 8, 19) == x % pow2(9),
        recombined(bc6h_schedule(5), x, 9, 19) == x % pow2(5),
        recombined(bc6h_schedule(5), x, 10, 19) == x % pow2(5),
        recombined(bc6h_schedule(5), x, 11, 19) == x % pow2(5),
        recombined(bc6h_schedule(5), x, 12, 19) == 0,
        bc6h_schedule(5)[19] == partition_piece(5),
{
    lemma_pow2_values();
    assert(x % pow2(0) == 0) by {
        vstd::arithmetic::div_mod::lemma_mod_bound(x as int, pow2(0) as int);
    }
    reveal_with_fuel(recombined, 20);
}

/// The pieces of mode 6, component by component.
#[verifier::rlimit(50)]
proof fn lemma_pieces_cover_6(x: nat)
    ensures
        recombined(bc6h_schedule(6), x, 0, 19) == x % pow2(8),
        recombined(bc6h_schedule(6), x, 1, 19) == x % pow2(6),
        recombined(bc6h_schedule(6), x, 2, 19) == x % pow2(6),
        recombined(bc6h_schedule(6), x, 3, 19) == x % pow2(6),
        recombined(bc6h_schedule(6), x, 4, 19) == x % pow2(8),
        recombined(bc6h_schedule(6), x, 5, 19) == x % pow2(5),
        recombined(bc6h_schedule(6), x, 6, 19) == x % pow2(5),
        recombined(bc6h_schedule(6), x, 7, 19) == x % pow2(5),
        recombined(bc6h_schedule(6), x, 8, 19) == x % pow2(8),
        recombined(bc6h_schedule(6), x, 9, 19) == x % pow2(5),
        recombined(bc6h_schedule(6), x, 10, 19) == x % pow2(5),
        recombined(bc6h_schedule(6), x, 11, 19) == x % pow2(5),
        recombined(bc6h_schedule(6), x, 12, 19) == 0,
        bc6h_schedule(6)[19] == partition_piece(5),
{
    lemma_pow2_values();
    assert(x % pow2(0) == 0) by {
        vstd::arithmetic::div_mod::lemma_mod_bound(x as int, pow2(0) as int);
    }
    reveal_with_fuel(recombined, 20);
}

/// The pieces of mode 7, component by component.
#[verifier::rlimit(50)]
proof fn lemma_pieces_cover_7(x: nat)
    ensures
        recombined(bc6h_schedule(7), x, 0, 21) == x % pow2(8),
        recombined(bc6h_schedule(7), x, 1, 21) == x % pow2(5),
        recombined(bc6h_schedule(7), x, 2, 21) == x % pow2(5),
        recombined(bc6h_schedule(7), x, 3, 21) == x % pow2(5),
        recombined(bc6h_schedule(7), x, 4, 21) == x % pow2(8),
        recombined(bc6h_schedule(7), x, 5, 21) == x % pow2(6),
        recombined(bc6h_schedule(7), x, 6, 21) == x % pow2(6),
        recombined(bc6h_schedule(7), x, 7, 21) == x % pow2(6),
        recombined(bc6h_schedule(7), x, 8, 21) == x % pow2(8),
        recombined(bc6h_schedule(7), x, 9, 21) == x % pow2(5),
        recombined(bc6h_schedule(7), x, 10, 21) == x % pow2(5),
        recombined(bc6h_schedule(7), x, 11, 21) == x % pow2(5),
        recombined(bc6h_schedule(7), x, 12, 21) == 0,
        bc6h_schedule(7)[21] == partition_piece(5),
{
    lemma_pow2_values();
    assert(x % pow2(0) == 0) by {
        vstd::arithmetic::div_mod::lemma_mod_bound(x as int, pow2(0) as int);
    }
    reveal_with_fuel(recombined, 22);
}

/// The pieces of mode 8, component by component.
#[verifier::rlimit(50)]
proof fn lemma_pieces_cover_8(x: nat)
    ensures
        recombined(bc6h_schedule(8), x, 0, 21) == x % pow2(8),
        recombined(bc6h_schedule(8), x, 1, 21) == x % pow2(5),
        recombined(bc6h_schedule(8), x, 2, 21) == x % pow2(5),
        recombined(bc6h_schedule(8), x, 3, 21) == x % pow2(5),
        recombined(bc6h_schedule(8), x, 4, 21) == x % pow2(8),
        recombined(bc6h_schedule(8), x, 5, 21) == x % pow2(5),
        recombined(bc6h_schedule(8), x, 6, 21) == x % pow2(5),
        recombined(bc6h_schedule(8), x, 7, 21) == x % pow2(5),
        recombined(bc6h_schedule(8), x, 8, 21) == x % pow2(8),
        recombined(bc6h_schedule(8), x, 9, 21) == x % pow2(6),
        recombined(bc6h_schedule(8), x, 10, 21) == x % pow2(6),
        recombined(bc6h_schedule(8), x, 11, 21) == x % pow2(6),
        recombined(bc6h_schedule(8), x, 12, 21) == 0,
        bc6h_schedule(8)[21] == partition_piece(5),
{
    lemma_pow2_values();
    assert(x % pow2(0) == 0) by {
        vstd::arithmetic::div_mod::lemma_mod_bound(x as int, pow2(0) as int);
    }
    reveal_with_fuel(recombined, 22);
}

/// The pieces of mode 9, component by component.
#[verifier::rlimit(50)]
proof fn lemma_pieces_cover_9(x: nat)
    ensures
        recombined(bc6h_schedule(9), x, 0, 23) == x % pow2(6),
        recombined(bc6h_schedule(9), x, 1, 23) == x % pow2(6),
        recombined(bc6h_schedule(9), x, 2, 23) == x % pow2(6),
        recombined(bc6h_schedule(9), x, 3, 23) == x % pow2(6),
        recombined(bc6h_schedule(9), x, 4, 23) == x % pow2(6),
        recombined(bc6h_schedule(9), x, 5, 23) == x % pow2(6),
        recombined(bc6h_schedule(9), x, 6, 23) == x % pow2(6),
        recombined(bc6h_schedule(9), x, 7, 23) == x % pow2(6),
        recombined(bc6h_schedule(9), x, 8, 23) == x % pow2(6),
        recombined(bc6h_schedule(9), x, 9, 23) == x % pow2(6),
        recombined(bc6h_schedule(9), x, 10, 23) == x % pow2(6),
        recombined(bc6h_schedule(9), x, 11, 23) == x % pow2(6),
        recombined(bc6h_schedule(9), x, 12, 23) == 0,
        bc6h_schedule(9)[23] == partition_piece(5),
{
    lemma_pow2_values();
    assert(x % pow2(0) == 0) by {
        vstd::arithmetic::div_mod::lemma_mod_bound(x as int, pow2(0) as int);
    }
    reveal_with_fuel(recombined, 24);
}

/// The pieces of mode 10, component by component.
#[verifier::rlimit(50)]
proof fn lemma_pieces_cover_10(x: nat)
    ensures
        recombined(bc6h_schedule(10), x, 0, 6) == x % pow2(10),
        recombined(bc6h_schedule(10), x, 1, 6) == x % pow2(10),
        recombined(bc6h_schedule(10), x, 2, 6) == 0,
        recombined(bc6h_schedule(10), x, 3, 6) == 0,
        recombined(bc6h_schedule(10), x, 4, 6) == x % pow2(10),
        recombined(bc6h_schedule(10), x, 5, 6) == x % pow2(10),
        recombined(bc6h_schedule(10), x, 6, 6) == 0,
        recombined(bc6h_schedule(10), x, 7, 6) == 0,
        recombined(bc6h_schedule(10), x, 8, 6) == x % pow2(10),
        recombined(bc6h_schedule(10), x, 9, 6) == x % pow2(10),
        recombined(bc6h_schedule(10), x, 10, 6) == 0,
        recombined(bc6h_schedule(10), x, 11, 6) == 0,
{
    lemma_pow2_values();
    assert(x % pow2(0) == 0) by {
        vstd::arithmetic::div_mod::lemma_mod_bound(x as int, pow2(0) as int);
    }
    reveal_with_fuel(recombined, 7);
}

/// The pieces of mode 11, component by component.
#[verifier::rlimit(50)]
proof fn lemma_pieces_cover_11(x: nat)
    ensures
        recombined(bc6h_schedule(11), x, 0, 9) == x % pow2(11),
        recombined(bc6h_schedule(11), x, 1, 9) == x % pow2(9),
        recombined(bc6h_schedule(11), x, 2, 9) == 0,
        recombined(bc6h_schedule(11), x, 3, 9) == 0,
        recombined(bc6h_schedule(11), x, 4, 9) == x % pow2(11),
        recombined(bc6h_schedule(11), x, 5, 9) == x % pow2(9),
        recombined(bc6h_schedule(11), x, 6, 9) == 0,
        recombined(bc6h_schedule(11), x, 7, 9) == 0,
        recombined(bc6h_schedule(11), x, 8, 9) == x % pow2(11),
        recombined(bc6h_schedule(11), x, 9, 9) == x % pow2(9),
        recombined(bc6h_schedule(11), x, 10, 9) == 0,
        recombined(bc6h_schedule(11), x, 11, 9) == 0,
{
    lemma_pow2_values();
    assert(x % pow2(0) == 0) by {
        vstd::arithmetic::div_mod::lemma_mod_bound(x as int, pow2(0) as int);
    }
    reveal_with_fuel(recombined, 10);
}

/// The pieces of mode 12, component by component.
#[verifier::rlimit(50)]
proof fn lemma_pieces_cover_12(x: nat)
    ensures
        recombined(bc6h_schedule(12), x, 0, 9) == x % pow2(12),
        recombined(bc6h_schedule(12), x, 1, 9) == x % pow2(8),
        recombined(bc6h_schedule(12), x, 2, 9) == 0,
        recombined(bc6h_schedule(12), x, 3, 9) == 0,
        recombined(bc6h_schedule(12), x, 4, 9) == x % pow2(12),
        recombined(bc6h_schedule(12), x, 5, 9) == x % pow2(8),
        recombined(bc6h_schedule(12), x, 6, 9) == 0,
        recombined(bc6h_schedule(12), x, 7, 9) == 0,
        recombined(bc6h_schedule(12), x, 8, 9) == x % pow2(12),
        recombined(bc6h_schedule(12), x, 9, 9) == x % pow2(8),
        recombined(bc6h_schedule(12), x, 10, 9) == 0,
        recombined(bc6h_schedule(12), x, 11, 9) == 0,
{
    lemma_pow2_values();
    assert(x % pow2(0) == 0) by {
        vstd::arithmetic::div_mod::lemma_mod_bound(x as int, pow2(0) as int);
    }
    reveal_with_fuel(recombined, 10);
}

/// The pieces of mode 13, component by component.
#[verifier::rlimit(50)]
proof fn lemma_pieces_cover_13(x: nat)
    ensures
        recombined(bc6h_schedule(13), x, 0, 9) == x % pow2(16),
        recombined(bc6h_schedule(13), x, 1, 9) == x % pow2(4),
        recombined(bc6h_schedule(13), x, 2, 9) == 0,
        recombined(bc6h_schedule(13), x, 3, 9) == 0,
        recombined(bc6h_schedule(13), x, 4, 9) == x % pow2(16),
        recombined(bc6h_schedule(13), x, 5, 9) == x % pow2(4),
        recombined(bc6h_schedule(13), x, 6, 9) == 0,
        recombined(bc6h_schedule(13), x, 7, 9) == 0,
        recombined(bc6h_schedule(13), x, 8, 9) == x % pow2(16),
        recombined(bc6h_schedule(13), x, 9, 9) == x % pow2(4),
        recombined(bc6h_schedule(13), x, 10, 9) == 0,
        recombined(bc6h_schedule(13), x, 11, 9) == 0,
{
    lemma_pow2_values();
    assert(x % pow2(0) == 0) by {
        vstd::arithmetic::div_mod::lemma_mod_bound(x as int, pow2(0) as int);
    }
    reveal_with_fuel(recombined, 10);
}

/// The pieces of every component of an endpoint that a mode stores hold each
/// of its bits once, and no others.
pub proof fn lemma_pieces_cover(mode: nat, x: nat, endpoint: nat, channel: nat)
    requires
        mode < 14,
        endpoint < endpoint_count(mode),
        channel < 3,
    ensures
        recombined(bc6h_schedule(mode), x, channel * 4 + endpoint, endpoint_pieces(mode)) == x
            % pow2(bc6h_bits(mode, endpoint, channel)),
{
    let t = channel * 4 + endpoint;
    assert(t == 0 || t == 1 || t == 2 || t == 3 || t == 4 || t == 5 || t == 6 || t == 7 || t == 8
        || t == 9 || t == 10 || t == 11);
    if mode == 0 {
        lemma_pieces_cover_0(x);
    } else if mode == 1 {
        lemma_pieces_cover_1(x);
    } else if mode == 2 {
        lemma_pieces_cover_2(x);
    } else if mode == 3 {
        lemma_pieces_cover_3(x);
    } else if mode == 4 {
        lemma_pieces_cover_4(x);
    } else if mode == 5 {
        lemma_pieces_cover_5(x);
    } else if mode == 6 {
        lemma_pieces_cover_6(x);
    } else if mode == 7 {
        lemma_pieces_cover_7(x);
    } else if mode == 8 {
        lemma_pieces_cover_8(x);
    } else if mode == 9 {
        lemma_pieces_cover_9(x);
    } else if mode == 10 {
        lemma_pieces_cover_10(x);
    } else if mode == 11 {
        lemma_pieces_cover_11(x);
    } else if mode == 12 {
        lemma_pieces_cover_12(x);
    } else {
        lemma_pieces_cover_13(x);
    }
}

/// What is stored of a component fits the number of bits of the component.
pub proof fn lemma_stored_component_bound(qep: Seq<i32>, mode: nat, endpoint: nat, channel: nat)
    requires
        mode < 14,
        qep_fits(qep, mode),
        endpoint < endpoint_count(mode),
        channel < 3,
    ensures
        stored_component(qep, mode, endpoint, channel) < pow2(bc6h_bits(mode, endpoint, channel)),
{
    let bits = bc6h_delta_bits(mode, channel);
    lemma_pow2_pos(bits);
    assert(0 <= qep[4 * (endpoint as int) + (channel as int)]);
    assert(0 <= qep[4 * 0 + (channel as int)]);
    if endpoint > 0 && bc6h_transformed(mode) {
        vstd::arithmetic::div_mod::lemma_mod_bound(
            qep[(4 * endpoint + channel) as int] - qep[channel as int],
            pow2(bits) as int,
        );
    }
}

/// In a block that begins with the header of `mode`, whatever follows it,
/// the decoder finds every component of every endpoint as it was stored.
pub proof fn lemma_header_round_trip(
    qep: Seq<i32>,
    mode: nat,
    above: nat,
    endpoint: nat,
    channel: nat,
)
    requires
        mode < 14,
        qep_fits(qep, mode),
        endpoint < endpoint_count(mode),
        channel < 3,
    ensures
        bc6h_stored(
            bc6h_header(qep, mode) + pow2(endpoint_end(mode)) * above,
            mode,
            endpoint,
            channel,
        ) == stored_component(qep, mode, endpoint, channel),
{
    let x = stored_component(qep, mode, endpoint, channel);
    let bits = bc6h_bits(mode, endpoint, channel);
    lemma_header_components(qep, mode, above, endpoint, channel);
    lemma_pieces_cover(mode, x, endpoint, channel);
    lemma_stored_component_bound(qep, mode, endpoint, channel);
    vstd::arithmetic::div_mod::lemma_small_mod(x, pow2(bits));
}

/// Whether every difference that `mode` stores can be told from its bits:
/// it lies in the range of a signed number of as many bits as the mode
/// gives it.
pub open spec fn deltas_fit(qep: Seq<i32>, mode: nat) -> bool {
    bc6h_transformed(mode) ==> forall|e: int, c: int|
        1 <= e < endpoint_count(mode) && 0 <= c < 3 ==> {
            let half = pow2((bc6h_delta_bits(mode, c as nat) - 1) as nat);
            -half <= #[trigger] qep[4 * e + c] - qep[c] < half
        }
}

/// In the unsigned format the decoder finds, in a block that begins with the
/// header of `mode`, every component of every endpoint as it was quantized,
/// where the differences that the mode stores fit their bits.
#[verifier::rlimit(50)]
pub proof fn lemma_endpoint_round_trip(
    qep: Seq<i32>,
    mode: nat,
    above: nat,
    endpoint: nat,
    channel: nat,
)
    requires
        mode < 14,
        qep_fits(qep, mode),
        deltas_fit(qep, mode),
        endpoint < endpoint_count(mode),
        channel < 3,
    ensures
        crate::decode::bc6h::bc6h_quantized(
            bc6h_header(qep, mode) + pow2(endpoint_end(mode)) * above,
            mode,
            false,
            endpoint,
            channel,
        ) == qep[(4 * endpoint + channel) as int],
{
    let v = bc6h_header(qep, mode) + pow2(endpoint_end(mode)) * above;
    let bits = bc6h_base_bits(mode);
    let d = bc6h_delta_bits(mode, channel);
    let e = endpoint as int;
    let c = channel as int;
    lemma_header_round_trip(qep, mode, above, 0, channel);
    lemma_header_round_trip(qep, mode, above, endpoint, channel);
    assert(0 <= qep[4 * 0 + c] < pow2(bits));
    assert(0 <= qep[4 * e + c]);
    if endpoint > 0 && bc6h_transformed(mode) {
        let diff = qep[4 * e + c] - qep[c];
        let pd = pow2(d) as int;
        let half = pow2((d - 1) as nat) as int;
        let stored = diff % pd;
        assert(d >= 1) by {
            lemma_pow2_values();
        }
        vstd::arithmetic::power2::lemma_pow2_unfold(d);
        assert(pd == 2 * half);
        assert(-half <= diff < half);
        if diff >= 0 {
            vstd::arithmetic::div_mod::lemma_small_mod(diff as nat, pd as nat);
        } else {
            vstd::arithmetic::div_mod::lemma_mod_add_multiples_vanish(diff, pd);
            vstd::arithmetic::div_mod::lemma_small_mod((diff + pd) as nat, pd as nat);
            assert(stored == diff + pd);
        }
        vstd::arithmetic::div_mod::lemma_mod_bound(diff, pd);
        vstd::arithmetic::div_mod::lemma_small_mod(stored as nat, pd as nat);
        assert(crate::decode::bc6h::sign_extend(stored, d) == diff);
        assert(0 <= qep[4 * e + c] < pow2(bits));
        vstd::arithmetic::div_mod::lemma_small_mod(qep[4 * e + c] as nat, pow2(bits));
    }
}

/// A block of a mode with one subset decodes, in the unsigned format, to
/// what it was coded from: every channel of every pixel lies between the
/// two endpoints, widened, at the weight of the index of the pixel.
pub proof fn lemma_one_subset_round_trip(
    qep: Seq<i32>,
    qblock: Seq<u32>,
    mode: nat,
    k: nat,
    channel: nat,
)
    requires
        10 <= mode < 14,
        qep_fits(qep, mode),
        deltas_fit(qep, mode),
        qblock.len() == 2,
        nibble(qblock, 0) < 8,
        k < 16,
        channel < 3,
    ensures
        crate::decode::bc6h::bc6h_sample(bc6h_block_1p(qep, qblock, mode), mode, false, k, channel)
            == crate::decode::bc6h::finish_unquantize(
            crate::decode::bc7::interpolate(
                unquantize(qep[channel as int] as int, bc6h_base_bits(mode), false),
                unquantize(qep[(4 + channel) as int] as int, bc6h_base_bits(mode), false),
                crate::partition::weight(4, nibble(qblock, k as int) as int),
            ),
            false,
        ),
{
    let coded = coded_indices(qblock, 4, 0, 16);
    let v = bc6h_block_1p(qep, qblock, mode);
    assert(v == bc6h_header(qep, mode) + pow2(endpoint_end(mode)) * coded) by (nonlinear_arith)
        requires
            v == bc6h_header(qep, mode) + coded * pow2(65),
            endpoint_end(mode) == 65,
    ;
    lemma_endpoint_round_trip(qep, mode, coded, 0, channel);
    lemma_endpoint_round_trip(qep, mode, coded, 1, channel);
    lemma_one_subset_read_back(qep, qblock, mode, k);
}

/// The piece that follows the endpoints of a mode with two subsets holds
/// the partition number, and no piece before it does.
pub proof fn lemma_partition_piece(mode: nat, x: nat)
    requires
        mode < 10,
    ensures
        bc6h_schedule(mode)[endpoint_pieces(mode) as int] == partition_piece(5),
        recombined(bc6h_schedule(mode), x, PARTITION as nat, endpoint_pieces(mode)) == 0,
{
    lemma_header_length(mode);
    if mode == 0 {
        lemma_pieces_cover_0(x);
    } else if mode == 1 {
        lemma_pieces_cover_1(x);
    } else if mode == 2 {
        lemma_pieces_cover_2(x);
    } else if mode == 3 {
        lemma_pieces_cover_3(x);
    } else if mode == 4 {
        lemma_pieces_cover_4(x);
    } else if mode == 5 {
        lemma_pieces_cover_5(x);
    } else if mode == 6 {
        lemma_pieces_cover_6(x);
    } else if mode == 7 {
        lemma_pieces_cover_7(x);
    } else if mode == 8 {
        lemma_pieces_cover_8(x);
    } else {
        lemma_pieces_cover_9(x);
    }
}

/// What follows the header of a block with two subsets: the partition number
/// and above it the indices as they are written, without the spare bit of
/// the anchor of subset 1.
pub open spec fn two_subset_tail(qblock: Seq<u32>, part_id: int) -> nat {
    let u = part_id as nat + 32 * coded_indices(qblock, 3, swap_flips(qblock, 1, part_id, 2), 16);
    let anchor = anchor_of(part_id, 1);
    if anchor < 15 {
        without_bit(u, (6 + 3 * anchor) as nat)
    } else {
        u
    }
}

/// A block with two subsets is its header and, from bit 77 on, what follows
/// the header.
#[verifier::rlimit(50)]
pub proof fn lemma_two_subset_block(qep: Seq<i32>, qblock: Seq<u32>, part_id: int, mode: nat)
    requires
        mode < 10,
        0 <= part_id < 32,
    ensures
        bc6h_header(qep, mode) < pow2(77),
        bc6h_block_2p(qep, qblock, part_id, mode) == bc6h_header(qep, mode) + pow2(77)
            * two_subset_tail(qblock, part_id),
{
    let header = bc6h_header(qep, mode);
    let coded = coded_indices(qblock, 3, swap_flips(qblock, 1, part_id, 2), 16);
    let u = part_id as nat + 32 * coded;
    let anchor = anchor_of(part_id, 1);
    let s = bc6h_schedule(mode);
    lemma_pow2_values();
    lemma_header_length(mode);
    assert(schedule_width(s, s.len()) == schedule_width(s, (s.len() - 1) as nat) + s.last().width);
    lemma_scattered_piece(
        s,
        stored_components(qep, mode),
        mode_prefix(mode),
        bc6h_prefix_bits(mode),
        endpoint_pieces(mode),
        0,
    );
    assert(header < pow2(77));
    lemma_pow2_adds(77, 5);
    let w = header + part_id as nat * pow2(77) + coded * pow2(82);
    assert(w == header + pow2(77) * u) by (nonlinear_arith)
        requires
            w == header + part_id as nat * pow2(77) + coded * pow2(82),
            pow2(82) == pow2(77) * 32,
            u == part_id as nat + 32 * coded,
    ;
    crate::partition::lemma_anchor_in_subset(part_id, 1);
    if anchor < 15 {
        let top = anchor_top(2, 3, anchor);
        assert(top == 84 + 3 * anchor);
        assert(removed_bit(top as nat) == 77 + (6 + 3 * anchor));
        super::common::lemma_without_bit_above(header, u, 77, (6 + 3 * anchor) as nat);
    }
}

/// What follows the header of a block with two subsets holds the partition
/// number in its low five bits and above them the indices as the decoder
/// reads them: the anchors with two bits, the others with three.
#[verifier::rlimit(50)]
pub proof fn lemma_two_subset_tail(qblock: Seq<u32>, part_id: int, k: nat)
    requires
        0 <= part_id < 32,
        qblock.len() == 2,
        forall|j: int| 0 <= j < 16 ==> nibble(qblock, j) < 8,
        k < 16,
    ensures
        two_subset_tail(qblock, part_id) < pow2(51),
        field(two_subset_tail(qblock, part_id), 0, 5) == part_id,
        field(
            two_subset_tail(qblock, part_id),
            (5 + super::common::coded_offset(3, k) - (if k > anchor_of(part_id, 1) {
                1int
            } else {
                0int
            })) as nat,
            if k == 0 || k == anchor_of(part_id, 1) {
                2
            } else {
                3
            },
        ) == coded_index(qblock, 3, swap_flips(qblock, 1, part_id, 2), k as int),
{
    let flips = swap_flips(qblock, 1, part_id, 2);
    let coded = coded_indices(qblock, 3, flips, 16);
    let u = part_id as nat + 32 * coded;
    let anchor = anchor_of(part_id, 1);
    let tail = two_subset_tail(qblock, part_id);
    let off = super::common::coded_offset(3, k);
    let index = coded_index(qblock, 3, flips, k as int);
    lemma_pow2_values();
    crate::partition::lemma_anchor_in_subset(part_id, 1);
    super::common::lemma_anchor_indices_short(qblock, 1, part_id, 0);
    super::common::lemma_anchor_indices_short(qblock, 1, part_id, 1);
    super::common::lemma_coded_indices_bound(qblock, 3, flips, 16);
    super::common::lemma_coded_indices_bound(qblock, 3, flips, 15);
    super::common::lemma_coded_offset(3, 15);
    super::common::lemma_coded_offset(3, 16);
    assert(coded < pow2(47));
    assert(u == part_id as nat + pow2(5) * coded);
    // the indices as they are written, three bits each but the first
    super::common::lemma_coded_index_field(qblock, 3, flips, 16, k);
    if k > 0 {
        super::common::lemma_coded_offset(3, k);
    }
    crate::bits::lemma_field_of_sum(part_id as nat, coded, 5, off, 3);
    crate::bits::lemma_field_of_sum(part_id as nat, coded, 5, off, 2);
    crate::bits::lemma_field_of_sum(part_id as nat, coded, 5, 0, 5);
    crate::bits::lemma_field_small(part_id as nat, 5);
    assert(field(u, 0, 5) == part_id);
    // an anchor is read with two bits, and has no more
    if k == anchor && k > 0 {
        crate::bits::lemma_short_field(coded, off, 2, 1);
        vstd::arithmetic::div_mod::lemma_small_mod(index, 4);
        assert(field(u, 5 + off, 2) == index);
    }
    if anchor < 15 {
        let q = (6 + 3 * anchor) as nat;
        super::common::lemma_field_without_bit(u, q, 0, 5);
        if k <= anchor {
            super::common::lemma_field_without_bit(u, q, 5 + off, if k == 0 || k == anchor {
                2
            } else {
                3
            });
        } else {
            super::common::lemma_field_without_bit(u, q, (5 + off - 1) as nat, 3);
        }
        // the bound
        let low = u % pow2(q);
        let high = u / pow2(q + 1);
        lemma_pow2_pos(q);
        lemma_pow2_pos(q + 1);
        lemma_pow2_adds(q + 1, (51 - q) as nat);
        lemma_pow2_adds(q, (51 - q) as nat);
        lemma_pow2_adds(5, 47);
        vstd::arithmetic::div_mod::lemma_mod_bound(u as int, pow2(q) as int);
        assert(u < pow2(52)) by (nonlinear_arith)
            requires
                u == part_id + 32 * coded,
                0 <= part_id < 32,
                coded < pow2(47),
                pow2(52) == 32 * pow2(47),
        ;
        let wide = pow2(q + 1);
        let rest = pow2((51 - q) as nat);
        assert(pow2(52) == rest * wide) by (nonlinear_arith)
            requires
                pow2(52) == wide * rest,
        ;
        vstd::arithmetic::div_mod::lemma_div_by_multiple_is_strongly_ordered(
            u as int,
            pow2(52) as int,
            pow2((51 - q) as nat) as int,
            pow2(q + 1) as int,
        );
        vstd::arithmetic::div_mod::lemma_div_by_multiple(
            pow2((51 - q) as nat) as int,
            pow2(q + 1) as int,
        );
        assert(high < pow2((51 - q) as nat));
        assert(low + high * pow2(q) < pow2(51)) by (nonlinear_arith)
            requires
                low < pow2(q),
                high < pow2((51 - q) as nat),
                pow2(51) == pow2(q) * pow2((51 - q) as nat),
        ;
    } else {
        // the last index is an anchor: the indices end one bit earlier
        let below = coded_indices(qblock, 3, flips, 15);
        let last = coded_index(qblock, 3, flips, 15);
        assert(coded == below + last * pow2(44));
        lemma_pow2_adds(44, 2);
        lemma_pow2_adds(5, 46);
        assert(coded < pow2(46)) by (nonlinear_arith)
            requires
                coded == below + last * pow2(44),
                below < pow2(44),
                last < 4,
                pow2(46) == pow2(44) * 4,
        ;
        assert(u < pow2(51)) by (nonlinear_arith)
            requires
                u == part_id + 32 * coded,
                0 <= part_id < 32,
                coded < pow2(46),
                pow2(51) == 32 * pow2(46),
        ;
    }
}

/// In the modes with two subsets the decoder reads the indices one after
/// the other, those of the two anchors with two bits and the others with
/// three.
pub proof fn lemma_two_subset_index_offset(v: nat, mode: nat, k: nat)
    requires
        mode < 10,
        k <= 16,
        1 <= anchor_of(crate::decode::bc6h::bc6h_partition(v, mode) as int, 1) <= 15,
    ensures
        crate::decode::bc6h::bc6h_index_offset(v, mode, k) == super::common::coded_offset(3, k) - (
        if k > anchor_of(crate::decode::bc6h::bc6h_partition(v, mode) as int, 1) {
            1int
        } else {
            0int
        }),
        k < 16 ==> crate::decode::bc6h::bc6h_index_width(v, mode, k) == (if k == 0 || k
            == anchor_of(crate::decode::bc6h::bc6h_partition(v, mode) as int, 1) {
            2nat
        } else {
            3nat
        }),
    decreases k,
{
    if k > 0 {
        lemma_two_subset_index_offset(v, mode, (k - 1) as nat);
        if k > 1 {
            super::common::lemma_coded_offset(3, (k - 1) as nat);
        }
        super::common::lemma_coded_offset(3, k);
    }
}

/// A block of a mode with two subsets fills sixteen bytes and decodes, in
/// the unsigned format, to what it was coded from: the decoder finds the
/// mode, the partition number and every index as it was written, and every
/// channel of every pixel lies between the two endpoints of the subset of
/// the pixel, widened, at the weight of that index.
#[verifier::rlimit(50)]
pub proof fn lemma_two_subset_round_trip(
    qep: Seq<i32>,
    qblock: Seq<u32>,
    part_id: int,
    mode: nat,
    k: nat,
    channel: nat,
)
    requires
        mode < 10,
        0 <= part_id < 32,
        qep_fits(qep, mode),
        deltas_fit(qep, mode),
        qblock.len() == 2,
        forall|j: int| 0 <= j < 16 ==> nibble(qblock, j) < 8,
        k < 16,
        channel < 3,
    ensures
        bc6h_block_2p(qep, qblock, part_id, mode) < pow2(128),
        bc6h_mode(bc6h_block_2p(qep, qblock, part_id, mode)) == mode,
        crate::decode::bc6h::bc6h_partition(bc6h_block_2p(qep, qblock, part_id, mode), mode)
            == part_id,
        crate::decode::bc6h::bc6h_index(bc6h_block_2p(qep, qblock, part_id, mode), mode, k)
            == coded_index(qblock, 3, swap_flips(qblock, 1, part_id, 2), k as int),
        crate::decode::bc6h::bc6h_sample(
            bc6h_block_2p(qep, qblock, part_id, mode),
            mode,
            false,
            k,
            channel,
        ) == crate::decode::bc6h::finish_unquantize(
            crate::decode::bc7::interpolate(
                unquantize(
                    qep[8 * crate::partition::subset_of(part_id, k as int) + channel] as int,
                    bc6h_base_bits(mode),
                    false,
                ),
                unquantize(
                    qep[8 * crate::partition::subset_of(part_id, k as int) + 4 + channel] as int,
                    bc6h_base_bits(mode),
                    false,
                ),
                crate::partition::weight(
                    3,
                    coded_index(qblock, 3, swap_flips(qblock, 1, part_id, 2), k as int) as int,
                ),
            ),
            false,
        ),
{
    let v = bc6h_block_2p(qep, qblock, part_id, mode);
    let header = bc6h_header(qep, mode);
    let tail = two_subset_tail(qblock, part_id);
    let s = bc6h_schedule(mode);
    let stored = stored_components(qep, mode);
    let count = endpoint_pieces(mode);
    let start = bc6h_prefix_bits(mode);
    lemma_pow2_values();
    lemma_header_length(mode);
    assert(schedule_width(s, s.len()) == schedule_width(s, count) + s.last().width);
    assert(start + schedule_width(s, count) == 77);
    lemma_two_subset_block(qep, qblock, part_id, mode);
    lemma_two_subset_tail(qblock, part_id, k);
    lemma_pow2_adds(77, 51);
    assert(v < pow2(128)) by (nonlinear_arith)
        requires
            v == header + pow2(77) * tail,
            header < pow2(77),
            tail < pow2(51),
            pow2(128) == pow2(77) * pow2(51),
    ;
    lemma_header_mode(qep, mode, tail);
    // the partition number
    lemma_partition_piece(mode, stored[PARTITION as int]);
    lemma_header_read_back(s, stored, mode_prefix(mode), start, count, tail, PARTITION as nat, count);
    crate::bits::lemma_field_of_sum(header, tail, 77, 0, 5);
    let p0 = pow2(0);
    let found = field(v, 77, 5);
    assert(found * p0 == found) by (nonlinear_arith)
        requires
            p0 == 1,
    ;
    assert(piece_value(v, 77, partition_piece(5)) == part_id);
    assert(gathered(s, v, start, s.len(), PARTITION as nat) == part_id);
    vstd::arithmetic::div_mod::lemma_small_mod(part_id as nat, 32);
    assert(crate::decode::bc6h::bc6h_partition(v, mode) == part_id);
    // the index
    crate::partition::lemma_anchor_in_subset(part_id, 1);
    lemma_two_subset_index_offset(v, mode, k);
    let anchor = anchor_of(part_id, 1);
    let off = (5 + super::common::coded_offset(3, k) - (if k > anchor {
        1int
    } else {
        0int
    })) as nat;
    let width: nat = if k == 0 || k == anchor {
        2
    } else {
        3
    };
    if k > 0 {
        super::common::lemma_coded_offset(3, k);
    }
    crate::bits::lemma_field_of_sum(header, tail, 77, off, width);
    assert(crate::decode::bc6h::bc6h_index_pos(mode) == 82);
    assert(crate::decode::bc6h::bc6h_index(v, mode, k) == coded_index(
        qblock,
        3,
        swap_flips(qblock, 1, part_id, 2),
        k as int,
    ));
    // the endpoints of the subset of the pixel
    crate::partition::lemma_subset_bound(part_id, k as int);
    let subset = crate::partition::subset_of(part_id, k as int) as nat;
    lemma_endpoint_round_trip(qep, mode, tail, 2 * subset, channel);
    lemma_endpoint_round_trip(qep, mode, tail, 2 * subset + 1, channel);
}

} // verus!
