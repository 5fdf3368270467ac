//! What the encoders of BC6H and BC7 share: the writing of bits into a block
//! and the coding of the indices.
use crate::bits::{
    field, lemma_div_mod_of_sum, lemma_drop_drop, lemma_field_bound, lemma_field_of_sum,
    lemma_field_small, lemma_pow2_values,
};
use crate::partition::{anchor_of, get_pattern_mask, get_skips, pattern_mask};
use vstd::arithmetic::power2::{lemma_pow2_adds, lemma_pow2_pos, lemma_pow2_strictly_increases, pow2};
use vstd::prelude::*;

verus! {

/// The number that five words spell, the first word lowest.
pub open spec fn words_value(d: Seq<u32>) -> nat {
    d[0] as nat + d[1] as nat * 0x1_0000_0000 + d[2] as nat * 0x1_0000_0000_0000_0000 + d[3] as nat
        * 0x1_0000_0000_0000_0000_0000_0000 + d[4] as nat
        * 0x1_0000_0000_0000_0000_0000_0000_0000_0000nat
}

/// Five words are told by the number they spell: a coder whose contract
/// gives that number gives every word.
pub proof fn lemma_words_told_by_value(a: Seq<u32>, b: Seq<u32>)
    requires
        a.len() == 5,
        b.len() == 5,
        words_value(a) == words_value(b),
    ensures
        a =~= b,
{
    let base = 0x1_0000_0000nat;
    let upper_a = a[1] as nat + base * (a[2] as nat + base * (a[3] as nat + base * (a[4] as nat)));
    let upper_b = b[1] as nat + base * (b[2] as nat + base * (b[3] as nat + base * (b[4] as nat)));
    assert(words_value(a) == upper_a * base + a[0] as nat) by (nonlinear_arith)
        requires
            words_value(a) == a[0] as nat + a[1] as nat * 0x1_0000_0000 + a[2] as nat
                * 0x1_0000_0000_0000_0000 + a[3] as nat * 0x1_0000_0000_0000_0000_0000_0000
                + a[4] as nat * 0x1_0000_0000_0000_0000_0000_0000_0000_0000nat,
            upper_a == a[1] as nat + base * (a[2] as nat + base * (a[3] as nat + base * (
            a[4] as nat))),
            base == 0x1_0000_0000nat,
    ;
    assert(words_value(b) == upper_b * base + b[0] as nat) by (nonlinear_arith)
        requires
            words_value(b) == b[0] as nat + b[1] as nat * 0x1_0000_0000 + b[2] as nat
                * 0x1_0000_0000_0000_0000 + b[3] as nat * 0x1_0000_0000_0000_0000_0000_0000
                + b[4] as nat * 0x1_0000_0000_0000_0000_0000_0000_0000_0000nat,
            upper_b == b[1] as nat + base * (b[2] as nat + base * (b[3] as nat + base * (
            b[4] as nat))),
            base == 0x1_0000_0000nat,
    ;
    lemma_div_mod_of_sum(upper_a, base, a[0] as nat);
    lemma_div_mod_of_sum(upper_b, base, b[0] as nat);
    assert(a[0] == b[0] && upper_a == upper_b);
    let second_a = a[2] as nat + base * (a[3] as nat + base * (a[4] as nat));
    let second_b = b[2] as nat + base * (b[3] as nat + base * (b[4] as nat));
    assert(upper_a == second_a * base + a[1] as nat) by (nonlinear_arith)
        requires
            upper_a == a[1] as nat + base * second_a,
    ;
    assert(upper_b == second_b * base + b[1] as nat) by (nonlinear_arith)
        requires
            upper_b == b[1] as nat + base * second_b,
    ;
    lemma_div_mod_of_sum(second_a, base, a[1] as nat);
    lemma_div_mod_of_sum(second_b, base, b[1] as nat);
    assert(a[1] == b[1] && second_a == second_b);
    let third_a = a[3] as nat + base * (a[4] as nat);
    let third_b = b[3] as nat + base * (b[4] as nat);
    assert(second_a == third_a * base + a[2] as nat) by (nonlinear_arith)
        requires
            second_a == a[2] as nat + base * third_a,
    ;
    assert(second_b == third_b * base + b[2] as nat) by (nonlinear_arith)
        requires
            second_b == b[2] as nat + base * third_b,
    ;
    lemma_div_mod_of_sum(third_a, base, a[2] as nat);
    lemma_div_mod_of_sum(third_b, base, b[2] as nat);
    assert(a[2] == b[2] && third_a == third_b);
    assert(third_a == a[4] as nat * base + a[3] as nat) by (nonlinear_arith)
        requires
            third_a == a[3] as nat + base * (a[4] as nat),
    ;
    assert(third_b == b[4] as nat * base + b[3] as nat) by (nonlinear_arith)
        requires
            third_b == b[3] as nat + base * (b[4] as nat),
    ;
    lemma_div_mod_of_sum(a[4] as nat, base, a[3] as nat);
    lemma_div_mod_of_sum(b[4] as nat, base, b[3] as nat);
    assert(a[3] == b[3] && a[4] == b[4]);
}

/// The weight of word `w` of five: two to the power `32 * w`.
pub open spec fn word_weight(w: int) -> nat {
    if w == 0 {
        1
    } else if w == 1 {
        0x1_0000_0000
    } else if w == 2 {
        0x1_0000_0000_0000_0000
    } else if w == 3 {
        0x1_0000_0000_0000_0000_0000_0000
    } else {
        0x1_0000_0000_0000_0000_0000_0000_0000_0000nat
    }
}

/// The weights of the words are powers of two.
pub proof fn lemma_word_weight(w: int)
    requires
        0 <= w < 5,
    ensures
        word_weight(w) == pow2((32 * w) as nat),
{
    lemma_pow2_values();
    lemma_pow2_adds(32, 32);
    lemma_pow2_adds(64, 32);
    lemma_pow2_adds(96, 32);
}

/// Two to the power `k`.
pub fn pow2_u64(k: u32) -> (r: u64)
    requires
        k <= 32,
    ensures
        r == pow2(k as nat),
{
    let table: [u64; 33] = [
        0x1,
        0x2,
        0x4,
        0x8,
        0x10,
        0x20,
        0x40,
        0x80,
        0x100,
        0x200,
        0x400,
        0x800,
        0x1000,
        0x2000,
        0x4000,
        0x8000,
        0x1_0000,
        0x2_0000,
        0x4_0000,
        0x8_0000,
        0x10_0000,
        0x20_0000,
        0x40_0000,
        0x80_0000,
        0x100_0000,
        0x200_0000,
        0x400_0000,
        0x800_0000,
        0x1000_0000,
        0x2000_0000,
        0x4000_0000,
        0x8000_0000,
        0x1_0000_0000,
    ];
    proof {
        vstd::arithmetic::power2::lemma2_to64();
    }
    table[k as usize]
}

/// A field that lies within word `w` of five words is that field of the
/// word.
pub proof fn lemma_word_field(d: Seq<u32>, w: int, s: nat, k: nat)
    requires
        d.len() == 5,
        0 <= w < 5,
        s + k <= 32,
    ensures
        field(words_value(d), (32 * w + s) as nat, k) == field(d[w] as nat, s, k),
{
    let base = 0x1_0000_0000nat;
    let d0 = d[0] as nat;
    let d1 = d[1] as nat;
    let d2 = d[2] as nat;
    let d3 = d[3] as nat;
    let d4 = d[4] as nat;
    lemma_pow2_values();
    lemma_word_weight(w);
    let below: nat = if w == 0 {
        0
    } else if w == 1 {
        d0
    } else if w == 2 {
        d0 + d1 * base
    } else if w == 3 {
        d0 + d1 * base + d2 * base * base
    } else {
        d0 + d1 * base + d2 * base * base + d3 * base * base * base
    };
    let above: nat = if w == 0 {
        d1 + d2 * base + d3 * base * base + d4 * base * base * base
    } else if w == 1 {
        d2 + d3 * base + d4 * base * base
    } else if w == 2 {
        d3 + d4 * base
    } else if w == 3 {
        d4
    } else {
        0
    };
    let here = d[w] as nat;
    let weight = word_weight(w);
    assert(words_value(d) == below + weight * (here + base * above) && below < weight)
        by (nonlinear_arith)
        requires
            words_value(d) == d0 + d1 * 0x1_0000_0000 + d2 * 0x1_0000_0000_0000_0000 + d3
                * 0x1_0000_0000_0000_0000_0000_0000 + d4
                * 0x1_0000_0000_0000_0000_0000_0000_0000_0000nat,
            base == 0x1_0000_0000nat,
            d0 < base,
            d1 < base,
            d2 < base,
            d3 < base,
            w == 0 ==> below == 0 && above == d1 + d2 * base + d3 * base * base + d4 * base * base
                * base && here == d0 && weight == 1,
            w == 1 ==> below == d0 && above == d2 + d3 * base + d4 * base * base && here == d1
                && weight == base,
            w == 2 ==> below == d0 + d1 * base && above == d3 + d4 * base && here == d2 && weight
                == base * base,
            w == 3 ==> below == d0 + d1 * base + d2 * base * base && above == d4 && here == d3
                && weight == base * base * base,
            w == 4 ==> below == d0 + d1 * base + d2 * base * base + d3 * base * base * base
                && above == 0 && here == d4 && weight == base * base * base * base,
            0 <= w < 5,
    ;
    lemma_field_of_sum(below, here + base * above, (32 * w) as nat, s, k);
    lemma_field_of_sum(here, above, 32, s, k);
}

/// Writes the `bits` bits of `v` into `data` at bit `pos`, a place within
/// the five words, and moves `pos` past them. The bits at which `v` is
/// written are clear before: they then hold `v`, and every other bit of
/// `data` stays as it was.
pub fn put_bits(data: &mut [u32; 5], pos: &mut u32, bits: u32, v: u32)
    requires
        bits <= 32,
        *old(pos) < 160,
        *old(pos) + bits <= 160,
        v < pow2(bits as nat),
        field(words_value(old(data)@), *old(pos) as nat, bits as nat) == 0,
    ensures
        words_value(final(data)@) == words_value(old(data)@) + v * pow2(*old(pos) as nat),
        field(words_value(final(data)@), *old(pos) as nat, bits as nat) == v,
        *final(pos) == *old(pos) + bits,
        words_value(old(data)@) < pow2(*old(pos) as nat) ==> words_value(final(data)@) < pow2(
            *final(pos) as nat,
        ),
{
    let w = (*pos / 32) as usize;
    let s = *pos % 32;
    let room = pow2_u64(32 - s);
    let scale = pow2_u64(s);
    let ghost before = data@;
    let ghost start = *pos as nat;
    let ghost here: nat = if s + bits > 32 {
        (32 - s) as nat
    } else {
        bits as nat
    };
    let ghost spill = (bits - here) as nat;
    proof {
        lemma_pow2_values();
        lemma_word_weight(w as int);
        lemma_pow2_adds(s as nat, (32 * w) as nat);
        lemma_pow2_adds(s as nat, (32 - s) as nat);
        lemma_pow2_pos(s as nat);
        lemma_pow2_pos((32 - s) as nat);
        assert(scale * room == 0x1_0000_0000);
        assert(room * scale == scale * room) by (nonlinear_arith);
        lemma_pow2_strictly_increases(s as nat, 32);
        // the field is clear in each of the words it lies in
        crate::bits::lemma_field_split(words_value(before), start, here, spill);
        lemma_pow2_pos(here);
        assert(field(words_value(before), start, here) == 0 && field(
            words_value(before),
            start + here,
            spill,
        ) == 0) by (nonlinear_arith)
            requires
                field(words_value(before), start, here) + pow2(here) * field(
                    words_value(before),
                    start + here,
                    spill,
                ) == 0,
                pow2(here) > 0,
        ;
        lemma_word_field(before, w as int, s as nat, here);
        if s + bits > 32 {
            lemma_word_field(before, w + 1, 0, spill);
        }
    }
    let low = (v as u64) % room;
    let high = (v as u64) / room;
    proof {
        assert(v == high * room + low) by {
            vstd::arithmetic::div_mod::lemma_fundamental_div_mod(v as int, room as int);
            assert(high * room == room * high) by (nonlinear_arith);
        }
        if s + bits <= 32 {
            if bits < 32 - s {
                lemma_pow2_strictly_increases(bits as nat, (32 - s) as nat);
            }
            assert(high == 0) by (nonlinear_arith)
                requires
                    v == high * room + low,
                    v < room,
                    low >= 0,
                    high >= 0,
            ;
        }
        assert(low < pow2(here));
        crate::bits::lemma_room_in_field(before[w as int] as nat, s as nat, here, low as nat, 32);
        assert(low * scale < 0x1_0000_0000) by (nonlinear_arith)
            requires
                before[w as int] + low * scale < 0x1_0000_0000,
                before[w as int] >= 0,
        ;
    }
    data[w] = data[w] + (low * scale) as u32;
    if s + bits > 32 {
        proof {
            lemma_pow2_adds((32 - s) as nat, (s + bits - 32) as nat);
            assert(high < pow2((s + bits - 32) as nat)) by (nonlinear_arith)
                requires
                    v == high * room + low,
                    v < pow2(bits as nat),
                    pow2(bits as nat) == room * pow2((s + bits - 32) as nat),
                    room > 0,
                    low >= 0,
            ;
            lemma_pow2_strictly_increases((s + bits - 32) as nat, 32);
            crate::bits::lemma_room_in_field(before[w + 1] as nat, 0, spill, high as nat, 32);
            assert(high * pow2(0) == high) by (nonlinear_arith)
                requires
                    pow2(0) == 1,
            ;
        }
        data[w + 1] = data[w + 1] + high as u32;
    }
    *pos = *pos + bits;
    proof {
        let added = low * scale * word_weight(w as int) + high * 0x1_0000_0000 * word_weight(
            w as int,
        );
        assert(words_value(data@) == words_value(before) + added) by {
            lemma_words_add(before, data@, w as int, (low * scale) as nat, high as nat);
        }
        assert(added == v * pow2(start)) by (nonlinear_arith)
            requires
                added == low * scale * word_weight(w as int) + high * 0x1_0000_0000 * word_weight(
                    w as int,
                ),
                v == high * room + low,
                room * scale == 0x1_0000_0000,
                pow2(start) == scale * word_weight(w as int),
        ;
        lemma_pow2_adds(start, bits as nat);
        crate::bits::lemma_field_written(words_value(before), start, bits as nat, v as nat, 0, 0);
        if words_value(before) < pow2(start) {
            assert(words_value(before) + v * pow2(start) < pow2(start) * pow2(bits as nat))
                by (nonlinear_arith)
                requires
                    words_value(before) < pow2(start),
                    v < pow2(bits as nat),
            ;
        }
    }
}

/// Five words whose number lies below `limit * 2^(32 w)`, with `limit` at
/// most `2^32`, have word `w` below `limit` and nothing above it.
pub proof fn lemma_words_below(d: Seq<u32>, w: int, limit: nat)
    requires
        d.len() == 5,
        0 <= w < 5,
        limit <= 0x1_0000_0000,
        words_value(d) < limit * word_weight(w),
    ensures
        d[w] < limit,
        forall|i: int| w < i < 5 ==> d[i] == 0,
{
    if w == 0 {
    } else if w == 1 {
    } else if w == 2 {
    } else if w == 3 {
    } else {
    }
}

/// What adding to word `w`, and to the word above it, adds to the number
/// that five words spell.
pub proof fn lemma_words_add(before: Seq<u32>, after: Seq<u32>, w: int, low: nat, high: nat)
    requires
        before.len() == 5,
        after.len() == 5,
        0 <= w < 5,
        w == 4 ==> high == 0,
        after[w] == before[w] + low,
        w < 4 ==> after[w + 1] == before[w + 1] + high,
        forall|i: int| 0 <= i < 5 && i != w && i != w + 1 ==> after[i] == before[i],
    ensures
        words_value(after) == words_value(before) + low * word_weight(w) + high * 0x1_0000_0000
            * word_weight(w),
{
    let a0 = after[0] as nat;
    let a1 = after[1] as nat;
    let a2 = after[2] as nat;
    let a3 = after[3] as nat;
    let a4 = after[4] as nat;
    let b0 = before[0] as nat;
    let b1 = before[1] as nat;
    let b2 = before[2] as nat;
    let b3 = before[3] as nat;
    let b4 = before[4] as nat;
    let k1: nat = 0x1_0000_0000;
    let k2: nat = 0x1_0000_0000_0000_0000;
    let k3: nat = 0x1_0000_0000_0000_0000_0000_0000;
    let k4: nat = 0x1_0000_0000_0000_0000_0000_0000_0000_0000nat;
    assert(words_value(after) == a0 + a1 * k1 + a2 * k2 + a3 * k3 + a4 * k4);
    assert(words_value(before) == b0 + b1 * k1 + b2 * k2 + b3 * k3 + b4 * k4);
    let ww = word_weight(w);
    let gain = low * ww + high * 0x1_0000_0000 * ww;
    if w == 0 {
        assert(a0 == b0 + low && a1 == b1 + high && a2 == b2 && a3 == b3 && a4 == b4);
        assert(ww == 1);
        assert(gain == low + high * k1) by (nonlinear_arith)
            requires
                gain == low * ww + high * 0x1_0000_0000 * ww,
                ww == 1,
                k1 == 0x1_0000_0000,
        ;
        assert((b1 + high) * k1 == b1 * k1 + high * k1) by (nonlinear_arith);
    } else if w == 1 {
        assert(a0 == b0 && a1 == b1 + low && a2 == b2 + high && a3 == b3 && a4 == b4);
        assert(ww == k1);
        assert(gain == low * k1 + high * k2) by (nonlinear_arith)
            requires
                gain == low * ww + high * 0x1_0000_0000 * ww,
                ww == k1,
                k1 == 0x1_0000_0000,
                k2 == 0x1_0000_0000_0000_0000,
        ;
        assert((b1 + low) * k1 == b1 * k1 + low * k1) by (nonlinear_arith);
        assert((b2 + high) * k2 == b2 * k2 + high * k2) by (nonlinear_arith);
    } else if w == 2 {
        assert(a0 == b0 && a1 == b1 && a2 == b2 + low && a3 == b3 + high && a4 == b4);
        assert(ww == k2);
        assert(gain == low * k2 + high * k3) by (nonlinear_arith)
            requires
                gain == low * ww + high * 0x1_0000_0000 * ww,
                ww == k2,
                k2 == 0x1_0000_0000_0000_0000,
                k3 == 0x1_0000_0000_0000_0000_0000_0000,
        ;
        assert((b2 + low) * k2 == b2 * k2 + low * k2) by (nonlinear_arith);
        assert((b3 + high) * k3 == b3 * k3 + high * k3) by (nonlinear_arith);
    } else if w == 3 {
        assert(a0 == b0 && a1 == b1 && a2 == b2 && a3 == b3 + low && a4 == b4 + high);
        assert(ww == k3);
        assert(gain == low * k3 + high * k4) by (nonlinear_arith)
            requires
                gain == low * ww + high * 0x1_0000_0000 * ww,
                ww == k3,
                k3 == 0x1_0000_0000_0000_0000_0000_0000,
                k4 == 0x1_0000_0000_0000_0000_0000_0000_0000_0000nat,
        ;
        assert((b3 + low) * k3 == b3 * k3 + low * k3) by (nonlinear_arith);
        assert((b4 + high) * k4 == b4 * k4 + high * k4) by (nonlinear_arith);
    } else {
        assert(a0 == b0 && a1 == b1 && a2 == b2 && a3 == b3 && a4 == b4 + low);
        assert(ww == k4);
        assert(gain == low * k4) by (nonlinear_arith)
            requires
                gain == low * ww + high * 0x1_0000_0000 * ww,
                ww == k4,
                high == 0,
        ;
        assert((b4 + low) * k4 == b4 * k4 + low * k4) by (nonlinear_arith);
    }
}

/// `v` without its bit `p`: the bits above it move down by one.
pub open spec fn without_bit(v: nat, p: nat) -> nat {
    v % pow2(p) + (v / pow2(p + 1)) * pow2(p)
}

/// The bit that is taken out of a block for a field that starts below bit
/// `from_bits`: the bit just below, or bit `from_bits` itself where that is
/// the first bit of a word.
pub open spec fn removed_bit(from_bits: nat) -> nat {
    if from_bits % 32 == 0 {
        from_bits
    } else {
        (from_bits - 1) as nat
    }
}

/// A number split at bit `b` is split at bit `b + q` by splitting its upper
/// part at bit `q`.
pub proof fn lemma_split_above(l: nat, u: nat, b: nat, q: nat)
    requires
        l < pow2(b),
    ensures
        (l + pow2(b) * u) % pow2(b + q) == l + pow2(b) * (u % pow2(q)),
        (l + pow2(b) * u) / pow2(b + q) == u / pow2(q),
{
    let pb = pow2(b);
    let pq = pow2(q);
    lemma_pow2_pos(b);
    lemma_pow2_pos(q);
    lemma_pow2_adds(b, q);
    let uq = u / pq;
    let ur = u % pq;
    vstd::arithmetic::div_mod::lemma_fundamental_div_mod(u as int, pq as int);
    vstd::arithmetic::div_mod::lemma_mod_bound(u as int, pq as int);
    assert(u == pq * uq + ur);
    let r = l + pb * ur;
    assert(r < pb * pq) by (nonlinear_arith)
        requires
            r == l + pb * ur,
            l < pb,
            ur < pq,
    ;
    assert(l + pb * u == uq * (pb * pq) + r) by (nonlinear_arith)
        requires
            u == pq * uq + ur,
            r == l + pb * ur,
    ;
    lemma_div_mod_of_sum(uq, pb * pq, r);
}

/// Taking a bit out above bit `b` leaves the bits below `b` alone.
pub proof fn lemma_without_bit_above(l: nat, u: nat, b: nat, q: nat)
    requires
        l < pow2(b),
    ensures
        without_bit(l + pow2(b) * u, b + q) == l + pow2(b) * without_bit(u, q),
{
    lemma_split_above(l, u, b, q);
    lemma_split_above(l, u, b, q + 1);
    lemma_pow2_adds(b, q);
    let pb = pow2(b);
    let pq = pow2(q);
    let hi = u / pow2(q + 1);
    let lo = u % pq;
    assert(l + pb * lo + hi * (pb * pq) == l + pb * (lo + hi * pq)) by (nonlinear_arith);
}

/// With bit `p` taken out, a field below bit `p` stays where it is and a
/// field that started above bit `p` starts one bit lower.
pub proof fn lemma_field_without_bit(v: nat, p: nat, pos: nat, n: nat)
    ensures
        pos + n <= p ==> field(without_bit(v, p), pos, n) == field(v, pos, n),
        pos >= p ==> field(without_bit(v, p), pos, n) == field(v, pos + 1, n),
{
    let low = v % pow2(p);
    let high = v / pow2(p + 1);
    let rest = v / pow2(p);
    lemma_pow2_pos(p);
    vstd::arithmetic::div_mod::lemma_mod_bound(v as int, pow2(p) as int);
    vstd::arithmetic::div_mod::lemma_fundamental_div_mod(v as int, pow2(p) as int);
    assert(high * pow2(p) == pow2(p) * high) by (nonlinear_arith);
    assert(v == low + pow2(p) * rest);
    if pos + n <= p {
        crate::bits::lemma_field_of_sum(low, high, p, pos, n);
        crate::bits::lemma_field_of_sum(low, rest, p, pos, n);
    }
    if pos >= p {
        let above = (pos - p) as nat;
        crate::bits::lemma_field_of_sum(low, high, p, above, n);
        assert(field(without_bit(v, p), pos, n) == field(high, above, n));
        crate::bits::lemma_drop_drop(v, p + 1, above);
        assert(field(high, above, n) == field(v, pos + 1, n));
    }
}

/// Two to the power `k`.
fn pow2_u128(k: u32) -> (r: u128)
    requires
        k < 64,
    ensures
        r == pow2(k as nat),
        1 <= r < 0x1_0000_0000_0000_0000,
{
    let mut r: u128 = 1;
    let mut i: u32 = 0;
    proof {
        lemma_pow2_values();
    }
    while i < k
        invariant
            i <= k < 64,
            r == pow2(i as nat),
            1 <= r < 0x1_0000_0000_0000_0000,
        decreases k - i,
    {
        proof {
            vstd::arithmetic::power2::lemma_pow2_unfold((i + 1) as nat);
            lemma_pow2_values();
            if i + 1 < 64 {
                lemma_pow2_strictly_increases((i + 1) as nat, 64);
            }
        }
        r = r * 2;
        i = i + 1;
    }
    r
}

/// Takes one bit out of the block: the bit just below `from_bits`, which must
/// lie in the upper 64 bits. The bits above it move down by one. From bit
/// 128 on nothing is taken out.
pub fn data_shl_1bit_from(data: &mut [u32; 5], from_bits: usize)
    requires
        64 <= from_bits,
    ensures
        from_bits < 128 ==> words_value(final(data)@) == without_bit(
            words_value(old(data)@),
            removed_bit(from_bits as nat),
        ),
        from_bits >= 128 ==> final(data)@ == old(data)@,
{
    if from_bits < 128 {
        let removed = if from_bits % 32 == 0 {
            from_bits
        } else {
            from_bits - 1
        };
        let q = (removed - 64) as u32;
        let ghost before = data@;
        let low: u128 = data[0] as u128 + data[1] as u128 * 0x1_0000_0000;
        let upper: u128 = data[2] as u128 + data[3] as u128 * 0x1_0000_0000 + data[4] as u128
            * 0x1_0000_0000_0000_0000;
        let pq = pow2_u128(q);
        let kept = upper % pq;
        let moved = (upper / pq) / 2;
        proof {
            lemma_pow2_values();
            lemma_pow2_pos(q as nat);
            lemma_drop_drop(upper as nat, q as nat, 1);
            vstd::arithmetic::div_mod::lemma_fundamental_div_mod(upper as int, pq as int);
            assert(kept + moved * pq <= upper) by (nonlinear_arith)
                requires
                    upper == pq * (upper / pq) + kept,
                    moved <= upper / pq,
                    pq > 0,
                    moved >= 0,
            ;
            assert(moved as nat * pq as nat == moved * pq);
        }
        let result = kept + moved * pq;
        data[2] = (result % 0x1_0000_0000) as u32;
        data[3] = ((result / 0x1_0000_0000) % 0x1_0000_0000) as u32;
        data[4] = (result / 0x1_0000_0000_0000_0000) as u32;
        proof {
            assert(result == without_bit(upper as nat, q as nat));
            assert(words_value(before) == low + pow2(64) * upper);
            assert(words_value(data@) == low + pow2(64) * result);
            lemma_without_bit_above(low as nat, upper as nat, 64, q as nat);
        }
    }
}

/// Index `k` of a word of eight quantized indices, four bits each.
pub open spec fn word_nibble(w: u32, k: int) -> nat {
    field(w as nat, (4 * k) as nat, 4)
}

/// Index `k` of a block of sixteen quantized indices, four bits each, eight
/// to a word.
pub open spec fn nibble(qblock: Seq<u32>, k: int) -> nat {
    word_nibble(qblock[k / 8], k % 8)
}

/// Index `k` as it is written: counted from the other end where bit `k` of
/// `flips` is set.
pub open spec fn coded_index(qblock: Seq<u32>, bits: nat, flips: u32, k: int) -> nat {
    if field(flips as nat, k as nat, 1) == 1 {
        (pow2(bits) - 1 - nibble(qblock, k)) as nat
    } else {
        nibble(qblock, k)
    }
}

/// The bit, counted from the first index, at which index `k` is written:
/// index 0 is written with one bit less.
pub open spec fn coded_offset(bits: nat, k: nat) -> nat {
    if k == 0 {
        0
    } else {
        (k * bits - 1) as nat
    }
}

/// The place of an index after the first lies `bits` bits before the next.
pub proof fn lemma_coded_offset(bits: nat, k: nat)
    requires
        1 <= bits,
        1 <= k,
    ensures
        coded_offset(bits, k) == k * bits - 1,
        coded_offset(bits, k + 1) == coded_offset(bits, k) + bits,
{
    assert(k * bits >= 1 && (k + 1) * bits == k * bits + bits) by (nonlinear_arith)
        requires
            1 <= bits,
            1 <= k,
    ;
}

/// The first `n` indices as they are written, as one number.
pub open spec fn coded_indices(qblock: Seq<u32>, bits: nat, flips: u32, n: nat) -> nat
    decreases n,
{
    if n == 0 {
        0
    } else {
        coded_indices(qblock, bits, flips, (n - 1) as nat) + coded_index(
            qblock,
            bits,
            flips,
            n - 1,
        ) * pow2(coded_offset(bits, (n - 1) as nat))
    }
}

/// The indices written so far lie below the place of the next one.
pub proof fn lemma_coded_indices_bound(qblock: Seq<u32>, bits: nat, flips: u32, n: nat)
    requires
        1 <= bits,
        n <= 16,
        qblock.len() == 2,
        forall|k: int| 0 <= k < 16 ==> nibble(qblock, k) < pow2(bits),
        coded_index(qblock, bits, flips, 0) < pow2((bits - 1) as nat),
    ensures
        coded_indices(qblock, bits, flips, n) < pow2(coded_offset(bits, n)),
    decreases n,
{
    lemma_pow2_values();
    if n == 1 {
        assert(coded_indices(qblock, bits, flips, 0) == 0);
        lemma_coded_offset(bits, 1);
        assert(coded_index(qblock, bits, flips, 0) * pow2(0) == coded_index(qblock, bits, flips, 0))
            by (nonlinear_arith)
            requires
                pow2(0) == 1,
        ;
    } else if n > 1 {
        lemma_coded_indices_bound(qblock, bits, flips, (n - 1) as nat);
        let off = coded_offset(bits, (n - 1) as nat);
        let q = coded_index(qblock, bits, flips, n - 1);
        assert(nibble(qblock, n - 1) < pow2(bits));
        assert(q < pow2(bits));
        lemma_coded_offset(bits, (n - 1) as nat);
        assert(coded_offset(bits, n) == off + bits);
        lemma_pow2_adds(off, bits);
        assert(coded_indices(qblock, bits, flips, (n - 1) as nat) + q * pow2(off) < pow2(off) * pow2(
            bits,
        )) by (nonlinear_arith)
            requires
                coded_indices(qblock, bits, flips, (n - 1) as nat) < pow2(off),
                q < pow2(bits),
        ;
    }
}

/// Reads index `k` of a block of quantized indices.
pub fn get_nibble(qblock: &[u32; 2], k: usize) -> (q: u32)
    requires
        k < 16,
    ensures
        q == nibble(qblock@, k as int),
        q < 16,
{
    let word = qblock[k / 8] as u64;
    let scale = pow2_u64((4 * (k % 8)) as u32);
    proof {
        lemma_pow2_values();
        lemma_pow2_pos((4 * (k % 8)) as nat);
    }
    ((word / scale) % 16) as u32
}

/// Writes the sixteen indices of `qblock`, `bits` bits each and the first
/// with one bit less, into `data` at bit `qpos`. Index `k` is counted from
/// the other end where bit `k` of `flips` is set.
pub fn bc7_code_qblock(data: &mut [u32; 5], qpos: &mut u32, qblock: [u32; 2], bits: u32, flips: u32)
    requires
        2 <= bits <= 4,
        *old(qpos) + 16 * bits - 1 <= 160,
        words_value(old(data)@) < pow2(*old(qpos) as nat),
        forall|k: int| 0 <= k < 16 ==> nibble(qblock@, k) < pow2(bits as nat),
        coded_index(qblock@, bits as nat, flips, 0) < pow2((bits - 1) as nat),
    ensures
        words_value(final(data)@) == words_value(old(data)@) + coded_indices(
            qblock@,
            bits as nat,
            flips,
            16,
        ) * pow2(*old(qpos) as nat),
        *final(qpos) == *old(qpos) + 16 * bits - 1,
        words_value(final(data)@) < pow2(*final(qpos) as nat),
{
    proof {
        lemma_pow2_values();
    }
    let levels: u32 = if bits == 1 {
        2
    } else if bits == 2 {
        4
    } else if bits == 3 {
        8
    } else {
        16
    };
    let ghost start = *qpos as nat;
    let ghost before = words_value(data@);
    let mut flips_shifted = flips;
    let mut k: usize = 0;
    proof {
        lemma_pow2_values();
        assert(flips as nat / pow2(0) == flips);
        assert(coded_indices(qblock@, bits as nat, flips, 0) * pow2(start) == 0) by (nonlinear_arith)
            requires
                coded_indices(qblock@, bits as nat, flips, 0) == 0,
        ;
    }
    while k < 16
        invariant
            2 <= bits <= 4,
            levels == pow2(bits as nat),
            k <= 16,
            start + 16 * bits - 1 <= 160,
            *qpos == start + coded_offset(bits as nat, k as nat),
            flips_shifted == flips as nat / pow2(k as nat),
            forall|j: int| 0 <= j < 16 ==> nibble(qblock@, j) < pow2(bits as nat),
            coded_index(qblock@, bits as nat, flips, 0) < pow2((bits - 1) as nat),
            words_value(data@) == before + coded_indices(qblock@, bits as nat, flips, k as nat)
                * pow2(start),
            words_value(data@) < pow2(*qpos as nat),
        decreases 16 - k,
    {
        let ghost off = coded_offset(bits as nat, k as nat);
        proof {
            lemma_pow2_values();
            lemma_drop_drop(flips as nat, k as nat, 1);
            assert(nibble(qblock@, k as int) < pow2(bits as nat));
            if k > 0 {
                lemma_coded_offset(bits as nat, k as nat);
            } else {
                lemma_coded_offset(bits as nat, 1);
            }
            assert(k * bits <= 15 * bits) by (nonlinear_arith)
                requires
                    k <= 15,
                    bits >= 0,
            ;
            assert(coded_offset(bits as nat, (k + 1) as nat) == off + (if k == 0 {
                bits - 1
            } else {
                bits as int
            }));
        }
        let mut q = get_nibble(&qblock, k);
        if flips_shifted % 2 == 1 {
            q = (levels - 1) - q;
        }
        assert(q == coded_index(qblock@, bits as nat, flips, k as int));
        let ghost data_before = words_value(data@);
        if k == 0 {
            proof {
                crate::bits::lemma_field_above(words_value(data@), *qpos as nat, (bits - 1) as nat);
            }
            put_bits(data, qpos, bits - 1, q);
        } else {
            proof {
                crate::bits::lemma_field_above(words_value(data@), *qpos as nat, bits as nat);
            }
            put_bits(data, qpos, bits, q);
        }
        proof {
            lemma_pow2_adds(start, off);
            assert(data_before + q * pow2(start + off) == before + (coded_indices(
                qblock@,
                bits as nat,
                flips,
                k as nat,
            ) + q * pow2(off)) * pow2(start)) by (nonlinear_arith)
                requires
                    data_before == before + coded_indices(qblock@, bits as nat, flips, k as nat)
                        * pow2(start),
                    pow2(start + off) == pow2(start) * pow2(off),
            ;
        }
        flips_shifted = flips_shifted / 2;
        k = k + 1;
    }
    proof {
        lemma_coded_offset(bits as nat, 16);
    }
}

/// The end of the field of index `k` in a block of `pairs` subsets whose
/// indices have `bits` bits, before the spare bits of the anchors are taken
/// out.
pub open spec fn anchor_top(pairs: int, bits: int, k: int) -> int {
    128 + (pairs - 1) - (15 - k) * bits
}

/// The number of subsets of a partitioned mode: three in modes 0 and 2, else
/// two.
pub open spec fn mode_pairs(mode: int) -> int {
    if mode == 0 || mode == 2 {
        3
    } else {
        2
    }
}

/// The number of bits of an index of a partitioned mode: three in modes 0
/// and 1, else two.
pub open spec fn mode_index_bits(mode: int) -> int {
    if mode == 0 || mode == 1 {
        3
    } else {
        2
    }
}

/// The block `v` without the bit below `from_bits`, where that lies in the
/// block.
pub open spec fn without_spare_bit(v: nat, from_bits: int) -> nat {
    if from_bits < 128 {
        without_bit(v, removed_bit(from_bits as nat))
    } else {
        v
    }
}

/// The block `v` after the spare top bits of the indices of the anchors of
/// subsets 1 and 2 are taken out, the higher anchor first.
pub open spec fn skips_adjusted(v: nat, mode: int, part_id: int) -> nat {
    let pairs = mode_pairs(mode);
    let bits = mode_index_bits(mode);
    let a1 = anchor_of(part_id, 1);
    let a2 = anchor_of(part_id, 2);
    if pairs == 2 {
        without_spare_bit(v, anchor_top(pairs, bits, a1))
    } else {
        let first = if a1 < a2 {
            a2
        } else {
            a1
        };
        let second = if a1 < a2 {
            a1
        } else {
            a2
        };
        without_spare_bit(
            without_spare_bit(v, anchor_top(pairs, bits, first)),
            anchor_top(pairs, bits, second),
        )
    }
}

/// Takes the spare top bits of the indices of the anchors of subsets 1 and 2
/// out of a block of mode 0, 1, 2, 3 or 7.
pub fn bc7_code_adjust_skip_mode01237(data: &mut [u32; 5], mode: usize, part_id: i32)
    requires
        0 <= part_id < 128,
    ensures
        words_value(final(data)@) == skips_adjusted(
            words_value(old(data)@),
            mode as int,
            part_id as int,
        ),
{
    let pairs: usize = if mode == 0 || mode == 2 {
        3
    } else {
        2
    };
    let bits: usize = if mode == 0 || mode == 1 {
        3
    } else {
        2
    };
    let skips = get_skips(part_id);
    let a1 = skips[1] as usize;
    let a2 = skips[2] as usize;
    if pairs > 2 {
        let first = if a1 < a2 {
            a2
        } else {
            a1
        };
        let second = if a1 < a2 {
            a1
        } else {
            a2
        };
        data_shl_1bit_from(data, 128 + (pairs - 1) - (15 - first) * bits);
        data_shl_1bit_from(data, 128 + (pairs - 1) - (15 - second) * bits);
    } else {
        data_shl_1bit_from(data, 128 + (pairs - 1) - (15 - a1) * bits);
    }
}

proof fn lemma_nibbles_complement(w: u32, l: u32, k: u32)
    by (bit_vector)
    requires
        l == 1 || l == 3 || l == 7 || l == 15,
        w & ((0x1111_1111u32 * (15 - l)) as u32) == 0,
        k < 8,
    ensures
        w <= 0x1111_1111u32 * l,
        ((((0x1111_1111u32 * l) as u32 - w) as u32) >> ((4 * k) as u32)) & 15u32 == l - ((w >> ((4
            * k) as u32)) & 15u32),
{
}

proof fn lemma_nibbles_bounded(w: u32, l: u32)
    by (bit_vector)
    requires
        l == 1 || l == 3 || l == 7 || l == 15,
        (w >> 0u32) & 15u32 <= l,
        (w >> 4u32) & 15u32 <= l,
        (w >> 8u32) & 15u32 <= l,
        (w >> 12u32) & 15u32 <= l,
        (w >> 16u32) & 15u32 <= l,
        (w >> 20u32) & 15u32 <= l,
        (w >> 24u32) & 15u32 <= l,
        (w >> 28u32) & 15u32 <= l,
    ensures
        w & ((0x1111_1111u32 * (15 - l)) as u32) == 0,
{
}

/// Index `k` of a word of indices, by shift and mask.
pub proof fn lemma_nibble_is_shift(w: u32, k: u32)
    requires
        k < 8,
    ensures
        (w >> ((4 * k) as u32)) & 15u32 == field(w as nat, (4 * k) as nat, 4),
{
    let sh = (4 * k) as u32;
    vstd::bits::lemma_u32_shr_is_div(w, sh);
    vstd::bits::lemma_u32_low_bits_mask_is_mod(w >> sh, 4);
    vstd::bits::lemma_low_bits_mask_values();
    lemma_pow2_values();
}

/// Where every index of a word is at most `l`, the word subtracted from the
/// word whose indices are all `l` has the indices `l - q`.
pub proof fn lemma_word_complement(w: u32, l: u32)
    requires
        l == 1 || l == 3 || l == 7 || l == 15,
        forall|k: int| 0 <= k < 8 ==> #[trigger] word_nibble(w, k) <= l,
    ensures
        w <= 0x1111_1111 * l,
        forall|k: int|
            0 <= k < 8 ==> #[trigger] word_nibble((0x1111_1111 * l - w) as u32, k) == l
                - word_nibble(w, k),
{
    lemma_nibble_is_shift(w, 0);
    lemma_nibble_is_shift(w, 1);
    lemma_nibble_is_shift(w, 2);
    lemma_nibble_is_shift(w, 3);
    lemma_nibble_is_shift(w, 4);
    lemma_nibble_is_shift(w, 5);
    lemma_nibble_is_shift(w, 6);
    lemma_nibble_is_shift(w, 7);
    assert(word_nibble(w, 0) <= l);
    assert(word_nibble(w, 1) <= l);
    assert(word_nibble(w, 2) <= l);
    assert(word_nibble(w, 3) <= l);
    assert(word_nibble(w, 4) <= l);
    assert(word_nibble(w, 5) <= l);
    assert(word_nibble(w, 6) <= l);
    assert(word_nibble(w, 7) <= l);
    lemma_nibbles_bounded(w, l);
    lemma_nibbles_complement(w, l, 0);
    let top = (0x1111_1111u32 * l) as u32;
    let c = (top - w) as u32;
    assert forall|k: int| 0 <= k < 8 implies #[trigger] word_nibble(
        (0x1111_1111 * l - w) as u32,
        k,
    ) == l - word_nibble(w, k) by {
        lemma_nibbles_complement(w, l, k as u32);
        lemma_nibble_is_shift(w, k as u32);
        lemma_nibble_is_shift(c, k as u32);
    }
}

/// Whether the index of pixel 0 has its top bit set.
pub open spec fn anchor_high(qblock: Seq<u32>, bits: nat) -> bool {
    nibble(qblock, 0) >= pow2((bits - 1) as nat)
}

/// The indices of `qblock` counted from the other end: each of its two words
/// subtracted from the word whose indices are all `2^bits - 1`.
pub open spec fn complemented(qblock: Seq<u32>, bits: nat) -> Seq<u32> {
    seq![
        (0x1111_1111 * (pow2(bits) - 1) - qblock[0]) as u32,
        (0x1111_1111 * (pow2(bits) - 1) - qblock[1]) as u32,
    ]
}

/// The endpoints `qep` after the first and the second endpoint, of
/// `channels` components each, have changed places.
pub open spec fn exchanged(qep: Seq<i32>, channels: int) -> Seq<i32> {
    Seq::new(
        qep.len(),
        |i: int|
            if i < channels {
                qep[i + channels]
            } else if i < 2 * channels {
                qep[i - channels]
            } else {
                qep[i]
            },
    )
}

/// Counts the indices of a single subset from the other end where the index
/// of its anchor, pixel 0, has its top bit set: the two endpoints of
/// `channels` components change places, and every index `q` becomes
/// `2^bits - 1 - q`.
pub fn bc7_code_apply_swap_mode456(
    qep: &mut [i32],
    channels: usize,
    qblock: &mut [u32; 2],
    bits: u32,
)
    requires
        1 <= bits <= 4,
        2 * channels <= old(qep)@.len(),
        forall|k: int| 0 <= k < 16 ==> nibble(old(qblock)@, k) < pow2(bits as nat),
    ensures
        final(qep)@.len() == old(qep)@.len(),
        final(qep)@ == (if anchor_high(old(qblock)@, bits as nat) {
            exchanged(old(qep)@, channels as int)
        } else {
            old(qep)@
        }),
        final(qblock)@ == (if anchor_high(old(qblock)@, bits as nat) {
            complemented(old(qblock)@, bits as nat)
        } else {
            old(qblock)@
        }),
        nibble(old(qblock)@, 0) < pow2((bits - 1) as nat) ==> final(qep)@ == old(qep)@ && final(qblock)@ == old(qblock)@,
        nibble(old(qblock)@, 0) >= pow2((bits - 1) as nat) ==> {
            &&& forall|p: int|
                0 <= p < channels ==> #[trigger] final(qep)@[p] == old(qep)@[channels + p] && final(qep)@[channels + p] == old(qep)@[p]
            &&& forall|p: int| 2 * channels <= p < old(qep)@.len() ==> final(qep)@[p] == old(qep)@[p]
            &&& forall|k: int|
                0 <= k < 16 ==> #[trigger] nibble(final(qblock)@, k) == pow2(bits as nat) - 1
                    - nibble(old(qblock)@, k)
        },
        forall|k: int| 0 <= k < 16 ==> nibble(final(qblock)@, k) < pow2(bits as nat),
        nibble(final(qblock)@, 0) < pow2((bits - 1) as nat),
{
    proof {
        lemma_pow2_values();
    }
    let levels: u32 = if bits == 1 {
        2
    } else if bits == 2 {
        4
    } else if bits == 3 {
        8
    } else {
        16
    };
    let half: u32 = levels / 2;
    if get_nibble(qblock, 0) >= half {
        let mut p: usize = 0;
        while p < channels
            invariant
                p <= channels,
                2 * channels <= qep@.len(),
                qep@.len() == old(qep)@.len(),
                forall|i: int|
                    0 <= i < qep@.len() ==> #[trigger] qep@[i] == (if i < p {
                        old(qep)@[channels + i]
                    } else if channels <= i < channels + p {
                        old(qep)@[i - channels]
                    } else {
                        old(qep)@[i]
                    }),
            decreases channels - p,
        {
            let first = qep[p];
            let second = qep[channels + p];
            qep[p] = second;
            qep[channels + p] = first;
            p = p + 1;
        }
        let ghost w0 = qblock@[0];
        let ghost w1 = qblock@[1];
        proof {
            assert forall|k: int| 0 <= k < 8 implies #[trigger] word_nibble(w0, k) <= levels
                - 1 by {
                assert(nibble(old(qblock)@, k) < pow2(bits as nat));
            }
            assert forall|k: int| 0 <= k < 8 implies #[trigger] word_nibble(w1, k) <= levels
                - 1 by {
                assert(nibble(old(qblock)@, k + 8) < pow2(bits as nat));
            }
            lemma_word_complement(w0, (levels - 1) as u32);
            lemma_word_complement(w1, (levels - 1) as u32);
        }
        let flipped = 0x1111_1111 * (levels - 1);
        qblock[0] = flipped - qblock[0];
        qblock[1] = flipped - qblock[1];
        proof {
            assert forall|i: int| 0 <= i < channels implies #[trigger] qep@[i] == old(qep)@[channels + i] && qep@[channels + i] == old(qep)@[i] by {
                assert(qep@[channels + i] == old(qep)@[channels + i - channels]);
            }
            assert forall|k: int| 0 <= k < 16 implies #[trigger] nibble(qblock@, k) == pow2(
                bits as nat,
            ) - 1 - nibble(old(qblock)@, k) by {
                if k < 8 {
                    assert(word_nibble((0x1111_1111 * (levels - 1) - w0) as u32, k) == levels - 1
                        - word_nibble(w0, k));
                } else {
                    assert(word_nibble((0x1111_1111 * (levels - 1) - w1) as u32, k - 8) == levels
                        - 1 - word_nibble(w1, k - 8));
                }
            }
            assert(nibble(qblock@, 0) == pow2(bits as nat) - 1 - nibble(old(qblock)@, 0));
            assert(qep@ =~= exchanged(old(qep)@, channels as int));
            assert(qblock@ =~= complemented(old(qblock)@, bits as nat));
        }
    } else {
        assert(qep@ =~= old(qep)@);
    }
}

proof fn lemma_or_low_bit(a: u32, b: u32)
    by (bit_vector)
    ensures
        (a | b) % 2 == 1 <==> (a % 2 == 1 || b % 2 == 1),
{
}

/// Pixel 0 lies in subset 0 under every shape.
pub proof fn lemma_pixel0_in_subset0(part_id: int)
    requires
        0 <= part_id < 128,
    ensures
        pattern_mask(part_id, 0) % 2 == 1,
        pattern_mask(part_id, 1) % 2 == 0,
        pattern_mask(part_id, 2) % 2 == 0,
        0 <= pattern_mask(part_id, 0) <= 0xFFFF_FFFF,
        0 <= pattern_mask(part_id, 1) <= 0xFFFF_FFFF,
        0 <= pattern_mask(part_id, 2) <= 0xFFFF_FFFF,
{
    let packed = crate::partition::pattern_mask_table()[part_id];
    assert(packed % 2 == 1 && (packed / 0x1_0000) % 2 == 0);
}

/// The index of pixel 0 is counted from the other end exactly where the
/// endpoints of subset 0 change places.
pub proof fn lemma_swap_flips_low_bit(qblock: Seq<u32>, mode: int, part_id: int, n: nat)
    requires
        0 <= part_id < 128,
        n <= 3,
    ensures
        swap_flips(qblock, mode, part_id, n) % 2 == 1 <==> (n >= 1 && subset_swapped(
            qblock,
            mode,
            part_id,
            0,
        )),
    decreases n,
{
    if n > 0 {
        lemma_swap_flips_low_bit(qblock, mode, part_id, (n - 1) as nat);
        lemma_pixel0_in_subset0(part_id);
        let below = swap_flips(qblock, mode, part_id, (n - 1) as nat);
        lemma_or_low_bit(below, pattern_mask(part_id, n - 1) as u32);
    }
}

/// After the endpoints have changed places the index of pixel 0, as it is
/// written, has its top bit clear.
pub proof fn lemma_anchor_index_short(qblock: Seq<u32>, mode: int, part_id: int)
    requires
        0 <= part_id < 128,
        nibble(qblock, 0) < pow2(mode_index_bits(mode) as nat),
    ensures
        coded_index(
            qblock,
            mode_index_bits(mode) as nat,
            swap_flips(qblock, mode, part_id, mode_pairs(mode) as nat),
            0,
        ) < pow2((mode_index_bits(mode) - 1) as nat),
{
    lemma_pow2_values();
    lemma_swap_flips_low_bit(qblock, mode, part_id, mode_pairs(mode) as nat);
    let flips = swap_flips(qblock, mode, part_id, mode_pairs(mode) as nat);
    assert(field(flips as nat, 0, 1) == flips % 2);
}

/// A bit of two words joined is set where it is set in either.
proof fn lemma_or_bit(a: u32, b: u32, k: u32)
    by (bit_vector)
    requires
        k < 32,
    ensures
        ((a | b) >> k) & 1u32 == 1 <==> ((a >> k) & 1u32 == 1 || (b >> k) & 1u32 == 1),
        (0u32 >> k) & 1u32 == 0,
{
}

/// The index of a pixel is counted from the other end exactly where the
/// endpoints of its subset change places.
#[verifier::rlimit(50)]
pub proof fn lemma_swap_flips_bit(qblock: Seq<u32>, mode: int, part_id: int, n: nat, k: int)
    requires
        0 <= part_id < 128,
        n <= 3,
        0 <= k < 16,
    ensures
        field(swap_flips(qblock, mode, part_id, n) as nat, k as nat, 1) == 1 <==> (
        crate::partition::subset_of(part_id, k) < n && subset_swapped(
            qblock,
            mode,
            part_id,
            crate::partition::subset_of(part_id, k),
        )),
    decreases n,
{
    crate::partition::lemma_subset_bound(part_id, k);
    crate::partition::lemma_mask_is_subset(part_id, k);
    let k32 = k as u32;
    if n > 0 {
        lemma_swap_flips_bit(qblock, mode, part_id, (n - 1) as nat, k);
        let below = swap_flips(qblock, mode, part_id, (n - 1) as nat);
        let mask = pattern_mask(part_id, n - 1) as u32;
        lemma_or_bit(below, mask, k32);
        crate::bits::lemma_bit_is_shift(below, k32);
        crate::bits::lemma_bit_is_shift(mask, k32);
        crate::bits::lemma_bit_is_shift(below | mask, k32);
        assert(crate::partition::in_mask(part_id, n - 1, k) <==> (mask >> k32) & 1u32 == 1);
    } else {
        lemma_or_bit(0, 0, k32);
        crate::bits::lemma_bit_is_shift(0, k32);
    }
}

/// After the endpoints have changed places the index of the anchor of every
/// subset, as it is written, has its top bit clear.
#[verifier::rlimit(50)]
pub proof fn lemma_anchor_indices_short(qblock: Seq<u32>, mode: int, part_id: int, j: int)
    requires
        0 <= part_id < 128,
        0 <= j < mode_pairs(mode),
        j == 2 ==> part_id >= 64,
        nibble(qblock, anchor_of(part_id, j)) < pow2(mode_index_bits(mode) as nat),
    ensures
        0 <= anchor_of(part_id, j) <= 15,
        crate::partition::subset_of(part_id, anchor_of(part_id, j)) == j,
        coded_index(
            qblock,
            mode_index_bits(mode) as nat,
            swap_flips(qblock, mode, part_id, mode_pairs(mode) as nat),
            anchor_of(part_id, j),
        ) < pow2((mode_index_bits(mode) - 1) as nat),
{
    let k = anchor_of(part_id, j);
    lemma_pow2_values();
    if j == 0 {
        lemma_pixel0_in_subset0(part_id);
        crate::partition::lemma_mask_is_subset(part_id, 0);
        assert(field(pattern_mask(part_id, 0) as nat, 0, 1) == pattern_mask(part_id, 0) % 2);
    } else {
        crate::partition::lemma_anchor_in_subset(part_id, j);
    }
    lemma_swap_flips_bit(qblock, mode, part_id, mode_pairs(mode) as nat, k);
}

/// The bit at which the indices of a partitioned mode start.
pub open spec fn mode_index_start(mode: int) -> int {
    128 + mode_pairs(mode) - 16 * mode_index_bits(mode)
}

/// The place, among the indices as they are written, of the top bit of the
/// index of pixel `k`.
pub open spec fn spare_bit(bits: nat, k: int) -> nat {
    (k * bits + bits - 2) as nat
}

/// The indices as they are written without the spare bits of the anchors
/// `a1` and, with three subsets, `a2`. The index of pixel 15 ends the block:
/// where it is an anchor its spare bit is not taken out but left off.
pub open spec fn anchored(coded: nat, bits: nat, pairs: int, a1: int, a2: int) -> nat {
    if pairs == 2 {
        if a1 < 15 {
            without_bit(coded, spare_bit(bits, a1))
        } else {
            coded
        }
    } else {
        let high = if a1 < a2 {
            a2
        } else {
            a1
        };
        let low = if a1 < a2 {
            a1
        } else {
            a2
        };
        let once = if high < 15 {
            without_bit(coded, spare_bit(bits, high))
        } else {
            coded
        };
        without_bit(once, spare_bit(bits, low))
    }
}

/// The number of bits with which the index of pixel `k` is read: one less
/// for an anchor.
pub open spec fn read_width(bits: nat, pairs: int, a1: int, a2: int, k: int) -> nat {
    if k == 0 || k == a1 || (pairs == 3 && k == a2) {
        (bits - 1) as nat
    } else {
        bits
    }
}

/// The bit, counted from the first index, at which the index of pixel `k` is
/// read: one bit earlier than it was written for every anchor before it.
pub open spec fn read_offset(bits: nat, pairs: int, a1: int, a2: int, k: int) -> nat {
    (coded_offset(bits, k as nat) - (if k > a1 {
        1int
    } else {
        0int
    }) - (if pairs == 3 && k > a2 {
        1int
    } else {
        0int
    })) as nat
}

/// Where the index of pixel `k` lies, as it is written, against the top bit
/// of the index of pixel `a`.
proof fn lemma_index_places(bits: nat, k: int, a: int)
    requires
        2 <= bits,
        0 <= k < 16,
        1 <= a <= 15,
    ensures
        k < a ==> coded_offset(bits, k as nat) + bits <= spare_bit(bits, a),
        k == a ==> coded_offset(bits, k as nat) + bits - 1 == spare_bit(bits, a),
        k > a ==> coded_offset(bits, k as nat) - 1 >= spare_bit(bits, a),
        k > a + 1 ==> coded_offset(bits, k as nat) - 2 >= spare_bit(bits, a),
        coded_offset(bits, k as nat) == (if k == 0 {
            0int
        } else {
            k * bits - 1
        }),
        spare_bit(bits, a) == a * bits + bits - 2,
{
    assert(a * bits >= bits) by (nonlinear_arith)
        requires
            a >= 1,
            bits >= 2,
    ;
    if 0 < k && k < a {
        assert(k * bits + bits <= a * bits) by (nonlinear_arith)
            requires
                k + 1 <= a,
                bits >= 2,
        ;
    }
    if k > a {
        assert(k * bits >= a * bits + bits) by (nonlinear_arith)
            requires
                k >= a + 1,
                bits >= 2,
        ;
    }
    if k > a + 1 {
        assert(k * bits >= a * bits + 2 * bits) by (nonlinear_arith)
            requires
                k >= a + 2,
                bits >= 2,
        ;
    }
    if k > 0 {
        assert(k * bits >= bits) by (nonlinear_arith)
            requires
                k >= 1,
                bits >= 2,
        ;
    }
}

/// Every index is read back from the indices without the spare bits of the
/// anchors, at the place and with the number of bits with which it is read.
#[verifier::rlimit(50)]
pub proof fn lemma_anchored_index(
    qblock: Seq<u32>,
    bits: nat,
    flips: u32,
    pairs: int,
    a1: int,
    a2: int,
    k: nat,
)
    requires
        2 <= bits,
        pairs == 2 || pairs == 3,
        1 <= a1 <= 15,
        pairs == 3 ==> 1 <= a2 <= 15 && a1 != a2,
        qblock.len() == 2,
        forall|j: int| 0 <= j < 16 ==> nibble(qblock, j) < pow2(bits),
        coded_index(qblock, bits, flips, 0) < pow2((bits - 1) as nat),
        coded_index(qblock, bits, flips, a1) < pow2((bits - 1) as nat),
        pairs == 3 ==> coded_index(qblock, bits, flips, a2) < pow2((bits - 1) as nat),
        k < 16,
    ensures
        field(
            anchored(coded_indices(qblock, bits, flips, 16), bits, pairs, a1, a2),
            read_offset(bits, pairs, a1, a2, k as int),
            read_width(bits, pairs, a1, a2, k as int),
        ) == coded_index(qblock, bits, flips, k as int),
{
    let coded = coded_indices(qblock, bits, flips, 16);
    let off = coded_offset(bits, k);
    let w = read_width(bits, pairs, a1, a2, k as int);
    let index = coded_index(qblock, bits, flips, k as int);
    lemma_coded_index_field(qblock, bits, flips, 16, k);
    if k > 0 && w < bits {
        crate::bits::lemma_short_field(coded, off, (bits - 1) as nat, 1);
        vstd::arithmetic::div_mod::lemma_small_mod(index, pow2((bits - 1) as nat));
    }
    assert(field(coded, off, w) == index);
    lemma_index_places(bits, k as int, a1);
    if pairs == 2 {
        if a1 < 15 {
            let q = spare_bit(bits, a1);
            if k <= a1 {
                lemma_field_without_bit(coded, q, off, w);
            } else {
                lemma_field_without_bit(coded, q, (off - 1) as nat, w);
            }
        }
    } else {
        lemma_index_places(bits, k as int, a2);
        let high = if a1 < a2 {
            a2
        } else {
            a1
        };
        let low = if a1 < a2 {
            a1
        } else {
            a2
        };
        let once = if high < 15 {
            without_bit(coded, spare_bit(bits, high))
        } else {
            coded
        };
        let q_high = spare_bit(bits, high);
        let q_low = spare_bit(bits, low);
        if k <= low {
            lemma_field_without_bit(once, q_low, off, w);
            if high < 15 {
                lemma_index_places(bits, low, high);
                lemma_field_without_bit(coded, q_high, off, w);
            }
        } else if k <= high {
            lemma_field_without_bit(once, q_low, (off - 1) as nat, w);
            if high < 15 {
                lemma_field_without_bit(coded, q_high, off, w);
            }
        } else {
            lemma_field_without_bit(once, q_low, (off - 2) as nat, w);
            lemma_field_without_bit(coded, q_high, (off - 1) as nat, w);
        }
    }
}

/// A number of `n` bits without one of them has `n - 1` bits.
pub proof fn lemma_without_bit_bound(u: nat, q: nat, n: nat)
    requires
        u < pow2(n),
        q < n,
    ensures
        without_bit(u, q) < pow2((n - 1) as nat),
{
    let low = u % pow2(q);
    let high = u / pow2(q + 1);
    let wide = pow2(q + 1);
    let rest = pow2((n - 1 - q) as nat);
    lemma_pow2_pos(q);
    lemma_pow2_pos(q + 1);
    lemma_pow2_adds(q + 1, (n - 1 - q) as nat);
    lemma_pow2_adds(q, (n - 1 - q) as nat);
    vstd::arithmetic::div_mod::lemma_mod_bound(u as int, pow2(q) as int);
    assert(pow2(n) == rest * wide) by (nonlinear_arith)
        requires
            pow2(n) == wide * rest,
    ;
    vstd::arithmetic::div_mod::lemma_div_by_multiple_is_strongly_ordered(
        u as int,
        pow2(n) as int,
        rest as int,
        wide as int,
    );
    vstd::arithmetic::div_mod::lemma_div_by_multiple(rest as int, wide as int);
    assert(high < rest);
    assert(low + high * pow2(q) < pow2((n - 1) as nat)) by (nonlinear_arith)
        requires
            low < pow2(q),
            high < rest,
            pow2((n - 1) as nat) == pow2(q) * rest,
    ;
}

/// The indices without the spare bits of the anchors end where the block
/// ends.
#[verifier::rlimit(50)]
pub proof fn lemma_anchored_bound(
    qblock: Seq<u32>,
    bits: nat,
    flips: u32,
    pairs: int,
    a1: int,
    a2: int,
)
    requires
        2 <= bits,
        pairs == 2 || pairs == 3,
        1 <= a1 <= 15,
        pairs == 3 ==> 1 <= a2 <= 15 && a1 != a2,
        qblock.len() == 2,
        forall|j: int| 0 <= j < 16 ==> nibble(qblock, j) < pow2(bits),
        coded_index(qblock, bits, flips, 0) < pow2((bits - 1) as nat),
        coded_index(qblock, bits, flips, a1) < pow2((bits - 1) as nat),
        pairs == 3 ==> coded_index(qblock, bits, flips, a2) < pow2((bits - 1) as nat),
    ensures
        anchored(coded_indices(qblock, bits, flips, 16), bits, pairs, a1, a2) < pow2(
            (16 * bits - pairs) as nat,
        ),
{
    let coded = coded_indices(qblock, bits, flips, 16);
    let high = if pairs == 3 && a1 < a2 {
        a2
    } else {
        a1
    };
    let low = if a1 < a2 {
        a1
    } else {
        a2
    };
    let once = if high < 15 {
        without_bit(coded, spare_bit(bits, high))
    } else {
        coded
    };
    lemma_coded_indices_bound(qblock, bits, flips, 16);
    lemma_coded_indices_bound(qblock, bits, flips, 15);
    lemma_index_places(bits, 15, high);
    lemma_coded_offset(bits, 15);
    lemma_coded_offset(bits, 16);
    let n = (16 * bits - 1) as nat;
    assert(coded < pow2(n));
    assert(once < pow2((n - 1) as nat)) by {
        if high < 15 {
            lemma_without_bit_bound(coded, spare_bit(bits, high), n);
        } else {
            let below = coded_indices(qblock, bits, flips, 15);
            let last = coded_index(qblock, bits, flips, 15);
            let place = coded_offset(bits, 15);
            lemma_pow2_adds(place, (bits - 1) as nat);
            assert(coded < pow2((n - 1) as nat)) by (nonlinear_arith)
                requires
                    coded == below + last * pow2(place),
                    below < pow2(place),
                    last < pow2((bits - 1) as nat),
                    pow2((n - 1) as nat) == pow2(place) * pow2((bits - 1) as nat),
            ;
        }
    }
    if pairs == 3 {
        lemma_index_places(bits, 15, low);
        lemma_without_bit_bound(once, spare_bit(bits, low), (n - 1) as nat);
    }
}

/// Taking the spare bits of the anchors out of a block of a partitioned mode
/// takes them out of its indices and leaves what lies below them alone.
#[verifier::rlimit(50)]
pub proof fn lemma_skips_adjusted(low: nat, coded: nat, mode: int, part_id: int)
    requires
        mode == 0 || mode == 1 || mode == 2 || mode == 3 || mode == 7,
        mode_pairs(mode) == 3 ==> 64 <= part_id < 128,
        mode_pairs(mode) == 2 ==> 0 <= part_id < 64,
        low < pow2(mode_index_start(mode) as nat),
    ensures
        skips_adjusted(low + pow2(mode_index_start(mode) as nat) * coded, mode, part_id) == low
            + pow2(mode_index_start(mode) as nat) * anchored(
            coded,
            mode_index_bits(mode) as nat,
            mode_pairs(mode),
            anchor_of(part_id, 1),
            anchor_of(part_id, 2),
        ),
{
    let pairs = mode_pairs(mode);
    let bits = mode_index_bits(mode) as nat;
    let start = mode_index_start(mode) as nat;
    let a1 = anchor_of(part_id, 1);
    let a2 = anchor_of(part_id, 2);
    crate::partition::lemma_anchor_in_subset(part_id, 1);
    lemma_index_places(bits, 0, a1);
    if pairs == 2 {
        let top = anchor_top(pairs, bits as int, a1);
        assert(top == start + spare_bit(bits, a1) + 1) by (nonlinear_arith)
            requires
                top == 128 + (pairs - 1) - (15 - a1) * bits,
                start == 128 + pairs - 16 * bits,
                spare_bit(bits, a1) == a1 * bits + bits - 2,
        ;
        if a1 < 15 {
            assert(top % 32 != 0);
            lemma_without_bit_above(low, coded, start, spare_bit(bits, a1));
        }
    } else {
        crate::partition::lemma_anchor_in_subset(part_id, 2);
        crate::partition::lemma_subset_bound(part_id, a1);
        lemma_index_places(bits, 0, a2);
        let high = if a1 < a2 {
            a2
        } else {
            a1
        };
        let low_anchor = if a1 < a2 {
            a1
        } else {
            a2
        };
        let top_high = anchor_top(pairs, bits as int, high);
        let top_low = anchor_top(pairs, bits as int, low_anchor);
        assert(top_high == start + spare_bit(bits, high) + 1) by (nonlinear_arith)
            requires
                top_high == 128 + (pairs - 1) - (15 - high) * bits,
                start == 128 + pairs - 16 * bits,
                spare_bit(bits, high) == high * bits + bits - 2,
        ;
        assert(top_low == start + spare_bit(bits, low_anchor) + 1) by (nonlinear_arith)
            requires
                top_low == 128 + (pairs - 1) - (15 - low_anchor) * bits,
                start == 128 + pairs - 16 * bits,
                spare_bit(bits, low_anchor) == low_anchor * bits + bits - 2,
        ;
        let once = if high < 15 {
            without_bit(coded, spare_bit(bits, high))
        } else {
            coded
        };
        if high < 15 {
            assert(top_high < 128 && top_high % 32 != 0);
            lemma_without_bit_above(low, coded, start, spare_bit(bits, high));
        } else {
            assert(top_high >= 128);
        }
        assert(top_low < 128 && top_low % 32 != 0);
        lemma_without_bit_above(low, once, start, spare_bit(bits, low_anchor));
    }
}

/// A field of a block: a value and the number of bits it takes.
pub struct BitField {
    pub value: u32,
    pub width: u32,
}

/// The number of bits of the first `n` fields.
pub open spec fn fields_width(f: Seq<BitField>, n: nat) -> nat
    decreases n,
{
    if n == 0 {
        0
    } else {
        fields_width(f, (n - 1) as nat) + f[n - 1].width as nat
    }
}

/// The first `n` fields, one above the other, as one number.
pub open spec fn laid_out(f: Seq<BitField>, n: nat) -> nat
    decreases n,
{
    if n == 0 {
        0
    } else {
        laid_out(f, (n - 1) as nat) + f[n - 1].value as nat * pow2(fields_width(f, (n - 1) as nat))
    }
}

/// The width of the fields grows with their number.
pub proof fn lemma_fields_width_grows(f: Seq<BitField>, i: nat, n: nat)
    requires
        i <= n,
    ensures
        fields_width(f, i) <= fields_width(f, n),
    decreases n,
{
    if i < n {
        lemma_fields_width_grows(f, i, (n - 1) as nat);
    }
}

/// Fields that fit their widths lie below the end of the last of them, and
/// each of them is read back from its place.
pub proof fn lemma_laid_out_field(f: Seq<BitField>, n: nat, i: nat)
    requires
        n <= f.len(),
        forall|j: int| 0 <= j < n ==> (#[trigger] f[j]).value < pow2(f[j].width as nat),
        i < n,
    ensures
        laid_out(f, n) < pow2(fields_width(f, n)),
        field(laid_out(f, n), fields_width(f, i), f[i as int].width as nat) == f[i as int].value,
    decreases n,
{
    let b = fields_width(f, (n - 1) as nat);
    let l = laid_out(f, (n - 1) as nat);
    let u = f[n - 1].value as nat;
    let w = f[n - 1].width as nat;
    assert(f[n - 1].value < pow2(f[n - 1].width as nat));
    if n == 1 {
        assert(l == 0);
        lemma_pow2_pos(0);
    } else {
        if i < n - 1 {
            lemma_laid_out_field(f, (n - 1) as nat, i);
        } else {
            lemma_laid_out_field(f, (n - 1) as nat, 0);
        }
    }
    assert(l < pow2(b));
    lemma_pow2_adds(b, w);
    assert(l + u * pow2(b) < pow2(b) * pow2(w)) by (nonlinear_arith)
        requires
            l < pow2(b),
            u < pow2(w),
    ;
    assert(u * pow2(b) == pow2(b) * u) by (nonlinear_arith);
    if i < n - 1 {
        lemma_fields_width_grows(f, i + 1, (n - 1) as nat);
        lemma_field_of_sum(l, u, b, fields_width(f, i), f[i as int].width as nat);
    } else {
        lemma_field_of_sum(l, u, b, 0, w);
        lemma_field_small(u, w);
    }
}

/// The number of bits of index `k` as it is written.
pub open spec fn coded_width(bits: nat, k: nat) -> nat {
    if k == 0 {
        (bits - 1) as nat
    } else {
        bits
    }
}

/// Each index is read back from the place at which it is written.
pub proof fn lemma_coded_index_field(qblock: Seq<u32>, bits: nat, flips: u32, n: nat, k: nat)
    requires
        1 <= bits,
        n <= 16,
        k < n,
        qblock.len() == 2,
        forall|j: int| 0 <= j < 16 ==> nibble(qblock, j) < pow2(bits),
        coded_index(qblock, bits, flips, 0) < pow2((bits - 1) as nat),
    ensures
        field(coded_indices(qblock, bits, flips, n), coded_offset(bits, k), coded_width(bits, k))
            == coded_index(qblock, bits, flips, k as int),
    decreases n,
{
    let b = coded_offset(bits, (n - 1) as nat);
    let l = coded_indices(qblock, bits, flips, (n - 1) as nat);
    let u = coded_index(qblock, bits, flips, n - 1);
    let w = coded_width(bits, (n - 1) as nat);
    lemma_coded_indices_bound(qblock, bits, flips, (n - 1) as nat);
    lemma_pow2_values();
    assert(nibble(qblock, n - 1) < pow2(bits));
    assert(u < pow2(w));
    assert(u * pow2(b) == pow2(b) * u) by (nonlinear_arith);
    if k < n - 1 {
        lemma_coded_index_field(qblock, bits, flips, (n - 1) as nat, k);
        if k == 0 {
            lemma_coded_offset(bits, (n - 1) as nat);
            assert(bits - 1 <= b) by (nonlinear_arith)
                requires
                    b == (n - 1) * bits - 1,
                    n - 1 >= 1,
                    bits >= 1,
            ;
        } else {
            lemma_coded_offset(bits, k);
            lemma_coded_offset(bits, (n - 1) as nat);
            assert(k * bits - 1 + bits <= (n - 1) * bits - 1) by (nonlinear_arith)
                requires
                    k + 1 <= n - 1,
                    bits >= 1,
            ;
        }
        lemma_field_of_sum(l, u, b, coded_offset(bits, k), coded_width(bits, k));
    } else {
        lemma_field_of_sum(l, u, b, 0, w);
        lemma_field_small(u, w);
    }
}

/// Whether the endpoints of subset `j` change places: the index of its anchor
/// has its top bit set.
pub open spec fn subset_swapped(qblock: Seq<u32>, mode: int, part_id: int, j: int) -> bool {
    nibble(qblock, anchor_of(part_id, j)) >= pow2((mode_index_bits(mode) - 1) as nat)
}

/// The pixels whose indices are counted from the other end: those of the
/// first `n` subsets whose endpoints change places.
pub open spec fn swap_flips(qblock: Seq<u32>, mode: int, part_id: int, n: nat) -> u32
    decreases n,
{
    if n == 0 {
        0
    } else {
        let below = swap_flips(qblock, mode, part_id, (n - 1) as nat);
        if subset_swapped(qblock, mode, part_id, n - 1) {
            below | (pattern_mask(part_id, n - 1) as u32)
        } else {
            below
        }
    }
}

/// Lets the two endpoints of every subset change places whose anchor has an
/// index with its top bit set, and hands out the pixels of those subsets as
/// a mask.
pub fn bc7_code_apply_swap_mode01237(
    qep: &mut [i32; 24],
    qblock: [u32; 2],
    mode: usize,
    part_id: i32,
) -> (flips: u32)
    requires
        0 <= part_id < 128,
    ensures
        flips == swap_flips(qblock@, mode as int, part_id as int, mode_pairs(mode as int) as nat),
        forall|j: int, p: int|
            0 <= j < mode_pairs(mode as int) && 0 <= p < 4 ==> #[trigger] final(qep)@[8 * j + p]
                == (if subset_swapped(qblock@, mode as int, part_id as int, j) {
                old(qep)@[8 * j + 4 + p]
            } else {
                old(qep)@[8 * j + p]
            }),
        forall|j: int, p: int|
            0 <= j < mode_pairs(mode as int) && 0 <= p < 4 ==> #[trigger] final(qep)@[8 * j + 4
                + p] == (if subset_swapped(qblock@, mode as int, part_id as int, j) {
                old(qep)@[8 * j + p]
            } else {
                old(qep)@[8 * j + 4 + p]
            }),
        forall|i: int|
            8 * mode_pairs(mode as int) <= i < 24 ==> #[trigger] final(qep)@[i] == old(qep)@[i],
{
    let bits: u32 = if mode == 0 || mode == 1 {
        3
    } else {
        2
    };
    let pairs: usize = if mode == 0 || mode == 2 {
        3
    } else {
        2
    };
    proof {
        lemma_pow2_values();
    }
    let half: u32 = if bits == 1 {
        1
    } else if bits == 2 {
        2
    } else if bits == 3 {
        4
    } else {
        8
    };
    let skips = get_skips(part_id);
    let mut flips: u32 = 0;
    let mut j: usize = 0;
    while j < pairs
        invariant
            0 <= part_id < 128,
            bits == mode_index_bits(mode as int),
            pairs == mode_pairs(mode as int),
            half == pow2((bits - 1) as nat),
            j <= pairs,
            forall|s: int| 0 <= s < 3 ==> skips@[s] == anchor_of(part_id as int, s),
            forall|s: int| 0 <= s < 3 ==> skips@[s] < 16,
            flips == swap_flips(qblock@, mode as int, part_id as int, j as nat),
            forall|i: int, p: int|
                0 <= i < j && 0 <= p < 4 ==> #[trigger] qep@[8 * i + p] == (if subset_swapped(
                    qblock@,
                    mode as int,
                    part_id as int,
                    i,
                ) {
                    old(qep)@[8 * i + 4 + p]
                } else {
                    old(qep)@[8 * i + p]
                }),
            forall|i: int, p: int|
                0 <= i < j && 0 <= p < 4 ==> #[trigger] qep@[8 * i + 4 + p] == (if subset_swapped(
                    qblock@,
                    mode as int,
                    part_id as int,
                    i,
                ) {
                    old(qep)@[8 * i + p]
                } else {
                    old(qep)@[8 * i + 4 + p]
                }),
            forall|i: int| 8 * j <= i < 24 ==> #[trigger] qep@[i] == old(qep)@[i],
        decreases pairs - j,
    {
        let k0 = skips[j] as usize;
        let q = get_nibble(&qblock, k0);
        let ghost before = qep@;
        if q >= half {
            let mut p: usize = 0;
            while p < 4
                invariant
                    j < 3,
                    p <= 4,
                    forall|i: int|
                        0 <= i < 24 ==> #[trigger] qep@[i] == (if 8 * j <= i < 8 * j + p {
                            before[i + 4]
                        } else if 8 * j + 4 <= i < 8 * j + 4 + p {
                            before[i - 4]
                        } else {
                            before[i]
                        }),
                decreases 4 - p,
            {
                let first = qep[8 * j + p];
                let second = qep[8 * j + 4 + p];
                qep[8 * j + p] = second;
                qep[8 * j + 4 + p] = first;
                p = p + 1;
            }
            flips = flips | get_pattern_mask(part_id, j as u32);
        }
        proof {
            assert forall|i: int, p: int| 0 <= i < j + 1 && 0 <= p < 4 implies #[trigger] qep@[8 * i
                + p] == (if subset_swapped(qblock@, mode as int, part_id as int, i) {
                old(qep)@[8 * i + 4 + p]
            } else {
                old(qep)@[8 * i + p]
            }) by {
                if i < j {
                    assert(qep@[8 * i + p] == before[8 * i + p]);
                }
            }
            assert forall|i: int, p: int| 0 <= i < j + 1 && 0 <= p < 4 implies #[trigger] qep@[8 * i
                + 4 + p] == (if subset_swapped(qblock@, mode as int, part_id as int, i) {
                old(qep)@[8 * i + p]
            } else {
                old(qep)@[8 * i + 4 + p]
            }) by {
                if i < j {
                    assert(qep@[8 * i + 4 + p] == before[8 * i + 4 + p]);
                }
            }
        }
        j = j + 1;
    }
    flips
}

/// Whether `s` is in ascending order on its first `n` places.
pub open spec fn sorted_prefix(s: Seq<i32>, n: int) -> bool {
    forall|i: int, j: int| 0 <= i <= j < n ==> s[i] <= s[j]
}

/// The first place from `from` up to `to` that holds the least of the
/// entries at those places.
pub open spec fn first_least(s: Seq<i32>, from: int, to: int) -> int
    decreases to - from,
{
    if to <= from + 1 {
        from
    } else {
        let before = first_least(s, from, to - 1);
        if s[to - 1] < s[before] {
            to - 1
        } else {
            before
        }
    }
}

/// `s` after the least of its entries from place `k` up to `length`, the
/// first of them where there are several, has changed places with the entry
/// at place `k`, for every `k` below `count` in turn.
pub open spec fn selected(s: Seq<i32>, length: int, count: nat) -> Seq<i32>
    decreases count,
{
    if count == 0 {
        s
    } else {
        let t = selected(s, length, (count - 1) as nat);
        let least = first_least(t, count - 1, length);
        t.update(count - 1, t[least]).update(least, t[count - 1])
    }
}

/// Brings the `partial_count` least of the first `length` entries of `list`
/// to its front, in ascending order; each takes the place of the entry that
/// stood there.
pub fn partial_sort_list(list: &mut [i32], length: usize, partial_count: u32)
    requires
        length <= old(list)@.len(),
        partial_count <= length,
    ensures
        final(list)@.len() == old(list)@.len(),
        final(list)@.to_multiset() == old(list)@.to_multiset(),
        sorted_prefix(final(list)@, partial_count as int),
        forall|i: int, j: int|
            0 <= i < partial_count && partial_count <= j < length ==> final(list)@[i] <= final(list)@[j],
        forall|i: int| length <= i < old(list)@.len() ==> final(list)@[i] == old(list)@[i],
        final(list)@ == selected(old(list)@, length as int, partial_count as nat),
{
    let count = partial_count as usize;
    let mut k: usize = 0;
    while k < count
        invariant
            k <= count <= length <= list@.len(),
            list@.len() == old(list)@.len(),
            list@.to_multiset() == old(list)@.to_multiset(),
            sorted_prefix(list@, k as int),
            forall|i: int, j: int| 0 <= i < k && k <= j < length ==> list@[i] <= list@[j],
            forall|i: int| length <= i < list@.len() ==> list@[i] == old(list)@[i],
            list@ == selected(old(list)@, length as int, k as nat),
        decreases count - k,
    {
        let mut best_idx = k;
        let mut best_value = list[k];
        let mut i = k + 1;
        while i < length
            invariant
                k < length <= list@.len(),
                k < i <= length,
                k <= best_idx < i,
                best_value == list@[best_idx as int],
                forall|j: int| k <= j < i ==> best_value <= list@[j],
                best_idx == first_least(list@, k as int, i as int),
            decreases length - i,
        {
            if best_value > list[i] {
                best_value = list[i];
                best_idx = i;
            }
            i = i + 1;
        }
        let ghost before = list@;
        let first = list[k];
        list[k] = best_value;
        list[best_idx] = first;
        proof {
            let mid = before.update(k as int, best_value);
            vstd::seq_lib::to_multiset_update(before, k as int, best_value);
            vstd::seq_lib::to_multiset_update(mid, best_idx as int, first);
            assert(list@ == mid.update(best_idx as int, first));
            assert(list@ == selected(old(list)@, length as int, (k + 1) as nat));
            before.to_multiset_ensures();
            assert(before.contains(first)) by {
                assert(before[k as int] == first);
            }
            assert(mid[best_idx as int] == best_value);
            assert(list@.to_multiset() =~= before.to_multiset());
            assert forall|a: int, b: int| 0 <= a <= b < k + 1 implies list@[a] <= list@[b] by {
                if b < k {
                    assert(list@[a] == before[a] && list@[b] == before[b]);
                } else if a < k {
                    assert(list@[a] == before[a]);
                    assert(before[a] <= before[best_idx as int]);
                }
            }
            assert forall|a: int, b: int| 0 <= a < k + 1 && k + 1 <= b < length implies list@[a]
                <= list@[b] by {
                if b == best_idx {
                    assert(list@[b] == before[k as int]);
                } else {
                    assert(list@[b] == before[b]);
                }
                if a < k {
                    assert(list@[a] == before[a]);
                }
            }
        }
        k = k + 1;
    }
}

} // verus!
