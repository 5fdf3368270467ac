//! Bit fields of natural numbers, and the little-endian reading of bytes.
use vstd::arithmetic::div_mod::{lemma_div_denominator, lemma_fundamental_div_mod_converse};
use vstd::arithmetic::power2::{lemma2_to64, lemma_pow2_adds, lemma_pow2_pos, pow2};
use vstd::prelude::*;

verus! {

/// The `n` bits of `v` that start at bit `pos`, read as a number.
pub open spec fn field(v: nat, pos: nat, n: nat) -> nat {
    (v / pow2(pos)) % pow2(n)
}

/// The number whose little-endian bytes are `s[at]`, ..., `s[at + 3]`.
pub open spec fn le32(s: Seq<u8>, at: int) -> nat {
    s[at] as nat + s[at + 1] as nat * 0x100 + s[at + 2] as nat * 0x1_0000 + s[at + 3] as nat
        * 0x100_0000
}

/// The number whose little-endian bytes are `s[at]`, ..., `s[at + 7]`.
pub open spec fn le64(s: Seq<u8>, at: int) -> nat {
    le32(s, at) + le32(s, at + 4) * 0x1_0000_0000
}

/// The 128-bit number that the first sixteen bytes of `s` spell, little-endian.
pub open spec fn block_value(s: Seq<u8>) -> nat {
    le64(s, 0) + le64(s, 8) * 0x1_0000_0000_0000_0000
}

/// Dropping `a` low bits and then `b` more drops `a + b` bits.
pub proof fn lemma_drop_drop(v: nat, a: nat, b: nat)
    ensures
        (v / pow2(a)) / pow2(b) == v / pow2(a + b),
{
    lemma_pow2_pos(a);
    lemma_pow2_pos(b);
    lemma_pow2_adds(a, b);
    lemma_div_denominator(v as int, pow2(a) as int, pow2(b) as int);
}

/// A field lies below `2^n`.
pub proof fn lemma_field_bound(v: nat, pos: nat, n: nat)
    ensures
        field(v, pos, n) < pow2(n),
{
    lemma_pow2_pos(n);
    vstd::arithmetic::div_mod::lemma_mod_bound((v / pow2(pos)) as int, pow2(n) as int);
}

/// A number written as `q * d + r` with `r < d` has quotient `q` and remainder `r`.
pub proof fn lemma_div_mod_of_sum(q: nat, d: nat, r: nat)
    requires
        r < d,
    ensures
        (q * d + r) / d == q,
        (q * d + r) % d == r,
{
    lemma_fundamental_div_mod_converse((q * d + r) as int, d as int, q as int, r as int);
}

/// The values of the powers of two that the block formats use.
pub proof fn lemma_pow2_values()
    ensures
        pow2(0) == 1,
        pow2(1) == 2,
        pow2(2) == 4,
        pow2(3) == 8,
        pow2(4) == 16,
        pow2(5) == 32,
        pow2(6) == 64,
        pow2(7) == 128,
        pow2(8) == 256,
        pow2(9) == 512,
        pow2(10) == 1024,
        pow2(11) == 2048,
        pow2(12) == 4096,
        pow2(13) == 8192,
        pow2(14) == 16384,
        pow2(15) == 32768,
        pow2(16) == 65536,
        pow2(32) == 0x1_0000_0000,
        pow2(64) == 0x1_0000_0000_0000_0000,
{
    lemma2_to64();
}

/// The first `n` of the numbers `vals`, `width` bits each and one above the
/// other, as one number.
pub open spec fn run_value(vals: Seq<nat>, width: nat, n: nat) -> nat
    decreases n,
{
    if n == 0 {
        0
    } else {
        run_value(vals, width, (n - 1) as nat) + vals[n - 1] * pow2(((n - 1) * width) as nat)
    }
}

/// A number below `2^b` with a multiple of `2^b` added keeps its bits below
/// bit `b`; the bits from `b` on are those of the multiplier.
pub proof fn lemma_field_of_sum(l: nat, u: nat, b: nat, pos: nat, n: nat)
    requires
        l < pow2(b),
    ensures
        pos + n <= b ==> field(l + pow2(b) * u, pos, n) == field(l, pos, n),
        field(l + pow2(b) * u, b + pos, n) == field(u, pos, n),
{
    let v = l + pow2(b) * u;
    lemma_pow2_pos(b);
    lemma_pow2_pos(pos);
    lemma_pow2_pos(n);
    // the upper part
    assert(v / pow2(b + pos) == u / pow2(pos)) by {
        lemma_pow2_adds(b, pos);
        let pq = pow2(pos);
        let uq = u / pq;
        let ur = u % pq;
        vstd::arithmetic::div_mod::lemma_fundamental_div_mod(u as int, pq as int);
        vstd::arithmetic::div_mod::lemma_mod_bound(u as int, pq as int);
        let r = l + pow2(b) * ur;
        assert(r < pow2(b) * pq) by (nonlinear_arith)
            requires
                r == l + pow2(b) * ur,
                l < pow2(b),
                ur < pq,
        ;
        assert(v == uq * (pow2(b) * pq) + r) by (nonlinear_arith)
            requires
                v == l + pow2(b) * u,
                u == pq * uq + ur,
                r == l + pow2(b) * ur,
        ;
        lemma_div_mod_of_sum(uq, pow2(b) * pq, r);
    }
    if pos + n <= b {
        // the lower part: v = l + 2^pos * (2^(b - pos) * u)
        let rest = (b - pos) as nat;
        lemma_pow2_adds(pos, rest);
        lemma_pow2_adds(n, (rest - n) as nat);
        let lq = l / pow2(pos);
        let lr = l % pow2(pos);
        vstd::arithmetic::div_mod::lemma_fundamental_div_mod(l as int, pow2(pos) as int);
        vstd::arithmetic::div_mod::lemma_mod_bound(l as int, pow2(pos) as int);
        let m = pow2(rest) * u;
        assert(v == (lq + m) * pow2(pos) + lr) by (nonlinear_arith)
            requires
                v == l + pow2(b) * u,
                pow2(b) == pow2(pos) * pow2(rest),
                l == pow2(pos) * lq + lr,
                m == pow2(rest) * u,
        ;
        lemma_div_mod_of_sum(lq + m, pow2(pos), lr);
        assert(v / pow2(pos) == lq + m);
        let k = pow2((rest - n) as nat) * u;
        assert(m == k * pow2(n)) by (nonlinear_arith)
            requires
                m == pow2(rest) * u,
                pow2(rest) == pow2(n) * pow2((rest - n) as nat),
                k == pow2((rest - n) as nat) * u,
        ;
        vstd::arithmetic::div_mod::lemma_mod_multiples_vanish(k as int, lq as int, pow2(n) as int);
        assert(lq + m == pow2(n) * k + lq) by (nonlinear_arith)
            requires
                m == k * pow2(n),
        ;
    }
}

/// A run of numbers that fit their width lies below the end of the run, and
/// each of them is read back from its place.
pub proof fn lemma_run_value(vals: Seq<nat>, width: nat, n: nat, k: nat)
    requires
        n <= vals.len(),
        forall|i: int| 0 <= i < n ==> #[trigger] vals[i] < pow2(width),
        k < n,
    ensures
        run_value(vals, width, n) < pow2((n * width) as nat),
        field(run_value(vals, width, n), (k * width) as nat, width) == vals[k as int],
    decreases n,
{
    let b = ((n - 1) * width) as nat;
    let l = run_value(vals, width, (n - 1) as nat);
    let u = vals[n - 1];
    assert((n - 1) * width >= 0 && n * width == (n - 1) * width + width) by (nonlinear_arith)
        requires
            n >= 1,
    ;
    if n == 1 {
        assert(l == 0);
        lemma_pow2_pos(0);
    } else {
        if k < n - 1 {
            lemma_run_value(vals, width, (n - 1) as nat, k);
        } else {
            lemma_run_value(vals, width, (n - 1) as nat, 0);
        }
    }
    assert(l < pow2(b));
    lemma_pow2_adds(b, width);
    assert(l + u * pow2(b) < pow2(b) * pow2(width)) by (nonlinear_arith)
        requires
            l < pow2(b),
            u < pow2(width),
    ;
    assert(u * pow2(b) == pow2(b) * u) by (nonlinear_arith);
    if k < n - 1 {
        assert(k * width + width <= b) by (nonlinear_arith)
            requires
                k + 1 <= n - 1,
                b == (n - 1) * width,
        ;
        lemma_field_of_sum(l, u, b, (k * width) as nat, width);
    } else {
        lemma_field_of_sum(l, u, b, 0, width);
        lemma_pow2_values();
        vstd::arithmetic::div_mod::lemma_small_mod(u, pow2(width));
        assert(field(u, 0, width) == u);
    }
}

/// The four bytes of a word, as fields of it.
pub proof fn lemma_word_bytes(v: nat)
    requires
        v < 0x1_0000_0000,
    ensures
        field(v, 0, 8) == v % 256,
        field(v, 8, 8) == (v / 256) % 256,
        field(v, 16, 8) == (v / 65536) % 256,
        field(v, 24, 8) == v / 0x100_0000,
        v == field(v, 0, 8) + field(v, 8, 8) * 0x100 + field(v, 16, 8) * 0x1_0000 + field(v, 24, 8)
            * 0x100_0000,
{
    lemma_pow2_values();
    lemma2_to64();
    let p0 = pow2(0);
    let p8 = pow2(8);
    let p16 = pow2(16);
    let p24 = pow2(24);
    assert(v / p0 == v) by (nonlinear_arith)
        requires
            p0 == 1,
    ;
    assert(v / p8 == v / 256 && v / p16 == v / 65536 && v / p24 == v / 0x100_0000)
        by (nonlinear_arith)
        requires
            p8 == 256,
            p16 == 65536,
            p24 == 0x100_0000,
    ;
    assert((v / p0) % p8 == v % 256 && (v / p8) % p8 == (v / 256) % 256 && (v / p16) % p8 == (v
        / 65536) % 256 && (v / p24) % p8 == (v / 0x100_0000) % 256) by (nonlinear_arith)
        requires
            p8 == 256,
            v / p0 == v,
            v / p8 == v / 256,
            v / p16 == v / 65536,
            v / p24 == v / 0x100_0000,
    ;
}

/// A number below `2^n` is its own low `n` bits.
pub proof fn lemma_field_small(x: nat, n: nat)
    requires
        x < pow2(n),
    ensures
        field(x, 0, n) == x,
{
    lemma_pow2_values();
    let p0 = pow2(0);
    assert(x / p0 == x) by (nonlinear_arith)
        requires
            p0 == 1,
    ;
    vstd::arithmetic::div_mod::lemma_small_mod(x, pow2(n));
}

/// Reads eight bytes of `data`, from `at` on, as one little-endian number.
pub fn load_le64(data: &[u8], at: usize) -> (r: u64)
    requires
        at + 8 <= data@.len(),
    ensures
        r == le64(data@, at as int),
{
    let a: u64 = data[at] as u64 + data[at + 1] as u64 * 0x100 + data[at + 2] as u64 * 0x1_0000
        + data[at + 3] as u64 * 0x100_0000;
    let b: u64 = data[at + 4] as u64 + data[at + 5] as u64 * 0x100 + data[at + 6] as u64
        * 0x1_0000 + data[at + 7] as u64 * 0x100_0000;
    a + b * 0x1_0000_0000
}

/// A field at its place is what lies below its end without what lies below
/// its start.
pub proof fn lemma_field_as_difference(v: nat, pos: nat, n: nat)
    ensures
        field(v, pos, n) * pow2(pos) == v % pow2(pos + n) - v % pow2(pos),
{
    let pp = pow2(pos);
    let pn = pow2(n);
    lemma_pow2_pos(pos);
    lemma_pow2_pos(n);
    lemma_pow2_adds(pos, n);
    let q = v / pp;
    let r = v % pp;
    let f = q % pn;
    let h = q / pn;
    vstd::arithmetic::div_mod::lemma_fundamental_div_mod(v as int, pp as int);
    vstd::arithmetic::div_mod::lemma_fundamental_div_mod(q as int, pn as int);
    vstd::arithmetic::div_mod::lemma_mod_bound(v as int, pp as int);
    vstd::arithmetic::div_mod::lemma_mod_bound(q as int, pn as int);
    let low = f * pp + r;
    assert(low < pp * pn) by (nonlinear_arith)
        requires
            low == f * pp + r,
            r < pp,
            f < pn,
    ;
    assert(v == h * (pp * pn) + low) by (nonlinear_arith)
        requires
            v == pp * q + r,
            q == pn * h + f,
            low == f * pp + r,
    ;
    lemma_div_mod_of_sum(h, pp * pn, low);
}

/// Bit `k` of a word as the shift and the mask give it.
pub proof fn lemma_bit_is_shift(w: u32, k: u32)
    requires
        k < 32,
    ensures
        field(w as nat, k as nat, 1) == (w >> k) & 1u32,
{
    vstd::bits::lemma_u32_shr_is_div(w, k);
    vstd::bits::lemma_u32_low_bits_mask_is_mod(w >> k, 1);
    vstd::arithmetic::power2::lemma2_to64();
    assert(vstd::bits::low_bits_mask(1) == 1) by {
        vstd::bits::lemma_low_bits_mask_values();
    }
}

/// The low `n` bits of a wider field are the field of `n` bits at its place.
pub proof fn lemma_short_field(v: nat, pos: nat, n: nat, more: nat)
    ensures
        field(v, pos, n) == field(v, pos, n + more) % pow2(n),
{
    lemma_pow2_pos(n);
    lemma_pow2_pos(more);
    lemma_pow2_adds(n, more);
    vstd::arithmetic::div_mod::lemma_mod_mod(
        (v / pow2(pos)) as int,
        pow2(n) as int,
        pow2(more) as int,
    );
}

/// A number below `2^pos` has no bit set at `pos` or above.
pub proof fn lemma_field_above(v: nat, pos: nat, n: nat)
    requires
        v < pow2(pos),
    ensures
        field(v, pos, n) == 0,
{
    lemma_pow2_pos(pos);
    lemma_pow2_pos(n);
    vstd::arithmetic::div_mod::lemma_basic_div(v as int, pow2(pos) as int);
    vstd::arithmetic::div_mod::lemma_small_mod(0, pow2(n));
}

/// A field of `a + b` bits is its low `a` bits and, above them, the field of
/// `b` bits that follows.
pub proof fn lemma_field_split(v: nat, pos: nat, a: nat, b: nat)
    ensures
        field(v, pos, a + b) == field(v, pos, a) + pow2(a) * field(v, pos + a, b),
{
    lemma_pow2_pos(pos);
    lemma_pow2_pos(a);
    lemma_pow2_pos(b);
    lemma_pow2_adds(a, b);
    lemma_drop_drop(v, pos, a);
    vstd::arithmetic::div_mod::lemma_mod_breakdown(
        (v / pow2(pos)) as int,
        pow2(a) as int,
        pow2(b) as int,
    );
}

/// A number of `n` bits whose field at `pos` is empty has room for any value
/// that fits the field: with the value added at `pos` it still has `n` bits.
pub proof fn lemma_room_in_field(x: nat, pos: nat, k: nat, value: nat, n: nat)
    requires
        x < pow2(n),
        pos + k <= n,
        field(x, pos, k) == 0,
        value < pow2(k),
    ensures
        x + value * pow2(pos) < pow2(n),
{
    let end = pow2(pos + k);
    let rest = pow2((n - pos - k) as nat);
    let start = pow2(pos);
    lemma_pow2_pos(pos);
    lemma_pow2_pos(pos + k);
    lemma_pow2_adds(pos, k);
    lemma_pow2_adds(pos + k, (n - pos - k) as nat);
    lemma_field_as_difference(x, pos, k);
    vstd::arithmetic::div_mod::lemma_fundamental_div_mod(x as int, end as int);
    vstd::arithmetic::div_mod::lemma_mod_bound(x as int, start as int);
    let q = x / end;
    let r = x % end;
    assert(r == x % start);
    assert(q < rest) by (nonlinear_arith)
        requires
            x == end * q + r,
            x < end * rest,
            r >= 0,
            end > 0,
    ;
    assert(x + value * start < end * rest) by (nonlinear_arith)
        requires
            x == end * q + r,
            q < rest,
            r < start,
            value < pow2(k),
            end == start * pow2(k),
            start > 0,
    ;
}

/// A value added at an empty field is read back from it, and every field
/// that lies below or above it is as before.
pub proof fn lemma_field_written(x: nat, pos: nat, n: nat, value: nat, at: nat, k: nat)
    requires
        field(x, pos, n) == 0,
        value < pow2(n),
    ensures
        field(x + value * pow2(pos), pos, n) == value,
        at + k <= pos ==> field(x + value * pow2(pos), at, k) == field(x, at, k),
        at >= pos + n ==> field(x + value * pow2(pos), at, k) == field(x, at, k),
{
    let low = x % pow2(pos);
    let rest = x / pow2(pos);
    let high = rest / pow2(n);
    let written = value + pow2(n) * high;
    lemma_pow2_pos(pos);
    lemma_pow2_pos(n);
    vstd::arithmetic::div_mod::lemma_fundamental_div_mod(x as int, pow2(pos) as int);
    vstd::arithmetic::div_mod::lemma_mod_bound(x as int, pow2(pos) as int);
    vstd::arithmetic::div_mod::lemma_fundamental_div_mod(rest as int, pow2(n) as int);
    assert(x == low + pow2(pos) * rest);
    assert(rest == 0 + pow2(n) * high);
    let y = x + value * pow2(pos);
    assert(y == low + pow2(pos) * written) by (nonlinear_arith)
        requires
            y == x + value * pow2(pos),
            x == low + pow2(pos) * rest,
            rest == pow2(n) * high,
            written == value + pow2(n) * high,
    ;
    lemma_field_of_sum(low, written, pos, 0, n);
    lemma_field_of_sum(value, high, n, 0, n);
    lemma_field_small(value, n);
    if at + k <= pos {
        lemma_field_of_sum(low, written, pos, at, k);
        lemma_field_of_sum(low, rest, pos, at, k);
    }
    if at >= pos + n {
        let above = (at - pos - n) as nat;
        lemma_field_of_sum(low, written, pos, n + above, k);
        lemma_field_of_sum(low, rest, pos, n + above, k);
        lemma_field_of_sum(value, high, n, above, k);
        lemma_field_of_sum(0, high, n, above, k);
    }
}

} // verus!
