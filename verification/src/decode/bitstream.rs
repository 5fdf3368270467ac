//! A reader of the 128 bits of one block, lowest bit first.
use crate::bits::{block_value, field, lemma_div_mod_of_sum, lemma_pow2_values, load_le64};
use vstd::arithmetic::power2::{lemma_pow2_adds, lemma_pow2_pos, pow2};
use vstd::prelude::*;

verus! {

/// The bits of a block that have not been read yet, held as two 64-bit halves.
#[derive(Debug, Clone, Copy)]
pub struct BitStream {
    low: u64,
    high: u64,
}

impl View for BitStream {
    type V = nat;

    /// The unread bits as one number: the next bit to be read is its lowest bit.
    closed spec fn view(&self) -> nat {
        self.low as nat + self.high as nat * 0x1_0000_0000_0000_0000
    }
}

proof fn lemma_mask_ops(x: u64, n: u32)
    requires
        1 <= n <= 32,
    ensures
        (1u64 << n) == pow2(n as nat),
        2 <= pow2(n as nat) <= 0x1_0000_0000,
        x & (((1u64 << n) - 1) as u64) == x as nat % pow2(n as nat),
        x >> n == x as nat / pow2(n as nat),
        (1u64 << ((64 - n) as u32)) == pow2((64 - n) as nat),
        pow2(n as nat) * pow2((64 - n) as nat) == 0x1_0000_0000_0000_0000,
{
    lemma_pow2_values();
    lemma_one_shl(n);
    lemma_one_shl((64 - n) as u32);
    lemma_pow2_adds(n as nat, (64 - n) as nat);
    if n < 32 {
        vstd::arithmetic::power2::lemma_pow2_strictly_increases(n as nat, 32);
    }
    if n > 1 {
        vstd::arithmetic::power2::lemma_pow2_strictly_increases(1, n as nat);
    }
    vstd::bits::lemma_u64_shr_is_div(x, n as u64);
    vstd::bits::lemma_u64_low_bits_mask_is_mod(x, n as nat);
    assert(x >> n == x >> (n as u64)) by (bit_vector);
}

proof fn lemma_splice(lq: u64, hr: u64, n: u32)
    by (bit_vector)
    requires
        1 <= n <= 32,
        lq <= u64::MAX >> n,
        hr < (1u64 << n),
    ensures
        lq | (hr << ((64 - n) as u32)) == lq + hr * (1u64 << ((64 - n) as u32)),
{
}

/// The low `n` bits of `x` in reverse order: bit `k` of `x` becomes bit `n - 1 - k`.
pub open spec fn reversed(x: nat, n: nat) -> nat
    decreases n,
{
    if n == 0 {
        0
    } else {
        2 * reversed(x, (n - 1) as nat) + field(x, (n - 1) as nat, 1)
    }
}

/// Reversed bits lie below `2^n`.
pub proof fn lemma_reversed_bound(x: nat, n: nat)
    ensures
        reversed(x, n) < pow2(n),
    decreases n,
{
    lemma_pow2_values();
    if n > 0 {
        lemma_reversed_bound(x, (n - 1) as nat);
        crate::bits::lemma_field_bound(x, (n - 1) as nat, 1);
        vstd::arithmetic::power2::lemma_pow2_unfold(n);
    }
}

/// The low `n` bits of `x` in reverse order, told from the lowest bit: the
/// lowest bit goes on top of the reversed rest.
pub proof fn lemma_reversed_from_below(x: nat, n: nat)
    requires
        n >= 1,
    ensures
        reversed(x, n) == (x % 2) * pow2((n - 1) as nat) + reversed(x / 2, (n - 1) as nat),
    decreases n,
{
    lemma_pow2_values();
    if n == 1 {
        assert(reversed(x, 0) == 0 && reversed(x / 2, 0) == 0);
        assert(field(x, 0, 1) == x % 2) by {
            let p0 = pow2(0);
            assert(x / p0 == x) by (nonlinear_arith)
                requires
                    p0 == 1,
            ;
        }
        assert((x % 2) * pow2(0) == x % 2) by (nonlinear_arith)
            requires
                pow2(0) == 1,
        ;
    } else {
        lemma_reversed_from_below(x, (n - 1) as nat);
        // reversed(x, n) = 2 * reversed(x, n - 1) + bit (n - 1) of x
        let b = field(x, (n - 1) as nat, 1);
        assert(b == field(x / 2, (n - 2) as nat, 1)) by {
            crate::bits::lemma_drop_drop(x, 1, (n - 2) as nat);
        }
        vstd::arithmetic::power2::lemma_pow2_unfold((n - 1) as nat);
        let r = reversed(x / 2, (n - 2) as nat);
        let p = pow2((n - 2) as nat);
        assert(2 * ((x % 2) * p + r) + b == (x % 2) * (2 * p) + (2 * r + b)) by (nonlinear_arith);
    }
}

/// Reversing the low `n` bits twice gives them back.
pub proof fn lemma_reversed_twice(x: nat, n: nat)
    requires
        x < pow2(n),
    ensures
        reversed(reversed(x, n), n) == x,
    decreases n,
{
    lemma_pow2_values();
    if n > 0 {
        let top = field(x, (n - 1) as nat, 1);
        let rest = x % pow2((n - 1) as nat);
        vstd::arithmetic::power2::lemma_pow2_unfold(n);
        vstd::arithmetic::power2::lemma_pow2_pos((n - 1) as nat);
        // x = top * 2^(n - 1) + rest
        vstd::arithmetic::div_mod::lemma_fundamental_div_mod(x as int, pow2((n - 1) as nat) as int);
        vstd::arithmetic::div_mod::lemma_mod_bound(x as int, pow2((n - 1) as nat) as int);
        let q = x / pow2((n - 1) as nat);
        assert(q < 2) by (nonlinear_arith)
            requires
                x == pow2((n - 1) as nat) * q + rest,
                x < 2 * pow2((n - 1) as nat),
                pow2((n - 1) as nat) > 0,
                rest >= 0,
        ;
        vstd::arithmetic::div_mod::lemma_small_mod(q, 2);
        assert(top == q);
        // reversed(x, n) = 2 * reversed(x, n - 1) + top, and reversed(x, n - 1) looks at rest only
        lemma_reversed_low_bits(x, rest, (n - 1) as nat, (n - 1) as nat);
        let y = reversed(x, n);
        let inner = reversed(rest, (n - 1) as nat);
        assert(y == 2 * inner + top);
        lemma_reversed_bound(rest, (n - 1) as nat);
        lemma_reversed_from_below(y, n);
        assert(y % 2 == top && y / 2 == inner);
        lemma_reversed_twice(rest, (n - 1) as nat);
        assert(top * pow2((n - 1) as nat) == pow2((n - 1) as nat) * q) by (nonlinear_arith)
            requires
                top == q,
        ;
    }
}

/// The reversed low `k` bits of a number depend on its low `n` bits only,
/// where `k` is at most `n`.
pub proof fn lemma_reversed_low_bits(x: nat, rest: nat, n: nat, k: nat)
    requires
        rest == x % pow2(n),
        k <= n,
    ensures
        reversed(x, k) == reversed(rest, k),
    decreases k,
{
    if k > 0 {
        lemma_reversed_low_bits(x, rest, n, (k - 1) as nat);
        // bit k - 1 of x is bit k - 1 of rest
        let pos = (k - 1) as nat;
        vstd::arithmetic::power2::lemma_pow2_pos(n);
        vstd::arithmetic::div_mod::lemma_fundamental_div_mod(x as int, pow2(n) as int);
        vstd::arithmetic::div_mod::lemma_mod_bound(x as int, pow2(n) as int);
        let q = x / pow2(n);
        assert(x == rest + pow2(n) * q);
        crate::bits::lemma_field_of_sum(rest, q, n, pos, 1);
    }
}

/// The signed 32-bit number whose two's complement bit pattern is `r`.
pub open spec fn signed32(r: nat) -> int {
    if r < 0x8000_0000 {
        r as int
    } else {
        r - 0x1_0000_0000
    }
}

proof fn lemma_truncate(x: u32)
    by (bit_vector)
    ensures
        x < 0x8000_0000 ==> (x as i32) == x,
        x >= 0x8000_0000 ==> (x as i32) == x - 0x1_0000_0000,
{
}

proof fn lemma_shr_bound(x: u64, n: u32)
    by (bit_vector)
    requires
        1 <= n <= 32,
    ensures
        x >> n <= u64::MAX >> n,
{
}

proof fn lemma_one_shl(n: u32)
    requires
        n < 64,
    ensures
        (1u64 << n) == pow2(n as nat),
{
    vstd::bits::lemma_u64_pow2_no_overflow(n as nat);
    vstd::bits::lemma_u64_shl_is_mul(1u64, n as u64);
    assert(1u64 << n == 1u64 << (n as u64)) by (bit_vector);
}

impl BitStream {
    /// Loads the first sixteen bytes of `data` as two little-endian 64-bit halves.
    pub fn new(data: &[u8]) -> (s: Self)
        requires
            data@.len() >= 16,
        ensures
            s@ == block_value(data@),
            s@ < pow2(128),
    {
        let low = load_le64(data, 0);
        let high = load_le64(data, 8);
        proof {
            lemma_pow2_values();
            lemma_pow2_adds(64, 64);
        }
        Self { low, high }
    }

    /// Reads one bit.
    pub fn read_bit(&mut self) -> (bit: u32)
        ensures
            bit == old(self)@ % 2,
            final(self)@ == old(self)@ / 2,
    {
        proof {
            lemma_pow2_values();
        }
        self.read_bits(1)
    }

    /// Reads one bit, as a signed number.
    pub fn read_bit_i32(&mut self) -> (bit: i32)
        ensures
            bit == old(self)@ % 2,
            final(self)@ == old(self)@ / 2,
    {
        let bit = self.read_bit();
        bit as i32
    }

    /// Reads the low `num_bits` bits and drops them from the stream. Past the
    /// 128th bit the stream holds zeros.
    pub fn read_bits(&mut self, num_bits: u32) -> (bits: u32)
        requires
            1 <= num_bits <= 32,
        ensures
            bits == old(self)@ % pow2(num_bits as nat),
            final(self)@ == old(self)@ / pow2(num_bits as nat),
    {
        let ghost before = self@;
        let low = self.low;
        let high = self.high;
        proof {
            lemma_mask_ops(low, num_bits);
            lemma_mask_ops(high, num_bits);
            lemma_shr_bound(low, num_bits);
        }
        let mask: u64 = (1u64 << num_bits) - 1;
        let bits = (low & mask) as u32;
        let carry = high & mask;
        proof {
            lemma_splice(low >> num_bits, carry, num_bits);
        }
        self.low = (low >> num_bits) | (carry << (64 - num_bits));
        self.high = high >> num_bits;
        proof {
            let p = pow2(num_bits as nat);
            let q = pow2((64 - num_bits) as nat);
            let lq = (low >> num_bits) as nat;
            let lr = (low & mask) as nat;
            let hq = (high >> num_bits) as nat;
            let hr = carry as nat;
            assert(p * q == 0x1_0000_0000_0000_0000);
            assert(low == lq * p + lr) by {
                vstd::arithmetic::div_mod::lemma_fundamental_div_mod(low as int, p as int);
                assert(lq * p == p * lq) by (nonlinear_arith);
            }
            assert(high == hq * p + hr) by {
                vstd::arithmetic::div_mod::lemma_fundamental_div_mod(high as int, p as int);
                assert(hq * p == p * hq) by (nonlinear_arith);
            }
            let after = lq + hr * q + hq * 0x1_0000_0000_0000_0000;
            assert(self@ == after);
            assert(before == after * p + lr) by (nonlinear_arith)
                requires
                    before == low as nat + high as nat * 0x1_0000_0000_0000_0000,
                    low == lq * p + lr,
                    high == hq * p + hr,
                    p * q == 0x1_0000_0000_0000_0000,
                    after == lq + hr * q + hq * 0x1_0000_0000_0000_0000,
            ;
            lemma_div_mod_of_sum(after, p, lr);
        }
        bits
    }

    /// Reads `num_bits` bits and hands them out as a signed 32-bit number
    /// with the same bit pattern.
    pub fn read_bits_i32(&mut self, num_bits: u32) -> (bits: i32)
        requires
            1 <= num_bits <= 32,
        ensures
            bits == signed32(old(self)@ % pow2(num_bits as nat)),
            final(self)@ == old(self)@ / pow2(num_bits as nat),
    {
        let bits = self.read_bits(num_bits);
        proof {
            lemma_truncate(bits);
        }
        #[verifier::truncate]
        (bits as i32)
    }

    /// Reads `num_bits` bits and hands them out in reverse order, the bit read
    /// first on top.
    pub fn read_bits_reversed(&mut self, num_bits: u32) -> (result: i32)
        requires
            1 <= num_bits <= 32,
        ensures
            result == signed32(reversed(old(self)@ % pow2(num_bits as nat), num_bits as nat)),
            final(self)@ == old(self)@ / pow2(num_bits as nat),
    {
        let read = self.read_bits(num_bits);
        let ghost x = read as nat;
        let mut bits = read;
        let mut result: u32 = 0;
        let mut k: u32 = 0;
        proof {
            lemma_pow2_values();
        }
        while k < num_bits
            invariant
                k <= num_bits <= 32,
                bits == x / pow2(k as nat),
                result == reversed(x, k as nat),
            decreases num_bits - k,
        {
            proof {
                lemma_pow2_values();
                lemma_reversed_bound(x, k as nat);
                vstd::arithmetic::power2::lemma_pow2_strictly_increases(k as nat, 32);
                lemma_reversed_bound(x, (k + 1) as nat);
                if k + 1 < 32 {
                    vstd::arithmetic::power2::lemma_pow2_strictly_increases((k + 1) as nat, 32);
                }
                crate::bits::lemma_drop_drop(x, k as nat, 1);
            }
            result = result * 2 + bits % 2;
            bits = bits / 2;
            k = k + 1;
        }
        proof {
            lemma_truncate(result);
        }
        #[verifier::truncate]
        (result as i32)
    }
}

/// Reads the next `n` bits of a stream that has come `pos` bits into the
/// number `v`; no bits are read where `n` is 0.
pub(crate) fn take(bs: &mut BitStream, n: u32, Ghost(v): Ghost<nat>, Ghost(pos): Ghost<nat>) -> (r:
    u32)
    requires
        old(bs)@ == v / pow2(pos),
        n <= 32,
    ensures
        r == field(v, pos, n as nat),
        r < pow2(n as nat),
        final(bs)@ == v / pow2(pos + n as nat),
{
    proof {
        lemma_pow2_values();
        crate::bits::lemma_field_bound(v, pos, n as nat);
    }
    if n == 0 {
        0
    } else {
        let r = bs.read_bits(n);
        proof {
            crate::bits::lemma_drop_drop(v, pos, n as nat);
        }
        r
    }
}

} // verus!
