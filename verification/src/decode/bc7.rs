//! Decoding of BC7 blocks.
use super::bitstream::{take, BitStream};
use super::tile::{scatter, write_tile};
use crate::bits::{block_value, field, lemma_drop_drop, lemma_field_bound, lemma_pow2_values};
use crate::partition::{
    anchor_of, get_pattern, get_skips, get_unquant_value, lemma_subset_bound, pattern_table,
    subset_of, weight,
};
use vstd::arithmetic::power2::pow2;
use vstd::prelude::*;

verus! {

/// How the 128 bits of a block are divided in one of the eight modes.
pub struct Bc7Layout {
    /// Subsets of the block, each with its own pair of endpoints.
    pub subsets: u32,
    /// Bits that choose the shape.
    pub partition_bits: u32,
    /// Bits that say which channel has changed places with alpha.
    pub rotation_bits: u32,
    /// Bits that say which index set colour uses.
    pub selection_bits: u32,
    /// Bits of each colour component of an endpoint.
    pub color_bits: u32,
    /// Bits of the alpha component of an endpoint, 0 where alpha is not stored.
    pub alpha_bits: u32,
    /// One more low bit for each endpoint.
    pub endpoint_pbits: bool,
    /// One more low bit for each subset, shared by its two endpoints.
    pub shared_pbits: bool,
    /// Bits of a primary index.
    pub index_bits: u32,
    /// Bits of a secondary index, 0 where there is none.
    pub index_bits2: u32,
}

/// The layout of `mode`, for modes 0 to 7.
pub open spec fn bc7_layout(mode: nat) -> Bc7Layout {
    if mode == 0 {
        Bc7Layout {
            subsets: 3,
            partition_bits: 4,
            rotation_bits: 0,
            selection_bits: 0,
            color_bits: 4,
            alpha_bits: 0,
            endpoint_pbits: true,
            shared_pbits: false,
            index_bits: 3,
            index_bits2: 0,
        }
    } else if mode == 1 {
        Bc7Layout {
            subsets: 2,
            partition_bits: 6,
            rotation_bits: 0,
            selection_bits: 0,
            color_bits: 6,
            alpha_bits: 0,
            endpoint_pbits: false,
            shared_pbits: true,
            index_bits: 3,
            index_bits2: 0,
        }
    } else if mode == 2 {
        Bc7Layout {
            subsets: 3,
            partition_bits: 6,
            rotation_bits: 0,
            selection_bits: 0,
            color_bits: 5,
            alpha_bits: 0,
            endpoint_pbits: false,
            shared_pbits: false,
            index_bits: 2,
            index_bits2: 0,
        }
    } else if mode == 3 {
        Bc7Layout {
            subsets: 2,
            partition_bits: 6,
            rotation_bits: 0,
            selection_bits: 0,
            color_bits: 7,
            alpha_bits: 0,
            endpoint_pbits: true,
            shared_pbits: false,
            index_bits: 2,
            index_bits2: 0,
        }
    } else if mode == 4 {
        Bc7Layout {
            subsets: 1,
            partition_bits: 0,
            rotation_bits: 2,
            selection_bits: 1,
            color_bits: 5,
            alpha_bits: 6,
            endpoint_pbits: false,
            shared_pbits: false,
            index_bits: 2,
            index_bits2: 3,
        }
    } else if mode == 5 {
        Bc7Layout {
            subsets: 1,
            partition_bits: 0,
            rotation_bits: 2,
            selection_bits: 0,
            color_bits: 7,
            alpha_bits: 8,
            endpoint_pbits: false,
            shared_pbits: false,
            index_bits: 2,
            index_bits2: 2,
        }
    } else if mode == 6 {
        Bc7Layout {
            subsets: 1,
            partition_bits: 0,
            rotation_bits: 0,
            selection_bits: 0,
            color_bits: 7,
            alpha_bits: 7,
            endpoint_pbits: true,
            shared_pbits: false,
            index_bits: 4,
            index_bits2: 0,
        }
    } else {
        Bc7Layout {
            subsets: 2,
            partition_bits: 6,
            rotation_bits: 0,
            selection_bits: 0,
            color_bits: 5,
            alpha_bits: 5,
            endpoint_pbits: true,
            shared_pbits: false,
            index_bits: 2,
            index_bits2: 0,
        }
    }
}

/// The mode of a block: the number of zero bits below the lowest set bit of
/// its first byte, or 8 where that byte is zero and the block has no mode.
pub open spec fn bc7_mode(v: nat) -> nat {
    let first = v % 256;
    if first % 2 == 1 {
        0
    } else if first % 4 == 2 {
        1
    } else if first % 8 == 4 {
        2
    } else if first % 16 == 8 {
        3
    } else if first % 32 == 16 {
        4
    } else if first % 64 == 32 {
        5
    } else if first % 128 == 64 {
        6
    } else if first == 128 {
        7
    } else {
        8
    }
}

/// Whether endpoints carry one more low bit.
pub open spec fn bc7_has_pbits(mode: nat) -> bool {
    bc7_layout(mode).endpoint_pbits || bc7_layout(mode).shared_pbits
}

/// The bit at which the endpoints start.
pub open spec fn bc7_endpoint_pos(mode: nat) -> nat {
    let l = bc7_layout(mode);
    (mode + 1 + l.partition_bits + l.rotation_bits + l.selection_bits) as nat
}

/// The bit at which the alpha components of the endpoints start.
pub open spec fn bc7_alpha_pos(mode: nat) -> nat {
    let l = bc7_layout(mode);
    (bc7_endpoint_pos(mode) + 6 * l.subsets * l.color_bits) as nat
}

/// The bit at which the p-bits start.
pub open spec fn bc7_pbit_pos(mode: nat) -> nat {
    let l = bc7_layout(mode);
    (bc7_alpha_pos(mode) + 2 * l.subsets * l.alpha_bits) as nat
}

/// The number of p-bits.
pub open spec fn bc7_pbit_count(mode: nat) -> nat {
    let l = bc7_layout(mode);
    if l.shared_pbits {
        l.subsets as nat
    } else if l.endpoint_pbits {
        (2 * l.subsets) as nat
    } else {
        0
    }
}

/// The bit at which the primary indices start.
pub open spec fn bc7_index_pos(mode: nat) -> nat {
    bc7_pbit_pos(mode) + bc7_pbit_count(mode)
}

/// The partition number of the block, 0 where the mode has one subset.
pub open spec fn bc7_partition(v: nat, mode: nat) -> nat {
    field(v, mode + 1, bc7_layout(mode).partition_bits as nat)
}

/// The rotation of the block, 0 where the mode has none.
pub open spec fn bc7_rotation(v: nat, mode: nat) -> nat {
    field(v, mode + 1, bc7_layout(mode).rotation_bits as nat)
}

/// The index selection bit of the block, 0 where the mode has none.
pub open spec fn bc7_selection(v: nat, mode: nat) -> nat {
    field(v, mode + 3, bc7_layout(mode).selection_bits as nat)
}

/// The shape of the block, as its number in the shape tables.
pub open spec fn bc7_shape(v: nat, mode: nat) -> int {
    if bc7_layout(mode).subsets == 3 {
        64 + bc7_partition(v, mode) as int
    } else {
        bc7_partition(v, mode) as int
    }
}

/// The p-bit of endpoint `e`, 0 where the mode has none.
pub open spec fn bc7_pbit(v: nat, mode: nat, e: nat) -> nat {
    let l = bc7_layout(mode);
    if l.shared_pbits {
        field(v, bc7_pbit_pos(mode) + e / 2, 1)
    } else if l.endpoint_pbits {
        field(v, bc7_pbit_pos(mode) + e, 1)
    } else {
        0
    }
}

/// A component of `bits` bits, at least four, widened to eight: its bits are
/// moved to the top and its highest bits are repeated below them.
pub open spec fn bc7_expand(x: nat, bits: nat) -> nat {
    x * pow2((8 - bits) as nat) + x / pow2((2 * bits - 8) as nat)
}

/// A stored component of `bits` bits of endpoint `e` with its p-bit, widened to
/// eight bits.
pub open spec fn bc7_finish(v: nat, mode: nat, e: nat, raw: nat, bits: nat) -> nat {
    if bc7_has_pbits(mode) {
        bc7_expand(2 * raw + bc7_pbit(v, mode, e), bits + 1)
    } else {
        bc7_expand(raw, bits)
    }
}

/// Channel `ch` (red, green, blue, alpha) of endpoint `e`, as eight bits.
pub open spec fn bc7_endpoint(v: nat, mode: nat, e: nat, ch: nat) -> nat {
    let l = bc7_layout(mode);
    let cb = l.color_bits as nat;
    let ab = l.alpha_bits as nat;
    if ch < 3 {
        bc7_finish(
            v,
            mode,
            e,
            field(v, bc7_endpoint_pos(mode) + ((ch * (2 * l.subsets) + e) * cb) as nat, cb),
            cb,
        )
    } else if ab == 0 {
        255
    } else {
        bc7_finish(v, mode, e, field(v, bc7_alpha_pos(mode) + e * ab, ab), ab)
    }
}

/// Whether pixel `k` is the anchor of its subset; the index of an anchor is
/// stored with one bit less.
pub open spec fn bc7_is_anchor(v: nat, mode: nat, k: nat) -> bool {
    let l = bc7_layout(mode);
    k == 0 || (l.subsets >= 2 && k == anchor_of(bc7_shape(v, mode), 1)) || (l.subsets == 3 && k
        == anchor_of(bc7_shape(v, mode), 2))
}

/// The number of bits of the primary index of pixel `k`.
pub open spec fn bc7_index_width(v: nat, mode: nat, k: nat) -> nat {
    if bc7_is_anchor(v, mode, k) {
        (bc7_layout(mode).index_bits - 1) as nat
    } else {
        bc7_layout(mode).index_bits as nat
    }
}

/// The number of bits of the primary indices of the pixels before `k`.
pub open spec fn bc7_index_offset(v: nat, mode: nat, k: nat) -> nat
    decreases k,
{
    if k == 0 {
        0
    } else {
        bc7_index_offset(v, mode, (k - 1) as nat) + bc7_index_width(v, mode, (k - 1) as nat)
    }
}

/// The primary index of pixel `k`.
pub open spec fn bc7_index(v: nat, mode: nat, k: nat) -> nat {
    field(
        v,
        bc7_index_pos(mode) + bc7_index_offset(v, mode, k),
        bc7_index_width(v, mode, k),
    )
}

/// The number of bits of the secondary index of pixel `k`.
pub open spec fn bc7_index2_width(mode: nat, k: nat) -> nat {
    let ib2 = bc7_layout(mode).index_bits2 as nat;
    if ib2 == 0 {
        0
    } else if k == 0 {
        (ib2 - 1) as nat
    } else {
        ib2
    }
}

/// The number of bits of the secondary indices of the pixels before `k`.
pub open spec fn bc7_index2_offset(mode: nat, k: nat) -> nat {
    let ib2 = bc7_layout(mode).index_bits2 as nat;
    if ib2 == 0 || k == 0 {
        0
    } else {
        (k * ib2 - 1) as nat
    }
}

/// The secondary index of pixel `k`, 0 where the mode has none.
pub open spec fn bc7_index2(v: nat, mode: nat, k: nat) -> nat {
    field(
        v,
        bc7_index_pos(mode) + bc7_index_offset(v, mode, 16) + bc7_index2_offset(mode, k),
        bc7_index2_width(mode, k),
    )
}

/// The subset of pixel `k`.
pub open spec fn bc7_subset(v: nat, mode: nat, k: nat) -> nat {
    if bc7_layout(mode).subsets == 1 {
        0
    } else {
        subset_of(bc7_shape(v, mode), k as int) as nat
    }
}

/// The value between `a` and `b` at weight `w` out of 64, rounded.
pub open spec fn interpolate(a: int, b: int, w: int) -> int {
    (a * (64 - w) + b * w + 32) / 64
}

/// The weight that channel `ch` of pixel `k` gives the second endpoint of its
/// subset. With two index sets colour takes the primary one and alpha the
/// secondary one, or the other way round where the selection bit is set.
pub open spec fn bc7_weight(v: nat, mode: nat, k: nat, ch: nat) -> int {
    let l = bc7_layout(mode);
    if l.index_bits2 == 0 || ((bc7_selection(v, mode) == 0) == (ch < 3)) {
        weight(l.index_bits as int, bc7_index(v, mode, k) as int)
    } else {
        weight(l.index_bits2 as int, bc7_index2(v, mode, k) as int)
    }
}

/// Channel `ch` of pixel `k` as it is interpolated, before alpha and another
/// channel change places.
pub open spec fn bc7_interpolated(v: nat, mode: nat, k: nat, ch: nat) -> int {
    let s = bc7_subset(v, mode, k);
    interpolate(
        bc7_endpoint(v, mode, 2 * s, ch) as int,
        bc7_endpoint(v, mode, 2 * s + 1, ch) as int,
        bc7_weight(v, mode, k, ch),
    )
}

/// The channel that is stored in place of channel `ch` under `rotation`:
/// rotation 1, 2 or 3 makes alpha change places with red, green or blue.
pub open spec fn bc7_rotated(rotation: nat, ch: nat) -> nat {
    if rotation == 0 {
        ch
    } else if ch == 3 {
        (rotation - 1) as nat
    } else if ch == rotation - 1 {
        3
    } else {
        ch
    }
}

/// Channel `ch` of pixel `k` of a block of a mode from 0 to 7.
pub open spec fn bc7_channel(v: nat, mode: nat, k: nat, ch: nat) -> int {
    bc7_interpolated(v, mode, k, bc7_rotated(bc7_rotation(v, mode), ch))
}

/// The sixteen pixels of a block, four bytes each (red, green, blue, alpha),
/// row by row. A block without a mode decodes to zeros.
pub open spec fn bc7_tile(block: Seq<u8>) -> Seq<u8> {
    let v = block_value(block);
    let mode = bc7_mode(v);
    Seq::new(
        64,
        |m: int|
            if mode >= 8 {
                0u8
            } else {
                bc7_channel(v, mode, (m / 4) as nat, (m % 4) as nat) as u8
            },
    )
}

/// Letting the endpoints change places and counting the weight from the
/// other end leaves the interpolated value as it is.
pub proof fn lemma_interpolate_mirror(a: int, b: int, w: int)
    ensures
        interpolate(a, b, w) == interpolate(b, a, 64 - w),
{
    assert(a * (64 - w) + b * w + 32 == b * (64 - (64 - w)) + a * (64 - w) + 32)
        by (nonlinear_arith);
}

/// A block whose first byte is zero has no mode and decodes to zeros.
pub proof fn lemma_bc7_without_mode(block: Seq<u8>, m: int)
    requires
        block.len() >= 16,
        block[0] == 0,
        0 <= m < 64,
    ensures
        bc7_mode(block_value(block)) == 8,
        bc7_tile(block)[m] == 0,
{
}

/// In every mode the fields fill the 128 bits of the block exactly.
pub proof fn lemma_bc7_layout_fills_block(mode: nat)
    requires
        mode < 8,
    ensures
        bc7_index_pos(mode) + 16 * bc7_layout(mode).index_bits - bc7_layout(mode).subsets + (
        if bc7_layout(mode).index_bits2 == 0 {
            0int
        } else {
            16 * bc7_layout(mode).index_bits2 - 1
        }) == 128,
{
    lemma_bc7_positions(mode);
}

/// The places of the fields in each mode.
pub proof fn lemma_bc7_positions(mode: nat)
    requires
        mode < 8,
    ensures
        bc7_endpoint_pos(mode) == bc7_positions(mode).0,
        bc7_alpha_pos(mode) == bc7_positions(mode).1,
        bc7_pbit_pos(mode) == bc7_positions(mode).2,
        bc7_index_pos(mode) == bc7_positions(mode).3,
{
    let l = bc7_layout(mode);
    assert(6 * l.subsets * l.color_bits == bc7_positions(mode).1 - bc7_positions(mode).0) by {
        if mode == 0 {
            assert(6 * 3 * 4 == 72);
        } else if mode == 1 {
            assert(6 * 2 * 6 == 72);
        } else if mode == 2 {
            assert(6 * 3 * 5 == 90);
        } else if mode == 3 {
            assert(6 * 2 * 7 == 84);
        } else if mode == 4 {
            assert(6 * 1 * 5 == 30);
        } else if mode == 5 {
            assert(6 * 1 * 7 == 42);
        } else if mode == 6 {
            assert(6 * 1 * 7 == 42);
        } else {
            assert(6 * 2 * 5 == 60);
        }
    }
    assert(2 * l.subsets * l.alpha_bits == bc7_positions(mode).2 - bc7_positions(mode).1) by {
        if mode == 4 {
            assert(2 * 1 * 6 == 12);
        } else if mode == 5 {
            assert(2 * 1 * 8 == 16);
        } else if mode == 6 {
            assert(2 * 1 * 7 == 14);
        } else if mode == 7 {
            assert(2 * 2 * 5 == 20);
        } else {
            assert(l.alpha_bits == 0);
            assert(2 * l.subsets * 0 == 0);
        }
    }
}

/// The first bit of the endpoints, of their alpha components, of the p-bits
/// and of the indices, mode by mode.
pub open spec fn bc7_positions(mode: nat) -> (nat, nat, nat, nat) {
    if mode == 0 {
        (5, 77, 77, 83)
    } else if mode == 1 {
        (8, 80, 80, 82)
    } else if mode == 2 {
        (9, 99, 99, 99)
    } else if mode == 3 {
        (10, 94, 94, 98)
    } else if mode == 4 {
        (8, 38, 50, 50)
    } else if mode == 5 {
        (8, 50, 66, 66)
    } else if mode == 6 {
        (7, 49, 63, 65)
    } else {
        (14, 74, 94, 98)
    }
}

fn layout_of(mode: u32) -> (l: Bc7Layout)
    requires
        mode < 8,
    ensures
        l == bc7_layout(mode as nat),
{
    if mode == 0 {
        Bc7Layout {
            subsets: 3,
            partition_bits: 4,
            rotation_bits: 0,
            selection_bits: 0,
            color_bits: 4,
            alpha_bits: 0,
            endpoint_pbits: true,
            shared_pbits: false,
            index_bits: 3,
            index_bits2: 0,
        }
    } else if mode == 1 {
        Bc7Layout {
            subsets: 2,
            partition_bits: 6,
            rotation_bits: 0,
            selection_bits: 0,
            color_bits: 6,
            alpha_bits: 0,
            endpoint_pbits: false,
            shared_pbits: true,
            index_bits: 3,
            index_bits2: 0,
        }
    } else if mode == 2 {
        Bc7Layout {
            subsets: 3,
            partition_bits: 6,
            rotation_bits: 0,
            selection_bits: 0,
            color_bits: 5,
            alpha_bits: 0,
            endpoint_pbits: false,
            shared_pbits: false,
            index_bits: 2,
            index_bits2: 0,
        }
    } else if mode == 3 {
        Bc7Layout {
            subsets: 2,
            partition_bits: 6,
            rotation_bits: 0,
            selection_bits: 0,
            color_bits: 7,
            alpha_bits: 0,
            endpoint_pbits: true,
            shared_pbits: false,
            index_bits: 2,
            index_bits2: 0,
        }
    } else if mode == 4 {
        Bc7Layout {
            subsets: 1,
            partition_bits: 0,
            rotation_bits: 2,
            selection_bits: 1,
            color_bits: 5,
            alpha_bits: 6,
            endpoint_pbits: false,
            shared_pbits: false,
            index_bits: 2,
            index_bits2: 3,
        }
    } else if mode == 5 {
        Bc7Layout {
            subsets: 1,
            partition_bits: 0,
            rotation_bits: 2,
            selection_bits: 0,
            color_bits: 7,
            alpha_bits: 8,
            endpoint_pbits: false,
            shared_pbits: false,
            index_bits: 2,
            index_bits2: 2,
        }
    } else if mode == 6 {
        Bc7Layout {
            subsets: 1,
            partition_bits: 0,
            rotation_bits: 0,
            selection_bits: 0,
            color_bits: 7,
            alpha_bits: 7,
            endpoint_pbits: true,
            shared_pbits: false,
            index_bits: 4,
            index_bits2: 0,
        }
    } else {
        Bc7Layout {
            subsets: 2,
            partition_bits: 6,
            rotation_bits: 0,
            selection_bits: 0,
            color_bits: 5,
            alpha_bits: 5,
            endpoint_pbits: true,
            shared_pbits: false,
            index_bits: 2,
            index_bits2: 0,
        }
    }
}

/// The mode that the first byte of a block spells.
fn mode_of(first: u8, Ghost(v): Ghost<nat>) -> (mode: u32)
    requires
        first == v % 256,
    ensures
        mode == bc7_mode(v),
        mode <= 8,
{
    if first % 2 == 1 {
        0
    } else if first % 4 == 2 {
        1
    } else if first % 8 == 4 {
        2
    } else if first % 16 == 8 {
        3
    } else if first % 32 == 16 {
        4
    } else if first % 64 == 32 {
        5
    } else if first % 128 == 64 {
        6
    } else if first == 128 {
        7
    } else {
        8
    }
}

/// Reads `count` fields of `width` bits each.
fn read_run(
    bs: &mut BitStream,
    count: usize,
    width: u32,
    Ghost(v): Ghost<nat>,
    Ghost(start): Ghost<nat>,
) -> (out: [u32; 18])
    requires
        old(bs)@ == v / pow2(start),
        count <= 18,
        width <= 32,
    ensures
        forall|f: int|
            0 <= f < count ==> #[trigger] out@[f] == field(
                v,
                start + (f * width) as nat,
                width as nat,
            ),
        final(bs)@ == v / pow2(start + (count * width) as nat),
{
    let mut out = [0u32; 18];
    let mut f: usize = 0;
    while f < count
        invariant
            f <= count <= 18,
            width <= 32,
            bs@ == v / pow2(start + (f * width) as nat),
            forall|g: int|
                0 <= g < f ==> #[trigger] out@[g] == field(
                    v,
                    start + (g * width) as nat,
                    width as nat,
                ),
        decreases count - f,
    {
        proof {
            assert((f + 1) * width == f * width + width) by (nonlinear_arith);
            assert(f * width >= 0) by (nonlinear_arith)
                requires
                    f >= 0,
                    width >= 0,
            ;
        }
        let r = take(bs, width, Ghost(v), Ghost(start + (f * width) as nat));
        out[f] = r;
        f = f + 1;
    }
    out
}

/// Widens a component of `bits` bits to eight.
pub(crate) fn expand_to_byte(x: u32, bits: u32) -> (r: u32)
    requires
        4 <= bits <= 8,
        x < pow2(bits as nat),
    ensures
        r == bc7_expand(x as nat, bits as nat),
        r <= 255,
{
    proof {
        lemma_pow2_values();
        let up = pow2((8 - bits) as nat);
        let down = pow2((2 * bits - 8) as nat);
        let xn = x as nat;
        if bits == 4 {
            assert(xn * up + xn / down == xn * 16 + xn) by (nonlinear_arith)
                requires
                    up == 16,
                    down == 1,
            ;
        } else if bits == 5 {
            assert(xn * up + xn / down == xn * 8 + xn / 4) by (nonlinear_arith)
                requires
                    up == 8,
                    down == 4,
            ;
        } else if bits == 6 {
            assert(xn * up + xn / down == xn * 4 + xn / 16) by (nonlinear_arith)
                requires
                    up == 4,
                    down == 16,
            ;
        } else if bits == 7 {
            assert(xn * up + xn / down == xn * 2 + xn / 64) by (nonlinear_arith)
                requires
                    up == 2,
                    down == 64,
            ;
        } else {
            assert(xn * up + xn / down == xn + xn / 256) by (nonlinear_arith)
                requires
                    up == 1,
                    down == 256,
            ;
        }
    }
    if bits == 4 {
        x * 16 + x
    } else if bits == 5 {
        x * 8 + x / 4
    } else if bits == 6 {
        x * 4 + x / 16
    } else if bits == 7 {
        x * 2 + x / 64
    } else {
        x + x / 256
    }
}

/// Finishes a stored component: adds the p-bit where the mode has one, and
/// widens the result to eight bits.
fn finish_component(raw: u32, bits: u32, pbit: u32, has_pbits: bool, Ghost(v): Ghost<nat>, Ghost(
    mode,
): Ghost<nat>, Ghost(e): Ghost<nat>) -> (r: u32)
    requires
        mode < 8,
        4 <= bits <= 8,
        has_pbits ==> bits <= 7,
        raw < pow2(bits as nat),
        has_pbits == bc7_has_pbits(mode),
        pbit == bc7_pbit(v, mode, e),
    ensures
        r == bc7_finish(v, mode, e, raw as nat, bits as nat),
        r <= 255,
{
    proof {
        lemma_pow2_values();
        lemma_field_bound(v, bc7_pbit_pos(mode) + e / 2, 1);
        lemma_field_bound(v, bc7_pbit_pos(mode) + e, 1);
    }
    if has_pbits {
        expand_to_byte(2 * raw + pbit, bits + 1)
    } else {
        expand_to_byte(raw, bits)
    }
}

/// Builds the endpoints from their stored fields.
fn decode_endpoints(
    mode: u32,
    colors: &[u32; 18],
    alphas: &[u32; 18],
    pbits: &[u32; 18],
    Ghost(v): Ghost<nat>,
) -> (ep: [u32; 24])
    requires
        mode < 8,
        forall|f: int|
            0 <= f < 6 * bc7_layout(mode as nat).subsets ==> #[trigger] colors@[f] == field(
                v,
                bc7_endpoint_pos(mode as nat) + (f * bc7_layout(mode as nat).color_bits) as nat,
                bc7_layout(mode as nat).color_bits as nat,
            ),
        forall|f: int|
            0 <= f < 2 * bc7_layout(mode as nat).subsets ==> #[trigger] alphas@[f] == field(
                v,
                bc7_alpha_pos(mode as nat) + (f * bc7_layout(mode as nat).alpha_bits) as nat,
                bc7_layout(mode as nat).alpha_bits as nat,
            ),
        forall|f: int|
            0 <= f < bc7_pbit_count(mode as nat) ==> #[trigger] pbits@[f] == field(
                v,
                bc7_pbit_pos(mode as nat) + (f * 1) as nat,
                1,
            ),
    ensures
        forall|e: int, ch: int|
            0 <= e < 2 * bc7_layout(mode as nat).subsets && 0 <= ch < 4 ==> #[trigger] ep@[e * 4
                + ch] == bc7_endpoint(v, mode as nat, e as nat, ch as nat),
        forall|i: int| 0 <= i < 24 ==> #[trigger] ep@[i] <= 255,
{
    let l = layout_of(mode);
    let ne = (2 * l.subsets) as usize;
    let has_pbits = l.endpoint_pbits || l.shared_pbits;
    let mut ep = [0u32; 24];
    let mut e: usize = 0;
    while e < ne
        invariant
            mode < 8,
            l == bc7_layout(mode as nat),
            ne == 2 * l.subsets,
            has_pbits == bc7_has_pbits(mode as nat),
            e <= ne,
            forall|f: int|
                0 <= f < 6 * bc7_layout(mode as nat).subsets ==> #[trigger] colors@[f] == field(
                    v,
                    bc7_endpoint_pos(mode as nat) + (f * bc7_layout(mode as nat).color_bits) as nat,
                    bc7_layout(mode as nat).color_bits as nat,
                ),
            forall|f: int|
                0 <= f < 2 * bc7_layout(mode as nat).subsets ==> #[trigger] alphas@[f] == field(
                    v,
                    bc7_alpha_pos(mode as nat) + (f * bc7_layout(mode as nat).alpha_bits) as nat,
                    bc7_layout(mode as nat).alpha_bits as nat,
                ),
            forall|f: int|
                0 <= f < bc7_pbit_count(mode as nat) ==> #[trigger] pbits@[f] == field(
                    v,
                    bc7_pbit_pos(mode as nat) + (f * 1) as nat,
                    1,
                ),
            forall|d: int, ch: int|
                0 <= d < e && 0 <= ch < 4 ==> #[trigger] ep@[d * 4 + ch] == bc7_endpoint(
                    v,
                    mode as nat,
                    d as nat,
                    ch as nat,
                ),
            forall|i: int| 0 <= i < 24 ==> #[trigger] ep@[i] <= 255,
        decreases ne - e,
    {
        let pbit = if l.shared_pbits {
            pbits[e / 2]
        } else if l.endpoint_pbits {
            pbits[e]
        } else {
            0
        };
        assert(pbit == bc7_pbit(v, mode as nat, e as nat));
        let mut ch: usize = 0;
        while ch < 3
            invariant
                mode < 8,
                l == bc7_layout(mode as nat),
                ne == 2 * l.subsets,
                has_pbits == bc7_has_pbits(mode as nat),
                e < ne,
                ch <= 3,
                pbit == bc7_pbit(v, mode as nat, e as nat),
                forall|f: int|
                    0 <= f < 6 * bc7_layout(mode as nat).subsets ==> #[trigger] colors@[f]
                        == field(
                        v,
                        bc7_endpoint_pos(mode as nat) + (f * bc7_layout(
                            mode as nat,
                        ).color_bits) as nat,
                        bc7_layout(mode as nat).color_bits as nat,
                    ),
                forall|d: int, c: int|
                    0 <= d < e && 0 <= c < 4 ==> #[trigger] ep@[d * 4 + c] == bc7_endpoint(
                        v,
                        mode as nat,
                        d as nat,
                        c as nat,
                    ),
                forall|c: int|
                    0 <= c < ch ==> #[trigger] ep@[e * 4 + c] == bc7_endpoint(
                        v,
                        mode as nat,
                        e as nat,
                        c as nat,
                    ),
                forall|i: int| 0 <= i < 24 ==> #[trigger] ep@[i] <= 255,
            decreases 3 - ch,
        {
            assert(ch * ne <= 2 * ne && ch * ne == ch * (2 * l.subsets)) by (nonlinear_arith)
                requires
                    ch <= 2,
                    ne == 2 * l.subsets,
            ;
            let f = ch * ne + e;
            proof {
                lemma_field_bound(
                    v,
                    bc7_endpoint_pos(mode as nat) + (f * l.color_bits) as nat,
                    l.color_bits as nat,
                );
                assert(colors@[f as int] == field(
                    v,
                    bc7_endpoint_pos(mode as nat) + (f * l.color_bits) as nat,
                    l.color_bits as nat,
                ));
            }
            let value = finish_component(
                colors[f],
                l.color_bits,
                pbit,
                has_pbits,
                Ghost(v),
                Ghost(mode as nat),
                Ghost(e as nat),
            );
            let ghost before = ep@;
            ep[e * 4 + ch] = value;
            proof {
                assert forall|d: int, c: int| 0 <= d < e && 0 <= c < 4 implies #[trigger] ep@[d * 4
                    + c] == bc7_endpoint(v, mode as nat, d as nat, c as nat) by {
                    assert(ep@[d * 4 + c] == before[d * 4 + c]);
                }
                assert forall|c: int| 0 <= c < ch + 1 implies #[trigger] ep@[e * 4 + c]
                    == bc7_endpoint(v, mode as nat, e as nat, c as nat) by {
                    if c < ch {
                        assert(ep@[e * 4 + c] == before[e * 4 + c]);
                    }
                }
            }
            ch = ch + 1;
        }
        let alpha = if l.alpha_bits == 0 {
            255
        } else {
            proof {
                lemma_field_bound(
                    v,
                    bc7_alpha_pos(mode as nat) + (e * l.alpha_bits) as nat,
                    l.alpha_bits as nat,
                );
                assert(alphas@[e as int] == field(
                    v,
                    bc7_alpha_pos(mode as nat) + (e * l.alpha_bits) as nat,
                    l.alpha_bits as nat,
                ));
            }
            finish_component(
                alphas[e],
                l.alpha_bits,
                pbit,
                has_pbits,
                Ghost(v),
                Ghost(mode as nat),
                Ghost(e as nat),
            )
        };
        let ghost before = ep@;
        ep[e * 4 + 3] = alpha;
        proof {
            assert forall|d: int, c: int| 0 <= d < e + 1 && 0 <= c < 4 implies #[trigger] ep@[d * 4
                + c] == bc7_endpoint(v, mode as nat, d as nat, c as nat) by {
                if d < e || c < 3 {
                    assert(ep@[d * 4 + c] == before[d * 4 + c]);
                }
            }
        }
        e = e + 1;
    }
    ep
}

/// Reads the sixteen primary indices.
fn read_indices(
    bs: &mut BitStream,
    mode: u32,
    shape: i32,
    Ghost(v): Ghost<nat>,
) -> (indices: [u32; 16])
    requires
        mode < 8,
        shape == bc7_shape(v, mode as nat),
        0 <= shape < 128,
        old(bs)@ == v / pow2(bc7_index_pos(mode as nat)),
    ensures
        forall|k: int| 0 <= k < 16 ==> #[trigger] indices@[k] == bc7_index(v, mode as nat, k as nat),
        forall|k: int|
            0 <= k < 16 ==> #[trigger] indices@[k] < pow2(
                bc7_layout(mode as nat).index_bits as nat,
            ),
        final(bs)@ == v / pow2(bc7_index_pos(mode as nat) + bc7_index_offset(v, mode as nat, 16)),
{
    let l = layout_of(mode);
    let skips = get_skips(shape);
    let mut indices = [0u32; 16];
    let mut k: usize = 0;
    proof {
        lemma_pow2_values();
        lemma_bc7_positions(mode as nat);
    }
    while k < 16
        invariant
            mode < 8,
            l == bc7_layout(mode as nat),
            shape == bc7_shape(v, mode as nat),
            0 <= shape < 128,
            forall|s: int| 0 <= s < 3 ==> skips@[s] == anchor_of(shape as int, s),
            k <= 16,
            bs@ == v / pow2(bc7_index_pos(mode as nat) + bc7_index_offset(v, mode as nat, k as nat)),
            forall|j: int|
                0 <= j < k ==> #[trigger] indices@[j] == bc7_index(v, mode as nat, j as nat),
            forall|j: int|
                0 <= j < 16 ==> #[trigger] indices@[j] < pow2(
                    bc7_layout(mode as nat).index_bits as nat,
                ),
        decreases 16 - k,
    {
        let anchor = k == 0 || (l.subsets >= 2 && k == skips[1] as usize) || (l.subsets == 3 && k
            == skips[2] as usize);
        assert(anchor == bc7_is_anchor(v, mode as nat, k as nat));
        let width = if anchor {
            l.index_bits - 1
        } else {
            l.index_bits
        };
        let r = take(
            bs,
            width,
            Ghost(v),
            Ghost(bc7_index_pos(mode as nat) + bc7_index_offset(v, mode as nat, k as nat)),
        );
        proof {
            lemma_pow2_values();
            assert(bc7_index_offset(v, mode as nat, (k + 1) as nat) == bc7_index_offset(
                v,
                mode as nat,
                k as nat,
            ) + bc7_index_width(v, mode as nat, k as nat));
        }
        indices[k] = r;
        k = k + 1;
    }
    indices
}

/// Reads the sixteen secondary indices; all are 0 where the mode has none.
fn read_indices2(bs: &mut BitStream, mode: u32, Ghost(v): Ghost<nat>) -> (indices: [u32; 16])
    requires
        mode < 8,
        old(bs)@ == v / pow2(bc7_index_pos(mode as nat) + bc7_index_offset(v, mode as nat, 16)),
    ensures
        forall|k: int|
            0 <= k < 16 ==> #[trigger] indices@[k] == bc7_index2(v, mode as nat, k as nat),
        forall|k: int| 0 <= k < 16 ==> #[trigger] indices@[k] < 8,
{
    let l = layout_of(mode);
    let ghost start = bc7_index_pos(mode as nat) + bc7_index_offset(v, mode as nat, 16);
    let mut indices = [0u32; 16];
    let mut k: usize = 0;
    while k < 16
        invariant
            mode < 8,
            l == bc7_layout(mode as nat),
            start == bc7_index_pos(mode as nat) + bc7_index_offset(v, mode as nat, 16),
            k <= 16,
            bs@ == v / pow2(start + bc7_index2_offset(mode as nat, k as nat)),
            forall|j: int|
                0 <= j < k ==> #[trigger] indices@[j] == bc7_index2(v, mode as nat, j as nat),
            forall|j: int| 0 <= j < 16 ==> #[trigger] indices@[j] < 8,
        decreases 16 - k,
    {
        let width = if l.index_bits2 == 0 {
            0
        } else if k == 0 {
            l.index_bits2 - 1
        } else {
            l.index_bits2
        };
        let r = take(
            bs,
            width,
            Ghost(v),
            Ghost(start + bc7_index2_offset(mode as nat, k as nat)),
        );
        proof {
            lemma_pow2_values();
            assert((k + 1) * l.index_bits2 == k * l.index_bits2 + l.index_bits2)
                by (nonlinear_arith);
            assert(k > 0 && l.index_bits2 > 0 ==> k * l.index_bits2 >= 1) by (nonlinear_arith);
        }
        indices[k] = r;
        k = k + 1;
    }
    indices
}

/// The rounded value between two eight-bit endpoints.
fn interpolate_u8(a: u32, b: u32, w: i32) -> (r: u8)
    requires
        a <= 255,
        b <= 255,
        0 <= w <= 64,
    ensures
        r == interpolate(a as int, b as int, w as int),
{
    let w = w as u32;
    assert(a * (64 - w) + b * w <= 255 * 64 && a * (64 - w) >= 0 && b * w >= 0)
        by (nonlinear_arith)
        requires
            a <= 255,
            b <= 255,
            0 <= w <= 64,
    ;
    let sum = a * (64 - w) + b * w + 32;
    (sum / 64) as u8
}

/// The weights of the colour channels and of alpha at one pixel.
fn pixel_weights(
    mode: u32,
    selection: u32,
    index: u32,
    index2: u32,
    Ghost(v): Ghost<nat>,
    Ghost(k): Ghost<nat>,
) -> (w: (i32, i32))
    requires
        mode < 8,
        selection == bc7_selection(v, mode as nat),
        index == bc7_index(v, mode as nat, k),
        index < pow2(bc7_layout(mode as nat).index_bits as nat),
        index2 == bc7_index2(v, mode as nat, k),
        index2 < 8,
    ensures
        0 <= w.0 <= 64,
        0 <= w.1 <= 64,
        w.0 == bc7_weight(v, mode as nat, k, 0),
        w.0 == bc7_weight(v, mode as nat, k, 1),
        w.0 == bc7_weight(v, mode as nat, k, 2),
        w.1 == bc7_weight(v, mode as nat, k, 3),
{
    let l = layout_of(mode);
    proof {
        lemma_pow2_values();
    }
    let w1 = get_unquant_value(l.index_bits, index as i32);
    if l.index_bits2 == 0 {
        (w1, w1)
    } else {
        let w2 = get_unquant_value(l.index_bits2, index2 as i32);
        if selection == 0 {
            (w1, w2)
        } else {
            (w2, w1)
        }
    }
}

/// Lets alpha and the rotated channel change places.
fn rotate(px: [u8; 4], rotation: u32) -> (out: [u8; 4])
    requires
        rotation < 4,
    ensures
        forall|c: int|
            0 <= c < 4 ==> #[trigger] out@[c] == px@[bc7_rotated(rotation as nat, c as nat) as int],
{
    if rotation == 1 {
        [px[3], px[1], px[2], px[0]]
    } else if rotation == 2 {
        [px[0], px[3], px[2], px[1]]
    } else if rotation == 3 {
        [px[0], px[1], px[3], px[2]]
    } else {
        px
    }
}

/// Interpolates one pixel between the endpoints of its subset.
fn blend_pixel(
    mode: u32,
    subset: usize,
    color_weight: i32,
    alpha_weight: i32,
    ep: &[u32; 24],
    Ghost(v): Ghost<nat>,
    Ghost(k): Ghost<nat>,
) -> (px: [u8; 4])
    requires
        mode < 8,
        k < 16,
        subset == bc7_subset(v, mode as nat, k),
        subset < bc7_layout(mode as nat).subsets,
        0 <= color_weight <= 64,
        0 <= alpha_weight <= 64,
        color_weight == bc7_weight(v, mode as nat, k, 0),
        color_weight == bc7_weight(v, mode as nat, k, 1),
        color_weight == bc7_weight(v, mode as nat, k, 2),
        alpha_weight == bc7_weight(v, mode as nat, k, 3),
        forall|e: int, ch: int|
            0 <= e < 2 * bc7_layout(mode as nat).subsets && 0 <= ch < 4 ==> #[trigger] ep@[e * 4
                + ch] == bc7_endpoint(v, mode as nat, e as nat, ch as nat),
        forall|i: int| 0 <= i < 24 ==> #[trigger] ep@[i] <= 255,
    ensures
        forall|c: int|
            0 <= c < 4 ==> #[trigger] px@[c] == bc7_interpolated(v, mode as nat, k, c as nat),
{
    let first = subset * 8;
    let second = subset * 8 + 4;
    proof {
        assert(ep@[(2 * subset) * 4 + 0] == bc7_endpoint(
            v,
            mode as nat,
            (2 * subset) as nat,
            0,
        ));
        assert(ep@[(2 * subset + 1) * 4 + 0] == bc7_endpoint(
            v,
            mode as nat,
            (2 * subset + 1) as nat,
            0,
        ));
        assert(ep@[(2 * subset) * 4 + 1] == bc7_endpoint(
            v,
            mode as nat,
            (2 * subset) as nat,
            1,
        ));
        assert(ep@[(2 * subset + 1) * 4 + 1] == bc7_endpoint(
            v,
            mode as nat,
            (2 * subset + 1) as nat,
            1,
        ));
        assert(ep@[(2 * subset) * 4 + 2] == bc7_endpoint(
            v,
            mode as nat,
            (2 * subset) as nat,
            2,
        ));
        assert(ep@[(2 * subset + 1) * 4 + 2] == bc7_endpoint(
            v,
            mode as nat,
            (2 * subset + 1) as nat,
            2,
        ));
        assert(ep@[(2 * subset) * 4 + 3] == bc7_endpoint(
            v,
            mode as nat,
            (2 * subset) as nat,
            3,
        ));
        assert(ep@[(2 * subset + 1) * 4 + 3] == bc7_endpoint(
            v,
            mode as nat,
            (2 * subset + 1) as nat,
            3,
        ));
        assert(ep@[first as int] <= 255 && ep@[first + 1] <= 255 && ep@[first + 2] <= 255
            && ep@[first + 3] <= 255);
        assert(ep@[second as int] <= 255 && ep@[second + 1] <= 255 && ep@[second + 2] <= 255
            && ep@[second + 3] <= 255);
    }
    let r = interpolate_u8(ep[first], ep[second], color_weight);
    let g = interpolate_u8(ep[first + 1], ep[second + 1], color_weight);
    let b = interpolate_u8(ep[first + 2], ep[second + 2], color_weight);
    let a = interpolate_u8(ep[first + 3], ep[second + 3], alpha_weight);
    [r, g, b, a]
}

/// Interpolates one pixel between the endpoints of its subset and lets alpha
/// and the rotated channel change places.
fn shade_pixel(
    mode: u32,
    subset: usize,
    rotation: u32,
    selection: u32,
    ep: &[u32; 24],
    index: u32,
    index2: u32,
    Ghost(v): Ghost<nat>,
    Ghost(k): Ghost<nat>,
) -> (px: [u8; 4])
    requires
        mode < 8,
        k < 16,
        subset == bc7_subset(v, mode as nat, k),
        subset < bc7_layout(mode as nat).subsets,
        rotation == bc7_rotation(v, mode as nat),
        rotation < 4,
        selection == bc7_selection(v, mode as nat),
        forall|e: int, ch: int|
            0 <= e < 2 * bc7_layout(mode as nat).subsets && 0 <= ch < 4 ==> #[trigger] ep@[e * 4
                + ch] == bc7_endpoint(v, mode as nat, e as nat, ch as nat),
        forall|i: int| 0 <= i < 24 ==> #[trigger] ep@[i] <= 255,
        index == bc7_index(v, mode as nat, k),
        index < pow2(bc7_layout(mode as nat).index_bits as nat),
        index2 == bc7_index2(v, mode as nat, k),
        index2 < 8,
    ensures
        forall|c: int|
            0 <= c < 4 ==> #[trigger] px@[c] == bc7_channel(v, mode as nat, k, c as nat) as u8,
{
    let w = pixel_weights(mode, selection, index, index2, Ghost(v), Ghost(k));
    let plain = blend_pixel(mode, subset, w.0, w.1, ep, Ghost(v), Ghost(k));
    let px = rotate(plain, rotation);
    proof {
        assert forall|c: int| 0 <= c < 4 implies #[trigger] px@[c] == bc7_channel(
            v,
            mode as nat,
            k,
            c as nat,
        ) as u8 by {
            let src = bc7_rotated(rotation as nat, c as nat) as int;
            assert(px@[c] == plain@[src]);
            assert(plain@[src] == bc7_interpolated(v, mode as nat, k, src as nat));
        }
    }
    px
}

/// The subsets of the sixteen pixels.
fn pixel_subsets(mode: u32, shape: i32, Ghost(v): Ghost<nat>) -> (subsets: [usize; 16])
    requires
        mode < 8,
        shape == bc7_shape(v, mode as nat),
        0 <= shape < 128,
        bc7_layout(mode as nat).subsets == 3 ==> shape >= 64,
        bc7_layout(mode as nat).subsets == 2 ==> shape < 64,
    ensures
        forall|k: int|
            0 <= k < 16 ==> #[trigger] subsets@[k] == bc7_subset(v, mode as nat, k as nat),
        forall|k: int| 0 <= k < 16 ==> #[trigger] subsets@[k] < bc7_layout(mode as nat).subsets,
{
    let l = layout_of(mode);
    let pattern = get_pattern(shape);
    let mut shifted = pattern;
    let mut subsets = [0usize; 16];
    let mut k: usize = 0;
    proof {
        lemma_pow2_values();
        assert(pattern as nat / pow2(0) == pattern);
    }
    while k < 16
        invariant
            mode < 8,
            l == bc7_layout(mode as nat),
            shape == bc7_shape(v, mode as nat),
            0 <= shape < 128,
            l.subsets == 3 ==> shape >= 64,
            l.subsets == 2 ==> shape < 64,
            pattern == pattern_table()[shape as int],
            shifted == pattern as nat / pow2((2 * k) as nat),
            k <= 16,
            forall|j: int|
                0 <= j < k ==> #[trigger] subsets@[j] == bc7_subset(v, mode as nat, j as nat),
            forall|j: int| 0 <= j < 16 ==> #[trigger] subsets@[j] < l.subsets,
        decreases 16 - k,
    {
        proof {
            lemma_pow2_values();
            lemma_subset_bound(shape as int, k as int);
            lemma_drop_drop(pattern as nat, (2 * k) as nat, 2);
        }
        let subset = if l.subsets == 1 {
            0
        } else {
            (shifted % 4) as usize
        };
        subsets[k] = subset;
        shifted = shifted / 4;
        k = k + 1;
    }
    subsets
}

/// Interpolates the sixteen pixels between the endpoints of their subsets.
fn shade(
    mode: u32,
    subsets: &[usize; 16],
    rotation: u32,
    selection: u32,
    ep: &[u32; 24],
    indices: &[u32; 16],
    indices2: &[u32; 16],
    Ghost(v): Ghost<nat>,
) -> (tile: [u8; 64])
    requires
        mode < 8,
        forall|k: int|
            0 <= k < 16 ==> #[trigger] subsets@[k] == bc7_subset(v, mode as nat, k as nat),
        forall|k: int| 0 <= k < 16 ==> #[trigger] subsets@[k] < bc7_layout(mode as nat).subsets,
        rotation == bc7_rotation(v, mode as nat),
        rotation < 4,
        selection == bc7_selection(v, mode as nat),
        forall|e: int, ch: int|
            0 <= e < 2 * bc7_layout(mode as nat).subsets && 0 <= ch < 4 ==> #[trigger] ep@[e * 4
                + ch] == bc7_endpoint(v, mode as nat, e as nat, ch as nat),
        forall|i: int| 0 <= i < 24 ==> #[trigger] ep@[i] <= 255,
        forall|k: int| 0 <= k < 16 ==> #[trigger] indices@[k] == bc7_index(v, mode as nat, k as nat),
        forall|k: int|
            0 <= k < 16 ==> #[trigger] indices@[k] < pow2(
                bc7_layout(mode as nat).index_bits as nat,
            ),
        forall|k: int|
            0 <= k < 16 ==> #[trigger] indices2@[k] == bc7_index2(v, mode as nat, k as nat),
        forall|k: int| 0 <= k < 16 ==> #[trigger] indices2@[k] < 8,
    ensures
        forall|m: int|
            0 <= m < 64 ==> #[trigger] tile@[m] == bc7_channel(
                v,
                mode as nat,
                (m / 4) as nat,
                (m % 4) as nat,
            ) as u8,
{
    let mut tile = [0u8; 64];
    let mut k: usize = 0;
    while k < 16
        invariant
            mode < 8,
            forall|j: int|
                0 <= j < 16 ==> #[trigger] subsets@[j] == bc7_subset(v, mode as nat, j as nat),
            forall|j: int|
                0 <= j < 16 ==> #[trigger] subsets@[j] < bc7_layout(mode as nat).subsets,
            rotation == bc7_rotation(v, mode as nat),
            rotation < 4,
            selection == bc7_selection(v, mode as nat),
            k <= 16,
            forall|e: int, ch: int|
                0 <= e < 2 * bc7_layout(mode as nat).subsets && 0 <= ch < 4 ==> #[trigger] ep@[e
                    * 4 + ch] == bc7_endpoint(v, mode as nat, e as nat, ch as nat),
            forall|i: int| 0 <= i < 24 ==> #[trigger] ep@[i] <= 255,
            forall|j: int|
                0 <= j < 16 ==> #[trigger] indices@[j] == bc7_index(v, mode as nat, j as nat),
            forall|j: int|
                0 <= j < 16 ==> #[trigger] indices@[j] < pow2(
                    bc7_layout(mode as nat).index_bits as nat,
                ),
            forall|j: int|
                0 <= j < 16 ==> #[trigger] indices2@[j] == bc7_index2(v, mode as nat, j as nat),
            forall|j: int| 0 <= j < 16 ==> #[trigger] indices2@[j] < 8,
            forall|m: int|
                0 <= m < 4 * k ==> #[trigger] tile@[m] == bc7_channel(
                    v,
                    mode as nat,
                    (m / 4) as nat,
                    (m % 4) as nat,
                ) as u8,
        decreases 16 - k,
    {
        let px = shade_pixel(
            mode,
            subsets[k],
            rotation,
            selection,
            ep,
            indices[k],
            indices2[k],
            Ghost(v),
            Ghost(k as nat),
        );
        let ghost before = tile@;
        tile[4 * k] = px[0];
        tile[4 * k + 1] = px[1];
        tile[4 * k + 2] = px[2];
        tile[4 * k + 3] = px[3];
        proof {
            assert forall|m: int| 0 <= m < 4 * (k + 1) implies #[trigger] tile@[m] == bc7_channel(
                v,
                mode as nat,
                (m / 4) as nat,
                (m % 4) as nat,
            ) as u8 by {
                if m < 4 * k {
                    assert(tile@[m] == before[m]);
                } else {
                    assert(m / 4 == k);
                    assert(tile@[m] == px@[m % 4]);
                }
            }
        }
        k = k + 1;
    }
    tile
}

/// Decodes one block into its sixteen pixels.
pub(crate) fn decode_tile_bc7(block: &[u8]) -> (tile: [u8; 64])
    requires
        block@.len() >= 16,
    ensures
        tile@ == bc7_tile(block@),
{
    let ghost v = block_value(block@);
    let mut bs = BitStream::new(block);
    let mode = mode_of(block[0], Ghost(v));
    if mode >= 8 {
        let tile = [0u8; 64];
        assert(tile@ =~= bc7_tile(block@));
        return tile;
    }
    let l = layout_of(mode);
    proof {
        lemma_pow2_values();
        lemma_bc7_positions(mode as nat);
    }
    let header = mode + 1;
    let _ = take(&mut bs, header, Ghost(v), Ghost(0));
    let partition = take(&mut bs, l.partition_bits, Ghost(v), Ghost(header as nat));
    let rotation = take(
        &mut bs,
        l.rotation_bits,
        Ghost(v),
        Ghost((header + l.partition_bits) as nat),
    );
    let selection = take(
        &mut bs,
        l.selection_bits,
        Ghost(v),
        Ghost((header + l.partition_bits + l.rotation_bits) as nat),
    );
    let shape: i32 = if l.subsets == 3 {
        64 + partition as i32
    } else {
        partition as i32
    };
    let ne = (2 * l.subsets) as usize;
    let colors = read_run(
        &mut bs,
        3 * ne,
        l.color_bits,
        Ghost(v),
        Ghost(bc7_endpoint_pos(mode as nat)),
    );
    let alphas = read_run(&mut bs, ne, l.alpha_bits, Ghost(v), Ghost(bc7_alpha_pos(mode as nat)));
    let pbit_count: usize = if l.shared_pbits {
        l.subsets as usize
    } else if l.endpoint_pbits {
        ne
    } else {
        0
    };
    let pbits = read_run(&mut bs, pbit_count, 1, Ghost(v), Ghost(bc7_pbit_pos(mode as nat)));
    let ep = decode_endpoints(mode, &colors, &alphas, &pbits, Ghost(v));
    let indices = read_indices(&mut bs, mode, shape, Ghost(v));
    let indices2 = read_indices2(&mut bs, mode, Ghost(v));
    let subsets = pixel_subsets(mode, shape, Ghost(v));
    let tile = shade(mode, &subsets, rotation, selection, &ep, &indices, &indices2, Ghost(v));
    assert(tile@ =~= bc7_tile(block@));
    tile
}

/// Decodes the BC7 block in the first 16 bytes of `compressed_block` and writes
/// its pixels, four bytes each, into `decompressed_block`, the rows
/// `destination_pitch` bytes apart.
pub fn decode_block_bc7(
    compressed_block: &[u8],
    decompressed_block: &mut [u8],
    destination_pitch: usize,
)
    requires
        compressed_block@.len() >= 16,
        3 * destination_pitch + 16 <= old(decompressed_block)@.len(),
    ensures
        final(decompressed_block)@ == scatter(
            old(decompressed_block)@,
            bc7_tile(compressed_block@),
            0,
            destination_pitch as int,
            4,
            4,
            64,
        ),
        final(decompressed_block)@.len() == old(decompressed_block)@.len(),
{
    let tile = decode_tile_bc7(compressed_block);
    write_tile(decompressed_block, &tile, 0, destination_pitch, 4, 4);
}

} // verus!
