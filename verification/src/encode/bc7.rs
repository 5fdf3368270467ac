//! The layout of the bits of a BC7 block.
use super::common::{
    anchor_high, complemented, exchanged, bc7_code_adjust_skip_mode01237, bc7_code_apply_swap_mode01237, bc7_code_apply_swap_mode456,
    bc7_code_qblock, coded_indices, fields_width, laid_out, lemma_anchor_index_short,
    mode_index_bits, mode_pairs, nibble, pow2_u64, put_bits, skips_adjusted, subset_swapped,
    swap_flips, words_value, BitField,
};
use crate::bits::{field, lemma_field_bound, lemma_pow2_values};
use crate::decode::bc7::{bc7_expand, expand_to_byte};
use vstd::arithmetic::power2::{lemma_pow2_adds, lemma_pow2_pos, lemma_pow2_strictly_increases, pow2};
use vstd::prelude::*;

verus! {

/// The best candidate of modes 4 and 5: the quantized endpoints and indices
/// of the three channels that are coded together and of the channel that is
/// coded apart, the channel that has changed places with alpha, and whether
/// the two index sets have changed places.
#[derive(Clone, Copy, Debug, Default)]
pub struct Mode45Parameters {
    pub qep: [i32; 8],
    pub qblock: [u32; 2],
    pub aqep: [i32; 2],
    pub aqblock: [u32; 2],
    pub rotation: u32,
    pub swap: u32,
}

/// A quantized endpoint component of `bits` bits widened to eight, as the
/// decoder widens it.
pub fn unpack_to_byte(v: i32, bits: u32) -> (r: i32)
    requires
        4 <= bits <= 8,
        0 <= v < pow2(bits as nat),
    ensures
        r == bc7_expand(v as nat, bits as nat),
        0 <= r <= 255,
{
    expand_to_byte(v as u32, bits) as i32
}

/// The number of channels that a partitioned mode stores: four in mode 7,
/// else three.
pub open spec fn mode_channels(mode: int) -> int {
    if mode == 7 {
        4
    } else {
        3
    }
}

/// The number of bits of an endpoint component as a partitioned mode stores
/// it, its p-bit aside.
pub open spec fn mode_endpoint_bits(mode: int) -> int {
    if mode == 0 {
        4
    } else if mode == 1 {
        6
    } else if mode == 2 {
        5
    } else if mode == 3 {
        7
    } else {
        5
    }
}

/// Whether a partitioned mode takes the lowest bit of an endpoint component
/// out as a p-bit.
pub open spec fn mode_has_pbits(mode: int) -> bool {
    mode != 2
}

/// Whether the quantized endpoints fit a partitioned mode.
pub open spec fn qep_fits_mode(qep: Seq<i32>, mode: int) -> bool {
    forall|j: int, p: int|
        0 <= j < 2 * mode_pairs(mode) && 0 <= p < 4 ==> 0 <= #[trigger] qep[4 * j + p] < pow2(
            (mode_endpoint_bits(mode) + (if mode_has_pbits(mode) {
                1int
            } else {
                0int
            })) as nat,
        )
}

/// Field `i` of the endpoints of a partitioned mode: the channels one after
/// the other, and within a channel the endpoints.
pub open spec fn endpoint_field(qep: Seq<i32>, mode: int, i: int) -> BitField {
    let count = 2 * mode_pairs(mode);
    let stored = qep[4 * (i % count) + i / count];
    BitField {
        value: (if mode_has_pbits(mode) {
            stored / 2
        } else {
            stored as int
        }) as u32,
        width: mode_endpoint_bits(mode) as u32,
    }
}

/// P-bit `i` of a partitioned mode: the lowest bit of the red component of
/// endpoint `i`, or of the first endpoint of subset `i` in mode 1.
pub open spec fn pbit_field(qep: Seq<i32>, mode: int, i: int) -> BitField {
    BitField {
        value: (qep[if mode == 1 {
            8 * i
        } else {
            4 * i
        }] % 2) as u32,
        width: 1,
    }
}

/// The number of p-bits of a partitioned mode.
pub open spec fn pbit_count(mode: int) -> int {
    if mode == 1 {
        2
    } else if mode == 2 {
        0
    } else {
        2 * mode_pairs(mode)
    }
}

/// The fields of a block of mode 0, 1, 2, 3 or 7 below its indices: the mode,
/// the partition number, the endpoints and the p-bits.
pub open spec fn mode01237_fields(qep: Seq<i32>, part_id: int, mode: int) -> Seq<BitField> {
    seq![
        BitField { value: pow2(mode as nat) as u32, width: (mode + 1) as u32 },
        BitField {
            value: (if mode == 0 {
                part_id % 16
            } else {
                part_id % 64
            }) as u32,
            width: (if mode == 0 {
                4u32
            } else {
                6u32
            }),
        },
    ] + Seq::new(
        (mode_channels(mode) * 2 * mode_pairs(mode)) as nat,
        |i: int| endpoint_field(qep, mode, i),
    ) + Seq::new(pbit_count(mode) as nat, |i: int| pbit_field(qep, mode, i))
}

/// The block of mode 0, 1, 2, 3 or 7: its fields, its indices above them, and
/// the spare bits of the anchors of subsets 1 and 2 taken out.
pub open spec fn bc7_block_01237(qep: Seq<i32>, qblock: Seq<u32>, part_id: int, mode: int) -> nat {
    let fields = mode01237_fields(qep, part_id, mode);
    skips_adjusted(
        laid_out(fields, fields.len()) + coded_indices(
            qblock,
            mode_index_bits(mode) as nat,
            swap_flips(qblock, mode, part_id, mode_pairs(mode) as nat),
            16,
        ) * pow2(fields_width(fields, fields.len())),
        mode,
        part_id,
    )
}

/// Codes a block of mode 0, 1, 2, 3 or 7 from its quantized endpoints and
/// indices. The endpoints of a subset change places in `qep` where the index
/// of its anchor has its top bit set.
#[verifier::rlimit(60)]
pub fn bc7_code_mode01237(qep: &mut [i32; 24], qblock: [u32; 2], part_id: i32, mode: usize) -> (data:
    [u32; 5])
    requires
        mode == 0 || mode == 1 || mode == 2 || mode == 3 || mode == 7,
        mode_pairs(mode as int) == 3 ==> 64 <= part_id < 128,
        mode_pairs(mode as int) == 2 ==> 0 <= part_id < 64,
        qep_fits_mode(old(qep)@, mode as int),
        forall|k: int| 0 <= k < 16 ==> nibble(qblock@, k) < pow2(mode_index_bits(mode as int) as nat),
    ensures
        qep_fits_mode(final(qep)@, mode as int),
        words_value(data@) == bc7_block_01237(final(qep)@, qblock@, part_id as int, mode as int),
        forall|j: int, p: int|
            0 <= j < mode_pairs(mode as int) && 0 <= p < 4 ==> #[trigger] final(qep)@[8 * j + p]
                == (if subset_swapped(qblock@, mode as int, part_id as int, j) {
                old(qep)@[8 * j + 4 + p]
            } else {
                old(qep)@[8 * j + p]
            }),
        forall|j: int, p: int|
            0 <= j < mode_pairs(mode as int) && 0 <= p < 4 ==> #[trigger] final(qep)@[8 * j + 4
                + p] == (if subset_swapped(qblock@, mode as int, part_id as int, j) {
                old(qep)@[8 * j + p]
            } else {
                old(qep)@[8 * j + 4 + p]
            }),
{
    let bits: u32 = if mode == 0 || mode == 1 {
        3
    } else {
        2
    };
    let pairs: usize = if mode == 0 || mode == 2 {
        3
    } else {
        2
    };
    let channels: usize = if mode == 7 {
        4
    } else {
        3
    };
    let width: u32 = if mode == 0 {
        4
    } else if mode == 1 {
        6
    } else if mode == 2 {
        5
    } else if mode == 3 {
        7
    } else {
        5
    };
    let flips = bc7_code_apply_swap_mode01237(qep, qblock, mode, part_id);
    let ghost fields = mode01237_fields(qep@, part_id as int, mode as int);
    proof {
        lemma_pow2_values();
        assert forall|j: int, p: int| 0 <= j < 2 * pairs && 0 <= p < 4 implies 0 <= #[trigger] qep@[4
            * j + p] < pow2(
            (mode_endpoint_bits(mode as int) + (if mode_has_pbits(mode as int) {
                1int
            } else {
                0int
            })) as nat,
        ) by {
            let s = j / 2;
            assert(qep@[8 * s + p] == old(qep)@[4 * (2 * s) + p] || qep@[8 * s + p] == old(qep)@[4 * (2 * s + 1) + p]);
            assert(qep@[8 * s + 4 + p] == old(qep)@[4 * (2 * s) + p] || qep@[8 * s + 4 + p] == old(qep)@[4 * (2 * s + 1) + p]);
            assert(0 <= old(qep)@[4 * (2 * s) + p]);
            assert(0 <= old(qep)@[4 * (2 * s + 1) + p]);
        }
        lemma_anchor_index_short(qblock@, mode as int, part_id as int);
    }
    let mut data = [0u32; 5];
    let mut pos: u32 = 0;
    let count = channels * 2 * pairs;
    let marker: u32 = pow2_u64(mode as u32) as u32;
    proof {
        lemma_pow2_strictly_increases(mode as nat, (mode + 1) as nat);
        reveal_with_fuel(laid_out, 3);
        reveal_with_fuel(fields_width, 3);
        assert(fields[0] == (BitField { value: marker, width: (mode + 1) as u32 }));
    }
    proof {
        crate::bits::lemma_field_above(words_value(data@), pos as nat, (mode + 1) as nat);
    }
    put_bits(&mut data, &mut pos, (mode + 1) as u32, marker);
    let partition: u32 = if mode == 0 {
        (part_id % 16) as u32
    } else {
        (part_id % 64) as u32
    };
    proof {
        crate::bits::lemma_field_above(words_value(data@), pos as nat, if mode == 0 { 4nat } else { 6nat });
    }
    put_bits(
        &mut data,
        &mut pos,
        if mode == 0 {
            4
        } else {
            6
        },
        partition,
    );
    assert(words_value(data@) == laid_out(fields, 2)) by {
        assert(laid_out(fields, 1) == fields[0].value * pow2(0));
        assert(fields[0].value * pow2(0) == fields[0].value as nat) by (nonlinear_arith)
            requires
                pow2(0) == 1,
        ;
    }
    let ghost head = pos as nat;
    let mut i: usize = 0;
    proof {
        assert(count * width <= 90) by (nonlinear_arith)
            requires
                count == channels * 2 * pairs,
                (channels == 3 && pairs == 3 && width <= 5) || (channels == 3 && pairs == 2
                    && width <= 7) || (channels == 4 && pairs == 2 && width == 5),
        ;
    }
    while i < count
        invariant
            mode == 0 || mode == 1 || mode == 2 || mode == 3 || mode == 7,
            pairs == mode_pairs(mode as int),
            channels == mode_channels(mode as int),
            width == mode_endpoint_bits(mode as int),
            count == channels * 2 * pairs,
            count * width <= 90,
            qep_fits_mode(qep@, mode as int),
            fields == mode01237_fields(qep@, part_id as int, mode as int),
            head <= 14,
            i <= count,
            pos == head + i * width,
            fields_width(fields, (2 + i) as nat) == pos,
            words_value(data@) == laid_out(fields, (2 + i) as nat),
            words_value(data@) < pow2(pos as nat),
        decreases count - i,
    {
        let j = i % (2 * pairs);
        let p = i / (2 * pairs);
        proof {
            lemma_pow2_values();
            assert(p < channels) by (nonlinear_arith)
                requires
                    i < channels * 2 * pairs,
                    p as int == (i as int) / (2 * pairs as int),
                    pairs >= 2,
            ;
            assert(0 <= qep@[4 * j + p]);
            assert(fields[2 + i] == endpoint_field(qep@, mode as int, i as int));
            assert((i + 1) * width == i * width + width && i * width <= count * width)
                by (nonlinear_arith)
                requires
                    i < count,
                    width >= 0,
            ;
        }
        let stored = qep[4 * j + p] as u32;
        let value = if mode == 2 {
            stored
        } else {
            stored / 2
        };
        let ghost before = words_value(data@);
        proof {
            crate::bits::lemma_field_above(words_value(data@), pos as nat, width as nat);
        }
        put_bits(&mut data, &mut pos, width, value);
        i = i + 1;
    }
    let pbits: usize = if mode == 1 {
        2
    } else if mode == 2 {
        0
    } else {
        2 * pairs
    };
    let ghost body = pos as nat;
    let mut k: usize = 0;
    while k < pbits
        invariant
            mode == 0 || mode == 1 || mode == 2 || mode == 3 || mode == 7,
            pairs == mode_pairs(mode as int),
            channels == mode_channels(mode as int),
            count == channels * 2 * pairs,
            pbits == pbit_count(mode as int),
            qep_fits_mode(qep@, mode as int),
            fields == mode01237_fields(qep@, part_id as int, mode as int),
            body <= 104,
            k <= pbits,
            pos == body + k,
            fields_width(fields, (2 + count + k) as nat) == pos,
            words_value(data@) == laid_out(fields, (2 + count + k) as nat),
            words_value(data@) < pow2(pos as nat),
        decreases pbits - k,
    {
        let at = if mode == 1 {
            8 * k
        } else {
            4 * k
        };
        proof {
            lemma_pow2_values();
            assert(0 <= qep@[4 * (if mode == 1 {
                2 * k as int
            } else {
                k as int
            }) + 0]);
            assert(fields[2 + count + k] == pbit_field(qep@, mode as int, k as int));
        }
        proof {
            crate::bits::lemma_field_above(words_value(data@), pos as nat, 1);
        }
        put_bits(&mut data, &mut pos, 1, (qep[at] as u32) % 2);
        k = k + 1;
    }
    assert(fields.len() == 2 + count + pbits);
    bc7_code_qblock(&mut data, &mut pos, qblock, bits, flips);
    bc7_code_adjust_skip_mode01237(&mut data, mode, part_id);
    data
}

/// The fields of a block of mode 4 or 5 below its indices: the mode, the
/// rotation, in mode 4 the bit that says that the index sets have changed
/// places, the endpoints of the three channels that are coded together,
/// channel by channel, and the endpoints of the channel that is coded apart.
pub open spec fn mode45_fields(
    qep: Seq<i32>,
    aqep: Seq<i32>,
    rotation: u32,
    swap: u32,
    mode: int,
) -> Seq<BitField> {
    let epbits: u32 = if mode == 4 {
        5
    } else {
        7
    };
    let aepbits: u32 = if mode == 4 {
        6
    } else {
        8
    };
    seq![
        BitField { value: pow2(mode as nat) as u32, width: (mode + 1) as u32 },
        BitField { value: ((rotation + 1) % 4) as u32, width: 2 },
        BitField {
            value: swap,
            width: (if mode == 4 {
                1u32
            } else {
                0u32
            }),
        },
        BitField { value: qep[0] as u32, width: epbits },
        BitField { value: qep[4] as u32, width: epbits },
        BitField { value: qep[1] as u32, width: epbits },
        BitField { value: qep[5] as u32, width: epbits },
        BitField { value: qep[2] as u32, width: epbits },
        BitField { value: qep[6] as u32, width: epbits },
        BitField { value: aqep[0] as u32, width: aepbits },
        BitField { value: aqep[1] as u32, width: aepbits },
    ]
}

/// The block of mode 4 or 5: its fields and above them the two sets of
/// indices.
pub open spec fn bc7_block_45(
    qep: Seq<i32>,
    aqep: Seq<i32>,
    first: Seq<u32>,
    second: Seq<u32>,
    rotation: u32,
    swap: u32,
    mode: int,
) -> nat {
    let fields = mode45_fields(qep, aqep, rotation, swap, mode);
    let second_bits: nat = if mode == 4 {
        3
    } else {
        2
    };
    laid_out(fields, 11) + coded_indices(first, 2, 0, 16) * pow2(fields_width(fields, 11))
        + coded_indices(second, second_bits, 0, 16) * pow2(fields_width(fields, 11) + 31)
}

/// Writes a block of mode 4 or 5 from endpoints and index sets that need no
/// further change.
#[verifier::rlimit(60)]
fn write_mode45(
    qep: &[i32; 8],
    aqep: &[i32; 2],
    first: [u32; 2],
    second: [u32; 2],
    rotation: u32,
    swap: u32,
    mode: usize,
) -> (data: [u32; 5])
    requires
        mode == 4 || mode == 5,
        rotation < 4,
        swap < 2,
        mode == 5 ==> swap == 0,
        forall|i: int|
            0 <= i < 8 ==> 0 <= #[trigger] qep@[i] < pow2(
                if mode == 4 {
                    5nat
                } else {
                    7nat
                },
            ),
        forall|i: int|
            0 <= i < 2 ==> 0 <= #[trigger] aqep@[i] < pow2(
                if mode == 4 {
                    6nat
                } else {
                    8nat
                },
            ),
        forall|k: int| 0 <= k < 16 ==> nibble(first@, k) < 4,
        nibble(first@, 0) < 2,
        forall|k: int|
            0 <= k < 16 ==> nibble(second@, k) < pow2(
                if mode == 4 {
                    3nat
                } else {
                    2nat
                },
            ),
        nibble(second@, 0) < pow2(
            if mode == 4 {
                2nat
            } else {
                1nat
            },
        ),
    ensures
        words_value(data@) == bc7_block_45(qep@, aqep@, first@, second@, rotation, swap, mode as int),
{
    let abits: u32 = if mode == 4 {
        3
    } else {
        2
    };
    let epbits: u32 = if mode == 4 {
        5
    } else {
        7
    };
    let aepbits: u32 = if mode == 4 {
        6
    } else {
        8
    };
    let ghost fields = mode45_fields(qep@, aqep@, rotation, swap, mode as int);
    proof {
        lemma_pow2_values();
        lemma_pow2_strictly_increases(mode as nat, (mode + 1) as nat);
        assert(field(0, 0, 1) == 0) by {
            lemma_field_bound(0, 0, 1);
            vstd::arithmetic::div_mod::lemma_small_mod(0, 2);
        }
        assert(0 <= qep@[0] && 0 <= qep@[1] && 0 <= qep@[2] && 0 <= qep@[4] && 0 <= qep@[5] && 0
            <= qep@[6] && 0 <= aqep@[0] && 0 <= aqep@[1]);
        assert(laid_out(fields, 0) == 0 && fields_width(fields, 0) == 0);
    }
    let mut data = [0u32; 5];
    let mut pos: u32 = 0;
    proof {
        crate::bits::lemma_field_above(words_value(data@), pos as nat, (mode + 1) as nat);
    }
    put_bits(&mut data, &mut pos, (mode + 1) as u32, pow2_u64(mode as u32) as u32);
    proof {
        assert(fields[0].value * pow2(0) == fields[0].value as nat) by (nonlinear_arith)
            requires
                pow2(0) == 1,
        ;
        assert(words_value(data@) == laid_out(fields, 1) && pos == fields_width(fields, 1));
    }
    proof {
        crate::bits::lemma_field_above(words_value(data@), pos as nat, 2);
    }
    put_bits(&mut data, &mut pos, 2, (rotation + 1) % 4);
    assert(words_value(data@) == laid_out(fields, 2) && pos == fields_width(fields, 2));
    if mode == 4 {
        proof {
            crate::bits::lemma_field_above(words_value(data@), pos as nat, 1);
        }
        put_bits(&mut data, &mut pos, 1, swap);
    }
    proof {
        if mode == 5 {
            assert(fields[2].value * pow2(8) == 0) by (nonlinear_arith)
                requires
                    fields[2].value == 0,
            ;
        }
        assert(words_value(data@) == laid_out(fields, 3) && pos == fields_width(fields, 3));
    }
    proof {
        crate::bits::lemma_field_above(words_value(data@), pos as nat, epbits as nat);
    }
    put_bits(&mut data, &mut pos, epbits, qep[0] as u32);
    assert(words_value(data@) == laid_out(fields, 4) && pos == fields_width(fields, 4));
    proof {
        crate::bits::lemma_field_above(words_value(data@), pos as nat, epbits as nat);
    }
    put_bits(&mut data, &mut pos, epbits, qep[4] as u32);
    assert(words_value(data@) == laid_out(fields, 5) && pos == fields_width(fields, 5));
    proof {
        crate::bits::lemma_field_above(words_value(data@), pos as nat, epbits as nat);
    }
    put_bits(&mut data, &mut pos, epbits, qep[1] as u32);
    assert(words_value(data@) == laid_out(fields, 6) && pos == fields_width(fields, 6));
    proof {
        crate::bits::lemma_field_above(words_value(data@), pos as nat, epbits as nat);
    }
    put_bits(&mut data, &mut pos, epbits, qep[5] as u32);
    assert(words_value(data@) == laid_out(fields, 7) && pos == fields_width(fields, 7));
    proof {
        crate::bits::lemma_field_above(words_value(data@), pos as nat, epbits as nat);
    }
    put_bits(&mut data, &mut pos, epbits, qep[2] as u32);
    assert(words_value(data@) == laid_out(fields, 8) && pos == fields_width(fields, 8));
    proof {
        crate::bits::lemma_field_above(words_value(data@), pos as nat, epbits as nat);
    }
    put_bits(&mut data, &mut pos, epbits, qep[6] as u32);
    assert(words_value(data@) == laid_out(fields, 9) && pos == fields_width(fields, 9));
    proof {
        crate::bits::lemma_field_above(words_value(data@), pos as nat, aepbits as nat);
    }
    put_bits(&mut data, &mut pos, aepbits, aqep[0] as u32);
    assert(words_value(data@) == laid_out(fields, 10) && pos == fields_width(fields, 10));
    proof {
        crate::bits::lemma_field_above(words_value(data@), pos as nat, aepbits as nat);
    }
    put_bits(&mut data, &mut pos, aepbits, aqep[1] as u32);
    assert(words_value(data@) == laid_out(fields, 11) && pos == fields_width(fields, 11));
    bc7_code_qblock(&mut data, &mut pos, first, 2, 0);
    bc7_code_qblock(&mut data, &mut pos, second, abits, 0);
    proof {
        lemma_pow2_adds(fields_width(fields, 11), 31);
    }
    data
}

/// The index set of a candidate of modes 4 and 5 that is written first: that
/// of the three channels that are coded together, or that of the channel
/// that is coded apart where the sets have changed places.
pub open spec fn mode45_first(params: Mode45Parameters) -> Seq<u32> {
    if params.swap == 0 {
        params.qblock@
    } else {
        params.aqblock@
    }
}

/// The index set of a candidate of modes 4 and 5 that is written second.
pub open spec fn mode45_second(params: Mode45Parameters) -> Seq<u32> {
    if params.swap == 0 {
        params.aqblock@
    } else {
        params.qblock@
    }
}

/// The number of bits of an index of the set that is written second.
pub open spec fn mode45_second_bits(mode: int) -> nat {
    if mode == 4 {
        3
    } else {
        2
    }
}

/// Whether the endpoints of the three channels that are coded together
/// change places: the first index of the set that stands for them has its
/// top bit set.
pub open spec fn mode45_color_flipped(params: Mode45Parameters, mode: int) -> bool {
    if params.swap == 0 {
        anchor_high(mode45_first(params), 2)
    } else {
        anchor_high(mode45_second(params), mode45_second_bits(mode))
    }
}

/// Whether the endpoints of the channel that is coded apart change places.
pub open spec fn mode45_alpha_flipped(params: Mode45Parameters, mode: int) -> bool {
    if params.swap == 0 {
        anchor_high(mode45_second(params), mode45_second_bits(mode))
    } else {
        anchor_high(mode45_first(params), 2)
    }
}

/// The block of the candidate `params` of mode 4 or 5: each pair of endpoints
/// changes places, and its index set is counted from the other end, where the
/// first index of the set has its top bit set.
pub open spec fn bc7_candidate_block(params: Mode45Parameters, mode: int) -> nat {
    let first = mode45_first(params);
    let second = mode45_second(params);
    bc7_block_45(
        if mode45_color_flipped(params, mode) {
            exchanged(params.qep@, 4)
        } else {
            params.qep@
        },
        if mode45_alpha_flipped(params, mode) {
            exchanged(params.aqep@, 1)
        } else {
            params.aqep@
        },
        if anchor_high(first, 2) {
            complemented(first, 2)
        } else {
            first
        },
        if anchor_high(second, mode45_second_bits(mode)) {
            complemented(second, mode45_second_bits(mode))
        } else {
            second
        },
        params.rotation,
        params.swap,
        mode,
    )
}

/// Codes a block of mode 4 or 5 from the best candidate. Where the index
/// sets have changed places the set of the channel that is coded apart is
/// written first.
pub fn bc7_code_mode45(params: &Mode45Parameters, mode: usize) -> (data: [u32; 5])
    requires
        mode == 4 || mode == 5,
        params.rotation < 4,
        params.swap < 2,
        mode == 5 ==> params.swap == 0,
        forall|i: int|
            0 <= i < 8 ==> 0 <= #[trigger] params.qep@[i] < pow2(
                if mode == 4 {
                    5nat
                } else {
                    7nat
                },
            ),
        forall|i: int|
            0 <= i < 2 ==> 0 <= #[trigger] params.aqep@[i] < pow2(
                if mode == 4 {
                    6nat
                } else {
                    8nat
                },
            ),
        forall|k: int| 0 <= k < 16 ==> nibble(mode45_first(*params), k) < 4,
        forall|k: int|
            0 <= k < 16 ==> nibble(mode45_second(*params), k) < pow2(
                mode45_second_bits(mode as int),
            ),
    ensures
        words_value(data@) == bc7_candidate_block(*params, mode as int),
{
    let mut qep = params.qep;
    let mut aqep = params.aqep;
    let abits: u32 = if mode == 4 {
        3
    } else {
        2
    };
    let mut first = if params.swap == 0 {
        params.qblock
    } else {
        params.aqblock
    };
    let mut second = if params.swap == 0 {
        params.aqblock
    } else {
        params.qblock
    };
    proof {
        lemma_pow2_values();
        assert(first@ == mode45_first(*params));
        assert(second@ == mode45_second(*params));
        assert forall|k: int| 0 <= k < 16 implies nibble(first@, k) < pow2(2) by {
            assert(nibble(mode45_first(*params), k) < 4);
        }
        assert forall|k: int| 0 <= k < 16 implies nibble(second@, k) < pow2(abits as nat) by {
            assert(nibble(mode45_second(*params), k) < pow2(mode45_second_bits(mode as int)));
        }
    }
    if params.swap == 0 {
        bc7_code_apply_swap_mode456(&mut qep, 4, &mut first, 2);
        bc7_code_apply_swap_mode456(&mut aqep, 1, &mut second, abits);
    } else {
        bc7_code_apply_swap_mode456(&mut aqep, 1, &mut first, 2);
        bc7_code_apply_swap_mode456(&mut qep, 4, &mut second, abits);
    }
    proof {
        assert forall|i: int| 0 <= i < 8 implies 0 <= #[trigger] qep@[i] < pow2(
            if mode == 4 {
                5nat
            } else {
                7nat
            },
        ) by {
            assert(0 <= params.qep@[i]);
            if i < 4 {
                assert(0 <= params.qep@[i + 4]);
            } else {
                assert(0 <= params.qep@[i - 4]);
            }
        }
        assert forall|i: int| 0 <= i < 2 implies 0 <= #[trigger] aqep@[i] < pow2(
            if mode == 4 {
                6nat
            } else {
                8nat
            },
        ) by {
            assert(0 <= params.aqep@[0]);
            assert(0 <= params.aqep@[1]);
        }
    }
    write_mode45(&qep, &aqep, first, second, params.rotation, params.swap, mode)
}

/// The fields of a block of mode 6 below its indices: the mode, the
/// endpoints channel by channel, each without its lowest bit, and the two
/// p-bits.
pub open spec fn mode6_fields(qep: Seq<i32>) -> Seq<BitField> {
    seq![
        BitField { value: 64, width: 7 },
        BitField { value: (qep[0] / 2) as u32, width: 7 },
        BitField { value: (qep[4] / 2) as u32, width: 7 },
        BitField { value: (qep[1] / 2) as u32, width: 7 },
        BitField { value: (qep[5] / 2) as u32, width: 7 },
        BitField { value: (qep[2] / 2) as u32, width: 7 },
        BitField { value: (qep[6] / 2) as u32, width: 7 },
        BitField { value: (qep[3] / 2) as u32, width: 7 },
        BitField { value: (qep[7] / 2) as u32, width: 7 },
        BitField { value: (qep[0] % 2) as u32, width: 1 },
        BitField { value: (qep[4] % 2) as u32, width: 1 },
    ]
}

/// The block of mode 6: its fields and above them, from bit 65 on, its
/// indices.
pub open spec fn bc7_block_6(qep: Seq<i32>, qblock: Seq<u32>) -> nat {
    laid_out(mode6_fields(qep), 11) + coded_indices(qblock, 4, 0, 16) * pow2(65)
}

/// Codes a block of mode 6 from its quantized endpoints and indices. Where
/// the index of pixel 0 has its top bit set the endpoints change places in
/// `qep` and every index in `qblock` is counted from the other end.
#[verifier::rlimit(60)]
pub fn bc7_code_mode6(qep: &mut [i32], qblock: &mut [u32; 2]) -> (data: [u32; 5])
    requires
        old(qep)@.len() >= 8,
        forall|i: int| 0 <= i < 8 ==> 0 <= #[trigger] old(qep)@[i] < 256,
    ensures
        final(qep)@.len() == old(qep)@.len(),
        words_value(data@) == bc7_block_6(final(qep)@, final(qblock)@),
        nibble(old(qblock)@, 0) < 8 ==> final(qep)@ == old(qep)@ && final(qblock)@ == old(qblock)@,
        nibble(old(qblock)@, 0) >= 8 ==> {
            &&& forall|p: int|
                0 <= p < 4 ==> #[trigger] final(qep)@[p] == old(qep)@[4 + p] && final(qep)@[4 + p]
                    == old(qep)@[p]
            &&& forall|p: int| 8 <= p < old(qep)@.len() ==> final(qep)@[p] == old(qep)@[p]
            &&& forall|k: int|
                0 <= k < 16 ==> #[trigger] nibble(final(qblock)@, k) == 15 - nibble(old(qblock)@, k)
        },
{
    proof {
        lemma_pow2_values();
        assert forall|k: int| 0 <= k < 16 implies nibble(qblock@, k) < pow2(4) by {
            lemma_field_bound(qblock@[k / 8] as nat, (4 * (k % 8)) as nat, 4);
        }
    }
    bc7_code_apply_swap_mode456(qep, 4, qblock, 4);
    let ghost fields = mode6_fields(qep@);
    proof {
        assert forall|i: int| 0 <= i < 8 implies 0 <= #[trigger] qep@[i] < 256 by {
            if i < 4 {
                assert(qep@[i] == old(qep)@[i] || qep@[i] == old(qep)@[4 + i]);
            } else {
                assert(qep@[4 + (i - 4)] == old(qep)@[i - 4] || qep@[4 + (i - 4)] == old(qep)@[4
                    + (i - 4)]);
            }
        }
        assert(field(0, 0, 1) == 0) by {
            lemma_field_bound(0, 0, 1);
            vstd::arithmetic::div_mod::lemma_small_mod(0, 2);
        }
        assert(laid_out(fields, 0) == 0 && fields_width(fields, 0) == 0);
    }
    let mut data = [0u32; 5];
    let mut pos: u32 = 0;
    proof {
        crate::bits::lemma_field_above(words_value(data@), pos as nat, 7);
    }
    put_bits(&mut data, &mut pos, 7, 64);
    proof {
        assert(fields[0].value * pow2(0) == 64) by (nonlinear_arith)
            requires
                fields[0].value == 64,
                pow2(0) == 1,
        ;
        assert(words_value(data@) == laid_out(fields, 1) && pos == fields_width(fields, 1));
    }
    proof {
        crate::bits::lemma_field_above(words_value(data@), pos as nat, 7);
    }
    put_bits(&mut data, &mut pos, 7, (qep[0] as u32) / 2);
    assert(words_value(data@) == laid_out(fields, 2) && pos == fields_width(fields, 2));
    proof {
        crate::bits::lemma_field_above(words_value(data@), pos as nat, 7);
    }
    put_bits(&mut data, &mut pos, 7, (qep[4] as u32) / 2);
    assert(words_value(data@) == laid_out(fields, 3) && pos == fields_width(fields, 3));
    proof {
        crate::bits::lemma_field_above(words_value(data@), pos as nat, 7);
    }
    put_bits(&mut data, &mut pos, 7, (qep[1] as u32) / 2);
    assert(words_value(data@) == laid_out(fields, 4) && pos == fields_width(fields, 4));
    proof {
        crate::bits::lemma_field_above(words_value(data@), pos as nat, 7);
    }
    put_bits(&mut data, &mut pos, 7, (qep[5] as u32) / 2);
    assert(words_value(data@) == laid_out(fields, 5) && pos == fields_width(fields, 5));
    proof {
        crate::bits::lemma_field_above(words_value(data@), pos as nat, 7);
    }
    put_bits(&mut data, &mut pos, 7, (qep[2] as u32) / 2);
    assert(words_value(data@) == laid_out(fields, 6) && pos == fields_width(fields, 6));
    proof {
        crate::bits::lemma_field_above(words_value(data@), pos as nat, 7);
    }
    put_bits(&mut data, &mut pos, 7, (qep[6] as u32) / 2);
    assert(words_value(data@) == laid_out(fields, 7) && pos == fields_width(fields, 7));
    proof {
        crate::bits::lemma_field_above(words_value(data@), pos as nat, 7);
    }
    put_bits(&mut data, &mut pos, 7, (qep[3] as u32) / 2);
    assert(words_value(data@) == laid_out(fields, 8) && pos == fields_width(fields, 8));
    proof {
        crate::bits::lemma_field_above(words_value(data@), pos as nat, 7);
    }
    put_bits(&mut data, &mut pos, 7, (qep[7] as u32) / 2);
    assert(words_value(data@) == laid_out(fields, 9) && pos == fields_width(fields, 9));
    proof {
        crate::bits::lemma_field_above(words_value(data@), pos as nat, 1);
    }
    put_bits(&mut data, &mut pos, 1, (qep[0] as u32) % 2);
    assert(words_value(data@) == laid_out(fields, 10) && pos == fields_width(fields, 10));
    proof {
        crate::bits::lemma_field_above(words_value(data@), pos as nat, 1);
    }
    put_bits(&mut data, &mut pos, 1, (qep[4] as u32) % 2);
    assert(words_value(data@) == laid_out(fields, 11) && pos == fields_width(fields, 11));
    assert(pos == 65);
    bc7_code_qblock(&mut data, &mut pos, *qblock, 4, 0);
    data
}

/// In the modes with one subset, 4 to 6, the primary indices lie one after
/// the other, the first with one bit less than the others.
pub proof fn lemma_single_subset_index_offset(v: nat, mode: nat, k: nat)
    requires
        4 <= mode <= 6,
        k <= 16,
    ensures
        crate::decode::bc7::bc7_index_offset(v, mode, k) == super::common::coded_offset(
            crate::decode::bc7::bc7_layout(mode).index_bits as nat,
            k,
        ),
        k < 16 ==> crate::decode::bc7::bc7_index_width(v, mode, k) == super::common::coded_width(
            crate::decode::bc7::bc7_layout(mode).index_bits as nat,
            k,
        ),
    decreases k,
{
    let bits = crate::decode::bc7::bc7_layout(mode).index_bits as nat;
    if k > 0 {
        lemma_single_subset_index_offset(v, mode, (k - 1) as nat);
        if k > 1 {
            super::common::lemma_coded_offset(bits, (k - 1) as nat);
        }
        super::common::lemma_coded_offset(bits, k);
    }
}

/// Every field of a block that is coded in mode 4 or 5 is read back by the
/// decoder: the mode, the rotation, the bit that says that the index sets
/// have changed places, every component of the endpoints, widened to eight
/// bits, and every index of the two sets.
#[verifier::rlimit(80)]
pub proof fn lemma_mode45_round_trip(
    qep: Seq<i32>,
    aqep: Seq<i32>,
    first: Seq<u32>,
    second: Seq<u32>,
    rotation: u32,
    swap: u32,
    mode: nat,
    k: nat,
    e: nat,
    ch: nat,
)
    requires
        mode == 4 || mode == 5,
        rotation < 4,
        swap < 2,
        mode == 5 ==> swap == 0,
        qep.len() == 8,
        aqep.len() == 2,
        first.len() == 2,
        second.len() == 2,
        forall|i: int|
            0 <= i < 8 ==> 0 <= #[trigger] qep[i] < pow2(
                if mode == 4 {
                    5nat
                } else {
                    7nat
                },
            ),
        forall|i: int|
            0 <= i < 2 ==> 0 <= #[trigger] aqep[i] < pow2(
                if mode == 4 {
                    6nat
                } else {
                    8nat
                },
            ),
        forall|j: int| 0 <= j < 16 ==> nibble(first, j) < 4,
        nibble(first, 0) < 2,
        forall|j: int| 0 <= j < 16 ==> nibble(second, j) < pow2(mode45_second_bits(mode as int)),
        nibble(second, 0) < pow2((mode45_second_bits(mode as int) - 1) as nat),
        k < 16,
        e < 2,
        ch < 4,
    ensures
        ({
            let v = bc7_block_45(qep, aqep, first, second, rotation, swap, mode as int);
            &&& v < pow2(128)
            &&& crate::decode::bc7::bc7_mode(v) == mode
            &&& crate::decode::bc7::bc7_rotation(v, mode) == (rotation + 1) % 4
            &&& crate::decode::bc7::bc7_selection(v, mode) == swap
            &&& crate::decode::bc7::bc7_endpoint(v, mode, e, ch) == (if ch < 3 {
                bc7_expand(
                    qep[(4 * e + ch) as int] as nat,
                    if mode == 4 {
                        5nat
                    } else {
                        7nat
                    },
                )
            } else {
                bc7_expand(
                    aqep[e as int] as nat,
                    if mode == 4 {
                        6nat
                    } else {
                        8nat
                    },
                )
            })
            &&& crate::decode::bc7::bc7_index(v, mode, k) == nibble(first, k as int)
            &&& crate::decode::bc7::bc7_index2(v, mode, k) == nibble(second, k as int)
        }),
{
    let m = mode as int;
    let fields = mode45_fields(qep, aqep, rotation, swap, m);
    let v = bc7_block_45(qep, aqep, first, second, rotation, swap, m);
    let low = laid_out(fields, 11);
    let abits = mode45_second_bits(m);
    let c1 = coded_indices(first, 2, 0, 16);
    let c2 = coded_indices(second, abits, 0, 16);
    let w = fields_width(fields, 11);
    lemma_pow2_values();
    reveal_with_fuel(fields_width, 12);
    lemma_pow2_strictly_increases(mode, mode + 1);
    assert(0 <= qep[0] && 0 <= qep[1] && 0 <= qep[2] && 0 <= qep[4] && 0 <= qep[5] && 0 <= qep[6]
        && 0 <= aqep[0] && 0 <= aqep[1]);
    assert forall|j: int| 0 <= j < 11 implies (#[trigger] fields[j]).value < pow2(
        fields[j].width as nat,
    ) by {
    }
    assert(w == (if mode == 4 {
        50nat
    } else {
        66nat
    }));
    assert(field(0, 0, 1) == 0 && field(0, k, 1) == 0) by {
        lemma_field_bound(0, 0, 1);
        lemma_pow2_pos(k);
        vstd::arithmetic::div_mod::lemma_div_basics(pow2(k) as int);
        vstd::arithmetic::div_mod::lemma_small_mod(0, 2);
    }
    assert(forall|j: int| 0 <= j < 16 ==> nibble(first, j) < pow2(2));
    super::common::lemma_coded_indices_bound(first, 2, 0, 16);
    super::common::lemma_coded_indices_bound(second, abits, 0, 16);
    super::common::lemma_coded_offset(2, 16);
    super::common::lemma_coded_offset(abits, 16);
    super::common::lemma_laid_out_field(fields, 11, 0);
    let upper = c1 + pow2(31) * c2;
    lemma_pow2_adds(w, 31);
    lemma_pow2_adds(31, (16 * abits - 1) as nat);
    lemma_pow2_adds(w, (31 + 16 * abits - 1) as nat);
    assert(v == low + pow2(w) * upper) by (nonlinear_arith)
        requires
            v == low + c1 * pow2(w) + c2 * pow2(w + 31),
            pow2(w + 31) == pow2(w) * pow2(31),
            upper == c1 + pow2(31) * c2,
    ;
    assert(upper < pow2((31 + 16 * abits - 1) as nat)) by (nonlinear_arith)
        requires
            upper == c1 + pow2(31) * c2,
            c1 < pow2(31),
            c2 < pow2((16 * abits - 1) as nat),
            pow2((31 + 16 * abits - 1) as nat) == pow2(31) * pow2((16 * abits - 1) as nat),
    ;
    assert(v < pow2(128)) by (nonlinear_arith)
        requires
            v == low + pow2(w) * upper,
            low < pow2(w),
            upper < pow2((31 + 16 * abits - 1) as nat),
            pow2(128) == pow2(w) * pow2((31 + 16 * abits - 1) as nat),
    ;
    // the mode, the rotation and the selection
    let p0 = pow2(0);
    assert(v / p0 == v) by (nonlinear_arith)
        requires
            p0 == 1,
    ;
    crate::bits::lemma_field_of_sum(low, upper, w, 0, mode + 1);
    assert(field(v, 0, mode + 1) == pow2(mode));
    if mode == 4 {
        vstd::arithmetic::div_mod::lemma_mod_mod(v as int, 32, 8);
    } else {
        vstd::arithmetic::div_mod::lemma_mod_mod(v as int, 64, 4);
    }
    assert(crate::decode::bc7::bc7_mode(v) == mode);
    crate::decode::bc7::lemma_bc7_positions(mode);
    super::common::lemma_laid_out_field(fields, 11, 1);
    super::common::lemma_laid_out_field(fields, 11, 2);
    crate::bits::lemma_field_of_sum(low, upper, w, mode + 1, 2);
    crate::bits::lemma_field_of_sum(low, upper, w, mode + 3, fields[2].width as nat);
    assert(crate::decode::bc7::bc7_rotation(v, mode) == (rotation + 1) % 4);
    assert(crate::decode::bc7::bc7_selection(v, mode) == swap) by {
        if mode == 5 {
            vstd::arithmetic::div_mod::lemma_mod_bound((v / pow2(8)) as int, p0 as int);
        }
    }
    // the endpoints
    let epbits: nat = if mode == 4 {
        5
    } else {
        7
    };
    let aepbits: nat = if mode == 4 {
        6
    } else {
        8
    };
    if ch < 3 {
        let i = (3 + 2 * ch + e) as nat;
        super::common::lemma_laid_out_field(fields, 11, i);
        assert(fields_width(fields, i) == 8 + (2 * ch + e) * epbits) by (nonlinear_arith)
            requires
                fields_width(fields, i) == (if i == 3 {
                    8nat
                } else if i == 4 {
                    8 + epbits
                } else if i == 5 {
                    8 + 2 * epbits
                } else if i == 6 {
                    8 + 3 * epbits
                } else if i == 7 {
                    8 + 4 * epbits
                } else {
                    8 + 5 * epbits
                }),
                i == 3 + 2 * ch + e,
                3 <= i <= 8,
        ;
        assert(fields[i as int].value == qep[(4 * e + ch) as int]);
        crate::bits::lemma_field_of_sum(
            low,
            upper,
            w,
            fields_width(fields, i),
            epbits,
        );
        assert(crate::decode::bc7::bc7_endpoint_pos(mode) + ((ch * (2 * 1) + e) * epbits) as nat
            == fields_width(fields, i)) by (nonlinear_arith)
            requires
                crate::decode::bc7::bc7_endpoint_pos(mode) == 8,
                fields_width(fields, i) == 8 + (2 * ch + e) * epbits,
        ;
    } else {
        let i = (9 + e) as nat;
        super::common::lemma_laid_out_field(fields, 11, i);
        assert(fields_width(fields, i) == 8 + 6 * epbits + e * aepbits) by (nonlinear_arith)
            requires
                fields_width(fields, i) == (if i == 9 {
                    8 + 6 * epbits
                } else {
                    8 + 6 * epbits + aepbits
                }),
                i == 9 + e,
                e < 2,
        ;
        crate::bits::lemma_field_of_sum(
            low,
            upper,
            w,
            fields_width(fields, i),
            aepbits,
        );
        assert(crate::decode::bc7::bc7_alpha_pos(mode) + e * aepbits == fields_width(fields, i))
            by (nonlinear_arith)
            requires
                crate::decode::bc7::bc7_alpha_pos(mode) == 8 + 6 * epbits,
                fields_width(fields, i) == 8 + 6 * epbits + e * aepbits,
        ;
    }
    // the indices
    lemma_single_subset_index_offset(v, mode, k);
    lemma_single_subset_index_offset(v, mode, 16);
    super::common::lemma_coded_index_field(first, 2, 0, 16, k);
    super::common::lemma_coded_index_field(second, abits, 0, 16, k);
    let off1 = super::common::coded_offset(2, k);
    let w1 = super::common::coded_width(2, k);
    let off2 = super::common::coded_offset(abits, k);
    let w2 = super::common::coded_width(abits, k);
    if k > 0 {
        super::common::lemma_coded_offset(2, k);
        super::common::lemma_coded_offset(abits, k);
    }
    assert(off1 + w1 <= 31) by (nonlinear_arith)
        requires
            k < 16,
            k == 0 ==> off1 == 0 && w1 == 1,
            k > 0 ==> off1 == k * 2 - 1 && w1 == 2,
    ;
    crate::bits::lemma_field_of_sum(low, upper, w, off1, w1);
    crate::bits::lemma_field_of_sum(c1, c2, 31, off1, w1);
    assert(crate::decode::bc7::bc7_index(v, mode, k) == nibble(first, k as int));
    crate::bits::lemma_field_of_sum(low, upper, w, 31 + off2, w2);
    crate::bits::lemma_field_of_sum(c1, c2, 31, off2, w2);
    assert(crate::decode::bc7::bc7_index2_offset(mode, k) == off2);
    assert(crate::decode::bc7::bc7_index2_width(mode, k) == w2);
    assert(crate::decode::bc7::bc7_index2(v, mode, k) == nibble(second, k as int));
}

/// A block that is coded in mode 6 decodes to what it was coded from: every
/// channel of every pixel lies between the two endpoints of the channel at
/// the weight of the index of the pixel. The endpoints are those that were
/// written, each with the lowest bit of the red component of its endpoint.
#[verifier::rlimit(80)]
pub proof fn lemma_mode6_round_trip(qep: Seq<i32>, qblock: Seq<u32>, k: nat, ch: nat)
    requires
        qep.len() >= 8,
        forall|i: int| 0 <= i < 8 ==> 0 <= #[trigger] qep[i] < 256,
        qblock.len() == 2,
        nibble(qblock, 0) < 8,
        k < 16,
        ch < 4,
    ensures
        bc7_block_6(qep, qblock) < pow2(128),
        crate::decode::bc7::bc7_mode(bc7_block_6(qep, qblock)) == 6,
        crate::decode::bc7::bc7_channel(bc7_block_6(qep, qblock), 6, k, ch)
            == crate::decode::bc7::interpolate(
            2 * (qep[ch as int] / 2) + qep[0] % 2,
            2 * (qep[4 + ch as int] / 2) + qep[4] % 2,
            crate::partition::weight(4, nibble(qblock, k as int) as int),
        ),
{
    let fields = mode6_fields(qep);
    let v = bc7_block_6(qep, qblock);
    let low = laid_out(fields, 11);
    let coded = coded_indices(qblock, 4, 0, 16);
    lemma_pow2_values();
    reveal_with_fuel(fields_width, 12);
    assert(0 <= qep[0] && 0 <= qep[1] && 0 <= qep[2] && 0 <= qep[3] && 0 <= qep[4] && 0 <= qep[5]
        && 0 <= qep[6] && 0 <= qep[7]);
    assert forall|j: int| 0 <= j < 11 implies (#[trigger] fields[j]).value < pow2(
        fields[j].width as nat,
    ) by {
    }
    assert(fields_width(fields, 11) == 65);
    assert forall|j: int| 0 <= j < 16 implies nibble(qblock, j) < pow2(4) by {
        lemma_field_bound(qblock[j / 8] as nat, (4 * (j % 8)) as nat, 4);
    }
    assert(field(0, 0, 1) == 0 && field(0, k, 1) == 0) by {
        lemma_field_bound(0, 0, 1);
        lemma_pow2_pos(k);
        vstd::arithmetic::div_mod::lemma_div_basics(pow2(k) as int);
        vstd::arithmetic::div_mod::lemma_small_mod(0, 2);
    }
    super::common::lemma_coded_indices_bound(qblock, 4, 0, 16);
    super::common::lemma_coded_offset(4, 16);
    lemma_pow2_adds(65, 63);
    super::common::lemma_laid_out_field(fields, 11, 0);
    assert(v == low + pow2(65) * coded) by (nonlinear_arith)
        requires
            v == low + coded * pow2(65),
    ;
    assert(v < pow2(128)) by (nonlinear_arith)
        requires
            v == low + pow2(65) * coded,
            low < pow2(65),
            coded < pow2(63),
            pow2(128) == pow2(65) * pow2(63),
    ;
    // the mode
    crate::bits::lemma_field_of_sum(low, coded, 65, 0, 7);
    assert(field(v, 0, 7) == 64);
    let p0 = pow2(0);
    assert(v / p0 == v) by (nonlinear_arith)
        requires
            p0 == 1,
    ;
    assert(v % 128 == 64);
    vstd::arithmetic::div_mod::lemma_mod_mod(v as int, 128, 2);
    assert((v % 256) % 128 == 64);
    assert(crate::decode::bc7::bc7_mode(v) == 6);
    // the endpoints and their p-bits
    crate::decode::bc7::lemma_bc7_positions(6);
    let first = (1 + 2 * ch) as nat;
    let second = (2 + 2 * ch) as nat;
    super::common::lemma_laid_out_field(fields, 11, first);
    super::common::lemma_laid_out_field(fields, 11, second);
    super::common::lemma_laid_out_field(fields, 11, 9);
    super::common::lemma_laid_out_field(fields, 11, 10);
    assert(fields_width(fields, first) == 7 + 14 * ch);
    assert(fields_width(fields, second) == 14 + 14 * ch);
    assert(fields_width(fields, 9) == 63);
    assert(fields_width(fields, 10) == 64);
    crate::bits::lemma_field_of_sum(low, coded, 65, (7 + 14 * ch) as nat, 7);
    crate::bits::lemma_field_of_sum(low, coded, 65, (14 + 14 * ch) as nat, 7);
    crate::bits::lemma_field_of_sum(low, coded, 65, 63, 1);
    crate::bits::lemma_field_of_sum(low, coded, 65, 64, 1);
    assert(field(v, (7 + 14 * ch) as nat, 7) == qep[ch as int] / 2);
    assert(field(v, (14 + 14 * ch) as nat, 7) == qep[4 + ch as int] / 2);
    assert(field(v, 63, 1) == qep[0] % 2);
    assert(field(v, 64, 1) == qep[4] % 2);
    let e0 = 2 * (qep[ch as int] / 2) + qep[0] % 2;
    let e1 = 2 * (qep[4 + ch as int] / 2) + qep[4] % 2;
    let p8 = pow2(8);
    assert(crate::decode::bc7::bc7_expand(e0 as nat, 8) == e0 && crate::decode::bc7::bc7_expand(
        e1 as nat,
        8,
    ) == e1) by (nonlinear_arith)
        requires
            crate::decode::bc7::bc7_expand(e0 as nat, 8) == (e0 as nat) * p0 + (e0 as nat) / p8,
            crate::decode::bc7::bc7_expand(e1 as nat, 8) == (e1 as nat) * p0 + (e1 as nat) / p8,
            p0 == 1,
            p8 == 256,
            0 <= e0 < 256,
            0 <= e1 < 256,
    ;
    assert(crate::decode::bc7::bc7_endpoint(v, 6, 0, ch) == e0) by {
        assert(crate::decode::bc7::bc7_pbit(v, 6, 0) == qep[0] % 2);
        if ch < 3 {
            assert(crate::decode::bc7::bc7_endpoint_pos(6) + ((ch * (2 * 1) + 0) * 7) as nat == 7
                + 14 * ch);
        } else {
            assert(crate::decode::bc7::bc7_alpha_pos(6) + 0 * 7 == 7 + 14 * ch);
        }
    }
    assert(crate::decode::bc7::bc7_endpoint(v, 6, 1, ch) == e1) by {
        assert(crate::decode::bc7::bc7_pbit(v, 6, 1) == qep[4] % 2);
        if ch < 3 {
            assert(crate::decode::bc7::bc7_endpoint_pos(6) + ((ch * (2 * 1) + 1) * 7) as nat == 14
                + 14 * ch);
        } else {
            assert(crate::decode::bc7::bc7_alpha_pos(6) + 1 * 7 == 14 + 14 * ch);
        }
    }
    // the index
    lemma_single_subset_index_offset(v, 6, k);
    super::common::lemma_coded_index_field(qblock, 4, 0, 16, k);
    crate::bits::lemma_field_of_sum(
        low,
        coded,
        65,
        super::common::coded_offset(4, k),
        super::common::coded_width(4, k),
    );
    assert(crate::decode::bc7::bc7_index(v, 6, k) == nibble(qblock, k as int));
    // no rotation, one subset
    assert(crate::decode::bc7::bc7_rotation(v, 6) == 0) by {
        vstd::arithmetic::div_mod::lemma_mod_bound((v / pow2(7)) as int, p0 as int);
    }
    assert(crate::decode::bc7::bc7_subset(v, 6, k) == 0);
}

/// The number of bits of the partition number of a partitioned mode.
pub open spec fn mode_partition_bits(mode: int) -> int {
    if mode == 0 {
        4
    } else {
        6
    }
}

/// The bit at which field `n` of a block of a partitioned mode starts.
pub open spec fn mode01237_place(mode: int, n: int) -> int {
    let count = mode_channels(mode) * 2 * mode_pairs(mode);
    let head = mode + 1 + mode_partition_bits(mode);
    if n == 0 {
        0
    } else if n == 1 {
        mode + 1
    } else if n <= 2 + count {
        head + (n - 2) * mode_endpoint_bits(mode)
    } else {
        head + count * mode_endpoint_bits(mode) + (n - 2 - count)
    }
}

/// The fields of a block of a partitioned mode lie one after the other, the
/// endpoints with the bits of the mode and the p-bits with one bit each, and
/// each fits its bits.
#[verifier::rlimit(50)]
pub proof fn lemma_mode01237_places(qep: Seq<i32>, part_id: int, mode: int, n: nat)
    requires
        mode == 0 || mode == 1 || mode == 2 || mode == 3 || mode == 7,
        0 <= part_id < 128,
        qep_fits_mode(qep, mode),
        n <= mode01237_fields(qep, part_id, mode).len(),
    ensures
        mode01237_fields(qep, part_id, mode).len() == 2 + mode_channels(mode) * 2 * mode_pairs(mode)
            + pbit_count(mode),
        fields_width(mode01237_fields(qep, part_id, mode), n) == mode01237_place(mode, n as int),
        forall|j: int|
            0 <= j < n ==> (#[trigger] mode01237_fields(qep, part_id, mode)[j]).value < pow2(
                mode01237_fields(qep, part_id, mode)[j].width as nat,
            ),
    decreases n,
{
    let fields = mode01237_fields(qep, part_id, mode);
    let pairs = mode_pairs(mode);
    let count = mode_channels(mode) * 2 * pairs;
    let bits = mode_endpoint_bits(mode);
    lemma_pow2_values();
    if n > 0 {
        lemma_mode01237_places(qep, part_id, mode, (n - 1) as nat);
        let i = n - 1;
        if i == 0 {
            lemma_pow2_strictly_increases(mode as nat, (mode + 1) as nat);
            assert(fields[0] == (BitField {
                value: pow2(mode as nat) as u32,
                width: (mode + 1) as u32,
            }));
        } else if i == 1 {
            assert(fields[1].width == mode_partition_bits(mode));
            assert(fields[1].value < pow2(fields[1].width as nat));
        } else if i < 2 + count {
            let e = (i - 2) % (2 * pairs);
            let ch = (i - 2) / (2 * pairs);
            assert(fields[i] == endpoint_field(qep, mode, i - 2));
            assert(0 <= ch < 4);
            assert(0 <= qep[4 * e + ch]);
            assert((i - 1) * bits == (i - 2) * bits + bits) by (nonlinear_arith);
        } else {
            let j = i - 2 - count;
            assert(fields[i] == pbit_field(qep, mode, j));
            assert(0 <= qep[4 * (if mode == 1 {
                2 * j
            } else {
                j
            }) + 0]);
        }
    }
}

/// The indices of a block of a partitioned mode as the block holds them:
/// without the spare bits of the anchors.
pub open spec fn mode01237_indices(qblock: Seq<u32>, part_id: int, mode: int) -> nat {
    super::common::anchored(
        coded_indices(
            qblock,
            mode_index_bits(mode) as nat,
            swap_flips(qblock, mode, part_id, mode_pairs(mode) as nat),
            16,
        ),
        mode_index_bits(mode) as nat,
        mode_pairs(mode),
        crate::partition::anchor_of(part_id, 1),
        crate::partition::anchor_of(part_id, 2),
    )
}

/// A block of a partitioned mode is its fields and, above them, its indices
/// without the spare bits of the anchors.
#[verifier::rlimit(50)]
pub proof fn lemma_mode01237_block(qep: Seq<i32>, qblock: Seq<u32>, part_id: int, mode: int)
    requires
        mode == 0 || mode == 1 || mode == 2 || mode == 3 || mode == 7,
        mode_pairs(mode) == 3 ==> 64 <= part_id < 128,
        mode_pairs(mode) == 2 ==> 0 <= part_id < 64,
        qep_fits_mode(qep, mode),
    ensures
        fields_width(
            mode01237_fields(qep, part_id, mode),
            mode01237_fields(qep, part_id, mode).len(),
        ) == super::common::mode_index_start(mode),
        laid_out(mode01237_fields(qep, part_id, mode), mode01237_fields(qep, part_id, mode).len())
            < pow2(super::common::mode_index_start(mode) as nat),
        bc7_block_01237(qep, qblock, part_id, mode) == laid_out(
            mode01237_fields(qep, part_id, mode),
            mode01237_fields(qep, part_id, mode).len(),
        ) + pow2(super::common::mode_index_start(mode) as nat) * mode01237_indices(
            qblock,
            part_id,
            mode,
        ),
{
    let fields = mode01237_fields(qep, part_id, mode);
    let low = laid_out(fields, fields.len());
    let start = super::common::mode_index_start(mode) as nat;
    let coded = coded_indices(
        qblock,
        mode_index_bits(mode) as nat,
        swap_flips(qblock, mode, part_id, mode_pairs(mode) as nat),
        16,
    );
    lemma_mode01237_places(qep, part_id, mode, fields.len());
    assert(fields_width(fields, fields.len()) == start);
    super::common::lemma_laid_out_field(fields, fields.len(), 0);
    assert(coded * pow2(start) == pow2(start) * coded) by (nonlinear_arith);
    super::common::lemma_skips_adjusted(low, coded, mode, part_id);
}

/// The eight bits of channel `ch` of endpoint `e` that a block of a
/// partitioned mode gives the decoder: the component without its lowest bit,
/// the p-bit of the endpoint in its place, widened; in mode 2 the component
/// widened; 255 for alpha where the mode stores none.
pub open spec fn coded_endpoint(qep: Seq<i32>, mode: int, e: int, ch: int) -> nat {
    if ch == 3 && mode != 7 {
        255
    } else if mode_has_pbits(mode) {
        bc7_expand(
            (2 * (qep[4 * e + ch] / 2) + qep[if mode == 1 {
                8 * (e / 2)
            } else {
                4 * e
            }] % 2) as nat,
            (mode_endpoint_bits(mode) + 1) as nat,
        )
    } else {
        bc7_expand(qep[4 * e + ch] as nat, mode_endpoint_bits(mode) as nat)
    }
}

/// The decoder finds every endpoint of a block of a partitioned mode as the
/// block gives it.
#[verifier::rlimit(80)]
pub proof fn lemma_mode01237_endpoint(
    qep: Seq<i32>,
    qblock: Seq<u32>,
    part_id: int,
    mode: int,
    e: int,
    ch: int,
)
    requires
        mode == 0 || mode == 1 || mode == 2 || mode == 3 || mode == 7,
        mode_pairs(mode) == 3 ==> 64 <= part_id < 128,
        mode_pairs(mode) == 2 ==> 0 <= part_id < 64,
        qep_fits_mode(qep, mode),
        0 <= e < 2 * mode_pairs(mode),
        0 <= ch < 4,
    ensures
        crate::decode::bc7::bc7_endpoint(
            bc7_block_01237(qep, qblock, part_id, mode),
            mode as nat,
            e as nat,
            ch as nat,
        ) == coded_endpoint(qep, mode, e, ch),
{
    let v = bc7_block_01237(qep, qblock, part_id, mode);
    let fields = mode01237_fields(qep, part_id, mode);
    let low = laid_out(fields, fields.len());
    let start = super::common::mode_index_start(mode) as nat;
    let above = mode01237_indices(qblock, part_id, mode);
    let pairs = mode_pairs(mode);
    let count = mode_channels(mode) * 2 * pairs;
    let bits = mode_endpoint_bits(mode);
    lemma_pow2_values();
    lemma_mode01237_block(qep, qblock, part_id, mode);
    lemma_mode01237_places(qep, part_id, mode, fields.len());
    crate::decode::bc7::lemma_bc7_positions(mode as nat);
    assert(0 <= qep[4 * e + ch]);
    assert(0 <= qep[4 * e + 0]);
    assert(0 <= qep[4 * (2 * (e / 2)) + 0]);
    if ch < mode_channels(mode) {
        // the component
        let i = ch * (2 * pairs) + e;
        assert(i % (2 * pairs) == e && i / (2 * pairs) == ch) by (nonlinear_arith)
            requires
                i == ch * (2 * pairs) + e,
                0 <= e < 2 * pairs,
                0 <= ch,
        ;
        assert(0 <= i < count) by (nonlinear_arith)
            requires
                i == ch * (2 * pairs) + e,
                0 <= e < 2 * pairs,
                0 <= ch < mode_channels(mode),
                count == mode_channels(mode) * 2 * pairs,
        ;
        let n = (2 + i) as nat;
        lemma_mode01237_places(qep, part_id, mode, n);
        lemma_mode01237_places(qep, part_id, mode, n + 1);
        super::common::lemma_laid_out_field(fields, fields.len(), n);
        super::common::lemma_fields_width_grows(fields, n + 1, fields.len());
        assert(fields[n as int] == endpoint_field(qep, mode, i));
        let at = fields_width(fields, n);
        assert(at + bits == fields_width(fields, n + 1));
        crate::bits::lemma_field_of_sum(low, above, start, at, bits as nat);
        assert(field(v, at, bits as nat) == fields[n as int].value);
        assert(at == mode + 1 + mode_partition_bits(mode) + i * bits);
        if ch < 3 {
            assert((ch * (2 * pairs) + e) * bits == i * bits);
        } else {
            assert(i * bits == 60 + e * 5);
        }
    }
    if mode_has_pbits(mode) {
        // the p-bit
        let j = if mode == 1 {
            e / 2
        } else {
            e
        };
        let n = (2 + count + j) as nat;
        lemma_mode01237_places(qep, part_id, mode, n);
        lemma_mode01237_places(qep, part_id, mode, n + 1);
        super::common::lemma_laid_out_field(fields, fields.len(), n);
        super::common::lemma_fields_width_grows(fields, n + 1, fields.len());
        assert(fields[n as int] == pbit_field(qep, mode, j));
        let at = fields_width(fields, n);
        crate::bits::lemma_field_of_sum(low, above, start, at, 1);
        assert(crate::decode::bc7::bc7_pbit(v, mode as nat, e as nat) == fields[n as int].value);
    }
}

/// In a partitioned mode the decoder reads the indices one after the other,
/// those of the anchors with one bit less than the others.
pub proof fn lemma_partitioned_index_offset(v: nat, mode: nat, k: nat)
    requires
        mode == 0 || mode == 1 || mode == 2 || mode == 3 || mode == 7,
        k <= 16,
        1 <= crate::partition::anchor_of(crate::decode::bc7::bc7_shape(v, mode), 1) <= 15,
        mode_pairs(mode as int) == 3 ==> 1 <= crate::partition::anchor_of(
            crate::decode::bc7::bc7_shape(v, mode),
            2,
        ) <= 15 && crate::partition::anchor_of(crate::decode::bc7::bc7_shape(v, mode), 1)
            != crate::partition::anchor_of(crate::decode::bc7::bc7_shape(v, mode), 2),
    ensures
        crate::decode::bc7::bc7_index_offset(v, mode, k) == super::common::read_offset(
            mode_index_bits(mode as int) as nat,
            mode_pairs(mode as int),
            crate::partition::anchor_of(crate::decode::bc7::bc7_shape(v, mode), 1),
            crate::partition::anchor_of(crate::decode::bc7::bc7_shape(v, mode), 2),
            k as int,
        ),
        k < 16 ==> crate::decode::bc7::bc7_index_width(v, mode, k) == super::common::read_width(
            mode_index_bits(mode as int) as nat,
            mode_pairs(mode as int),
            crate::partition::anchor_of(crate::decode::bc7::bc7_shape(v, mode), 1),
            crate::partition::anchor_of(crate::decode::bc7::bc7_shape(v, mode), 2),
            k as int,
        ),
    decreases k,
{
    let bits = mode_index_bits(mode as int) as nat;
    if k > 0 {
        lemma_partitioned_index_offset(v, mode, (k - 1) as nat);
        if k > 1 {
            super::common::lemma_coded_offset(bits, (k - 1) as nat);
            assert((k - 1) * bits >= 2 * (k - 1)) by (nonlinear_arith)
                requires
                    bits >= 2,
                    k >= 1,
            ;
        }
        super::common::lemma_coded_offset(bits, k);
        assert(k * bits >= 2 * k) by (nonlinear_arith)
            requires
                bits >= 2,
        ;
    }
}

/// A block of a partitioned mode fills sixteen bytes and decodes to what it
/// was coded from: the decoder finds the mode, the shape and every index as
/// it was written, and every channel of every pixel lies between the two
/// endpoints of the subset of the pixel, as the block gives them, at the
/// weight of that index.
#[verifier::rlimit(80)]
pub proof fn lemma_mode01237_round_trip(
    qep: Seq<i32>,
    qblock: Seq<u32>,
    part_id: int,
    mode: int,
    k: nat,
    ch: nat,
)
    requires
        mode == 0 || mode == 1 || mode == 2 || mode == 3 || mode == 7,
        mode_pairs(mode) == 3 ==> 64 <= part_id < 128,
        mode == 0 ==> part_id < 80,
        mode_pairs(mode) == 2 ==> 0 <= part_id < 64,
        qep_fits_mode(qep, mode),
        qblock.len() == 2,
        forall|j: int| 0 <= j < 16 ==> nibble(qblock, j) < pow2(mode_index_bits(mode) as nat),
        k < 16,
        ch < 4,
    ensures
        bc7_block_01237(qep, qblock, part_id, mode) < pow2(128),
        crate::decode::bc7::bc7_mode(bc7_block_01237(qep, qblock, part_id, mode)) == mode,
        crate::decode::bc7::bc7_shape(bc7_block_01237(qep, qblock, part_id, mode), mode as nat)
            == part_id,
        crate::decode::bc7::bc7_index(bc7_block_01237(qep, qblock, part_id, mode), mode as nat, k)
            == super::common::coded_index(
            qblock,
            mode_index_bits(mode) as nat,
            swap_flips(qblock, mode, part_id, mode_pairs(mode) as nat),
            k as int,
        ),
        crate::decode::bc7::bc7_channel(
            bc7_block_01237(qep, qblock, part_id, mode),
            mode as nat,
            k,
            ch,
        ) == crate::decode::bc7::interpolate(
            coded_endpoint(qep, mode, 2 * crate::partition::subset_of(part_id, k as int), ch as int)
                as int,
            coded_endpoint(
                qep,
                mode,
                2 * crate::partition::subset_of(part_id, k as int) + 1,
                ch as int,
            ) as int,
            crate::partition::weight(
                mode_index_bits(mode),
                super::common::coded_index(
                    qblock,
                    mode_index_bits(mode) as nat,
                    swap_flips(qblock, mode, part_id, mode_pairs(mode) as nat),
                    k as int,
                ) as int,
            ),
        ),
{
    let v = bc7_block_01237(qep, qblock, part_id, mode);
    let fields = mode01237_fields(qep, part_id, mode);
    let low = laid_out(fields, fields.len());
    let start = super::common::mode_index_start(mode) as nat;
    let above = mode01237_indices(qblock, part_id, mode);
    let pairs = mode_pairs(mode);
    let bits = mode_index_bits(mode) as nat;
    let flips = swap_flips(qblock, mode, part_id, pairs as nat);
    let a1 = crate::partition::anchor_of(part_id, 1);
    let a2 = crate::partition::anchor_of(part_id, 2);
    lemma_pow2_values();
    lemma_mode01237_block(qep, qblock, part_id, mode);
    lemma_mode01237_places(qep, part_id, mode, fields.len());
    crate::decode::bc7::lemma_bc7_positions(mode as nat);
    // the anchors
    crate::partition::lemma_anchor_in_subset(part_id, 1);
    super::common::lemma_anchor_indices_short(qblock, mode, part_id, 0);
    super::common::lemma_anchor_indices_short(qblock, mode, part_id, 1);
    if pairs == 3 {
        crate::partition::lemma_anchor_in_subset(part_id, 2);
        super::common::lemma_anchor_indices_short(qblock, mode, part_id, 2);
    }
    // sixteen bytes
    super::common::lemma_anchored_bound(qblock, bits, flips, pairs, a1, a2);
    lemma_pow2_adds(start, (16 * bits - pairs) as nat);
    assert(v < pow2(128)) by (nonlinear_arith)
        requires
            v == low + pow2(start) * above,
            low < pow2(start),
            above < pow2((16 * bits - pairs) as nat),
            pow2(128) == pow2(start) * pow2((16 * bits - pairs) as nat),
    ;
    // the mode
    super::common::lemma_laid_out_field(fields, fields.len(), 0);
    super::common::lemma_fields_width_grows(fields, 1, fields.len());
    lemma_mode01237_places(qep, part_id, mode, 1);
    crate::bits::lemma_field_of_sum(low, above, start, 0, (mode + 1) as nat);
    assert(field(v, 0, (mode + 1) as nat) == pow2(mode as nat));
    let p0 = pow2(0);
    assert(v / p0 == v) by (nonlinear_arith)
        requires
            p0 == 1,
    ;
    if mode == 0 {
        vstd::arithmetic::div_mod::lemma_mod_mod(v as int, 2, 128);
    } else if mode == 1 {
        vstd::arithmetic::div_mod::lemma_mod_mod(v as int, 4, 64);
    } else if mode == 2 {
        vstd::arithmetic::div_mod::lemma_mod_mod(v as int, 8, 32);
    } else if mode == 3 {
        vstd::arithmetic::div_mod::lemma_mod_mod(v as int, 16, 16);
    }
    assert(crate::decode::bc7::bc7_mode(v) == mode);
    // the shape
    super::common::lemma_laid_out_field(fields, fields.len(), 1);
    super::common::lemma_fields_width_grows(fields, 2, fields.len());
    lemma_mode01237_places(qep, part_id, mode, 2);
    crate::bits::lemma_field_of_sum(
        low,
        above,
        start,
        (mode + 1) as nat,
        mode_partition_bits(mode) as nat,
    );
    assert(crate::decode::bc7::bc7_partition(v, mode as nat) == fields[1].value);
    assert(crate::decode::bc7::bc7_shape(v, mode as nat) == part_id);
    // the index
    lemma_partitioned_index_offset(v, mode as nat, k);
    super::common::lemma_anchored_index(qblock, bits, flips, pairs, a1, a2, k);
    crate::bits::lemma_field_of_sum(
        low,
        above,
        start,
        super::common::read_offset(bits, pairs, a1, a2, k as int),
        super::common::read_width(bits, pairs, a1, a2, k as int),
    );
    assert(crate::decode::bc7::bc7_index(v, mode as nat, k) == super::common::coded_index(
        qblock,
        bits,
        flips,
        k as int,
    ));
    // the endpoints of the subset of the pixel
    crate::partition::lemma_subset_bound(part_id, k as int);
    let subset = crate::partition::subset_of(part_id, k as int);
    lemma_mode01237_endpoint(qep, qblock, part_id, mode, 2 * subset, ch as int);
    lemma_mode01237_endpoint(qep, qblock, part_id, mode, 2 * subset + 1, ch as int);
    // no rotation, one set of indices
    assert(crate::decode::bc7::bc7_rotation(v, mode as nat) == 0) by {
        vstd::arithmetic::div_mod::lemma_mod_bound((v / pow2((mode + 1) as nat)) as int, p0 as int);
    }
    assert(crate::decode::bc7::bc7_subset(v, mode as nat, k) == subset);
}

} // verus!
