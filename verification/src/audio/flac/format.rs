//! What the parts of a stream mean, bit by bit.
//!
//! A reader and a writer that agree with each other could both be wrong about
//! the format. What is said here of a stream speaks of its bits and bytes alone.

use vstd::arithmetic::power2::{
    lemma2_to64, lemma2_to64_rest, lemma_pow2_pos, lemma_pow2_unfold, pow2,
};
use vstd::prelude::*;

use crate::audio::bytes::{le_bytes, lemma_le_bytes_len, lemma_le_round_trip};
use crate::audio::layout::{high_first, lemma_little_field, low_first};
use crate::audio::{SampleFormat, Sound};
use crate::error::Fault;

use super::bits::{
    bits_of, bytes_bits, crc8_of, lemma_bits_len, lemma_bytes_bits_len, lemma_value_of_small,
    lemma_value_zero, read_signed, read_unary, read_unsigned, read_utf8_number, read_utf8_tail,
    utf8_followers, value_of, zeros_at, UNARY_LIMIT,
};
use super::decode::{
    block_size_of, channels_of, escape, field, guess, left_of, lemma_frame_advances,
    lemma_run_length, lemma_subframe_advances, lifted, parameter_bits, partition_count, polynomial,
    read_block_size, read_codes, read_coefficients, read_frame, read_head, read_header,
    read_partition, read_partitions, read_residual, read_rice, read_run, read_sizes, read_subframe,
    restored, right_of, sample_rate_of, unfolded, weighted, FrameHeader, HeaderCodes, Rule,
};
use super::encode::{info_bits, info_of, opening_bits, stream_written, Predictor};
use super::md5::{filled_out, frame_layout, layout};
use super::metadata::{lemma_block_header, lemma_byte_field, lemma_field_parts};
use super::word::{lemma_wrap_small, wrap64};
use super::{
    decoded, joined, lemma_metadata_advances, raised, read_frames, read_metadata,
    read_metadata_block, read_stream_info, samples_fault, storage_format, Info,
};

verus! {

/// The difference of an order that ends at a sample: the difference of order zero
/// is the sample, and each further one is the difference of two neighbours of the
/// order before.
pub open spec fn difference(samples: Seq<i64>, order: nat, index: int) -> int
    decreases order,
{
    if order == 0 {
        samples[index] as int
    } else {
        difference(samples, (order - 1) as nat, index) - difference(
            samples,
            (order - 1) as nat,
            index - 1,
        )
    }
}

/// The samples before a place, the nearest first, weighed by coefficients.
pub open spec fn weighed(coefficients: Seq<i64>, samples: Seq<i64>, index: int) -> int
    decreases coefficients.len(),
{
    if coefficients.len() == 0 {
        0
    } else {
        coefficients[0] * samples[index - 1] + weighed(
            coefficients.drop_first(),
            samples,
            index - 1,
        )
    }
}

/// What a restored run holds.
proof fn lemma_restored_at(samples: Seq<i64>, index: nat, rule: Rule, place: int)
    requires
        index <= samples.len(),
        0 <= place < samples.len(),
    ensures
        restored(samples, index, rule).len() == samples.len(),
        place < index ==> restored(samples, index, rule)[place] == samples[place],
        place >= index ==> restored(samples, index, rule)[place] == wrap64(
            samples[place] + guess(restored(samples, index, rule).take(place), rule),
        ),
    decreases samples.len() - index,
{
    if index < samples.len() {
        let step = samples.update(
            index as int,
            wrap64(samples[index as int] + guess(samples.take(index as int), rule)),
        );
        lemma_restored_at(step, index + 1, rule, place);
        if place == index {
            let whole = restored(samples, index, rule);
            lemma_restored_front(step, index + 1, rule);
            assert(whole.take(place) =~= samples.take(place)) by {
                assert forall|i: int| 0 <= i < place implies whole[i] == samples[i] by {
                    assert(whole.take(index as int + 1)[i] == step.take(index as int + 1)[i]);
                }
            }
        }
    }
}

/// Restoring leaves what stands in front.
proof fn lemma_restored_front(samples: Seq<i64>, index: nat, rule: Rule)
    requires
        index <= samples.len(),
    ensures
        restored(samples, index, rule).len() == samples.len(),
        restored(samples, index, rule).take(index as int) == samples.take(index as int),
    decreases samples.len() - index,
{
    if index < samples.len() {
        let step = samples.update(
            index as int,
            wrap64(samples[index as int] + guess(samples.take(index as int), rule)),
        );
        lemma_restored_front(step, index + 1, rule);
        let whole = restored(samples, index, rule);
        assert forall|i: int| 0 <= i < index implies whole[i] == samples[i] by {
            assert(whole.take(index as int + 1)[i] == step.take(index as int + 1)[i]);
        }
        assert(whole.take(index as int) =~= samples.take(index as int));
    } else {
        assert(restored(samples, index, rule) == samples);
    }
}

/// A fixed predictor of an order stores the differences of that order: the first
/// samples are kept, and the difference that ends at any later one is what was
/// stored for it.
pub proof fn law_fixed_predictors_store_differences(samples: Seq<i64>, order: nat, index: int)
    requires
        order <= 4,
        order <= samples.len(),
        0 <= index < samples.len(),
    ensures
        restored(samples, order, Rule::Fixed(order)).len() == samples.len(),
        index < order ==> restored(samples, order, Rule::Fixed(order))[index] == samples[index],
        index >= order ==> wrap64(
            difference(restored(samples, order, Rule::Fixed(order)), order, index),
        ) == samples[index],
{
    let rule = Rule::Fixed(order);
    let whole = restored(samples, order, rule);
    lemma_restored_at(samples, order, rule, index);
    if index >= order {
        let expected = polynomial(whole.take(index), order);
        lemma_differences(whole, index);
        assert(difference(whole, order, index) == whole[index] - expected);
        lemma_wrap_back(samples[index], expected);
    }
}

/// Taking away again what was added, word by word.
proof fn lemma_wrap_back(word: i64, more: int)
    ensures
        wrap64(wrap64(word + wrap64(more)) - more) == word,
{
}

proof fn lemma_first_difference(samples: Seq<i64>, index: int)
    ensures
        difference(samples, 1, index) == samples[index] - samples[index - 1],
{
    assert(difference(samples, 0, index) == samples[index]);
    assert(difference(samples, 0, index - 1) == samples[index - 1]);
}

proof fn lemma_second_difference(samples: Seq<i64>, index: int)
    ensures
        difference(samples, 2, index) == samples[index] - 2 * samples[index - 1] + samples[index
            - 2],
{
    lemma_first_difference(samples, index);
    lemma_first_difference(samples, index - 1);
}

proof fn lemma_third_difference(samples: Seq<i64>, index: int)
    ensures
        difference(samples, 3, index) == samples[index] - 3 * samples[index - 1] + 3
            * samples[index - 2] - samples[index - 3],
{
    lemma_second_difference(samples, index);
    lemma_second_difference(samples, index - 1);
}

/// The differences up to the fourth order, written out.
proof fn lemma_differences(samples: Seq<i64>, index: int)
    ensures
        difference(samples, 0, index) == samples[index],
        difference(samples, 1, index) == samples[index] - samples[index - 1],
        difference(samples, 2, index) == samples[index] - 2 * samples[index - 1] + samples[index
            - 2],
        difference(samples, 3, index) == samples[index] - 3 * samples[index - 1] + 3
            * samples[index - 2] - samples[index - 3],
        difference(samples, 4, index) == samples[index] - 4 * samples[index - 1] + 6
            * samples[index - 2] - 4 * samples[index - 3] + samples[index - 4],
{
    lemma_first_difference(samples, index);
    lemma_second_difference(samples, index);
    lemma_third_difference(samples, index);
    lemma_third_difference(samples, index - 1);
}

/// A predictor with coefficients stores what is left of each sample once the ones
/// before it, weighed by the coefficients and divided by two so often, rounding
/// down, have been taken away.
pub proof fn law_fitted_predictors_store_what_is_left(
    samples: Seq<i64>,
    coefficients: Seq<i64>,
    shift: nat,
    index: int,
)
    requires
        coefficients.len() <= index < samples.len(),
    ensures
        ({
            let order = coefficients.len();
            let whole = restored(samples, order, Rule::Fitted(coefficients, shift));
            let sum = weighed(coefficients, whole, index);
            &&& whole.len() == samples.len()
            &&& i64::MIN <= sum <= i64::MAX ==> wrap64(
                whole[index] - sum / pow2(shift) as int,
            ) == samples[index]
        }),
{
    let order = coefficients.len();
    let rule = Rule::Fitted(coefficients, shift);
    let whole = restored(samples, order, rule);
    let sum = weighed(coefficients, whole, index);
    lemma_restored_at(samples, order, rule, index);
    lemma_weighed(coefficients, whole, index, coefficients.len());
    assert(coefficients.take(coefficients.len() as int) =~= coefficients);
    if i64::MIN <= sum <= i64::MAX {
        let unit = pow2(shift) as int;
        lemma_pow2_pos(shift);
        assert(i64::MIN <= sum / unit <= i64::MAX) by (nonlinear_arith)
            requires
                unit > 0,
                i64::MIN <= sum <= i64::MAX,
        ;
        assert(whole[index] == wrap64(samples[index] + sum / unit));
    }
}

proof fn lemma_weighed(coefficients: Seq<i64>, samples: Seq<i64>, index: int, count: nat)
    requires
        count <= coefficients.len() <= index < samples.len(),
    ensures
        weighted(coefficients, samples.take(index), count) == weighed(
            coefficients.take(count as int),
            samples,
            index,
        ),
    decreases count,
{
    if count > 0 {
        let less = (count - 1) as nat;
        lemma_weighed(coefficients, samples, index, less);
        lemma_weighed_last(coefficients.take(count as int), samples, index);
        assert(coefficients.take(count as int).drop_last() =~= coefficients.take(less as int));
    } else {
        assert(coefficients.take(0) =~= Seq::<i64>::empty());
    }
}

proof fn lemma_weighed_last(coefficients: Seq<i64>, samples: Seq<i64>, index: int)
    requires
        coefficients.len() > 0,
    ensures
        weighed(coefficients, samples, index) == weighed(coefficients.drop_last(), samples, index)
            + coefficients.last() * samples[index - coefficients.len()],
    decreases coefficients.len(),
{
    if coefficients.len() == 1 {
        assert(coefficients.drop_first() =~= Seq::<i64>::empty());
        assert(coefficients.drop_last() =~= Seq::<i64>::empty());
        assert(weighed(Seq::<i64>::empty(), samples, index - 1) == 0);
        assert(weighed(Seq::<i64>::empty(), samples, index) == 0);
    } else {
        let rest = coefficients.drop_first();
        lemma_weighed_last(rest, samples, index - 1);
        assert(rest.drop_last() =~= coefficients.drop_last().drop_first());
        assert(rest.last() == coefficients.last());
        assert(coefficients.drop_last()[0] == coefficients[0]);
        assert(weighed(coefficients, samples, index) == coefficients[0] * samples[index - 1]
            + weighed(rest, samples, index - 1));
        assert(weighed(coefficients.drop_last(), samples, index) == coefficients[0]
            * samples[index - 1] + weighed(rest.drop_last(), samples, index - 1));
        assert(index - 1 - rest.len() == index - coefficients.len());
    }
}

/// Whether a Rice code stands at a place: so many zeros, a one, and the low bits
/// of the number.
pub open spec fn rice_code(
    stream: Seq<bool>,
    at: nat,
    quotient: nat,
    parameter: nat,
    remainder: nat,
) -> bool {
    &&& at + quotient + 1 + parameter <= stream.len()
    &&& forall|i: int| at <= i < at + quotient ==> !#[trigger] stream[i]
    &&& stream[(at + quotient) as int]
    &&& value_of(
        stream.subrange(
            (at + quotient + 1) as int,
            (at + quotient + 1 + parameter) as int,
        ),
    ) == remainder
}

/// A Rice code stands for a number folded onto the naturals: an even one for half
/// of it, an odd one for a negative number, -1 first.
pub proof fn law_rice_codes_are_folded_numbers(
    stream: Seq<bool>,
    at: nat,
    quotient: nat,
    parameter: nat,
    remainder: nat,
    samples: Seq<i64>,
)
    requires
        rice_code(stream, at, quotient, parameter, remainder),
        quotient <= UNARY_LIMIT,
    ensures
        ({
            let number = quotient * pow2(parameter) + remainder;
            read_rice(stream, at, 1, parameter, samples) == Ok::<(Seq<i64>, nat), Fault>(
                (
                    samples.push(
                        (if number % 2 == 0 {
                            number as int / 2
                        } else {
                            -(number as int + 1) / 2
                        }) as i64,
                    ),
                    at + quotient + 1 + parameter,
                ),
            )
        }),
{
    lemma_zeros(stream, at, quotient);
    let number = quotient * pow2(parameter) + remainder;
    assert(read_unary(stream, at) == Ok::<(nat, nat), Fault>((quotient, at + quotient + 1)));
    assert(read_unsigned(stream, at + quotient + 1, parameter) == Ok::<(nat, nat), Fault>(
        (remainder, at + quotient + 1 + parameter),
    ));
    let more = samples.push(unfolded(number) as i64);
    assert(read_rice(stream, at + quotient + 1 + parameter, 0, parameter, more) == Ok::<
        (Seq<i64>, nat),
        Fault,
    >((more, at + quotient + 1 + parameter)));
}

proof fn lemma_zeros(stream: Seq<bool>, at: nat, count: nat)
    requires
        at + count < stream.len(),
        forall|i: int| at <= i < at + count ==> !#[trigger] stream[i],
        stream[(at + count) as int],
    ensures
        zeros_at(stream, at) == count,
    decreases count,
{
    if count > 0 {
        assert(!stream[at as int]);
        lemma_zeros(stream, at + 1, (count - 1) as nat);
    }
}

/// The number that so many bits spell in two's complement.
pub open spec fn signed_at(stream: Seq<bool>, at: int, bits: nat) -> int {
    if bits > 0 && stream[at] {
        value_of(stream.subrange(at, at + bits)) - pow2(bits)
    } else {
        value_of(stream.subrange(at, at + bits)) as int
    }
}

/// Numbers that stand one behind the other.
pub open spec fn numbers_at(stream: Seq<bool>, at: nat, count: nat, bits: nat) -> Seq<i64> {
    Seq::new(count, |i: int| signed_at(stream, at + i * bits, bits) as i64)
}

proof fn lemma_run(stream: Seq<bool>, at: nat, count: nat, bits: nat, samples: Seq<i64>)
    requires
        at + count * bits <= stream.len(),
    ensures
        read_run(stream, at, count, bits, samples) == Ok::<(Seq<i64>, nat), Fault>(
            (samples + numbers_at(stream, at, count, bits), at + count * bits),
        ),
    decreases count,
{
    if count == 0 {
        assert(count * bits == 0) by (nonlinear_arith)
            requires
                count == 0,
        ;
        assert(samples + numbers_at(stream, at, count, bits) =~= samples);
    } else {
        let less = (count - 1) as nat;
        assert(count * bits == bits + less * bits && less * bits >= 0) by (nonlinear_arith)
            requires
                count == less + 1,
        ;
        let value = signed_at(stream, at as int, bits);
        assert(stream.subrange(at as int, (at + bits) as int).len() == bits);
        assert(read_signed(stream, at, bits) == Ok::<(int, nat), Fault>((value, at + bits)));
        lemma_run(stream, at + bits, less, bits, samples.push(value as i64));
        let whole = samples + numbers_at(stream, at, count, bits);
        let steps = samples.push(value as i64) + numbers_at(stream, at + bits, less, bits);
        assert forall|i: int| 0 <= i < whole.len() implies whole[i] == steps[i] by {
            let k = i - samples.len();
            if k == 0 {
                assert(0 * bits == 0) by (nonlinear_arith);
            } else if k > 0 {
                assert(at + k * bits == at + bits + (k - 1) * bits) by (nonlinear_arith);
            }
        }
        assert(whole =~= steps);
    }
}

/// Ones spell the greatest number there is room for.
proof fn lemma_ones(bits: Seq<bool>)
    requires
        forall|i: int| 0 <= i < bits.len() ==> #[trigger] bits[i],
    ensures
        value_of(bits) == pow2(bits.len()) - 1,
    decreases bits.len(),
{
    if bits.len() == 0 {
        lemma2_to64();
    } else {
        lemma_ones(bits.drop_last());
        lemma_pow2_unfold(bits.len());
        assert(bits[bits.len() - 1]);
    }
}

/// A partition whose parameter is all ones holds plain numbers, of as many bits
/// each as the five bits behind the parameter say.
pub proof fn law_escaped_partitions_hold_plain_numbers(
    stream: Seq<bool>,
    at: nat,
    count: nat,
    wide: bool,
    samples: Seq<i64>,
)
    requires
        at + (if wide {
            10nat
        } else {
            9nat
        }) <= stream.len(),
        forall|i: int|
            at <= i < at + (if wide {
                5int
            } else {
                4int
            }) ==> #[trigger] stream[i],
    ensures
        ({
            let body = at + (if wide {
                10nat
            } else {
                9nat
            });
            let bits = value_of(stream.subrange(body - 5, body as int));
            body + count * bits <= stream.len() ==> read_partition(
                stream,
                at,
                count,
                wide,
                samples,
            ) == Ok::<(Seq<i64>, nat), Fault>(
                (samples + numbers_at(stream, body, count, bits), body + count * bits),
            )
        }),
{
    let width: nat = if wide {
        5
    } else {
        4
    };
    let lead = stream.subrange(at as int, (at + width) as int);
    lemma_ones(lead);
    lemma2_to64();
    let body = at + width + 5;
    let bits = value_of(stream.subrange(body - 5, body as int));
    assert(stream.subrange(body - 5, body as int) == stream.subrange(
        (at + width) as int,
        (at + width + 5) as int,
    ));
    if body + count * bits <= stream.len() {
        lemma_run(stream, body, count, bits, samples);
    }
}

/// Whether the head of a subframe stands at a place: a zero, six bits with its
/// type, and whether low bits were dropped; if so, their number, less one, as
/// zeros with a one behind them.
pub open spec fn subframe_head(stream: Seq<bool>, at: nat, kind: nat, dropped: nat) -> bool {
    &&& at + 8 + dropped <= stream.len()
    &&& !stream[at as int]
    &&& value_of(stream.subrange(at as int + 1, at as int + 7)) == kind
    &&& stream[at as int + 7] == (dropped > 0)
    &&& forall|i: int| at + 8 <= i < at + 7 + dropped ==> !#[trigger] stream[i]
    &&& dropped > 0 ==> stream[at as int + 7 + dropped]
}

proof fn lemma_one_bit(stream: Seq<bool>, at: nat)
    requires
        at < stream.len(),
    ensures
        read_unsigned(stream, at, 1) == Ok::<(nat, nat), Fault>(
            (
                if stream[at as int] {
                    1nat
                } else {
                    0nat
                },
                at + 1,
            ),
        ),
{
    let bit = stream.subrange(at as int, (at + 1) as int);
    assert(bit.len() == 1 && bit[0] == stream[at as int]);
    assert(bit.drop_last() =~= Seq::<bool>::empty());
    reveal_with_fuel(value_of, 2);
}

proof fn lemma_head(stream: Seq<bool>, at: nat, kind: nat, dropped: nat)
    requires
        subframe_head(stream, at, kind, dropped),
        dropped <= UNARY_LIMIT,
    ensures
        read_head(stream, at) == Ok::<((nat, nat), nat), Fault>(
            ((kind, dropped), at + 8 + dropped),
        ),
{
    lemma_one_bit(stream, at);
    lemma_one_bit(stream, at + 7);
    assert(read_unsigned(stream, at + 1, 6) == Ok::<(nat, nat), Fault>((kind, at + 7)));
    if dropped > 0 {
        lemma_zeros(stream, at + 8, (dropped - 1) as nat);
    }
}

/// A subframe of type 1 holds its samples one behind the other, and one of type 0
/// a single sample that stands for all. Where low bits were dropped each sample
/// is narrower by as many bits, and doubled as often.
pub proof fn law_plain_subframes_hold_their_samples(
    stream: Seq<bool>,
    at: nat,
    kind: nat,
    dropped: nat,
    block_size: nat,
    bits: nat,
)
    requires
        subframe_head(stream, at, kind, dropped),
        dropped < bits <= 64,
    ensures
        ({
            let body = at + 8 + dropped;
            let width = (bits - dropped) as nat;
            &&& kind == 1 && body + block_size * width <= stream.len() ==> read_subframe(
                stream,
                at,
                block_size,
                bits,
            ) == Ok::<(Seq<i64>, nat), Fault>(
                (
                    Seq::new(
                        block_size,
                        |i: int|
                            wrap64(
                                (signed_at(stream, body + i * width, width) as i64) * pow2(dropped),
                            ),
                    ),
                    body + block_size * width,
                ),
            )
            &&& kind == 0 && body + width <= stream.len() ==> read_subframe(
                stream,
                at,
                block_size,
                bits,
            ) == Ok::<(Seq<i64>, nat), Fault>(
                (
                    Seq::new(
                        block_size,
                        |i: int|
                            wrap64((signed_at(stream, body as int, width) as i64) * pow2(dropped)),
                    ),
                    body + width,
                ),
            )
        }),
{
    let body = at + 8 + dropped;
    let width = (bits - dropped) as nat;
    lemma_head(stream, at, kind, dropped);
    if kind == 1 && body + block_size * width <= stream.len() {
        lemma_run(stream, body, block_size, width, Seq::empty());
        let plain = Seq::<i64>::empty() + numbers_at(stream, body, block_size, width);
        assert(lifted(plain, dropped) =~= Seq::new(
            block_size,
            |i: int|
                wrap64((signed_at(stream, body + i * width, width) as i64) * pow2(dropped)),
        ));
    }
    if kind == 0 && body + width <= stream.len() {
        let value = signed_at(stream, body as int, width);
        assert(stream.subrange(body as int, (body + width) as int).len() == width);
        assert(read_signed(stream, body, width) == Ok::<(int, nat), Fault>((value, body + width)));
        let plain = Seq::new(block_size, |i: int| value as i64);
        assert(lifted(plain, dropped) =~= Seq::new(
            block_size,
            |i: int| wrap64((signed_at(stream, body as int, width) as i64) * pow2(dropped)),
        ));
    }
}

/// What two stored channels stand for. Side is left less right: with left, or
/// with right behind it, both follow; and mid is half of left and right together,
/// rounded down.
pub proof fn law_sides_are_differences(code: nat, block: Seq<Seq<i64>>, index: int)
    requires
        8 <= code <= 10,
        block.len() == 2,
        block[0].len() == block[1].len(),
        0 <= index < block[0].len(),
        -0x1000_0000_0000_0000 <= block[0][index] <= 0x1000_0000_0000_0000,
        -0x1000_0000_0000_0000 <= block[1][index] <= 0x1000_0000_0000_0000,
    ensures
        channels_of(code) matches Some(channels) && ({
            let left = channels.resolved(block)[0][index];
            let right = channels.resolved(block)[1][index];
            &&& channels.resolved(block).len() == 2
            &&& code == 8 ==> left == block[0][index] && left - right == block[1][index]
            &&& code == 9 ==> right == block[1][index] && left - right == block[0][index]
            &&& code == 10 ==> left - right == block[1][index] && (left + right) / 2
                == block[0][index]
        }),
{
    let one = block[0][index];
    let other = block[1][index];
    let channels = channels_of(code)->Some_0;
    if code == 8 {
        lemma_wrap_small(one - other);
        assert(channels.resolved(block)[1][index] == wrap64(one - other));
    } else if code == 9 {
        lemma_wrap_small(one + other);
        assert(channels.resolved(block)[0][index] == wrap64(one + other));
    } else {
        lemma_mid_and_side(one, other);
        assert(channels.resolved(block)[0][index] == left_of(one, other));
        assert(channels.resolved(block)[1][index] == right_of(one, other));
    }
}

proof fn lemma_mid_and_side(mid: i64, side: i64)
    requires
        -0x1000_0000_0000_0000 <= mid <= 0x1000_0000_0000_0000,
        -0x1000_0000_0000_0000 <= side <= 0x1000_0000_0000_0000,
    ensures
        left_of(mid, side) - right_of(mid, side) == side,
        (left_of(mid, side) + right_of(mid, side)) / 2 == mid,
{
    let both = 2 * mid + side as int % 2;
    lemma_wrap_small(both);
    lemma_wrap_small(both + side);
    lemma_wrap_small(both - side);
    assert(left_of(mid, side) == (both + side) / 2);
    assert(right_of(mid, side) == (both - side) / 2);
}

/// The extra bytes that a code for the sample rate asks for.
pub open spec fn rate_bytes(code: int) -> int {
    if code == 12 {
        1
    } else if code == 13 || code == 14 {
        2
    } else {
        0
    }
}

proof fn lemma_utf8_tail_steps(stream: Seq<bool>, at: nat, count: nat, value: nat)
    ensures
        read_utf8_tail(stream, at, count, value) matches Ok((_, next)) ==> next == at + 8 * count,
    decreases count,
{
    if count > 0 {
        if let Ok((byte, next)) = read_unsigned(stream, at, 8) {
            lemma_utf8_tail_steps(stream, next, (count - 1) as nat, value * 64 + byte % 64);
        }
    }
}

proof fn lemma_utf8_steps(stream: Seq<bool>, at: nat)
    ensures
        read_utf8_number(stream, at) matches Ok((_, next)) ==> next % 8 == at % 8 && next > at,
{
    if let Ok((first, next)) = read_unsigned(stream, at, 8) {
        if let Some(count) = utf8_followers(first) {
            if count > 0 {
                lemma_utf8_tail_steps(stream, next, count, first % pow2((6 - count) as nat));
            }
        }
    }
}

/// Whole bytes read as a number.
proof fn lemma_bytes_read(bytes: Seq<u8>, at: nat)
    requires
        at < bytes.len(),
    ensures
        field(bytes_bits(bytes), 8 * at, 0, 8) == bytes[at as int],
        at + 2 <= bytes.len() ==> field(bytes_bits(bytes), 8 * at, 0, 16) == high_first(
            bytes,
            at as int,
            2,
        ),
        bytes_bits(bytes).len() == 8 * bytes.len(),
{
    lemma2_to64();
    lemma_bytes_bits_len(bytes);
    lemma_byte_field(bytes, at, 0, 8);
    let byte = bytes[at as int] as nat;
    let one = pow2(0);
    let full = pow2(8);
    assert((byte / one) % full == byte) by (nonlinear_arith)
        requires
            one == 1,
            full == 256,
            byte < 256,
    ;
    if at + 2 <= bytes.len() {
        lemma_byte_field(bytes, at + 1, 0, 8);
        lemma_field_parts(bytes_bits(bytes), 8 * at, 0, 8, 8);
        assert(8 * at + 8 == 8 * (at + 1));
        let low = bytes[at as int + 1] as nat;
        assert((low / one) % full == low) by (nonlinear_arith)
            requires
                one == 1,
                full == 256,
                low < 256,
        ;
    }
}

/// The four bytes that open a frame header, field by field.
proof fn lemma_codes(bytes: Seq<u8>, at: nat)
    requires
        at + 4 <= bytes.len(),
    ensures
        ({
            let stream = bytes_bits(bytes);
            let first = bytes[at as int] as nat;
            let second = bytes[at as int + 1] as nat;
            let third = bytes[at as int + 2] as nat;
            let fourth = bytes[at as int + 3] as nat;
            &&& field(stream, 8 * at, 0, 14) == 64 * first + second / 4
            &&& field(stream, 8 * at, 14, 1) == (second / 2) % 2
            &&& field(stream, 8 * at, 16, 4) == third / 16
            &&& field(stream, 8 * at, 20, 4) == third % 16
            &&& field(stream, 8 * at, 24, 4) == fourth / 16
            &&& field(stream, 8 * at, 28, 3) == (fourth / 2) % 8
            &&& field(stream, 8 * at, 31, 1) == fourth % 2
        }),
{
    let stream = bytes_bits(bytes);
    lemma_bytes_bits_len(bytes);
    lemma_slices(bytes, at);
    lemma_slices(bytes, at + 1);
    lemma_slices(bytes, at + 2);
    lemma_slices(bytes, at + 3);
    lemma2_to64();
    lemma_field_parts(stream, 8 * at, 0, 8, 6);
    assert(8 * at + 8 == 8 * (at + 1));
    assert(8 * at + 16 == 8 * (at + 2));
    assert(8 * at + 24 == 8 * (at + 3));
    assert(field(stream, 8 * at, 8, 6) == field(stream, 8 * (at + 1), 0, 6));
    assert(field(stream, 8 * at, 14, 1) == field(stream, 8 * (at + 1), 6, 1));
    assert(field(stream, 8 * at, 16, 4) == field(stream, 8 * (at + 2), 0, 4));
    assert(field(stream, 8 * at, 20, 4) == field(stream, 8 * (at + 2), 4, 4));
    assert(field(stream, 8 * at, 24, 4) == field(stream, 8 * (at + 3), 0, 4));
    assert(field(stream, 8 * at, 28, 3) == field(stream, 8 * (at + 3), 4, 3));
    assert(field(stream, 8 * at, 31, 1) == field(stream, 8 * (at + 3), 7, 1));
}

/// The slices of a byte that the format's fields take.
proof fn lemma_slices(bytes: Seq<u8>, at: nat)
    requires
        at < bytes.len(),
    ensures
        ({
            let stream = bytes_bits(bytes);
            let byte = bytes[at as int] as nat;
            &&& field(stream, 8 * at, 0, 8) == byte
            &&& field(stream, 8 * at, 0, 6) == byte / 4
            &&& field(stream, 8 * at, 6, 1) == (byte / 2) % 2
            &&& field(stream, 8 * at, 0, 4) == byte / 16
            &&& field(stream, 8 * at, 4, 4) == byte % 16
            &&& field(stream, 8 * at, 4, 3) == (byte / 2) % 8
            &&& field(stream, 8 * at, 7, 1) == byte % 2
        }),
{
    let byte = bytes[at as int] as nat;
    lemma2_to64();
    lemma_byte_field(bytes, at, 0, 8);
    lemma_byte_field(bytes, at, 0, 6);
    lemma_byte_field(bytes, at, 6, 1);
    lemma_byte_field(bytes, at, 0, 4);
    lemma_byte_field(bytes, at, 4, 4);
    lemma_byte_field(bytes, at, 4, 3);
    lemma_byte_field(bytes, at, 7, 1);
    lemma_quotients(byte, pow2(0), pow2(1), pow2(2), pow2(3), pow2(4), pow2(6), pow2(8));
}

proof fn lemma_quotients(
    byte: nat,
    p0: nat,
    p1: nat,
    p2: nat,
    p3: nat,
    p4: nat,
    p6: nat,
    p8: nat,
)
    requires
        byte < 256,
        p0 == 1,
        p1 == 2,
        p2 == 4,
        p3 == 8,
        p4 == 16,
        p6 == 64,
        p8 == 256,
    ensures
        (byte / p0) % p8 == byte,
        (byte / p2) % p6 == byte / 4,
        (byte / p1) % p1 == (byte / 2) % 2,
        (byte / p4) % p4 == byte / 16,
        (byte / p0) % p4 == byte % 16,
        (byte / p1) % p3 == (byte / 2) % 8,
        (byte / p0) % p1 == byte % 2,
{
    assert((byte / p0) % p8 == byte && (byte / p0) % p4 == byte % 16 && (byte / p0) % p1 == byte
        % 2) by (nonlinear_arith)
        requires
            byte < 256,
            p0 == 1,
            p1 == 2,
            p4 == 16,
            p8 == 256,
    ;
    assert((byte / p2) % p6 == byte / 4 && (byte / p4) % p4 == byte / 16) by (nonlinear_arith)
        requires
            byte < 256,
            p2 == 4,
            p4 == 16,
            p6 == 64,
    ;
    assert((byte / p1) % p1 == (byte / 2) % 2 && (byte / p1) % p3 == (byte / 2) % 8)
        by (nonlinear_arith)
        requires
            p1 == 2,
            p3 == 8,
    ;
}

/// What the codes of a frame header say of the frame: how many samples each
/// channel of it holds, at which rate, how many channels there are and how many
/// bits a sample has. The header ends on its checksum, before it come the extra
/// bytes that the codes ask for, the rate behind the size.
pub open spec fn header_says(
    bytes: Seq<u8>,
    at: int,
    end: int,
    info: Info,
    header: FrameHeader,
) -> bool {
    let size = bytes[at + 2] / 16;
    let rate = bytes[at + 2] % 16;
    let layout = bytes[at + 3] / 16;
    let depth = (bytes[at + 3] / 2) % 8;
    let extra = end - 1 - rate_bytes(rate as int);
    &&& bytes[at] == 0xFF
    &&& bytes[at + 1] == 0xF8 || bytes[at + 1] == 0xF9
    &&& bytes[at + 3] % 2 == 0
    &&& size != 0
    &&& size == 1 ==> header.block_size == 192
    &&& 2 <= size <= 5 ==> header.block_size == 144 * pow2(size as nat)
    &&& size == 6 ==> header.block_size == bytes[extra - 1] + 1
    &&& size == 7 ==> header.block_size == high_first(bytes, extra - 2, 2) + 1
    &&& size >= 8 ==> header.block_size == pow2(size as nat)
    &&& rate != 15
    &&& rate == 0 ==> header.sample_rate == info.sample_rate
    &&& rate == 1 || rate == 2 ==> header.sample_rate == 44_100 * pow2(rate as nat)
    &&& rate == 6 || rate == 9 ==> header.sample_rate * (if rate == 6 {
        2int
    } else {
        1
    }) == 44_100
    &&& rate == 4 || rate == 5 ==> header.sample_rate == 500 * pow2(rate as nat)
    &&& rate == 8 ==> header.sample_rate == 32_000
    &&& rate == 7 ==> header.sample_rate == 24_000
    &&& rate == 10 || rate == 11 ==> header.sample_rate == 48_000 * (rate - 9)
    &&& rate == 3 ==> header.sample_rate == 192_000
    &&& rate == 12 ==> header.sample_rate == 1000 * bytes[end - 2]
    &&& rate == 13 ==> header.sample_rate == high_first(bytes, end - 3, 2)
    &&& rate == 14 ==> header.sample_rate == 10 * high_first(bytes, end - 3, 2)
    &&& layout <= 10
    &&& header.channels.spec_count() == (if layout < 8 {
        layout + 1
    } else {
        2
    })
    &&& channels_of(layout as nat) == Some(header.channels)
    &&& depth == 0 || depth == 3 ==> header.bits == info.bits
    &&& depth == 1 || depth == 2 ==> header.bits == 4 + 4 * depth
    &&& 4 <= depth <= 6 ==> header.bits == 4 * depth
    &&& depth == 7 ==> header.bits == 32
    &&& bytes[end - 1] == crc8_of(bytes.subrange(at, end - 1))
}

/// A frame header that is read says what follows.
#[verifier::rlimit(40)]
pub proof fn law_frame_headers_say_what_follows(bytes: Seq<u8>, at: nat, info: Info)
    requires
        at <= bytes.len(),
    ensures
        read_header(bytes, 8 * at, info, at) matches Ok((header, next)) ==> {
            &&& next % 8 == 0
            &&& at + 6 <= next / 8 <= bytes.len()
            &&& header_says(bytes, at as int, (next / 8) as int, info, header)
        },
{
    let stream = bytes_bits(bytes);
    lemma_bytes_bits_len(bytes);
    if let Ok((header, next)) = read_header(bytes, 8 * at, info, at) {
        reveal(read_header);
        lemma_codes_room(stream, 8 * at);
        lemma_codes(bytes, at);
        let codes = read_codes(stream, 8 * at)->Ok_0;
        let declared = info.sample_rate as nat;
        let middle = read_sizes(stream, 8 * at + 32, codes, declared)->Ok_0.1;
        lemma_sizes(bytes, at + 4, codes, declared);
        lemma_bytes_read(bytes, middle / 8);
        lemma2_to64();
        assert(field(stream, 8 * (middle / 8), 0, 8) == value_of(
            stream.subrange(middle as int, (middle + 8) as int),
        ));
        assert(next == middle + 8);
        assert(pow2(0) == 1);
    }
}

proof fn lemma_codes_room(stream: Seq<bool>, at: nat)
    ensures
        read_codes(stream, at) is Ok ==> at + 32 <= stream.len(),
{
}

/// The sizes behind the codes, byte by byte.
#[verifier::rlimit(40)]
proof fn lemma_sizes(bytes: Seq<u8>, at: nat, codes: HeaderCodes, declared: nat)
    ensures
        read_sizes(bytes_bits(bytes), 8 * at, codes, declared) matches Ok(((size, rate), middle))
            ==> {
            let end = (middle / 8) as int;
            let extra = end - rate_bytes(codes.rate as int);
            &&& middle % 8 == 0
            &&& at < end <= bytes.len()
            &&& codes.block != 0
            &&& codes.block == 6 ==> size == bytes[extra - 1] + 1
            &&& codes.block == 7 ==> size == high_first(bytes, extra - 2, 2) + 1
            &&& codes.block != 6 && codes.block != 7 ==> size == block_size_of(codes.block)
            &&& codes.rate != 15
            &&& codes.rate == 0 ==> rate == declared
            &&& codes.rate == 12 ==> rate == 1000 * bytes[end - 1]
            &&& codes.rate == 13 ==> rate == high_first(bytes, end - 2, 2)
            &&& codes.rate == 14 ==> rate == 10 * high_first(bytes, end - 2, 2)
            &&& 1 <= codes.rate <= 11 ==> rate == sample_rate_of(codes.rate)
        },
{
    let stream = bytes_bits(bytes);
    lemma_bytes_bits_len(bytes);
    if let Ok((_, middle)) = read_utf8_number(stream, 8 * at) {
        lemma_utf8_steps(stream, 8 * at);
        let first = middle / 8;
        assert(middle == 8 * first);
        lemma_utf8_room(stream, 8 * at);
        if let Ok((_, next)) = read_block_size(stream, middle, codes.block) {
            let second = next / 8;
            if codes.block == 6 || codes.block == 7 {
                lemma_bytes_read(bytes, first);
                assert(stream.subrange(middle as int, (middle + 8) as int) == stream.subrange(
                    (8 * first + 0) as int,
                    (8 * first + 0 + 8) as int,
                ));
                if codes.block == 7 {
                    assert(stream.subrange(middle as int, (middle + 16) as int)
                        == stream.subrange((8 * first + 0) as int, (8 * first + 0 + 16) as int));
                }
            }
            assert(next == 8 * second);
            if codes.rate == 12 || codes.rate == 13 || codes.rate == 14 {
                if second < bytes.len() {
                    lemma_bytes_read(bytes, second);
                    assert(stream.subrange(next as int, (next + 8) as int) == stream.subrange(
                        (8 * second + 0) as int,
                        (8 * second + 0 + 8) as int,
                    ));
                    if second + 1 < bytes.len() {
                        assert(stream.subrange(next as int, (next + 16) as int)
                            == stream.subrange(
                            (8 * second + 0) as int,
                            (8 * second + 0 + 16) as int,
                        ));
                    }
                }
            }
        }
    }
}

proof fn lemma_utf8_room(stream: Seq<bool>, at: nat)
    ensures
        read_utf8_number(stream, at) matches Ok((_, next)) ==> next <= stream.len(),
{
    if let Ok((first, next)) = read_unsigned(stream, at, 8) {
        if let Some(count) = utf8_followers(first) {
            if count > 0 {
                lemma_utf8_tail_room(stream, next, count, first % pow2((6 - count) as nat));
            }
        }
    }
}

proof fn lemma_utf8_tail_room(stream: Seq<bool>, at: nat, count: nat, value: nat)
    requires
        at <= stream.len(),
    ensures
        read_utf8_tail(stream, at, count, value) matches Ok((_, next)) ==> next <= stream.len(),
    decreases count,
{
    if count > 0 {
        if let Ok((byte, next)) = read_unsigned(stream, at, 8) {
            lemma_utf8_tail_room(stream, next, (count - 1) as nat, value * 64 + byte % 64);
        }
    }
}

/// Four bytes read as a number.
proof fn lemma_four_bytes(bytes: Seq<u8>, at: nat)
    requires
        at + 4 <= bytes.len(),
    ensures
        field(bytes_bits(bytes), 8 * at, 0, 32) == high_first(bytes, at as int, 4),
{
    let stream = bytes_bits(bytes);
    lemma2_to64();
    lemma_bytes_read(bytes, at);
    lemma_bytes_read(bytes, at + 2);
    lemma_field_parts(stream, 8 * at, 0, 16, 16);
    assert(8 * at + 16 == 8 * (at + 2));
    assert(field(stream, 8 * at, 16, 16) == field(stream, 8 * (at + 2), 0, 16));
}

/// A description that was read stays the only one.
pub proof fn lemma_described(stream: Seq<bool>, at: nat, info: Info)
    ensures
        read_metadata(stream, at, Some(info)) matches Ok((found, _)) ==> found == info,
    decreases stream.len() - at,
{
    lemma_metadata_advances(stream, at, Some(info));
    if let Ok(((last, found), next)) = read_metadata_block(stream, at, Some(info)) {
        if !last {
            lemma_described(stream, next, info);
        }
    }
}

/// Reading frames keeps the number of channels.
proof fn lemma_channels_stay(bytes: Seq<u8>, at: nat, info: Info, channels: Seq<Seq<i64>>)
    requires
        at <= 8 * bytes.len(),
    ensures
        read_frames(bytes, at, info, channels) matches Ok(found) ==> found.len() == channels.len(),
    decreases 8 * bytes.len() - at,
{
    lemma_frame_advances(bytes, at, info);
    if let Ok(((header, block), next)) = read_frame(bytes, at, info) {
        lemma_channels_stay(bytes, next, info, joined(channels, block));
    }
}

/// The fields of a description that stands behind the first eight bytes.
pub proof fn lemma_description(bytes: Seq<u8>)
    requires
        bytes.len() >= 42,
    ensures
        ({
            let stream = bytes_bits(bytes);
            &&& field(stream, 64, 80, 20) == 4096 * bytes[18] + 16 * bytes[19] + bytes[20] / 16
            &&& field(stream, 64, 100, 3) == (bytes[20] / 2) % 8
            &&& field(stream, 64, 103, 5) == 16 * (bytes[20] % 2) + bytes[21] / 16
            &&& field(stream, 64, 108, 36) == 0x1_0000_0000 * (bytes[21] % 16) + high_first(
                bytes,
                22,
                4,
            )
        }),
{
    let stream = bytes_bits(bytes);
    lemma2_to64();
    lemma_bytes_bits_len(bytes);
    lemma_bytes_read(bytes, 18);
    lemma_slices(bytes, 20);
    lemma_slices(bytes, 21);
    lemma_four_bytes(bytes, 22);
    lemma_field_parts(stream, 64, 80, 16, 4);
    assert(field(stream, 64, 80, 16) == field(stream, 8 * 18, 0, 16));
    assert(field(stream, 64, 96, 4) == field(stream, 8 * 20, 0, 4));
    assert(field(stream, 64, 100, 3) == field(stream, 8 * 20, 4, 3));
    lemma_field_parts(stream, 64, 103, 1, 4);
    assert(field(stream, 64, 103, 1) == field(stream, 8 * 20, 7, 1));
    assert(field(stream, 64, 104, 4) == field(stream, 8 * 21, 0, 4));
    lemma_field_parts(stream, 64, 108, 4, 32);
    assert(field(stream, 64, 108, 4) == field(stream, 8 * 21, 4, 4));
    assert(field(stream, 64, 112, 32) == field(stream, 8 * 22, 0, 32));
}

/// A stream begins with `fLaC` and describes itself in the 34 bytes of its first
/// block: the rate in twenty bits, the channels less one in three, the bits of a
/// sample less one in five, and the number of frames, where it is known, in
/// thirty-six. What it decodes to has that shape.
#[verifier::rlimit(40)]
pub proof fn law_streams_have_the_shape_they_describe(bytes: Seq<u8>)
    requires
        decoded(bytes) is Ok,
        bytes[4] % 128 == 0,
    ensures
        bytes.len() >= 42,
        bytes[0] == 'f' as u8 && bytes[1] == 'L' as u8 && bytes[2] == 'a' as u8 && bytes[3]
            == 'C' as u8,
        high_first(bytes, 5, 3) == 34,
        ({
            let sound = decoded(bytes)->Ok_0;
            let bits = 16 * (bytes[20] % 2) + bytes[21] / 16 + 1;
            let frames = 0x1_0000_0000 * (bytes[21] % 16) + high_first(bytes, 22, 4);
            &&& sound.sample_rate == 4096 * bytes[18] + 16 * bytes[19] + bytes[20] / 16
            &&& sound.channels.len() == (bytes[20] / 2) % 8 + 1
            &&& sound.format == (if bits <= 8 {
                SampleFormat::PcmU8
            } else if bits <= 16 {
                SampleFormat::PcmI16
            } else if bits <= 24 {
                SampleFormat::PcmI24
            } else {
                SampleFormat::PcmI32
            })
            &&& frames > 0 ==> sound.frames() == frames
        }),
{
    let stream = bytes_bits(bytes);
    lemma_bytes_bits_len(bytes);
    lemma_four_bytes(bytes, 0);
    let marker = high_first(bytes, 0, 4);
    assert(field(stream, 0, 0, 32) == marker);
    assert(marker == 0x664C_6143);
    lemma_metadata_advances(stream, 32, None);
    let ((last, known), next) = read_metadata_block(stream, 32, None)->Ok_0;
    lemma_block_header(bytes, 4);
    let (info, at) = read_metadata(stream, 32, None)->Ok_0;
    let stated = read_stream_info(stream, 64)->Ok_0.0;
    assert(known == Some(stated));
    lemma_described(stream, next, stated);
    assert(info == stated);
    reveal(read_stream_info);
    assert(bytes.len() >= 42);
    lemma_description(bytes);
    lemma_described_room(stream, 32, None);
    let none = Seq::new(info.channels as nat, |i: int| Seq::<i64>::empty());
    lemma_channels_stay(bytes, at, info, none);
    let channels = read_frames(bytes, at, info, none)->Ok_0;
    let format = storage_format(info.bits as nat)->Some_0;
    let sound = decoded(bytes)->Ok_0;
    assert(sound.channels == raised(channels, (format.spec_bits() - info.bits as nat) as nat));
    assert(samples_fault(info, channels) is None);
    if channels.len() > 0 {
        assert(sound.channels[0].len() == channels[0].len());
    }
}

/// The frames begin within the stream.
pub proof fn lemma_described_room(stream: Seq<bool>, at: nat, info: Option<Info>)
    ensures
        read_metadata(stream, at, info) matches Ok((_, next)) ==> next <= stream.len(),
    decreases stream.len() - at,
{
    lemma_metadata_advances(stream, at, info);
    if let Ok(((last, found), next)) = read_metadata_block(stream, at, info) {
        if !last {
            lemma_described_room(stream, next, found);
        }
    }
}

/// The bits that open a stream, up to the lengths of its frames.
proof fn lemma_opening(sound: Sound)
    ensures
        ({
            let opening = opening_bits(sound);
            &&& opening.len() >= 144
            &&& opening.subrange(32, 33) == bits_of(1, 1)
            &&& opening.subrange(33, 40) == bits_of(0, 7)
            &&& opening.subrange(64, 80) == bits_of(4096, 16)
            &&& opening.subrange(80, 96) == bits_of(4096, 16)
            &&& opening.subrange(96, 120) == bits_of(0, 24)
            &&& opening.subrange(120, 144) == bits_of(0, 24)
        }),
{
    let info = info_of(sound);
    let opening = opening_bits(sound);
    let inner = info_bits(info);
    lemma_bits_len(info.min_block as nat, 16);
    lemma_bits_len(info.max_block as nat, 16);
    lemma_bits_len(0, 24);
    let first = bits_of(4096, 16);
    let zero = bits_of(0, 24);
    assert(inner.len() >= 80);
    assert(inner.subrange(0, 16) =~= first);
    assert(inner.subrange(16, 32) =~= first);
    assert(inner.subrange(32, 56) =~= zero);
    assert(inner.subrange(56, 80) =~= zero);
    lemma_bits_len(0x664C_6143, 32);
    lemma_bits_len(1, 1);
    lemma_bits_len(0, 7);
    lemma_bits_len(34, 24);
    assert(opening.subrange(32, 33) =~= bits_of(1, 1));
    assert(opening.subrange(33, 40) =~= bits_of(0, 7));
    assert(opening.len() == 64 + inner.len());
    assert(opening.subrange(64, 64int + inner.len()) =~= inner);
    assert(opening.subrange(64, 80) =~= inner.subrange(0, 16));
    assert(opening.subrange(80, 96) =~= inner.subrange(16, 32));
    assert(opening.subrange(96, 120) =~= inner.subrange(32, 56));
    assert(opening.subrange(120, 144) =~= inner.subrange(56, 80));
}

/// A stream that was written has one metadata block, which describes it. It says
/// that every block has 4096 samples, and leaves open how long the frames are.
pub proof fn law_written_streams_state_their_block_size<F: Fn(&Vec<i64>) -> Vec<Predictor>>(
    fit: F,
    sound: Sound,
    bytes: Seq<u8>,
)
    requires
        stream_written(fit, sound, bytes),
    ensures
        bytes.len() >= 18,
        bytes[4] == 0x80,
        high_first(bytes, 8, 2) == 4096,
        high_first(bytes, 10, 2) == 4096,
        high_first(bytes, 12, 3) == 0,
        high_first(bytes, 15, 3) == 0,
{
    let opening = opening_bits(sound);
    let stream = bytes_bits(bytes);
    lemma_opening(sound);
    lemma_bytes_bits_len(bytes);
    lemma_stream_opens(fit, sound, bytes);
    lemma_stated(bytes, opening);
}

proof fn lemma_stream_opens<F: Fn(&Vec<i64>) -> Vec<Predictor>>(
    fit: F,
    sound: Sound,
    bytes: Seq<u8>,
)
    requires
        stream_written(fit, sound, bytes),
    ensures
        bytes_bits(bytes).len() >= opening_bits(sound).len(),
        forall|i: int|
            0 <= i < opening_bits(sound).len() ==> #[trigger] bytes_bits(bytes)[i] == opening_bits(
                sound,
            )[i],
{
}

proof fn lemma_stated(bytes: Seq<u8>, opening: Seq<bool>)
    requires
        opening.len() >= 144,
        bytes_bits(bytes).len() >= opening.len(),
        forall|i: int|
            0 <= i < opening.len() ==> #[trigger] bytes_bits(bytes)[i] == opening[i],
        opening.subrange(32, 33) == bits_of(1, 1),
        opening.subrange(33, 40) == bits_of(0, 7),
        opening.subrange(64, 80) == bits_of(4096, 16),
        opening.subrange(80, 96) == bits_of(4096, 16),
        opening.subrange(96, 120) == bits_of(0, 24),
        opening.subrange(120, 144) == bits_of(0, 24),
    ensures
        bytes.len() >= 18,
        bytes[4] == 0x80,
        high_first(bytes, 8, 2) == 4096,
        high_first(bytes, 10, 2) == 4096,
        high_first(bytes, 12, 3) == 0,
        high_first(bytes, 15, 3) == 0,
{
    let stream = bytes_bits(bytes);
    lemma_bytes_bits_len(bytes);
    assert(stream.subrange(32, 33) =~= opening.subrange(32, 33));
    assert(stream.subrange(33, 40) =~= opening.subrange(33, 40));
    assert(stream.subrange(64, 80) =~= opening.subrange(64, 80));
    assert(stream.subrange(80, 96) =~= opening.subrange(80, 96));
    assert(stream.subrange(96, 120) =~= opening.subrange(96, 120));
    assert(stream.subrange(120, 144) =~= opening.subrange(120, 144));
    lemma2_to64();
    lemma_value_of_small(1, 1);
    lemma_value_of_small(0, 7);
    lemma_value_of_small(4096, 16);
    lemma_value_of_small(0, 24);
    lemma_block_header(bytes, 4);
    lemma_block_header(bytes, 11);
    lemma_block_header(bytes, 14);
    lemma_bytes_read(bytes, 8);
    lemma_bytes_read(bytes, 10);
    assert(field(stream, 32, 0, 1) == 1);
    assert(field(stream, 32, 1, 7) == 0);
    assert(field(stream, 64, 0, 16) == 4096);
    assert(field(stream, 80, 0, 16) == 4096);
    assert(field(stream, 88, 8, 24) == 0);
    assert(field(stream, 112, 8, 24) == 0);
}

/// The bytes that a digest is taken of: the codes of each frame, channel by
/// channel, the lowest byte first.
proof fn lemma_frame_layout_len(codes: Seq<Seq<i64>>, frame: int, width: nat, count: nat)
    ensures
        frame_layout(codes, frame, width, count).len() == count * width,
    decreases count,
{
    if count > 0 {
        let less = (count - 1) as nat;
        lemma_frame_layout_len(codes, frame, width, less);
        lemma_le_bytes_len(codes[count - 1][frame] as int, width);
        assert(count * width == less * width + width) by (nonlinear_arith)
            requires
                count == less + 1,
        ;
    } else {
        assert(count * width == 0) by (nonlinear_arith)
            requires
                count == 0,
        ;
    }
}

proof fn lemma_frame_layout_at(
    codes: Seq<Seq<i64>>,
    frame: int,
    width: nat,
    count: nat,
    channel: nat,
)
    requires
        channel < count,
    ensures
        channel * width + width <= count * width,
        frame_layout(codes, frame, width, count).len() == count * width,
        frame_layout(codes, frame, width, count).subrange(
            (channel * width) as int,
            (channel * width + width) as int,
        ) == le_bytes(codes[channel as int][frame] as int, width),
    decreases count,
{
    let less = (count - 1) as nat;
    let whole = frame_layout(codes, frame, width, count);
    let front = frame_layout(codes, frame, width, less);
    let last = le_bytes(codes[count - 1][frame] as int, width);
    lemma_frame_layout_len(codes, frame, width, count);
    lemma_frame_layout_len(codes, frame, width, less);
    lemma_le_bytes_len(codes[count - 1][frame] as int, width);
    assert(count * width == less * width + width && channel * width + width <= count * width)
        by (nonlinear_arith)
        requires
            count == less + 1,
            channel < count,
    ;
    let from = (channel * width) as int;
    if channel < less {
        lemma_frame_layout_at(codes, frame, width, less, channel);
        assert(whole.subrange(from, from + width) =~= front.subrange(from, from + width));
    } else {
        assert(channel * width == less * width);
        assert(whole.subrange(from, from + width) =~= last);
    }
}

proof fn lemma_layout_len(codes: Seq<Seq<i64>>, width: nat, frames: nat)
    ensures
        layout(codes, width, frames).len() == frames * (codes.len() * width),
    decreases frames,
{
    let step = codes.len() * width;
    if frames > 0 {
        let less = (frames - 1) as nat;
        lemma_layout_len(codes, width, less);
        lemma_frame_layout_len(codes, frames - 1, width, codes.len());
        assert(frames * step == less * step + step) by (nonlinear_arith)
            requires
                frames == less + 1,
        ;
    } else {
        assert(frames * step == 0) by (nonlinear_arith)
            requires
                frames == 0,
        ;
    }
}

/// A digest is taken of the codes as they would stand in a little-endian file:
/// frame by frame, channel by channel, each in as many whole bytes as its bits
/// need, the lowest first.
pub proof fn law_digests_are_taken_in_order(
    codes: Seq<Seq<i64>>,
    width: nat,
    frames: nat,
    channel: nat,
    frame: nat,
)
    requires
        channel < codes.len(),
        frame < frames,
    ensures
        layout(codes, width, frames).len() == frames * (codes.len() * width),
        ({
            let from = frame * (codes.len() * width) + channel * width;
            &&& from + width <= layout(codes, width, frames).len()
            &&& layout(codes, width, frames).subrange(from as int, (from + width) as int)
                == le_bytes(codes[channel as int][frame as int] as int, width)
        }),
    decreases frames,
{
    let step = codes.len() * width;
    let less = (frames - 1) as nat;
    let whole = layout(codes, width, frames);
    let front = layout(codes, width, less);
    let last = frame_layout(codes, frames - 1, width, codes.len());
    let from = (frame * step + channel * width) as int;
    lemma_layout_len(codes, width, frames);
    lemma_layout_len(codes, width, less);
    lemma_frame_layout_at(codes, frames - 1, width, codes.len(), channel);
    if frame < less {
        law_digests_are_taken_in_order(codes, width, less, channel, frame);
        assert(front.len() <= whole.len());
        assert(whole.subrange(from, from + width) =~= front.subrange(from, from + width));
    } else {
        assert(frame * step == less * step);
        assert(frames * step == less * step + step) by (nonlinear_arith)
            requires
                frames == less + 1,
        ;
        let inner = (channel * width) as int;
        assert(whole.subrange(from, from + width) =~= last.subrange(inner, inner + width));
    }
}

/// A message is filled out with a one bit, zeros, and its length in bits in eight
/// bytes, the lowest first, to whole blocks of 64 bytes, with no block more than
/// that takes.
#[verifier::rlimit(40)]
pub proof fn law_messages_are_filled_out(message: Seq<u8>)
    ensures
        ({
            let whole = filled_out(message);
            let count = message.len();
            &&& whole.len() % 64 == 0
            &&& count + 9 <= whole.len() < count + 9 + 64
            &&& whole.take(count as int) == message
            &&& whole[count as int] == 0x80
            &&& forall|i: int| count < i < whole.len() - 8 ==> #[trigger] whole[i] == 0
            &&& 8 * count < 0x1_0000_0000_0000_0000 ==> low_first(whole, whole.len() - 8, 8) == 8
                * count
        }),
{
    let whole = filled_out(message);
    let count = message.len();
    let length = le_bytes(8 * count as int, 8);
    let room = (119 - count % 64) % 64;
    lemma_le_bytes_len(8 * count as int, 8);
    assert(whole.len() == count + 1 + room + 8);
    assert((count + 1 + room + 8) % 64 == 0) by {
        assert(count == 64 * (count / 64) + count % 64);
    }
    assert(whole.take(count as int) =~= message);
    assert(whole.subrange(whole.len() - 8, whole.len() as int) =~= length);
    if 8 * count < 0x1_0000_0000_0000_0000 {
        lemma_eight_bytes(whole, whole.len() - 8, 8 * count);
    }
}

proof fn lemma_eight_bytes(bytes: Seq<u8>, at: int, value: nat)
    requires
        0 <= at,
        at + 8 <= bytes.len(),
        bytes.subrange(at, at + 8) == le_bytes(value as int, 8),
        value < 0x1_0000_0000_0000_0000,
    ensures
        low_first(bytes, at, 8) == value,
{
    lemma2_to64_rest();
    lemma_le_round_trip(value as int, 8);
    assert(8 * 8 == 64nat);
    vstd::arithmetic::div_mod::lemma_small_mod(value, pow2(64));
    lemma_little_field(bytes, at, 8);
}

/// How many bytes follow the lead of an extended UTF-8 number: none where its
/// first bit is clear, and else one less than it has leading ones, of which there
/// are two at least and seven at most.
pub open spec fn leads(byte: int, followers: int) -> bool {
    ||| followers == 0 && byte < 0x80
    ||| followers == 1 && 0xC0 <= byte < 0xE0
    ||| followers == 2 && 0xE0 <= byte < 0xF0
    ||| followers == 3 && 0xF0 <= byte < 0xF8
    ||| followers == 4 && 0xF8 <= byte < 0xFC
    ||| followers == 5 && 0xFC <= byte < 0xFE
    ||| followers == 6 && byte == 0xFE
}

/// A number continued by the low six bits of each following byte.
pub open spec fn continued(value: nat, bytes: Seq<u8>, at: int, count: nat) -> nat
    decreases count,
{
    if count == 0 {
        value
    } else {
        continued(
            (64 * value + bytes[at] % 64) as nat,
            bytes,
            at + 1,
            (count - 1) as nat,
        )
    }
}

proof fn lemma_continued(bytes: Seq<u8>, at: nat, count: nat, value: nat)
    requires
        at + count <= bytes.len(),
        forall|i: int| at <= i < at + count ==> 0x80 <= #[trigger] bytes[i] < 0xC0,
    ensures
        read_utf8_tail(bytes_bits(bytes), 8 * at, count, value) == Ok::<(nat, nat), Fault>(
            (continued(value, bytes, at as int, count), 8 * (at + count)),
        ),
    decreases count,
{
    if count > 0 {
        lemma_bytes_read(bytes, at);
        let stream = bytes_bits(bytes);
        let byte = bytes[at as int] as nat;
        assert(stream.subrange(8 * at as int, (8 * at + 8) as int) == stream.subrange(
            (8 * at + 0) as int,
            (8 * at + 0 + 8) as int,
        ));
        assert(read_unsigned(stream, 8 * at, 8) == Ok::<(nat, nat), Fault>((byte, 8 * (at + 1))));
        assert(byte / 64 == 2);
        lemma_continued(bytes, at + 1, (count - 1) as nat, value * 64 + byte % 64);
        assert((64 * value + byte % 64) as nat == value * 64 + byte % 64);
    }
}

/// The number of a frame is written as in UTF-8, carried on to seven bytes.
pub proof fn law_frame_numbers_are_extended_utf8(bytes: Seq<u8>, at: nat, followers: nat)
    requires
        at + 1 + followers <= bytes.len(),
        leads(bytes[at as int] as int, followers as int),
        forall|i: int| at < i <= at + followers ==> 0x80 <= #[trigger] bytes[i] < 0xC0,
    ensures
        read_utf8_number(bytes_bits(bytes), 8 * at) == Ok::<(nat, nat), Fault>(
            (
                if followers == 0 {
                    bytes[at as int] as nat
                } else {
                    continued(
                        bytes[at as int] as nat % pow2((6 - followers) as nat),
                        bytes,
                        at as int + 1,
                        followers,
                    )
                },
                8 * (at + 1 + followers),
            ),
        ),
{
    let stream = bytes_bits(bytes);
    let byte = bytes[at as int] as nat;
    lemma_bytes_read(bytes, at);
    assert(stream.subrange(8 * at as int, (8 * at + 8) as int) == stream.subrange(
        (8 * at + 0) as int,
        (8 * at + 0 + 8) as int,
    ));
    assert(read_unsigned(stream, 8 * at, 8) == Ok::<(nat, nat), Fault>((byte, 8 * (at + 1))));
    assert(utf8_followers(byte) == Some(followers));
    if followers > 0 {
        lemma_continued(bytes, at + 1, followers, byte % pow2((6 - followers) as nat));
    }
}

/// A predictor with coefficients states their width less one in four bits, how
/// often the sum is halved in five, and then the coefficients, the one of the
/// nearest sample first.
pub proof fn law_coefficients_are_plain_numbers(stream: Seq<bool>, at: nat, order: nat)
    requires
        at + 9 <= stream.len(),
        value_of(stream.subrange(at as int, at as int + 4)) < 15,
        !stream[at as int + 4],
    ensures
        ({
            let width = value_of(stream.subrange(at as int, at as int + 4)) + 1;
            let shift = value_of(stream.subrange(at as int + 4, at as int + 9));
            at + 9 + order * width <= stream.len() ==> read_coefficients(stream, at, order) == Ok::<
                (Rule, nat),
                Fault,
            >(
                (
                    Rule::Fitted(numbers_at(stream, at + 9, order, width), shift),
                    at + 9 + order * width,
                ),
            )
        }),
{
    let width = value_of(stream.subrange(at as int, at as int + 4)) + 1;
    let shift = value_of(stream.subrange(at as int + 4, at as int + 9));
    if at + 9 + order * width <= stream.len() {
        lemma_run(stream, at + 9, order, width, Seq::empty());
        assert(read_unsigned(stream, at, 4) == Ok::<(nat, nat), Fault>(
            ((width - 1) as nat, at + 4),
        ));
        let bits = stream.subrange(at as int + 4, at as int + 9);
        assert(bits[0] == stream[at as int + 4]);
        assert(read_signed(stream, at + 4, 5) == Ok::<(int, nat), Fault>((shift as int, at + 9)));
        assert(Seq::<i64>::empty() + numbers_at(stream, at + 9, order, width) =~= numbers_at(
            stream,
            at + 9,
            order,
            width,
        ));
    }
}

/// A subframe of types 8 to 12 is predicted from as many samples as the type is
/// above 8, and one of types 32 to 63 from as many as it is above 31. Those stand at
/// its start, as plain numbers.
#[verifier::rlimit(40)]
pub proof fn law_predicted_subframes_begin_with_plain_samples(
    stream: Seq<bool>,
    at: nat,
    kind: nat,
    dropped: nat,
    block_size: nat,
    bits: nat,
    index: int,
)
    requires
        subframe_head(stream, at, kind, dropped),
        dropped < bits <= 64,
        8 <= kind <= 12 || 32 <= kind <= 63,
        0 <= index < kind - (if kind <= 12 {
            8int
        } else {
            31int
        }),
    ensures
        read_subframe(stream, at, block_size, bits) matches Ok((samples, _)) ==> samples.len()
            == block_size && index < block_size && samples[index] == wrap64(
            (signed_at(
                stream,
                at + 8 + dropped + index * (bits - dropped),
                (bits - dropped) as nat,
            ) as i64) * pow2(dropped),
        ),
{
    let body = at + 8 + dropped;
    let width = (bits - dropped) as nat;
    let order = (kind - (if kind <= 12 {
        8int
    } else {
        31int
    })) as nat;
    lemma_head(stream, at, kind, dropped);
    lemma_subframe_advances(stream, at, block_size, bits);
    if let Ok((samples, _)) = read_subframe(stream, at, block_size, bits) {
        lemma_run_fits(stream, body, order, width, Seq::empty());
        lemma_run(stream, body, order, width, Seq::empty());
        let warm = Seq::<i64>::empty() + numbers_at(stream, body, order, width);
        let next = body + order * width;
        let (rule, after) = if kind <= 12 {
            (Rule::Fixed(order), next)
        } else {
            read_coefficients(stream, next, order)->Ok_0
        };
        let residual = read_residual(stream, after, block_size, order, warm)->Ok_0.0;
        lemma_residual_keeps(stream, after, block_size, order, warm, index);
        lemma_restored_front(residual, order, rule);
        let whole = restored(residual, order, rule);
        assert(whole.take(order as int)[index] == residual.take(order as int)[index]);
        assert(samples == lifted(whole, dropped));
        assert(samples.len() == whole.len());
        assert(warm[index] == signed_at(stream, body + index * width, width) as i64);
    }
}

/// A run that was read had room.
proof fn lemma_run_fits(stream: Seq<bool>, at: nat, count: nat, bits: nat, samples: Seq<i64>)
    requires
        at <= stream.len(),
    ensures
        read_run(stream, at, count, bits, samples) is Ok ==> at + count * bits <= stream.len(),
    decreases count,
{
    lemma_run_length(stream, at, count, bits, samples);
}

/// Reading on keeps what was read.
proof fn lemma_run_keeps(
    stream: Seq<bool>,
    at: nat,
    count: nat,
    bits: nat,
    samples: Seq<i64>,
    index: int,
)
    requires
        0 <= index < samples.len(),
    ensures
        read_run(stream, at, count, bits, samples) matches Ok((all, _)) ==> all.len()
            >= samples.len() && all[index] == samples[index],
    decreases count,
{
    if count > 0 {
        if let Ok((value, next)) = read_signed(stream, at, bits) {
            lemma_run_keeps(
                stream,
                next,
                (count - 1) as nat,
                bits,
                samples.push(value as i64),
                index,
            );
        }
    }
}

proof fn lemma_rice_keeps(
    stream: Seq<bool>,
    at: nat,
    count: nat,
    parameter: nat,
    samples: Seq<i64>,
    index: int,
)
    requires
        0 <= index < samples.len(),
    ensures
        read_rice(stream, at, count, parameter, samples) matches Ok((all, _)) ==> all.len()
            >= samples.len() && all[index] == samples[index],
    decreases count,
{
    if count > 0 {
        if let Ok((quotient, middle)) = read_unary(stream, at) {
            if let Ok((remainder, next)) = read_unsigned(stream, middle, parameter) {
                lemma_rice_keeps(
                    stream,
                    next,
                    (count - 1) as nat,
                    parameter,
                    samples.push(unfolded(quotient * pow2(parameter) + remainder) as i64),
                    index,
                );
            }
        }
    }
}

proof fn lemma_partition_keeps(
    stream: Seq<bool>,
    at: nat,
    count: nat,
    wide: bool,
    samples: Seq<i64>,
    index: int,
)
    requires
        0 <= index < samples.len(),
    ensures
        read_partition(stream, at, count, wide, samples) matches Ok((all, _)) ==> all.len()
            >= samples.len() && all[index] == samples[index],
{
    if let Ok((parameter, next)) = read_unsigned(stream, at, parameter_bits(wide)) {
        if parameter == escape(wide) {
            if let Ok((raw, body)) = read_unsigned(stream, next, 5) {
                lemma_run_keeps(stream, body, count, raw, samples, index);
            }
        } else {
            lemma_rice_keeps(stream, next, count, parameter, samples, index);
        }
    }
}

proof fn lemma_partitions_keep(
    stream: Seq<bool>,
    at: nat,
    partition: nat,
    partitions: nat,
    per_partition: nat,
    order: nat,
    wide: bool,
    samples: Seq<i64>,
    index: int,
)
    requires
        0 <= index < samples.len(),
    ensures
        read_partitions(
            stream,
            at,
            partition,
            partitions,
            per_partition,
            order,
            wide,
            samples,
        ) matches Ok((all, _)) ==> all.len() >= samples.len() && all[index] == samples[index],
    decreases partitions - partition,
{
    if partition < partitions {
        let count = partition_count(per_partition, order, partition);
        lemma_partition_keeps(stream, at, count, wide, samples, index);
        if let Ok((more, next)) = read_partition(stream, at, count, wide, samples) {
            lemma_partitions_keep(
                stream,
                next,
                partition + 1,
                partitions,
                per_partition,
                order,
                wide,
                more,
                index,
            );
        }
    }
}

proof fn lemma_residual_keeps(
    stream: Seq<bool>,
    at: nat,
    block_size: nat,
    order: nat,
    samples: Seq<i64>,
    index: int,
)
    requires
        0 <= index < samples.len(),
    ensures
        read_residual(stream, at, block_size, order, samples) matches Ok((all, _)) ==> all.len()
            >= samples.len() && all[index] == samples[index],
{
    if let Ok((method, middle)) = read_unsigned(stream, at, 2) {
        if let Ok((partition_order, next)) = read_unsigned(stream, middle, 4) {
            let partitions = pow2(partition_order);
            lemma_partitions_keep(
                stream,
                next,
                0,
                partitions,
                block_size / partitions,
                order,
                method == 1,
                samples,
                index,
            );
        }
    }
}

/// A residual in one partition states that in six bits: whether its parameters have
/// four bits or five, and that there is one partition. Behind them stands the
/// partition, of all the samples that are not given. In two partitions each has half
/// of the samples, and the first has those less that are given.
#[verifier::spinoff_prover]
#[verifier::rlimit(40)]
pub proof fn law_residuals_stand_in_partitions(
    stream: Seq<bool>,
    at: nat,
    block_size: nat,
    order: nat,
    samples: Seq<i64>,
    wide: bool,
)
    requires
        at + 6 <= stream.len(),
        !stream[at as int],
        stream[at as int + 1] == wide,
        !stream[at as int + 2] && !stream[at as int + 3] && !stream[at as int + 4],
        order <= block_size,
    ensures
        !stream[at as int + 5] ==> read_residual(stream, at, block_size, order, samples)
            == read_partition(stream, at + 6, (block_size - order) as nat, wide, samples),
        stream[at as int + 5] && block_size % 2 == 0 && order <= block_size / 2 ==> read_residual(
            stream,
            at,
            block_size,
            order,
            samples,
        ) == (match read_partition(
            stream,
            at + 6,
            (block_size / 2 - order) as nat,
            wide,
            samples,
        ) {
            Ok((more, next)) => read_partition(stream, next, block_size / 2, wide, more),
            Err(fault) => Err(fault),
        }),
{
    let last = stream[at as int + 5];
    lemma_residual_head(stream, at, wide, last);
    lemma2_to64();
    let kind: nat = if wide {
        1
    } else {
        0
    };
    let power: nat = if last {
        1
    } else {
        0
    };
    lemma_two_partitions(stream, at + 6, block_size, order, wide, samples);
    let partitions = pow2(power);
    if last {
        assert(partitions == 2);
        assert(block_size / partitions == block_size / 2);
        assert(block_size % partitions == block_size % 2);
    } else {
        assert(partitions == 1);
        assert(block_size / partitions == block_size && block_size % partitions == 0) by {
            vstd::arithmetic::div_mod::lemma_div_basics(block_size as int);
        }
    }
}

/// The six bits that open a residual of one partition or two.
proof fn lemma_residual_head(stream: Seq<bool>, at: nat, wide: bool, last: bool)
    requires
        at + 6 <= stream.len(),
        !stream[at as int],
        stream[at as int + 1] == wide,
        !stream[at as int + 2] && !stream[at as int + 3] && !stream[at as int + 4],
        stream[at as int + 5] == last,
    ensures
        read_unsigned(stream, at, 2) == Ok::<(nat, nat), Fault>(
            (
                if wide {
                    1nat
                } else {
                    0nat
                },
                at + 2,
            ),
        ),
        read_unsigned(stream, at + 2, 4) == Ok::<(nat, nat), Fault>(
            (
                if last {
                    1nat
                } else {
                    0nat
                },
                at + 6,
            ),
        ),
{
    let method = stream.subrange(at as int, at as int + 2);
    let split = stream.subrange(at as int + 2, at as int + 6);
    lemma_low_bit(method);
    lemma_low_bit(split);
    assert(method[1] == wide);
    assert(split[3] == last);
}

/// Bits of which only the last may be a one spell one or zero.
proof fn lemma_low_bit(bits: Seq<bool>)
    requires
        bits.len() > 0,
        forall|i: int| 0 <= i < bits.len() - 1 ==> !#[trigger] bits[i],
    ensures
        value_of(bits) == (if bits.last() {
            1nat
        } else {
            0nat
        }),
{
    let front = bits.drop_last();
    assert forall|i: int| 0 <= i < front.len() implies !#[trigger] front[i] by {
        assert(!bits[i]);
    }
    lemma_value_zero(front);
}

proof fn lemma_two_partitions(
    stream: Seq<bool>,
    at: nat,
    block_size: nat,
    order: nat,
    wide: bool,
    samples: Seq<i64>,
)
    ensures
        read_partitions(stream, at, 0, 1, block_size, order, wide, samples) == read_partition(
            stream,
            at,
            (block_size - order) as nat,
            wide,
            samples,
        ),
        read_partitions(stream, at, 0, 2, block_size / 2, order, wide, samples) == (
        match read_partition(stream, at, (block_size / 2 - order) as nat, wide, samples) {
            Ok((more, next)) => read_partition(stream, next, block_size / 2, wide, more),
            Err(fault) => Err(fault),
        }),
{
    reveal_with_fuel(read_partitions, 4);
}

/// Samples of a depth that no format has are stored in the next wider one, shifted up
/// onto its grid: each is a multiple of as many steps as the format is finer.
pub proof fn law_odd_depths_are_shifted_up(bytes: Seq<u8>, channel: int, frame: int)
    requires
        decoded(bytes) is Ok,
        bytes[4] % 128 == 0,
        0 <= channel < decoded(bytes)->Ok_0.channels.len(),
        0 <= frame < decoded(bytes)->Ok_0.channels[channel].len(),
    ensures
        ({
            let sound = decoded(bytes)->Ok_0;
            let bits = 16 * (bytes[20] % 2) + bytes[21] / 16 + 1;
            let width = if bits <= 8 {
                8int
            } else if bits <= 16 {
                16
            } else if bits <= 24 {
                24
            } else {
                32
            };
            sound.channels[channel][frame] as int % (pow2((width - bits) as nat) as int) == 0
        }),
{
    let stream = bytes_bits(bytes);
    let sound = decoded(bytes)->Ok_0;
    law_streams_have_the_shape_they_describe(bytes);
    lemma_bytes_bits_len(bytes);
    lemma_metadata_advances(stream, 32, None);
    lemma_block_header(bytes, 4);
    let ((last, known), next) = read_metadata_block(stream, 32, None)->Ok_0;
    let (info, at) = read_metadata(stream, 32, None)->Ok_0;
    let stated = read_stream_info(stream, 64)->Ok_0.0;
    assert(known == Some(stated));
    lemma_described(stream, next, stated);
    let bits = 16 * (bytes[20] % 2) + bytes[21] / 16 + 1;
    assert(info.bits == bits) by {
        reveal(read_stream_info);
        lemma_description(bytes);
    }
    let none = Seq::new(info.channels as nat, |i: int| Seq::<i64>::empty());
    let channels = read_frames(bytes, at, info, none)->Ok_0;
    let format = storage_format(info.bits as nat)->Some_0;
    let shift = (format.spec_bits() - info.bits as nat) as nat;
    assert(sound.channels == raised(channels, shift));
    assert(sound.channels[channel] == lifted(channels[channel], shift));
    assert(sound.channels[channel][frame] == wrap64(channels[channel][frame] * pow2(shift)));
    lemma_multiple(channels[channel][frame] as int, shift);
}

/// A word that was shifted up is a multiple of what it was shifted by.
proof fn lemma_multiple(value: int, shift: nat)
    requires
        shift < 8,
    ensures
        wrap64(value * pow2(shift)) as int % (pow2(shift) as int) == 0,
{
    lemma2_to64();
    if shift == 0 {
        lemma_multiple_of(value, 1, pow2(shift) as int, 0x1_0000_0000_0000_0000);
    } else if shift == 1 {
        lemma_multiple_of(value, 2, pow2(shift) as int, 0x8000_0000_0000_0000);
    } else if shift == 2 {
        lemma_multiple_of(value, 4, pow2(shift) as int, 0x4000_0000_0000_0000);
    } else if shift == 3 {
        lemma_multiple_of(value, 8, pow2(shift) as int, 0x2000_0000_0000_0000);
    } else if shift == 4 {
        lemma_multiple_of(value, 16, pow2(shift) as int, 0x1000_0000_0000_0000);
    } else if shift == 5 {
        lemma_multiple_of(value, 32, pow2(shift) as int, 0x800_0000_0000_0000);
    } else if shift == 6 {
        lemma_multiple_of(value, 64, pow2(shift) as int, 0x400_0000_0000_0000);
    } else {
        lemma_multiple_of(value, 128, pow2(shift) as int, 0x200_0000_0000_0000);
    }
}

proof fn lemma_multiple_of(value: int, unit: int, same: int, rest: int)
    requires
        unit > 0,
        same == unit,
        unit * rest == 0x1_0000_0000_0000_0000,
    ensures
        wrap64(value * same) as int % same == 0,
{
    let turn = 0x1_0000_0000_0000_0000int;
    let word = wrap64(value * same) as int;
    let turns = (value * same - word) / turn;
    assert((value * same - word) % turn == 0);
    assert(value * same - word == turns * turn);
    assert(word == same * (value - turns * rest)) by (nonlinear_arith)
        requires
            value * same - word == turns * turn,
            unit * rest == turn,
            same == unit,
    ;
    assert(word % same == 0) by {
        vstd::arithmetic::div_mod::lemma_mod_multiples_basic(value - turns * rest, same);
        assert((value - turns * rest) * same == same * (value - turns * rest)) by (nonlinear_arith);
    }
}

} // verus!
