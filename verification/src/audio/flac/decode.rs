//! Frame and subframe decoding.
//!
//! A FLAC frame holds one independently decodable block of every channel. Each
//! channel is a subframe: a constant, a verbatim copy, or a prediction plus the
//! residual the prediction got wrong. Nothing here approximates anything: the
//! residual restores the predictor's error exactly, which is what makes the
//! format lossless.

use vstd::arithmetic::div_mod::lemma_fundamental_div_mod;
use vstd::arithmetic::power2::{lemma2_to64, lemma_pow2_pos, lemma_pow2_strictly_increases, pow2};
use vstd::bits::lemma_u64_shl_is_mul;
use vstd::prelude::*;
use vstd::slice::slice_subrange;

use super::bits::{
    aligned, bytes_bits, crc16, crc16_of, crc8, crc8_of, ended, lemma_bytes_bits_len,
    lemma_pow2_word, lemma_signed_value, lemma_value_bound, read_signed, read_unary, read_unsigned,
    read_utf8_number, value_of, Reader, UNARY_LIMIT,
};
use super::word::{shift_down, wrap, wrap64};
use super::{Info, StreamInfo};
use crate::error::{format_error, Error, Fault};
use crate::text::{decimal, decimal_text, digits, digits_text};

verus! {

/// The rule that predicts the next sample from the ones before it.
pub enum Rule {
    /// One of the five polynomials the format defines, by order.
    Fixed(nat),
    /// Coefficients, nearest sample first, and the shift they are scaled by.
    Fitted(Seq<i64>, nat),
}

/// The polynomial of an order continued by one sample.
pub open spec fn polynomial(past: Seq<i64>, order: nat) -> int {
    let n = past.len();
    if order == 1 {
        past[n - 1] as int
    } else if order == 2 {
        2 * past[n - 1] - past[n - 2]
    } else if order == 3 {
        3 * past[n - 1] - 3 * past[n - 2] + past[n - 3]
    } else if order == 4 {
        4 * past[n - 1] - 6 * past[n - 2] + 4 * past[n - 3] - past[n - 4]
    } else {
        0
    }
}

/// The nearest `count` samples, each weighted by its coefficient.
pub open spec fn weighted(coefficients: Seq<i64>, past: Seq<i64>, count: nat) -> int
    decreases count,
{
    if count == 0 {
        0
    } else {
        weighted(coefficients, past, (count - 1) as nat) + coefficients[count - 1] * past[past.len()
            - count]
    }
}

/// The sample a rule expects after `past`.
pub open spec fn guess(past: Seq<i64>, rule: Rule) -> i64 {
    match rule {
        Rule::Fixed(order) => wrap64(polynomial(past, order)),
        Rule::Fitted(coefficients, shift) => (wrap64(
            weighted(coefficients, past, coefficients.len()),
        ) as int / pow2(shift) as int) as i64,
    }
}

/// Adds to each residual, from `index` on, what the rule expected there.
pub open spec fn restored(samples: Seq<i64>, index: nat, rule: Rule) -> Seq<i64>
    decreases samples.len() - index,
{
    if index >= samples.len() {
        samples
    } else {
        restored(
            samples.update(
                index as int,
                wrap64(samples[index as int] + guess(samples.take(index as int), rule)),
            ),
            index + 1,
            rule,
        )
    }
}

/// Reading `count` signed values of `bits` bits each behind `samples`.
pub open spec fn read_run(
    stream: Seq<bool>,
    at: nat,
    count: nat,
    bits: nat,
    samples: Seq<i64>,
) -> Result<(Seq<i64>, nat), Fault>
    decreases count,
{
    if count == 0 {
        Ok((samples, at))
    } else {
        match read_signed(stream, at, bits) {
            Err(fault) => Err(fault),
            Ok((value, next)) => read_run(
                stream,
                next,
                (count - 1) as nat,
                bits,
                samples.push(value as i64),
            ),
        }
    }
}

/// The signed number a natural stands for: 0, 1, 2, 3 are 0, -1, 1, -2.
pub open spec fn unfolded(folded: nat) -> int {
    if folded % 2 == 0 {
        (folded / 2) as int
    } else {
        -((folded / 2) as int) - 1
    }
}

/// Reading `count` Rice-coded values behind `samples`.
pub open spec fn read_rice(
    stream: Seq<bool>,
    at: nat,
    count: nat,
    parameter: nat,
    samples: Seq<i64>,
) -> Result<(Seq<i64>, nat), Fault>
    decreases count,
{
    if count == 0 {
        Ok((samples, at))
    } else {
        match read_unary(stream, at) {
            Err(fault) => Err(fault),
            Ok((quotient, middle)) => match read_unsigned(stream, middle, parameter) {
                Err(fault) => Err(fault),
                Ok((remainder, next)) => read_rice(
                    stream,
                    next,
                    (count - 1) as nat,
                    parameter,
                    samples.push(unfolded(quotient * pow2(parameter) + remainder) as i64),
                ),
            },
        }
    }
}

/// Bits that state a partition's parameter.
pub open spec fn parameter_bits(wide: bool) -> nat {
    if wide {
        5
    } else {
        4
    }
}

/// The parameter that announces a partition stored raw.
pub open spec fn escape(wide: bool) -> nat {
    if wide {
        0x1F
    } else {
        0x0F
    }
}

/// Reading one partition of a residual behind `samples`.
pub open spec fn read_partition(
    stream: Seq<bool>,
    at: nat,
    count: nat,
    wide: bool,
    samples: Seq<i64>,
) -> Result<(Seq<i64>, nat), Fault> {
    match read_unsigned(stream, at, parameter_bits(wide)) {
        Err(fault) => Err(fault),
        Ok((parameter, next)) => if parameter == escape(wide) {
            match read_unsigned(stream, next, 5) {
                Err(fault) => Err(fault),
                Ok((raw, body)) => read_run(stream, body, count, raw, samples),
            }
        } else {
            read_rice(stream, next, count, parameter, samples)
        },
    }
}

/// Samples in one partition, the first being short by the predictor's warm-up.
pub open spec fn partition_count(per_partition: nat, order: nat, partition: nat) -> nat {
    if partition == 0 {
        (per_partition - order) as nat
    } else {
        per_partition
    }
}

/// Reading the partitions of a residual from `partition` on.
pub open spec fn read_partitions(
    stream: Seq<bool>,
    at: nat,
    partition: nat,
    partitions: nat,
    per_partition: nat,
    order: nat,
    wide: bool,
    samples: Seq<i64>,
) -> Result<(Seq<i64>, nat), Fault>
    decreases partitions - partition,
{
    if partition >= partitions {
        Ok((samples, at))
    } else {
        match read_partition(
            stream,
            at,
            partition_count(per_partition, order, partition),
            wide,
            samples,
        ) {
            Err(fault) => Err(fault),
            Ok((more, next)) => read_partitions(
                stream,
                next,
                partition + 1,
                partitions,
                per_partition,
                order,
                wide,
                more,
            ),
        }
    }
}

/// Reading a residual behind the warm-up samples.
pub open spec fn read_residual(
    stream: Seq<bool>,
    at: nat,
    block_size: nat,
    order: nat,
    samples: Seq<i64>,
) -> Result<(Seq<i64>, nat), Fault> {
    match read_unsigned(stream, at, 2) {
        Err(fault) => Err(fault),
        Ok((method, middle)) => if method > 1 {
            Err(Fault::Format("FLAC residual uses reserved coding method "@ + decimal(method)))
        } else {
            match read_unsigned(stream, middle, 4) {
                Err(fault) => Err(fault),
                Ok((partition_order, next)) => {
                    let partitions = pow2(partition_order);
                    let per_partition = block_size / partitions;
                    if block_size % partitions != 0 {
                        Err(
                            Fault::Format(
                                "FLAC residual splits "@ + decimal(block_size)
                                    + " samples into "@ + decimal(partitions) + " partitions"@,
                            ),
                        )
                    } else if per_partition < order {
                        Err(
                            Fault::Format(
                                "FLAC residual partition is shorter than the predictor's warm-up"@,
                            ),
                        )
                    } else {
                        read_partitions(
                            stream,
                            next,
                            0,
                            partitions,
                            per_partition,
                            order,
                            method == 1,
                            samples,
                        )
                    }
                },
            }
        },
    }
}

/// Reading a subframe predicted by one of the fixed polynomials.
pub open spec fn read_fixed(
    stream: Seq<bool>,
    at: nat,
    block_size: nat,
    bits: nat,
    order: nat,
) -> Result<(Seq<i64>, nat), Fault> {
    match read_run(stream, at, order, bits, Seq::empty()) {
        Err(fault) => Err(fault),
        Ok((warm, next)) => match read_residual(stream, next, block_size, order, warm) {
            Err(fault) => Err(fault),
            Ok((samples, end)) => Ok((restored(samples, order, Rule::Fixed(order)), end)),
        },
    }
}

/// Reading a predictor's precision, shift and coefficients.
pub open spec fn read_coefficients(stream: Seq<bool>, at: nat, order: nat) -> Result<
    (Rule, nat),
    Fault,
> {
    match read_unsigned(stream, at, 4) {
        Err(fault) => Err(fault),
        Ok((precision, middle)) => if precision == 15 {
            Err(Fault::Format("FLAC subframe uses the invalid coefficient precision of 16"@))
        } else {
            match read_signed(stream, middle, 5) {
                Err(fault) => Err(fault),
                Ok((shift, next)) => if shift < 0 {
                    Err(Fault::Format("FLAC subframe uses a negative predictor shift"@))
                } else {
                    match read_run(stream, next, order, precision + 1, Seq::empty()) {
                        Err(fault) => Err(fault),
                        Ok((coefficients, end)) => Ok(
                            (Rule::Fitted(coefficients, shift as nat), end),
                        ),
                    }
                },
            }
        },
    }
}

/// Reading a subframe predicted by coefficients it states.
pub open spec fn read_lpc(
    stream: Seq<bool>,
    at: nat,
    block_size: nat,
    bits: nat,
    order: nat,
) -> Result<(Seq<i64>, nat), Fault> {
    match read_run(stream, at, order, bits, Seq::empty()) {
        Err(fault) => Err(fault),
        Ok((warm, middle)) => match read_coefficients(stream, middle, order) {
            Err(fault) => Err(fault),
            Ok((rule, next)) => match read_residual(stream, next, block_size, order, warm) {
                Err(fault) => Err(fault),
                Ok((samples, end)) => Ok((restored(samples, order, rule), end)),
            },
        },
    }
}

/// A subframe's type, and how many low bits of its samples were dropped.
pub open spec fn read_head(stream: Seq<bool>, at: nat) -> Result<((nat, nat), nat), Fault> {
    match read_unsigned(stream, at, 1) {
        Err(fault) => Err(fault),
        Ok((lead, after)) => if lead != 0 {
            Err(Fault::Format("FLAC subframe sets a reserved leading bit"@))
        } else {
            match read_unsigned(stream, after, 6) {
                Err(fault) => Err(fault),
                Ok((kind, middle)) => match read_unsigned(stream, middle, 1) {
                    Err(fault) => Err(fault),
                    Ok((flag, next)) => if flag == 1 {
                        match read_unary(stream, next) {
                            Err(fault) => Err(fault),
                            Ok((zeros, end)) => Ok(((kind, zeros + 1), end)),
                        }
                    } else {
                        Ok(((kind, 0), next))
                    },
                },
            }
        },
    }
}

/// Reading the samples of a subframe of a type.
pub open spec fn read_body(
    stream: Seq<bool>,
    at: nat,
    kind: nat,
    block_size: nat,
    bits: nat,
) -> Result<(Seq<i64>, nat), Fault> {
    if kind == 0 {
        match read_signed(stream, at, bits) {
            Err(fault) => Err(fault),
            Ok((value, next)) => Ok((Seq::new(block_size, |i: int| value as i64), next)),
        }
    } else if kind == 1 {
        read_run(stream, at, block_size, bits, Seq::empty())
    } else if 8 <= kind <= 12 {
        read_fixed(stream, at, block_size, bits, (kind - 8) as nat)
    } else if 32 <= kind <= 63 {
        read_lpc(stream, at, block_size, bits, (kind - 31) as nat)
    } else {
        Err(Fault::Format("FLAC subframe uses reserved type 0b"@ + digits(kind, 2, 6)))
    }
}

/// Samples shifted back up by the bits that were dropped.
pub open spec fn lifted(samples: Seq<i64>, wasted: nat) -> Seq<i64> {
    Seq::new(samples.len(), |i: int| wrap64(samples[i] * pow2(wasted)))
}

/// Reading one channel of one frame.
pub open spec fn read_subframe(stream: Seq<bool>, at: nat, block_size: nat, bits: nat) -> Result<
    (Seq<i64>, nat),
    Fault,
> {
    match read_head(stream, at) {
        Err(fault) => Err(fault),
        Ok(((kind, wasted), next)) => if wasted >= bits {
            Err(
                Fault::Format(
                    "FLAC subframe wastes "@ + decimal(wasted) + " of "@ + decimal(bits)
                        + " bits, leaving nothing"@,
                ),
            )
        } else {
            match read_body(stream, next, kind, block_size, (bits - wasted) as nat) {
                Err(fault) => Err(fault),
                Ok((samples, end)) => Ok((lifted(samples, wasted), end)),
            }
        },
    }
}

/// Whether a reading function handed out what was to be read.
pub open spec fn delivers(
    result: Result<Vec<i64>, Error>,
    at: nat,
    expected: Result<(Seq<i64>, nat), Fault>,
) -> bool {
    match expected {
        Ok((samples, next)) => result matches Ok(read) && read@ == samples && at == next,
        Err(fault) => result matches Err(error) && error@ == fault,
    }
}

/// Reads `count` signed values behind `samples`.
#[verifier::loop_isolation(false)]
fn run(reader: &mut Reader, count: usize, bits: u32, samples: Vec<i64>) -> (result: Result<
    Vec<i64>,
    Error,
>)
    requires
        old(reader).wf(),
        bits <= 64,
    ensures
        final(reader).wf(),
        final(reader)@.bytes == old(reader)@.bytes,
        delivers(
            result,
            final(reader)@.at,
            read_run(old(reader)@.stream(), old(reader)@.at, count as nat, bits as nat, samples@),
        ),
{
    let ghost stream = reader@.stream();
    let ghost goal = read_run(stream, reader@.at, count as nat, bits as nat, samples@);
    let mut read = samples;
    let mut left: usize = count;
    while left > 0
        invariant
            reader.wf(),
            reader@.bytes == old(reader)@.bytes,
            goal == read_run(stream, reader@.at, left as nat, bits as nat, read@),
        decreases left,
    {
        match reader.signed(bits) {
            Ok(sample) => read.push(sample),
            Err(error) => return Err(error),
        }
        left = left - 1;
    }
    Ok(read)
}

/// How far a unary number can reach.
proof fn lemma_unary_bound(stream: Seq<bool>, at: nat)
    ensures
        read_unary(stream, at) matches Ok((value, next)) ==> value < UNARY_LIMIT + 8 && next == at
            + value + 1 && next <= stream.len(),
{
}

/// Reads `count` Rice-coded values behind `samples`.
#[verifier::loop_isolation(false)]
fn rice_run(reader: &mut Reader, count: usize, parameter: u32, samples: Vec<i64>) -> (result: Result<
    Vec<i64>,
    Error,
>)
    requires
        old(reader).wf(),
        parameter <= 30,
    ensures
        final(reader).wf(),
        final(reader)@.bytes == old(reader)@.bytes,
        delivers(
            result,
            final(reader)@.at,
            read_rice(
                old(reader)@.stream(),
                old(reader)@.at,
                count as nat,
                parameter as nat,
                samples@,
            ),
        ),
{
    let ghost stream = reader@.stream();
    let ghost goal = read_rice(stream, reader@.at, count as nat, parameter as nat, samples@);
    let mut read = samples;
    let mut left: usize = count;
    proof {
        lemma2_to64();
        if parameter < 30 {
            lemma_pow2_strictly_increases(parameter as nat, 30);
        }
    }
    while left > 0
        invariant
            reader.wf(),
            reader@.bytes == old(reader)@.bytes,
            goal == read_rice(stream, reader@.at, left as nat, parameter as nat, read@),
        decreases left,
    {
        proof {
            lemma_unary_bound(stream, reader@.at);
        }
        let quotient: u64 = match reader.unary() {
            Ok(zeros) => zeros as u64,
            Err(error) => return Err(error),
        };
        let ghost middle = reader@.at;
        let remainder: u64 = match reader.unsigned(parameter) {
            Ok(remainder) => remainder,
            Err(error) => return Err(error),
        };
        proof {
            lemma_value_bound(stream.subrange(middle as int, (middle + parameter) as int));
            assert(quotient * pow2(parameter as nat) <= 0x10_0007 * 0x4000_0000) by (nonlinear_arith)
                requires
                    quotient <= 0x10_0007,
                    pow2(parameter as nat) <= 0x4000_0000,
            ;
            lemma_u64_shl_is_mul(quotient, parameter as u64);
        }
        let folded: u64 = (quotient << (parameter as u64)) + remainder;
        // Residuals alternate sign around zero, so they are folded onto the
        // unsigned numbers Rice coding can carry.
        let half: i64 = (folded / 2) as i64;
        read.push(if folded % 2 == 0 { half } else { -half - 1 });
        left = left - 1;
    }
    Ok(read)
}

/// Reads one partition of a residual behind `samples`.
fn partition(reader: &mut Reader, count: usize, wide: bool, samples: Vec<i64>) -> (result: Result<
    Vec<i64>,
    Error,
>)
    requires
        old(reader).wf(),
    ensures
        final(reader).wf(),
        final(reader)@.bytes == old(reader)@.bytes,
        delivers(
            result,
            final(reader)@.at,
            read_partition(old(reader)@.stream(), old(reader)@.at, count as nat, wide, samples@),
        ),
{
    let ghost stream = reader@.stream();
    let ghost at = reader@.at;
    proof {
        lemma2_to64();
    }
    let width: u32 = if wide {
        5
    } else {
        4
    };
    let parameter: u64 = match reader.unsigned(width) {
        Ok(parameter) => parameter,
        Err(error) => return Err(error),
    };
    proof {
        lemma_value_bound(stream.subrange(at as int, (at + width) as int));
    }
    let raw_mark: u64 = if wide {
        0x1F
    } else {
        0x0F
    };
    if parameter == raw_mark {
        // An escaped partition stores its residuals raw, which is smaller
        // whenever Rice coding would spend more than the samples are worth.
        let ghost middle = reader@.at;
        let raw: u64 = match reader.unsigned(5) {
            Ok(raw) => raw,
            Err(error) => return Err(error),
        };
        proof {
            lemma_value_bound(stream.subrange(middle as int, (middle + 5) as int));
        }
        run(reader, count, raw as u32, samples)
    } else {
        rice_run(reader, count, parameter as u32, samples)
    }
}

/// Reads the Rice-coded residual that follows a predictor, behind the samples
/// the predictor warms up with.
#[verifier::loop_isolation(false)]
fn residual(reader: &mut Reader, block_size: u32, order: usize, samples: Vec<i64>) -> (result: Result<
    Vec<i64>,
    Error,
>)
    requires
        old(reader).wf(),
    ensures
        final(reader).wf(),
        final(reader)@.bytes == old(reader)@.bytes,
        delivers(
            result,
            final(reader)@.at,
            read_residual(
                old(reader)@.stream(),
                old(reader)@.at,
                block_size as nat,
                order as nat,
                samples@,
            ),
        ),
{
    let ghost stream = reader@.stream();
    let ghost at = reader@.at;
    proof {
        lemma2_to64();
    }
    let method: u64 = match reader.unsigned(2) {
        Ok(method) => method,
        Err(error) => return Err(error),
    };
    if method > 1 {
        let mut message = "FLAC residual uses reserved coding method ".to_string();
        message.append(decimal_text(method).as_str());
        return Err(Error::Format(message));
    }
    let partition_order: u64 = match reader.unsigned(4) {
        Ok(partition_order) => partition_order,
        Err(error) => return Err(error),
    };
    proof {
        lemma_value_bound(stream.subrange((at + 2) as int, (at + 6) as int));
        lemma_pow2_word(partition_order as nat);
        if partition_order < 15 {
            lemma_pow2_strictly_increases(partition_order as nat, 15);
        }
    }
    let partitions: u32 = (1u64 << partition_order) as u32;
    if block_size % partitions != 0 {
        let mut message = "FLAC residual splits ".to_string();
        message.append(decimal_text(block_size as u64).as_str());
        message.append(" samples into ");
        message.append(decimal_text(partitions as u64).as_str());
        message.append(" partitions");
        return Err(Error::Format(message));
    }
    let per_partition: usize = (block_size / partitions) as usize;
    if per_partition < order {
        return Err(
            format_error("FLAC residual partition is shorter than the predictor's warm-up"),
        );
    }
    let wide: bool = method == 1;
    let ghost goal = read_partitions(
        stream,
        reader@.at,
        0,
        partitions as nat,
        per_partition as nat,
        order as nat,
        wide,
        samples@,
    );
    let mut read = samples;
    let mut index: u32 = 0;
    while index < partitions
        invariant
            index <= partitions,
            reader.wf(),
            reader@.bytes == old(reader)@.bytes,
            goal == read_partitions(
                stream,
                reader@.at,
                index as nat,
                partitions as nat,
                per_partition as nat,
                order as nat,
                wide,
                read@,
            ),
        decreases partitions - index,
    {
        // The first partition also holds the warm-up samples already read.
        let count: usize = if index == 0 {
            per_partition - order
        } else {
            per_partition
        };
        read = match partition(reader, count, wide, read) {
            Ok(more) => more,
            Err(error) => return Err(error),
        };
        index = index + 1;
    }
    Ok(read)
}

/// The value the fixed predictor of `order` expects to come next.
pub fn fixed_prediction(past: &[i64], order: usize) -> (expected: i64)
    requires
        order <= 4 ==> order <= past@.len(),
    ensures
        expected == wrap64(polynomial(past@, order as nat)),
{
    let length: usize = past.len();
    if order == 1 {
        past[length - 1]
    } else if order == 2 {
        wrap(2 * past[length - 1] as i128 - past[length - 2] as i128)
    } else if order == 3 {
        wrap(
            3 * past[length - 1] as i128 - 3 * past[length - 2] as i128 + past[length - 3] as i128,
        )
    } else if order == 4 {
        wrap(
            4 * past[length - 1] as i128 - 6 * past[length - 2] as i128 + 4 * past[length - 3] as i128
                - past[length - 4] as i128,
        )
    } else {
        0
    }
}

/// The value coefficients expect to come next.
#[verifier::loop_isolation(false)]
pub fn fitted_prediction(past: &[i64], coefficients: &Vec<i64>, shift: u32) -> (expected: i64)
    requires
        coefficients@.len() <= past@.len(),
        shift < 64,
    ensures
        expected == guess(past@, Rule::Fitted(coefficients@, shift as nat)),
{
    let mut sum: i64 = 0;
    let mut back: usize = 0;
    while back < coefficients.len()
        invariant
            back <= coefficients@.len(),
            sum == wrap64(weighted(coefficients@, past@, back as nat)),
        decreases coefficients@.len() - back,
    {
        let coefficient: i64 = coefficients[back];
        let sample: i64 = past[past.len() - 1 - back];
        proof {
            lemma_word_product(coefficient, sample);
            lemma_wrap_sum(
                weighted(coefficients@, past@, back as nat),
                coefficient * sample,
            );
        }
        sum = wrap(sum as i128 + coefficient as i128 * sample as i128);
        back = back + 1;
    }
    // An arithmetic shift, so that encoder and decoder agree bit for bit.
    shift_down(sum, shift)
}

/// The product of two words fits twice their width.
proof fn lemma_word_product(first: i64, second: i64)
    ensures
        -0x4000_0000_0000_0000_0000_0000_0000_0000 <= first * second
            <= 0x4000_0000_0000_0000_0000_0000_0000_0000,
{
    assert(-0x4000_0000_0000_0000_0000_0000_0000_0000 <= first * second
        <= 0x4000_0000_0000_0000_0000_0000_0000_0000) by (nonlinear_arith)
        requires
            -0x8000_0000_0000_0000 <= first <= 0x8000_0000_0000_0000,
            -0x8000_0000_0000_0000 <= second <= 0x8000_0000_0000_0000,
    ;
}

/// Wrapping a part of a sum early changes nothing.
proof fn lemma_wrap_sum(first: int, second: int)
    ensures
        wrap64(wrap64(first) + second) == wrap64(first + second),
{
}

/// Reads a subframe predicted by one of the five fixed polynomials.
#[verifier::loop_isolation(false)]
fn fixed(reader: &mut Reader, block_size: u32, bits: u32, order: usize) -> (result: Result<
    Vec<i64>,
    Error,
>)
    requires
        old(reader).wf(),
        bits <= 64,
    ensures
        final(reader).wf(),
        final(reader)@.bytes == old(reader)@.bytes,
        delivers(
            result,
            final(reader)@.at,
            read_fixed(
                old(reader)@.stream(),
                old(reader)@.at,
                block_size as nat,
                bits as nat,
                order as nat,
            ),
        ),
{
    let warm = match run(reader, order, bits, Vec::new()) {
        Ok(warm) => warm,
        Err(error) => return Err(error),
    };
    let mut samples = match residual(reader, block_size, order, warm) {
        Ok(samples) => samples,
        Err(error) => return Err(error),
    };
    let ghost rule = Rule::Fixed(order as nat);
    let ghost goal = restored(samples@, order as nat, rule);
    let mut index: usize = order;
    while index < samples.len()
        invariant
            order <= index,
            goal == restored(samples@, index as nat, rule),
        decreases samples@.len() - index,
    {
        let expected: i64 = fixed_prediction(slice_subrange(samples.as_slice(), 0, index), order);
        proof {
            assert(samples@.subrange(0, index as int) =~= samples@.take(index as int));
        }
        let sample: i64 = wrap(samples[index] as i128 + expected as i128);
        samples.set(index, sample);
        index = index + 1;
    }
    Ok(samples)
}

/// Reads a subframe predicted by coefficients the encoder chose and stored.
#[verifier::loop_isolation(false)]
fn lpc(reader: &mut Reader, block_size: u32, bits: u32, order: usize) -> (result: Result<
    Vec<i64>,
    Error,
>)
    requires
        old(reader).wf(),
        bits <= 64,
    ensures
        final(reader).wf(),
        final(reader)@.bytes == old(reader)@.bytes,
        delivers(
            result,
            final(reader)@.at,
            read_lpc(
                old(reader)@.stream(),
                old(reader)@.at,
                block_size as nat,
                bits as nat,
                order as nat,
            ),
        ),
{
    let ghost stream = reader@.stream();
    proof {
        lemma2_to64();
    }
    let warm = match run(reader, order, bits, Vec::new()) {
        Ok(warm) => warm,
        Err(error) => return Err(error),
    };
    let ghost at = reader@.at;
    let stated: u64 = match reader.unsigned(4) {
        Ok(stated) => stated,
        Err(error) => return Err(error),
    };
    proof {
        lemma_value_bound(stream.subrange(at as int, (at + 4) as int));
    }
    let precision: u64 = stated + 1;
    if precision == 16 {
        return Err(format_error("FLAC subframe uses the invalid coefficient precision of 16"));
    }
    let shift: i64 = match reader.signed(5) {
        Ok(shift) => shift,
        Err(error) => return Err(error),
    };
    if shift < 0 {
        return Err(format_error("FLAC subframe uses a negative predictor shift"));
    }
    proof {
        lemma_signed_value(stream.subrange((at + 4) as int, (at + 9) as int));
    }
    let coefficients = match run(reader, order, precision as u32, Vec::new()) {
        Ok(coefficients) => coefficients,
        Err(error) => return Err(error),
    };
    proof {
        lemma_run_length(
            stream,
            (at + 9) as nat,
            order as nat,
            precision as nat,
            Seq::empty(),
        );
    }
    let mut samples = match residual(reader, block_size, order, warm) {
        Ok(samples) => samples,
        Err(error) => return Err(error),
    };
    let ghost rule = Rule::Fitted(coefficients@, shift as nat);
    let ghost goal = restored(samples@, order as nat, rule);
    let mut index: usize = order;
    while index < samples.len()
        invariant
            order <= index,
            goal == restored(samples@, index as nat, rule),
        decreases samples@.len() - index,
    {
        let expected: i64 = fitted_prediction(
            slice_subrange(samples.as_slice(), 0, index),
            &coefficients,
            shift as u32,
        );
        proof {
            assert(samples@.subrange(0, index as int) =~= samples@.take(index as int));
        }
        let sample: i64 = wrap(samples[index] as i128 + expected as i128);
        samples.set(index, sample);
        index = index + 1;
    }
    Ok(samples)
}

/// A run reads as many values as it was asked for, and only moves on.
pub proof fn lemma_run_length(
    stream: Seq<bool>,
    at: nat,
    count: nat,
    bits: nat,
    samples: Seq<i64>,
)
    ensures
        read_run(stream, at, count, bits, samples) matches Ok((read, next)) ==> read.len()
            == samples.len() + count && next == at + count * bits && (at <= stream.len() ==> next
            <= stream.len()),
    decreases count,
{
    if count > 0 {
        if let Ok((value, next)) = read_signed(stream, at, bits) {
            lemma_run_length(
                stream,
                next,
                (count - 1) as nat,
                bits,
                samples.push(value as i64),
            );
            assert(count * bits == bits + (count - 1) * bits) by (nonlinear_arith);
        }
    } else {
        assert(count * bits == 0) by (nonlinear_arith)
            requires
                count == 0,
        ;
    }
}

/// Reads a subframe's type, and how many low bits its samples were shifted
/// down by.
///
/// Samples whose low bits are all zero are stored shifted down, and the count
/// of dropped bits is coded here rather than costing a bit a sample.
fn subframe_head(reader: &mut Reader) -> (result: Result<(u64, u32), Error>)
    requires
        old(reader).wf(),
    ensures
        final(reader).wf(),
        final(reader)@.bytes == old(reader)@.bytes,
        match read_head(old(reader)@.stream(), old(reader)@.at) {
            Ok(((kind, wasted), next)) => result matches Ok((found, dropped)) && found == kind
                && kind < 64 && dropped == wasted && final(reader)@.at == next,
            Err(fault) => result matches Err(error) && error@ == fault,
        },
{
    let ghost stream = reader@.stream();
    let ghost at = reader@.at;
    match reader.bit() {
        Ok(lead) => {
            if lead != 0 {
                return Err(format_error("FLAC subframe sets a reserved leading bit"));
            }
        },
        Err(error) => return Err(error),
    }
    let kind: u64 = match reader.unsigned(6) {
        Ok(kind) => kind,
        Err(error) => return Err(error),
    };
    proof {
        lemma2_to64();
        lemma_value_bound(stream.subrange((at + 1) as int, (at + 7) as int));
    }
    let flag: u32 = match reader.bit() {
        Ok(flag) => flag,
        Err(error) => return Err(error),
    };
    if flag == 1 {
        proof {
            lemma_unary_bound(stream, reader@.at);
        }
        match reader.unary() {
            Ok(zeros) => Ok((kind, zeros + 1)),
            Err(error) => Err(error),
        }
    } else {
        Ok((kind, 0))
    }
}

/// Reads the samples of a subframe of a type.
fn subframe_body(reader: &mut Reader, kind: u64, block_size: u32, bits: u32) -> (result: Result<
    Vec<i64>,
    Error,
>)
    requires
        old(reader).wf(),
        kind < 64,
        bits <= 64,
    ensures
        final(reader).wf(),
        final(reader)@.bytes == old(reader)@.bytes,
        delivers(
            result,
            final(reader)@.at,
            read_body(
                old(reader)@.stream(),
                old(reader)@.at,
                kind as nat,
                block_size as nat,
                bits as nat,
            ),
        ),
{
    if kind == 0 {
        match reader.signed(bits) {
            Ok(value) => Ok(repeated(value, block_size as usize)),
            Err(error) => Err(error),
        }
    } else if kind == 1 {
        run(reader, block_size as usize, bits, Vec::new())
    } else if 8 <= kind && kind <= 12 {
        fixed(reader, block_size, bits, (kind - 8) as usize)
    } else if 32 <= kind {
        lpc(reader, block_size, bits, (kind - 31) as usize)
    } else {
        let mut message = "FLAC subframe uses reserved type 0b".to_string();
        message.append(digits_text(kind, 2, 6).as_str());
        Err(Error::Format(message))
    }
}

/// Shifts samples back up by the bits that were dropped.
pub fn lift(samples: Vec<i64>, wasted: u32) -> (raised: Vec<i64>)
    requires
        wasted < 64,
    ensures
        raised@ == lifted(samples@, wasted as nat),
{
    let ghost stored = samples@;
    let mut samples = samples;
    proof {
        lemma_pow2_word(wasted as nat);
    }
    if wasted == 0 {
        proof {
            lemma2_to64();
            assert forall|i: int| 0 <= i < stored.len() implies stored[i] == wrap64(
                stored[i] * pow2(0),
            ) by {
                assert(stored[i] * 1 == stored[i]);
            }
            assert(samples@ =~= lifted(stored, 0));
        }
        return samples;
    }
    let unit: u64 = 1u64 << (wasted as u64);
    let mut index: usize = 0;
    while index < samples.len()
        invariant
            index <= samples@.len(),
            samples@.len() == stored.len(),
            unit == pow2(wasted as nat),
            unit <= 0x8000_0000_0000_0000,
            forall|i: int| index <= i < stored.len() ==> samples@[i] == stored[i],
            forall|i: int|
                0 <= i < index ==> samples@[i] == wrap64(stored[i] * pow2(wasted as nat)),
        decreases samples@.len() - index,
    {
        let sample: i64 = samples[index];
        proof {
            assert(-0x4000_0000_0000_0000_0000_0000_0000_0000 <= sample * unit
                <= 0x4000_0000_0000_0000_0000_0000_0000_0000) by (nonlinear_arith)
                requires
                    -0x8000_0000_0000_0000 <= sample <= 0x8000_0000_0000_0000,
                    0 <= unit <= 0x8000_0000_0000_0000,
            ;
        }
        samples.set(index, wrap(sample as i128 * unit as i128));
        index = index + 1;
    }
    assert(samples@ =~= lifted(stored, wasted as nat));
    samples
}

/// Reads one channel of one frame.
fn subframe(reader: &mut Reader, block_size: u32, bits: u32) -> (result: Result<Vec<i64>, Error>)
    requires
        old(reader).wf(),
        bits <= 64,
    ensures
        final(reader).wf(),
        final(reader)@.bytes == old(reader)@.bytes,
        delivers(
            result,
            final(reader)@.at,
            read_subframe(
                old(reader)@.stream(),
                old(reader)@.at,
                block_size as nat,
                bits as nat,
            ),
        ),
{
    let (kind, wasted): (u64, u32) = match subframe_head(reader) {
        Ok(head) => head,
        Err(error) => return Err(error),
    };
    if wasted >= bits {
        let mut message = "FLAC subframe wastes ".to_string();
        message.append(decimal_text(wasted as u64).as_str());
        message.append(" of ");
        message.append(decimal_text(bits as u64).as_str());
        message.append(" bits, leaving nothing");
        return Err(Error::Format(message));
    }
    match subframe_body(reader, kind, block_size, bits - wasted) {
        Ok(samples) => Ok(lift(samples, wasted)),
        Err(error) => Err(error),
    }
}

/// One value, held.
fn repeated(value: i64, count: usize) -> (samples: Vec<i64>)
    ensures
        samples@ == Seq::new(count as nat, |i: int| value),
{
    let mut samples: Vec<i64> = Vec::with_capacity(count);
    while samples.len() < count
        invariant
            samples@.len() <= count,
            forall|i: int| 0 <= i < samples@.len() ==> samples@[i] == value,
        decreases count - samples@.len(),
    {
        samples.push(value);
    }
    assert(samples@ =~= Seq::new(count as nat, |i: int| value));
    samples
}

/// How a stereo frame's two subframes relate to left and right.
#[derive(Clone, Copy, Debug, PartialEq, Eq)]
pub enum Channels {
    /// Each subframe is already the channel it stands for.
    Independent(usize),
    /// Left, then left minus right.
    LeftSide,
    /// Left minus right, then right.
    RightSide,
    /// The average of the two, then their difference.
    MidSide,
}

/// The assignment a four-bit frame header code stands for.
pub open spec fn channels_of(code: nat) -> Option<Channels> {
    if code < 8 {
        Some(Channels::Independent((code + 1) as usize))
    } else if code == 8 {
        Some(Channels::LeftSide)
    } else if code == 9 {
        Some(Channels::RightSide)
    } else if code == 10 {
        Some(Channels::MidSide)
    } else {
        None
    }
}

/// The left sample of a mid and side pair.
pub open spec fn left_of(mid: i64, side: i64) -> i64 {
    (wrap64(wrap64(2 * mid + side as int % 2) + side) as int / 2) as i64
}

/// The right sample of a mid and side pair.
pub open spec fn right_of(mid: i64, side: i64) -> i64 {
    (wrap64(wrap64(2 * mid + side as int % 2) - side) as int / 2) as i64
}

impl Channels {
    /// How many subframes the frame carries.
    pub open spec fn spec_count(self) -> nat {
        match self {
            Channels::Independent(channels) => channels as nat,
            _ => 2,
        }
    }

    /// Which subframe carries a difference, and so one extra bit of range.
    pub open spec fn spec_side(self) -> Option<nat> {
        match self {
            Channels::Independent(_) => None,
            Channels::LeftSide => Some(1),
            Channels::MidSide => Some(1),
            Channels::RightSide => Some(0),
        }
    }

    /// The plain channels behind a frame's subframes.
    pub open spec fn resolved(self, block: Seq<Seq<i64>>) -> Seq<Seq<i64>> {
        let first = block[0];
        let second = block[1];
        match self {
            Channels::Independent(_) => block,
            Channels::LeftSide => seq![
                first,
                Seq::new(second.len(), |i: int| wrap64(first[i] - second[i])),
            ],
            Channels::RightSide => seq![
                Seq::new(first.len(), |i: int| wrap64(first[i] + second[i])),
                second,
            ],
            Channels::MidSide => seq![
                Seq::new(first.len(), |i: int| left_of(first[i], second[i])),
                Seq::new(first.len(), |i: int| right_of(first[i], second[i])),
            ],
        }
    }

    /// The assignment a four-bit frame header code stands for.
    pub fn from_code(code: u64) -> (result: Result<Self, Error>)
        ensures
            match channels_of(code as nat) {
                Some(channels) => result == Ok::<Channels, Error>(channels),
                None => result matches Err(error) && error@ == reserved_channels(code as nat),
            },
    {
        if code < 8 {
            Ok(Channels::Independent(code as usize + 1))
        } else if code == 8 {
            Ok(Channels::LeftSide)
        } else if code == 9 {
            Ok(Channels::RightSide)
        } else if code == 10 {
            Ok(Channels::MidSide)
        } else {
            let mut message = "FLAC frame uses reserved channel assignment ".to_string();
            message.append(decimal_text(code).as_str());
            Err(Error::Format(message))
        }
    }

    /// How many subframes the frame carries.
    pub fn count(self) -> (count: usize)
        ensures
            count == self.spec_count(),
    {
        match self {
            Channels::Independent(channels) => channels,
            _ => 2,
        }
    }

    /// Which subframe carries a difference, and so one extra bit of range.
    pub fn side(self) -> (side: Option<usize>)
        ensures
            match self.spec_side() {
                Some(index) => side matches Some(found) && found == index,
                None => side is None,
            },
    {
        match self {
            Channels::Independent(_) => None,
            Channels::LeftSide | Channels::MidSide => Some(1),
            Channels::RightSide => Some(0),
        }
    }

    /// Turns the decoded subframes back into plain channels.
    #[verifier::loop_isolation(false)]
    fn resolve(self, block: Vec<Vec<i64>>) -> (plain: Vec<Vec<i64>>)
        requires
            block@.len() == self.spec_count(),
            self is Independent || block@[0]@.len() == block@[1]@.len(),
        ensures
            planes(plain@) == self.resolved(planes(block@)),
    {
        match self {
            Channels::Independent(_) => block,
            _ => {
                let length: usize = block[0].len();
                let mut left: Vec<i64> = Vec::with_capacity(length);
                let mut right: Vec<i64> = Vec::with_capacity(length);
                let ghost goal = self.resolved(planes(block@));
                while left.len() < length
                    invariant
                        left@.len() == right@.len(),
                        left@.len() <= length,
                        forall|i: int| 0 <= i < left@.len() ==> left@[i] == goal[0][i],
                        forall|i: int| 0 <= i < left@.len() ==> right@[i] == goal[1][i],
                    decreases length - left@.len(),
                {
                    let index: usize = left.len();
                    let first: i64 = block[0][index];
                    let second: i64 = block[1][index];
                    assert(planes(block@)[0][index as int] == first);
                    assert(planes(block@)[1][index as int] == second);
                    match self {
                        Channels::LeftSide => {
                            // `second` is left - right, and `first` is left.
                            left.push(first);
                            right.push(wrap(first as i128 - second as i128));
                        },
                        Channels::RightSide => {
                            // `first` is left - right, and `second` is right.
                            left.push(wrap(first as i128 + second as i128));
                            right.push(second);
                        },
                        _ => {
                            // The encoder dropped the low bit of the sum, which
                            // the low bit of the difference carries instead.
                            let low: i128 = if is_odd(second) {
                                1
                            } else {
                                0
                            };
                            let sum: i64 = wrap(2 * first as i128 + low);
                            proof {
                                lemma2_to64();
                            }
                            left.push(shift_down(wrap(sum as i128 + second as i128), 1));
                            right.push(shift_down(wrap(sum as i128 - second as i128), 1));
                        },
                    }
                }
                let mut plain: Vec<Vec<i64>> = Vec::with_capacity(2);
                assert(left@ =~= goal[0]);
                assert(right@ =~= goal[1]);
                plain.push(left);
                plain.push(right);
                assert(planes(plain@) =~= goal);
                plain
            },
        }
    }
}

/// Whether the low bit of a number is set.
fn is_odd(value: i64) -> (odd: bool)
    ensures
        odd == (value as int % 2 == 1),
{
    if value >= 0 {
        value % 2 == 1
    } else {
        (-(value + 1)) % 2 == 0
    }
}

/// The samples of each channel.
pub open spec fn planes(block: Seq<Vec<i64>>) -> Seq<Seq<i64>> {
    Seq::new(block.len(), |i: int| block[i]@)
}

/// A channel assignment the format reserves.
pub open spec fn reserved_channels(code: nat) -> Fault {
    Fault::Format("FLAC frame uses reserved channel assignment "@ + decimal(code))
}

/// What a frame header announced about the block that follows it.
pub struct FrameHeader {
    /// Samples per channel in this frame.
    pub block_size: u32,
    /// Sample rate, which a frame may restate.
    pub sample_rate: u32,
    /// Bits per sample, which a frame may restate.
    pub bits: u32,
    /// How the subframes relate to the channels.
    pub channels: Channels,
}

/// The block size a four-bit code other than 0, 6 and 7 stands for.
pub open spec fn block_size_of(code: nat) -> nat {
    if code == 1 {
        192
    } else if code == 2 {
        576
    } else if code == 3 {
        1152
    } else if code == 4 {
        2304
    } else if code == 5 {
        4608
    } else if code == 8 {
        256
    } else if code == 9 {
        512
    } else if code == 10 {
        1024
    } else if code == 11 {
        2048
    } else if code == 12 {
        4096
    } else if code == 13 {
        8192
    } else if code == 14 {
        16384
    } else {
        32768
    }
}

/// The sample rate a four-bit code between 1 and 11 stands for.
pub open spec fn sample_rate_of(code: nat) -> nat {
    if code == 1 {
        88200
    } else if code == 2 {
        176400
    } else if code == 3 {
        192000
    } else if code == 4 {
        8000
    } else if code == 5 {
        16000
    } else if code == 6 {
        22050
    } else if code == 7 {
        24000
    } else if code == 8 {
        32000
    } else if code == 9 {
        44100
    } else if code == 10 {
        48000
    } else {
        96000
    }
}

/// The sample depth a three-bit code stands for, or zero for none.
pub open spec fn depth_of(code: nat) -> nat {
    if code == 1 {
        8
    } else if code == 2 {
        12
    } else if code == 4 {
        16
    } else if code == 5 {
        20
    } else if code == 6 {
        24
    } else if code == 7 {
        32
    } else {
        0
    }
}

/// Reading the block size a code refers to.
pub open spec fn read_block_size(stream: Seq<bool>, at: nat, code: nat) -> Result<
    (nat, nat),
    Fault,
> {
    if code == 0 {
        Err(Fault::Format("FLAC frame uses a reserved block size code"@))
    } else if code == 6 || code == 7 {
        match read_unsigned(stream, at, if code == 6 { 8 } else { 16 }) {
            Err(fault) => Err(fault),
            Ok((less, next)) => Ok((less + 1, next)),
        }
    } else {
        Ok((block_size_of(code), at))
    }
}

/// Reading the sample rate a code refers to.
pub open spec fn read_sample_rate(stream: Seq<bool>, at: nat, code: nat, declared: nat) -> Result<
    (nat, nat),
    Fault,
> {
    if code == 0 {
        Ok((declared, at))
    } else if code == 12 {
        match read_unsigned(stream, at, 8) {
            Err(fault) => Err(fault),
            Ok((rate, next)) => Ok((rate * 1000, next)),
        }
    } else if code == 13 {
        read_unsigned(stream, at, 16)
    } else if code == 14 {
        match read_unsigned(stream, at, 16) {
            Err(fault) => Err(fault),
            Ok((rate, next)) => Ok((rate * 10, next)),
        }
    } else if code == 15 {
        Err(Fault::Format("FLAC frame uses an invalid sample rate code"@))
    } else {
        Ok((sample_rate_of(code), at))
    }
}

/// A field of a frame header, by its distance from the header's first bit.
pub open spec fn field(stream: Seq<bool>, at: nat, offset: nat, count: nat) -> nat {
    value_of(stream.subrange((at + offset) as int, (at + offset + count) as int))
}

/// The codes in the first four bytes of a frame header.
pub struct HeaderCodes {
    pub block: nat,
    pub rate: nat,
    pub channels: Channels,
    pub depth: nat,
}

/// Reading the first four bytes of a frame header.
pub open spec fn read_codes(stream: Seq<bool>, at: nat) -> Result<HeaderCodes, Fault> {
    let reserved = Fault::Format("FLAC frame sets a reserved header bit"@);
    if at + 14 > stream.len() {
        Err(ended())
    } else if field(stream, at, 0, 14) != 0x3FFE {
        Err(Fault::Format("FLAC frame does not start with a sync code"@))
    } else if at + 15 > stream.len() {
        Err(ended())
    } else if field(stream, at, 14, 1) != 0 {
        Err(reserved)
    } else if at + 28 > stream.len() {
        Err(ended())
    } else {
        match channels_of(field(stream, at, 24, 4)) {
            None => Err(reserved_channels(field(stream, at, 24, 4))),
            Some(channels) => if at + 32 > stream.len() {
                Err(ended())
            } else if field(stream, at, 31, 1) != 0 {
                Err(reserved)
            } else {
                Ok(
                    HeaderCodes {
                        block: field(stream, at, 16, 4),
                        rate: field(stream, at, 20, 4),
                        channels,
                        depth: field(stream, at, 28, 3),
                    },
                )
            },
        }
    }
}

/// A frame header whose checksum is wrong.
pub open spec fn header_damaged(expected: u8, found: nat) -> Fault {
    Fault::Format(
        "FLAC frame header fails its CRC-8 check: expected 0x"@ + digits(expected as nat, 16, 2)
            + ", found 0x"@ + digits(found, 16, 2),
    )
}

/// A frame whose checksum is wrong.
pub open spec fn frame_damaged(expected: u16, found: nat) -> Fault {
    Fault::Format(
        "FLAC frame fails its CRC-16 check: expected 0x"@ + digits(expected as nat, 16, 4)
            + ", found 0x"@ + digits(found, 16, 4),
    )
}

/// Reading what follows the codes: the frame's number, and the sizes and rates
/// that no code stands for.
pub open spec fn read_sizes(stream: Seq<bool>, at: nat, codes: HeaderCodes, declared: nat) -> Result<
    ((nat, nat), nat),
    Fault,
> {
    match read_utf8_number(stream, at) {
        Err(fault) => Err(fault),
        Ok((_, middle)) => match read_block_size(stream, middle, codes.block) {
            Err(fault) => Err(fault),
            Ok((block_size, next)) => match read_sample_rate(stream, next, codes.rate, declared) {
                Err(fault) => Err(fault),
                Ok((sample_rate, end)) => Ok(((block_size, sample_rate), end)),
            },
        },
    }
}

/// Reading a frame header, up to and with its checksum, which covers the bytes
/// from `start` on.
#[verifier::opaque]
pub open spec fn read_header(bytes: Seq<u8>, at: nat, info: Info, start: nat) -> Result<
    (FrameHeader, nat),
    Fault,
> {
    let stream = bytes_bits(bytes);
    match read_codes(stream, at) {
        Err(fault) => Err(fault),
        Ok(codes) => match read_sizes(stream, at + 32, codes, info.sample_rate as nat) {
            Err(fault) => Err(fault),
            Ok(((block_size, sample_rate), middle)) => match read_unsigned(stream, middle, 8) {
                Err(fault) => Err(fault),
                Ok((found, end)) => {
                    let expected = crc8_of(bytes.subrange(start as int, (middle / 8) as int));
                    let bits = if depth_of(codes.depth) == 0 {
                        info.bits as nat
                    } else {
                        depth_of(codes.depth)
                    };
                    if found != expected {
                        Err(header_damaged(expected, found))
                    } else if bits == 0 || bits > 32 {
                        Err(
                            Fault::Format(
                                "FLAC frame claims "@ + decimal(bits) + " bits per sample"@,
                            ),
                        )
                    } else {
                        Ok(
                            (
                                FrameHeader {
                                    block_size: block_size as u32,
                                    sample_rate: sample_rate as u32,
                                    bits: bits as u32,
                                    channels: codes.channels,
                                },
                                end,
                            ),
                        )
                    }
                },
            },
        },
    }
}

/// Bits per sample of one of a frame's subframes.
pub open spec fn subframe_bits(header: FrameHeader, index: nat) -> nat {
    if header.channels.spec_side() == Some(index) {
        header.bits as nat + 1
    } else {
        header.bits as nat
    }
}

/// Reading the subframes of a frame behind `block`.
pub open spec fn read_block(
    stream: Seq<bool>,
    at: nat,
    header: FrameHeader,
    block: Seq<Seq<i64>>,
) -> Result<(Seq<Seq<i64>>, nat), Fault>
    decreases header.channels.spec_count() - block.len(),
{
    if block.len() >= header.channels.spec_count() {
        Ok((block, at))
    } else {
        match read_subframe(
            stream,
            at,
            header.block_size as nat,
            subframe_bits(header, block.len()),
        ) {
            Err(fault) => Err(fault),
            Ok((samples, next)) => read_block(stream, next, header, block.push(samples)),
        }
    }
}

/// Reading one frame.
#[verifier::opaque]
pub open spec fn read_frame(bytes: Seq<u8>, at: nat, info: Info) -> Result<
    ((FrameHeader, Seq<Seq<i64>>), nat),
    Fault,
> {
    let stream = bytes_bits(bytes);
    let start = at / 8;
    match read_header(bytes, at, info, start) {
        Err(fault) => Err(fault),
        Ok((header, middle)) => match read_block(stream, middle, header, Seq::empty()) {
            Err(fault) => Err(fault),
            Ok((block, next)) => {
                let end = aligned(next);
                let expected = crc16_of(bytes.subrange(start as int, (end / 8) as int));
                match read_unsigned(stream, end, 16) {
                    Err(fault) => Err(fault),
                    Ok((found, last)) => if found != expected {
                        Err(frame_damaged(expected, found))
                    } else {
                        Ok(((header, header.channels.resolved(block)), last))
                    },
                }
            },
        },
    }
}

/// A field that was read is the field at its place, and fits its width.
pub proof fn lemma_field(stream: Seq<bool>, at: nat, offset: nat, count: nat)
    requires
        at + offset + count <= stream.len(),
    ensures
        read_unsigned(stream, at + offset, count) == Ok::<(nat, nat), Fault>(
            (field(stream, at, offset, count), at + offset + count),
        ),
        field(stream, at, offset, count) < pow2(count),
{
    lemma_value_bound(stream.subrange((at + offset) as int, (at + offset + count) as int));
}

/// The codes as they are read.
struct Codes {
    block: u64,
    rate: u64,
    channels: Channels,
    depth: u64,
}

/// Reads the first four bytes of a frame header.
fn header_codes(reader: &mut Reader) -> (result: Result<Codes, Error>)
    requires
        old(reader).wf(),
    ensures
        final(reader).wf(),
        final(reader)@.bytes == old(reader)@.bytes,
        match read_codes(old(reader)@.stream(), old(reader)@.at) {
            Ok(codes) => result matches Ok(found) && found.block == codes.block && found.rate
                == codes.rate && found.channels == codes.channels && found.depth == codes.depth
                && found.block < 16 && found.rate < 16 && found.depth < 8 && final(reader)@.at
                == old(reader)@.at + 32,
            Err(fault) => result matches Err(error) && error@ == fault,
        },
{
    let ghost stream = reader@.stream();
    let ghost at = reader@.at;
    proof {
        lemma2_to64();
    }
    let sync: u64 = match reader.unsigned(14) {
        Ok(sync) => sync,
        Err(error) => return Err(error),
    };
    if sync != 0x3FFE {
        return Err(format_error("FLAC frame does not start with a sync code"));
    }
    let reserved: u32 = match reader.bit() {
        Ok(reserved) => reserved,
        Err(error) => return Err(error),
    };
    if reserved != 0 {
        return Err(format_error("FLAC frame sets a reserved header bit"));
    }
    // Whether the number below counts frames or samples changes nothing about
    // the audio, only about seeking, which this reader does not do.
    match reader.bit() {
        Ok(_) => {},
        Err(error) => return Err(error),
    }
    let block: u64 = match reader.unsigned(4) {
        Ok(block) => block,
        Err(error) => return Err(error),
    };
    let rate: u64 = match reader.unsigned(4) {
        Ok(rate) => rate,
        Err(error) => return Err(error),
    };
    let code: u64 = match reader.unsigned(4) {
        Ok(code) => code,
        Err(error) => return Err(error),
    };
    proof {
        lemma_field(stream, at, 16, 4);
        lemma_field(stream, at, 20, 4);
        lemma_field(stream, at, 24, 4);
    }
    let channels = match Channels::from_code(code) {
        Ok(channels) => channels,
        Err(error) => return Err(error),
    };
    let depth: u64 = match reader.unsigned(3) {
        Ok(depth) => depth,
        Err(error) => return Err(error),
    };
    let reserved: u32 = match reader.bit() {
        Ok(reserved) => reserved,
        Err(error) => return Err(error),
    };
    proof {
        lemma_field(stream, at, 28, 3);
    }
    if reserved != 0 {
        return Err(format_error("FLAC frame sets a reserved header bit"));
    }
    Ok(Codes { block, rate, channels, depth })
}

/// Reads the block size a code refers to.
fn block_size(reader: &mut Reader, code: u64) -> (result: Result<u32, Error>)
    requires
        old(reader).wf(),
        code < 16,
    ensures
        final(reader).wf(),
        final(reader)@.bytes == old(reader)@.bytes,
        match read_block_size(old(reader)@.stream(), old(reader)@.at, code as nat) {
            Ok((size, next)) => result matches Ok(found) && found == size && 1 <= found <= 0x1_0000
                && final(reader)@.at == next,
            Err(fault) => result matches Err(error) && error@ == fault,
        },
{
    if code == 0 {
        return Err(format_error("FLAC frame uses a reserved block size code"));
    }
    if code == 6 || code == 7 {
        let ghost stream = reader@.stream();
        let ghost at = reader@.at;
        let width: u32 = if code == 6 {
            8
        } else {
            16
        };
        return match reader.unsigned(width) {
            Ok(less) => {
                proof {
                    lemma2_to64();
                    lemma_field(stream, at, 0, width as nat);
                }
                Ok(less as u32 + 1)
            },
            Err(error) => Err(error),
        };
    }
    let size: u32 = if code == 1 {
        192
    } else if code == 2 {
        576
    } else if code == 3 {
        1_152
    } else if code == 4 {
        2_304
    } else if code == 5 {
        4_608
    } else if code == 8 {
        256
    } else if code == 9 {
        512
    } else if code == 10 {
        1_024
    } else if code == 11 {
        2_048
    } else if code == 12 {
        4_096
    } else if code == 13 {
        8_192
    } else if code == 14 {
        16_384
    } else {
        32_768
    };
    Ok(size)
}

/// Reads the sample rate a code refers to.
fn sample_rate(reader: &mut Reader, code: u64, declared: u32) -> (result: Result<u32, Error>)
    requires
        old(reader).wf(),
        code < 16,
    ensures
        final(reader).wf(),
        final(reader)@.bytes == old(reader)@.bytes,
        match read_sample_rate(
            old(reader)@.stream(),
            old(reader)@.at,
            code as nat,
            declared as nat,
        ) {
            Ok((rate, next)) => result matches Ok(found) && found == rate && final(reader)@.at == next,
            Err(fault) => result matches Err(error) && error@ == fault,
        },
{
    if code == 15 {
        return Err(format_error("FLAC frame uses an invalid sample rate code"));
    }
    if code >= 12 {
        let ghost stream = reader@.stream();
        let ghost at = reader@.at;
        let width: u32 = if code == 12 {
            8
        } else {
            16
        };
        let stated: u32 = match reader.unsigned(width) {
            Ok(stated) => {
                proof {
                    lemma2_to64();
                    lemma_field(stream, at, 0, width as nat);
                }
                stated as u32
            },
            Err(error) => return Err(error),
        };
        return Ok(
            if code == 12 {
                stated * 1_000
            } else if code == 13 {
                stated
            } else {
                stated * 10
            },
        );
    }
    let rate: u32 = if code == 0 {
        declared
    } else if code == 1 {
        88_200
    } else if code == 2 {
        176_400
    } else if code == 3 {
        192_000
    } else if code == 4 {
        8_000
    } else if code == 5 {
        16_000
    } else if code == 6 {
        22_050
    } else if code == 7 {
        24_000
    } else if code == 8 {
        32_000
    } else if code == 9 {
        44_100
    } else if code == 10 {
        48_000
    } else {
        96_000
    };
    Ok(rate)
}

/// The sample depth a three-bit code stands for, or zero for none.
fn sample_depth(code: u64) -> (depth: u32)
    ensures
        depth == depth_of(code as nat),
{
    if code == 1 {
        8
    } else if code == 2 {
        12
    } else if code == 4 {
        16
    } else if code == 5 {
        20
    } else if code == 6 {
        24
    } else if code == 7 {
        32
    } else {
        0
    }
}

/// Every step of reading a header moves on, and stays within the stream.
proof fn lemma_header_steps(stream: Seq<bool>, at: nat, codes: HeaderCodes, declared: nat)
    requires
        at <= stream.len(),
    ensures
        read_sizes(stream, at, codes, declared) matches Ok((_, next)) ==> at <= next <= stream.len(),
{
    if let Ok((first, next)) = read_unsigned(stream, at, 8) {
        if let Some(count) = super::bits::utf8_followers(first) {
            if count > 0 {
                lemma_utf8_moves(stream, next, count, first % pow2((6 - count) as nat));
            }
        }
    }
}

proof fn lemma_utf8_moves(stream: Seq<bool>, at: nat, count: nat, value: nat)
    requires
        at <= stream.len(),
    ensures
        super::bits::read_utf8_tail(stream, at, count, value) matches Ok((_, next)) ==> at <= next
            <= stream.len(),
    decreases count,
{
    if count > 0 {
        if let Ok((byte, next)) = read_unsigned(stream, at, 8) {
            lemma_utf8_moves(stream, next, (count - 1) as nat, value * 64 + byte % 64);
        }
    }
}

/// Reads a frame header, up to and with its checksum, which covers the bytes
/// from `start` on.
fn frame_header(reader: &mut Reader, info: &StreamInfo, start: usize) -> (result: Result<
    FrameHeader,
    Error,
>)
    requires
        old(reader).wf(),
        8 * start <= old(reader)@.at,
    ensures
        final(reader).wf(),
        final(reader)@.bytes == old(reader)@.bytes,
        match read_header(old(reader)@.bytes, old(reader)@.at, info@, start as nat) {
            Ok((header, next)) => result == Ok::<FrameHeader, Error>(header) && final(reader)@.at
                == next,
            Err(fault) => result matches Err(error) && error@ == fault,
        },
{
    let ghost bytes = reader@.bytes;
    let ghost stream = reader@.stream();
    let ghost at = reader@.at;
    proof {
        reveal(read_header);
        lemma_bytes_bits_len(bytes);
    }
    let codes = match header_codes(reader) {
        Ok(codes) => codes,
        Err(error) => return Err(error),
    };
    let ghost stated = read_codes(stream, at)->Ok_0;
    proof {
        lemma_header_steps(stream, at + 32, stated, info.sample_rate as nat);
    }
    match reader.utf8_number() {
        Ok(_) => {},
        Err(error) => return Err(error),
    }
    let size: u32 = match block_size(reader, codes.block) {
        Ok(size) => size,
        Err(error) => return Err(error),
    };
    let rate: u32 = match sample_rate(reader, codes.rate, info.sample_rate) {
        Ok(rate) => rate,
        Err(error) => return Err(error),
    };
    let stated_bits: u32 = sample_depth(codes.depth);
    let bits: u32 = if stated_bits == 0 {
        info.bits
    } else {
        stated_bits
    };
    let ghost middle = reader@.at;
    let consumed = reader.consumed();
    let expected: u8 = crc8(slice_subrange(consumed, start, consumed.len()));
    proof {
        assert(bytes.take((middle / 8) as int).subrange(start as int, (middle / 8) as int)
            =~= bytes.subrange(start as int, (middle / 8) as int));
    }
    let found: u64 = match reader.unsigned(8) {
        Ok(found) => found,
        Err(error) => return Err(error),
    };
    if found != expected as u64 {
        let mut message =
            "FLAC frame header fails its CRC-8 check: expected 0x".to_string();
        message.append(digits_text(expected as u64, 16, 2).as_str());
        message.append(", found 0x");
        message.append(digits_text(found, 16, 2).as_str());
        return Err(Error::Format(message));
    }
    if bits == 0 || bits > 32 {
        let mut message = "FLAC frame claims ".to_string();
        message.append(decimal_text(bits as u64).as_str());
        message.append(" bits per sample");
        return Err(Error::Format(message));
    }
    Ok(FrameHeader { block_size: size, sample_rate: rate, bits, channels: codes.channels })
}

/// What a reading step may hand out: so many samples, from further on.
pub open spec fn advances(
    stream: Seq<bool>,
    at: nat,
    read: Result<(Seq<i64>, nat), Fault>,
    length: nat,
) -> bool {
    read matches Ok((samples, next)) ==> samples.len() == length && at <= next <= stream.len()
}

proof fn lemma_run_advances(stream: Seq<bool>, at: nat, count: nat, bits: nat, samples: Seq<i64>)
    requires
        at <= stream.len(),
    ensures
        advances(stream, at, read_run(stream, at, count, bits, samples), samples.len() + count),
{
    lemma_run_length(stream, at, count, bits, samples);
    assert(0 <= count * bits) by (nonlinear_arith);
}

proof fn lemma_rice_advances(
    stream: Seq<bool>,
    at: nat,
    count: nat,
    parameter: nat,
    samples: Seq<i64>,
)
    requires
        at <= stream.len(),
    ensures
        advances(
            stream,
            at,
            read_rice(stream, at, count, parameter, samples),
            samples.len() + count,
        ),
    decreases count,
{
    if count > 0 {
        if let Ok((quotient, middle)) = read_unary(stream, at) {
            if let Ok((remainder, next)) = read_unsigned(stream, middle, parameter) {
                lemma_rice_advances(
                    stream,
                    next,
                    (count - 1) as nat,
                    parameter,
                    samples.push(unfolded(quotient * pow2(parameter) + remainder) as i64),
                );
            }
        }
    }
}

proof fn lemma_partition_advances(
    stream: Seq<bool>,
    at: nat,
    count: nat,
    wide: bool,
    samples: Seq<i64>,
)
    requires
        at <= stream.len(),
    ensures
        advances(
            stream,
            at,
            read_partition(stream, at, count, wide, samples),
            samples.len() + count,
        ),
{
    if let Ok((parameter, next)) = read_unsigned(stream, at, parameter_bits(wide)) {
        if parameter == escape(wide) {
            if let Ok((raw, body)) = read_unsigned(stream, next, 5) {
                lemma_run_advances(stream, body, count, raw, samples);
            }
        } else {
            lemma_rice_advances(stream, next, count, parameter, samples);
        }
    }
}

/// Samples in the partitions from `partition` on.
pub open spec fn remaining(partition: nat, partitions: nat, per_partition: nat, order: nat) -> int {
    (partitions - partition) * per_partition - if partition == 0 {
        order as int
    } else {
        0
    }
}

proof fn lemma_partitions_advance(
    stream: Seq<bool>,
    at: nat,
    partition: nat,
    partitions: nat,
    per_partition: nat,
    order: nat,
    wide: bool,
    samples: Seq<i64>,
)
    requires
        at <= stream.len(),
        partition <= partitions,
        partitions > 0,
        order <= per_partition,
    ensures
        remaining(partition, partitions, per_partition, order) >= 0,
        advances(
            stream,
            at,
            read_partitions(
                stream,
                at,
                partition,
                partitions,
                per_partition,
                order,
                wide,
                samples,
            ),
            (samples.len() + remaining(partition, partitions, per_partition, order)) as nat,
        ),
    decreases partitions - partition,
{
    if partition == partitions {
        assert((partitions - partition) * per_partition == 0) by (nonlinear_arith)
            requires
                partitions == partition,
        ;
    } else {
        let count = partition_count(per_partition, order, partition);
        assert((partitions - partition) * per_partition == per_partition + (partitions - (partition
            + 1)) * per_partition) by (nonlinear_arith);
        assert((partitions - (partition + 1)) * per_partition >= 0) by (nonlinear_arith)
            requires
                partition + 1 <= partitions,
        ;
        lemma_partition_advances(stream, at, count, wide, samples);
        if let Ok((more, next)) = read_partition(stream, at, count, wide, samples) {
            lemma_partitions_advance(
                stream,
                next,
                partition + 1,
                partitions,
                per_partition,
                order,
                wide,
                more,
            );
        }
    }
}

proof fn lemma_residual_advances(
    stream: Seq<bool>,
    at: nat,
    block_size: nat,
    order: nat,
    samples: Seq<i64>,
)
    requires
        at <= stream.len(),
        samples.len() == order,
    ensures
        advances(
            stream,
            at,
            read_residual(stream, at, block_size, order, samples),
            block_size,
        ),
{
    if let Ok((method, middle)) = read_unsigned(stream, at, 2) {
        if let Ok((partition_order, next)) = read_unsigned(stream, middle, 4) {
            let partitions = pow2(partition_order);
            let per_partition = block_size / partitions;
            lemma_pow2_pos(partition_order);
            if block_size % partitions == 0 && per_partition >= order {
                lemma_fundamental_div_mod(block_size as int, partitions as int);
                lemma_partitions_advance(
                    stream,
                    next,
                    0,
                    partitions,
                    per_partition,
                    order,
                    method == 1,
                    samples,
                );
            }
        }
    }
}

proof fn lemma_restored_length(samples: Seq<i64>, index: nat, rule: Rule)
    ensures
        restored(samples, index, rule).len() == samples.len(),
    decreases samples.len() - index,
{
    if index < samples.len() {
        lemma_restored_length(
            samples.update(
                index as int,
                wrap64(samples[index as int] + guess(samples.take(index as int), rule)),
            ),
            index + 1,
            rule,
        );
    }
}

/// A subframe yields a whole block, and moves on.
pub proof fn lemma_subframe_advances(stream: Seq<bool>, at: nat, block_size: nat, bits: nat)
    requires
        at <= stream.len(),
    ensures
        advances(stream, at, read_subframe(stream, at, block_size, bits), block_size),
{
    if let Ok(((kind, wasted), next)) = read_head(stream, at) {
        assert(at <= next <= stream.len());
        if wasted < bits {
            let narrow = (bits - wasted) as nat;
            if kind == 1 {
                lemma_run_advances(stream, next, block_size, narrow, Seq::empty());
            } else if 8 <= kind <= 12 {
                let order = (kind - 8) as nat;
                lemma_run_advances(stream, next, order, narrow, Seq::empty());
                if let Ok((warm, body)) = read_run(stream, next, order, narrow, Seq::empty()) {
                    lemma_residual_advances(stream, body, block_size, order, warm);
                    if let Ok((samples, end)) = read_residual(stream, body, block_size, order, warm) {
                        lemma_restored_length(samples, order, Rule::Fixed(order));
                    }
                }
            } else if 32 <= kind <= 63 {
                let order = (kind - 31) as nat;
                lemma_run_advances(stream, next, order, narrow, Seq::empty());
                if let Ok((warm, middle)) = read_run(stream, next, order, narrow, Seq::empty()) {
                    if let Ok((stated, after)) = read_unsigned(stream, middle, 4) {
                        if let Ok((_, body)) = read_signed(stream, after, 5) {
                            lemma_run_advances(stream, body, order, stated + 1, Seq::empty());
                        }
                    }
                    if let Ok((rule, body)) = read_coefficients(stream, middle, order) {
                        lemma_residual_advances(stream, body, block_size, order, warm);
                        if let Ok((samples, end)) = read_residual(
                            stream,
                            body,
                            block_size,
                            order,
                            warm,
                        ) {
                            lemma_restored_length(samples, order, rule);
                        }
                    }
                }
            }
        }
    }
}

/// A block holds a whole number of equally long channels, and moves on.
pub proof fn lemma_block_advances(
    stream: Seq<bool>,
    at: nat,
    header: FrameHeader,
    block: Seq<Seq<i64>>,
)
    requires
        at <= stream.len(),
        block.len() <= header.channels.spec_count(),
        forall|i: int| 0 <= i < block.len() ==> (#[trigger] block[i]).len() == header.block_size,
    ensures
        read_block(stream, at, header, block) matches Ok((whole, next)) ==> whole.len()
            == header.channels.spec_count() && at <= next <= stream.len() && forall|i: int|
            0 <= i < whole.len() ==> (#[trigger] whole[i]).len() == header.block_size,
    decreases header.channels.spec_count() - block.len(),
{
    if block.len() < header.channels.spec_count() {
        let bits = subframe_bits(header, block.len());
        lemma_subframe_advances(stream, at, header.block_size as nat, bits);
        if let Ok((samples, next)) = read_subframe(stream, at, header.block_size as nat, bits) {
            lemma_block_advances(stream, next, header, block.push(samples));
        }
    }
}

/// A header announces at least one sample, and moves on.
pub proof fn lemma_header_advances(bytes: Seq<u8>, at: nat, info: Info, start: nat)
    requires
        at <= 8 * bytes.len(),
    ensures
        read_header(bytes, at, info, start) matches Ok((header, next)) ==> at < next && next <= 8
            * bytes.len() && header.block_size > 0 && 1 <= header.bits <= 32,
{
    let stream = bytes_bits(bytes);
    reveal(read_header);
    lemma_bytes_bits_len(bytes);
    if let Ok(codes) = read_codes(stream, at) {
        lemma_field(stream, at, 16, 4);
        lemma_header_steps(stream, at + 32, codes, info.sample_rate as nat);
        if let Ok((_, middle)) = read_utf8_number(stream, at + 32) {
            lemma_block_size_bound(stream, middle, codes.block);
        }
    }
}

proof fn lemma_block_size_bound(stream: Seq<bool>, at: nat, code: nat)
    ensures
        read_block_size(stream, at, code) matches Ok((size, _)) ==> 1 <= size <= 0x1_0000,
{
    lemma2_to64();
    if code == 6 && at + 8 <= stream.len() {
        lemma_field(stream, at, 0, 8);
    }
    if code == 7 && at + 16 <= stream.len() {
        lemma_field(stream, at, 0, 16);
    }
}

/// Resolving keeps the number of channels and their lengths.
proof fn lemma_resolved_shape(channels: Channels, block: Seq<Seq<i64>>, length: nat)
    requires
        block.len() == channels.spec_count(),
        forall|i: int| 0 <= i < block.len() ==> (#[trigger] block[i]).len() == length,
    ensures
        channels.resolved(block).len() == channels.spec_count(),
        forall|i: int|
            0 <= i < channels.spec_count() ==> (#[trigger] channels.resolved(block)[i]).len() == length,
{
    if channels !is Independent {
        assert(block[0].len() == length);
        assert(block[1].len() == length);
    }
}

/// A frame holds as many equally long channels as its header says, and moves on.
pub proof fn lemma_frame_advances(bytes: Seq<u8>, at: nat, info: Info)
    requires
        at <= 8 * bytes.len(),
    ensures
        read_frame(bytes, at, info) matches Ok(((header, block), next)) ==> at < next && next
            <= 8 * bytes.len() && next % 8 == 0 && block.len() == header.channels.spec_count()
            && header.block_size > 0 && forall|i: int|
            0 <= i < block.len() ==> (#[trigger] block[i]).len() == header.block_size,
{
    let stream = bytes_bits(bytes);
    reveal(read_frame);
    lemma_bytes_bits_len(bytes);
    lemma_header_advances(bytes, at, info, at / 8);
    if let Ok((header, next)) = read_header(bytes, at, info, at / 8) {
        lemma_block_advances(stream, next, header, Seq::empty());
        if let Ok((block, last)) = read_block(stream, next, header, Seq::empty()) {
            lemma_resolved_shape(header.channels, block, header.block_size as nat);
        }
    }
}

/// Reads the subframes of a frame.
#[verifier::loop_isolation(false)]
fn block(reader: &mut Reader, header: &FrameHeader) -> (result: Result<Vec<Vec<i64>>, Error>)
    requires
        old(reader).wf(),
        header.bits <= 32,
    ensures
        final(reader).wf(),
        final(reader)@.bytes == old(reader)@.bytes,
        match read_block(old(reader)@.stream(), old(reader)@.at, *header, Seq::empty()) {
            Ok((samples, next)) => result matches Ok(channels) && planes(channels@) == samples
                && final(reader)@.at == next,
            Err(fault) => result matches Err(error) && error@ == fault,
        },
{
    let ghost stream = reader@.stream();
    let ghost goal = read_block(stream, reader@.at, *header, Seq::empty());
    let count: usize = header.channels.count();
    let mut block: Vec<Vec<i64>> = Vec::with_capacity(count);
    assert(planes(block@) =~= Seq::empty());
    while block.len() < count
        invariant
            block@.len() <= count,
            reader.wf(),
            reader@.bytes == old(reader)@.bytes,
            goal == read_block(stream, reader@.at, *header, planes(block@)),
        decreases count - block@.len(),
    {
        let index: usize = block.len();
        let bits: u32 = match header.channels.side() {
            Some(side) => {
                if side == index {
                    header.bits + 1
                } else {
                    header.bits
                }
            },
            None => header.bits,
        };
        let ghost before = block@;
        match subframe(reader, header.block_size, bits) {
            Ok(samples) => {
                block.push(samples);
                assert(planes(block@) =~= planes(before).push(samples@));
            },
            Err(error) => return Err(error),
        }
    }
    Ok(block)
}

/// Reads one frame, returning its header and one vector of codes per channel.
#[verifier::rlimit(60)]
#[verifier::spinoff_prover]
pub fn frame(reader: &mut Reader, info: &StreamInfo) -> (result: Result<
    (FrameHeader, Vec<Vec<i64>>),
    Error,
>)
    requires
        old(reader).wf(),
    ensures
        final(reader).wf(),
        final(reader)@.bytes == old(reader)@.bytes,
        match read_frame(old(reader)@.bytes, old(reader)@.at, info@) {
            Ok(((header, block), next)) => result matches Ok((found, channels)) && found == header
                && planes(channels@) == block && final(reader)@.at == next,
            Err(fault) => result matches Err(error) && error@ == fault,
        },
{
    let ghost bytes = reader@.bytes;
    let ghost stream = reader@.stream();
    let start: usize = reader.position() / 8;
    proof {
        reveal(read_frame);
        lemma_bytes_bits_len(bytes);
        lemma_header_advances(bytes, reader@.at, info@, start as nat);
    }
    let header = match frame_header(reader, info, start) {
        Ok(header) => header,
        Err(error) => return Err(error),
    };
    proof {
        lemma_block_advances(stream, reader@.at, header, Seq::empty());
    }
    let samples = match block(reader, &header) {
        Ok(samples) => samples,
        Err(error) => return Err(error),
    };
    proof {
        let read = planes(samples@);
        if header.channels !is Independent {
            assert(read[0].len() == header.block_size);
            assert(read[1].len() == header.block_size);
        }
    }
    let plain = header.channels.resolve(samples);
    reader.align();
    let ghost end = reader@.at;
    let consumed = reader.consumed();
    let expected: u16 = crc16(slice_subrange(consumed, start, consumed.len()));
    proof {
        assert(bytes.take((end / 8) as int).subrange(start as int, (end / 8) as int)
            =~= bytes.subrange(start as int, (end / 8) as int));
    }
    let found: u64 = match reader.unsigned(16) {
        Ok(found) => found,
        Err(error) => return Err(error),
    };
    if found != expected as u64 {
        let mut message = "FLAC frame fails its CRC-16 check: expected 0x".to_string();
        message.append(digits_text(expected as u64, 16, 4).as_str());
        message.append(", found 0x");
        message.append(digits_text(found, 16, 4).as_str());
        return Err(Error::Format(message));
    }
    Ok((header, plain))
}

} // verus!
