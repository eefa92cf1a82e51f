//! Turning planar audio into a FLAC stream.
//!
//! The encoder is a search, not a transform. For every block it works out what
//! the samples would cost described each of the ways the format allows (as a
//! constant, as themselves, as one of five fixed polynomial predictors, or as
//! coefficients fitted to this block in particular) and writes only the
//! cheapest. Stereo gets the same treatment across channels: left and right, or
//! either one against their difference, whichever pair costs less.
//!
//! Every candidate reconstructs the input exactly. The choice between them is
//! only ever about size, which is why nothing here can cost fidelity. That holds
//! for fitted coefficients too, whoever did the fitting: they are handed in, and
//! bad ones only ever cost room.

use vstd::arithmetic::div_mod::{
    lemma_div_is_ordered_by_denominator, lemma_fundamental_div_mod,
    lemma_fundamental_div_mod_converse,
};
use vstd::arithmetic::power2::{
    lemma2_to64, lemma2_to64_rest, lemma_pow2_adds, lemma_pow2_pos, lemma_pow2_strictly_increases,
    lemma_pow2_unfold, pow2,
};
use vstd::bits::lemma_u64_shr_is_div;
use vstd::prelude::*;
use vstd::slice::slice_subrange;

use super::bits::{
    bits_bytes, bits_of, bytes_bits, crc16, crc16_of, crc8, crc8_of, lemma_bits_len,
    lemma_bytes_bits_len, lemma_pow2_word, padded,
    signed_bits, unary_bits, utf8_bits, utf8_extra, utf8_lead, utf8_tail_bits, Writer,
};
use super::decode::{
    fitted_prediction, fixed_prediction, guess, parameter_bits, planes, weighted, Rule,
};
use super::lossless::lemma_subframe_len;
use super::md5::{frame_count, layout, lemma_digest_len, of_samples, samples_digest};
use super::word::{lemma_wrap_small, shift_down};
use super::{Info, StreamInfo};
use crate::audio::{clamped_channels, Audio, SampleFormat, Sound};
use crate::error::{Error, Fault};
use crate::text::{decimal, decimal_text};

verus! {

/// Samples per channel in a block, which is what most encoders settle on.
pub const BLOCK: usize = 4_096;

/// The highest fixed predictor order the format defines.
pub const MAX_FIXED_ORDER: usize = 4;

/// The highest fitted predictor order this encoder tries.
///
/// The format allows 32. Past a dozen the coefficients cost more to state than
/// the sharper prediction saves, which is where every other encoder stops too.
pub const MAX_LPC_ORDER: usize = 12;

/// Bits each fitted coefficient is stored in, with its sign.
pub const COEFFICIENT_PRECISION: u32 = 15;

/// The largest predictor shift the five-bit field can hold.
pub const MAX_SHIFT: u32 = 15;

/// The most partitions a residual may be split into, as `2^order`.
pub const MAX_PARTITION_ORDER: u32 = 8;

/// Rice parameters below this fit the narrower of the two coding methods.
pub const NARROW_PARAMETER_LIMIT: u32 = 14;

/// The largest Rice parameter the format can express.
pub const MAX_PARAMETER: u32 = 30;

/// No residual that a usable predictor leaves is folded onto more than this.
pub const FOLDED_LIMIT: u64 = 0x8_0000_0000_0000;

/// The natural number a signed one is folded onto: 0, -1, 1, -2 become 0, 1, 2,
/// 3.
pub open spec fn folded(error: int) -> nat {
    if error >= 0 {
        (2 * error) as nat
    } else {
        (-2 * error - 1) as nat
    }
}

/// Folds a signed number onto the naturals.
fn fold(error: i64) -> (natural: u64)
    ensures
        natural == folded(error as int),
{
    if error >= 0 {
        2 * (error as u64)
    } else {
        2 * ((-(error + 1)) as u64) + 1
    }
}

/// What coding values with a parameter costs, in bits.
pub open spec fn rice_bits_count(values: Seq<u64>, parameter: nat) -> nat
    decreases values.len(),
{
    if values.len() == 0 {
        0
    } else {
        rice_bits_count(values.drop_last(), parameter) + values.last() as nat / pow2(parameter) + 1
            + parameter
    }
}

/// The sum of values.
pub open spec fn total_of(values: Seq<u64>) -> nat
    decreases values.len(),
{
    if values.len() == 0 {
        0
    } else {
        total_of(values.drop_last()) + values.last() as nat
    }
}

/// The base-two logarithm of a number, rounded down, with zero for zero.
pub open spec fn exponent(value: nat) -> nat
    decreases value,
{
    if value < 2 {
        0
    } else {
        1 + exponent(value / 2)
    }
}

/// The first of the parameters `from..=to` that costs least.
pub open spec fn cheapest(values: Seq<u64>, from: nat, to: nat) -> nat
    decreases to - from,
{
    if to <= from {
        from
    } else {
        let before = cheapest(values, from, (to - 1) as nat);
        if rice_bits_count(values, to) < rice_bits_count(values, before) {
            to
        } else {
            before
        }
    }
}

/// The Rice parameter for values: about the base-two logarithm of their mean,
/// with its immediate neighbours measured exactly.
pub open spec fn rice_parameter(values: Seq<u64>) -> nat {
    if values.len() == 0 {
        0
    } else {
        let estimate = exponent(total_of(values) / values.len());
        let from = if estimate == 0 {
            0
        } else {
            (estimate - 1) as nat
        };
        let to = if estimate + 1 < MAX_PARAMETER {
            estimate + 1
        } else {
            MAX_PARAMETER as nat
        };
        if to < from {
            0
        } else {
            cheapest(values, from, to)
        }
    }
}

/// Values that a plan can be made for.
pub open spec fn plannable(values: Seq<u64>) -> bool {
    values.len() <= BLOCK && forall|i: int| 0 <= i < values.len() ==> values[i] <= FOLDED_LIMIT
}

proof fn lemma_count_bound(values: Seq<u64>, parameter: nat)
    requires
        plannable(values),
        parameter <= MAX_PARAMETER,
    ensures
        rice_bits_count(values, parameter) <= values.len() * (FOLDED_LIMIT + 31),
    decreases values.len(),
{
    if values.len() > 0 {
        assert(plannable(values.drop_last()));
        lemma_count_bound(values.drop_last(), parameter);
        lemma_pow2_pos(parameter);
        lemma_div_is_ordered_by_denominator(values.last() as int, 1, pow2(parameter) as int);
        assert(values.last() <= FOLDED_LIMIT);
    }
}

proof fn lemma_total_bound(values: Seq<u64>)
    requires
        plannable(values),
    ensures
        total_of(values) <= values.len() * FOLDED_LIMIT,
    decreases values.len(),
{
    if values.len() > 0 {
        assert(plannable(values.drop_last()));
        lemma_total_bound(values.drop_last());
        assert(values.last() <= FOLDED_LIMIT);
    }
}

/// What coding `values` with `parameter` costs, in bits.
fn rice_cost(values: &[u64], parameter: u32) -> (cost: u64)
    requires
        plannable(values@),
        parameter <= MAX_PARAMETER,
    ensures
        cost == rice_bits_count(values@, parameter as nat),
{
    let mut cost: u64 = 0;
    let mut index: usize = 0;
    while index < values.len()
        invariant
            index <= values@.len(),
            plannable(values@),
            parameter <= MAX_PARAMETER,
            cost == rice_bits_count(values@.take(index as int), parameter as nat),
        decreases values@.len() - index,
    {
        let quotient: u64 = values[index] >> (parameter as u64);
        proof {
            lemma_u64_shr_is_div(values@[index as int], parameter as u64);
            let longer = values@.take(index + 1);
            assert(longer.drop_last() =~= values@.take(index as int));
            lemma_count_bound(longer, parameter as nat);
        }
        cost = cost + quotient + 1 + parameter as u64;
        index = index + 1;
    }
    assert(values@.take(index as int) =~= values@);
    cost
}

/// The base-two logarithm of a number, rounded down, with zero for zero.
pub fn logarithm(value: u64) -> (result: u32)
    ensures
        result == exponent(value as nat),
        result < 64,
{
    let mut rest: u64 = value;
    let mut result: u32 = 0;
    proof {
        lemma2_to64_rest();
        lemma2_to64();
    }
    while rest >= 2
        invariant
            exponent(value as nat) == result + exponent(rest as nat),
            result < 64,
            rest * pow2(result as nat) <= value,
            pow2(64) == 0x1_0000_0000_0000_0000,
        decreases rest,
    {
        proof {
            lemma_pow2_unfold((result + 1) as nat);
            let unit = pow2(result as nat);
            assert((rest / 2) * (2 * unit) <= rest * unit) by (nonlinear_arith)
                requires
                    2 * (rest / 2) <= rest,
            ;
            lemma_pow2_pos((result + 1) as nat);
            let above = pow2((result + 1) as nat);
            assert(rest / 2 >= 1);
            assert((rest / 2) * above >= above) by (nonlinear_arith)
                requires
                    rest / 2 >= 1,
                    above > 0,
            ;
            if result + 1 >= 64 {
                assert(false);
            }
        }
        rest = rest / 2;
        result = result + 1;
    }
    result
}

/// The Rice parameter that codes `values` most cheaply, and what it costs.
fn rice(values: &[u64]) -> (choice: (u32, u64))
    requires
        plannable(values@),
    ensures
        choice.0 == rice_parameter(values@),
        choice.0 <= MAX_PARAMETER,
        choice.1 == rice_bits_count(values@, choice.0 as nat),
{
    if values.len() == 0 {
        return (0, 0);
    }
    let mut total: u64 = 0;
    let mut index: usize = 0;
    while index < values.len()
        invariant
            index <= values@.len(),
            plannable(values@),
            total == total_of(values@.take(index as int)),
        decreases values@.len() - index,
    {
        proof {
            let longer = values@.take(index + 1);
            assert(longer.drop_last() =~= values@.take(index as int));
            lemma_total_bound(longer);
        }
        total = total + values[index];
        index = index + 1;
    }
    assert(values@.take(index as int) =~= values@);
    let mean: u64 = total / values.len() as u64;
    // The best parameter is about the base-two logarithm of the mean, so only
    // its immediate neighbours are worth measuring exactly.
    let estimate: u32 = logarithm(mean);
    let from: u32 = if estimate == 0 {
        0
    } else {
        estimate - 1
    };
    let to: u32 = if estimate + 1 < MAX_PARAMETER {
        estimate + 1
    } else {
        MAX_PARAMETER
    };
    if to < from {
        return (0, rice_cost(values, 0));
    }
    let mut best: u32 = from;
    let mut cost: u64 = rice_cost(values, from);
    let mut parameter: u32 = from;
    while parameter < to
        invariant
            from <= parameter <= to <= MAX_PARAMETER,
            plannable(values@),
            best == cheapest(values@, from as nat, parameter as nat),
            best <= parameter,
            cost == rice_bits_count(values@, best as nat),
        decreases to - parameter,
    {
        parameter = parameter + 1;
        let other: u64 = rice_cost(values, parameter);
        if other < cost {
            best = parameter;
            cost = other;
        }
    }
    (best, cost)
}

/// Where a partition of a residual starts: the first is short by the warm-up.
pub open spec fn partition_start(per_partition: nat, order: nat, partition: nat) -> int {
    if partition == 0 {
        0
    } else {
        partition * per_partition - order
    }
}

/// One partition of a folded residual.
pub open spec fn partition_of(
    values: Seq<u64>,
    per_partition: nat,
    order: nat,
    partition: nat,
) -> Seq<u64> {
    values.subrange(
        partition_start(per_partition, order, partition),
        partition_start(per_partition, order, partition + 1),
    )
}

/// What the first `count` partitions cost, each with its own parameter.
pub open spec fn partitions_cost(
    values: Seq<u64>,
    per_partition: nat,
    order: nat,
    count: nat,
) -> nat
    decreases count,
{
    if count == 0 {
        0
    } else {
        let last = partition_of(values, per_partition, order, (count - 1) as nat);
        partitions_cost(values, per_partition, order, (count - 1) as nat) + rice_bits_count(
            last,
            rice_parameter(last),
        )
    }
}

/// Whether a block can be cut into `2^partition_order` partitions.
pub open spec fn splits(block_size: nat, order: nat, partition_order: nat) -> bool {
    block_size % pow2(partition_order) == 0 && block_size / pow2(partition_order) >= order
}

/// What a residual costs cut that way. Every partition states its own
/// parameter, in four or five bits.
pub open spec fn split_cost(
    values: Seq<u64>,
    block_size: nat,
    order: nat,
    partition_order: nat,
) -> nat {
    let partitions = pow2(partition_order);
    5 * partitions + partitions_cost(values, block_size / partitions, order, partitions)
}

/// The first of the partition orders `0..=last` that costs least.
pub open spec fn best_split(values: Seq<u64>, block_size: nat, order: nat, last: nat) -> Option<nat>
    decreases last,
{
    let before = if last == 0 {
        None
    } else {
        best_split(values, block_size, order, (last - 1) as nat)
    };
    if !splits(block_size, order, last) {
        before
    } else {
        match before {
            None => Some(last),
            Some(kept) => if split_cost(values, block_size, order, last) < split_cost(
                values,
                block_size,
                order,
                kept,
            ) {
                Some(last)
            } else {
                before
            },
        }
    }
}

/// The partition order a residual is written with.
pub open spec fn chosen_split(values: Seq<u64>, block_size: nat, order: nat) -> nat {
    best_split(values, block_size, order, MAX_PARTITION_ORDER as nat)->Some_0
}

/// The parameters of the first `count` partitions.
pub open spec fn parameters_of(
    values: Seq<u64>,
    per_partition: nat,
    order: nat,
    count: nat,
) -> Seq<nat> {
    Seq::new(
        count,
        |i: int| rice_parameter(partition_of(values, per_partition, order, i as nat)),
    )
}

/// What a residual costs, with the method and the partition order, which are
/// stated once.
pub open spec fn plan_cost(values: Seq<u64>, block_size: nat, order: nat) -> nat {
    split_cost(values, block_size, order, chosen_split(values, block_size, order)) + 6
}

/// How a residual will be split up and coded, and what that comes to.
pub struct Plan {
    /// The residual folded onto the naturals, ready to write.
    pub folded: Vec<u64>,
    pub partition_order: u32,
    pub parameters: Vec<u32>,
    pub cost: u64,
}

/// A list of parameters as plain numbers.
pub open spec fn numbers(parameters: Seq<u32>) -> Seq<nat> {
    Seq::new(parameters.len(), |i: int| parameters[i] as nat)
}

impl Plan {
    /// The plan is the cheapest one for the residual it holds.
    pub open spec fn fits(&self, block_size: nat, order: nat) -> bool {
        let values = self.folded@;
        let partitions = pow2(self.partition_order as nat);
        &&& plannable(values)
        &&& values.len() == block_size - order
        &&& self.partition_order <= MAX_PARTITION_ORDER
        &&& splits(block_size, order, self.partition_order as nat)
        &&& self.partition_order == chosen_split(values, block_size, order)
        &&& numbers(self.parameters@) == parameters_of(
            values,
            block_size / partitions,
            order,
            partitions,
        )
        &&& self.cost == plan_cost(values, block_size, order)
        &&& forall|i: int|
            0 <= i < self.parameters@.len() ==> self.parameters@[i] <= MAX_PARAMETER
    }
}

/// The partitions of a split lie within the residual, one behind the other.
pub proof fn lemma_partition_bounds(
    length: nat,
    block_size: nat,
    order: nat,
    partition_order: nat,
    partition: nat,
)
    requires
        length == block_size - order,
        splits(block_size, order, partition_order),
        partition < pow2(partition_order),
    ensures
        ({
            let per = block_size / pow2(partition_order);
            &&& 0 <= partition_start(per, order, partition) <= partition_start(
                per,
                order,
                partition + 1,
            ) <= length
            &&& partition + 1 == pow2(partition_order) ==> partition_start(
                per,
                order,
                partition + 1,
            ) == length
        }),
{
    let partitions = pow2(partition_order);
    let per = block_size / partitions;
    lemma_pow2_pos(partition_order);
    lemma_fundamental_div_mod(block_size as int, partitions as int);
    assert((partition + 1) * per <= partitions * per) by (nonlinear_arith)
        requires
            partition + 1 <= partitions,
    ;
    assert((partition + 1) * per == partition * per + per) by (nonlinear_arith);
    if partition > 0 {
        assert(partition * per >= per) by (nonlinear_arith)
            requires
                partition >= 1,
        ;
    } else {
        assert(partition * per == 0) by (nonlinear_arith)
            requires
                partition == 0,
        ;
    }
}

proof fn lemma_partitions_bound(
    values: Seq<u64>,
    block_size: nat,
    order: nat,
    partition_order: nat,
    count: nat,
)
    requires
        plannable(values),
        values.len() == block_size - order,
        splits(block_size, order, partition_order),
        count <= pow2(partition_order),
    ensures
        ({
            let per = block_size / pow2(partition_order);
            partitions_cost(values, per, order, count) <= partition_start(per, order, count) * (
            FOLDED_LIMIT + 31)
        }),
    decreases count,
{
    if count > 0 {
        let per = block_size / pow2(partition_order);
        let before = (count - 1) as nat;
        lemma_partitions_bound(values, block_size, order, partition_order, before);
        lemma_partition_bounds(values.len(), block_size, order, partition_order, before);
        let last = partition_of(values, per, order, before);
        assert(plannable(last));
        lemma_parameter_bound(last);
        lemma_count_bound(last, rice_parameter(last));
    }
}

proof fn lemma_cheapest_bound(values: Seq<u64>, from: nat, to: nat)
    requires
        from <= to,
    ensures
        from <= cheapest(values, from, to) <= to,
    decreases to - from,
{
    if from < to {
        lemma_cheapest_bound(values, from, (to - 1) as nat);
    }
}

pub proof fn lemma_parameter_bound(values: Seq<u64>)
    ensures
        rice_parameter(values) <= MAX_PARAMETER,
{
    if values.len() > 0 {
        let estimate = exponent(total_of(values) / values.len());
        let from = if estimate == 0 {
            0
        } else {
            (estimate - 1) as nat
        };
        let to = if estimate + 1 < MAX_PARAMETER {
            estimate + 1
        } else {
            MAX_PARAMETER as nat
        };
        if from <= to {
            lemma_cheapest_bound(values, from, to);
        }
    }
}

/// Samples in one partition, the first being short by the predictor's warm-up.
fn partition_length(per_partition: usize, order: usize, partition: usize) -> (length: usize)
    requires
        order <= per_partition,
    ensures
        length == super::decode::partition_count(
            per_partition as nat,
            order as nat,
            partition as nat,
        ),
{
    if partition == 0 {
        per_partition - order
    } else {
        per_partition
    }
}

/// Costs a residual cut into `2^partition_order` partitions.
#[verifier::loop_isolation(false)]
fn split(folded: &Vec<u64>, block_size: usize, order: usize, partition_order: u32) -> (choice: (
    Vec<u32>,
    u64,
))
    requires
        plannable(folded@),
        block_size <= BLOCK,
        folded@.len() == block_size - order,
        partition_order <= MAX_PARTITION_ORDER,
        splits(block_size as nat, order as nat, partition_order as nat),
    ensures
        numbers(choice.0@) == parameters_of(
            folded@,
            block_size as nat / pow2(partition_order as nat),
            order as nat,
            pow2(partition_order as nat),
        ),
        forall|i: int| 0 <= i < choice.0@.len() ==> choice.0@[i] <= MAX_PARAMETER,
        choice.1 == split_cost(
            folded@,
            block_size as nat,
            order as nat,
            partition_order as nat,
        ),
{
    proof {
        lemma_pow2_word(partition_order as nat);
        lemma2_to64();
        if partition_order < 8 {
            lemma_pow2_strictly_increases(partition_order as nat, 8);
        }
    }
    let partitions: usize = (1u64 << (partition_order as u64)) as usize;
    let per_partition: usize = block_size / partitions;
    let ghost per = per_partition as nat;
    let mut parameters: Vec<u32> = Vec::with_capacity(partitions);
    // Every partition states its own parameter, in four or five bits.
    let mut cost: u64 = partitions as u64 * 5;
    let mut offset: usize = 0;
    assert(numbers(parameters@) =~= parameters_of(folded@, per, order as nat, 0));
    while parameters.len() < partitions
        invariant
            parameters@.len() <= partitions,
            offset == partition_start(per, order as nat, parameters@.len()),
            numbers(parameters@) == parameters_of(folded@, per, order as nat, parameters@.len()),
            forall|i: int| 0 <= i < parameters@.len() ==> parameters@[i] <= MAX_PARAMETER,
            cost == 5 * partitions + partitions_cost(
                folded@,
                per,
                order as nat,
                parameters@.len(),
            ),
        decreases partitions - parameters@.len(),
    {
        let ghost done = parameters@.len();
        let ghost before = parameters@;
        proof {
            lemma_partition_bounds(
                folded@.len(),
                block_size as nat,
                order as nat,
                partition_order as nat,
                done,
            );
            assert((done + 1) * per == done * per + per) by (nonlinear_arith);
            lemma_partitions_bound(
                folded@,
                block_size as nat,
                order as nat,
                partition_order as nat,
                done + 1,
            );
            let end = partition_start(per, order as nat, done + 1);
            assert(end * (FOLDED_LIMIT + 31) <= BLOCK * (FOLDED_LIMIT + 31)) by (nonlinear_arith)
                requires
                    0 <= end <= BLOCK,
            ;
            if done == 0 {
                assert(done * per == 0) by (nonlinear_arith)
                    requires
                        done == 0,
                ;
            }
        }
        let count: usize = partition_length(per_partition, order, parameters.len());
        let part = slice_subrange(folded.as_slice(), offset, offset + count);
        proof {
            assert(part@ =~= partition_of(folded@, per, order as nat, done));
            assert(plannable(part@));
        }
        let (parameter, partition_cost): (u32, u64) = rice(part);
        offset = offset + count;
        parameters.push(parameter);
        cost = cost + partition_cost;
        proof {
            assert(numbers(parameters@) =~= parameters_of(folded@, per, order as nat, done + 1)) by {
                let goal = parameters_of(folded@, per, order as nat, done + 1);
                assert forall|i: int| 0 <= i < goal.len() implies numbers(parameters@)[i]
                    == goal[i] by {
                    if i < done {
                        assert(numbers(before)[i] == parameters_of(
                            folded@,
                            per,
                            order as nat,
                            done,
                        )[i]);
                    }
                }
            }
        }
    }
    (parameters, cost)
}

/// Chooses the partitioning that codes `errors` in the fewest bits.
///
/// Rice coding is made for small values around zero, so the residual is folded
/// onto the naturals: 0, -1, 1, -2 becomes 0, 1, 2, 3.
#[verifier::loop_isolation(false)]
fn plan(errors: &Vec<i64>, block_size: usize, order: usize) -> (plan: Plan)
    requires
        block_size <= BLOCK,
        order <= block_size,
        errors@.len() == block_size - order,
        forall|i: int| 0 <= i < errors@.len() ==> folded(#[trigger] errors@[i] as int) <= FOLDED_LIMIT,
    ensures
        plan.fits(block_size as nat, order as nat),
        plan.folded@ == Seq::new(
            errors@.len(),
            |i: int| folded(errors@[i] as int) as u64,
        ),
{
    let mut values: Vec<u64> = Vec::with_capacity(errors.len());
    while values.len() < errors.len()
        invariant
            values@.len() <= errors@.len(),
            forall|i: int|
                0 <= i < values@.len() ==> values@[i] == folded(#[trigger] errors@[i] as int),
        decreases errors@.len() - values@.len(),
    {
        let error: i64 = errors[values.len()];
        assert(folded(errors@[values@.len() as int] as int) <= FOLDED_LIMIT);
        values.push(fold(error));
    }
    assert(values@ =~= Seq::new(errors@.len(), |i: int| folded(errors@[i] as int) as u64));
    assert forall|i: int| 0 <= i < values@.len() implies values@[i] <= FOLDED_LIMIT by {
        assert(folded(errors@[i] as int) <= FOLDED_LIMIT);
    }
    proof {
        lemma2_to64();
        assert(block_size as nat % 1 == 0 && block_size as nat / 1 == block_size);
        assert(splits(block_size as nat, order as nat, 0));
    }
    let (first, first_cost): (Vec<u32>, u64) = split(&values, block_size, order, 0);
    let mut best: u32 = 0;
    let mut parameters: Vec<u32> = first;
    let mut cost: u64 = first_cost;
    let mut partition_order: u32 = 0;
    while partition_order < MAX_PARTITION_ORDER
        invariant
            partition_order <= MAX_PARTITION_ORDER,
            best <= partition_order,
            splits(block_size as nat, order as nat, best as nat),
            best_split(values@, block_size as nat, order as nat, partition_order as nat) == Some(
                best as nat,
            ),
            numbers(parameters@) == parameters_of(
                values@,
                block_size as nat / pow2(best as nat),
                order as nat,
                pow2(best as nat),
            ),
            forall|i: int| 0 <= i < parameters@.len() ==> parameters@[i] <= MAX_PARAMETER,
            cost == split_cost(values@, block_size as nat, order as nat, best as nat),
        decreases MAX_PARTITION_ORDER - partition_order,
    {
        partition_order = partition_order + 1;
        proof {
            lemma_pow2_word(partition_order as nat);
            if partition_order < 8 {
                lemma_pow2_strictly_increases(partition_order as nat, 8);
            }
        }
        let partitions: usize = (1u64 << (partition_order as u64)) as usize;
        if block_size % partitions == 0 && block_size / partitions >= order {
            let (others, other_cost): (Vec<u32>, u64) = split(
                &values,
                block_size,
                order,
                partition_order,
            );
            if other_cost < cost {
                best = partition_order;
                parameters = others;
                cost = other_cost;
            }
        }
    }
    proof {
        lemma_partitions_bound(
            values@,
            block_size as nat,
            order as nat,
            best as nat,
            pow2(best as nat),
        );
        let partitions = pow2(best as nat);
        lemma_pow2_pos(best as nat);
        lemma_partition_bounds(
            values@.len(),
            block_size as nat,
            order as nat,
            best as nat,
            (partitions - 1) as nat,
        );
        assert(values@.len() * (FOLDED_LIMIT + 31) <= BLOCK * (FOLDED_LIMIT + 31)) by (nonlinear_arith)
            requires
                values@.len() <= BLOCK,
        ;
        if best < 8 {
            lemma_pow2_strictly_increases(best as nat, 8);
        }
    }
    // The method and the partition order are stated once, before them all.
    Plan { folded: values, partition_order: best, parameters, cost: cost + 2 + 4 }
}

/// The bits of one Rice-coded value: its quotient in unary, then its low bits.
pub open spec fn value_bits(value: u64, parameter: nat) -> Seq<bool> {
    unary_bits(value as nat / pow2(parameter)) + bits_of(value as nat, parameter)
}

/// The bits of a run of Rice-coded values.
pub open spec fn values_bits(values: Seq<u64>, parameter: nat) -> Seq<bool>
    decreases values.len(),
{
    if values.len() == 0 {
        Seq::empty()
    } else {
        values_bits(values.drop_last(), parameter) + value_bits(values.last(), parameter)
    }
}

/// The bits of the first `count` partitions of a residual.
pub open spec fn partitions_bits(
    values: Seq<u64>,
    per_partition: nat,
    order: nat,
    wide: bool,
    count: nat,
) -> Seq<bool>
    decreases count,
{
    if count == 0 {
        Seq::empty()
    } else {
        let last = partition_of(values, per_partition, order, (count - 1) as nat);
        partitions_bits(values, per_partition, order, wide, (count - 1) as nat) + bits_of(
            rice_parameter(last),
            parameter_bits(wide),
        ) + values_bits(last, rice_parameter(last))
    }
}

/// Whether a parameter needs the wider of the two coding methods.
pub open spec fn needs_wide(parameters: Seq<nat>) -> bool {
    exists|i: int| 0 <= i < parameters.len() && #[trigger] parameters[i] >= NARROW_PARAMETER_LIMIT
}

/// The bits of a residual.
pub open spec fn residual_bits(values: Seq<u64>, block_size: nat, order: nat) -> Seq<bool> {
    let partition_order = chosen_split(values, block_size, order);
    let partitions = pow2(partition_order);
    let per = block_size / partitions;
    let wide = needs_wide(parameters_of(values, per, order, partitions));
    bits_of(if wide { 1nat } else { 0nat }, 2) + bits_of(partition_order, 4) + partitions_bits(
        values,
        per,
        order,
        wide,
        partitions,
    )
}

/// A count of bits bounds every quotient that goes into it.
pub proof fn lemma_quotient_bound(values: Seq<u64>, parameter: nat, index: int)
    requires
        0 <= index < values.len(),
    ensures
        values[index] as nat / pow2(parameter) < rice_bits_count(values, parameter),
    decreases values.len(),
{
    lemma_pow2_pos(parameter);
    if index < values.len() - 1 {
        lemma_quotient_bound(values.drop_last(), parameter, index);
    }
}

/// A partition costs no more than all of them.
pub proof fn lemma_partition_share(
    values: Seq<u64>,
    per_partition: nat,
    order: nat,
    count: nat,
    partition: nat,
)
    requires
        partition < count,
    ensures
        ({
            let part = partition_of(values, per_partition, order, partition);
            rice_bits_count(part, rice_parameter(part)) <= partitions_cost(
                values,
                per_partition,
                order,
                count,
            )
        }),
    decreases count,
{
    if partition < count - 1 {
        lemma_partition_share(values, per_partition, order, (count - 1) as nat, partition);
    }
}

/// Writes a run of Rice-coded values.
#[verifier::loop_isolation(false)]
fn write_values(writer: &mut Writer, values: &[u64], parameter: u32)
    requires
        old(writer).wf(),
        parameter <= MAX_PARAMETER,
        forall|i: int|
            0 <= i < values@.len() ==> (#[trigger] values@[i]) as nat / pow2(parameter as nat)
                <= u32::MAX,
    ensures
        final(writer).wf(),
        final(writer)@ == old(writer)@ + values_bits(values@, parameter as nat),
{
    let mut index: usize = 0;
    assert(writer@ =~= old(writer)@ + values_bits(values@.take(0), parameter as nat));
    while index < values.len()
        invariant
            index <= values@.len(),
            writer.wf(),
            writer@ == old(writer)@ + values_bits(values@.take(index as int), parameter as nat),
        decreases values@.len() - index,
    {
        let value: u64 = values[index];
        proof {
            lemma_u64_shr_is_div(value, parameter as u64);
            assert(values@[index as int] as nat / pow2(parameter as nat) <= u32::MAX);
            assert(values@.take(index + 1).drop_last() =~= values@.take(index as int));
        }
        writer.unary((value >> (parameter as u64)) as u32);
        writer.unsigned(value, parameter);
        assert(writer@ =~= old(writer)@ + values_bits(values@.take(index + 1), parameter as nat));
        index = index + 1;
    }
    assert(values@.take(index as int) =~= values@);
}

/// Whether a parameter needs the wider of the two coding methods.
fn is_wide(parameters: &Vec<u32>) -> (wide: bool)
    ensures
        wide == needs_wide(numbers(parameters@)),
{
    let mut index: usize = 0;
    while index < parameters.len()
        invariant
            index <= parameters@.len(),
            forall|i: int|
                0 <= i < index ==> #[trigger] numbers(parameters@)[i] < NARROW_PARAMETER_LIMIT,
        decreases parameters@.len() - index,
    {
        if parameters[index] >= NARROW_PARAMETER_LIMIT {
            assert(numbers(parameters@)[index as int] >= NARROW_PARAMETER_LIMIT);
            return true;
        }
        index = index + 1;
    }
    false
}

/// Writes a residual out according to its plan.
#[verifier::loop_isolation(false)]
#[verifier::rlimit(40)]
#[verifier::spinoff_prover]
fn write_residual(writer: &mut Writer, plan: &Plan, block_size: usize, order: usize)
    requires
        old(writer).wf(),
        block_size <= BLOCK,
        plan.fits(block_size as nat, order as nat),
        plan.cost <= u32::MAX,
    ensures
        final(writer).wf(),
        final(writer)@ == old(writer)@ + residual_bits(
            plan.folded@,
            block_size as nat,
            order as nat,
        ),
{
    let ghost values = plan.folded@;
    let ghost partitions = pow2(plan.partition_order as nat);
    let ghost per = block_size as nat / partitions;
    let ghost parameters = parameters_of(values, per, order as nat, partitions);
    proof {
        lemma_pow2_word(plan.partition_order as nat);
        lemma2_to64();
        if plan.partition_order < 8 {
            lemma_pow2_strictly_increases(plan.partition_order as nat, 8);
        }
    }
    let wide: bool = is_wide(&plan.parameters);
    assert(numbers(plan.parameters@).len() == partitions);
    assert(wide == needs_wide(parameters));
    let width: u32 = if wide {
        5
    } else {
        4
    };
    writer.unsigned(if wide { 1 } else { 0 }, 2);
    writer.unsigned(plan.partition_order as u64, 4);
    let ghost start = writer@;
    let per_partition: usize = block_size / (1u64 << (plan.partition_order as u64)) as usize;
    let mut offset: usize = 0;
    let mut partition: usize = 0;
    assert(writer@ =~= start + partitions_bits(values, per, order as nat, wide, 0));
    while partition < plan.parameters.len()
        invariant
            partition <= plan.parameters@.len(),
            writer.wf(),
            offset == partition_start(per, order as nat, partition as nat),
            writer@ == start + partitions_bits(values, per, order as nat, wide, partition as nat),
        decreases plan.parameters@.len() - partition,
    {
        let ghost part = partition_of(values, per, order as nat, partition as nat);
        proof {
            lemma_partition_bounds(
                values.len(),
                block_size as nat,
                order as nat,
                plan.partition_order as nat,
                partition as nat,
            );
            assert((partition + 1) * per == partition * per + per) by (nonlinear_arith);
            if partition == 0 {
                assert(partition * per == 0) by (nonlinear_arith)
                    requires
                        partition == 0,
                ;
            }
            assert(parameters[partition as int] == numbers(plan.parameters@)[partition as int]);
            lemma_partition_share(values, per, order as nat, partitions, partition as nat);
        }
        let parameter: u32 = plan.parameters[partition];
        let count: usize = partition_length(per_partition, order, partition);
        let slice = slice_subrange(plan.folded.as_slice(), offset, offset + count);
        proof {
            assert(slice@ =~= part);
            assert forall|i: int| 0 <= i < slice@.len() implies (#[trigger] slice@[i]) as nat / pow2(
                parameter as nat,
            ) <= u32::MAX by {
                lemma_quotient_bound(part, parameter as nat, i);
            }
        }
        writer.unsigned(parameter as u64, width);
        write_values(writer, slice, parameter);
        assert(writer@ =~= start + partitions_bits(
            values,
            per,
            order as nat,
            wide,
            (partition + 1) as nat,
        ));
        offset = offset + count;
        partition = partition + 1;
    }
    assert(writer@ =~= old(writer)@ + residual_bits(values, block_size as nat, order as nat));
}

/// The rule a candidate predicts the next sample with.
#[derive(Debug)]
pub enum Predictor {
    /// One of the five polynomials the format defines, by order.
    Fixed(usize),
    /// Coefficients fitted to this block, with the shift they are scaled by.
    Fitted { coefficients: Vec<i64>, shift: u32 },
}

impl View for Predictor {
    type V = Rule;

    open spec fn view(&self) -> Rule {
        match self {
            Predictor::Fixed(order) => Rule::Fixed(*order as nat),
            Predictor::Fitted { coefficients, shift } => Rule::Fitted(coefficients@, *shift as nat),
        }
    }
}

/// Samples stored raw before the residual starts.
pub open spec fn order_of(rule: Rule) -> nat {
    match rule {
        Rule::Fixed(order) => order,
        Rule::Fitted(coefficients, _) => coefficients.len(),
    }
}

/// Bits a predictor itself costs to state.
pub open spec fn overhead_of(rule: Rule) -> nat {
    match rule {
        Rule::Fixed(_) => 0,
        Rule::Fitted(coefficients, _) => 9 + coefficients.len() * 15,
    }
}

/// Whether the format can state a rule, and this encoder would, for a block.
pub open spec fn usable(rule: Rule, block_size: nat) -> bool {
    match rule {
        Rule::Fixed(order) => order <= MAX_FIXED_ORDER && order <= block_size,
        Rule::Fitted(coefficients, shift) => {
            &&& 1 <= coefficients.len() <= MAX_LPC_ORDER
            &&& coefficients.len() <= block_size
            &&& shift <= MAX_SHIFT
            &&& forall|i: int|
                0 <= i < coefficients.len() ==> -0x4000 <= #[trigger] coefficients[i] < 0x4000
        },
    }
}

/// Whether samples fit a number of bits in two's complement.
pub open spec fn in_bits(samples: Seq<i64>, bits: nat) -> bool {
    forall|i: int|
        0 <= i < samples.len() ==> -pow2((bits - 1) as nat) <= #[trigger] samples[i] < pow2(
            (bits - 1) as nat,
        )
}

impl Predictor {
    /// Samples stored raw before the residual starts.
    fn order(&self) -> (order: usize)
        ensures
            order == order_of(self@),
    {
        match self {
            Predictor::Fixed(order) => *order,
            Predictor::Fitted { coefficients, .. } => coefficients.len(),
        }
    }

    /// Bits the predictor itself costs to state.
    fn overhead(&self) -> (bits: u64)
        requires
            usable(self@, BLOCK as nat),
        ensures
            bits == overhead_of(self@),
    {
        match self {
            Predictor::Fixed(_) => 0,
            Predictor::Fitted { coefficients, .. } => 4 + 5 + coefficients.len() as u64
                * COEFFICIENT_PRECISION as u64,
        }
    }

    /// Whether the format can state the rule, and this encoder would.
    fn is_usable(&self, block_size: usize) -> (answer: bool)
        ensures
            answer == usable(self@, block_size as nat),
    {
        match self {
            Predictor::Fixed(order) => *order <= MAX_FIXED_ORDER && *order <= block_size,
            Predictor::Fitted { coefficients, shift } => {
                if coefficients.len() < 1 || coefficients.len() > MAX_LPC_ORDER || coefficients.len()
                    > block_size || *shift > MAX_SHIFT {
                    return false;
                }
                let mut index: usize = 0;
                while index < coefficients.len()
                    invariant
                        index <= coefficients@.len(),
                        self@ == Rule::Fitted(coefficients@, *shift as nat),
                        forall|i: int|
                            0 <= i < index ==> -0x4000 <= #[trigger] coefficients@[i] < 0x4000,
                    decreases coefficients@.len() - index,
                {
                    let coefficient: i64 = coefficients[index];
                    if coefficient < -0x4000 || coefficient >= 0x4000 {
                        assert(!(-0x4000 <= coefficients@[index as int] < 0x4000));
                        return false;
                    }
                    index = index + 1;
                }
                true
            },
        }
    }
}

proof fn lemma_weighted_bound(coefficients: Seq<i64>, past: Seq<i64>, count: nat)
    requires
        count <= coefficients.len(),
        count <= past.len(),
        forall|i: int|
            0 <= i < coefficients.len() ==> -0x4000 <= #[trigger] coefficients[i] < 0x4000,
        forall|i: int|
            0 <= i < past.len() ==> -0x1_0000_0000 <= #[trigger] past[i] < 0x1_0000_0000,
    ensures
        -(count * 0x4000_0000_0000) <= weighted(coefficients, past, count) <= count
            * 0x4000_0000_0000,
    decreases count,
{
    if count > 0 {
        lemma_weighted_bound(coefficients, past, (count - 1) as nat);
        let c = coefficients[count - 1];
        let s = past[past.len() - count];
        assert(-0x4000_0000_0000 <= c * s <= 0x4000_0000_0000) by (nonlinear_arith)
            requires
                -0x4000 <= c < 0x4000,
                -0x1_0000_0000 <= s < 0x1_0000_0000,
        ;
    }
}

/// No arithmetic on samples of at most 33 bits ever wraps.
pub proof fn lemma_guess_bound(past: Seq<i64>, rule: Rule)
    requires
        usable(rule, past.len()),
        forall|i: int|
            0 <= i < past.len() ==> -0x1_0000_0000 <= #[trigger] past[i] < 0x1_0000_0000,
    ensures
        -0x3_0000_0000_0000 <= guess(past, rule) <= 0x3_0000_0000_0000,
{
    match rule {
        Rule::Fixed(order) => {
            let n = past.len();
            if n >= 1 {
                assert(-0x1_0000_0000 <= past[n - 1] < 0x1_0000_0000);
            }
            if n >= 2 {
                assert(-0x1_0000_0000 <= past[n - 2] < 0x1_0000_0000);
            }
            if n >= 3 {
                assert(-0x1_0000_0000 <= past[n - 3] < 0x1_0000_0000);
            }
            if n >= 4 {
                assert(-0x1_0000_0000 <= past[n - 4] < 0x1_0000_0000);
            }
        },
        Rule::Fitted(coefficients, shift) => {
            lemma_weighted_bound(coefficients, past, coefficients.len());
            let sum = weighted(coefficients, past, coefficients.len());
            lemma_wrap_small(sum);
            lemma_pow2_pos(shift);
            let unit = pow2(shift) as int;
            assert(-0x3_0000_0000_0000 <= sum / unit <= 0x3_0000_0000_0000) by (nonlinear_arith)
                requires
                    -0x3_0000_0000_0000 <= sum <= 0x3_0000_0000_0000,
                    unit >= 1,
            ;
        },
    }
}

/// What a rule fails to guess, sample by sample.
pub open spec fn errors_of(samples: Seq<i64>, rule: Rule) -> Seq<i64> {
    let order = order_of(rule);
    Seq::new(
        (samples.len() - order) as nat,
        |i: int| (samples[order + i] - guess(samples.take(order + i), rule)) as i64,
    )
}

/// What a rule fails to guess, folded onto the naturals.
pub open spec fn folded_errors(samples: Seq<i64>, rule: Rule) -> Seq<u64> {
    let errors = errors_of(samples, rule);
    Seq::new(errors.len(), |i: int| folded(errors[i] as int) as u64)
}

/// Samples of at most 33 bits, as a difference of 32-bit samples is.
pub open spec fn in_reach(samples: Seq<i64>) -> bool {
    forall|i: int|
        0 <= i < samples.len() ==> -0x1_0000_0000 <= #[trigger] samples[i] < 0x1_0000_0000
}

/// A rule is usable on every stretch that holds its warm-up.
proof fn lemma_usable_prefix(rule: Rule, block_size: nat, length: nat)
    requires
        usable(rule, block_size),
        order_of(rule) <= length,
    ensures
        usable(rule, length),
{
}

/// The value a predictor expects to come after `past`.
fn predict(past: &[i64], predictor: &Predictor) -> (expected: i64)
    requires
        usable(predictor@, past@.len()),
    ensures
        expected == guess(past@, predictor@),
{
    match predictor {
        Predictor::Fixed(order) => fixed_prediction(past, *order),
        Predictor::Fitted { coefficients, shift } => fitted_prediction(past, coefficients, *shift),
    }
}

/// What a predictor fails to guess, sample by sample.
#[verifier::loop_isolation(false)]
fn errors(samples: &Vec<i64>, predictor: &Predictor) -> (errors: Vec<i64>)
    requires
        usable(predictor@, samples@.len()),
        in_reach(samples@),
    ensures
        errors@ == errors_of(samples@, predictor@),
        forall|i: int| 0 <= i < errors@.len() ==> folded(#[trigger] errors@[i] as int) <= FOLDED_LIMIT,
{
    let order: usize = predictor.order();
    let mut errors: Vec<i64> = Vec::with_capacity(samples.len() - order);
    let mut index: usize = order;
    while index < samples.len()
        invariant
            order <= index <= samples@.len(),
            errors@.len() == index - order,
            forall|i: int|
                0 <= i < errors@.len() ==> errors@[i] == errors_of(samples@, predictor@)[i],
            forall|i: int|
                0 <= i < errors@.len() ==> folded(#[trigger] errors@[i] as int) <= FOLDED_LIMIT,
        decreases samples@.len() - index,
    {
        let past = slice_subrange(samples.as_slice(), 0, index);
        proof {
            assert(past@ =~= samples@.take(index as int));
            assert forall|i: int| 0 <= i < past@.len() implies -0x1_0000_0000 <= #[trigger] past@[i]
                < 0x1_0000_0000 by {
                assert(samples@[i] == past@[i]);
            }
            lemma_usable_prefix(predictor@, samples@.len(), index as nat);
            lemma_guess_bound(past@, predictor@);
        }
        let expected: i64 = predict(past, predictor);
        assert(-0x1_0000_0000 <= samples@[index as int] < 0x1_0000_0000);
        errors.push(samples[index] - expected);
        index = index + 1;
    }
    assert(errors@ =~= errors_of(samples@, predictor@));
    errors
}

/// What a block costs described by a rule, header and all.
pub open spec fn rule_cost(samples: Seq<i64>, bits: nat, rule: Rule) -> nat {
    7 + overhead_of(rule) + bits * order_of(rule) + plan_cost(
        folded_errors(samples, rule),
        samples.len(),
        order_of(rule),
    )
}

/// How a block of one channel is described, and what describing it costs.
pub struct Candidate {
    pub predictor: Predictor,
    pub residual: Plan,
    /// Bits the whole subframe would take, header and all.
    pub cost: u64,
}

impl Candidate {
    /// The candidate describes a block, at the cost it states.
    pub open spec fn describes(&self, samples: Seq<i64>, bits: nat) -> bool {
        let order = order_of(self.predictor@);
        &&& usable(self.predictor@, samples.len())
        &&& self.residual.fits(samples.len(), order)
        &&& self.residual.folded@ == folded_errors(samples, self.predictor@)
        &&& self.cost == rule_cost(samples, bits, self.predictor@)
    }
}

/// Wraps a predictor and its planned residual into a costed candidate.
fn costed(predictor: Predictor, samples: &Vec<i64>, bits: u32) -> (candidate: Candidate)
    requires
        samples@.len() <= BLOCK,
        bits <= 33,
        in_reach(samples@),
        usable(predictor@, samples@.len()),
    ensures
        candidate.predictor@ == predictor@,
        candidate.describes(samples@, bits as nat),
{
    let order: usize = predictor.order();
    let errors = errors(samples, &predictor);
    let residual = plan(&errors, samples.len(), order);
    proof {
        assert(residual.folded@ =~= folded_errors(samples@, predictor@));
        lemma_plan_cost_bound(residual, samples@.len(), order as nat);
        assert(bits * order <= 33 * 12) by (nonlinear_arith)
            requires
                bits <= 33,
                order <= 12,
        ;
    }
    let cost: u64 = 7 + predictor.overhead() + bits as u64 * order as u64 + residual.cost;
    Candidate { predictor, residual, cost }
}

/// A plan's cost leaves room in its word.
proof fn lemma_plan_cost_bound(plan: Plan, block_size: nat, order: nat)
    requires
        block_size <= BLOCK,
        plan.fits(block_size, order),
    ensures
        plan.cost <= BLOCK * (FOLDED_LIMIT + 31) + 5 * 256 + 6,
{
    let partitions = pow2(plan.partition_order as nat);
    lemma_pow2_pos(plan.partition_order as nat);
    lemma2_to64();
    if plan.partition_order < 8 {
        lemma_pow2_strictly_increases(plan.partition_order as nat, 8);
    }
    lemma_partitions_bound(
        plan.folded@,
        block_size,
        order,
        plan.partition_order as nat,
        partitions,
    );
    lemma_partition_bounds(
        plan.folded@.len(),
        block_size,
        order,
        plan.partition_order as nat,
        (partitions - 1) as nat,
    );
    assert(plan.folded@.len() * (FOLDED_LIMIT + 31) <= BLOCK * (FOLDED_LIMIT + 31)) by (nonlinear_arith)
        requires
            plan.folded@.len() <= BLOCK,
    ;
}

/// The bits of a run of signed values.
pub open spec fn run_bits(samples: Seq<i64>, bits: nat) -> Seq<bool>
    decreases samples.len(),
{
    if samples.len() == 0 {
        Seq::empty()
    } else {
        run_bits(samples.drop_last(), bits) + signed_bits(samples.last() as int, bits)
    }
}

/// The bits of a subframe header: its type, and how many low bits were dropped.
pub open spec fn head_bits(kind: nat, wasted: nat) -> Seq<bool> {
    bits_of(0, 1) + bits_of(kind, 6) + if wasted == 0 {
        bits_of(0, 1)
    } else {
        bits_of(1, 1) + unary_bits((wasted - 1) as nat)
    }
}

/// The six-bit type of a predicted subframe.
pub open spec fn kind_of(rule: Rule) -> nat {
    match rule {
        Rule::Fixed(order) => 8 + order,
        Rule::Fitted(coefficients, _) => 31 + coefficients.len(),
    }
}

/// The bits that state a rule's coefficients.
pub open spec fn coefficient_bits(rule: Rule) -> Seq<bool> {
    match rule {
        Rule::Fixed(_) => Seq::empty(),
        Rule::Fitted(coefficients, shift) => bits_of(14, 4) + bits_of(shift, 5) + run_bits(
            coefficients,
            15,
        ),
    }
}

/// The bits of a subframe written as a rule and the error it makes.
pub open spec fn predicted_bits(samples: Seq<i64>, bits: nat, wasted: nat, rule: Rule) -> Seq<bool> {
    let order = order_of(rule);
    head_bits(kind_of(rule), wasted) + run_bits(samples.take(order as int), bits)
        + coefficient_bits(rule) + residual_bits(folded_errors(samples, rule), samples.len(), order)
}

/// Writes a run of signed values.
#[verifier::loop_isolation(false)]
fn write_run(writer: &mut Writer, samples: &[i64], bits: u32)
    requires
        old(writer).wf(),
        bits <= 64,
    ensures
        final(writer).wf(),
        final(writer)@ == old(writer)@ + run_bits(samples@, bits as nat),
{
    let mut index: usize = 0;
    assert(writer@ =~= old(writer)@ + run_bits(samples@.take(0), bits as nat));
    while index < samples.len()
        invariant
            index <= samples@.len(),
            writer.wf(),
            writer@ == old(writer)@ + run_bits(samples@.take(index as int), bits as nat),
        decreases samples@.len() - index,
    {
        writer.signed(samples[index], bits);
        assert(samples@.take(index + 1).drop_last() =~= samples@.take(index as int));
        assert(writer@ =~= old(writer)@ + run_bits(samples@.take(index + 1), bits as nat));
        index = index + 1;
    }
    assert(samples@.take(index as int) =~= samples@);
}

/// Writes a subframe header: its type, and how many low bits were dropped.
fn head(writer: &mut Writer, kind: u64, wasted: u32)
    requires
        old(writer).wf(),
    ensures
        final(writer).wf(),
        final(writer)@ == old(writer)@ + head_bits(kind as nat, wasted as nat),
{
    writer.unsigned(0, 1);
    writer.unsigned(kind, 6);
    if wasted == 0 {
        writer.unsigned(0, 1);
    } else {
        writer.unsigned(1, 1);
        writer.unary(wasted - 1);
    }
    assert(writer@ =~= old(writer)@ + head_bits(kind as nat, wasted as nat));
}

/// Writes a subframe as a predictor plus the error it makes.
fn predicted(
    writer: &mut Writer,
    samples: &Vec<i64>,
    bits: u32,
    wasted: u32,
    candidate: &Candidate,
)
    requires
        old(writer).wf(),
        samples@.len() <= BLOCK,
        bits <= 64,
        candidate.describes(samples@, bits as nat),
        candidate.cost <= u32::MAX,
    ensures
        final(writer).wf(),
        final(writer)@ == old(writer)@ + predicted_bits(
            samples@,
            bits as nat,
            wasted as nat,
            candidate.predictor@,
        ),
{
    let order: usize = candidate.predictor.order();
    match &candidate.predictor {
        Predictor::Fixed(fixed) => head(writer, 8 + *fixed as u64, wasted),
        Predictor::Fitted { .. } => head(writer, 31 + order as u64, wasted),
    }
    let warm = slice_subrange(samples.as_slice(), 0, order);
    assert(warm@ =~= samples@.take(order as int));
    write_run(writer, warm, bits);
    if let Predictor::Fitted { coefficients, shift } = &candidate.predictor {
        writer.unsigned(COEFFICIENT_PRECISION as u64 - 1, 4);
        writer.unsigned(*shift as u64, 5);
        write_run(writer, coefficients.as_slice(), COEFFICIENT_PRECISION);
    }
    write_residual(writer, &candidate.residual, samples.len(), order);
    assert(writer@ =~= old(writer)@ + predicted_bits(
        samples@,
        bits as nat,
        wasted as nat,
        candidate.predictor@,
    ));
}

/// The usable ones among several rules, in order.
pub open spec fn usable_among(rules: Seq<Rule>, block_size: nat) -> Seq<Rule>
    decreases rules.len(),
{
    if rules.len() == 0 {
        Seq::empty()
    } else if usable(rules.last(), block_size) {
        usable_among(rules.drop_last(), block_size).push(rules.last())
    } else {
        usable_among(rules.drop_last(), block_size)
    }
}

/// The fixed rules worth costing for a block.
pub open spec fn fixed_rules(block_size: nat) -> Seq<Rule> {
    Seq::new(
        if block_size < 4 {
            block_size + 1
        } else {
            5
        },
        |i: int| Rule::Fixed(i as nat),
    )
}

/// Every rule worth costing for a block, given those fitted to it.
pub open spec fn rules_for(block_size: nat, fitted: Seq<Rule>) -> Seq<Rule> {
    fixed_rules(block_size) + usable_among(fitted, block_size)
}

/// The first of the first `count` rules that costs least, among those that cost
/// less than storing the samples themselves.
pub open spec fn best_rule(samples: Seq<i64>, bits: nat, rules: Seq<Rule>, count: nat) -> Option<Rule>
    decreases count,
{
    if count == 0 {
        None
    } else {
        let before = best_rule(samples, bits, rules, (count - 1) as nat);
        let rule = rules[count - 1];
        let cost = rule_cost(samples, bits, rule);
        if cost < 7 + bits * samples.len() && (before matches Some(kept) ==> cost < rule_cost(
            samples,
            bits,
            kept,
        )) {
            Some(rule)
        } else {
            before
        }
    }
}

/// Whether a number divides every sample.
pub open spec fn divides(unit: nat, samples: Seq<i64>) -> bool {
    forall|i: int| 0 <= i < samples.len() ==> #[trigger] samples[i] as int % (unit as int) == 0
}

/// The most low bits, up to `limit`, that are zero in every sample, counted on
/// from `from`.
pub open spec fn wasted_from(samples: Seq<i64>, from: nat, limit: nat) -> nat
    decreases limit - from,
{
    if from >= limit || !divides(pow2(from + 1), samples) {
        from
    } else {
        wasted_from(samples, from + 1, limit)
    }
}

/// Samples shifted down.
pub open spec fn shifted(samples: Seq<i64>, wasted: nat) -> Seq<i64> {
    Seq::new(samples.len(), |i: int| (samples[i] as int / pow2(wasted) as int) as i64)
}

/// Whether every sample is the same.
pub open spec fn held(samples: Seq<i64>) -> bool {
    forall|i: int| 0 <= i < samples.len() ==> #[trigger] samples[i] == samples[0]
}

/// The low bits that are zero in every sample, leaving at least one bit.
pub open spec fn wasted_of(samples: Seq<i64>, bits: nat) -> nat {
    wasted_from(samples, 0, (bits - 1) as nat)
}

/// The bits of a subframe, given the rules fitted to its shifted samples.
pub open spec fn subframe_of(samples: Seq<i64>, bits: nat, fitted: Seq<Rule>) -> Seq<bool> {
    if held(samples) {
        head_bits(0, 0) + signed_bits(samples[0] as int, bits)
    } else {
        let wasted = wasted_of(samples, bits);
        let low = shifted(samples, wasted);
        let narrow = (bits - wasted) as nat;
        let rules = rules_for(low.len(), fitted);
        match best_rule(low, narrow, rules, rules.len()) {
            Some(rule) => predicted_bits(low, narrow, wasted, rule),
            None => head_bits(1, wasted) + run_bits(low, narrow),
        }
    }
}

/// Whether every sample is the same.
fn is_held(samples: &Vec<i64>) -> (answer: bool)
    requires
        samples@.len() > 0,
    ensures
        answer == held(samples@),
{
    let mut index: usize = 0;
    while index < samples.len()
        invariant
            index <= samples@.len(),
            samples@.len() > 0,
            forall|i: int| 0 <= i < index ==> #[trigger] samples@[i] == samples@[0],
        decreases samples@.len() - index,
    {
        if samples[index] != samples[0] {
            assert(samples@[index as int] != samples@[0]);
            return false;
        }
        index = index + 1;
    }
    true
}

/// Whether a power of two divides a number.
fn is_multiple(value: i64, unit: u64) -> (answer: bool)
    requires
        unit > 0,
    ensures
        answer == (value as int % (unit as int) == 0),
{
    if value >= 0 {
        value as u64 % unit == 0
    } else {
        let above: u64 = (-(value + 1)) as u64;
        proof {
            let quotient = above as int / unit as int;
            lemma_fundamental_div_mod(above as int, unit as int);
            let rest = unit - 1 - above as int % unit as int;
            assert(value == (-quotient - 1) * unit + rest) by (nonlinear_arith)
                requires
                    above == -(value + 1),
                    above == unit * quotient + above as int % unit as int,
                    rest == unit - 1 - above as int % unit as int,
            ;
            lemma_fundamental_div_mod_converse(value as int, unit as int, -quotient - 1, rest);
        }
        above % unit == unit - 1
    }
}

/// Counts the low bits that are zero in every sample, leaving at least one bit.
fn wasted_bits(samples: &Vec<i64>, bits: u32) -> (wasted: u32)
    requires
        1 <= bits <= 64,
    ensures
        wasted == wasted_of(samples@, bits as nat),
        wasted < bits,
{
    let mut wasted: u32 = 0;
    let mut more: bool = true;
    while more && wasted < bits - 1
        invariant
            1 <= bits <= 64,
            wasted < bits,
            if more {
                wasted_from(samples@, wasted as nat, (bits - 1) as nat) == wasted_of(
                    samples@,
                    bits as nat,
                )
            } else {
                wasted == wasted_of(samples@, bits as nat)
            },
        decreases bits - wasted, if more { 1int } else { 0 },
    {
        proof {
            lemma_pow2_word((wasted + 1) as nat);
        }
        let unit: u64 = 1u64 << ((wasted + 1) as u64);
        let mut index: usize = 0;
        while index < samples.len() && more
            invariant
                index <= samples@.len(),
                unit == pow2((wasted + 1) as nat),
                unit > 0,
                more ==> forall|i: int|
                    0 <= i < index ==> #[trigger] samples@[i] as int % (unit as int) == 0,
                !more ==> !divides(unit as nat, samples@),
            decreases samples@.len() - index, if more { 1int } else { 0 },
        {
            if is_multiple(samples[index], unit) {
                index = index + 1;
            } else {
                assert(!(samples@[index as int] as int % (unit as int) == 0));
                more = false;
            }
        }
        if more {
            assert(divides(pow2((wasted + 1) as nat), samples@));
            wasted = wasted + 1;
        }
    }
    wasted
}

/// Shifts samples down.
fn shift_samples(samples: &Vec<i64>, wasted: u32) -> (low: Vec<i64>)
    requires
        wasted < 64,
    ensures
        low@ == shifted(samples@, wasted as nat),
{
    let mut low: Vec<i64> = Vec::with_capacity(samples.len());
    while low.len() < samples.len()
        invariant
            low@.len() <= samples@.len(),
            wasted < 64,
            forall|i: int|
                0 <= i < low@.len() ==> low@[i] == samples@[i] as int / pow2(wasted as nat) as int,
        decreases samples@.len() - low@.len(),
    {
        low.push(shift_down(samples[low.len()], wasted));
    }
    assert(low@ =~= shifted(samples@, wasted as nat));
    low
}

/// The rules behind several predictors.
pub open spec fn rules(predictors: Seq<Predictor>) -> Seq<Rule> {
    Seq::new(predictors.len(), |i: int| predictors[i]@)
}

/// A predictor like another.
fn copied(predictor: &Predictor) -> (copy: Predictor)
    ensures
        copy@ == predictor@,
{
    match predictor {
        Predictor::Fixed(order) => Predictor::Fixed(*order),
        Predictor::Fitted { coefficients, shift } => {
            let same = coefficients.clone();
            assert(same@ =~= coefficients@);
            Predictor::Fitted { coefficients: same, shift: *shift }
        },
    }
}

/// Lists every predictor worth costing for a block, given those fitted to it.
#[verifier::loop_isolation(false)]
fn candidates(block_size: usize, fitted: &Vec<Predictor>) -> (list: Vec<Predictor>)
    requires
        0 < block_size <= BLOCK,
    ensures
        rules(list@) == rules_for(block_size as nat, rules(fitted@)),
        forall|i: int| 0 <= i < list@.len() ==> usable((#[trigger] list@[i])@, block_size as nat),
{
    let mut list: Vec<Predictor> = Vec::new();
    let count: usize = if block_size < MAX_FIXED_ORDER {
        block_size + 1
    } else {
        MAX_FIXED_ORDER + 1
    };
    while list.len() < count
        invariant
            list@.len() <= count,
            forall|i: int| 0 <= i < list@.len() ==> (#[trigger] list@[i])@ == Rule::Fixed(i as nat),
        decreases count - list@.len(),
    {
        list.push(Predictor::Fixed(list.len()));
    }
    let ghost fixed = fixed_rules(block_size as nat);
    assert(rules(list@) =~= fixed);
    let mut index: usize = 0;
    assert(rules(list@) =~= fixed + usable_among(rules(fitted@).take(0), block_size as nat));
    while index < fitted.len()
        invariant
            index <= fitted@.len(),
            rules(list@) == fixed + usable_among(
                rules(fitted@).take(index as int),
                block_size as nat,
            ),
            forall|i: int|
                0 <= i < list@.len() ==> usable((#[trigger] list@[i])@, block_size as nat),
        decreases fitted@.len() - index,
    {
        let ghost before = list@;
        proof {
            let longer = rules(fitted@).take(index + 1);
            assert(longer.drop_last() =~= rules(fitted@).take(index as int));
            assert(longer.last() == fitted@[index as int]@);
        }
        if fitted[index].is_usable(block_size) {
            let copy = copied(&fitted[index]);
            list.push(copy);
            assert(rules(list@) =~= rules(before).push(copy@));
        }
        assert(rules(list@) =~= fixed + usable_among(
            rules(fitted@).take(index + 1),
            block_size as nat,
        ));
        index = index + 1;
    }
    assert(rules(fitted@).take(index as int) =~= rules(fitted@));
    list
}

/// Finds the cheapest description of a block, if any beats the samples
/// themselves.
#[verifier::loop_isolation(false)]
fn cheapest_candidate(samples: &Vec<i64>, bits: u32, fitted: &Vec<Predictor>) -> (best: Option<
    Candidate,
>)
    requires
        0 < samples@.len() <= BLOCK,
        bits <= 33,
        in_reach(samples@),
    ensures
        ({
            let rules = rules_for(samples@.len(), rules(fitted@));
            match best_rule(samples@, bits as nat, rules, rules.len()) {
                Some(rule) => best matches Some(found) && found.predictor@ == rule
                    && found.describes(samples@, bits as nat) && found.cost < 7 + bits
                    * samples@.len(),
                None => best is None,
            }
        }),
{
    // Verbatim is the floor: whatever the predictors make of the block, storing
    // the samples themselves is always available and always bounded.
    proof {
        assert(bits * samples@.len() <= 33 * 4096) by (nonlinear_arith)
            requires
                bits <= 33,
                samples@.len() <= 4096,
        ;
    }
    let verbatim: u64 = 7 + bits as u64 * samples.len() as u64;
    let list = candidates(samples.len(), fitted);
    let ghost all = rules_for(samples@.len(), rules(fitted@));
    let mut best: Option<Candidate> = None;
    let mut index: usize = 0;
    while index < list.len()
        invariant
            index <= list@.len(),
            match best_rule(samples@, bits as nat, all, index as nat) {
                Some(rule) => best matches Some(found) && found.predictor@ == rule
                    && found.describes(samples@, bits as nat) && found.cost < verbatim,
                None => best is None,
            },
        decreases list@.len() - index,
    {
        assert(all[index as int] == list@[index as int]@);
        assert(usable(list@[index as int]@, samples@.len()));
        let candidate = costed(copied(&list[index]), samples, bits);
        let better: bool = candidate.cost < verbatim && match &best {
            Some(kept) => candidate.cost < kept.cost,
            None => true,
        };
        if better {
            best = Some(candidate);
        }
        index = index + 1;
    }
    best
}

/// Shifting down by bits that are all zero narrows the range.
pub proof fn lemma_shifted_range(samples: Seq<i64>, bits: nat, wasted: nat)
    requires
        in_bits(samples, bits),
        wasted < bits,
    ensures
        in_bits(shifted(samples, wasted), (bits - wasted) as nat),
{
    let unit = pow2(wasted) as int;
    let top = pow2((bits - wasted - 1) as nat) as int;
    lemma_pow2_pos(wasted);
    lemma_pow2_adds(wasted, (bits - wasted - 1) as nat);
    assert forall|i: int| 0 <= i < samples.len() implies -top <= #[trigger] shifted(
        samples,
        wasted,
    )[i] < top by {
        let sample = samples[i] as int;
        assert(-pow2((bits - 1) as nat) <= samples[i] < pow2((bits - 1) as nat));
        lemma_fundamental_div_mod(sample, unit);
        let quotient = sample / unit;
        assert(-top <= quotient < top) by (nonlinear_arith)
            requires
                -(unit * top) <= sample < unit * top,
                sample == unit * quotient + sample % unit,
                0 <= sample % unit < unit,
                unit > 0,
        ;
        assert(i64::MIN <= quotient <= i64::MAX) by (nonlinear_arith)
            requires
                i64::MIN <= sample <= i64::MAX,
                sample == unit * quotient + sample % unit,
                0 <= sample % unit < unit,
                unit > 0,
        ;
    }
}

/// What fits 33 bits is in reach.
pub proof fn lemma_in_reach(samples: Seq<i64>, bits: nat)
    requires
        in_bits(samples, bits),
        1 <= bits <= 33,
    ensures
        in_reach(samples),
{
    lemma2_to64();
    if bits < 33 {
        lemma_pow2_strictly_increases((bits - 1) as nat, 32);
    }
    assert forall|i: int| 0 <= i < samples.len() implies -0x1_0000_0000 <= #[trigger] samples[i]
        < 0x1_0000_0000 by {
        assert(-pow2((bits - 1) as nat) <= samples[i] < pow2((bits - 1) as nat));
    }
}

/// Encodes one channel of one block, the smallest way it can be described,
/// given the predictors fitted to its shifted samples.
pub fn subframe(samples: &Vec<i64>, bits: u32, fitted: &Vec<Predictor>) -> (writer: Writer)
    requires
        0 < samples@.len() <= BLOCK,
        1 <= bits <= 33,
        in_bits(samples@, bits as nat),
    ensures
        writer.wf(),
        writer@ == subframe_of(samples@, bits as nat, rules(fitted@)),
{
    let mut writer = Writer::new();
    if is_held(samples) {
        // Silence, and any held value, costs a header and one sample.
        head(&mut writer, 0, 0);
        writer.signed(samples[0], bits);
        assert(writer@ =~= subframe_of(samples@, bits as nat, rules(fitted@)));
        return writer;
    }
    // Samples whose low bits are always zero (a quiet 16-bit master padded out
    // to 24 bits, say) are stored shifted down and the shift stated once.
    let wasted: u32 = wasted_bits(samples, bits);
    let low = shift_samples(samples, wasted);
    let narrow: u32 = bits - wasted;
    proof {
        lemma_shifted_range(samples@, bits as nat, wasted as nat);
        lemma_in_reach(low@, narrow as nat);
        assert(narrow * low@.len() <= 33 * 4096) by (nonlinear_arith)
            requires
                narrow <= 33,
                low@.len() <= 4096,
        ;
    }
    match cheapest_candidate(&low, narrow, fitted) {
        Some(candidate) => predicted(&mut writer, &low, narrow, wasted, &candidate),
        None => {
            head(&mut writer, 1, wasted);
            write_run(&mut writer, low.as_slice(), narrow);
        },
    }
    assert(writer@ =~= subframe_of(samples@, bits as nat, rules(fitted@)));
    writer
}

/// What a block of one channel may become: its subframe, given what fitting
/// predictors to its shifted samples came to. A held value needs no fit.
#[verifier::opaque]
pub open spec fn subframe_written<F: Fn(&Vec<i64>) -> Vec<Predictor>>(
    fit: F,
    samples: Seq<i64>,
    bits: nat,
    out: Seq<bool>,
) -> bool {
    if held(samples) {
        out == subframe_of(samples, bits, Seq::empty())
    } else {
        exists|low: Vec<i64>, fitted: Vec<Predictor>|
            low@ == shifted(samples, wasted_of(samples, bits)) && #[trigger] call_ensures(
                fit,
                (&low,),
                fitted,
            ) && out == subframe_of(samples, bits, rules(fitted@))
    }
}

/// Encodes one channel of one block, fitting predictors to it.
fn fitted_subframe<F: Fn(&Vec<i64>) -> Vec<Predictor>>(samples: &Vec<i64>, bits: u32, fit: &F) -> (writer:
    Writer)
    requires
        0 < samples@.len() <= BLOCK,
        1 <= bits <= 33,
        in_bits(samples@, bits as nat),
        forall|low: &Vec<i64>| call_requires(*fit, (low,)),
    ensures
        writer.wf(),
        writer@.len() <= 0x4_0000,
        subframe_written(*fit, samples@, bits as nat, writer@),
{
    reveal(subframe_written);
    if is_held(samples) {
        let none: Vec<Predictor> = Vec::new();
        proof {
            lemma_subframe_len(samples@, bits as nat, rules(none@));
            assert(rules(none@) =~= Seq::empty());
        }
        return subframe(samples, bits, &none);
    }
    let low = shift_samples(samples, wasted_bits(samples, bits));
    let fitted = fit(&low);
    proof {
        lemma_subframe_len(samples@, bits as nat, rules(fitted@));
        assert(call_ensures(*fit, (&low,), fitted));
    }
    subframe(samples, bits, &fitted)
}

/// The difference of two channels.
pub open spec fn side_of(left: Seq<i64>, right: Seq<i64>) -> Seq<i64> {
    Seq::new(left.len(), |i: int| (left[i] - right[i]) as i64)
}

/// The average of two channels. It loses its low bit, which the difference
/// still carries.
pub open spec fn mid_of(left: Seq<i64>, right: Seq<i64>) -> Seq<i64> {
    Seq::new(left.len(), |i: int| ((left[i] + right[i]) / 2) as i64)
}

/// The first of the four pairings that costs least: both channels, left and
/// side, side and right, or mid and side.
pub open spec fn best_pairing(left: nat, right: nat, mid: nat, side: nat) -> nat {
    let plain = left + right;
    let left_side = left + side;
    let side_right = side + right;
    let mid_side = mid + side;
    if plain <= left_side && plain <= side_right && plain <= mid_side {
        1
    } else if left_side <= side_right && left_side <= mid_side {
        8
    } else if side_right <= mid_side {
        9
    } else {
        10
    }
}

/// The four ways two channels can be encoded.
pub struct Pairing {
    pub left: Seq<bool>,
    pub right: Seq<bool>,
    pub mid: Seq<bool>,
    pub side: Seq<bool>,
}

impl Pairing {
    /// The code of the cheapest pairing.
    pub open spec fn code(self) -> nat {
        best_pairing(self.left.len(), self.right.len(), self.mid.len(), self.side.len())
    }

    /// The subframes of the cheapest pairing.
    pub open spec fn subframes(self) -> Seq<Seq<bool>> {
        let code = self.code();
        if code == 8 {
            seq![self.left, self.side]
        } else if code == 9 {
            seq![self.side, self.right]
        } else if code == 10 {
            seq![self.mid, self.side]
        } else {
            seq![self.left, self.right]
        }
    }

    /// Whether these are encodings of two channels. A difference needs one more
    /// bit of range than either channel it came from.
    pub open spec fn written<F: Fn(&Vec<i64>) -> Vec<Predictor>>(
        self,
        fit: F,
        left: Seq<i64>,
        right: Seq<i64>,
        bits: nat,
    ) -> bool {
        &&& subframe_written(fit, left, bits, self.left)
        &&& subframe_written(fit, right, bits, self.right)
        &&& subframe_written(fit, mid_of(left, right), bits, self.mid)
        &&& subframe_written(fit, side_of(left, right), bits + 1, self.side)
    }
}

/// What a block may become: a channel assignment and its subframes.
pub open spec fn channels_written<F: Fn(&Vec<i64>) -> Vec<Predictor>>(
    fit: F,
    block: Seq<Seq<i64>>,
    bits: nat,
    code: nat,
    subframes: Seq<Seq<bool>>,
) -> bool {
    if block.len() != 2 {
        &&& code == block.len() - 1
        &&& subframes.len() == block.len()
        &&& forall|i: int|
            0 <= i < block.len() ==> subframe_written(fit, block[i], bits, #[trigger] subframes[i])
    } else {
        exists|pairing: Pairing|
            #[trigger] pairing.written(fit, block[0], block[1], bits) && code == pairing.code()
                && subframes == pairing.subframes()
    }
}

/// The bits of several writers, one behind the other.
pub open spec fn strung(parts: Seq<Seq<bool>>) -> Seq<bool>
    decreases parts.len(),
{
    if parts.len() == 0 {
        Seq::empty()
    } else {
        strung(parts.drop_last()) + parts.last()
    }
}

/// The bits that several writers hold.
pub open spec fn contents(writers: Seq<Writer>) -> Seq<Seq<bool>> {
    Seq::new(writers.len(), |i: int| writers[i]@)
}

/// A difference and an average of samples stay near their range.
pub proof fn lemma_pair_range(left: Seq<i64>, right: Seq<i64>, bits: nat)
    requires
        left.len() == right.len(),
        1 <= bits <= 32,
        in_bits(left, bits),
        in_bits(right, bits),
    ensures
        in_bits(side_of(left, right), bits + 1),
        in_bits(mid_of(left, right), bits),
        in_reach(left),
        in_reach(right),
{
    lemma_in_reach(left, bits);
    lemma_in_reach(right, bits);
    lemma_pow2_unfold(bits);
    let top = pow2((bits - 1) as nat) as int;
    assert((bits + 1 - 1) as nat == bits);
    assert forall|i: int| 0 <= i < left.len() implies -pow2(bits) <= #[trigger] side_of(
        left,
        right,
    )[i] < pow2(bits) by {
        assert(-top <= left[i] < top);
        assert(-top <= right[i] < top);
    }
    assert forall|i: int| 0 <= i < left.len() implies -top <= #[trigger] mid_of(left, right)[i]
        < top by {
        assert(-top <= left[i] < top);
        assert(-top <= right[i] < top);
    }
}

/// Encodes every channel on its own.
#[verifier::loop_isolation(false)]
fn independent<F: Fn(&Vec<i64>) -> Vec<Predictor>>(block: &Vec<Vec<i64>>, bits: u32, fit: &F) -> (subframes:
    Vec<Writer>)
    requires
        1 <= bits <= 32,
        forall|i: int|
            0 <= i < block@.len() ==> 0 < (#[trigger] block@[i])@.len() <= BLOCK && in_bits(
                block@[i]@,
                bits as nat,
            ),
        forall|low: &Vec<i64>| call_requires(*fit, (low,)),
    ensures
        subframes@.len() == block@.len(),
        forall|i: int|
            0 <= i < subframes@.len() ==> (#[trigger] subframes@[i]).wf() && subframe_written(
                *fit,
                planes(block@)[i],
                bits as nat,
                subframes@[i]@,
            ),
{
    let mut subframes: Vec<Writer> = Vec::new();
    while subframes.len() < block.len()
        invariant
            subframes@.len() <= block@.len(),
            forall|i: int|
                0 <= i < subframes@.len() ==> (#[trigger] subframes@[i]).wf() && subframe_written(
                    *fit,
                    planes(block@)[i],
                    bits as nat,
                    subframes@[i]@,
                ),
        decreases block@.len() - subframes@.len(),
    {
        let index: usize = subframes.len();
        assert(planes(block@)[index as int] == block@[index as int]@);
        subframes.push(fitted_subframe(&block[index], bits, fit));
    }
    subframes
}

/// Computes the average and the difference of two channels.
#[verifier::loop_isolation(false)]
fn mid_and_side(left: &Vec<i64>, right: &Vec<i64>) -> (pair: (Vec<i64>, Vec<i64>))
    requires
        left@.len() == right@.len(),
        in_reach(left@),
        in_reach(right@),
    ensures
        pair.0@ == mid_of(left@, right@),
        pair.1@ == side_of(left@, right@),
{
    let mut side: Vec<i64> = Vec::with_capacity(left.len());
    let mut mid: Vec<i64> = Vec::with_capacity(left.len());
    proof {
        lemma2_to64();
    }
    while side.len() < left.len()
        invariant
            side@.len() == mid@.len(),
            side@.len() <= left@.len(),
            forall|i: int| 0 <= i < side@.len() ==> side@[i] == side_of(left@, right@)[i],
            forall|i: int| 0 <= i < mid@.len() ==> mid@[i] == mid_of(left@, right@)[i],
        decreases left@.len() - side@.len(),
    {
        let l: i64 = left[side.len()];
        let r: i64 = right[side.len()];
        assert(-0x1_0000_0000 <= left@[side@.len() as int] < 0x1_0000_0000);
        assert(-0x1_0000_0000 <= right@[side@.len() as int] < 0x1_0000_0000);
        // The average loses its low bit, which the difference still carries, so
        // dropping it here costs nothing.
        mid.push(shift_down(l + r, 1));
        side.push(l - r);
    }
    assert(side@ =~= side_of(left@, right@));
    assert(mid@ =~= mid_of(left@, right@));
    (mid, side)
}

/// Chooses how the channels relate, and encodes them that way.
///
/// Two channels of music are mostly the same signal, so storing one of them as
/// a difference leaves far less for the predictor to explain. Which of the
/// three pairings wins depends on the music, so all four candidate channels are
/// encoded and the cheapest combination is kept.
fn channels<F: Fn(&Vec<i64>) -> Vec<Predictor>>(block: &Vec<Vec<i64>>, bits: u32, fit: &F) -> (choice: (
    u64,
    Vec<Writer>,
))
    requires
        1 <= block@.len() <= 8,
        1 <= bits <= 32,
        forall|i: int|
            0 <= i < block@.len() ==> 0 < (#[trigger] block@[i])@.len() <= BLOCK
                && block@[i]@.len() == block@[0]@.len() && in_bits(block@[i]@, bits as nat),
        forall|low: &Vec<i64>| call_requires(*fit, (low,)),
    ensures
        channels_written(
            *fit,
            planes(block@),
            bits as nat,
            choice.0 as nat,
            contents(choice.1@),
        ),
        forall|i: int| 0 <= i < choice.1@.len() ==> (#[trigger] choice.1@[i]).wf(),
        choice.0 <= 10,
{
    let ghost plain = planes(block@);
    if block.len() != 2 {
        let subframes = independent(block, bits, fit);
        assert forall|i: int| 0 <= i < plain.len() implies subframe_written(
            *fit,
            plain[i],
            bits as nat,
            #[trigger] contents(subframes@)[i],
        ) by {
            assert(subframes@[i].wf());
        }
        return (block.len() as u64 - 1, subframes);
    }
    assert(block@[0]@.len() == block@[1]@.len());
    let left = &block[0];
    let right = &block[1];
    proof {
        lemma_pair_range(left@, right@, bits as nat);
    }
    let (mid, side) = mid_and_side(left, right);
    let left_bits = fitted_subframe(left, bits, fit);
    let right_bits = fitted_subframe(right, bits, fit);
    let mid_bits = fitted_subframe(&mid, bits, fit);
    // A difference needs one more bit of range than either channel it came from.
    let side_bits = fitted_subframe(&side, bits + 1, fit);
    let ghost pairing = Pairing {
        left: left_bits@,
        right: right_bits@,
        mid: mid_bits@,
        side: side_bits@,
    };
    assert(pairing.written(*fit, plain[0], plain[1], bits as nat));
    let plain_cost: usize = left_bits.len() + right_bits.len();
    let left_side: usize = left_bits.len() + side_bits.len();
    let side_right: usize = side_bits.len() + right_bits.len();
    let mid_side: usize = mid_bits.len() + side_bits.len();
    let mut subframes: Vec<Writer> = Vec::new();
    let code: u64 = if plain_cost <= left_side && plain_cost <= side_right && plain_cost
        <= mid_side {
        subframes.push(left_bits);
        subframes.push(right_bits);
        1
    } else if left_side <= side_right && left_side <= mid_side {
        subframes.push(left_bits);
        subframes.push(side_bits);
        8
    } else if side_right <= mid_side {
        subframes.push(side_bits);
        subframes.push(right_bits);
        9
    } else {
        subframes.push(mid_bits);
        subframes.push(side_bits);
        10
    };
    assert(contents(subframes@) =~= pairing.subframes());
    (code, subframes)
}

/// The four-bit code of a block size: one of its own, or one that announces a
/// field of eight or sixteen bits.
pub open spec fn size_code(block_size: nat) -> nat {
    if block_size == 192 {
        1
    } else if block_size == 576 {
        2
    } else if block_size == 1152 {
        3
    } else if block_size == 2304 {
        4
    } else if block_size == 4608 {
        5
    } else if block_size == 256 {
        8
    } else if block_size == 512 {
        9
    } else if block_size == 1024 {
        10
    } else if block_size == 2048 {
        11
    } else if block_size == 4096 {
        12
    } else if block_size == 8192 {
        13
    } else if block_size == 16384 {
        14
    } else if block_size == 32768 {
        15
    } else if block_size <= 256 {
        6
    } else {
        7
    }
}

/// The four-bit code of a sample rate, or zero where it has none and is stated
/// once, in STREAMINFO.
pub open spec fn rate_code(rate: nat) -> nat {
    if rate == 88200 {
        1
    } else if rate == 176400 {
        2
    } else if rate == 192000 {
        3
    } else if rate == 8000 {
        4
    } else if rate == 16000 {
        5
    } else if rate == 22050 {
        6
    } else if rate == 24000 {
        7
    } else if rate == 32000 {
        8
    } else if rate == 44100 {
        9
    } else if rate == 48000 {
        10
    } else if rate == 96000 {
        11
    } else {
        0
    }
}

/// The three-bit code of a depth, or zero where it has none.
pub open spec fn depth_code(bits: nat) -> nat {
    if bits == 8 {
        1
    } else if bits == 12 {
        2
    } else if bits == 16 {
        4
    } else if bits == 20 {
        5
    } else if bits == 24 {
        6
    } else if bits == 32 {
        7
    } else {
        0
    }
}

/// The first four bytes of a frame header.
pub open spec fn code_bits(block_size: nat, bits: nat, assignment: nat, rate: nat) -> Seq<bool> {
    bits_of(0x3FFE, 14) + bits_of(0, 1) + bits_of(0, 1) + bits_of(size_code(block_size), 4) + bits_of(
        rate_code(rate),
        4,
    ) + bits_of(assignment, 4) + bits_of(depth_code(bits), 3) + bits_of(0, 1)
}

/// The block size, where no code stands for it.
pub open spec fn size_bits(block_size: nat) -> Seq<bool> {
    let code = size_code(block_size);
    if code == 6 {
        bits_of((block_size - 1) as nat, 8)
    } else if code == 7 {
        bits_of((block_size - 1) as nat, 16)
    } else {
        Seq::empty()
    }
}

/// The bits of a frame header, without its checksum.
pub open spec fn header_bits(
    block_size: nat,
    bits: nat,
    assignment: nat,
    number: u64,
    rate: nat,
) -> Seq<bool> {
    code_bits(block_size, bits, assignment, rate) + utf8_bits(number) + size_bits(block_size)
}

/// A frame up to its last checksum: the header and its checksum, the
/// subframes, and zeros up to a whole byte.
pub open spec fn body_bits(header: Seq<bool>, subframes: Seq<Seq<bool>>) -> Seq<bool> {
    padded(header + bits_of(crc8_of(bits_bytes(header)) as nat, 8) + strung(subframes))
}

/// A frame: its body, and the checksum over it.
pub open spec fn frame_bits(header: Seq<bool>, subframes: Seq<Seq<bool>>) -> Seq<bool> {
    let body = body_bits(header, subframes);
    body + bits_of(crc16_of(bits_bytes(body)) as nat, 16)
}

/// What one block of every channel may become.
pub open spec fn frame_written<F: Fn(&Vec<i64>) -> Vec<Predictor>>(
    fit: F,
    block: Seq<Seq<i64>>,
    bits: nat,
    number: u64,
    rate: nat,
    out: Seq<bool>,
) -> bool {
    exists|code: nat, subframes: Seq<Seq<bool>>|
        #[trigger] channels_written(fit, block, bits, code, subframes) && out == frame_bits(
            header_bits(block[0].len(), bits, code, number, rate),
            subframes,
        )
}

/// Writes a frame header, up to but without its CRC.
fn header(
    writer: &mut Writer,
    block_size: usize,
    bits: u32,
    assignment: u64,
    number: u64,
    rate: u32,
)
    requires
        old(writer).wf(),
        1 <= block_size <= 0x1_0000,
    ensures
        final(writer).wf(),
        final(writer)@ == old(writer)@ + header_bits(
            block_size as nat,
            bits as nat,
            assignment as nat,
            number,
            rate as nat,
        ),
{
    let block_code: u64 = code_of_size(block_size);
    let rate_code: u64 = code_of_rate(rate);
    // Any other depth is stated once, in STREAMINFO, and not repeated here.
    let depth_code: u64 = code_of_depth(bits);
    writer.unsigned(0x3FFE, 14);
    writer.unsigned(0, 1);  // reserved
    writer.unsigned(0, 1);  // fixed block size, so the number below counts frames
    writer.unsigned(block_code, 4);
    writer.unsigned(rate_code, 4);
    writer.unsigned(assignment, 4);
    writer.unsigned(depth_code, 3);
    writer.unsigned(0, 1);  // reserved
    assert(writer@ =~= old(writer)@ + code_bits(
        block_size as nat,
        bits as nat,
        assignment as nat,
        rate as nat,
    ));
    writer.utf8_number(number);
    if block_code == 6 {
        writer.unsigned(block_size as u64 - 1, 8);
    } else if block_code == 7 {
        writer.unsigned(block_size as u64 - 1, 16);
    }
    assert(writer@ =~= old(writer)@ + header_bits(
        block_size as nat,
        bits as nat,
        assignment as nat,
        number,
        rate as nat,
    ));
}

/// The four-bit code of a block size.
fn code_of_size(block_size: usize) -> (code: u64)
    ensures
        code == size_code(block_size as nat),
{
    if block_size == 192 {
        1
    } else if block_size == 576 {
        2
    } else if block_size == 1_152 {
        3
    } else if block_size == 2_304 {
        4
    } else if block_size == 4_608 {
        5
    } else if block_size == 256 {
        8
    } else if block_size == 512 {
        9
    } else if block_size == 1_024 {
        10
    } else if block_size == 2_048 {
        11
    } else if block_size == 4_096 {
        12
    } else if block_size == 8_192 {
        13
    } else if block_size == 16_384 {
        14
    } else if block_size == 32_768 {
        15
    } else if block_size <= 256 {
        6
    } else {
        7
    }
}

/// The four-bit code of a sample rate, or zero for none.
fn code_of_rate(rate: u32) -> (code: u64)
    ensures
        code == rate_code(rate as nat),
{
    if rate == 88_200 {
        1
    } else if rate == 176_400 {
        2
    } else if rate == 192_000 {
        3
    } else if rate == 8_000 {
        4
    } else if rate == 16_000 {
        5
    } else if rate == 22_050 {
        6
    } else if rate == 24_000 {
        7
    } else if rate == 32_000 {
        8
    } else if rate == 44_100 {
        9
    } else if rate == 48_000 {
        10
    } else if rate == 96_000 {
        11
    } else {
        0
    }
}

/// The three-bit code of a depth, or zero for none.
fn code_of_depth(bits: u32) -> (code: u64)
    ensures
        code == depth_code(bits as nat),
{
    if bits == 8 {
        1
    } else if bits == 12 {
        2
    } else if bits == 16 {
        4
    } else if bits == 20 {
        5
    } else if bits == 24 {
        6
    } else if bits == 32 {
        7
    } else {
        0
    }
}

/// What stands behind whole bytes makes up its own bytes.
pub proof fn lemma_bytes_suffix(front: Seq<bool>, back: Seq<bool>)
    requires
        front.len() % 8 == 0,
    ensures
        bits_bytes(front + back).skip((front.len() / 8) as int) == bits_bytes(back),
        padded(front + back) == front + padded(back),
{
    let offset = (front.len() / 8) as int;
    let whole = bits_bytes(front + back).skip(offset);
    assert((front + back).len() / 8 == offset + back.len() / 8);
    assert forall|i: int| 0 <= i < back.len() / 8 implies whole[i] == bits_bytes(back)[i] by {
        assert((front + back).subrange(8 * (offset + i), 8 * (offset + i) + 8) =~= back.subrange(
            8 * i,
            8 * i + 8,
        ));
    }
    assert(whole =~= bits_bytes(back));
    assert(padded(front + back) =~= front + padded(back));
}

pub proof fn lemma_utf8_bits_len(number: u64)
    ensures
        utf8_bits(number).len() == 8 + 8 * utf8_extra(number),
{
    lemma_bits_len(number as nat, 8);
    let extra = utf8_extra(number);
    if extra > 0 {
        lemma_bits_len((utf8_lead(extra) | (number >> ((6 * extra) as u64))) as nat, 8);
        lemma_utf8_tail_len(number as nat, extra);
    }
}

proof fn lemma_utf8_tail_len(number: nat, count: nat)
    ensures
        utf8_tail_bits(number, count).len() == 8 * count,
    decreases count,
{
    if count > 0 {
        lemma_utf8_tail_len(number, (count - 1) as nat);
        lemma_bits_len(0x80 + (number / pow2((6 * (count - 1)) as nat)) % 64, 8);
    }
}

/// A header fills whole bytes.
pub proof fn lemma_header_len(
    block_size: nat,
    bits: nat,
    assignment: nat,
    number: u64,
    rate: nat,
)
    ensures
        code_bits(block_size, bits, assignment, rate).len() == 32,
        header_bits(block_size, bits, assignment, number, rate).len() % 8 == 0,
{
    lemma_bits_len(0x3FFE, 14);
    lemma_bits_len(0, 1);
    lemma_bits_len(size_code(block_size), 4);
    lemma_bits_len(rate_code(rate), 4);
    lemma_bits_len(assignment, 4);
    lemma_bits_len(depth_code(bits), 3);
    lemma_utf8_bits_len(number);
    lemma_bits_len((block_size - 1) as nat, 8);
    lemma_bits_len((block_size - 1) as nat, 16);
}

/// Appends what several writers hold, one behind the other.
fn append_all(writer: &mut Writer, parts: &Vec<Writer>)
    requires
        old(writer).wf(),
        forall|i: int| 0 <= i < parts@.len() ==> (#[trigger] parts@[i]).wf(),
    ensures
        final(writer).wf(),
        final(writer)@ == old(writer)@ + strung(contents(parts@)),
{
    let mut index: usize = 0;
    assert(writer@ =~= old(writer)@ + strung(contents(parts@).take(0)));
    while index < parts.len()
        invariant
            index <= parts@.len(),
            writer.wf(),
            forall|i: int| 0 <= i < parts@.len() ==> (#[trigger] parts@[i]).wf(),
            writer@ == old(writer)@ + strung(contents(parts@).take(index as int)),
        decreases parts@.len() - index,
    {
        assert(parts@[index as int].wf());
        writer.append(&parts[index]);
        proof {
            let longer = contents(parts@).take(index + 1);
            assert(longer.drop_last() =~= contents(parts@).take(index as int));
            assert(longer.last() == parts@[index as int]@);
            assert(writer@ =~= old(writer)@ + strung(longer));
        }
        index = index + 1;
    }
    assert(contents(parts@).take(index as int) =~= contents(parts@));
}

/// Writes the checksum of the header that stands behind `front`.
fn seal_header(writer: &mut Writer, start: usize, front: Ghost<Seq<bool>>, head: Ghost<Seq<bool>>)
    requires
        old(writer).wf(),
        old(writer)@ == front@ + head@,
        front@.len() == 8 * start,
    ensures
        final(writer).wf(),
        final(writer)@ == front@ + (head@ + bits_of(crc8_of(bits_bytes(head@)) as nat, 8)),
{
    let written = writer.written();
    proof {
        lemma_bytes_suffix(front@, head@);
    }
    let part = slice_subrange(written, start, written.len());
    assert(part@ =~= bits_bytes(front@ + head@).skip((front@.len() / 8) as int));
    let checked: u8 = crc8(part);
    writer.unsigned(checked as u64, 8);
    assert(writer@ =~= front@ + (head@ + bits_of(checked as nat, 8)));
}

/// Writes the checksum of the frame that stands behind `front`.
fn seal_frame(writer: &mut Writer, start: usize, front: Ghost<Seq<bool>>, body: Ghost<Seq<bool>>)
    requires
        old(writer).wf(),
        old(writer)@ == front@ + body@,
        front@.len() == 8 * start,
    ensures
        final(writer).wf(),
        final(writer)@ == front@ + (body@ + bits_of(crc16_of(bits_bytes(body@)) as nat, 16)),
{
    let written = writer.written();
    proof {
        lemma_bytes_suffix(front@, body@);
    }
    let part = slice_subrange(written, start, written.len());
    assert(part@ =~= bits_bytes(front@ + body@).skip((front@.len() / 8) as int));
    let sealed: u16 = crc16(part);
    writer.unsigned(sealed as u64, 16);
    assert(writer@ =~= front@ + (body@ + bits_of(sealed as nat, 16)));
}

/// Writes a frame of finished subframes.
fn assemble(
    writer: &mut Writer,
    block_size: usize,
    bits: u32,
    assignment: u64,
    number: u64,
    rate: u32,
    subframes: &Vec<Writer>,
)
    requires
        old(writer).wf(),
        old(writer)@.len() % 8 == 0,
        1 <= block_size <= 0x1_0000,
        forall|i: int| 0 <= i < subframes@.len() ==> (#[trigger] subframes@[i]).wf(),
    ensures
        final(writer).wf(),
        final(writer)@.len() % 8 == 0,
        final(writer)@ == old(writer)@ + frame_bits(
            header_bits(
                block_size as nat,
                bits as nat,
                assignment as nat,
                number,
                rate as nat,
            ),
            contents(subframes@),
        ),
{
    let start: usize = writer.written().len();
    let ghost front = writer@;
    let ghost head = header_bits(
        block_size as nat,
        bits as nat,
        assignment as nat,
        number,
        rate as nat,
    );
    let ghost opened = head + bits_of(crc8_of(bits_bytes(head)) as nat, 8);
    let ghost strings = strung(contents(subframes@));
    header(writer, block_size, bits, assignment, number, rate);
    seal_header(writer, start, Ghost(front), Ghost(head));
    append_all(writer, subframes);
    proof {
        assert(front + opened + strings =~= front + (opened + strings));
        lemma_bytes_suffix(front, opened + strings);
    }
    writer.align();
    seal_frame(writer, start, Ghost(front), Ghost(body_bits(head, contents(subframes@))));
    proof {
        lemma_bits_len(
            crc16_of(bits_bytes(body_bits(head, contents(subframes@)))) as nat,
            16,
        );
    }
}

/// Writes one frame: the header, every channel, and the checksum over both.
fn frame<F: Fn(&Vec<i64>) -> Vec<Predictor>>(
    writer: &mut Writer,
    block: &Vec<Vec<i64>>,
    bits: u32,
    number: u64,
    rate: u32,
    fit: &F,
)
    requires
        old(writer).wf(),
        old(writer)@.len() % 8 == 0,
        1 <= block@.len() <= 8,
        1 <= bits <= 32,
        forall|i: int|
            0 <= i < block@.len() ==> 0 < (#[trigger] block@[i])@.len() <= BLOCK
                && block@[i]@.len() == block@[0]@.len() && in_bits(block@[i]@, bits as nat),
        forall|low: &Vec<i64>| call_requires(*fit, (low,)),
    ensures
        final(writer).wf(),
        final(writer)@.len() % 8 == 0,
        exists|out: Seq<bool>|
            #[trigger] frame_written(
                *fit,
                planes(block@),
                bits as nat,
                number,
                rate as nat,
                out,
            ) && final(writer)@ == old(writer)@ + out,
{
    let (assignment, subframes): (u64, Vec<Writer>) = channels(block, bits, fit);
    assert(block@[0]@.len() > 0);
    assemble(writer, block[0].len(), bits, assignment, number, rate, &subframes);
    proof {
        let out = frame_bits(
            header_bits(
                block@[0]@.len(),
                bits as nat,
                assignment as nat,
                number,
                rate as nat,
            ),
            contents(subframes@),
        );
        assert(planes(block@)[0] == block@[0]@);
        assert(frame_written(*fit, planes(block@), bits as nat, number, rate as nat, out));
    }
}

/// How many blocks so many frames fall into.
pub open spec fn block_count(frames: nat) -> nat {
    (frames + 4095) / 4096
}

/// Where a block starts, or where the frames end.
pub open spec fn block_start(frames: nat, index: nat) -> nat {
    if 4096 * index < frames {
        4096 * index
    } else {
        frames
    }
}

/// One block of every channel.
pub open spec fn block_at(codes: Seq<Seq<i64>>, frames: nat, index: nat) -> Seq<Seq<i64>> {
    Seq::new(
        codes.len(),
        |i: int|
            codes[i].subrange(
                block_start(frames, index) as int,
                block_start(frames, index + 1) as int,
            ),
    )
}

/// The bits of a STREAMINFO block, marked as the last metadata in the stream.
pub open spec fn stream_info_bits(info: Info) -> Seq<bool> {
    bits_of(1, 1) + bits_of(0, 7) + bits_of(34, 24) + info_bits(info)
}

/// The body of a STREAMINFO block. The sizes of the smallest and the largest
/// frame are left out, which nothing needs to decode.
pub open spec fn info_bits(info: Info) -> Seq<bool> {
    bits_of(info.min_block as nat, 16) + bits_of(info.max_block as nat, 16) + bits_of(0, 24)
        + bits_of(0, 24) + bits_of(info.sample_rate as nat, 20) + bits_of(
        (info.channels - 1) as nat,
        3,
    ) + bits_of((info.bits - 1) as nat, 5) + bits_of(info.total_samples as nat, 36) + bytes_bits(
        info.md5,
    )
}

/// What a stream says about the audio it holds. A fixed-block-size stream
/// states one size for both bounds; the last block being short is expected and
/// does not widen the range.
pub open spec fn info_of(sound: Sound) -> Info {
    let codes = clamped_channels(sound.channels, sound.format);
    Info {
        min_block: 4096,
        max_block: 4096,
        sample_rate: sound.sample_rate,
        channels: sound.channels.len() as u32,
        bits: sound.format.spec_bits() as u32,
        total_samples: sound.frames() as u64,
        md5: samples_digest(codes, sound.format.spec_bits()),
    }
}

/// The mark every stream opens with, and what it says about itself.
pub open spec fn opening_bits(sound: Sound) -> Seq<bool> {
    bits_of(0x664C_6143, 32) + stream_info_bits(info_of(sound))
}

/// Whether runs of bits are the frames of audio, block by block.
pub open spec fn frames_written<F: Fn(&Vec<i64>) -> Vec<Predictor>>(
    fit: F,
    sound: Sound,
    frames: Seq<Seq<bool>>,
) -> bool {
    let codes = clamped_channels(sound.channels, sound.format);
    forall|k: int|
        0 <= k < frames.len() ==> frame_written(
            fit,
            block_at(codes, sound.frames(), k as nat),
            sound.format.spec_bits(),
            k as u64,
            sound.sample_rate as nat,
            #[trigger] frames[k],
        )
}

/// What audio may become, given what fitting predictors to its blocks came to.
pub open spec fn stream_written<F: Fn(&Vec<i64>) -> Vec<Predictor>>(
    fit: F,
    sound: Sound,
    bytes: Seq<u8>,
) -> bool {
    exists|frames: Seq<Seq<bool>>|
        frames.len() == block_count(sound.frames()) && #[trigger] frames_written(fit, sound, frames)
            && bytes_bits(bytes) == opening_bits(sound) + strung(frames)
}

/// Why audio cannot be stored as FLAC, if it cannot.
pub open spec fn encode_fault(sound: Sound) -> Option<Fault> {
    if sound.format.spec_is_float() {
        Some(
            Fault::Unsupported("FLAC export covers integer PCM only; use WAV for float stems"@),
        )
    } else if sound.sample_rate >= 0x10_0000 {
        Some(
            Fault::Unsupported(
                "FLAC stores sample rates below 1048576 Hz, not "@ + decimal(
                    sound.sample_rate as nat,
                ),
            ),
        )
    } else if !(1 <= sound.channels.len() <= 8) {
        Some(Fault::InvalidArgument("FLAC carries one to eight channels"@))
    } else {
        None
    }
}

/// Bits per sample the encoder writes for a buffer's format.
fn depth(format: SampleFormat) -> (result: Result<u32, Error>)
    ensures
        if format.spec_is_float() {
            result matches Err(error) && error@ == Fault::Unsupported(
                "FLAC export covers integer PCM only; use WAV for float stems"@,
            )
        } else {
            result matches Ok(bits) && bits == format.spec_bits()
        },
{
    if format.is_float() {
        return Err(
            Error::Unsupported(
                "FLAC export covers integer PCM only; use WAV for float stems".to_string(),
            ),
        );
    }
    Ok(format.bits() as u32)
}

/// Writes a STREAMINFO block, marked as the last metadata in the stream.
#[verifier::loop_isolation(false)]
fn write_stream_info(writer: &mut Writer, info: &StreamInfo)
    requires
        old(writer).wf(),
        info.channels >= 1,
        info.bits >= 1,
    ensures
        final(writer).wf(),
        final(writer)@ == old(writer)@ + stream_info_bits(info@),
{
    writer.unsigned(1, 1);  // last metadata block
    writer.unsigned(0, 7);
    writer.unsigned(34, 24);
    writer.unsigned(info.min_block as u64, 16);
    writer.unsigned(info.max_block as u64, 16);
    writer.unsigned(0, 24);  // smallest frame, which nothing needs to decode
    writer.unsigned(0, 24);  // largest frame, likewise
    writer.unsigned(info.sample_rate as u64, 20);
    writer.unsigned((info.channels - 1) as u64, 3);
    writer.unsigned((info.bits - 1) as u64, 5);
    writer.unsigned(info.total_samples, 36);
    let ghost before = writer@;
    let mut index: usize = 0;
    assert(writer@ =~= before + bytes_bits(info.md5@.take(0)));
    while index < 16
        invariant
            index <= 16,
            writer.wf(),
            writer@ == before + bytes_bits(info.md5@.take(index as int)),
        decreases 16 - index,
    {
        writer.unsigned(info.md5[index] as u64, 8);
        proof {
            let longer = info.md5@.take(index + 1);
            assert(longer.drop_last() =~= info.md5@.take(index as int));
            assert(writer@ =~= before + bytes_bits(longer));
        }
        index = index + 1;
    }
    assert(info.md5@.take(16) =~= info.md5@);
    assert(writer@ =~= old(writer)@ + stream_info_bits(info@));
}

/// Cuts one block out of every channel.
#[verifier::loop_isolation(false)]
fn cut(codes: &Vec<Vec<i64>>, start: usize, end: usize) -> (block: Vec<Vec<i64>>)
    requires
        start <= end,
        forall|i: int| 0 <= i < codes@.len() ==> end <= (#[trigger] codes@[i])@.len(),
    ensures
        planes(block@) == Seq::new(
            codes@.len(),
            |i: int| codes@[i]@.subrange(start as int, end as int),
        ),
{
    let mut block: Vec<Vec<i64>> = Vec::with_capacity(codes.len());
    while block.len() < codes.len()
        invariant
            block@.len() <= codes@.len(),
            forall|i: int|
                0 <= i < block@.len() ==> (#[trigger] block@[i])@ == codes@[i]@.subrange(
                    start as int,
                    end as int,
                ),
        decreases codes@.len() - block@.len(),
    {
        let index: usize = block.len();
        assert(end <= codes@[index as int]@.len());
        let mut plane: Vec<i64> = Vec::new();
        plane.extend_from_slice(slice_subrange(codes[index].as_slice(), start, end));
        assert(plane@ =~= codes@[index as int]@.subrange(start as int, end as int));
        block.push(plane);
    }
    assert(planes(block@) =~= Seq::new(
        codes@.len(),
        |i: int| codes@[i]@.subrange(start as int, end as int),
    ));
    block
}

/// Codes brought into an integer format's range fit its bits.
pub proof fn lemma_clamped_bits(channels: Seq<Seq<i64>>, format: SampleFormat)
    requires
        !format.spec_is_float(),
    ensures
        forall|i: int|
            0 <= i < channels.len() ==> in_bits(
                #[trigger] clamped_channels(channels, format)[i],
                format.spec_bits(),
            ),
{
    lemma2_to64();
    assert(pow2((8 - 1) as nat) == 128);
    assert(pow2((16 - 1) as nat) == 32768);
    assert(pow2((24 - 1) as nat) == 8388608);
    assert(pow2((32 - 1) as nat) == 2147483648);
}

/// Bringing codes into range keeps the shape of the channels.
proof fn lemma_clamped_shape(sound: Sound, codes: Seq<Vec<i64>>)
    requires
        sound.even(),
        planes(codes) == clamped_channels(sound.channels, sound.format),
    ensures
        codes.len() == sound.channels.len(),
        forall|i: int| 0 <= i < codes.len() ==> (#[trigger] codes[i])@.len() == sound.frames(),
{
    assert(planes(codes).len() == codes.len());
    assert(clamped_channels(sound.channels, sound.format).len() == sound.channels.len());
    assert forall|i: int| 0 <= i < codes.len() implies (#[trigger] codes[i])@.len()
        == sound.frames() by {
        assert(planes(codes)[i] == codes[i]@);
        assert(clamped_channels(sound.channels, sound.format)[i].len() == sound.channels[i].len());
        assert(sound.channels[i].len() == sound.frames());
    }
}

/// Writes every frame.
#[verifier::loop_isolation(false)]
fn write_frames<F: Fn(&Vec<i64>) -> Vec<Predictor>>(
    writer: &mut Writer,
    sound: Ghost<Sound>,
    codes: &Vec<Vec<i64>>,
    frames: usize,
    bits: u32,
    rate: u32,
    fit: &F,
) -> (written: Ghost<Seq<Seq<bool>>>)
    requires
        old(writer).wf(),
        old(writer)@.len() % 8 == 0,
        !sound@.format.spec_is_float(),
        sound@.even(),
        1 <= codes@.len() <= 8,
        planes(codes@) == clamped_channels(sound@.channels, sound@.format),
        frames == sound@.frames(),
        bits == sound@.format.spec_bits(),
        rate == sound@.sample_rate,
        forall|low: &Vec<i64>| call_requires(*fit, (low,)),
    ensures
        final(writer).wf(),
        final(writer)@.len() % 8 == 0,
        written@.len() == block_count(sound@.frames()),
        frames_written(*fit, sound@, written@),
        final(writer)@ == old(writer)@ + strung(written@),
{
    let ghost plain = planes(codes@);
    let ghost mut out: Seq<Seq<bool>> = Seq::empty();
    proof {
        lemma_clamped_bits(sound@.channels, sound@.format);
        lemma_clamped_shape(sound@, codes@);
    }
    let mut start: usize = 0;
    let mut number: u64 = 0;
    assert(writer@ =~= old(writer)@ + strung(out));
    while start < frames
        invariant
            start <= frames,
            start == block_start(frames as nat, out.len()),
            number == out.len(),
            number <= start,
            writer.wf(),
            writer@.len() % 8 == 0,
            start < frames ==> out.len() < block_count(frames as nat),
            start == frames ==> out.len() == block_count(frames as nat),
            frames_written(*fit, sound@, out),
            writer@ == old(writer)@ + strung(out),
        decreases frames - start,
    {
        let end: usize = if frames - start < BLOCK {
            frames
        } else {
            start + BLOCK
        };
        let block = cut(codes, start, end);
        let ghost index = out.len();
        let ghost before = writer@;
        proof {
            assert(planes(block@) =~= block_at(plain, frames as nat, index));
            assert forall|i: int| 0 <= i < block@.len() implies 0 < (#[trigger] block@[i])@.len()
                <= BLOCK && block@[i]@.len() == block@[0]@.len() && in_bits(
                block@[i]@,
                bits as nat,
            ) by {
                assert(planes(block@)[i] == block@[i]@);
                assert(planes(block@)[0] == block@[0]@);
                assert(codes@[i]@.len() == frames);
                assert(codes@[0]@.len() == frames);
                let whole = clamped_channels(sound@.channels, sound@.format)[i];
                assert(in_bits(whole, sound@.format.spec_bits()));
                assert forall|j: int| 0 <= j < block@[i]@.len() implies -pow2((bits - 1) as nat)
                    <= #[trigger] block@[i]@[j] < pow2((bits - 1) as nat) by {
                    assert(block@[i]@[j] == whole[start + j]);
                }
            }
        }
        frame(writer, &block, bits, number, rate, fit);
        proof {
            let made = choose|made: Seq<bool>|
                #[trigger] frame_written(
                    *fit,
                    planes(block@),
                    bits as nat,
                    number,
                    rate as nat,
                    made,
                ) && writer@ == before + made;
            let longer = out.push(made);
            assert(longer.drop_last() =~= out);
            assert(writer@ =~= old(writer)@ + strung(longer));
            assert forall|k: int| 0 <= k < longer.len() implies frame_written(
                *fit,
                block_at(plain, sound@.frames(), k as nat),
                sound@.format.spec_bits(),
                k as u64,
                sound@.sample_rate as nat,
                #[trigger] longer[k],
            ) by {
                if k < out.len() {
                    assert(longer[k] == out[k]);
                }
            }
            out = longer;
        }
        start = end;
        number = number + 1;
    }
    Ghost(out)
}

/// Encodes a whole stream. `fit` is asked for predictors fitted to each block.
pub fn stream<F: Fn(&Vec<i64>) -> Vec<Predictor>>(audio: &Audio, fit: &F) -> (result: Result<
    Vec<u8>,
    Error,
>)
    requires
        audio.wf(),
        forall|low: &Vec<i64>| call_requires(*fit, (low,)),
    ensures
        match encode_fault(audio@) {
            Some(fault) => result matches Err(error) && error@ == fault,
            None => result matches Ok(bytes) && stream_written(*fit, audio@, bytes@),
        },
{
    let bits: u32 = match depth(audio.format()) {
        Ok(bits) => bits,
        Err(error) => return Err(error),
    };
    if audio.sample_rate() >= 0x10_0000 {
        let mut message = "FLAC stores sample rates below 1048576 Hz, not ".to_string();
        message.append(decimal_text(audio.sample_rate() as u64).as_str());
        return Err(Error::Unsupported(message));
    }
    let count: usize = audio.channel_count();
    if count < 1 || count > 8 {
        return Err(Error::InvalidArgument("FLAC carries one to eight channels".to_string()));
    }
    let codes = match audio.codes() {
        Some(codes) => codes,
        None => return Err(Error::InvalidArgument("integer format without grid".to_string())),
    };
    let frames: usize = audio.frames();
    proof {
        lemma_clamped_shape(audio@, codes@);
    }
    let info = StreamInfo {
        // A fixed-block-size stream states one size for both bounds; the last
        // block being short is expected and does not widen the range.
        min_block: BLOCK as u32,
        max_block: BLOCK as u32,
        sample_rate: audio.sample_rate(),
        channels: count as u32,
        bits,
        total_samples: frames as u64,
        md5: of_samples(&codes, bits),
    };
    assert(info@ == info_of(audio@));
    let mut writer = Writer::new();
    writer.unsigned(0x664C_6143, 32);
    write_stream_info(&mut writer, &info);
    assert(writer@ =~= opening_bits(audio@));
    proof {
        lemma_opening_len(audio@);
    }
    let ghost opening = writer@;
    let written = write_frames(
        &mut writer,
        Ghost(audio@),
        &codes,
        frames,
        bits,
        audio.sample_rate(),
        fit,
    );
    proof {
        assert(padded(writer@) =~= writer@);
    }
    let bytes = writer.finish();
    assert(stream_written(*fit, audio@, bytes@)) by {
        assert(frames_written(*fit, audio@, written@));
    }
    Ok(bytes)
}

/// The opening of a stream fills whole bytes.
pub proof fn lemma_opening_len(sound: Sound)
    ensures
        stream_info_bits(info_of(sound)).len() == 304,
        opening_bits(sound).len() == 336,
{
    let info = info_of(sound);
    lemma_bits_len(0x664C_6143, 32);
    lemma_bits_len(1, 1);
    lemma_bits_len(0, 7);
    lemma_bits_len(34, 24);
    lemma_bits_len(info.min_block as nat, 16);
    lemma_bits_len(info.max_block as nat, 16);
    lemma_bits_len(0, 24);
    lemma_bits_len(info.sample_rate as nat, 20);
    lemma_bits_len((info.channels - 1) as nat, 3);
    lemma_bits_len((info.bits - 1) as nat, 5);
    lemma_bits_len(info.total_samples as nat, 36);
    lemma_bytes_bits_len(info.md5);
    lemma_digest_len(layout(
        clamped_channels(sound.channels, sound.format),
        (sound.format.spec_bits() + 7) / 8,
        frame_count(clamped_channels(sound.channels, sound.format)),
    ));
}

} // verus!
