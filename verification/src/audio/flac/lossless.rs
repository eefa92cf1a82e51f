//! Why nothing is lost: everything the encoder writes reads back as it was.

use vstd::arithmetic::div_mod::lemma_fundamental_div_mod;
use vstd::arithmetic::power2::{lemma2_to64, lemma_pow2_pos, pow2};
use vstd::prelude::*;

use super::bits::{
    bits_of, law_signed_round_trip, law_unary_round_trip, law_unsigned_round_trip, lemma_bits_len,
    lemma_bits_mod, lemma_stands_split, read_signed, read_unary, read_unsigned, signed_bits, stands,
    unary_bits, UNARY_LIMIT,
};
use super::decode::{
    guess, lifted, parameter_bits, partition_count, read_body, read_coefficients, read_head,
    read_partition, read_partitions, read_residual, read_rice, read_run, read_subframe, restored,
    unfolded, Rule,
};
use super::encode::{
    best_rule, best_split, chosen_split, coefficient_bits, divides, errors_of, folded,
    folded_errors, head_bits, held, in_bits, in_reach, kind_of, lemma_guess_bound, lemma_in_reach,
    lemma_parameter_bound, lemma_partition_bounds, lemma_quotient_bound, lemma_shifted_range,
    needs_wide, order_of, parameters_of, partition_of, partition_start, partitions_bits,
    partitions_cost, plan_cost, predicted_bits, residual_bits, rice_bits_count, rice_parameter,
    rule_cost, rules_for, run_bits, shifted, splits, subframe_of, usable, value_bits, values_bits,
    wasted_from, wasted_of, BLOCK, MAX_PARTITION_ORDER,
};
use super::word::wrap64;
use crate::error::Fault;

verus! {

/// Reading one value more is reading the rest and then the value.
proof fn lemma_run_snoc(stream: Seq<bool>, at: nat, count: nat, bits: nat, samples: Seq<i64>)
    ensures
        read_run(stream, at, count + 1, bits, samples) == match read_run(
            stream,
            at,
            count,
            bits,
            samples,
        ) {
            Err(fault) => Err(fault),
            Ok((read, middle)) => match read_signed(stream, middle, bits) {
                Err(fault) => Err(fault),
                Ok((value, next)) => Ok((read.push(value as i64), next)),
            },
        },
    decreases count,
{
    if let Ok((value, next)) = read_signed(stream, at, bits) {
        if count > 0 {
            lemma_run_snoc(stream, next, (count - 1) as nat, bits, samples.push(value as i64));
        } else {
            assert(read_run(stream, next, 0, bits, samples.push(value as i64)) == Ok::<
                (Seq<i64>, nat),
                Fault,
            >((samples.push(value as i64), next)));
        }
    }
}

pub proof fn lemma_run_bits_len(samples: Seq<i64>, bits: nat)
    ensures
        run_bits(samples, bits).len() == samples.len() * bits,
    decreases samples.len(),
{
    if samples.len() > 0 {
        lemma_run_bits_len(samples.drop_last(), bits);
        lemma_bits_len((samples.last() as int % (pow2(bits) as int)) as nat, bits);
        assert(samples.len() * bits == (samples.len() - 1) * bits + bits) by (nonlinear_arith);
    } else {
        assert(samples.len() * bits == 0) by (nonlinear_arith)
            requires
                samples.len() == 0,
        ;
    }
}

/// A run of signed values reads back.
pub proof fn lemma_run_reads(
    stream: Seq<bool>,
    at: nat,
    samples: Seq<i64>,
    bits: nat,
    before: Seq<i64>,
)
    requires
        bits > 0,
        in_bits(samples, bits),
        stands(stream, at, run_bits(samples, bits)),
    ensures
        read_run(stream, at, samples.len(), bits, before) == Ok::<(Seq<i64>, nat), Fault>(
            (before + samples, at + run_bits(samples, bits).len()),
        ),
    decreases samples.len(),
{
    if samples.len() == 0 {
        assert(before + samples =~= before);
    } else {
        let rest = samples.drop_last();
        let last = samples.last();
        lemma_stands_split(stream, at, run_bits(rest, bits), signed_bits(last as int, bits));
        assert forall|i: int| 0 <= i < rest.len() implies -pow2((bits - 1) as nat)
            <= #[trigger] rest[i] < pow2((bits - 1) as nat) by {
            assert(samples[i] == rest[i]);
        }
        lemma_run_reads(stream, at, rest, bits, before);
        assert(samples[samples.len() - 1] == last);
        law_signed_round_trip(stream, at + run_bits(rest, bits).len(), last as int, bits);
        lemma_run_snoc(stream, at, rest.len(), bits, before);
        lemma_bits_len((last as int % (pow2(bits) as int)) as nat, bits);
        assert((before + rest).push(last) =~= before + samples);
    }
}

/// Reading one Rice-coded value more is reading the rest and then the value.
proof fn lemma_rice_snoc(stream: Seq<bool>, at: nat, count: nat, parameter: nat, samples: Seq<i64>)
    ensures
        read_rice(stream, at, count + 1, parameter, samples) == match read_rice(
            stream,
            at,
            count,
            parameter,
            samples,
        ) {
            Err(fault) => Err(fault),
            Ok((read, middle)) => read_rice(stream, middle, 1, parameter, read),
        },
    decreases count,
{
    if count > 0 {
        if let Ok((quotient, middle)) = read_unary(stream, at) {
            if let Ok((remainder, next)) = read_unsigned(stream, middle, parameter) {
                lemma_rice_snoc(
                    stream,
                    next,
                    (count - 1) as nat,
                    parameter,
                    samples.push(unfolded(quotient * pow2(parameter) + remainder) as i64),
                );
            }
        }
    }
}

/// The signed numbers behind folded ones.
pub open spec fn unfolded_all(values: Seq<u64>) -> Seq<i64> {
    Seq::new(values.len(), |i: int| unfolded(values[i] as nat) as i64)
}

/// One Rice-coded value reads back.
proof fn lemma_value_reads(stream: Seq<bool>, at: nat, value: u64, parameter: nat, before: Seq<i64>)
    requires
        stands(stream, at, value_bits(value, parameter)),
        value as nat / pow2(parameter) <= UNARY_LIMIT,
    ensures
        value_bits(value, parameter).len() == value as nat / pow2(parameter) + 1 + parameter,
        read_rice(stream, at, 1, parameter, before) == Ok::<(Seq<i64>, nat), Fault>(
            (before.push(unfolded(value as nat) as i64), at + value_bits(value, parameter).len()),
        ),
{
    let unit = pow2(parameter);
    let quotient = value as nat / unit;
    let low = value as nat % unit;
    lemma_pow2_pos(parameter);
    lemma_bits_len(value as nat, parameter);
    lemma_stands_split(stream, at, unary_bits(quotient), bits_of(value as nat, parameter));
    law_unary_round_trip(stream, at, quotient);
    lemma_bits_mod(value as nat, parameter);
    law_unsigned_round_trip(stream, at + quotient + 1, low, parameter);
    lemma_fundamental_div_mod(value as int, unit as int);
    assert(quotient * unit + low == value) by (nonlinear_arith)
        requires
            value == unit * quotient + low,
    ;
    let read = before.push(unfolded(quotient * unit + low) as i64);
    assert(read_rice(stream, at + quotient + 1 + parameter, 0, parameter, read) == Ok::<
        (Seq<i64>, nat),
        Fault,
    >((read, at + quotient + 1 + parameter)));
}

pub proof fn lemma_values_bits_len(values: Seq<u64>, parameter: nat)
    ensures
        values_bits(values, parameter).len() == rice_bits_count(values, parameter),
    decreases values.len(),
{
    if values.len() > 0 {
        lemma_pow2_pos(parameter);
        lemma_values_bits_len(values.drop_last(), parameter);
        lemma_bits_len(values.last() as nat, parameter);
    }
}

/// A run of Rice-coded values reads back.
proof fn lemma_values_read(
    stream: Seq<bool>,
    at: nat,
    values: Seq<u64>,
    parameter: nat,
    before: Seq<i64>,
)
    requires
        stands(stream, at, values_bits(values, parameter)),
        rice_bits_count(values, parameter) <= UNARY_LIMIT,
    ensures
        read_rice(stream, at, values.len(), parameter, before) == Ok::<(Seq<i64>, nat), Fault>(
            (before + unfolded_all(values), at + values_bits(values, parameter).len()),
        ),
    decreases values.len(),
{
    if values.len() == 0 {
        assert(before + unfolded_all(values) =~= before);
    } else {
        let rest = values.drop_last();
        let last = values.last();
        lemma_stands_split(stream, at, values_bits(rest, parameter), value_bits(last, parameter));
        lemma_pow2_pos(parameter);
        lemma_quotient_bound(values, parameter, values.len() - 1);
        lemma_values_read(stream, at, rest, parameter, before);
        let read = before + unfolded_all(rest);
        lemma_value_reads(
            stream,
            at + values_bits(rest, parameter).len(),
            last,
            parameter,
            read,
        );
        lemma_rice_snoc(stream, at, rest.len(), parameter, before);
        assert(read.push(unfolded(last as nat) as i64) =~= before + unfolded_all(values));
    }
}

/// Reading one partition more is reading the rest and then the partition.
proof fn lemma_partitions_snoc(
    stream: Seq<bool>,
    at: nat,
    partition: nat,
    partitions: nat,
    per_partition: nat,
    order: nat,
    wide: bool,
    samples: Seq<i64>,
)
    requires
        partition <= partitions,
    ensures
        read_partitions(
            stream,
            at,
            partition,
            partitions + 1,
            per_partition,
            order,
            wide,
            samples,
        ) == match read_partitions(
            stream,
            at,
            partition,
            partitions,
            per_partition,
            order,
            wide,
            samples,
        ) {
            Err(fault) => Err(fault),
            Ok((read, middle)) => read_partition(
                stream,
                middle,
                partition_count(per_partition, order, partitions),
                wide,
                read,
            ),
        },
    decreases partitions - partition,
{
    let count = partition_count(per_partition, order, partition);
    if let Ok((more, next)) = read_partition(stream, at, count, wide, samples) {
        if partition < partitions {
            lemma_partitions_snoc(
                stream,
                next,
                partition + 1,
                partitions,
                per_partition,
                order,
                wide,
                more,
            );
        } else {
            assert(read_partitions(
                stream,
                next,
                partition + 1,
                partitions + 1,
                per_partition,
                order,
                wide,
                more,
            ) == Ok::<(Seq<i64>, nat), Fault>((more, next)));
        }
    }
}

/// One partition of a residual reads back.
proof fn lemma_partition_reads(
    stream: Seq<bool>,
    at: nat,
    part: Seq<u64>,
    parameter: nat,
    wide: bool,
    before: Seq<i64>,
)
    requires
        parameter <= 30,
        wide || parameter < 14,
        rice_bits_count(part, parameter) <= UNARY_LIMIT,
        stands(stream, at, bits_of(parameter, parameter_bits(wide)) + values_bits(part, parameter)),
    ensures
        read_partition(stream, at, part.len(), wide, before) == Ok::<(Seq<i64>, nat), Fault>(
            (
                before + unfolded_all(part),
                at + parameter_bits(wide) + values_bits(part, parameter).len(),
            ),
        ),
{
    let stated = bits_of(parameter, parameter_bits(wide));
    lemma2_to64();
    lemma_bits_len(parameter, parameter_bits(wide));
    lemma_stands_split(stream, at, stated, values_bits(part, parameter));
    law_unsigned_round_trip(stream, at, parameter, parameter_bits(wide));
    lemma_values_read(stream, at + stated.len(), part, parameter, before);
}

/// A partition lies within the residual, and can be stated.
spec fn sound_partition(
    values: Seq<u64>,
    per_partition: nat,
    order: nat,
    wide: bool,
    partition: nat,
) -> bool {
    let start = partition_start(per_partition, order, partition);
    let end = partition_start(per_partition, order, partition + 1);
    &&& 0 <= start <= end <= values.len()
    &&& end - start == partition_count(per_partition, order, partition)
    &&& wide || rice_parameter(partition_of(values, per_partition, order, partition)) < 14
}

/// The partitions of a residual read back.
proof fn lemma_partitions_read(
    stream: Seq<bool>,
    at: nat,
    values: Seq<u64>,
    per: nat,
    order: nat,
    wide: bool,
    count: nat,
    warm: Seq<i64>,
)
    requires
        forall|p: nat| p < count ==> sound_partition(values, per, order, wide, p),
        stands(stream, at, partitions_bits(values, per, order, wide, count)),
        partitions_cost(values, per, order, count) <= UNARY_LIMIT,
    ensures
        read_partitions(stream, at, 0, count, per, order, wide, warm) == Ok::<
            (Seq<i64>, nat),
            Fault,
        >(
            (
                warm + unfolded_all(values.take(partition_start(per, order, count))),
                at + partitions_bits(values, per, order, wide, count).len(),
            ),
        ),
    decreases count,
{
    if count == 0 {
        assert(warm + unfolded_all(values.take(0)) =~= warm);
    } else {
        let before = (count - 1) as nat;
        let part = partition_of(values, per, order, before);
        let parameter = rice_parameter(part);
        let head = partitions_bits(values, per, order, wide, before);
        let stated = bits_of(parameter, parameter_bits(wide));
        let body = values_bits(part, parameter);
        assert(head + stated + body =~= head + (stated + body));
        lemma_stands_split(stream, at, head, stated + body);
        lemma_partitions_read(stream, at, values, per, order, wide, before, warm);
        lemma_partitions_snoc(stream, at, 0, before, per, order, wide, warm);
        assert(sound_partition(values, per, order, wide, before));
        lemma_parameter_bound(part);
        lemma_bits_len(parameter, parameter_bits(wide));
        let start = partition_start(per, order, before);
        let end = partition_start(per, order, count);
        let read = warm + unfolded_all(values.take(start));
        lemma_partition_reads(stream, at + head.len(), part, parameter, wide, read);
        assert(part.len() == partition_count(per, order, before));
        assert(read + unfolded_all(part) =~= warm + unfolded_all(values.take(end)));
    }
}

/// A residual reads back behind its warm-up.
pub proof fn lemma_residual_reads(
    stream: Seq<bool>,
    at: nat,
    values: Seq<u64>,
    block_size: nat,
    order: nat,
    warm: Seq<i64>,
)
    requires
        values.len() == block_size - order,
        chosen_split(values, block_size, order) <= MAX_PARTITION_ORDER,
        splits(block_size, order, chosen_split(values, block_size, order)),
        plan_cost(values, block_size, order) <= UNARY_LIMIT,
        stands(stream, at, residual_bits(values, block_size, order)),
    ensures
        read_residual(stream, at, block_size, order, warm) == Ok::<(Seq<i64>, nat), Fault>(
            (warm + unfolded_all(values), at + residual_bits(values, block_size, order).len()),
        ),
{
    let partition_order = chosen_split(values, block_size, order);
    let partitions = pow2(partition_order);
    let per = block_size / partitions;
    let wide = needs_wide(parameters_of(values, per, order, partitions));
    let method = if wide {
        1nat
    } else {
        0nat
    };
    let body = partitions_bits(values, per, order, wide, partitions);
    lemma2_to64();
    lemma_pow2_pos(partition_order);
    lemma_bits_len(method, 2);
    lemma_bits_len(partition_order, 4);
    lemma_stands_split(stream, at, bits_of(method, 2) + bits_of(partition_order, 4), body);
    lemma_stands_split(stream, at, bits_of(method, 2), bits_of(partition_order, 4));
    law_unsigned_round_trip(stream, at, method, 2);
    law_unsigned_round_trip(stream, at + 2, partition_order, 4);
    assert forall|p: nat| p < partitions implies sound_partition(values, per, order, wide, p) by {
        lemma_partition_bounds(values.len(), block_size, order, partition_order, p);
        assert((p + 1) * per == p * per + per) by (nonlinear_arith);
        if p == 0 {
            assert(p * per == 0) by (nonlinear_arith)
                requires
                    p == 0,
            ;
        }
        assert(parameters_of(values, per, order, partitions)[p as int] == rice_parameter(
            partition_of(values, per, order, p),
        ));
    }
    lemma_partitions_read(stream, at + 6, values, per, order, wide, partitions, warm);
    lemma_partition_bounds(
        values.len(),
        block_size,
        order,
        partition_order,
        (partitions - 1) as nat,
    );
    assert(values.take(values.len() as int) =~= values);
}

/// Folding a number onto the naturals loses nothing.
pub proof fn law_folding_is_reversible(number: int)
    ensures
        unfolded(folded(number)) == number,
{
}

/// Adding the errors a rule makes to what it expects restores the samples.
proof fn lemma_restores(samples: Seq<i64>, rule: Rule, index: nat)
    requires
        usable(rule, samples.len()),
        in_reach(samples),
        order_of(rule) <= index <= samples.len(),
    ensures
        restored(
            samples.take(index as int) + errors_of(samples, rule).skip(index - order_of(rule)),
            index,
            rule,
        ) == samples,
    decreases samples.len() - index,
{
    let order = order_of(rule);
    let errors = errors_of(samples, rule);
    let mixed = samples.take(index as int) + errors.skip(index - order);
    if index == samples.len() {
        assert(mixed =~= samples);
    } else {
        let past = samples.take(index as int);
        assert(mixed.take(index as int) =~= past);
        assert forall|i: int| 0 <= i < past.len() implies -0x1_0000_0000 <= #[trigger] past[i]
            < 0x1_0000_0000 by {
            assert(samples[i] == past[i]);
        }
        assert(usable(rule, past.len()));
        lemma_guess_bound(past, rule);
        assert(-0x1_0000_0000 <= samples[index as int] < 0x1_0000_0000);
        assert(mixed[index as int] == errors[index - order]);
        assert(errors[index - order] == samples[index as int] - guess(past, rule));
        let next = mixed.update(
            index as int,
            wrap64(mixed[index as int] + guess(mixed.take(index as int), rule)),
        );
        assert(next =~= samples.take((index + 1) as int) + errors.skip(index + 1 - order));
        lemma_restores(samples, rule, index + 1);
    }
}

/// The partition order that was chosen can be used.
pub proof fn lemma_chosen_splits(values: Seq<u64>, block_size: nat, order: nat, last: nat)
    requires
        order <= block_size,
    ensures
        best_split(values, block_size, order, last) matches Some(chosen) && chosen <= last && splits(
            block_size,
            order,
            chosen,
        ),
    decreases last,
{
    lemma2_to64();
    assert(block_size % 1 == 0 && block_size / 1 == block_size);
    if last > 0 {
        lemma_chosen_splits(values, block_size, order, (last - 1) as nat);
    }
}

/// The errors of a usable rule, folded and unfolded, are the errors.
proof fn lemma_errors_unfold(samples: Seq<i64>, rule: Rule)
    requires
        usable(rule, samples.len()),
        in_reach(samples),
    ensures
        unfolded_all(folded_errors(samples, rule)) == errors_of(samples, rule),
{
    let errors = errors_of(samples, rule);
    assert forall|i: int| 0 <= i < errors.len() implies unfolded_all(
        folded_errors(samples, rule),
    )[i] == errors[i] by {
        law_folding_is_reversible(errors[i] as int);
        assert(folded(errors[i] as int) <= u64::MAX);
    }
    assert(unfolded_all(folded_errors(samples, rule)) =~= errors);
}

/// A rule's coefficients read back.
proof fn lemma_coefficients_read(stream: Seq<bool>, at: nat, coefficients: Seq<i64>, shift: nat)
    requires
        usable(Rule::Fitted(coefficients, shift), BLOCK as nat),
        stands(stream, at, coefficient_bits(Rule::Fitted(coefficients, shift))),
    ensures
        read_coefficients(stream, at, coefficients.len()) == Ok::<(Rule, nat), Fault>(
            (
                Rule::Fitted(coefficients, shift),
                at + coefficient_bits(Rule::Fitted(coefficients, shift)).len(),
            ),
        ),
{
    let body = run_bits(coefficients, 15);
    lemma2_to64();
    lemma_bits_len(14, 4);
    lemma_bits_len(shift, 5);
    lemma_stands_split(stream, at, bits_of(14, 4) + bits_of(shift, 5), body);
    lemma_stands_split(stream, at, bits_of(14, 4), bits_of(shift, 5));
    law_unsigned_round_trip(stream, at, 14, 4);
    assert(shift as int % 32 == shift);
    assert(signed_bits(shift as int, 5) == bits_of(shift, 5));
    law_signed_round_trip(stream, at + 4, shift as int, 5);
    assert forall|i: int| 0 <= i < coefficients.len() implies -pow2((15 - 1) as nat)
        <= #[trigger] coefficients[i] < pow2((15 - 1) as nat) by {}
    lemma_run_reads(stream, at + 9, coefficients, 15, Seq::empty());
    assert(Seq::<i64>::empty() + coefficients =~= coefficients);
}

/// What a rule describes reads back as what it describes.
proof fn lemma_predicted_reads(stream: Seq<bool>, at: nat, samples: Seq<i64>, bits: nat, rule: Rule)
    requires
        samples.len() <= BLOCK,
        1 <= bits <= 33,
        in_bits(samples, bits),
        usable(rule, samples.len()),
        rule_cost(samples, bits, rule) <= UNARY_LIMIT,
        stands(
            stream,
            at,
            run_bits(samples.take(order_of(rule) as int), bits) + coefficient_bits(rule)
                + residual_bits(folded_errors(samples, rule), samples.len(), order_of(rule)),
        ),
    ensures
        read_body(stream, at, kind_of(rule), samples.len(), bits) == Ok::<(Seq<i64>, nat), Fault>(
            (
                samples,
                at + (run_bits(samples.take(order_of(rule) as int), bits) + coefficient_bits(rule)
                    + residual_bits(
                    folded_errors(samples, rule),
                    samples.len(),
                    order_of(rule),
                )).len(),
            ),
        ),
{
    let order = order_of(rule);
    let warm = samples.take(order as int);
    let first = run_bits(warm, bits);
    let second = coefficient_bits(rule);
    let values = folded_errors(samples, rule);
    let third = residual_bits(values, samples.len(), order);
    lemma_stands_split(stream, at, first + second, third);
    lemma_stands_split(stream, at, first, second);
    assert forall|i: int| 0 <= i < warm.len() implies -pow2((bits - 1) as nat) <= #[trigger] warm[i]
        < pow2((bits - 1) as nat) by {
        assert(samples[i] == warm[i]);
    }
    lemma_run_reads(stream, at, warm, bits, Seq::empty());
    assert(Seq::<i64>::empty() + warm =~= warm);
    lemma_in_reach(samples, bits);
    lemma_chosen_splits(values, samples.len(), order, MAX_PARTITION_ORDER as nat);
    assert(0 <= bits * order) by (nonlinear_arith);
    lemma_residual_reads(
        stream,
        at + first.len() + second.len(),
        values,
        samples.len(),
        order,
        warm,
    );
    lemma_errors_unfold(samples, rule);
    lemma_restores(samples, rule, order);
    assert(errors_of(samples, rule).skip(0) =~= errors_of(samples, rule));
    match rule {
        Rule::Fixed(fixed) => {
            assert(second.len() == 0);
            assert((kind_of(rule) - 8) as nat == order);
        },
        Rule::Fitted(coefficients, shift) => {
            lemma_coefficients_read(stream, at + first.len(), coefficients, shift);
            assert((kind_of(rule) - 31) as nat == order);
        },
    }
}

/// A subframe's head reads back.
proof fn lemma_head_reads(stream: Seq<bool>, at: nat, kind: nat, wasted: nat)
    requires
        kind < 64,
        wasted <= 64,
        stands(stream, at, head_bits(kind, wasted)),
    ensures
        read_head(stream, at) == Ok::<((nat, nat), nat), Fault>(
            ((kind, wasted), at + head_bits(kind, wasted).len()),
        ),
        head_bits(kind, wasted).len() == 8 + wasted,
{
    let lead = bits_of(0, 1) + bits_of(kind, 6);
    let tail = if wasted == 0 {
        bits_of(0, 1)
    } else {
        bits_of(1, 1) + unary_bits((wasted - 1) as nat)
    };
    lemma2_to64();
    lemma_bits_len(0, 1);
    lemma_bits_len(1, 1);
    lemma_bits_len(kind, 6);
    lemma_stands_split(stream, at, lead, tail);
    lemma_stands_split(stream, at, bits_of(0, 1), bits_of(kind, 6));
    law_unsigned_round_trip(stream, at, 0, 1);
    law_unsigned_round_trip(stream, at + 1, kind, 6);
    if wasted == 0 {
        law_unsigned_round_trip(stream, at + 7, 0, 1);
    } else {
        lemma_stands_split(stream, at + 7, bits_of(1, 1), unary_bits((wasted - 1) as nat));
        law_unsigned_round_trip(stream, at + 7, 1, 1);
        law_unary_round_trip(stream, at + 8, (wasted - 1) as nat);
    }
}

/// The rules that are tried are usable.
proof fn lemma_rules_usable(block_size: nat, fitted: Seq<Rule>)
    requires
        block_size > 0,
    ensures
        forall|i: int|
            0 <= i < rules_for(block_size, fitted).len() ==> usable(
                #[trigger] rules_for(block_size, fitted)[i],
                block_size,
            ),
    decreases fitted.len(),
{
    if fitted.len() > 0 {
        lemma_rules_usable(block_size, fitted.drop_last());
        let shorter = rules_for(block_size, fitted.drop_last());
        let longer = rules_for(block_size, fitted);
        assert forall|i: int| 0 <= i < longer.len() implies usable(
            #[trigger] longer[i],
            block_size,
        ) by {
            if i < shorter.len() {
                assert(longer[i] == shorter[i]);
            }
        }
    }
}

/// The rule that was chosen is one that was tried, and beats the samples.
pub proof fn lemma_best_rule(samples: Seq<i64>, bits: nat, rules: Seq<Rule>, count: nat)
    requires
        count <= rules.len(),
        forall|i: int| 0 <= i < rules.len() ==> usable(#[trigger] rules[i], samples.len()),
    ensures
        best_rule(samples, bits, rules, count) matches Some(rule) ==> usable(rule, samples.len())
            && rule_cost(samples, bits, rule) < 7 + bits * samples.len(),
    decreases count,
{
    if count > 0 {
        lemma_best_rule(samples, bits, rules, (count - 1) as nat);
        assert(usable(rules[count - 1], samples.len()));
    }
}

/// The bits that are dropped are zero in every sample, and leave at least one.
proof fn lemma_wasted(samples: Seq<i64>, from: nat, limit: nat)
    requires
        from <= limit,
        divides(pow2(from), samples),
    ensures
        from <= wasted_from(samples, from, limit) <= limit,
        divides(pow2(wasted_from(samples, from, limit)), samples),
    decreases limit - from,
{
    if from < limit && divides(pow2(from + 1), samples) {
        lemma_wasted(samples, from + 1, limit);
    }
}

/// Shifting samples down by bits that are zero, and back up, restores them.
proof fn lemma_lifted_shifted(samples: Seq<i64>, wasted: nat)
    requires
        divides(pow2(wasted), samples),
    ensures
        lifted(shifted(samples, wasted), wasted) == samples,
{
    let unit = pow2(wasted) as int;
    lemma_pow2_pos(wasted);
    assert forall|i: int| 0 <= i < samples.len() implies lifted(shifted(samples, wasted), wasted)[i]
        == samples[i] by {
        let sample = samples[i] as int;
        assert(samples[i] as int % unit == 0);
        lemma_fundamental_div_mod(sample, unit);
        let quotient = sample / unit;
        assert(i64::MIN <= quotient <= i64::MAX && quotient * unit == sample) by (nonlinear_arith)
            requires
                i64::MIN <= sample <= i64::MAX,
                sample == unit * quotient,
                unit >= 1,
        ;
    }
    assert(lifted(shifted(samples, wasted), wasted) =~= samples);
}

/// A held value reads back.
proof fn lemma_held_reads(stream: Seq<bool>, at: nat, samples: Seq<i64>, bits: nat)
    requires
        0 < samples.len() <= BLOCK,
        1 <= bits <= 33,
        in_bits(samples, bits),
        held(samples),
        stands(stream, at, head_bits(0, 0) + signed_bits(samples[0] as int, bits)),
    ensures
        read_subframe(stream, at, samples.len(), bits) == Ok::<(Seq<i64>, nat), Fault>(
            (samples, at + (head_bits(0, 0) + signed_bits(samples[0] as int, bits)).len()),
        ),
{
    let value = samples[0];
    lemma2_to64();
    lemma_stands_split(stream, at, head_bits(0, 0), signed_bits(value as int, bits));
    lemma_head_reads(stream, at, 0, 0);
    assert(-pow2((bits - 1) as nat) <= samples[0] < pow2((bits - 1) as nat));
    law_signed_round_trip(stream, at + 8, value as int, bits);
    lemma_bits_len((value as int % (pow2(bits) as int)) as nat, bits);
    assert(Seq::new(samples.len(), |i: int| value) =~= samples);
    assert forall|i: int| 0 <= i < samples.len() implies lifted(samples, 0)[i] == samples[i] by {
        assert(samples[i] * 1 == samples[i]);
    }
    assert(lifted(samples, 0) =~= samples);
}

/// A body behind its head reads back, shifted up again.
proof fn lemma_subframe_reads(
    stream: Seq<bool>,
    at: nat,
    samples: Seq<i64>,
    bits: nat,
    wasted: nat,
    kind: nat,
    body: Seq<bool>,
)
    requires
        wasted < bits <= 33,
        kind < 64,
        divides(pow2(wasted), samples),
        stands(stream, at, head_bits(kind, wasted) + body),
        stands(stream, at + 8 + wasted, body) ==> read_body(
            stream,
            at + 8 + wasted,
            kind,
            samples.len(),
            (bits - wasted) as nat,
        ) == Ok::<(Seq<i64>, nat), Fault>(
            (shifted(samples, wasted), at + 8 + wasted + body.len()),
        ),
    ensures
        read_subframe(stream, at, samples.len(), bits) == Ok::<(Seq<i64>, nat), Fault>(
            (samples, at + (head_bits(kind, wasted) + body).len()),
        ),
{
    lemma_stands_split(stream, at, head_bits(kind, wasted), body);
    lemma_head_reads(stream, at, kind, wasted);
    lemma_lifted_shifted(samples, wasted);
}

/// Whatever predictors a subframe was offered, it reads back as its samples.
#[verifier::rlimit(60)]
#[verifier::spinoff_prover]
pub proof fn law_subframe_round_trip(
    stream: Seq<bool>,
    at: nat,
    samples: Seq<i64>,
    bits: nat,
    fitted: Seq<Rule>,
)
    requires
        0 < samples.len() <= BLOCK,
        1 <= bits <= 33,
        in_bits(samples, bits),
        stands(stream, at, subframe_of(samples, bits, fitted)),
    ensures
        read_subframe(stream, at, samples.len(), bits) == Ok::<(Seq<i64>, nat), Fault>(
            (samples, at + subframe_of(samples, bits, fitted).len()),
        ),
{
    if held(samples) {
        lemma_held_reads(stream, at, samples, bits);
    } else {
        let wasted = wasted_of(samples, bits);
        lemma2_to64();
        assert forall|i: int| 0 <= i < samples.len() implies #[trigger] samples[i] as int % 1 == 0 by {}
        lemma_wasted(samples, 0, (bits - 1) as nat);
        let low = shifted(samples, wasted);
        let narrow = (bits - wasted) as nat;
        lemma_shifted_range(samples, bits, wasted);
        let rules = rules_for(low.len(), fitted);
        lemma_rules_usable(low.len(), fitted);
        lemma_best_rule(low, narrow, rules, rules.len());
        assert(narrow * low.len() <= 33 * 4096) by (nonlinear_arith)
            requires
                narrow <= 33,
                low.len() <= 4096,
        ;
        match best_rule(low, narrow, rules, rules.len()) {
            Some(rule) => {
                let body = run_bits(low.take(order_of(rule) as int), narrow) + coefficient_bits(rule)
                    + residual_bits(folded_errors(low, rule), low.len(), order_of(rule));
                assert(predicted_bits(low, narrow, wasted, rule) =~= head_bits(
                    kind_of(rule),
                    wasted,
                ) + body);
                if stands(stream, at + 8 + wasted, body) {
                    lemma_predicted_reads(stream, at + 8 + wasted, low, narrow, rule);
                }
                lemma_subframe_reads(stream, at, samples, bits, wasted, kind_of(rule), body);
            },
            None => {
                let body = run_bits(low, narrow);
                if stands(stream, at + 8 + wasted, body) {
                    lemma_run_reads(stream, at + 8 + wasted, low, narrow, Seq::empty());
                    assert(Seq::<i64>::empty() + low =~= low);
                }
                lemma_subframe_reads(stream, at, samples, bits, wasted, 1, body);
            },
        }
    }
}

/// Partitions take no more room than they were costed at.
proof fn lemma_partitions_len(
    values: Seq<u64>,
    per_partition: nat,
    order: nat,
    wide: bool,
    count: nat,
)
    ensures
        partitions_bits(values, per_partition, order, wide, count).len() <= 5 * count
            + partitions_cost(values, per_partition, order, count),
    decreases count,
{
    if count > 0 {
        let before = (count - 1) as nat;
        let last = partition_of(values, per_partition, order, before);
        lemma_partitions_len(values, per_partition, order, wide, before);
        lemma_bits_len(rice_parameter(last), parameter_bits(wide));
        lemma_values_bits_len(last, rice_parameter(last));
    }
}

/// A described block takes hardly more room than it was costed at.
proof fn lemma_predicted_len(samples: Seq<i64>, bits: nat, wasted: nat, rule: Rule)
    requires
        order_of(rule) <= samples.len(),
    ensures
        predicted_bits(samples, bits, wasted, rule).len() <= 1 + wasted + rule_cost(
            samples,
            bits,
            rule,
        ),
{
    let order = order_of(rule);
    let warm = samples.take(order as int);
    let values = folded_errors(samples, rule);
    let partition_order = chosen_split(values, samples.len(), order);
    let partitions = pow2(partition_order);
    let per = samples.len() / partitions;
    let wide = needs_wide(parameters_of(values, per, order, partitions));
    lemma_head_len(kind_of(rule), wasted);
    lemma_run_bits_len(warm, bits);
    assert(warm.len() * bits == bits * order) by (nonlinear_arith)
        requires
            warm.len() == order,
    ;
    lemma_partitions_len(values, per, order, wide, partitions);
    lemma_bits_len(if wide { 1nat } else { 0nat }, 2);
    lemma_bits_len(partition_order, 4);
    if let Rule::Fitted(coefficients, shift) = rule {
        lemma_bits_len(14, 4);
        lemma_bits_len(shift, 5);
        lemma_run_bits_len(coefficients, 15);
    }
}

proof fn lemma_head_len(kind: nat, wasted: nat)
    ensures
        head_bits(kind, wasted).len() == 8 + wasted,
{
    lemma_bits_len(0, 1);
    lemma_bits_len(1, 1);
    lemma_bits_len(kind, 6);
}

/// A subframe is never larger than its samples stored as they are, behind a head
/// of eight bits; one whose samples are all the same is exactly the head and one
/// sample.
pub proof fn law_subframes_stay_within_verbatim(samples: Seq<i64>, bits: nat, fitted: Seq<Rule>)
    requires
        samples.len() > 0,
        bits >= 1,
    ensures
        subframe_of(samples, bits, fitted).len() <= 8 + bits * samples.len(),
        held(samples) ==> subframe_of(samples, bits, fitted).len() == 8 + bits,
{
    if held(samples) {
        lemma_head_len(0, 0);
        lemma_bits_len((samples[0] as int % (pow2(bits) as int)) as nat, bits);
        assert(bits <= bits * samples.len()) by (nonlinear_arith)
            requires
                samples.len() > 0,
        ;
    } else {
        let wasted = wasted_of(samples, bits);
        lemma2_to64();
        assert forall|i: int| 0 <= i < samples.len() implies #[trigger] samples[i] as int % 1 == 0 by {}
        lemma_wasted(samples, 0, (bits - 1) as nat);
        let low = shifted(samples, wasted);
        let narrow = (bits - wasted) as nat;
        let rules = rules_for(low.len(), fitted);
        lemma_rules_usable(low.len(), fitted);
        lemma_best_rule(low, narrow, rules, rules.len());
        assert(wasted + narrow * low.len() <= bits * samples.len()) by (nonlinear_arith)
            requires
                wasted + narrow == bits,
                low.len() == samples.len(),
                samples.len() > 0,
        ;
        match best_rule(low, narrow, rules, rules.len()) {
            Some(rule) => {
                lemma_predicted_len(low, narrow, wasted, rule);
            },
            None => {
                lemma_head_len(1, wasted);
                lemma_run_bits_len(low, narrow);
                assert(low.len() * narrow == narrow * low.len()) by (nonlinear_arith);
            },
        }
    }
}

/// A subframe stays small.
pub proof fn lemma_subframe_len(samples: Seq<i64>, bits: nat, fitted: Seq<Rule>)
    requires
        0 < samples.len() <= BLOCK,
        1 <= bits <= 33,
    ensures
        subframe_of(samples, bits, fitted).len() <= 0x4_0000,
{
    law_subframes_stay_within_verbatim(samples, bits, fitted);
    assert(bits * samples.len() <= 33 * 4096) by (nonlinear_arith)
        requires
            bits <= 33,
            samples.len() <= 4096,
    ;
}

} // verus!
