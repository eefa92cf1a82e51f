//! How small the encoder makes its output: the parameter it codes residuals
//! with is the cheapest there is.

use super::decode::Rule;
use super::encode::{
    best_pairing, best_rule, best_split, cheapest, divides, exponent, rice_bits_count,
    rice_parameter, rule_cost, split_cost, total_of, wasted_from, wasted_of, MAX_PARAMETER,
};
use vstd::arithmetic::power2::{lemma_pow2_pos, lemma_pow2_unfold, pow2};
use vstd::prelude::*;

verus! {

/// What is saved on values by raising a parameter by one: half of each, rounded
/// up.
spec fn halves(values: Seq<u64>, parameter: nat) -> nat
    decreases values.len(),
{
    if values.len() == 0 {
        0
    } else {
        halves(values.drop_last(), parameter) + (values.last() as nat / pow2(parameter) + 1) / 2
    }
}

/// Dividing by the next power of two halves a quotient once more.
proof fn lemma_next_quotient(value: nat, parameter: nat)
    ensures
        value / pow2(parameter + 1) == (value / pow2(parameter)) / 2,
{
    lemma_pow2_pos(parameter);
    lemma_pow2_unfold(parameter + 1);
    vstd::arithmetic::div_mod::lemma_div_denominator(value as int, pow2(parameter) as int, 2);
    assert(pow2(parameter + 1) == pow2(parameter) * 2);
}

/// Raising a parameter by one saves the halves and costs one bit per value.
proof fn lemma_next_cost(values: Seq<u64>, parameter: nat)
    ensures
        rice_bits_count(values, parameter) + values.len() == rice_bits_count(values, parameter + 1)
            + halves(values, parameter),
        halves(values, parameter + 1) <= halves(values, parameter),
    decreases values.len(),
{
    if values.len() > 0 {
        lemma_next_cost(values.drop_last(), parameter);
        lemma_next_quotient(values.last() as nat, parameter);
    }
}

/// How much the halves come to, from above and from below.
proof fn lemma_halves_bounds(values: Seq<u64>, parameter: nat)
    ensures
        2 * (pow2(parameter) * halves(values, parameter)) <= total_of(values) + pow2(parameter)
            * values.len(),
        2 * (pow2(parameter) * halves(values, parameter)) + pow2(parameter) * values.len()
            >= total_of(values) + values.len(),
    decreases values.len(),
{
    let unit = pow2(parameter);
    lemma_pow2_pos(parameter);
    if values.len() == 0 {
        assert(unit * 0 == 0) by (nonlinear_arith);
    } else {
        let shorter = values.drop_last();
        let value = values.last() as nat;
        let quotient = value / unit;
        let half = (quotient + 1) / 2;
        lemma_halves_bounds(shorter, parameter);
        vstd::arithmetic::div_mod::lemma_fundamental_div_mod(value as int, unit as int);
        vstd::arithmetic::div_mod::lemma_mod_bound(value as int, unit as int);
        assert(unit * halves(values, parameter) == unit * halves(shorter, parameter) + unit * half)
            by (nonlinear_arith)
            requires
                halves(values, parameter) == halves(shorter, parameter) + half,
        ;
        assert(unit * values.len() == unit * shorter.len() + unit) by (nonlinear_arith)
            requires
                values.len() == shorter.len() + 1,
        ;
        assert(unit * quotient <= 2 * (unit * half) <= unit * quotient + unit) by (nonlinear_arith)
            requires
                quotient <= 2 * half <= quotient + 1,
                unit > 0,
        ;
    }
}

/// The exponent of a number is that of the highest power of two in it.
proof fn lemma_exponent(value: nat)
    ensures
        value >= 1 ==> pow2(exponent(value)) <= value,
        value < pow2(exponent(value) + 1),
        value == 0 ==> exponent(value) == 0,
    decreases value,
{
    vstd::arithmetic::power2::lemma2_to64();
    if value >= 2 {
        lemma_exponent(value / 2);
        lemma_pow2_unfold(exponent(value));
        lemma_pow2_unfold(exponent(value) + 1);
    }
}

/// The first of the cheapest in a range is in it, costs no more than any other
/// and less than those before it.
proof fn lemma_cheapest(values: Seq<u64>, from: nat, to: nat, other: nat)
    requires
        from <= to,
    ensures
        from <= cheapest(values, from, to) <= to,
        from <= other <= to ==> rice_bits_count(values, cheapest(values, from, to))
            <= rice_bits_count(values, other),
        from <= other < cheapest(values, from, to) ==> rice_bits_count(
            values,
            cheapest(values, from, to),
        ) < rice_bits_count(values, other),
    decreases to - from,
{
    if from < to {
        lemma_cheapest(values, from, (to - 1) as nat, other);
    }
}

/// Below the exponent of the mean every further bit saves more than it costs.
proof fn lemma_falling(values: Seq<u64>, estimate: nat, parameter: nat)
    requires
        values.len() > 0,
        total_of(values) >= values.len() * pow2(estimate),
        parameter + 2 <= estimate,
    ensures
        rice_bits_count(values, parameter + 1) < rice_bits_count(values, parameter),
{
    let unit = pow2(parameter);
    let saved = halves(values, parameter);
    let count = values.len();
    lemma_halves_bounds(values, parameter);
    lemma_next_cost(values, parameter);
    lemma_pow2_pos(parameter);
    lemma_pow2_unfold(parameter + 1);
    lemma_pow2_unfold(parameter + 2);
    if parameter + 2 < estimate {
        vstd::arithmetic::power2::lemma_pow2_strictly_increases(parameter + 2, estimate);
    }
    assert(count * pow2(estimate) >= 4 * (unit * count)) by (nonlinear_arith)
        requires
            pow2(estimate) >= 4 * unit,
    ;
    assert(saved > count) by (nonlinear_arith)
        requires
            unit * saved > unit * count,
            unit > 0,
    ;
}

/// Above the exponent of the mean every further bit costs more than it saves.
proof fn lemma_rising(values: Seq<u64>, estimate: nat, parameter: nat)
    requires
        values.len() > 0,
        total_of(values) < values.len() * pow2(estimate + 1),
        estimate < parameter,
    ensures
        rice_bits_count(values, parameter) < rice_bits_count(values, parameter + 1),
{
    let unit = pow2(parameter);
    let saved = halves(values, parameter);
    let count = values.len();
    lemma_halves_bounds(values, parameter);
    lemma_next_cost(values, parameter);
    lemma_pow2_pos(parameter);
    if estimate + 1 < parameter {
        vstd::arithmetic::power2::lemma_pow2_strictly_increases(estimate + 1, parameter);
    }
    assert(count * pow2(estimate + 1) <= unit * count) by (nonlinear_arith)
        requires
            pow2(estimate + 1) <= unit,
    ;
    assert(saved < count) by (nonlinear_arith)
        requires
            unit * saved < unit * count,
            unit > 0,
    ;
}

/// Costs fall all the way to a parameter below the exponent of the mean.
proof fn lemma_costs_fall(values: Seq<u64>, estimate: nat, low: nat, high: nat)
    requires
        values.len() > 0,
        total_of(values) >= values.len() * pow2(estimate),
        low < high < estimate,
    ensures
        rice_bits_count(values, high) < rice_bits_count(values, low),
    decreases high - low,
{
    lemma_falling(values, estimate, (high - 1) as nat);
    if low + 1 < high {
        lemma_costs_fall(values, estimate, low, (high - 1) as nat);
    }
}

/// Costs rise all the way from a parameter above the exponent of the mean.
proof fn lemma_costs_rise(values: Seq<u64>, estimate: nat, low: nat, high: nat)
    requires
        values.len() > 0,
        total_of(values) < values.len() * pow2(estimate + 1),
        estimate < low < high,
    ensures
        rice_bits_count(values, low) < rice_bits_count(values, high),
    decreases high - low,
{
    lemma_rising(values, estimate, (high - 1) as nat);
    if low + 1 < high {
        lemma_costs_rise(values, estimate, low, (high - 1) as nat);
    }
}

/// The parameter chosen for values is the cheapest of all that there are, and the
/// smallest of those that cost the same, though only the neighbours of an estimate
/// are measured. Of values that average more no neighbour is a parameter.
pub proof fn law_rice_parameter_is_cheapest(values: Seq<u64>, other: nat)
    requires
        values.len() > 0 ==> total_of(values) / values.len() < 0x1_0000_0000,
        other <= MAX_PARAMETER,
    ensures
        rice_parameter(values) <= MAX_PARAMETER,
        rice_bits_count(values, rice_parameter(values)) <= rice_bits_count(values, other),
        other < rice_parameter(values) ==> rice_bits_count(values, rice_parameter(values))
            < rice_bits_count(values, other),
{
    if values.len() > 0 {
        let count = values.len();
        let mean = total_of(values) / count;
        let estimate = exponent(mean);
        vstd::arithmetic::power2::lemma2_to64();
        lemma_exponent(mean);
        vstd::arithmetic::div_mod::lemma_fundamental_div_mod(total_of(values) as int, count as int);
        vstd::arithmetic::div_mod::lemma_mod_bound(total_of(values) as int, count as int);
        if estimate >= 32 {
            if estimate > 32 {
                vstd::arithmetic::power2::lemma_pow2_strictly_increases(32, estimate);
            }
            assert(pow2(32) == 0x1_0000_0000);
        }
        let from = if estimate == 0 {
            0
        } else {
            (estimate - 1) as nat
        };
        let to = if estimate + 1 < MAX_PARAMETER {
            estimate + 1
        } else {
            MAX_PARAMETER as nat
        };
        assert(total_of(values) < count * pow2(estimate + 1)) by (nonlinear_arith)
            requires
                total_of(values) < count * mean + count,
                mean + 1 <= pow2(estimate + 1),
        ;
        lemma_cheapest(values, from, to, other);
        if other < from {
            assert(total_of(values) >= count * pow2(estimate)) by (nonlinear_arith)
                requires
                    total_of(values) >= count * mean,
                    mean >= pow2(estimate),
            ;
            lemma_costs_fall(values, estimate, other, from);
            lemma_cheapest(values, from, to, from);
        } else if other > to {
            lemma_costs_rise(values, estimate, to, other);
            lemma_cheapest(values, from, to, to);
        }
    }
}

/// Of the ways to lay out two channels the smallest is taken, and of equally small
/// ones the first of: each by itself, left and side, side and right, mid and side.
pub proof fn law_the_smallest_pairing_is_taken(left: nat, right: nat, mid: nat, side: nat)
    ensures
        ({
            let code = best_pairing(left, right, mid, side);
            let size = if code == 1 {
                left + right
            } else if code == 8 {
                left + side
            } else if code == 9 {
                side + right
            } else {
                mid + side
            };
            &&& code == 1 || code == 8 || code == 9 || code == 10
            &&& size <= left + right && size <= left + side && size <= side + right && size <= mid
                + side
            &&& code > 1 ==> size < left + right
            &&& code > 8 ==> size < left + side
            &&& code > 9 ==> size < side + right
        }),
{
}

/// The rule that is taken costs less than storing the samples as they are, and no
/// more than any other rule; none is taken only where none costs less than that.
pub proof fn law_the_cheapest_rule_is_taken(
    samples: Seq<i64>,
    bits: nat,
    rules: Seq<Rule>,
    count: nat,
    other: int,
)
    requires
        0 <= other < count <= rules.len(),
    ensures
        match best_rule(samples, bits, rules, count) {
            Some(rule) => {
                &&& rule_cost(samples, bits, rule) < 7 + bits * samples.len()
                &&& rule_cost(samples, bits, rule) <= rule_cost(samples, bits, rules[other])
                &&& exists|k: int| 0 <= k < count && #[trigger] rules[k] == rule
            },
            None => rule_cost(samples, bits, rules[other]) >= 7 + bits * samples.len(),
        },
    decreases count,
{
    let less = (count - 1) as nat;
    if less > 0 {
        law_the_cheapest_rule_is_taken(
            samples,
            bits,
            rules,
            less,
            if other < less {
                other
            } else {
                0
            },
        );
    }
    if let Some(rule) = best_rule(samples, bits, rules, count) {
        if rule == rules[count - 1] {
            assert(rules[count - 1] == rule);
        } else {
            assert(best_rule(samples, bits, rules, less) == Some(rule));
            let k = choose|k: int| 0 <= k < less && #[trigger] rules[k] == rule;
            assert(rules[k] == rule);
        }
    }
}

/// The partitions that are taken are possible, and cost no more than any others
/// that are.
pub proof fn law_the_cheapest_split_is_taken(
    values: Seq<u64>,
    block_size: nat,
    order: nat,
    last: nat,
    other: nat,
)
    requires
        other <= last,
        block_size % pow2(other) == 0,
        block_size / pow2(other) >= order,
    ensures
        best_split(values, block_size, order, last) matches Some(taken) && taken <= last
            && block_size % pow2(taken) == 0 && block_size / pow2(taken) >= order && split_cost(
            values,
            block_size,
            order,
            taken,
        ) <= split_cost(values, block_size, order, other),
    decreases last,
{
    if other < last {
        law_the_cheapest_split_is_taken(values, block_size, order, (last - 1) as nat, other);
    } else if last > 0 {
        lemma_split_is_possible(values, block_size, order, (last - 1) as nat);
    }
}

proof fn lemma_split_is_possible(values: Seq<u64>, block_size: nat, order: nat, last: nat)
    ensures
        best_split(values, block_size, order, last) matches Some(taken) ==> taken <= last
            && block_size % pow2(taken) == 0 && block_size / pow2(taken) >= order,
    decreases last,
{
    if last > 0 {
        lemma_split_is_possible(values, block_size, order, (last - 1) as nat);
    }
}

/// As many low bits are dropped as all the samples can spare: every sample is a
/// multiple of that power of two, and not of the next one, unless there are no more
/// bits to drop.
pub proof fn law_as_many_bits_are_dropped_as_can_be(samples: Seq<i64>, bits: nat)
    requires
        bits >= 1,
    ensures
        wasted_of(samples, bits) < bits,
        forall|i: int|
            0 <= i < samples.len() ==> #[trigger] samples[i] as int % (pow2(
                wasted_of(samples, bits),
            ) as int) == 0,
        wasted_of(samples, bits) + 1 < bits ==> exists|i: int|
            0 <= i < samples.len() && #[trigger] samples[i] as int % (pow2(
                wasted_of(samples, bits) + 1,
            ) as int) != 0,
{
    vstd::arithmetic::power2::lemma2_to64();
    assert forall|i: int| 0 <= i < samples.len() implies #[trigger] samples[i] as int % (pow2(
        0,
    ) as int) == 0 by {
        assert(samples[i] as int % 1 == 0);
    }
    lemma_dropped(samples, 0, (bits - 1) as nat);
}

proof fn lemma_dropped(samples: Seq<i64>, from: nat, limit: nat)
    requires
        from <= limit,
        divides(pow2(from), samples),
    ensures
        ({
            let dropped = wasted_from(samples, from, limit);
            &&& dropped <= limit
            &&& divides(pow2(dropped), samples)
            &&& dropped < limit ==> !divides(pow2(dropped + 1), samples)
        }),
    decreases limit - from,
{
    if from < limit && divides(pow2(from + 1), samples) {
        lemma_dropped(samples, from + 1, limit);
    }
}

} // verus!
