//! Sixty-four-bit arithmetic as the format's samples go through it.

use vstd::arithmetic::div_mod::{lemma_fundamental_div_mod, lemma_fundamental_div_mod_converse};
use vstd::arithmetic::power2::{lemma2_to64, lemma_pow2_pos, lemma_pow2_unfold, pow2};
use vstd::prelude::*;

verus! {

/// A whole number reduced to the sixty-four-bit word that holds it.
pub open spec fn wrap64(value: int) -> i64 {
    let word = value % 0x1_0000_0000_0000_0000;
    if word < 0x8000_0000_0000_0000 {
        word as i64
    } else {
        (word - 0x1_0000_0000_0000_0000) as i64
    }
}

/// A number that fits a word is the word.
pub proof fn lemma_wrap_small(value: int)
    requires
        i64::MIN <= value <= i64::MAX,
    ensures
        wrap64(value) == value,
{
}

/// Reduces a wide number to a word.
pub fn wrap(value: i128) -> (word: i64)
    ensures
        word == wrap64(value as int),
{
    let low: u64 = if value >= 0 {
        (value as u128 % 0x1_0000_0000_0000_0000) as u64
    } else {
        u64::MAX - ((-(value + 1)) as u128 % 0x1_0000_0000_0000_0000) as u64
    };
    if low < 0x8000_0000_0000_0000 {
        low as i64
    } else {
        (low - 0x8000_0000_0000_0000) as i64 + i64::MIN
    }
}

/// Shifting a word down divides it, rounding towards minus infinity.
pub fn shift_down(value: i64, shift: u32) -> (word: i64)
    requires
        shift < 64,
    ensures
        word == value as int / pow2(shift as nat) as int,
{
    proof {
        lemma_shift_down(value, shift as u64);
    }
    value >> (shift as u64)
}

/// Dividing by twice a number is dividing by it and halving.
proof fn lemma_halved_quotient(value: int, unit: int)
    requires
        unit > 0,
    ensures
        value / (2 * unit) == (value / unit) / 2,
{
    let quotient = value / unit;
    let half = quotient / 2;
    let odd = quotient % 2;
    lemma_fundamental_div_mod(value, unit);
    let rest = unit * odd + value % unit;
    assert(value == (2 * unit) * half + rest && 0 <= rest < 2 * unit) by (nonlinear_arith)
        requires
            value == unit * quotient + value % unit,
            0 <= value % unit < unit,
            quotient == 2 * half + odd,
            0 <= odd <= 1,
            rest == unit * odd + value % unit,
    ;
    assert(half * (2 * unit) == (2 * unit) * half) by (nonlinear_arith);
    lemma_fundamental_div_mod_converse(value, 2 * unit, half, rest);
}

proof fn lemma_shift_down(value: i64, shift: u64)
    requires
        shift < 64,
    ensures
        (value >> shift) == value as int / pow2(shift as nat) as int,
    decreases shift,
{
    if shift == 0 {
        assert(value >> 0u64 == value) by (bit_vector);
        lemma2_to64();
        assert(value as int / 1 == value as int);
    } else {
        let less = (shift - 1) as u64;
        lemma_shift_down(value, less);
        assert(value >> shift == (value >> less) >> 1u64) by (bit_vector)
            requires
                0 < shift < 64,
                less == shift - 1,
        ;
        let half = value >> less;
        assert(half == 2 * (half >> 1u64) + (half & 1) && 0 <= (half & 1) <= 1) by (bit_vector);
        assert(half as int / 2 == half >> 1u64);
        lemma_pow2_unfold(shift as nat);
        lemma_pow2_pos(less as nat);
        lemma_halved_quotient(value as int, pow2(less as nat) as int);
    }
}

} // verus!
