//! The order in which a radix-2 transform takes its samples.

use vstd::arithmetic::power2::{lemma_pow2_pos, lemma_pow2_unfold, pow2};
use vstd::prelude::*;

verus! {

/// Direction of a transform.
#[derive(Clone, Copy, Debug, PartialEq, Eq, Structural)]
pub enum Direction {
    /// Time domain to frequency domain.
    Forward,
    /// Frequency domain to time domain, scaled by the length.
    Inverse,
}

/// A position with its binary digits in reverse.
pub open spec fn mirrored(index: nat, bits: nat) -> nat
    decreases bits,
{
    if bits == 0 {
        0
    } else {
        (index % 2) * pow2((bits - 1) as nat) + mirrored(index / 2, (bits - 1) as nat)
    }
}

/// A mirrored position has no more digits than it may.
proof fn lemma_mirrored_bound(index: nat, bits: nat)
    ensures
        mirrored(index, bits) < pow2(bits),
    decreases bits,
{
    lemma_pow2_pos(bits);
    if bits > 0 {
        lemma_mirrored_bound(index / 2, (bits - 1) as nat);
        lemma_pow2_unfold(bits);
        let half = pow2((bits - 1) as nat);
        assert((index % 2) * half <= half) by (nonlinear_arith)
            requires
                index % 2 <= 1,
        ;
    }
}

/// A digit in front becomes the digit behind.
proof fn lemma_front_digit(digit: nat, index: nat, bits: nat)
    requires
        digit <= 1,
        bits > 0,
        index < pow2((bits - 1) as nat),
    ensures
        mirrored(digit * pow2((bits - 1) as nat) + index, bits) == 2 * mirrored(
            index,
            (bits - 1) as nat,
        ) + digit,
    decreases bits,
{
    let half = pow2((bits - 1) as nat);
    let whole = digit * half + index;
    if bits == 1 {
        vstd::arithmetic::power2::lemma2_to64();
        assert(half == 1);
        assert(index == 0);
        assert(whole == digit) by (nonlinear_arith)
            requires
                half == 1,
                index == 0,
                whole == digit * half + index,
        ;
        assert(mirrored(whole / 2, 0) == 0);
        assert((whole % 2) * 1 == digit);
        assert(mirrored(index, 0) == 0);
    } else {
        let quarter = pow2((bits - 2) as nat);
        lemma_pow2_unfold((bits - 1) as nat);
        assert(half == 2 * quarter);
        assert(whole == 2 * (digit * quarter) + index) by (nonlinear_arith)
            requires
                half == 2 * quarter,
                whole == digit * half + index,
        ;
        assert(whole % 2 == index % 2);
        assert(whole / 2 == digit * quarter + index / 2);
        lemma_front_digit(digit, index / 2, (bits - 1) as nat);
        assert((index % 2) * half == 2 * ((index % 2) * quarter)) by (nonlinear_arith)
            requires
                half == 2 * quarter,
        ;
    }
}

/// Mirroring twice leads back.
pub proof fn law_mirroring_is_its_own_inverse(index: nat, bits: nat)
    requires
        index < pow2(bits),
    ensures
        mirrored(index, bits) < pow2(bits),
        mirrored(mirrored(index, bits), bits) == index,
    decreases bits,
{
    lemma_mirrored_bound(index, bits);
    if bits == 0 {
        vstd::arithmetic::power2::lemma2_to64();
    } else {
        let rest = (bits - 1) as nat;
        lemma_pow2_unfold(bits);
        law_mirroring_is_its_own_inverse(index / 2, rest);
        lemma_front_digit(index % 2, mirrored(index / 2, rest), bits);
    }
}

/// A position with its binary digits in reverse.
fn mirror(index: usize, bits: u32) -> (place: usize)
    requires
        pow2(bits as nat) <= usize::MAX,
    ensures
        place == mirrored(index as nat, bits as nat),
{
    let mut place: usize = 0;
    let mut rest: usize = index;
    let mut left: u32 = bits;
    proof {
        lemma_mirrored_bound(index as nat, bits as nat);
        assert(place * pow2(bits as nat) == 0) by (nonlinear_arith)
            requires
                place == 0,
        ;
    }
    while left > 0
        invariant
            left <= bits,
            mirrored(index as nat, bits as nat) == place * pow2(left as nat) + mirrored(
                rest as nat,
                left as nat,
            ),
            mirrored(index as nat, bits as nat) < pow2(bits as nat) <= usize::MAX,
        decreases left,
    {
        proof {
            let half = pow2((left - 1) as nat);
            lemma_pow2_unfold(left as nat);
            lemma_pow2_pos((left - 1) as nat);
            let digit = rest as nat % 2;
            assert(place * (2 * half) + digit * half == (2 * place + digit) * half)
                by (nonlinear_arith);
            assert(2 * place + digit <= (2 * place + digit) * half) by (nonlinear_arith)
                requires
                    half >= 1,
                    digit >= 0,
                    place >= 0,
            ;
        }
        place = 2 * place + rest % 2;
        rest = rest / 2;
        left = left - 1;
    }
    proof {
        vstd::arithmetic::power2::lemma2_to64();
        assert(place * 1 == place);
    }
    place
}

/// Which sample each place of a transform of `2^bits` samples is taken from
/// before the first pass.
pub fn order(bits: u32) -> (places: Vec<usize>)
    requires
        pow2(bits as nat) <= usize::MAX,
    ensures
        places@.len() == pow2(bits as nat),
        forall|i: int| 0 <= i < places@.len() ==> places@[i] == mirrored(i as nat, bits as nat),
{
    let mut length: usize = 1;
    let mut grown: u32 = 0;
    proof {
        vstd::arithmetic::power2::lemma2_to64();
    }
    while grown < bits
        invariant
            grown <= bits,
            length == pow2(grown as nat),
            pow2(bits as nat) <= usize::MAX,
        decreases bits - grown,
    {
        proof {
            lemma_pow2_unfold((grown + 1) as nat);
            if grown + 1 < bits {
                vstd::arithmetic::power2::lemma_pow2_strictly_increases(
                    (grown + 1) as nat,
                    bits as nat,
                );
            }
        }
        length = 2 * length;
        grown = grown + 1;
    }
    let mut places: Vec<usize> = Vec::new();
    while places.len() < length
        invariant
            length == pow2(bits as nat) <= usize::MAX,
            places@.len() <= length,
            forall|i: int|
                0 <= i < places@.len() ==> places@[i] == mirrored(i as nat, bits as nat),
        decreases length - places@.len(),
    {
        let place: usize = mirror(places.len(), bits);
        places.push(place);
    }
    places
}

/// Each binary digit of a position stands as far from the end as it stood from
/// the front.
pub proof fn law_mirroring_turns_digits_round(index: nat, bits: nat, digit: nat)
    requires
        index < pow2(bits),
        digit < bits,
    ensures
        (mirrored(index, bits) / pow2((bits - 1 - digit) as nat)) % 2 == (index / pow2(digit)) % 2,
    decreases bits,
{
    let rest = (bits - 1) as nat;
    let half = pow2(rest) as int;
    let low = mirrored(index / 2, rest) as int;
    let lead = (index % 2) as int;
    lemma_pow2_unfold(bits);
    lemma_pow2_pos(rest);
    lemma_mirrored_bound(index / 2, rest);
    if digit == 0 {
        vstd::arithmetic::power2::lemma2_to64();
        assert((lead * half + low) / half == lead) by (nonlinear_arith)
            requires
                0 <= low < half,
                0 <= lead,
        ;
        assert(index / 1 == index);
    } else {
        let less = (digit - 1) as nat;
        let place = (rest - 1 - less) as nat;
        law_mirroring_turns_digits_round(index / 2, rest, less);
        lemma_pow2_unfold(digit);
        lemma_pow2_pos(less);
        lemma_pow2_pos(place);
        vstd::arithmetic::div_mod::lemma_div_denominator(index as int, 2, pow2(less) as int);
        vstd::arithmetic::power2::lemma_pow2_adds(place, (less + 1) as nat);
        lemma_pow2_unfold((less + 1) as nat);
        let unit = pow2(place) as int;
        let above = lead * pow2(less) as int;
        assert(lead * half == unit * (2 * above)) by (nonlinear_arith)
            requires
                half == unit * (2 * pow2(less) as int),
                above == lead * pow2(less) as int,
        ;
        assert((unit * (2 * above) + low) / unit == 2 * above + low / unit) by {
            vstd::arithmetic::div_mod::lemma_hoist_over_denominator(low, 2 * above, unit as nat);
        }
        assert((2 * above + low / unit) % 2 == (low / unit) % 2);
        assert(bits - 1 - digit == place);
    }
}

} // verus!
