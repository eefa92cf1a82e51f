//! Deduplication by subtraction at different positions.
//!
//! Given a stretch of the recording that has not been explained yet and a
//! waveform that was stored earlier, the question is: is there a position and a
//! gain at which subtracting that waveform removes this stretch? A
//! **fingerprint** over the exact bits of the samples finds content that
//! repeats verbatim — a looped bar, a duplicated channel, a copy-pasted note.
//! The match is exact, so the subtraction leaves nothing at all.
//!
//! Waveforms are held here as the bits of their samples in double precision.

use vstd::prelude::*;

verus! {

/// The bits of negative zero.
pub const NEGATIVE_ZERO: u64 = 0x8000_0000_0000_0000;

/// The bits of positive infinity. Greater ones, the sign aside, are not a
/// number.
pub const INFINITE: u64 = 0x7FF0_0000_0000_0000;

/// Where a fingerprint starts.
pub const FINGERPRINT_BASIS: u64 = 0xcbf2_9ce4_8422_2325;

/// What a fingerprint is multiplied by at every step.
pub const FINGERPRINT_PRIME: u64 = 0x0000_0100_0000_01b3;

/// The bits of a sample, negative zero counting as zero.
pub open spec fn level(bits: u64) -> u64 {
    if bits == NEGATIVE_ZERO {
        0
    } else {
        bits
    }
}

/// Whether bits are not a number.
pub open spec fn is_nan(bits: u64) -> bool {
    (bits & 0x7FFF_FFFF_FFFF_FFFF) > INFINITE
}

/// One step of a fingerprint.
pub open spec fn stirred(hash: u64, bits: u64) -> u64 {
    (hash ^ bits).wrapping_mul(FINGERPRINT_PRIME)
}

/// The fingerprint of a waveform: of its length, then of its samples in order.
pub open spec fn fingerprint_of(samples: Seq<u64>, length: nat) -> u64
    decreases samples.len(),
{
    if samples.len() == 0 {
        stirred(FINGERPRINT_BASIS, length as u64)
    } else {
        stirred(fingerprint_of(samples.drop_last(), length), level(samples.last()))
    }
}

/// Whether two samples are the same number.
pub open spec fn same_sample(first: u64, second: u64) -> bool {
    level(first) == level(second) && !is_nan(first)
}

/// Whether two waveforms are equal sample for sample.
pub open spec fn same_waveform(first: Seq<u64>, second: Seq<u64>) -> bool {
    &&& first.len() == second.len()
    &&& forall|i: int| 0 <= i < first.len() ==> same_sample(#[trigger] first[i], second[i])
}

/// A hash over the exact bits of a waveform.
///
/// Two waveforms with the same fingerprint are equal sample for sample with
/// overwhelming probability, and the caller confirms it before reusing one, so
/// a collision costs a comparison rather than correctness.
pub fn fingerprint(samples: &[u64]) -> (hash: u64)
    ensures
        hash == fingerprint_of(samples@, samples@.len()),
{
    let length: usize = samples.len();
    let mut hash: u64 = (FINGERPRINT_BASIS ^ length as u64).wrapping_mul(FINGERPRINT_PRIME);
    let mut index: usize = 0;
    assert(samples@.take(0) =~= Seq::<u64>::empty());
    while index < length
        invariant
            length == samples@.len(),
            index <= length,
            hash == fingerprint_of(samples@.take(index as int), samples@.len()),
        decreases length - index,
    {
        // Normalising negative zero keeps the fingerprint agnostic to a
        // difference the arithmetic itself ignores.
        let bits: u64 = if samples[index] == NEGATIVE_ZERO {
            0
        } else {
            samples[index]
        };
        assert(samples@.take(index + 1).drop_last() =~= samples@.take(index as int));
        hash = (hash ^ bits).wrapping_mul(FINGERPRINT_PRIME);
        index = index + 1;
    }
    assert(samples@.take(index as int) =~= samples@);
    hash
}

/// Waveforms that are equal sample for sample have one fingerprint.
pub proof fn law_equal_waveforms_share_a_fingerprint(first: Seq<u64>, second: Seq<u64>)
    requires
        same_waveform(first, second),
    ensures
        fingerprint_of(first, first.len()) == fingerprint_of(second, second.len()),
{
    lemma_fingerprints(first, second, first.len());
}

/// Equal samples have one fingerprint, whatever the length it starts from.
proof fn lemma_fingerprints(first: Seq<u64>, second: Seq<u64>, length: nat)
    requires
        same_waveform(first, second),
    ensures
        fingerprint_of(first, length) == fingerprint_of(second, length),
    decreases first.len(),
{
    if first.len() > 0 {
        let front = first.drop_last();
        let other = second.drop_last();
        assert forall|i: int| 0 <= i < front.len() implies same_sample(
            #[trigger] front[i],
            other[i],
        ) by {
            assert(same_sample(first[i], second[i]));
        }
        lemma_fingerprints(front, other, length);
        assert(same_sample(first[first.len() - 1], second[second.len() - 1]));
    }
}

/// Whether two waveforms are equal sample for sample.
pub fn equal_waveforms(first: &[u64], second: &[u64]) -> (equal: bool)
    ensures
        equal == same_waveform(first@, second@),
{
    let length: usize = first.len();
    if length != second.len() {
        return false;
    }
    let mut index: usize = 0;
    while index < length
        invariant
            length == first@.len(),
            length == second@.len(),
            index <= length,
            forall|i: int| 0 <= i < index ==> same_sample(#[trigger] first@[i], second@[i]),
        decreases length - index,
    {
        let one: u64 = if first[index] == NEGATIVE_ZERO {
            0
        } else {
            first[index]
        };
        let other: u64 = if second[index] == NEGATIVE_ZERO {
            0
        } else {
            second[index]
        };
        if one != other || (first[index] & 0x7FFF_FFFF_FFFF_FFFF) > INFINITE {
            assert(!same_sample(first@[index as int], second@[index as int]));
            return false;
        }
        index = index + 1;
    }
    true
}

/// Reads a signal at a position that may lie outside it.
pub fn sample_at(signal: &[u64], position: i64) -> (bits: u64)
    ensures
        bits == (if 0 <= position < signal@.len() {
            signal@[position as int]
        } else {
            0
        }),
{
    let length: usize = signal.len();
    if position < 0 || position as u64 >= length as u64 {
        0
    } else {
        signal[position as usize]
    }
}

/// Multiplying by the prime loses nothing.
proof fn lemma_prime_is_reversible(first: int, second: int)
    requires
        0 <= first < 0x1_0000_0000_0000_0000,
        0 <= second < 0x1_0000_0000_0000_0000,
        (first * FINGERPRINT_PRIME) % 0x1_0000_0000_0000_0000 == (second * FINGERPRINT_PRIME)
            % 0x1_0000_0000_0000_0000,
    ensures
        first == second,
{
    lemma_undone(first);
    lemma_undone(second);
}

/// The prime has an inverse among the words.
proof fn lemma_undone(word: int)
    requires
        0 <= word < 0x1_0000_0000_0000_0000,
    ensures
        (((word * FINGERPRINT_PRIME) % 0x1_0000_0000_0000_0000) * 0xce96_5057_aff6_957b)
            % 0x1_0000_0000_0000_0000 == word,
{
    let turn = 0x1_0000_0000_0000_0000int;
    let inverse = 0xce96_5057_aff6_957bint;
    let prime = FINGERPRINT_PRIME as int;
    let over = 0xce_9650_590fint;
    assert(prime * inverse == over * turn + 1);
    vstd::arithmetic::div_mod::lemma_mul_mod_noop_left(word * prime, inverse, turn);
    assert((word * prime) * inverse == turn * (word * over) + word) by (nonlinear_arith)
        requires
            prime * inverse == over * turn + 1,
    ;
    vstd::arithmetic::div_mod::lemma_mod_multiples_vanish(word * over, word, turn);
    vstd::arithmetic::div_mod::lemma_small_mod(word as nat, turn as nat);
}

/// Waveforms that differ in their last sample alone have different fingerprints.
pub proof fn law_fingerprints_tell_samples_apart(
    front: Seq<u64>,
    first: u64,
    second: u64,
    length: nat,
)
    requires
        first != second,
        first != NEGATIVE_ZERO || second != 0,
        first != 0 || second != NEGATIVE_ZERO,
    ensures
        fingerprint_of(front.push(first), length) != fingerprint_of(front.push(second), length),
{
    let hash = fingerprint_of(front, length);
    assert(front.push(first).drop_last() =~= front);
    assert(front.push(second).drop_last() =~= front);
    let one = level(first);
    let other = level(second);
    assert(hash ^ one != hash ^ other) by (bit_vector)
        requires
            one != other,
    ;
    if stirred(hash, one) == stirred(hash, other) {
        lemma_prime_is_reversible((hash ^ one) as int, (hash ^ other) as int);
    }
}

} // verus!
