//! What the checksums of a stream are good for: bytes followed by their own
//! checksum sum to zero, and checksums go along with exclusive or.

use vstd::prelude::*;

use super::bits::{crc16_of, crc16_shift, crc16_shifts, crc8_of, crc8_shift, crc8_shifts};

verus! {

/// Two runs of bytes combined byte by byte with exclusive or.
pub open spec fn mingled(first: Seq<u8>, second: Seq<u8>) -> Seq<u8> {
    Seq::new(first.len(), |i: int| first[i] ^ second[i])
}

/// A sixteen-bit number as two bytes, the higher first.
pub open spec fn be_pair(value: u16) -> Seq<u8> {
    seq![(value >> 8) as u8, (value & 0xFF) as u8]
}

/// Shifting goes along with exclusive or.
proof fn lemma_shifts16_mingle(first: u16, second: u16, count: nat)
    ensures
        crc16_shifts(first ^ second, count) == crc16_shifts(first, count) ^ crc16_shifts(
            second,
            count,
        ),
    decreases count,
{
    if count > 0 {
        lemma_shifts16_mingle(first, second, (count - 1) as nat);
        let a = crc16_shifts(first, (count - 1) as nat);
        let b = crc16_shifts(second, (count - 1) as nat);
        assert(crc16_shift(a ^ b) == crc16_shift(a) ^ crc16_shift(b)) by (bit_vector);
    }
}

/// Shifting goes along with exclusive or.
proof fn lemma_shifts8_mingle(first: u8, second: u8, count: nat)
    ensures
        crc8_shifts(first ^ second, count) == crc8_shifts(first, count) ^ crc8_shifts(
            second,
            count,
        ),
    decreases count,
{
    if count > 0 {
        lemma_shifts8_mingle(first, second, (count - 1) as nat);
        let a = crc8_shifts(first, (count - 1) as nat);
        let b = crc8_shifts(second, (count - 1) as nat);
        assert(crc8_shift(a ^ b) == crc8_shift(a) ^ crc8_shift(b)) by (bit_vector);
    }
}

/// Checksums go along with exclusive or: that of two runs of one length combined
/// is the two checksums combined.
pub proof fn law_checksums_mingle(first: Seq<u8>, second: Seq<u8>)
    requires
        first.len() == second.len(),
    ensures
        crc16_of(mingled(first, second)) == crc16_of(first) ^ crc16_of(second),
        crc8_of(mingled(first, second)) == crc8_of(first) ^ crc8_of(second),
    decreases first.len(),
{
    if first.len() == 0 {
        assert(0u16 ^ 0u16 == 0u16) by (bit_vector);
        assert(0u8 ^ 0u8 == 0u8) by (bit_vector);
    } else {
        law_checksums_mingle(first.drop_last(), second.drop_last());
        let both = mingled(first, second);
        assert(both.drop_last() =~= mingled(first.drop_last(), second.drop_last()));
        let x = first.last();
        let y = second.last();
        let a = crc16_of(first.drop_last());
        let b = crc16_of(second.drop_last());
        assert((a ^ b) ^ (((x ^ y) as u16) << 8) == (a ^ ((x as u16) << 8)) ^ (b ^ ((y as u16)
            << 8))) by (bit_vector);
        lemma_shifts16_mingle(a ^ ((x as u16) << 8), b ^ ((y as u16) << 8), 8);
        let c = crc8_of(first.drop_last());
        let d = crc8_of(second.drop_last());
        assert((c ^ d) ^ (x ^ y) == (c ^ x) ^ (d ^ y)) by (bit_vector);
        lemma_shifts8_mingle(c ^ x, d ^ y, 8);
    }
}

/// A small number is shifted up without being reduced.
proof fn lemma_small_shifts(value: u16, count: u16)
    requires
        value < 0x100,
        count <= 8,
    ensures
        crc16_shifts(value, count as nat) == value << count,
    decreases count,
{
    if count == 0 {
        assert(value << 0u16 == value) by (bit_vector);
    } else {
        let less = (count - 1) as u16;
        lemma_small_shifts(value, less);
        assert((value << less) & 0x8000 == 0 && (value << less) << 1 == value << count)
            by (bit_vector)
            requires
                value < 0x100,
                less < 8,
                count == less + 1,
        ;
        assert(crc16_shift(value << less) == (value << less) << 1);
    }
}

/// Nothing is shifted to nothing.
proof fn lemma_zero_shifts(count: nat)
    ensures
        crc8_shifts(0, count) == 0,
    decreases count,
{
    if count > 0 {
        lemma_zero_shifts((count - 1) as nat);
        assert(crc8_shift(0) == 0) by (bit_vector);
    }
}

/// A message followed by its own checksum, the higher byte first, sums to zero.
pub proof fn law_sealed_messages_sum_to_zero(message: Seq<u8>)
    ensures
        crc16_of(message + be_pair(crc16_of(message))) == 0,
        crc8_of(message.push(crc8_of(message))) == 0,
{
    let sum = crc16_of(message);
    let high = (sum >> 8) as u8;
    let low = (sum & 0xFF) as u8;
    let whole = message + be_pair(sum);
    let part = whole.drop_last();
    assert(part.drop_last() =~= message);
    assert(part.last() == high);
    assert(whole.last() == low);
    let rest = sum ^ ((high as u16) << 8);
    assert(rest == sum & 0xFF && rest < 0x100) by (bit_vector)
        requires
            high == (sum >> 8) as u8,
            rest == sum ^ ((high as u16) << 8),
    ;
    lemma_small_shifts(rest, 8);
    assert((rest << 8) ^ ((low as u16) << 8) == 0) by (bit_vector)
        requires
            low == (sum & 0xFF) as u8,
            rest == sum & 0xFF,
    ;
    lemma_small_shifts(0, 8);
    assert(0u16 << 8u16 == 0u16) by (bit_vector);
    assert(crc16_of(part) == rest << 8);
    let short = crc8_of(message);
    assert(message.push(short).drop_last() =~= message);
    assert(short ^ short == 0) by (bit_vector);
    lemma_zero_shifts(8);
}

/// Silence, so many bytes of it.
pub open spec fn zeros(count: nat) -> Seq<u8> {
    Seq::new(count, |i: int| 0u8)
}

/// Zero bytes before a message change neither checksum.
proof fn lemma_zeros_before(count: nat, message: Seq<u8>)
    ensures
        crc16_of(zeros(count) + message) == crc16_of(message),
        crc8_of(zeros(count) + message) == crc8_of(message),
    decreases count + message.len(),
{
    let whole = zeros(count) + message;
    if message.len() > 0 {
        lemma_zeros_before(count, message.drop_last());
        assert(whole.drop_last() =~= zeros(count) + message.drop_last());
    } else if count > 0 {
        let less = (count - 1) as nat;
        lemma_zeros_before(less, message);
        assert(whole.drop_last() =~= zeros(less) + message);
        assert(whole.last() == 0);
        lemma_zero_shifts(8);
        lemma_small_shifts(0, 8);
        assert(0u16 << 8u16 == 0u16 && 0u16 ^ 0u16 == 0u16 && 0u8 ^ 0u8 == 0u8) by (bit_vector);
    } else {
        assert(whole =~= message);
    }
}

/// Zero bytes behind a message that sums to zero change nothing.
proof fn lemma_zeros_behind(message: Seq<u8>, count: nat)
    ensures
        crc16_of(message) == 0 ==> crc16_of(message + zeros(count)) == 0,
        crc8_of(message) == 0 ==> crc8_of(message + zeros(count)) == 0,
    decreases count,
{
    let whole = message + zeros(count);
    if count > 0 {
        let less = (count - 1) as nat;
        lemma_zeros_behind(message, less);
        assert(whole.drop_last() =~= message + zeros(less));
        assert(whole.last() == 0);
        lemma_zero_shifts(8);
        lemma_small_shifts(0, 8);
        assert(0u16 << 8u16 == 0u16 && 0u16 ^ 0u16 == 0u16 && 0u8 ^ 0u8 == 0u8) by (bit_vector);
    } else {
        assert(whole =~= message);
    }
}

/// The checksums are remainders: the one of sixteen bits by the polynomial
/// `x^16 + x^15 + x^2 + 1`, the one of eight by `x^8 + x^2 + x + 1`. A message that
/// holds the polynomial itself, wherever it stands, sums to zero.
pub proof fn law_multiples_of_the_polynomial_sum_to_zero(before: nat, after: nat)
    ensures
        crc16_of(zeros(before) + seq![0x01u8, 0x80, 0x05] + zeros(after)) == 0,
        crc8_of(zeros(before) + seq![0x01u8, 0x07] + zeros(after)) == 0,
{
    let wide = seq![0x01u8, 0x80, 0x05];
    let narrow = seq![0x01u8, 0x07];
    assert(crc16_shift(
        crc16_shift(
            crc16_shift(
                crc16_shift(crc16_shift(crc16_shift(crc16_shift(crc16_shift(0x100u16))))),
            ),
        ),
    ) == 0x8005u16) by (bit_vector);
    assert(crc8_shift(
        crc8_shift(
            crc8_shift(crc8_shift(crc8_shift(crc8_shift(crc8_shift(crc8_shift(1u8)))))),
        ),
    ) == 7u8) by (bit_vector);
    assert(crc16_shifts(0x100u16, 8) == 0x8005u16) by {
        reveal_with_fuel(crc16_shifts, 9);
    }
    assert(crc8_shifts(1u8, 8) == 7u8) by {
        reveal_with_fuel(crc8_shifts, 9);
    }
    assert(1u16 << 8u16 == 0x100u16 && 0x80u16 << 8u16 == 0x8000u16 && 5u16 << 8u16 == 0x500u16
        && 0u16 ^ 0x100u16 == 0x100u16 && 0x8005u16 ^ 0x8000u16 == 5u16 && 0x500u16 ^ 0x500u16
        == 0u16 && 0u8 ^ 1u8 == 1u8 && 7u8 ^ 7u8 == 0u8 && 0u16 << 8u16 == 0u16) by (bit_vector);
    lemma_small_shifts(5, 8);
    lemma_small_shifts(0, 8);
    lemma_zero_shifts(8);
    assert(wide.drop_last() =~= seq![0x01u8, 0x80]);
    assert(wide.drop_last().drop_last() =~= seq![0x01u8]);
    assert(wide.drop_last().drop_last().drop_last() =~= Seq::<u8>::empty());
    assert(crc16_of(wide.drop_last().drop_last().drop_last()) == 0);
    assert(crc16_of(wide.drop_last().drop_last()) == 0x8005);
    assert(crc16_of(wide.drop_last()) == 0x500);
    assert(crc16_of(wide) == 0);
    assert(narrow.drop_last() =~= seq![0x01u8]);
    assert(narrow.drop_last().drop_last() =~= Seq::<u8>::empty());
    assert(crc8_of(narrow.drop_last().drop_last()) == 0);
    assert(crc8_of(narrow.drop_last()) == 7);
    assert(crc8_of(narrow) == 0);
    lemma_zeros_before(before, wide);
    lemma_zeros_before(before, narrow);
    lemma_zeros_behind(zeros(before) + wide, after);
    lemma_zeros_behind(zeros(before) + narrow, after);
}

} // verus!
