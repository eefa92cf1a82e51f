//! Most-significant-bit-first bit I/O, and the two checksums a FLAC stream
//! carries.
//!
//! A stream is a sequence of bits. Every reading function is described by the
//! bits it takes off the front of what is left, and every writing function by
//! the bits it appends, so that a writer and a reader of the same value meet in
//! one sequence.

use vstd::arithmetic::div_mod::{
    lemma_div_denominator, lemma_fundamental_div_mod_converse, lemma_mod_breakdown, lemma_small_mod,
};
use vstd::arithmetic::power2::{
    lemma2_to64, lemma2_to64_rest, lemma_pow2_adds, lemma_pow2_pos, lemma_pow2_strictly_increases,
    lemma_pow2_unfold, pow2,
};
use vstd::bits::{lemma_u64_low_bits_mask_is_mod, lemma_u64_shl_is_mul, lemma_u64_shr_is_div};
use vstd::prelude::*;

use crate::error::{format_error, Error, Fault};

verus! {

/// The low `count` bits of a number, most significant first.
pub open spec fn bits_of(value: nat, count: nat) -> Seq<bool>
    decreases count,
{
    if count == 0 {
        Seq::empty()
    } else {
        bits_of(value / 2, (count - 1) as nat).push(value % 2 == 1)
    }
}

/// The number a run of bits spells, most significant first.
pub open spec fn value_of(bits: Seq<bool>) -> nat
    decreases bits.len(),
{
    if bits.len() == 0 {
        0
    } else {
        2 * value_of(bits.drop_last()) + if bits.last() { 1nat } else { 0nat }
    }
}

/// The bits of a run of bytes.
pub open spec fn bytes_bits(bytes: Seq<u8>) -> Seq<bool>
    decreases bytes.len(),
{
    if bytes.len() == 0 {
        Seq::empty()
    } else {
        bytes_bits(bytes.drop_last()) + bits_of(bytes.last() as nat, 8)
    }
}

pub proof fn lemma_bits_len(value: nat, count: nat)
    ensures
        bits_of(value, count).len() == count,
    decreases count,
{
    if count > 0 {
        lemma_bits_len(value / 2, (count - 1) as nat);
    }
}

pub proof fn lemma_value_bound(bits: Seq<bool>)
    ensures
        value_of(bits) < pow2(bits.len()),
    decreases bits.len(),
{
    if bits.len() == 0 {
        lemma2_to64();
    } else {
        lemma_value_bound(bits.drop_last());
        lemma_pow2_unfold(bits.len());
    }
}

/// Halving a number and taking remainders commute with dropping its last bit.
proof fn lemma_mod_halves(value: nat, count: nat)
    requires
        count > 0,
    ensures
        value % pow2(count) == 2 * ((value / 2) % pow2((count - 1) as nat)) + value % 2,
{
    let half = pow2((count - 1) as nat) as int;
    lemma_pow2_unfold(count);
    lemma_pow2_pos((count - 1) as nat);
    lemma_mod_breakdown(value as int, 2, half);
}

pub proof fn lemma_value_of_bits(value: nat, count: nat)
    ensures
        value_of(bits_of(value, count)) == value % pow2(count),
    decreases count,
{
    lemma_bits_len(value, count);
    if count == 0 {
        lemma2_to64();
    } else {
        lemma_value_of_bits(value / 2, (count - 1) as nat);
        lemma_mod_halves(value, count);
        assert(bits_of(value, count).drop_last() =~= bits_of(value / 2, (count - 1) as nat));
    }
}

pub proof fn lemma_bits_of_value(bits: Seq<bool>)
    ensures
        bits_of(value_of(bits), bits.len()) == bits,
    decreases bits.len(),
{
    if bits.len() == 0 {
        assert(bits_of(value_of(bits), bits.len()) =~= bits);
    } else {
        lemma_bits_of_value(bits.drop_last());
        assert(bits_of(value_of(bits), bits.len()) =~= bits);
    }
}

/// Only the low bits of a number count.
pub proof fn lemma_bits_mod(value: nat, count: nat)
    ensures
        bits_of(value % pow2(count), count) == bits_of(value, count),
{
    lemma_value_of_bits(value, count);
    lemma_bits_len(value, count);
    lemma_bits_of_value(bits_of(value, count));
}

/// A number's bits are its high bits followed by its low bits.
pub proof fn lemma_bits_split(value: nat, high: nat, low: nat)
    ensures
        bits_of(value, high + low) == bits_of(value / pow2(low), high) + bits_of(value, low),
    decreases low,
{
    lemma_bits_len(value / pow2(low), high);
    if low == 0 {
        lemma2_to64();
        assert(bits_of(value, high + low) =~= bits_of(value / pow2(low), high) + bits_of(value, low));
    } else {
        lemma_bits_split(value / 2, high, (low - 1) as nat);
        lemma_pow2_unfold(low);
        lemma_pow2_pos((low - 1) as nat);
        lemma_div_denominator(value as int, 2, pow2((low - 1) as nat) as int);
        assert(bits_of(value, high + low) =~= bits_of(value / pow2(low), high) + bits_of(value, low));
    }
}

pub proof fn lemma_value_concat(high: Seq<bool>, low: Seq<bool>)
    ensures
        value_of(high + low) == value_of(high) * pow2(low.len()) + value_of(low),
    decreases low.len(),
{
    if low.len() == 0 {
        lemma2_to64();
        assert(high + low =~= high);
    } else {
        lemma_value_concat(high, low.drop_last());
        lemma_pow2_unfold(low.len());
        assert((high + low).drop_last() =~= high + low.drop_last());
        assert(value_of(high) * pow2(low.len()) == 2 * (value_of(high) * pow2((low.len() - 1) as nat))) by (nonlinear_arith)
            requires
                pow2(low.len()) == 2 * pow2((low.len() - 1) as nat),
        ;
    }
}

pub proof fn lemma_bytes_bits_len(bytes: Seq<u8>)
    ensures
        bytes_bits(bytes).len() == 8 * bytes.len(),
    decreases bytes.len(),
{
    if bytes.len() > 0 {
        lemma_bytes_bits_len(bytes.drop_last());
        lemma_bits_len(bytes.last() as nat, 8);
    }
}

pub proof fn lemma_bytes_bits_concat(first: Seq<u8>, second: Seq<u8>)
    ensures
        bytes_bits(first + second) == bytes_bits(first) + bytes_bits(second),
    decreases second.len(),
{
    if second.len() == 0 {
        assert(first + second =~= first);
        assert(bytes_bits(first) + bytes_bits(second) =~= bytes_bits(first));
    } else {
        lemma_bytes_bits_concat(first, second.drop_last());
        assert((first + second).drop_last() =~= first + second.drop_last());
        assert(bytes_bits(first + second) =~= bytes_bits(first) + bytes_bits(second));
    }
}

/// The bits of one byte stand at eight times its index.
pub proof fn lemma_bytes_bits_at(bytes: Seq<u8>, index: int)
    requires
        0 <= index < bytes.len(),
    ensures
        bytes_bits(bytes).len() == 8 * bytes.len(),
        bytes_bits(bytes).subrange(8 * index, 8 * index + 8) == bits_of(bytes[index] as nat, 8),
{
    let before = bytes.take(index);
    let after = bytes.skip(index + 1);
    let one = seq![bytes[index]];
    assert(bytes =~= before + one + after);
    lemma_bytes_bits_concat(before + one, after);
    lemma_bytes_bits_concat(before, one);
    lemma_bytes_bits_len(before);
    lemma_bytes_bits_len(after);
    lemma_bytes_bits_len(bytes);
    lemma_bits_len(bytes[index] as nat, 8);
    assert(one.drop_last() =~= Seq::<u8>::empty());
    assert(bytes_bits(one) =~= bits_of(bytes[index] as nat, 8)) by {
        assert(bytes_bits(one.drop_last()) =~= Seq::<bool>::empty());
    }
    assert(bytes_bits(bytes).subrange(8 * index, 8 * index + 8) =~= bits_of(bytes[index] as nat, 8));
}

/// A number that fits keeps its value through its bits.
pub proof fn lemma_value_of_small(value: nat, count: nat)
    requires
        value < pow2(count),
    ensures
        value_of(bits_of(value, count)) == value,
{
    lemma_value_of_bits(value, count);
    lemma_small_mod(value, pow2(count));
}

/// One bit of a number, counted from the most significant end.
pub proof fn lemma_bits_index(value: nat, count: nat, index: int)
    requires
        0 <= index < count,
    ensures
        bits_of(value, count).len() == count,
        bits_of(value, count)[index] == ((value / pow2((count - 1 - index) as nat)) % 2 == 1),
    decreases count,
{
    lemma_bits_len(value, count);
    lemma_bits_len(value / 2, (count - 1) as nat);
    let rest = (count - 1 - index) as nat;
    if index == count - 1 {
        lemma2_to64();
        assert(rest == 0nat);
        assert(value / 1 == value);
    } else {
        lemma_bits_index(value / 2, (count - 1) as nat, index);
        assert((count - 1 - 1 - index) as nat == (rest - 1) as nat);
        lemma_pow2_unfold(rest);
        lemma_pow2_pos((rest - 1) as nat);
        lemma_div_denominator(value as int, 2, pow2((rest - 1) as nat) as int);
    }
}

/// A run of bits that spells zero holds no one.
pub proof fn lemma_value_zero(bits: Seq<bool>)
    ensures
        value_of(bits) == 0 <==> (forall|i: int| 0 <= i < bits.len() ==> !bits[i]),
    decreases bits.len(),
{
    if bits.len() > 0 {
        lemma_value_zero(bits.drop_last());
        if value_of(bits) == 0 {
            assert forall|i: int| 0 <= i < bits.len() implies !bits[i] by {
                if i < bits.len() - 1 {
                    assert(!bits.drop_last()[i]);
                }
            }
        }
        if forall|i: int| 0 <= i < bits.len() ==> !bits[i] {
            assert(forall|i: int| 0 <= i < bits.len() - 1 ==> !bits.drop_last()[i]);
            assert(!bits[bits.len() - 1]);
        }
    }
}

/// A stretch of one byte's bits is a slice of the number it holds.
pub proof fn lemma_byte_chunk(byte: nat, offset: nat, take: nat)
    requires
        offset + take <= 8,
    ensures
        bits_of(byte, 8).len() == 8,
        value_of(bits_of(byte, 8).subrange(offset as int, (offset + take) as int)) == (byte / pow2(
            (8 - offset - take) as nat,
        )) % pow2(take),
{
    let below = (8 - offset - take) as nat;
    lemma_bits_len(byte, 8);
    lemma_bits_split(byte, offset + take, below);
    lemma_bits_split(byte / pow2(below), offset, take);
    lemma_bits_len(byte / pow2(below), offset + take);
    lemma_bits_len(byte / pow2(below), take);
    lemma_bits_len((byte / pow2(below)) / pow2(take), offset);
    lemma_value_of_bits(byte / pow2(below), take);
    assert(bits_of(byte, 8).subrange(offset as int, (offset + take) as int) =~= bits_of(
        byte / pow2(below),
        take,
    ));
}

/// Every power of two below the sixty-fourth fits a word.
pub proof fn lemma_pow2_word(count: nat)
    requires
        count < 64,
    ensures
        0 < pow2(count) <= 0x8000_0000_0000_0000,
        (1u64 << (count as u64)) == pow2(count),
{
    lemma_pow2_pos(count);
    lemma2_to64_rest();
    if count < 63 {
        lemma_pow2_strictly_increases(count, 63);
    }
    lemma_u64_shl_is_mul(1, count as u64);
}

/// The stream ran out before the value it was asked for.
pub open spec fn ended() -> Fault {
    Fault::Format("FLAC stream ended in the middle of a value"@)
}

/// Reading `count` bits at `at` as an unsigned number.
pub open spec fn read_unsigned(stream: Seq<bool>, at: nat, count: nat) -> Result<(nat, nat), Fault> {
    if at + count <= stream.len() {
        Ok((value_of(stream.subrange(at as int, (at + count) as int)), at + count))
    } else {
        Err(ended())
    }
}

/// The number a run of bits spells in two's complement.
pub open spec fn signed_value(bits: Seq<bool>) -> int {
    if bits.len() > 0 && bits[0] {
        value_of(bits) - pow2(bits.len())
    } else {
        value_of(bits) as int
    }
}

/// Reading `count` bits at `at` as a two's-complement number.
pub open spec fn read_signed(stream: Seq<bool>, at: nat, count: nat) -> Result<(int, nat), Fault> {
    if at + count <= stream.len() {
        Ok((signed_value(stream.subrange(at as int, (at + count) as int)), at + count))
    } else {
        Err(ended())
    }
}

/// How many zero bits stand at `at` before the next one bit, or before the end.
pub open spec fn zeros_at(stream: Seq<bool>, at: nat) -> nat
    decreases stream.len() - at,
{
    if at >= stream.len() || stream[at as int] {
        0
    } else {
        1 + zeros_at(stream, at + 1)
    }
}

/// The longest run of zero bytes a unary value may lead with, in bits.
pub const UNARY_LIMIT: u32 = 0x10_0000;

/// Reading a unary number at `at`. A run of zeros is given up on at the first
/// byte boundary that lies more than [`UNARY_LIMIT`] bits behind `at`.
pub open spec fn read_unary(stream: Seq<bool>, at: nat) -> Result<(nat, nat), Fault> {
    let zeros = zeros_at(stream, at);
    if (at + zeros) / 8 * 8 - at > UNARY_LIMIT {
        Err(Fault::Format("FLAC unary value is implausibly long"@))
    } else if at + zeros < stream.len() {
        Ok((zeros, at + zeros + 1))
    } else {
        Err(ended())
    }
}

/// Where a reader stands that could not read a unary number at `at`: at the byte
/// boundary it gave up at, or at the end.
pub open spec fn unary_stop(stream: Seq<bool>, at: nat) -> nat {
    if (at + zeros_at(stream, at)) / 8 * 8 - at > UNARY_LIMIT {
        (at + UNARY_LIMIT as nat) / 8 * 8 + 8
    } else {
        stream.len()
    }
}

/// How many bytes follow the first byte of an extended UTF-8 number.
pub open spec fn utf8_followers(first: nat) -> Option<nat> {
    if first < 0x80 {
        Some(0)
    } else if first < 0xC0 {
        None
    } else if first < 0xE0 {
        Some(1)
    } else if first < 0xF0 {
        Some(2)
    } else if first < 0xF8 {
        Some(3)
    } else if first < 0xFC {
        Some(4)
    } else if first < 0xFE {
        Some(5)
    } else if first < 0xFF {
        Some(6)
    } else {
        None
    }
}

/// Reading the following bytes of an extended UTF-8 number.
pub open spec fn read_utf8_tail(stream: Seq<bool>, at: nat, count: nat, value: nat) -> Result<
    (nat, nat),
    Fault,
>
    decreases count,
{
    if count == 0 {
        Ok((value, at))
    } else {
        match read_unsigned(stream, at, 8) {
            Err(fault) => Err(fault),
            Ok((byte, next)) => if byte / 64 != 2 {
                Err(Fault::Format("FLAC frame number has a malformed byte"@))
            } else {
                read_utf8_tail(stream, next, (count - 1) as nat, value * 64 + byte % 64)
            },
        }
    }
}

/// Reading an extended UTF-8 number at `at`.
pub open spec fn read_utf8_number(stream: Seq<bool>, at: nat) -> Result<(nat, nat), Fault> {
    match read_unsigned(stream, at, 8) {
        Err(fault) => Err(fault),
        Ok((first, next)) => match utf8_followers(first) {
            None => Err(Fault::Format("FLAC frame number has a malformed first byte"@)),
            Some(count) => if count == 0 {
                Ok((first, next))
            } else {
                read_utf8_tail(stream, next, count, first % pow2((6 - count) as nat))
            },
        },
    }
}

/// Where a reader stands that could not read the following bytes of an extended
/// UTF-8 number: behind a malformed byte, or before one that is cut short.
pub open spec fn utf8_tail_stop(stream: Seq<bool>, at: nat, count: nat) -> nat
    decreases count,
{
    if count == 0 {
        at
    } else {
        match read_unsigned(stream, at, 8) {
            Err(_) => at,
            Ok((byte, next)) => if byte / 64 != 2 {
                next
            } else {
                utf8_tail_stop(stream, next, (count - 1) as nat)
            },
        }
    }
}

/// Where a reader stands that could not read an extended UTF-8 number at `at`.
pub open spec fn utf8_stop(stream: Seq<bool>, at: nat) -> nat {
    match read_unsigned(stream, at, 8) {
        Err(_) => at,
        Ok((first, next)) => match utf8_followers(first) {
            None => next,
            Some(count) => utf8_tail_stop(stream, next, count),
        },
    }
}

/// A place in a run of bytes, counted in bits.
pub struct Cursor {
    pub bytes: Seq<u8>,
    pub at: nat,
}

impl Cursor {
    /// The bits of everything that is being read.
    pub open spec fn stream(self) -> Seq<bool> {
        bytes_bits(self.bytes)
    }
}

/// Reads bits from a byte slice, most significant bit first.
pub struct Reader<'a> {
    bytes: &'a [u8],
    /// How many bits have been consumed from the front of `bytes`.
    position: usize,
}

impl<'a> View for Reader<'a> {
    type V = Cursor;

    closed spec fn view(&self) -> Cursor {
        Cursor { bytes: self.bytes@, at: self.position as nat }
    }
}

impl<'a> Reader<'a> {
    /// The cursor lies within the bytes, whose bits can be counted.
    pub open spec fn wf(&self) -> bool {
        self@.at <= 8 * self@.bytes.len() <= usize::MAX
    }

    /// Starts reading at the first bit of `bytes`.
    pub fn new(bytes: &'a [u8]) -> (reader: Self)
        requires
            8 * bytes@.len() <= usize::MAX,
        ensures
            reader.wf(),
            reader@ == (Cursor { bytes: bytes@, at: 0 }),
    {
        Reader { bytes, position: 0 }
    }

    /// How many bits have been consumed so far.
    pub fn position(&self) -> (position: usize)
        ensures
            position == self@.at,
    {
        self.position
    }

    /// Discards bits up to the next byte boundary.
    pub fn align(&mut self)
        requires
            old(self).wf(),
        ensures
            final(self).wf(),
            final(self)@.bytes == old(self)@.bytes,
            final(self)@.at == aligned(old(self)@.at),
    {
        if self.position % 8 != 0 {
            self.position = (self.position / 8 + 1) * 8;
        }
    }

    /// The bytes consumed so far, which is only meaningful when aligned.
    pub fn consumed(&self) -> (bytes: &'a [u8])
        requires
            self.wf(),
        ensures
            bytes@ == self@.bytes.take((self@.at / 8) as int),
    {
        &self.bytes[0..self.position / 8]
    }

    /// Skips whole bytes, from the next byte boundary on.
    pub fn skip_bytes(&mut self, count: usize) -> (result: Result<(), Error>)
        requires
            old(self).wf(),
            8 * count <= usize::MAX,
        ensures
            final(self).wf(),
            final(self)@.bytes == old(self)@.bytes,
            match read_skip(old(self)@.bytes.len(), old(self)@.at, count as nat) {
                Ok(next) => result is Ok && final(self)@.at == next,
                Err(fault) => result matches Err(error) && error@ == fault && final(self)@.at
                    == aligned(old(self)@.at),
            },
    {
        self.align();
        if count > self.bytes.len() - self.position / 8 {
            return Err(format_error("FLAC metadata block runs past the end of the stream"));
        }
        self.position = self.position + count * 8;
        Ok(())
    }

    /// The bytes from the current position on, which must be aligned.
    pub fn rest(&self) -> (bytes: &'a [u8])
        requires
            self.wf(),
        ensures
            bytes@ == self@.bytes.skip((self@.at / 8) as int),
    {
        &self.bytes[self.position / 8..self.bytes.len()]
    }

    /// Reads one bit.
    pub fn bit(&mut self) -> (result: Result<u32, Error>)
        requires
            old(self).wf(),
        ensures
            final(self).wf(),
            final(self)@.bytes == old(self)@.bytes,
            match read_unsigned(old(self)@.stream(), old(self)@.at, 1) {
                Ok((value, next)) => result matches Ok(bit) && bit == value && final(self)@.at
                    == next,
                Err(fault) => result matches Err(error) && error@ == fault && final(self)@
                    == old(self)@,
            },
    {
        proof {
            lemma_bytes_bits_len(self.bytes@);
        }
        match self.unsigned(1) {
            Ok(value) => {
                proof {
                    let bits = old(self)@.stream().subrange(old(self)@.at as int, (old(self)@.at + 1) as int);
                    lemma_value_bound(bits);
                    lemma2_to64();
                }
                Ok(value as u32)
            },
            Err(error) => Err(error),
        }
    }

    /// Reads `count` bits as an unsigned value. `count` may be 0 through 64.
    pub fn unsigned(&mut self, count: u32) -> (result: Result<u64, Error>)
        requires
            old(self).wf(),
            count <= 64,
        ensures
            final(self).wf(),
            final(self)@.bytes == old(self)@.bytes,
            match read_unsigned(old(self)@.stream(), old(self)@.at, count as nat) {
                Ok((value, next)) => result matches Ok(word) && word == value && final(self)@.at
                    == next,
                Err(fault) => result matches Err(error) && error@ == fault && final(self)@.at == if count
                    > 32 && old(self)@.at + count - 32 <= old(self)@.stream().len() {
                    old(self)@.at + count - 32
                } else {
                    old(self)@.at as int
                },
            },
        decreases count,
    {
        let ghost stream = self@.stream();
        let ghost start = self@.at;
        proof {
            lemma_bytes_bits_len(self.bytes@);
        }
        if count > 32 {
            let high: u64 = match self.unsigned(count - 32) {
                Ok(high) => high,
                Err(error) => return Err(error),
            };
            let low: u64 = match self.unsigned(32) {
                Ok(low) => low,
                Err(error) => return Err(error),
            };
            proof {
                let middle = (start + count - 32) as int;
                let upper = stream.subrange(start as int, middle);
                let lower = stream.subrange(middle, (start + count) as int);
                assert(upper + lower =~= stream.subrange(start as int, (start + count) as int));
                lemma_value_concat(upper, lower);
                lemma_value_bound(upper);
                lemma_value_bound(lower);
                lemma_pow2_adds((count - 32) as nat, 32);
                lemma2_to64();
                lemma2_to64_rest();
                if count < 64 {
                    lemma_pow2_strictly_increases((count - 32) as nat, 32);
                }
                lemma_u64_shl_is_mul(high, 32);
            }
            return Ok((high << 32) + low);
        }
        if count == 0 {
            proof {
                assert(stream.subrange(start as int, start as int) =~= Seq::<bool>::empty());
            }
            return Ok(0);
        }
        if count as usize > self.bytes.len() * 8 - self.position {
            return Err(format_error("FLAC stream ended in the middle of a value"));
        }
        // Whole bytes at a time: a residual is millions of small reads, and one
        // pass per bit is the difference between decoding a song and waiting.
        let mut value: u64 = 0;
        let mut left: u32 = count;
        proof {
            assert(stream.subrange(start as int, start as int) =~= Seq::<bool>::empty());
        }
        while left > 0
            invariant
                left <= count <= 32,
                self.wf(),
                self@.bytes == old(self)@.bytes,
                stream == self@.stream(),
                start + count <= stream.len(),
                stream.len() == 8 * self@.bytes.len(),
                self@.at == start + (count - left),
                value == value_of(stream.subrange(start as int, self@.at as int)),
            decreases left,
        {
            let ghost at = self@.at;
            let byte: u64 = self.bytes[self.position / 8] as u64;
            let offset: u32 = (self.position % 8) as u32;
            let available: u32 = 8 - offset;
            let take: u32 = if available < left {
                available
            } else {
                left
            };
            proof {
                lemma_pow2_word(take as nat);
            }
            let shifted: u64 = byte >> ((available - take) as u64);
            let mask: u64 = (1u64 << (take as u64)) - 1;
            let chunk: u64 = shifted & mask;
            proof {
                let index = (at / 8) as int;
                lemma_bytes_bits_at(self.bytes@, index);
                lemma_byte_chunk(byte as nat, offset as nat, take as nat);
                lemma_u64_shr_is_div(byte, (available - take) as u64);
                lemma_u64_low_bits_mask_is_mod(shifted, take as nat);
                let part = stream.subrange(at as int, (at + take) as int);
                assert(part =~= stream.subrange(8 * index, 8 * index + 8).subrange(
                    offset as int,
                    (offset + take) as int,
                ));
                assert(chunk == value_of(part));
                let before = stream.subrange(start as int, at as int);
                assert(before + part =~= stream.subrange(start as int, (at + take) as int));
                lemma_value_concat(before, part);
                lemma_value_bound(before);
                lemma_value_bound(part);
                lemma_value_bound(before + part);
                lemma2_to64();
                if at + take - start < 32 {
                    lemma_pow2_strictly_increases((at + take - start) as nat, 32);
                }
                lemma_u64_shl_is_mul(value, take as u64);
            }
            value = (value << (take as u64)) + chunk;
            self.position = self.position + take as usize;
            left = left - take;
        }
        Ok(value)
    }

    /// Reads `count` bits as a two's-complement signed value.
    pub fn signed(&mut self, count: u32) -> (result: Result<i64, Error>)
        requires
            old(self).wf(),
            count <= 64,
        ensures
            final(self).wf(),
            final(self)@.bytes == old(self)@.bytes,
            match read_signed(old(self)@.stream(), old(self)@.at, count as nat) {
                Ok((value, next)) => result matches Ok(word) && word == value && final(self)@.at
                    == next,
                Err(fault) => result matches Err(error) && error@ == fault && final(self)@.at == if count
                    > 32 && old(self)@.at + count - 32 <= old(self)@.stream().len() {
                    old(self)@.at + count - 32
                } else {
                    old(self)@.at as int
                },
            },
    {
        let ghost bits = self@.stream().subrange(self@.at as int, (self@.at + count) as int);
        let value: u64 = match self.unsigned(count) {
            Ok(value) => value,
            Err(error) => return Err(error),
        };
        if count == 0 {
            return Ok(0);
        }
        let below: u32 = count - 1;
        let half: u64 = 1u64 << (below as u64);
        proof {
            lemma_pow2_word(below as nat);
            lemma_signed_value(bits);
            lemma_value_bound(bits);
            lemma_pow2_unfold(count as nat);
            lemma_bytes_bits_len(self.bytes@);
            lemma2_to64_rest();
        }
        if value < half {
            Ok(value as i64)
        } else if count == 64 {
            Ok((value - half) as i64 + i64::MIN)
        } else {
            proof {
                lemma_pow2_word(count as nat);
            }
            Ok((value - half) as i64 - half as i64)
        }
    }

    /// Reads a unary value: the number of zero bits before the next one bit.
    pub fn unary(&mut self) -> (result: Result<u32, Error>)
        requires
            old(self).wf(),
        ensures
            final(self).wf(),
            final(self)@.bytes == old(self)@.bytes,
            match read_unary(old(self)@.stream(), old(self)@.at) {
                Ok((value, next)) => result matches Ok(zeros) && zeros == value && final(self)@.at
                    == next,
                Err(fault) => result matches Err(error) && error@ == fault && final(self)@.at
                    == unary_stop(old(self)@.stream(), old(self)@.at),
            },
    {
        let ghost stream = self@.stream();
        let ghost start = self@.at;
        let mut zeros: u32 = 0;
        proof {
            lemma_bytes_bits_len(self.bytes@);
        }
        while self.position / 8 < self.bytes.len()
            invariant
                self.wf(),
                self@.bytes == old(self)@.bytes,
                stream == self@.stream(),
                stream.len() == 8 * self@.bytes.len(),
                self@.at == start + zeros,
                start == old(self)@.at,
                stream == old(self)@.stream(),
                zeros_at(stream, start) == zeros + zeros_at(stream, self@.at),
                zeros == 0 || self@.at % 8 == 0,
                zeros <= UNARY_LIMIT,
            decreases self.bytes.len() - self.position / 8,
        {
            let ghost at = self@.at;
            let byte: u64 = self.bytes[self.position / 8] as u64;
            let offset: u32 = (self.position % 8) as u32;
            let available: u32 = 8 - offset;
            proof {
                lemma_pow2_word(available as nat);
                lemma_pow2_word((available - 1) as nat);
            }
            let mask: u64 = (1u64 << (available as u64)) - 1;
            let rest: u64 = byte & mask;
            let ghost part = stream.subrange(at as int, (at + available) as int);
            proof {
                let index = (at / 8) as int;
                lemma_bytes_bits_at(self.bytes@, index);
                lemma_byte_chunk(byte as nat, offset as nat, available as nat);
                lemma2_to64();
                lemma_u64_low_bits_mask_is_mod(byte, available as nat);
                assert(part =~= stream.subrange(8 * index, 8 * index + 8).subrange(
                    offset as int,
                    (offset + available) as int,
                ));
                assert((8 - offset - available) as nat == 0nat);
                assert(byte as nat / 1nat == byte);
                assert(rest == value_of(part));
                lemma_value_zero(part);
            }
            if rest == 0 {
                proof {
                    assert forall|i: int| at <= i < at + available implies !stream[i] by {
                        assert(!part[i - at]);
                    }
                    lemma_zeros_skip(stream, at, available as nat);
                    lemma_zeros_bound(stream, at + available as nat);
                }
                zeros = zeros + available;
                self.position = self.position + available as usize;
                if zeros > UNARY_LIMIT {
                    return Err(format_error("FLAC unary value is implausibly long"));
                }
            } else {
                let mut leading: u32 = 0;
                let mut probe: u64 = 1u64 << ((available - 1) as u64);
                proof {
                    assert(exists|i: int| 0 <= i < part.len() && part[i]);
                    lemma_zeros_within(stream, at, available as nat);
                    lemma_probe(part, leading as nat, probe, rest);
                }
                while rest < probe
                    invariant
                        self@.at == at,
                        available <= 8,
                        leading < available == part.len(),
                        part == stream.subrange(at as int, (at + available) as int),
                        rest == value_of(part),
                        rest > 0,
                        probe == pow2((available - 1 - leading) as nat),
                        rest < 2 * probe,
                        at + available <= stream.len(),
                        zeros_at(stream, at) == leading + zeros_at(stream, at + leading as nat),
                    decreases available - leading,
                {
                    proof {
                        lemma_probe(part, leading as nat, probe, rest);
                        assert(!stream[(at + leading) as int]);
                        lemma2_to64();
                        assert(available - 1 - leading > 0);
                        lemma_pow2_unfold((available - 1 - leading) as nat);
                    }
                    leading = leading + 1;
                    probe = probe / 2;
                }
                proof {
                    lemma_probe(part, leading as nat, probe, rest);
                    assert(stream[(at + leading) as int]);
                    assert(zeros_at(stream, at + leading as nat) == 0);
                }
                self.position = self.position + leading as usize + 1;
                return Ok(zeros + leading);
            }
        }
        proof {
            assert(zeros_at(stream, self@.at) == 0);
        }
        Err(format_error("FLAC stream ended in the middle of a value"))
    }

    /// Reads the extended UTF-8 number a frame header identifies itself with.
    ///
    /// FLAC borrows UTF-8's shape to code a frame or sample number, stretching
    /// it to seven bytes so that 36 bits fit.
    pub fn utf8_number(&mut self) -> (result: Result<u64, Error>)
        requires
            old(self).wf(),
        ensures
            final(self).wf(),
            final(self)@.bytes == old(self)@.bytes,
            match read_utf8_number(old(self)@.stream(), old(self)@.at) {
                Ok((value, next)) => result matches Ok(number) && number == value && final(self)@.at
                    == next,
                Err(fault) => result matches Err(error) && error@ == fault && final(self)@.at
                    == utf8_stop(old(self)@.stream(), old(self)@.at),
            },
    {
        let ghost stream = self@.stream();
        let ghost start = self@.at;
        let first: u64 = match self.unsigned(8) {
            Ok(first) => first,
            Err(error) => return Err(error),
        };
        proof {
            let bits = stream.subrange(start as int, (start + 8) as int);
            lemma_value_bound(bits);
            lemma2_to64();
        }
        if first < 0x80 {
            return Ok(first);
        }
        let extra: u32 = if first >= 0xC0 && first < 0xE0 {
            1
        } else if first >= 0xE0 && first < 0xF0 {
            2
        } else if first >= 0xF0 && first < 0xF8 {
            3
        } else if first >= 0xF8 && first < 0xFC {
            4
        } else if first >= 0xFC && first < 0xFE {
            5
        } else if first == 0xFE {
            6
        } else {
            return Err(format_error("FLAC frame number has a malformed first byte"));
        };
        let ghost head = first as nat % pow2((6 - extra) as nat);
        let mut value: u64 = match extra {
            1 => first % 0x20,
            2 => first % 0x10,
            3 => first % 0x08,
            4 => first % 0x04,
            5 => first % 0x02,
            _ => 0,
        };
        proof {
            lemma2_to64();
        }
        let mut done: u32 = 0;
        while done < extra
            invariant
                done <= extra <= 6,
                self.wf(),
                self@.bytes == old(self)@.bytes,
                stream == self@.stream(),
                read_utf8_number(old(self)@.stream(), old(self)@.at) == read_utf8_tail(
                    stream,
                    start + 8,
                    extra as nat,
                    head,
                ),
                value < 0x20 && done == 0 || value < 0x800 && done == 1 || value < 0x2_0000 && done == 2
                    || value < 0x80_0000 && done == 3 || value < 0x2000_0000 && done == 4 || value
                    < 0x8_0000_0000 && done == 5 || value < 0x200_0000_0000 && done == 6,
                read_utf8_tail(stream, start + 8, extra as nat, head) == read_utf8_tail(
                    stream,
                    self@.at,
                    (extra - done) as nat,
                    value as nat,
                ),
                utf8_stop(old(self)@.stream(), old(self)@.at) == utf8_tail_stop(
                    stream,
                    self@.at,
                    (extra - done) as nat,
                ),
            decreases extra - done,
        {
            let ghost at = self@.at;
            let byte: u64 = match self.unsigned(8) {
                Ok(byte) => byte,
                Err(error) => return Err(error),
            };
            if byte / 64 != 2 {
                return Err(format_error("FLAC frame number has a malformed byte"));
            }
            value = value * 64 + byte % 64;
            done = done + 1;
        }
        Ok(value)
    }
}

/// Skipping a run of zeros takes it off the count.
pub proof fn lemma_zeros_skip(stream: Seq<bool>, at: nat, count: nat)
    requires
        at + count <= stream.len(),
        forall|i: int| at <= i < at + count ==> !stream[i],
    ensures
        zeros_at(stream, at) == count + zeros_at(stream, at + count),
    decreases count,
{
    if count > 0 {
        assert(!stream[at as int]);
        lemma_zeros_skip(stream, at + 1, (count - 1) as nat);
    }
}

/// A run of zeros ends with the stream at the latest.
proof fn lemma_zeros_bound(stream: Seq<bool>, at: nat)
    requires
        at <= stream.len(),
    ensures
        at + zeros_at(stream, at) <= stream.len(),
    decreases stream.len() - at,
{
    if at < stream.len() && !stream[at as int] {
        lemma_zeros_bound(stream, at + 1);
    }
}

/// A run of zeros ends before the next one bit.
proof fn lemma_zeros_within(stream: Seq<bool>, at: nat, count: nat)
    requires
        at + count <= stream.len(),
        exists|i: int| at <= i < at + count && stream[i],
    ensures
        zeros_at(stream, at) < count,
    decreases count,
{
    let one = choose|i: int| at <= i < at + count && stream[i];
    if !stream[at as int] {
        assert(at + 1 <= one < at + count);
        lemma_zeros_within(stream, at + 1, (count - 1) as nat);
    }
}

/// The first bit that can be set in a number below twice a power of two.
proof fn lemma_probe(bits: Seq<bool>, leading: nat, probe: u64, rest: u64)
    requires
        leading < bits.len(),
        bits.len() <= 8,
        rest == value_of(bits),
        probe == pow2((bits.len() - 1 - leading) as nat),
        rest < 2 * probe,
    ensures
        bits[leading as int] == (rest >= probe),
{
    let below = (bits.len() - 1 - leading) as nat;
    lemma_bits_of_value(bits);
    lemma_bits_index(value_of(bits), bits.len(), leading as int);
    lemma_pow2_pos(below);
    let quotient = if rest >= probe {
        1int
    } else {
        0int
    };
    lemma_fundamental_div_mod_converse(
        rest as int,
        probe as int,
        quotient,
        rest - quotient * probe,
    );
}

/// Two's complement reads the leading bit as its negative weight.
pub proof fn lemma_signed_value(bits: Seq<bool>)
    requires
        bits.len() > 0,
    ensures
        bits[0] == (value_of(bits) >= pow2((bits.len() - 1) as nat)),
        -pow2((bits.len() - 1) as nat) <= signed_value(bits) < pow2((bits.len() - 1) as nat),
{
    let below = (bits.len() - 1) as nat;
    lemma_value_bound(bits);
    lemma_pow2_unfold(bits.len());
    lemma_pow2_pos(below);
    lemma_bits_of_value(bits);
    lemma_bits_index(value_of(bits), bits.len(), 0);
    let quotient = if value_of(bits) >= pow2(below) {
        1int
    } else {
        0int
    };
    lemma_fundamental_div_mod_converse(
        value_of(bits) as int,
        pow2(below) as int,
        quotient,
        value_of(bits) - quotient * pow2(below),
    );
}

/// The next byte boundary at or after a place.
pub open spec fn aligned(at: nat) -> nat {
    (at + 7) / 8 * 8
}

/// Skipping `count` bytes from the next byte boundary on.
pub open spec fn read_skip(length: nat, at: nat, count: nat) -> Result<nat, Fault> {
    if aligned(at) + 8 * count <= 8 * length {
        Ok(aligned(at) + 8 * count)
    } else {
        Err(Fault::Format("FLAC metadata block runs past the end of the stream"@))
    }
}

/// The bits of a number in two's complement.
pub open spec fn signed_bits(value: int, count: nat) -> Seq<bool> {
    bits_of((value % (pow2(count) as int)) as nat, count)
}

/// The bits of a unary number: that many zeros, then a one.
pub open spec fn unary_bits(value: nat) -> Seq<bool> {
    Seq::new(value, |i: int| false).push(true)
}

/// How many bytes follow the first when a number is written as extended UTF-8.
pub open spec fn utf8_extra(value: u64) -> nat {
    if value < 0x80 {
        0
    } else if value < 0x800 {
        1
    } else if value < 0x1_0000 {
        2
    } else if value < 0x20_0000 {
        3
    } else if value < 0x400_0000 {
        4
    } else if value < 0x8000_0000 {
        5
    } else {
        6
    }
}

/// The ones that lead an extended UTF-8 number's first byte.
pub open spec fn utf8_lead(extra: nat) -> u64 {
    if extra == 1 {
        0xC0
    } else if extra == 2 {
        0xE0
    } else if extra == 3 {
        0xF0
    } else if extra == 4 {
        0xF8
    } else if extra == 5 {
        0xFC
    } else {
        0xFE
    }
}

/// The bits of the following bytes: six of the number's bits in each.
pub open spec fn utf8_tail_bits(value: nat, count: nat) -> Seq<bool>
    decreases count,
{
    if count == 0 {
        Seq::empty()
    } else {
        bits_of(0x80 + (value / pow2((6 * (count - 1)) as nat)) % 64, 8) + utf8_tail_bits(
            value,
            (count - 1) as nat,
        )
    }
}

/// The bits of a number as extended UTF-8.
pub open spec fn utf8_bits(value: u64) -> Seq<bool> {
    let extra = utf8_extra(value);
    if extra == 0 {
        bits_of(value as nat, 8)
    } else {
        bits_of((utf8_lead(extra) | (value >> ((6 * extra) as u64))) as nat, 8) + utf8_tail_bits(
            value as nat,
            extra,
        )
    }
}

/// A run of bits with the zeros that fill its last byte.
pub open spec fn padded(bits: Seq<bool>) -> Seq<bool> {
    bits + Seq::new((aligned(bits.len()) - bits.len()) as nat, |i: int| false)
}

/// The bytes a run of bits fills.
pub open spec fn bits_bytes(bits: Seq<bool>) -> Seq<u8> {
    Seq::new(
        bits.len() / 8,
        |i: int| value_of(bits.subrange(8 * i, 8 * i + 8)) as u8,
    )
}

/// Writes bits into a byte vector, most significant bit first.
pub struct Writer {
    bytes: Vec<u8>,
    /// Bits not yet flushed, held in the low `filled` bits.
    partial: u64,
    filled: u32,
}

impl View for Writer {
    type V = Seq<bool>;

    closed spec fn view(&self) -> Seq<bool> {
        bytes_bits(self.bytes@) + bits_of(self.partial as nat, self.filled as nat)
    }
}

impl Writer {
    /// Less than a byte is ever pending.
    pub closed spec fn wf(&self) -> bool {
        self.filled < 8 && self.partial < pow2(self.filled as nat)
    }

    /// An empty writer.
    pub fn new() -> (writer: Self)
        ensures
            writer.wf(),
            writer@ == Seq::<bool>::empty(),
    {
        proof {
            lemma2_to64();
        }
        Writer { bytes: Vec::new(), partial: 0, filled: 0 }
    }

    /// Whether the next write starts on a byte boundary.
    pub fn is_aligned(&self) -> (aligned: bool)
        requires
            self.wf(),
        ensures
            aligned == (self@.len() % 8 == 0),
    {
        proof {
            self.lemma_len();
        }
        self.filled == 0
    }

    proof fn lemma_len(&self)
        requires
            self.wf(),
        ensures
            self@.len() == 8 * self.bytes@.len() + self.filled,
    {
        lemma_bytes_bits_len(self.bytes@);
        lemma_bits_len(self.partial as nat, self.filled as nat);
    }

    /// Bits written so far.
    pub fn len(&self) -> (length: usize)
        requires
            self.wf(),
            self@.len() <= usize::MAX,
        ensures
            length == self@.len(),
    {
        proof {
            self.lemma_len();
        }
        self.bytes.len() * 8 + self.filled as usize
    }

    /// Writes the low `count` bits of `value`, most significant first.
    pub fn unsigned(&mut self, value: u64, count: u32)
        requires
            old(self).wf(),
            count <= 64,
        ensures
            final(self).wf(),
            final(self)@ == old(self)@ + bits_of(value as nat, count as nat),
        decreases count,
    {
        // Splitting anything wider keeps `partial` from overflowing: fewer than
        // eight bits are ever pending, so eight plus thirty-two always fits.
        if count > 32 {
            proof {
                lemma_bits_split(value as nat, (count - 32) as nat, 32);
                lemma_u64_shr_is_div(value, 32);
                lemma_u64_low_bits_mask_is_mod(value, 32);
                lemma2_to64();
                lemma_bits_mod(value as nat, 32);
            }
            self.unsigned(value >> 32, count - 32);
            self.unsigned(value & 0xFFFF_FFFF, 32);
            assert(self@ =~= old(self)@ + bits_of(value as nat, count as nat));
            return;
        }
        let ghost goal = self@ + bits_of(value as nat, count as nat);
        proof {
            lemma_pow2_word(count as nat);
        }
        let low: u64 = value & ((1u64 << (count as u64)) - 1);
        proof {
            let pending = self.partial as nat;
            let filled = self.filled as nat;
            lemma_u64_low_bits_mask_is_mod(value, count as nat);
            lemma_pow2_adds(filled, count as nat);
            lemma2_to64();
            lemma2_to64_rest();
            if filled + count < 40 {
                lemma_pow2_strictly_increases(filled + count as nat, 40);
            }
            lemma_pow2_pos(count as nat);
            assert(pending * pow2(count as nat) + low < pow2(filled + count as nat)) by (nonlinear_arith)
                requires
                    pending < pow2(filled),
                    low < pow2(count as nat),
                    pow2(filled + count as nat) == pow2(filled) * pow2(count as nat),
            ;
            lemma_u64_shl_is_mul(self.partial, count as u64);
            let joined = pending * pow2(count as nat) + low as nat;
            lemma_fundamental_div_mod_converse(
                joined as int,
                pow2(count as nat) as int,
                pending as int,
                low as int,
            );
            lemma_bits_split(joined, filled, count as nat);
            lemma_bits_mod(joined, count as nat);
            lemma_bits_mod(value as nat, count as nat);
        }
        let mut partial: u64 = (self.partial << (count as u64)) + low;
        let mut filled: u32 = self.filled + count;
        assert(bytes_bits(self.bytes@) + bits_of(partial as nat, filled as nat) =~= goal);
        while filled >= 8
            invariant
                filled < 40,
                bytes_bits(self.bytes@) + bits_of(partial as nat, filled as nat) == goal,
            decreases filled,
        {
            let ghost before = self.bytes@;
            filled = filled - 8;
            let shifted: u64 = partial >> (filled as u64);
            let byte: u8 = (shifted & 0xFF) as u8;
            proof {
                lemma_u64_shr_is_div(partial, filled as u64);
                lemma_u64_low_bits_mask_is_mod(shifted, 8);
                lemma2_to64();
                lemma_bits_split(partial as nat, 8, filled as nat);
                lemma_bits_mod(shifted as nat, 8);
            }
            self.bytes.push(byte);
            proof {
                assert(self.bytes@.drop_last() =~= before);
                assert(bytes_bits(self.bytes@) + bits_of(partial as nat, filled as nat) =~= goal);
            }
        }
        proof {
            lemma_pow2_word(filled as nat);
            lemma_u64_low_bits_mask_is_mod(partial, filled as nat);
            lemma_bits_mod(partial as nat, filled as nat);
        }
        self.partial = partial & ((1u64 << (filled as u64)) - 1);
        self.filled = filled;
    }

    /// Appends everything another writer holds, bit for bit.
    pub fn append(&mut self, other: &Self)
        requires
            old(self).wf(),
            other.wf(),
        ensures
            final(self).wf(),
            final(self)@ == old(self)@ + other@,
    {
        if self.filled == 0 {
            proof {
                lemma_bytes_bits_concat(self.bytes@, other.bytes@);
            }
            self.bytes.extend_from_slice(other.bytes.as_slice());
            assert(self.bytes@ =~= old(self).bytes@ + other.bytes@);
            assert(self@ =~= old(self)@ + bytes_bits(other.bytes@));
        } else {
            let mut index: usize = 0;
            assert(self@ =~= old(self)@ + bytes_bits(other.bytes@.take(0)));
            while index < other.bytes.len()
                invariant
                    self.wf(),
                    index <= other.bytes@.len(),
                    self@ == old(self)@ + bytes_bits(other.bytes@.take(index as int)),
                decreases other.bytes@.len() - index,
            {
                self.unsigned(other.bytes[index] as u64, 8);
                proof {
                    let longer = other.bytes@.take(index + 1);
                    assert(longer.drop_last() =~= other.bytes@.take(index as int));
                    assert(self@ =~= old(self)@ + bytes_bits(longer));
                }
                index = index + 1;
            }
            assert(other.bytes@.take(index as int) =~= other.bytes@);
        }
        if other.filled > 0 {
            self.unsigned(other.partial, other.filled);
        }
        assert(self@ =~= old(self)@ + other@);
    }

    /// Writes `value` in `count` bits of two's complement.
    pub fn signed(&mut self, value: i64, count: u32)
        requires
            old(self).wf(),
            count <= 64,
        ensures
            final(self).wf(),
            final(self)@ == old(self)@ + signed_bits(value as int, count as nat),
    {
        // Two's complement of the whole word: 2^64 stands in for a minus sign.
        let word: u64 = if value < 0 {
            u64::MAX - (-(value + 1)) as u64
        } else {
            value as u64
        };
        proof {
            lemma_bits_mod(word as nat, count as nat);
            lemma_word_mod(value as int, word as nat, count as nat);
            lemma_pow2_pos(count as nat);
            assert((value as int % (pow2(count as nat) as int)) as nat == word as nat % pow2(
                count as nat,
            ));
            assert(signed_bits(value as int, count as nat) == bits_of(word as nat, count as nat));
        }
        self.unsigned(word, count);
    }

    /// Writes a unary value: `value` zero bits, then a one bit.
    pub fn unary(&mut self, value: u32)
        requires
            old(self).wf(),
        ensures
            final(self).wf(),
            final(self)@ == old(self)@ + unary_bits(value as nat),
    {
        let mut left: u32 = value;
        let ghost none: nat = 0;
        assert(self@ =~= old(self)@ + Seq::new(none, |i: int| false));
        while left >= 32
            invariant
                self.wf(),
                left <= value,
                self@ == old(self)@ + Seq::new((value - left) as nat, |i: int| false),
            decreases left,
        {
            self.unsigned(0, 32);
            proof {
                lemma_zero_bits(32);
            }
            left = left - 32;
            assert(self@ =~= old(self)@ + Seq::new((value - left) as nat, |i: int| false));
        }
        proof {
            lemma_unary_word(left as nat);
        }
        self.unsigned(1, left + 1);
        assert(self@ =~= old(self)@ + unary_bits(value as nat));
    }

    /// Writes the extended UTF-8 coding of a frame number.
    pub fn utf8_number(&mut self, value: u64)
        requires
            old(self).wf(),
        ensures
            final(self).wf(),
            final(self)@ == old(self)@ + utf8_bits(value),
    {
        // The thresholds are UTF-8's, with two more rows so that 36 bits fit.
        let (extra, lead): (u32, u64) = if value < 0x80 {
            (0, 0)
        } else if value < 0x800 {
            (1, 0xC0)
        } else if value < 0x1_0000 {
            (2, 0xE0)
        } else if value < 0x20_0000 {
            (3, 0xF0)
        } else if value < 0x400_0000 {
            (4, 0xF8)
        } else if value < 0x8000_0000 {
            (5, 0xFC)
        } else {
            (6, 0xFE)
        };
        if extra == 0 {
            self.unsigned(value, 8);
            return;
        }
        // A leading byte carries `extra + 1` ones, a zero, and the top bits.
        self.unsigned(lead | (value >> ((6 * extra) as u64)), 8);
        let mut left: u32 = extra;
        while left > 0
            invariant
                self.wf(),
                left <= extra <= 6,
                self@ + utf8_tail_bits(value as nat, left as nat) == old(self)@ + utf8_bits(value),
            decreases left,
        {
            let shifted: u64 = value >> ((6 * (left - 1)) as u64);
            proof {
                lemma_u64_shr_is_div(value, (6 * (left - 1)) as u64);
            }
            let ghost before = self@;
            self.unsigned(0x80 + shifted % 64, 8);
            proof {
                assert(before + utf8_tail_bits(value as nat, left as nat) =~= self@
                    + utf8_tail_bits(value as nat, (left - 1) as nat));
            }
            left = left - 1;
        }
        assert(self@ + utf8_tail_bits(value as nat, 0) =~= self@);
    }

    /// Pads with zero bits up to the next byte boundary.
    pub fn align(&mut self)
        requires
            old(self).wf(),
        ensures
            final(self).wf(),
            final(self)@ == padded(old(self)@),
    {
        proof {
            self.lemma_len();
            lemma_zero_bits((8 - self.filled) as nat);
        }
        if self.filled != 0 {
            self.unsigned(0, 8 - self.filled);
        }
        assert(self@ =~= padded(old(self)@));
    }

    /// The bytes written, which must be byte-aligned.
    pub fn finish(self) -> (bytes: Vec<u8>)
        requires
            self.wf(),
        ensures
            bytes_bits(bytes@) == padded(self@),
            bytes@ == bits_bytes(padded(self@)),
    {
        let mut writer = self;
        writer.align();
        proof {
            writer.lemma_len();
            assert(writer@.len() % 8 == 0);
            assert(writer@ =~= bytes_bits(writer.bytes@));
            lemma_bits_bytes(writer.bytes@);
        }
        writer.bytes
    }

    /// The bytes written so far, for a CRC over a partly built frame.
    pub fn written(&self) -> (bytes: &[u8])
        requires
            self.wf(),
        ensures
            bytes@ == bits_bytes(self@),
            bytes_bits(bytes@) == self@.take((self@.len() / 8 * 8) as int),
    {
        proof {
            self.lemma_len();
            lemma_bytes_bits_len(self.bytes@);
            lemma_bits_bytes(self.bytes@);
            assert(self@.take((self@.len() / 8 * 8) as int) =~= bytes_bits(self.bytes@));
            let whole = bytes_bits(self.bytes@);
            assert forall|i: int| 0 <= i < self.bytes@.len() implies #[trigger] bits_bytes(self@)[i]
                == bits_bytes(whole)[i] by {
                assert(self@.subrange(8 * i, 8 * i + 8) =~= whole.subrange(8 * i, 8 * i + 8));
            }
            assert(bits_bytes(self@) =~= bits_bytes(whole));
        }
        self.bytes.as_slice()
    }
}

/// Zero has only zero bits.
proof fn lemma_zero_bits(count: nat)
    ensures
        bits_of(0, count) == Seq::new(count, |i: int| false),
    decreases count,
{
    if count > 0 {
        lemma_zero_bits((count - 1) as nat);
    }
    assert(bits_of(0, count) =~= Seq::new(count, |i: int| false));
}

/// A one behind zeros is a unary number.
proof fn lemma_unary_word(zeros: nat)
    ensures
        bits_of(1, zeros + 1) == unary_bits(zeros),
{
    lemma_zero_bits(zeros);
    assert(bits_of(1, zeros + 1) =~= unary_bits(zeros));
}

/// A word that stands for a number modulo 2^64 stands for it modulo less too.
proof fn lemma_word_mod(value: int, word: nat, count: nat)
    requires
        count <= 64,
        word == value || word == value + 0x1_0000_0000_0000_0000,
    ensures
        word % pow2(count) == value % (pow2(count) as int),
{
    lemma2_to64_rest();
    lemma_pow2_pos(count);
    lemma_pow2_adds(count, (64 - count) as nat);
    if word != value {
        let unit = pow2(count) as int;
        let times = pow2((64 - count) as nat) as int;
        assert((value + unit * times) % unit == value % unit) by {
            vstd::arithmetic::div_mod::lemma_mod_multiples_vanish(times, value, unit);
        }
    }
}

/// The bytes behind a run of bits are the only ones that spell it.
pub proof fn lemma_bits_bytes(bytes: Seq<u8>)
    ensures
        bits_bytes(bytes_bits(bytes)) == bytes,
{
    lemma_bytes_bits_len(bytes);
    assert forall|i: int| 0 <= i < bytes.len() implies bits_bytes(bytes_bits(bytes))[i]
        == bytes[i] by {
        lemma_bytes_bits_at(bytes, i);
        lemma2_to64();
        lemma_value_of_small(bytes[i] as nat, 8);
    }
    assert(bits_bytes(bytes_bits(bytes)) =~= bytes);
}

/// Whether a run of bits stands in a stream at a place.
pub open spec fn stands(stream: Seq<bool>, at: nat, bits: Seq<bool>) -> bool {
    at + bits.len() <= stream.len() && stream.subrange(at as int, (at + bits.len()) as int) == bits
}

/// What stands in a stream in one piece stands there in two.
pub proof fn lemma_stands_split(stream: Seq<bool>, at: nat, first: Seq<bool>, second: Seq<bool>)
    requires
        stands(stream, at, first + second),
    ensures
        stands(stream, at, first),
        stands(stream, at + first.len(), second),
{
    let whole = stream.subrange(at as int, (at + first.len() + second.len()) as int);
    assert(stream.subrange(at as int, (at + first.len()) as int) =~= whole.take(
        first.len() as int,
    ));
    assert((first + second).take(first.len() as int) =~= first);
    assert(stream.subrange(
        (at + first.len()) as int,
        (at + first.len() + second.len()) as int,
    ) =~= whole.skip(first.len() as int));
    assert((first + second).skip(first.len() as int) =~= second);
}

/// An unsigned value reads back as it was written.
pub proof fn law_unsigned_round_trip(stream: Seq<bool>, at: nat, value: nat, count: nat)
    requires
        value < pow2(count),
        stands(stream, at, bits_of(value, count)),
    ensures
        read_unsigned(stream, at, count) == Ok::<(nat, nat), Fault>((value, at + count)),
{
    lemma_bits_len(value, count);
    lemma_value_of_small(value, count);
}

/// A signed value reads back as it was written.
pub proof fn law_signed_round_trip(stream: Seq<bool>, at: nat, value: int, count: nat)
    requires
        count > 0,
        -pow2((count - 1) as nat) <= value < pow2((count - 1) as nat),
        stands(stream, at, signed_bits(value, count)),
    ensures
        read_signed(stream, at, count) == Ok::<(int, nat), Fault>((value, at + count)),
{
    let unit = pow2(count) as int;
    let word = (value % unit) as nat;
    lemma_pow2_unfold(count);
    lemma_pow2_pos((count - 1) as nat);
    lemma_bits_len(word, count);
    vstd::arithmetic::div_mod::lemma_mod_bound(value, unit);
    lemma_value_of_small(word, count);
    lemma_signed_value(bits_of(word, count));
    if value >= 0 {
        lemma_small_mod(value as nat, pow2(count));
    } else {
        vstd::arithmetic::div_mod::lemma_mod_add_multiples_vanish(value, unit);
        lemma_small_mod((value + unit) as nat, pow2(count));
    }
}

/// A unary value reads back as it was written, up to the reader's limit.
pub proof fn law_unary_round_trip(stream: Seq<bool>, at: nat, value: nat)
    requires
        value <= UNARY_LIMIT,
        stands(stream, at, unary_bits(value)),
    ensures
        read_unary(stream, at) == Ok::<(nat, nat), Fault>((value, at + value + 1)),
{
    let bits = unary_bits(value);
    assert forall|i: int| at <= i < at + value implies !stream[i] by {
        assert(stream.subrange(at as int, (at + bits.len()) as int)[i - at] == bits[i - at]);
    }
    assert(stream.subrange(at as int, (at + bits.len()) as int)[value as int] == bits[value as int]);
    lemma_zeros_skip(stream, at, value);
    assert(stream[(at + value) as int]);
    assert(zeros_at(stream, at + value) == 0);
}

/// The following bytes put the low bits of a number back under its high bits.
proof fn lemma_utf8_tail(stream: Seq<bool>, at: nat, value: nat, count: nat)
    requires
        stands(stream, at, utf8_tail_bits(value, count)),
    ensures
        utf8_tail_bits(value, count).len() == 8 * count,
        read_utf8_tail(stream, at, count, value / pow2(6 * count)) == Ok::<(nat, nat), Fault>(
            (value, at + 8 * count),
        ),
    decreases count,
{
    lemma2_to64();
    if count == 0 {
        assert(6 * count == 0nat);
        assert(value / 1 == value);
    } else {
        let below = (6 * (count - 1)) as nat;
        let byte = 0x80 + (value / pow2(below)) % 64;
        lemma_bits_len(byte, 8);
        lemma_stands_split(stream, at, bits_of(byte, 8), utf8_tail_bits(value, (count - 1) as nat));
        law_unsigned_round_trip(stream, at, byte, 8);
        lemma_utf8_tail(stream, at + 8, value, (count - 1) as nat);
        lemma_pow2_adds(below, 6);
        lemma_pow2_pos(below);
        lemma_div_denominator(value as int, pow2(below) as int, 64);
        assert(below + 6 == 6 * count);
        let high = value / pow2(below);
        assert(value / pow2(6 * count) == high / 64);
        assert((high / 64) * 64 + high % 64 == high);
        assert(byte % 64 == high % 64);
        assert(byte / 64 == 2);
        assert(6 * ((count - 1) as nat) == below);
    }
}

/// The first byte of an extended UTF-8 number carries its top bits.
proof fn lemma_utf8_lead(value: u64)
    requires
        0x80 <= value < 0x10_0000_0000,
    ensures
        ({
            let extra = utf8_extra(value);
            let top = value >> ((6 * extra) as u64);
            &&& top == value as nat / pow2(6 * extra)
            &&& top < pow2((6 - extra) as nat)
            &&& utf8_lead(extra) | top == utf8_lead(extra) + top
        }),
{
    let extra = utf8_extra(value);
    let top = value >> ((6 * extra) as u64);
    lemma_u64_shr_is_div(value, (6 * extra) as u64);
    lemma2_to64();
    lemma2_to64_rest();
    if extra == 1 {
        assert(6 * extra == 6nat && (6 - extra) as nat == 5nat);
        assert(top == value as nat / 64nat);
        assert(0xC0u64 | top == 0xC0u64 + top) by (bit_vector)
            requires
                top < 0x20,
        ;
    } else if extra == 2 {
        assert(6 * extra == 12nat && (6 - extra) as nat == 4nat);
        assert(top == value as nat / 4096nat);
        assert(0xE0u64 | top == 0xE0u64 + top) by (bit_vector)
            requires
                top < 0x10,
        ;
    } else if extra == 3 {
        assert(6 * extra == 18nat && (6 - extra) as nat == 3nat);
        assert(top == value as nat / 262144nat);
        assert(0xF0u64 | top == 0xF0u64 + top) by (bit_vector)
            requires
                top < 0x08,
        ;
    } else if extra == 4 {
        assert(6 * extra == 24nat && (6 - extra) as nat == 2nat);
        assert(top == value as nat / 16777216nat);
        assert(0xF8u64 | top == 0xF8u64 + top) by (bit_vector)
            requires
                top < 0x04,
        ;
    } else if extra == 5 {
        assert(6 * extra == 30nat && (6 - extra) as nat == 1nat);
        assert(top == value as nat / 1073741824nat);
        assert(0xFCu64 | top == 0xFCu64 + top) by (bit_vector)
            requires
                top < 0x02,
        ;
    } else {
        assert(6 * extra == 36nat && (6 - extra) as nat == 0nat);
        assert(top == value as nat / 68719476736nat);
        assert(0xFEu64 | top == 0xFEu64 + top) by (bit_vector)
            requires
                top < 0x01,
        ;
    }
}

/// A frame number reads back as it was written, over the 36 bits that fit.
pub proof fn law_utf8_round_trip(stream: Seq<bool>, at: nat, value: u64)
    requires
        value < 0x10_0000_0000,
        stands(stream, at, utf8_bits(value)),
    ensures
        read_utf8_number(stream, at) == Ok::<(nat, nat), Fault>(
            (value as nat, at + utf8_bits(value).len()),
        ),
{
    let extra = utf8_extra(value);
    lemma2_to64();
    if extra == 0 {
        law_unsigned_round_trip(stream, at, value as nat, 8);
        lemma_bits_len(value as nat, 8);
    } else {
        let top = value >> ((6 * extra) as u64);
        let first = (utf8_lead(extra) | top) as nat;
        lemma_utf8_lead(value);
        lemma_stands_split(stream, at, bits_of(first, 8), utf8_tail_bits(value as nat, extra));
        lemma_bits_len(first, 8);
        law_unsigned_round_trip(stream, at, first, 8);
        lemma_utf8_tail(stream, at + 8, value as nat, extra);
        assert(utf8_followers(first) == Some(extra));
        assert(first == utf8_lead(extra) + top);
        let width = (6 - extra) as nat;
        if extra == 1 {
            assert(width == 5nat);
            assert(first % 32 == top);
        } else if extra == 2 {
            assert(width == 4nat);
            assert(first % 16 == top);
        } else if extra == 3 {
            assert(width == 3nat);
            assert(first % 8 == top);
        } else if extra == 4 {
            assert(width == 2nat);
            assert(first % 4 == top);
        } else if extra == 5 {
            assert(width == 1nat);
            assert(first % 2 == top);
        } else {
            assert(width == 0nat);
            assert(first % 1 == top);
        }
        assert(first % pow2((6 - extra) as nat) == top);
    }
}

/// One step of the eight-bit checksum's shift register.
pub open spec fn crc8_shift(crc: u8) -> u8 {
    if crc & 0x80 == 0 {
        crc << 1
    } else {
        (crc << 1) ^ 0x07
    }
}

/// Several steps of the eight-bit shift register.
pub open spec fn crc8_shifts(crc: u8, count: nat) -> u8
    decreases count,
{
    if count == 0 {
        crc
    } else {
        crc8_shift(crc8_shifts(crc, (count - 1) as nat))
    }
}

/// The eight-bit checksum of a run of bytes.
pub open spec fn crc8_of(bytes: Seq<u8>) -> u8
    decreases bytes.len(),
{
    if bytes.len() == 0 {
        0
    } else {
        crc8_shifts(crc8_of(bytes.drop_last()) ^ bytes.last(), 8)
    }
}

/// One step of the sixteen-bit checksum's shift register.
pub open spec fn crc16_shift(crc: u16) -> u16 {
    if crc & 0x8000 == 0 {
        crc << 1
    } else {
        (crc << 1) ^ 0x8005
    }
}

/// Several steps of the sixteen-bit shift register.
pub open spec fn crc16_shifts(crc: u16, count: nat) -> u16
    decreases count,
{
    if count == 0 {
        crc
    } else {
        crc16_shift(crc16_shifts(crc, (count - 1) as nat))
    }
}

/// The sixteen-bit checksum of a run of bytes.
pub open spec fn crc16_of(bytes: Seq<u8>) -> u16
    decreases bytes.len(),
{
    if bytes.len() == 0 {
        0
    } else {
        crc16_shifts(crc16_of(bytes.drop_last()) ^ ((bytes.last() as u16) << 8), 8)
    }
}

/// CRC-8 over `x^8 + x^2 + x + 1`, which seals a FLAC frame header.
pub fn crc8(bytes: &[u8]) -> (crc: u8)
    ensures
        crc == crc8_of(bytes@),
{
    let mut crc: u8 = 0;
    let mut index: usize = 0;
    while index < bytes.len()
        invariant
            index <= bytes@.len(),
            crc == crc8_of(bytes@.take(index as int)),
        decreases bytes@.len() - index,
    {
        let start: u8 = crc ^ bytes[index];
        crc = start;
        let mut step: u32 = 0;
        while step < 8
            invariant
                step <= 8,
                crc == crc8_shifts(start, step as nat),
            decreases 8 - step,
        {
            crc = if crc & 0x80 == 0 {
                crc << 1
            } else {
                (crc << 1) ^ 0x07
            };
            step = step + 1;
        }
        assert(bytes@.take(index + 1).drop_last() =~= bytes@.take(index as int));
        index = index + 1;
    }
    assert(bytes@.take(index as int) =~= bytes@);
    crc
}

/// CRC-16 over `x^16 + x^15 + x^2 + 1`, which seals a whole FLAC frame.
pub fn crc16(bytes: &[u8]) -> (crc: u16)
    ensures
        crc == crc16_of(bytes@),
{
    let mut crc: u16 = 0;
    let mut index: usize = 0;
    while index < bytes.len()
        invariant
            index <= bytes@.len(),
            crc == crc16_of(bytes@.take(index as int)),
        decreases bytes@.len() - index,
    {
        let start: u16 = crc ^ ((bytes[index] as u16) << 8);
        crc = start;
        let mut step: u32 = 0;
        while step < 8
            invariant
                step <= 8,
                crc == crc16_shifts(start, step as nat),
            decreases 8 - step,
        {
            crc = if crc & 0x8000 == 0 {
                crc << 1
            } else {
                (crc << 1) ^ 0x8005
            };
            step = step + 1;
        }
        assert(bytes@.take(index + 1).drop_last() =~= bytes@.take(index as int));
        index = index + 1;
    }
    assert(bytes@.take(index as int) =~= bytes@);
    crc
}

} // verus!
