//! Numbers laid out as bytes.

use vstd::arithmetic::div_mod::{lemma_fundamental_div_mod, lemma_fundamental_div_mod_converse};
use vstd::arithmetic::power2::{
    lemma2_to64, lemma2_to64_rest, lemma_pow2_adds, lemma_pow2_pos, lemma_pow2_strictly_increases,
    pow2,
};
use vstd::prelude::*;

use super::flac::word::shift_down;

verus! {

/// The low `width` bytes of a number in two's complement, least significant
/// first.
pub open spec fn le_bytes(value: int, width: nat) -> Seq<u8>
    decreases width,
{
    if width == 0 {
        Seq::empty()
    } else {
        seq![(value % 256) as u8] + le_bytes(value / 256, (width - 1) as nat)
    }
}

/// The number a run of bytes spells, least significant first.
pub open spec fn le_value(bytes: Seq<u8>) -> nat
    decreases bytes.len(),
{
    if bytes.len() == 0 {
        0
    } else {
        bytes[0] as nat + 256 * le_value(bytes.skip(1))
    }
}

pub proof fn lemma_le_bytes_len(value: int, width: nat)
    ensures
        le_bytes(value, width).len() == width,
    decreases width,
{
    if width > 0 {
        lemma_le_bytes_len(value / 256, (width - 1) as nat);
    }
}

/// The low byte of a number.
pub fn low_byte(value: i64) -> (byte: u8)
    ensures
        byte == value as int % 256,
{
    if value >= 0 {
        (value % 256) as u8
    } else {
        255 - ((-(value + 1)) % 256) as u8
    }
}

/// Appends the low `width` bytes of a number, least significant first.
pub fn push_le(bytes: &mut Vec<u8>, value: i64, width: usize)
    ensures
        final(bytes)@ == old(bytes)@ + le_bytes(value as int, width as nat),
{
    let ghost goal = bytes@ + le_bytes(value as int, width as nat);
    let mut rest: i64 = value;
    let mut left: usize = width;
    proof {
        lemma2_to64();
    }
    while left > 0
        invariant
            pow2(8) == 256,
            goal == bytes@ + le_bytes(rest as int, left as nat),
        decreases left,
    {
        let ghost before = bytes@;
        bytes.push(low_byte(rest));
        let next: i64 = shift_down(rest, 8);
        proof {
            assert(before + le_bytes(rest as int, left as nat) =~= bytes@ + le_bytes(
                next as int,
                (left - 1) as nat,
            ));
        }
        rest = next;
        left = left - 1;
    }
    assert(bytes@ + le_bytes(rest as int, 0) =~= bytes@);
}

/// Appends the low `width` bytes of an unsigned number, least significant first.
pub fn push_le_unsigned(bytes: &mut Vec<u8>, value: u64, width: usize)
    ensures
        final(bytes)@ == old(bytes)@ + le_bytes(value as int, width as nat),
{
    let ghost goal = bytes@ + le_bytes(value as int, width as nat);
    let mut rest: u64 = value;
    let mut left: usize = width;
    while left > 0
        invariant
            goal == bytes@ + le_bytes(rest as int, left as nat),
        decreases left,
    {
        let ghost before = bytes@;
        bytes.push((rest % 256) as u8);
        proof {
            assert(before + le_bytes(rest as int, left as nat) =~= bytes@ + le_bytes(
                rest as int / 256,
                (left - 1) as nat,
            ));
        }
        rest = rest / 256;
        left = left - 1;
    }
    assert(bytes@ + le_bytes(rest as int, 0) =~= bytes@);
}

/// Only the low bytes of a number count.
pub proof fn lemma_le_bytes_mod(value: int, width: nat)
    ensures
        le_bytes(value % (pow2(8 * width) as int), width) == le_bytes(value, width),
    decreases width,
{
    if width > 0 {
        let rest = (width - 1) as nat;
        let unit = pow2(8 * rest) as int;
        lemma2_to64();
        lemma_pow2_pos(8 * rest);
        lemma_pow2_adds(8, 8 * rest);
        assert(8 + 8 * rest == 8 * width);
        lemma_mod_breakdown_int(value, unit);
        let low = value % (256 * unit);
        assert(low / 256 == (value / 256) % unit);
        assert(low % 256 == value % 256);
        lemma_le_bytes_mod(value / 256, rest);
    }
}

/// A remainder by `256 * unit` is a low byte under a remainder by `unit`.
pub proof fn lemma_mod_breakdown_int(value: int, unit: int)
    requires
        unit > 0,
    ensures
        value % (256 * unit) == 256 * ((value / 256) % unit) + value % 256,
{
    let high = value / 256;
    lemma_fundamental_div_mod(high, unit);
    let rest = 256 * (high % unit) + value % 256;
    assert(value == (high / unit) * (256 * unit) + rest && 0 <= rest < 256 * unit) by (nonlinear_arith)
        requires
            value == 256 * high + value % 256,
            0 <= value % 256 < 256,
            high == unit * (high / unit) + high % unit,
            0 <= high % unit < unit,
            rest == 256 * (high % unit) + value % 256,
    ;
    lemma_fundamental_div_mod_converse(value, 256 * unit, high / unit, rest);
}

/// A number comes back out of its low bytes, up to what they hold.
pub proof fn lemma_le_round_trip(value: int, width: nat)
    ensures
        le_value(le_bytes(value, width)) == value % (pow2(8 * width) as int),
    decreases width,
{
    lemma2_to64();
    lemma_le_bytes_len(value, width);
    if width == 0 {
        assert(8 * width == 0nat);
    } else {
        let rest = (width - 1) as nat;
        let unit = pow2(8 * rest) as int;
        lemma_pow2_pos(8 * rest);
        lemma_pow2_adds(8, 8 * rest);
        assert(8 + 8 * rest == 8 * width);
        lemma_mod_breakdown_int(value, unit);
        lemma_le_round_trip(value / 256, rest);
        lemma_le_bytes_len(value / 256, rest);
        assert(le_bytes(value, width).skip(1) =~= le_bytes(value / 256, rest));
    }
}

/// A run of bytes spells less than its width allows.
pub proof fn lemma_le_value_bound(bytes: Seq<u8>)
    ensures
        le_value(bytes) < pow2(8 * bytes.len()),
    decreases bytes.len(),
{
    lemma2_to64();
    if bytes.len() == 0 {
        assert(8 * bytes.len() == 0nat);
    } else {
        let rest = (bytes.len() - 1) as nat;
        lemma_le_value_bound(bytes.skip(1));
        lemma_pow2_adds(8, 8 * rest);
        assert(8 + 8 * rest == 8 * bytes.len());
    }
}

/// The number a run of bytes spells in two's complement, least significant
/// first.
pub open spec fn le_signed(bytes: Seq<u8>) -> int {
    let value = le_value(bytes);
    if 2 * value >= pow2(8 * bytes.len()) {
        value - pow2(8 * bytes.len())
    } else {
        value as int
    }
}

/// A number that fits its bytes comes back out of them.
pub proof fn lemma_le_signed_round_trip(value: int, width: nat)
    requires
        width > 0,
        -pow2(8 * width) <= 2 * value < pow2(8 * width),
    ensures
        le_signed(le_bytes(value, width)) == value,
{
    let unit = pow2(8 * width) as int;
    lemma_pow2_pos(8 * width);
    lemma_le_bytes_len(value, width);
    lemma_le_round_trip(value, width);
    if value >= 0 {
        vstd::arithmetic::div_mod::lemma_small_mod(value as nat, unit as nat);
    } else {
        vstd::arithmetic::div_mod::lemma_mod_add_multiples_vanish(value, unit);
        vstd::arithmetic::div_mod::lemma_small_mod((value + unit) as nat, unit as nat);
    }
}

/// Reads at most eight bytes as an unsigned number, least significant first.
pub fn read_le(bytes: &[u8], offset: usize, width: usize) -> (value: u64)
    requires
        width <= 8,
        offset + width <= bytes@.len(),
    ensures
        value == le_value(bytes@.subrange(offset as int, offset + width)),
{
    let length: usize = bytes.len();
    let ghost all = bytes@.subrange(offset as int, offset + width);
    let mut value: u64 = 0;
    let mut left: usize = width;
    proof {
        lemma2_to64();
        lemma2_to64_rest();
        assert(all.skip(width as int) =~= Seq::empty());
    }
    while left > 0
        invariant
            width <= 8,
            left <= width,
            offset + width <= bytes@.len(),
            length == bytes@.len(),
            all == bytes@.subrange(offset as int, offset + width),
            value == le_value(all.skip(left as int)),
            pow2(56) == 0x100_0000_0000_0000,
        decreases left,
    {
        proof {
            let rest = all.skip(left as int);
            lemma_le_value_bound(rest);
            if rest.len() < 7 {
                lemma_pow2_strictly_increases(8 * rest.len(), 56);
            }
            let longer = all.skip(left - 1);
            assert(longer.skip(1) =~= rest);
        }
        left = left - 1;
        value = bytes[offset + left] as u64 + 256 * value;
    }
    assert(all.skip(0) =~= all);
    value
}

/// The bytes of a number, most significant first.
pub open spec fn be_bytes(value: int, width: nat) -> Seq<u8> {
    le_bytes(value, width).reverse()
}

/// The number a run of bytes spells, most significant first.
pub open spec fn be_value(bytes: Seq<u8>) -> nat {
    le_value(bytes.reverse())
}

/// Reads at most eight bytes as an unsigned number, most significant first.
pub fn read_be(bytes: &[u8], offset: usize, width: usize) -> (value: u64)
    requires
        width <= 8,
        offset + width <= bytes@.len(),
    ensures
        value == be_value(bytes@.subrange(offset as int, offset + width)),
{
    let length: usize = bytes.len();
    let ghost all = bytes@.subrange(offset as int, offset + width);
    let ghost turned = all.reverse();
    let mut value: u64 = 0;
    let mut done: usize = 0;
    proof {
        lemma2_to64();
        lemma2_to64_rest();
        assert(turned.skip(width as int) =~= Seq::empty());
    }
    while done < width
        invariant
            width <= 8,
            done <= width,
            offset + width <= bytes@.len(),
            length == bytes@.len(),
            all == bytes@.subrange(offset as int, offset + width),
            turned == all.reverse(),
            value == le_value(turned.skip(width - done)),
            pow2(56) == 0x100_0000_0000_0000,
        decreases width - done,
    {
        proof {
            let rest = turned.skip(width - done);
            lemma_le_value_bound(rest);
            if rest.len() < 7 {
                lemma_pow2_strictly_increases(8 * rest.len(), 56);
            }
            let longer = turned.skip(width - done - 1);
            assert(longer.skip(1) =~= rest);
            assert(longer[0] == all[done as int]);
        }
        value = bytes[offset + done] as u64 + 256 * value;
        done = done + 1;
    }
    assert(turned.skip(0) =~= turned);
    value
}

/// Appends the low `width` bytes of a number, most significant first.
pub fn push_be(bytes: &mut Vec<u8>, value: i64, width: usize)
    ensures
        final(bytes)@ == old(bytes)@ + be_bytes(value as int, width as nat),
{
    let mut turned: Vec<u8> = Vec::new();
    push_le(&mut turned, value, width);
    assert(turned@ =~= le_bytes(value as int, width as nat));
    push_reversed(bytes, &turned);
}

/// Appends the low `width` bytes of an unsigned number, most significant first.
pub fn push_be_unsigned(bytes: &mut Vec<u8>, value: u64, width: usize)
    ensures
        final(bytes)@ == old(bytes)@ + be_bytes(value as int, width as nat),
{
    let mut turned: Vec<u8> = Vec::new();
    push_le_unsigned(&mut turned, value, width);
    assert(turned@ =~= le_bytes(value as int, width as nat));
    push_reversed(bytes, &turned);
}

fn push_reversed(bytes: &mut Vec<u8>, turned: &Vec<u8>)
    ensures
        final(bytes)@ == old(bytes)@ + turned@.reverse(),
{
    let mut left: usize = turned.len();
    while left > 0
        invariant
            left <= turned@.len(),
            bytes@ == old(bytes)@ + turned@.reverse().take(turned@.len() - left),
        decreases left,
    {
        left = left - 1;
        bytes.push(turned[left]);
        assert(bytes@ =~= old(bytes)@ + turned@.reverse().take(turned@.len() - left));
    }
    assert(turned@.reverse().take(turned@.len() as int) =~= turned@.reverse());
}

/// Whether four bytes are a chunk's identifier.
pub fn tagged(bytes: &[u8], offset: usize, tag: &[u8; 4]) -> (answer: bool)
    requires
        offset + 4 <= bytes@.len(),
    ensures
        answer == (bytes@.subrange(offset as int, offset + 4) == tag@),
{
    let ghost part = bytes@.subrange(offset as int, offset + 4);
    if bytes[offset] == tag[0] && bytes[offset + 1] == tag[1] && bytes[offset + 2] == tag[2]
        && bytes[offset + 3] == tag[3] {
        assert(part =~= tag@);
        true
    } else {
        assert(part[0] == bytes@[offset as int] && part[1] == bytes@[offset + 1] && part[2]
            == bytes@[offset + 2] && part[3] == bytes@[offset + 3]);
        false
    }
}

} // verus!
