//! Grid codes as floating-point samples, and back.
//!
//! A code of an integer format counts steps of `2^-(bits - 1)`. As long as it has
//! no more significant bits than a float's mantissa, the same sample is a float,
//! whose bit pattern is worked out here with integers alone.

use vstd::arithmetic::power2::{lemma2_to64, lemma_pow2_unfold, pow2};
use vstd::prelude::*;

use super::{exact_in, has_24_bits, Audio, SampleFormat, Sound};
use crate::audio::flac::decode::planes;

verus! {

/// The least magnitude that is not held.
pub const LIMIT: i64 = 0x20_0000_0000_0000;

/// The hidden bit of a mantissa.
pub open spec fn hidden(format: SampleFormat) -> nat {
    if format == SampleFormat::F32 {
        0x80_0000
    } else {
        0x10_0000_0000_0000
    }
}

/// The exponent field of a whole number whose last mantissa bit counts ones.
pub open spec fn whole_field(format: SampleFormat) -> int {
    if format == SampleFormat::F32 {
        150
    } else {
        1075
    }
}

/// A number doubled until it reaches the hidden bit, and how often.
pub open spec fn lifted(number: nat, top: nat) -> (int, nat)
    decreases
            if number < top {
                top - number
            } else {
                0
            },
{
    if number == 0 || number >= top {
        (0, number)
    } else {
        let (shift, mantissa) = lifted(2 * number, top);
        (shift + 1, mantissa)
    }
}

/// A number brought to where its first bit is the hidden bit, by doubling or by
/// halving, and how often it was doubled.
pub open spec fn settled(number: nat, top: nat) -> (int, nat)
    decreases number,
{
    if top > 0 && number >= 2 * top {
        let (shift, mantissa) = settled(number / 2, top);
        (shift - 1, mantissa)
    } else {
        lifted(number, top)
    }
}

/// The bit pattern of a magnitude that counts steps of `2^-scale`.
pub open spec fn magnitude_pattern(number: nat, scale: int, format: SampleFormat) -> int {
    if number == 0 {
        0
    } else {
        let (shift, mantissa) = settled(number, hidden(format));
        (whole_field(format) - shift - scale) * hidden(format) + mantissa - hidden(format)
    }
}

/// The distance of a code from zero.
pub open spec fn size(code: int) -> nat {
    if code < 0 {
        (-code) as nat
    } else {
        code as nat
    }
}

/// The code of a float format that stands for a number of steps of `2^-scale`.
pub open spec fn pattern(code: int, scale: int, format: SampleFormat) -> int {
    let magnitude = magnitude_pattern(size(code), scale, format);
    if code >= 0 {
        magnitude
    } else if format == SampleFormat::F32 {
        magnitude + 0x8000_0000
    } else {
        magnitude - 0x8000_0000_0000_0000
    }
}

/// A mantissa halved or doubled a number of times, as long as nothing is lost and
/// it stays below the limit.
pub open spec fn unshifted(mantissa: nat, shift: int) -> Option<nat>
    decreases
            if shift < 0 {
                -shift
            } else {
                shift
            },
{
    if shift > 0 {
        if mantissa % 2 == 0 {
            unshifted(mantissa / 2, shift - 1)
        } else {
            None
        }
    } else if shift < 0 {
        if 2 * mantissa < LIMIT {
            unshifted(2 * mantissa, shift + 1)
        } else {
            None
        }
    } else {
        Some(mantissa)
    }
}

/// The number of steps of `2^-scale` that a magnitude's bit pattern stands for, if
/// it is a whole one below the limit.
pub open spec fn magnitude_of(bits: nat, scale: int, format: SampleFormat) -> Option<nat> {
    let field = bits / hidden(format);
    if bits == 0 {
        Some(0)
    } else if field == 0 {
        None
    } else {
        unshifted(hidden(format) + bits % hidden(format), whole_field(format) - scale - field)
    }
}

/// Whether a code of a float format is that of a negative number.
pub open spec fn is_negative(code: int, format: SampleFormat) -> bool {
    if format == SampleFormat::F32 {
        code >= 0x8000_0000
    } else {
        code < 0
    }
}

/// The bits of a float code but for its sign.
pub open spec fn unsigned_bits(code: int, format: SampleFormat) -> nat {
    if !is_negative(code, format) {
        code as nat
    } else if format == SampleFormat::F32 {
        (code - 0x8000_0000) as nat
    } else {
        (code + 0x8000_0000_0000_0000) as nat
    }
}

/// The number of steps of `2^-scale` that a code of a float format stands for, if
/// it is a whole one within the limit.
pub open spec fn steps_of(code: int, scale: int, format: SampleFormat) -> Option<int> {
    match magnitude_of(unsigned_bits(code, format), scale, format) {
        Some(number) => if is_negative(code, format) {
            Some(-(number as int))
        } else {
            Some(number as int)
        },
        None => None,
    }
}

/// The exponent of the steps of an integer format.
pub open spec fn scale_of(format: SampleFormat) -> int {
    format.spec_bits() - 1
}

// Nothing is lost on the way.

/// One more halving halves what comes out.
proof fn lemma_halved(mantissa: nat, shift: int, number: nat)
    requires
        shift >= 0,
        unshifted(mantissa, shift) == Some(number),
        number % 2 == 0,
    ensures
        unshifted(mantissa, shift + 1) == Some(number / 2),
    decreases shift,
{
    if shift > 0 {
        lemma_halved(mantissa / 2, shift - 1, number);
    } else {
        assert(unshifted(number / 2, 0) == Some(number / 2));
    }
}

/// One more doubling doubles what comes out.
proof fn lemma_doubled(mantissa: nat, shift: int, number: nat)
    requires
        shift <= 0,
        unshifted(mantissa, shift) == Some(number),
        2 * number < LIMIT,
    ensures
        unshifted(mantissa, shift - 1) == Some(2 * number),
    decreases -shift,
{
    if shift < 0 {
        lemma_doubled(2 * mantissa, shift + 1, number);
    } else {
        assert(unshifted(2 * number, 0) == Some(2 * number));
    }
}

/// Doubling up to the hidden bit is undone by halving.
proof fn lemma_lifted(number: nat, top: nat, most: nat)
    requires
        0 < number < 2 * top,
        top <= number * pow2(most),
    ensures
        ({
            let (shift, mantissa) = lifted(number, top);
            &&& 0 <= shift <= most
            &&& top <= mantissa < 2 * top
            &&& unshifted(mantissa, shift) == Some(number)
        }),
    decreases
            if number < top {
                top - number
            } else {
                0
            },
{
    if number < top {
        if most == 0 {
            lemma2_to64();
            assert(number * 1 == number);
        }
        lemma_pow2_unfold(most);
        let half = pow2((most - 1) as nat);
        assert(number * (2 * half) == (2 * number) * half) by (nonlinear_arith);
        lemma_lifted(2 * number, top, (most - 1) as nat);
        let (shift, mantissa) = lifted(2 * number, top);
        lemma_halved(mantissa, shift, 2 * number);
    }
}

/// Whether a number can be halved below twice the hidden bit without a remainder.
pub open spec fn halves(number: nat, top: nat) -> bool
    decreases number,
{
    if top > 0 && number >= 2 * top {
        number % 2 == 0 && halves(number / 2, top)
    } else {
        true
    }
}

/// Settling a number is undone by shifting it back.
proof fn lemma_settled(number: nat, top: nat, most: nat, least: nat)
    requires
        0 < number < LIMIT,
        top > 0,
        top <= pow2(most),
        number < 2 * top * pow2(least),
        halves(number, top),
    ensures
        ({
            let (shift, mantissa) = settled(number, top);
            &&& -least <= shift <= most
            &&& number >= 2 * top ==> shift < 0
            &&& number < 2 * top ==> shift >= 0
            &&& top <= mantissa < 2 * top
            &&& unshifted(mantissa, shift) == Some(number)
        }),
    decreases number,
{
    if number >= 2 * top {
        let half = number / 2;
        if least == 0 {
            lemma2_to64();
            assert(2 * top * 1 == 2 * top);
        }
        lemma_pow2_unfold(least);
        let fewer = pow2((least - 1) as nat);
        assert(2 * top * (2 * fewer) == 2 * (2 * top * fewer)) by (nonlinear_arith);
        lemma_settled(half, top, most, (least - 1) as nat);
        let (shift, mantissa) = settled(half, top);
        if half < 2 * top {
            assert(half >= top);
            assert(settled(half, top) == lifted(half, top));
        }
        lemma_doubled(mantissa, shift, half);
    } else {
        assert(pow2(most) <= number * pow2(most)) by (nonlinear_arith)
            requires
                number >= 1,
        ;
        lemma_lifted(number, top, most);
    }
}

/// A number below the hidden bit is doubled, one too far above it is halved.
proof fn lemma_shift_sign(number: nat, top: nat)
    requires
        number > 0,
        top > 0,
    ensures
        number < 2 * top ==> settled(number, top).0 >= 0,
        number < top ==> settled(number, top).0 >= 1,
        number >= 2 * top ==> settled(number, top).0 <= -1,
    decreases
            if number >= 2 * top {
                number as int
            } else if number < top {
                top - number
            } else {
                0
            },
{
    if number >= 2 * top {
        lemma_shift_sign(number / 2, top);
        if number / 2 < 2 * top {
            assert(lifted(number / 2, top) == (0int, number / 2));
        }
    } else if number < top {
        lemma_shift_sign(2 * number, top);
    }
}

/// A number of 24 bits at most can be halved down to them.
proof fn lemma_halves(code: int)
    requires
        has_24_bits(code),
    ensures
        halves(size(code), 0x80_0000),
    decreases size(code),
{
    if -0x100_0000 <= code <= 0x100_0000 {
        if size(code) == 0x100_0000 {
            assert(halves(0x80_0000, 0x80_0000));
        }
    } else {
        lemma_halves(code / 2);
        assert(size(code / 2) == size(code) / 2);
    }
}

/// A sample that goes to a float and back is the same sample.
pub proof fn law_floats_hold_the_grid(code: int, from: SampleFormat, to: SampleFormat)
    requires
        -LIMIT < code < LIMIT,
        !from.spec_is_float(),
        to.spec_is_float(),
        to == SampleFormat::F32 ==> has_24_bits(code),
    ensures
        to.low() <= pattern(code, scale_of(from), to) <= to.high(),
        steps_of(pattern(code, scale_of(from), to), scale_of(from), to) == Some(code),
{
    let scale = scale_of(from);
    let top = hidden(to);
    let number = size(code);
    if number > 0 {
        lemma2_to64();
        vstd::arithmetic::power2::lemma2_to64_rest();
        if to == SampleFormat::F32 {
            lemma_halves(code);
            lemma_settled(number, top, 23, 29);
        } else {
            assert(halves(number, top));
            lemma_settled(number, top, 52, 0);
        }
        let (shift, mantissa) = settled(number, top);
        let field = whole_field(to) - shift - scale;
        let bits = magnitude_pattern(number, scale, to);
        if to == SampleFormat::F32 {
            assert(bits == field * 0x80_0000 + (mantissa - 0x80_0000));
            assert(96 <= field <= 172);
            assert(bits / 0x80_0000 == field);
            assert(bits % 0x80_0000 == mantissa - 0x80_0000);
        } else {
            assert(bits == field * 0x10_0000_0000_0000 + (mantissa - 0x10_0000_0000_0000));
            assert(900 <= field <= 1075);
            assert(bits / 0x10_0000_0000_0000 == field);
            assert(bits % 0x10_0000_0000_0000 == mantissa - 0x10_0000_0000_0000);
        }
        assert(magnitude_of(bits as nat, scale, to) == Some(number));
    }
}

/// The least number of the hidden bit of a format.
fn hidden_bit(format: SampleFormat) -> (top: u64)
    requires
        format.spec_is_float(),
    ensures
        top == hidden(format),
{
    match format {
        SampleFormat::F32 => 0x80_0000,
        _ => 0x10_0000_0000_0000,
    }
}

/// The bit pattern of a magnitude.
fn magnitude_bits(number: u64, scale: i64, format: SampleFormat) -> (bits: u64)
    requires
        0 < number < LIMIT,
        7 <= scale <= 31,
        format.spec_is_float(),
        format == SampleFormat::F32 ==> halves(number as nat, 0x80_0000),
    ensures
        bits == magnitude_pattern(number as nat, scale as int, format),
        bits < (if format == SampleFormat::F32 {
            0x8000_0000int
        } else {
            0x8000_0000_0000_0000
        }),
{
    let top: u64 = hidden_bit(format);
    let mut mantissa: u64 = number;
    let mut shift: i64 = 0;
    proof {
        lemma2_to64();
        vstd::arithmetic::power2::lemma2_to64_rest();
        if format == SampleFormat::F32 {
            lemma_settled(number as nat, top as nat, 23, 29);
        } else {
            assert(halves(number as nat, top as nat));
            lemma_settled(number as nat, top as nat, 52, 0);
        }
    }
    let ghost total = settled(number as nat, top as nat);
    while mantissa >= 2 * top
        invariant
            top == hidden(format),
            0 < mantissa < LIMIT,
            -29 <= shift <= 0,
            total == settled(number as nat, top as nat),
            -29 <= total.0 <= 52,
            shift + settled(mantissa as nat, top as nat).0 == total.0,
            settled(mantissa as nat, top as nat).1 == total.1,
        decreases mantissa,
    {
        proof {
            lemma_shift_sign(mantissa as nat, top as nat);
        }
        mantissa = mantissa / 2;
        shift = shift - 1;
    }
    while mantissa < top
        invariant
            top == hidden(format),
            0 < mantissa < 2 * top,
            -29 <= shift <= 52,
            total == settled(number as nat, top as nat),
            -29 <= total.0 <= 52,
            shift + settled(mantissa as nat, top as nat).0 == total.0,
            settled(mantissa as nat, top as nat).1 == total.1,
        decreases (if mantissa < top { top - mantissa } else { 0 }),
    {
        proof {
            lemma_shift_sign(mantissa as nat, top as nat);
        }
        mantissa = 2 * mantissa;
        shift = shift + 1;
    }
    assert(settled(mantissa as nat, top as nat) == (0int, mantissa as nat));
    match format {
        SampleFormat::F32 => ((150 - shift - scale) as u64) * 0x80_0000 + (mantissa - 0x80_0000),
        _ => ((1075 - shift - scale) as u64) * 0x10_0000_0000_0000 + (mantissa
            - 0x10_0000_0000_0000),
    }
}

/// The code of a float format that stands for the same sample as a grid code.
pub fn float_code(code: i64, from: SampleFormat, to: SampleFormat) -> (same: i64)
    requires
        -LIMIT < code < LIMIT,
        !from.spec_is_float(),
        to.spec_is_float(),
        to == SampleFormat::F32 ==> has_24_bits(code as int),
    ensures
        same == pattern(code as int, scale_of(from), to),
{
    if code == 0 {
        return 0;
    }
    let scale: i64 = from.bits() as i64 - 1;
    proof {
        if to == SampleFormat::F32 {
            lemma_halves(code as int);
        }
    }
    let number: u64 = if code < 0 {
        (-code) as u64
    } else {
        code as u64
    };
    let bits: u64 = magnitude_bits(number, scale, to);
    match to {
        SampleFormat::F32 => if code < 0 {
            bits as i64 + 0x8000_0000
        } else {
            bits as i64
        },
        _ => if code < 0 {
            bits as i64 - 0x7fff_ffff_ffff_ffff - 1
        } else {
            bits as i64
        },
    }
}

/// A mantissa shifted back to where it came from.
fn shifted_back(mantissa: u64, shift: i64) -> (number: Option<u64>)
    requires
        mantissa < LIMIT,
        -5000 <= shift <= 5000,
    ensures
        match unshifted(mantissa as nat, shift as int) {
            Some(expected) => number matches Some(found) && found == expected && found < LIMIT,
            None => number is None,
        },
{
    let mut rest: u64 = mantissa;
    let mut left: i64 = shift;
    while left != 0
        invariant
            rest < LIMIT,
            -5000 <= left <= 5000,
            unshifted(mantissa as nat, shift as int) == unshifted(rest as nat, left as int),
        decreases (if left < 0 { -left as int } else { left as int }),
    {
        if left > 0 {
            if rest % 2 != 0 {
                return None;
            }
            rest = rest / 2;
            left = left - 1;
        } else {
            if 2 * rest >= LIMIT as u64 {
                return None;
            }
            rest = 2 * rest;
            left = left + 1;
        }
    }
    Some(rest)
}

/// The grid code of an integer format that stands for the same sample as a code
/// of a float format, if there is one.
pub fn grid_code(code: i64, from: SampleFormat, to: SampleFormat) -> (same: Option<i64>)
    requires
        from.spec_is_float(),
        from.low() <= code <= from.high(),
        !to.spec_is_float(),
    ensures
        match steps_of(code as int, scale_of(to), from) {
            Some(expected) => same matches Some(found) && found == expected && -LIMIT < found
                < LIMIT,
            None => same is None,
        },
{
    let scale: i64 = to.bits() as i64 - 1;
    let negative: bool = match from {
        SampleFormat::F32 => code >= 0x8000_0000,
        _ => code < 0,
    };
    let bits: u64 = if !negative {
        code as u64
    } else {
        match from {
            SampleFormat::F32 => (code - 0x8000_0000) as u64,
            _ => (code + 0x7fff_ffff_ffff_ffff + 1) as u64,
        }
    };
    assert(bits == unsigned_bits(code as int, from));
    if bits == 0 {
        return Some(0);
    }
    let (field, mantissa): (u64, u64) = match from {
        SampleFormat::F32 => (bits / 0x80_0000, 0x80_0000 + bits % 0x80_0000),
        _ => (bits / 0x10_0000_0000_0000, 0x10_0000_0000_0000 + bits % 0x10_0000_0000_0000),
    };
    if field == 0 {
        return None;
    }
    let shift: i64 = match from {
        SampleFormat::F32 => 150 - scale - field as i64,
        _ => 1075 - scale - field as i64,
    };
    match shifted_back(mantissa, shift) {
        Some(number) => if negative {
            Some(-(number as i64))
        } else {
            Some(number as i64)
        },
        None => None,
    }
}

/// Every code as a float.
pub open spec fn float_channels(
    channels: Seq<Seq<i64>>,
    from: SampleFormat,
    to: SampleFormat,
) -> Seq<Seq<i64>> {
    Seq::new(
        channels.len(),
        |i: int|
            Seq::new(
                channels[i].len(),
                |j: int| pattern(channels[i][j] as int, scale_of(from), to) as i64,
            ),
    )
}

/// Whether every code of a buffer stays within the limit.
pub open spec fn limited(channels: Seq<Seq<i64>>) -> bool {
    forall|i: int, j: int|
        0 <= i < channels.len() && 0 <= j < channels[i].len() ==> -LIMIT < #[trigger] channels[i][j]
            < LIMIT
}

/// The same recording as floats, which hold every sample.
pub fn to_float(audio: &Audio, format: SampleFormat) -> (same: Audio)
    requires
        audio.wf(),
        !audio@.format.spec_is_float(),
        format.spec_is_float(),
        limited(audio@.channels),
        super::all_exact_in(audio@, format),
    ensures
        same.wf(),
        same@ == (Sound {
            sample_rate: audio@.sample_rate,
            format,
            channels: float_channels(audio@.channels, audio@.format, format),
        }),
        same@.in_range(),
{
    let from = audio.format();
    let source = audio.channels();
    let ghost before = audio@;
    let ghost goal = float_channels(before.channels, from, format);
    let mut channels: Vec<Vec<i64>> = Vec::new();
    while channels.len() < source.len()
        invariant
            planes(source@) == before.channels,
            before.format == from,
            channels@.len() <= source@.len(),
            !from.spec_is_float(),
            format.spec_is_float(),
            limited(before.channels),
            super::all_exact_in(before, format),
            goal == float_channels(before.channels, from, format),
            planes(channels@) == goal.take(channels@.len() as int),
        decreases source@.len() - channels@.len(),
    {
        let channel: usize = channels.len();
        let line = &source[channel];
        assert(before.channels[channel as int] == line@);
        let mut plane: Vec<i64> = Vec::new();
        while plane.len() < line.len()
            invariant
                plane@.len() <= line@.len(),
                channel < before.channels.len(),
                before.channels[channel as int] == line@,
                before.format == from,
                !from.spec_is_float(),
                format.spec_is_float(),
                limited(before.channels),
                super::all_exact_in(before, format),
                goal == float_channels(before.channels, from, format),
                plane@ == goal[channel as int].take(plane@.len() as int),
            decreases line@.len() - plane@.len(),
        {
            let frame: usize = plane.len();
            assert(before.channels[channel as int][frame as int] == line@[frame as int]);
            assert(exact_in(before.channels[channel as int][frame as int], from, format));
            plane.push(float_code(line[frame], from, format));
            assert(plane@ =~= goal[channel as int].take(frame + 1));
        }
        assert(plane@ =~= goal[channel as int]);
        channels.push(plane);
        assert(planes(channels@) =~= goal.take(channels@.len() as int));
    }
    let same = Audio::of_planes(audio.sample_rate(), format, channels);
    proof {
        assert(planes(channels@) =~= goal);
        assert forall|i: int| 0 <= i < goal.len() implies (#[trigger] goal[i]).len()
            == same@.frames() by {
            assert(before.channels[i].len() == before.frames());
            assert(before.channels[0].len() == before.frames());
        }
        assert forall|i: int, j: int|
            0 <= i < goal.len() && 0 <= j < goal[i].len() implies format.low() <= #[trigger]
        goal[i][j] <= format.high() by {
            assert(exact_in(before.channels[i][j], from, format));
            law_floats_hold_the_grid(before.channels[i][j] as int, from, format);
        }
    }
    same
}

/// Whether some codes are what every float of a buffer stands for on a grid.
pub open spec fn same_samples(
    floats: Seq<Seq<i64>>,
    from: SampleFormat,
    codes: Seq<Seq<i64>>,
    to: SampleFormat,
) -> bool {
    &&& codes.len() == floats.len()
    &&& forall|i: int| 0 <= i < floats.len() ==> (#[trigger] codes[i]).len() == floats[i].len()
    &&& forall|i: int, j: int|
        0 <= i < floats.len() && 0 <= j < floats[i].len() ==> steps_of(
            floats[i][j] as int,
            scale_of(to),
            from,
        ) == Some(#[trigger] codes[i][j] as int)
}

/// The same recording on an integer grid, if every sample lies on it.
pub fn to_grid(audio: &Audio, format: SampleFormat) -> (same: Option<Audio>)
    requires
        audio.wf(),
        audio@.format.spec_is_float(),
        audio@.in_range(),
        !format.spec_is_float(),
    ensures
        match same {
            Some(grid) => {
                &&& grid.wf()
                &&& grid@.sample_rate == audio@.sample_rate
                &&& grid@.format == format
                &&& same_samples(audio@.channels, audio@.format, grid@.channels, format)
            },
            None => exists|i: int, j: int|
                0 <= i < audio@.channels.len() && 0 <= j < audio@.channels[i].len() && steps_of(
                    #[trigger] audio@.channels[i][j] as int,
                    scale_of(format),
                    audio@.format,
                ) is None,
        },
{
    let from = audio.format();
    let source = audio.channels();
    let ghost before = audio@;
    let mut channels: Vec<Vec<i64>> = Vec::new();
    while channels.len() < source.len()
        invariant
            planes(source@) == before.channels,
            before == audio@,
            before.format == from,
            before.in_range(),
            channels@.len() <= source@.len(),
            from.spec_is_float(),
            !format.spec_is_float(),
            same_samples(
                before.channels.take(channels@.len() as int),
                from,
                planes(channels@),
                format,
            ),
        decreases source@.len() - channels@.len(),
    {
        let channel: usize = channels.len();
        let line = &source[channel];
        let ghost done = planes(channels@);
        assert(before.channels[channel as int] == line@);
        let mut plane: Vec<i64> = Vec::new();
        while plane.len() < line.len()
            invariant
                plane@.len() <= line@.len(),
                channel < before.channels.len(),
                before == audio@,
                before.channels[channel as int] == line@,
                before.format == from,
                before.in_range(),
                from.spec_is_float(),
                !format.spec_is_float(),
                forall|j: int|
                    0 <= j < plane@.len() ==> steps_of(line@[j] as int, scale_of(format), from)
                        == Some(#[trigger] plane@[j] as int),
            decreases line@.len() - plane@.len(),
        {
            let frame: usize = plane.len();
            assert(before.channels[channel as int][frame as int] == line@[frame as int]);
            match grid_code(line[frame], from, format) {
                Some(code) => {
                    plane.push(code);
                },
                None => {
                    assert(steps_of(
                        audio@.channels[channel as int][frame as int] as int,
                        scale_of(format),
                        audio@.format,
                    ) is None);
                    return None;
                },
            }
        }
        channels.push(plane);
        proof {
            let now = planes(channels@);
            assert(now =~= done.push(plane@));
            let upto = before.channels.take(channels@.len() as int);
            assert forall|i: int, j: int|
                0 <= i < upto.len() && 0 <= j < upto[i].len() implies steps_of(
                upto[i][j] as int,
                scale_of(format),
                from,
            ) == Some(#[trigger] now[i][j] as int) by {
                if i < done.len() {
                    assert(now[i] == done[i]);
                    assert(upto[i] == before.channels.take(done.len() as int)[i]);
                    assert(done[i][j] == now[i][j]);
                } else {
                    assert(now[i] == plane@);
                    assert(plane@[j] == now[i][j]);
                }
            }
            assert forall|i: int| 0 <= i < upto.len() implies (#[trigger] now[i]).len()
                == upto[i].len() by {
                if i < done.len() {
                    assert(done[i].len() == before.channels.take(done.len() as int)[i].len());
                }
            }
        }
    }
    let grid = Audio::of_planes(audio.sample_rate(), format, channels);
    proof {
        assert(before.channels.take(channels@.len() as int) =~= before.channels);
        assert forall|i: int| 0 <= i < grid@.channels.len() implies (#[trigger] grid@.channels[i]).len()
            == grid@.frames() by {
            assert(grid@.channels[i].len() == before.channels[i].len());
            assert(grid@.channels[0].len() == before.channels[0].len());
            assert(before.channels[i].len() == before.frames());
            assert(before.channels[0].len() == before.frames());
        }
    }
    Some(grid)
}

/// A recording that goes to floats and back is the same recording.
pub proof fn law_float_recordings_come_back(
    sound: Sound,
    to: SampleFormat,
    codes: Seq<Seq<i64>>,
)
    requires
        !sound.format.spec_is_float(),
        to.spec_is_float(),
        limited(sound.channels),
        super::all_exact_in(sound, to),
        same_samples(
            float_channels(sound.channels, sound.format, to),
            to,
            codes,
            sound.format,
        ),
    ensures
        codes == sound.channels,
{
    let floats = float_channels(sound.channels, sound.format, to);
    assert forall|i: int| 0 <= i < codes.len() implies codes[i] == sound.channels[i] by {
        assert(codes[i].len() == floats[i].len());
        assert forall|j: int| 0 <= j < codes[i].len() implies codes[i][j]
            == sound.channels[i][j] by {
            let code = sound.channels[i][j];
            assert(exact_in(code, sound.format, to));
            law_floats_hold_the_grid(code as int, sound.format, to);
            assert(floats[i][j] == pattern(code as int, scale_of(sound.format), to));
            assert(steps_of(floats[i][j] as int, scale_of(sound.format), to) == Some(
                codes[i][j] as int,
            ));
        }
        assert(codes[i] =~= sound.channels[i]);
    }
    assert(codes =~= sound.channels);
}

/// What a shift takes from a mantissa or adds to it.
proof fn lemma_unshifted(mantissa: nat, shift: int)
    ensures
        unshifted(mantissa, shift) matches Some(number) ==> {
            &&& shift >= 0 ==> mantissa == number * pow2(shift as nat)
            &&& shift < 0 ==> number == mantissa * pow2((-shift) as nat)
        },
    decreases
            if shift < 0 {
                -shift
            } else {
                shift
            },
{
    lemma2_to64();
    if let Some(number) = unshifted(mantissa, shift) {
        if shift > 0 {
            lemma_unshifted(mantissa / 2, shift - 1);
            lemma_pow2_unfold(shift as nat);
            let half = pow2((shift - 1) as nat);
            let whole = pow2(shift as nat);
            assert(mantissa == number * whole) by (nonlinear_arith)
                requires
                    mantissa % 2 == 0,
                    mantissa / 2 == number * half,
                    whole == 2 * half,
            ;
        } else if shift < 0 {
            lemma_unshifted(2 * mantissa, shift + 1);
            lemma_pow2_unfold((-shift) as nat);
            let half = pow2((-shift - 1) as nat);
            let whole = pow2((-shift) as nat);
            if shift + 1 < 0 {
                assert((-(shift + 1)) as nat == (-shift - 1) as nat);
                assert(number == mantissa * whole) by (nonlinear_arith)
                    requires
                        number == (2 * mantissa) * half,
                        whole == 2 * half,
                ;
            } else {
                assert(half == 1);
                assert(whole == 2);
                assert(2 * mantissa == number * 1);
                assert(number == mantissa * whole) by (nonlinear_arith)
                    requires
                        2 * mantissa == number,
                        whole == 2,
                ;
            }
        } else {
            assert(mantissa == number * 1);
        }
    }
}

/// The bits of a float mean a number: below the sign stand the exponent, of eight
/// bits counted from 127 or of eleven counted from 1023, and the mantissa, of 23
/// bits or of 52, whose leading one is left out. Steps that a float counts are that
/// number, doubled as often as the steps were halved, and have its sign.
pub proof fn law_float_bits_mean_their_number(code: int, scale: nat, format: SampleFormat)
    requires
        format.spec_is_float(),
        format.low() <= code <= format.high(),
    ensures
        steps_of(code, scale as int, format) matches Some(steps) ==> ({
            let word: int = if format == SampleFormat::F32 {
                0x1_0000_0000
            } else {
                0x1_0000_0000_0000_0000
            };
            let bits = code % (word / 2);
            let lead: int = if format == SampleFormat::F32 {
                0x80_0000
            } else {
                0x10_0000_0000_0000
            };
            let whole: nat = if format == SampleFormat::F32 {
                127 + 23
            } else {
                1023 + 52
            };
            let exponent = bits / lead;
            let magnitude = if steps < 0 {
                -steps
            } else {
                steps
            };
            &&& steps == 0 <==> bits == 0
            &&& steps != 0 ==> {
                &&& exponent > 0
                &&& magnitude * pow2(whole) == (lead + bits % lead) * pow2(
                    (exponent + scale) as nat,
                )
                &&& steps < 0 <==> (code % word) >= word / 2
            }
        }),
{
    if let Some(steps) = steps_of(code, scale as int, format) {
        let bits = unsigned_bits(code, format);
        let lead = hidden(format);
        let whole = whole_field(format) as nat;
        let field = bits / lead;
        let mantissa = lead + bits % lead;
        if bits > 0 {
            let shift = whole - scale - field;
            let number = magnitude_of(bits, scale as int, format)->Some_0;
            lemma_unshifted(mantissa, shift);
            let top = pow2(whole);
            if shift >= 0 {
                let rest = pow2((field + scale) as nat);
                let unit = pow2(shift as nat);
                vstd::arithmetic::power2::lemma_pow2_adds(shift as nat, (field + scale) as nat);
                assert(shift + (field + scale) == whole);
                vstd::arithmetic::power2::lemma_pow2_pos(shift as nat);
                assert(number * top == mantissa * rest) by (nonlinear_arith)
                    requires
                        mantissa == number * unit,
                        top == unit * rest,
                ;
                assert(number > 0) by (nonlinear_arith)
                    requires
                        mantissa == number * unit,
                        mantissa > 0,
                ;
            } else {
                let unit = pow2((-shift) as nat);
                let rest = pow2((field + scale) as nat);
                vstd::arithmetic::power2::lemma_pow2_adds((-shift) as nat, whole);
                assert(-shift + whole == field + scale);
                vstd::arithmetic::power2::lemma_pow2_pos((-shift) as nat);
                assert(number * top == mantissa * rest) by (nonlinear_arith)
                    requires
                        number == mantissa * unit,
                        rest == unit * top,
                ;
                assert(number > 0) by (nonlinear_arith)
                    requires
                        number == mantissa * unit,
                        mantissa > 0,
                        unit > 0,
                ;
            }
        }
    }
}

} // verus!
