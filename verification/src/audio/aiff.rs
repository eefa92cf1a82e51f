//! AIFF and AIFF-C reading and writing.
//!
//! GarageBand and Logic import AIFF natively, so every exported stem and every
//! deduplicated sample can be written in a format those hosts open directly.
//! Integer AIFF samples are big-endian and signed (8-bit ones too, which WAV
//! stores unsigned instead), and the sample rate is an 80-bit IEEE extended
//! float; both conversions are exact, so the round trip stays lossless.

use vstd::arithmetic::div_mod::lemma_fundamental_div_mod;
use vstd::arithmetic::power2::{
    lemma2_to64, lemma2_to64_rest, lemma_pow2_adds, lemma_pow2_pos, lemma_pow2_strictly_increases,
    lemma_pow2_unfold, pow2,
};
use vstd::prelude::*;
use vstd::slice::slice_subrange;

use super::bytes::{
    be_bytes, be_value, le_bytes, lemma_le_bytes_len, lemma_le_bytes_mod, lemma_le_round_trip,
    lemma_le_value_bound, push_be_unsigned, read_be, tagged,
};
use super::flac::bits::lemma_pow2_word;

use super::flac::encode::exponent;
use super::pcm::{law_weave_round_trip, unweave, unwoven, weave, woven};
use super::wav::{lemma_data_frames, lemma_stored_shape};
use super::{
    channels_fault, clamped_channels, lemma_clamped_in_range, Audio, SampleFormat, Sound,
};
use crate::error::{format_error, Error, Fault};
use crate::text::{decimal, decimal_text, lossy, lossy_text};

verus! {

/// `FORM`
pub const FORM: [u8; 4] = [0x46, 0x4F, 0x52, 0x4D];

/// `AIFF`
pub const AIFF: [u8; 4] = [0x41, 0x49, 0x46, 0x46];

/// `AIFC`
pub const AIFC: [u8; 4] = [0x41, 0x49, 0x46, 0x43];

/// `COMM`
pub const COMM: [u8; 4] = [0x43, 0x4F, 0x4D, 0x4D];

/// `SSND`
pub const SSND: [u8; 4] = [0x53, 0x53, 0x4E, 0x44];

/// `NONE`
pub const NONE: [u8; 4] = [0x4E, 0x4F, 0x4E, 0x45];

/// What a `COMM` chunk says about the samples.
#[derive(Clone, Copy, Debug)]
pub struct Common {
    pub channels: u16,
    pub frames: u32,
    pub bits: u16,
    pub sample_rate: u32,
}

/// A big-endian field of a run of bytes.
pub open spec fn be_field(bytes: Seq<u8>, offset: int, width: int) -> nat {
    be_value(bytes.subrange(offset, offset + width))
}

/// The nearest number with at most 53 significant bits, halves going to the
/// even one: what a 64-bit mantissa is read as.
pub open spec fn nearest53(mantissa: nat) -> nat {
    if mantissa < pow2(53) {
        mantissa
    } else {
        let dropped = (exponent(mantissa) - 52) as nat;
        let unit = pow2(dropped);
        let kept = mantissa / unit;
        let rest = mantissa % unit;
        let up = 2 * rest > unit || (2 * rest == unit && kept % 2 == 1);
        unit * (kept + if up {
            1nat
        } else {
            0nat
        })
    }
}

/// The whole sample rate an extended float stands for: its value, rounded with
/// halves going up, where it lies between one and what 32 bits hold. One that
/// does not is refused without being spelled: its digits are those of a float.
pub open spec fn extended_rate(biased: nat, mantissa: nat) -> Result<nat, Fault> {
    if biased >= 0x8000 || mantissa == 0 {
        Err(Fault::Format("sample rate is not a positive number"@))
    } else {
        // The value is `scaled / 2^64` where the exponent is at least -1, and
        // less than one below that.
        let scaled = nearest53(mantissa) * pow2((biased - 16382) as nat);
        if biased < 16382 || scaled < 0x1_0000_0000_0000_0000 || scaled > 0xFFFF_FFFF
            * 0x1_0000_0000_0000_0000 {
            Err(Fault::Format("sample rate out of range"@))
        } else {
            Ok((scaled + 0x8000_0000_0000_0000) / 0x1_0000_0000_0000_0000)
        }
    }
}

/// Reading an 80-bit IEEE 754 extended float as a whole sample rate.
pub open spec fn read_extended(bytes: Seq<u8>) -> Result<nat, Fault> {
    if bytes.len() < 10 {
        Err(Fault::Format("truncated extended float"@))
    } else {
        extended_rate(be_field(bytes, 0, 2), be_field(bytes, 2, 8))
    }
}

/// The 80-bit IEEE 754 extended float of a whole number, or zeros for none.
pub open spec fn extended_bytes(value: int) -> Seq<u8> {
    if value <= 0 {
        Seq::new(10, |i: int| 0u8)
    } else {
        let power = exponent(value as nat);
        be_bytes(power as int + 16383, 2) + be_bytes(value * pow2((63 - power) as nat), 8)
    }
}

/// Reading a `COMM` chunk.
pub open spec fn read_common(body: Seq<u8>) -> Result<Common, Fault> {
    if body.len() < 18 {
        Err(Fault::Format("`COMM` chunk shorter than 18 bytes"@))
    } else if body.len() >= 22 && body.subrange(18, 22) != NONE@ {
        Err(
            Fault::Unsupported(
                "AIFF-C compression `"@ + lossy_text(body.subrange(18, 22)) + "`"@,
            ),
        )
    } else {
        match read_extended(body.subrange(8, 18)) {
            Err(fault) => Err(fault),
            Ok(sample_rate) => if be_field(body, 0, 2) == 0 {
                Err(Fault::Format("channel count is zero"@))
            } else {
                Ok(
                    Common {
                        channels: be_field(body, 0, 2) as u16,
                        frames: be_field(body, 2, 4) as u32,
                        bits: be_field(body, 6, 2) as u16,
                        sample_rate: sample_rate as u32,
                    },
                )
            },
        }
    }
}

/// The sample format a depth stands for.
pub open spec fn sample_format(bits: u16) -> Option<SampleFormat> {
    if bits == 8 {
        Some(SampleFormat::PcmU8)
    } else if bits == 16 {
        Some(SampleFormat::PcmI16)
    } else if bits == 24 {
        Some(SampleFormat::PcmI24)
    } else if bits == 32 {
        Some(SampleFormat::PcmI32)
    } else {
        None
    }
}

/// Reading the samples of an `SSND` chunk: as many frames as were announced, or
/// as there are.
pub open spec fn read_samples(common: Common, data: Seq<u8>) -> Result<Sound, Fault> {
    match sample_format(common.bits) {
        None => Err(
            Fault::Unsupported(
                "AIFF with "@ + decimal(common.bits as nat) + " bits per sample"@,
            ),
        ),
        Some(format) => {
            let available = data.len() / (common.channels as nat * (format.spec_bits() / 8));
            let frames = if common.frames < available {
                common.frames as nat
            } else {
                available
            };
            let channels = unwoven(true, format, common.channels as nat, frames, data);
            match channels_fault(common.sample_rate, channels) {
                Some(fault) => Err(fault),
                None => Ok(Sound { sample_rate: common.sample_rate, format, channels }),
            }
        },
    }
}

/// The samples in an `SSND` chunk, behind the offset it states.
pub open spec fn read_sound(body: Seq<u8>) -> Result<Seq<u8>, Fault> {
    if body.len() < 8 {
        Err(Fault::Format("`SSND` chunk shorter than 8 bytes"@))
    } else if 8 + be_field(body, 0, 4) > body.len() {
        Err(Fault::Format("`SSND` offset past end of chunk"@))
    } else {
        Ok(body.skip(8 + be_field(body, 0, 4) as int))
    }
}

/// What the chunks of a file hold that matters.
pub struct Found {
    pub common: Option<Common>,
    pub sound: Option<Seq<u8>>,
}

/// What is known behind a chunk.
pub open spec fn read_chunk(id: Seq<u8>, body: Seq<u8>, found: Found) -> Result<Found, Fault> {
    if id == COMM@ {
        match read_common(body) {
            Err(fault) => Err(fault),
            Ok(common) => Ok(Found { common: Some(common), sound: found.sound }),
        }
    } else if id == SSND@ {
        match read_sound(body) {
            Err(fault) => Err(fault),
            Ok(sound) => Ok(Found { common: found.common, sound: Some(sound) }),
        }
    } else {
        Ok(found)
    }
}

/// Reading every chunk from `position` on. An odd size is followed by a pad
/// byte.
pub open spec fn read_chunks(bytes: Seq<u8>, position: nat, found: Found) -> Result<Found, Fault>
    decreases bytes.len() + 1 - position,
{
    if position + 8 > bytes.len() {
        Ok(found)
    } else {
        let start = position as int;
        let size = be_field(bytes, start + 4, 4);
        let end = position + 8 + size;
        if end > bytes.len() {
            Err(Fault::Format("chunk runs past end of file"@))
        } else {
            match read_chunk(
                bytes.subrange(start, start + 4),
                bytes.subrange(start + 8, end as int),
                found,
            ) {
                Err(fault) => Err(fault),
                Ok(more) => read_chunks(bytes, end + size % 2, more),
            }
        }
    }
}

/// The audio an AIFF file holds.
pub open spec fn decoded(bytes: Seq<u8>) -> Result<Sound, Fault> {
    if bytes.len() < 12 || bytes.subrange(0, 4) != FORM@ {
        Err(Fault::Format("not a FORM/AIFF file"@))
    } else if bytes.subrange(8, 12) != AIFF@ && bytes.subrange(8, 12) != AIFC@ {
        Err(
            Fault::Format(
                "unsupported FORM type `"@ + lossy_text(bytes.subrange(8, 12)) + "`"@,
            ),
        )
    } else {
        match read_chunks(bytes, 12, Found { common: None, sound: None }) {
            Err(fault) => Err(fault),
            Ok(found) => match found.common {
                None => Err(Fault::Format("missing `COMM` chunk"@)),
                Some(common) => match found.sound {
                    None => Err(Fault::Format("missing `SSND` chunk"@)),
                    Some(sound) => read_samples(common, sound),
                },
            },
        }
    }
}

/// Reads a 16-bit field.
pub fn read_u16(bytes: &[u8], offset: usize) -> (result: Result<u16, Error>)
    requires
        offset + 2 <= usize::MAX,
    ensures
        if offset + 2 <= bytes@.len() {
            result matches Ok(value) && value == be_field(bytes@, offset as int, 2)
        } else {
            result matches Err(error) && error@ == Fault::Format(
                "truncated 16-bit field at offset "@ + decimal(offset as nat),
            )
        },
{
    if offset + 2 <= bytes.len() {
        proof {
            lemma2_to64();
            lemma_le_value_bound(bytes@.subrange(offset as int, offset + 2).reverse());
        }
        Ok(read_be(bytes, offset, 2) as u16)
    } else {
        let mut message = "truncated 16-bit field at offset ".to_string();
        message.append(decimal_text(offset as u64).as_str());
        Err(Error::Format(message))
    }
}

/// Reads a 32-bit field.
pub fn read_u32(bytes: &[u8], offset: usize) -> (result: Result<u32, Error>)
    requires
        offset + 4 <= usize::MAX,
    ensures
        if offset + 4 <= bytes@.len() {
            result matches Ok(value) && value == be_field(bytes@, offset as int, 4)
        } else {
            result matches Err(error) && error@ == Fault::Format(
                "truncated 32-bit field at offset "@ + decimal(offset as nat),
            )
        },
{
    if offset + 4 <= bytes.len() {
        proof {
            lemma2_to64();
            lemma_le_value_bound(bytes@.subrange(offset as int, offset + 4).reverse());
        }
        Ok(read_be(bytes, offset, 4) as u32)
    } else {
        let mut message = "truncated 32-bit field at offset ".to_string();
        message.append(decimal_text(offset as u64).as_str());
        Err(Error::Format(message))
    }
}

/// A number lies between two neighbouring powers of two.
pub proof fn lemma_exponent(value: nat)
    requires
        value > 0,
    ensures
        pow2(exponent(value)) <= value < pow2(exponent(value) + 1),
    decreases value,
{
    lemma2_to64();
    if value >= 2 {
        lemma_exponent(value / 2);
        lemma_pow2_unfold(exponent(value));
        lemma_pow2_unfold(exponent(value) + 1);
    }
}

/// The base-two logarithm of a number, rounded down.
fn logarithm(value: u64) -> (power: u32)
    requires
        value > 0,
    ensures
        power == exponent(value as nat),
        power < 64,
        pow2(power as nat) <= value < pow2((power + 1) as nat),
{
    let power: u32 = super::flac::encode::logarithm(value);
    proof {
        lemma_exponent(value as nat);
    }
    power
}

/// Rounds a mantissa to 53 significant bits, halves going to the even one.
fn round53(mantissa: u64) -> (rounded: u128)
    ensures
        rounded == nearest53(mantissa as nat),
        rounded <= 0x1_0000_0000_0000_0000,
{
    proof {
        lemma2_to64_rest();
    }
    if mantissa < 0x20_0000_0000_0000 {
        return mantissa as u128;
    }
    let power: u32 = logarithm(mantissa);
    proof {
        if power < 53 {
            if power + 1 < 53 {
                lemma_pow2_strictly_increases((power + 1) as nat, 53);
            }
            assert(false);
        }
    }
    let dropped: u32 = power - 52;
    proof {
        lemma_pow2_word(dropped as nat);
        lemma_pow2_adds(dropped as nat, 53);
        assert(dropped + 53 == power + 1);
    }
    let unit: u64 = 1u64 << (dropped as u64);
    let kept: u64 = mantissa / unit;
    let rest: u64 = mantissa % unit;
    let up: bool = rest > unit - rest || (rest == unit - rest && kept % 2 == 1);
    proof {
        lemma_fundamental_div_mod(mantissa as int, unit as int);
        assert(kept < 0x20_0000_0000_0000) by (nonlinear_arith)
            requires
                mantissa < unit * 0x20_0000_0000_0000,
                mantissa == unit * kept + rest,
                rest >= 0,
                unit > 0,
        ;
        assert(unit * (kept + 1) <= unit * 0x20_0000_0000_0000) by (nonlinear_arith)
            requires
                kept + 1 <= 0x20_0000_0000_0000,
        ;
        if power + 1 < 64 {
            lemma_pow2_strictly_increases((power + 1) as nat, 64);
        }
        assert(unit * kept <= unit * (kept + 1)) by (nonlinear_arith);
    }
    let whole: u128 = if up {
        kept as u128 + 1
    } else {
        kept as u128
    };
    unit as u128 * whole
}

/// Decodes an 80-bit IEEE 754 extended float into a whole sample rate.
pub fn decode_extended(bytes: &[u8]) -> (result: Result<u32, Error>)
    ensures
        match read_extended(bytes@) {
            Ok(rate) => result matches Ok(found) && found == rate && found > 0,
            Err(fault) => result matches Err(error) && error@ == fault,
        },
{
    if bytes.len() < 10 {
        return Err(format_error("truncated extended float"));
    }
    let biased: u64 = read_be(bytes, 0, 2);
    let mantissa: u64 = read_be(bytes, 2, 8);
    if biased >= 0x8000 || mantissa == 0 {
        return Err(format_error("sample rate is not a positive number"));
    }
    let rounded: u128 = round53(mantissa);
    proof {
        lemma2_to64();
        lemma2_to64_rest();
        lemma_nearest_positive(mantissa as nat);
    }
    if biased < 16382 {
        return Err(format_error("sample rate out of range"));
    }
    let shift: u64 = biased - 16382;
    let limit: u128 = 0xFFFF_FFFF_0000_0000_0000_0000;
    if shift >= 96 {
        proof {
            let unit = pow2(shift as nat);
            lemma_pow2_adds(32, 64);
            if shift > 96 {
                lemma_pow2_strictly_increases(96, shift as nat);
            }
            assert(rounded * unit >= unit) by (nonlinear_arith)
                requires
                    rounded >= 1,
                    unit >= 0,
            ;
        }
        return Err(format_error("sample rate out of range"));
    }
    let unit: u128 = power_of_two(shift);
    proof {
        lemma_pow2_pos(shift as nat);
        lemma_fundamental_div_mod(limit as int, unit as int);
        let most = limit as int / unit as int;
        if rounded > most {
            assert(rounded * unit > limit) by (nonlinear_arith)
                requires
                    rounded >= most + 1,
                    limit == unit * most + limit as int % unit as int,
                    limit as int % (unit as int) < unit,
            ;
        } else {
            assert(rounded * unit <= limit) by (nonlinear_arith)
                requires
                    rounded <= most,
                    limit == unit * most + limit as int % unit as int,
                    limit as int % (unit as int) >= 0,
                    unit > 0,
            ;
        }
    }
    if rounded > limit / unit {
        return Err(format_error("sample rate out of range"));
    }
    let scaled: u128 = rounded * unit;
    if scaled < 0x1_0000_0000_0000_0000 {
        return Err(format_error("sample rate out of range"));
    }
    Ok(((scaled + 0x8000_0000_0000_0000) / 0x1_0000_0000_0000_0000) as u32)
}

/// Rounding keeps a mantissa above zero.
proof fn lemma_nearest_positive(mantissa: nat)
    requires
        mantissa > 0,
    ensures
        nearest53(mantissa) >= 1,
{
    if mantissa >= pow2(53) {
        let dropped = (exponent(mantissa) - 52) as nat;
        let unit = pow2(dropped);
        lemma_exponent(mantissa);
        if exponent(mantissa) < 53 {
            if exponent(mantissa) + 1 < 53 {
                lemma_pow2_strictly_increases(exponent(mantissa) + 1, 53);
            }
            assert(false);
        }
        lemma_pow2_adds(dropped, 52);
        lemma_pow2_pos(dropped);
        lemma_pow2_pos(52);
        lemma_fundamental_div_mod(mantissa as int, unit as int);
        let kept = mantissa / unit;
        let rest52 = pow2(52);
        assert(unit * rest52 >= unit) by (nonlinear_arith)
            requires
                rest52 >= 1,
                unit >= 0,
        ;
        assert(kept >= 1) by (nonlinear_arith)
            requires
                mantissa >= unit,
                mantissa == unit * kept + mantissa % unit,
                mantissa % unit < unit,
                unit > 0,
        ;
        assert(unit >= pow2(0)) by {
            lemma2_to64();
        }
        assert(unit * kept >= 1) by (nonlinear_arith)
            requires
                unit >= 1,
                kept >= 1,
        ;
        assert(unit * (kept + 1) >= 1) by (nonlinear_arith)
            requires
                unit >= 1,
                kept >= 1,
        ;
    }
}

/// A power of two.
fn power_of_two(exponent: u64) -> (power: u128)
    requires
        exponent < 96,
    ensures
        power == pow2(exponent as nat),
        power < 0x1_0000_0000_0000_0000_0000_0000,
{
    proof {
        lemma2_to64();
        lemma2_to64_rest();
        lemma_pow2_adds(32, 64);
    }
    let mut power: u128 = 1;
    let mut done: u64 = 0;
    while done < exponent
        invariant
            done <= exponent < 96,
            power == pow2(done as nat),
            pow2(96) == 0x1_0000_0000_0000_0000_0000_0000,
        decreases exponent - done,
    {
        proof {
            lemma_pow2_unfold((done + 1) as nat);
            lemma_pow2_strictly_increases(done as nat, 96);
            if done + 1 < 96 {
                lemma_pow2_strictly_increases((done + 1) as nat, 96);
            }
        }
        power = power * 2;
        done = done + 1;
    }
    proof {
        lemma_pow2_strictly_increases(exponent as nat, 96);
    }
    power
}

/// Encodes a positive sample rate as an 80-bit IEEE 754 extended float.
pub fn encode_extended(value: i64) -> (bytes: Vec<u8>)
    requires
        value <= u32::MAX,
    ensures
        bytes@ == extended_bytes(value as int),
{
    let mut bytes: Vec<u8> = Vec::new();
    if value <= 0 {
        while bytes.len() < 10
            invariant
                bytes@.len() <= 10,
                forall|i: int| 0 <= i < bytes@.len() ==> bytes@[i] == 0,
            decreases 10 - bytes@.len(),
        {
            bytes.push(0);
        }
        assert(bytes@ =~= extended_bytes(value as int));
        return bytes;
    }
    let power: u32 = logarithm(value as u64);
    proof {
        lemma2_to64_rest();
        lemma_pow2_adds((power + 1) as nat, (63 - power) as nat);
        lemma_pow2_pos((63 - power) as nat);
        let unit = pow2((63 - power) as nat);
        assert(value * unit < pow2((power + 1) as nat) * unit) by (nonlinear_arith)
            requires
                value < pow2((power + 1) as nat),
                unit > 0,
        ;
        lemma_pow2_word((63 - power) as nat);
    }
    let unit: u64 = 1u64 << ((63 - power) as u64);
    push_be_unsigned(&mut bytes, power as u64 + 16_383, 2);
    push_be_unsigned(&mut bytes, value as u64 * unit, 8);
    assert(bytes@ =~= extended_bytes(value as int));
    bytes
}

/// Reads a `COMM` chunk.
pub fn parse_common(body: &[u8]) -> (result: Result<Common, Error>)
    ensures
        match read_common(body@) {
            Ok(common) => result == Ok::<Common, Error>(common),
            Err(fault) => result matches Err(error) && error@ == fault,
        },
        result matches Ok(common) ==> common.channels > 0,
{
    if body.len() < 18 {
        return Err(format_error("`COMM` chunk shorter than 18 bytes"));
    }
    if body.len() >= 22 && !tagged(body, 18, &NONE) {
        let mut message = "AIFF-C compression `".to_string();
        message.append(lossy(slice_subrange(body, 18, 22)).as_str());
        message.append("`");
        return Err(Error::Unsupported(message));
    }
    let channels: u16 = match read_u16(body, 0) {
        Ok(value) => value,
        Err(error) => return Err(error),
    };
    let frames: u32 = match read_u32(body, 2) {
        Ok(value) => value,
        Err(error) => return Err(error),
    };
    let bits: u16 = match read_u16(body, 6) {
        Ok(value) => value,
        Err(error) => return Err(error),
    };
    let sample_rate: u32 = match decode_extended(slice_subrange(body, 8, 18)) {
        Ok(value) => value,
        Err(error) => return Err(error),
    };
    if channels == 0 {
        return Err(format_error("channel count is zero"));
    }
    Ok(Common { channels, frames, bits, sample_rate })
}

/// Reads the samples of an `SSND` chunk.
pub fn decode_samples(common: &Common, data: &[u8]) -> (result: Result<Audio, Error>)
    requires
        common.channels > 0,
    ensures
        match read_samples(*common, data@) {
            Ok(sound) => result matches Ok(audio) && audio.wf() && audio@ == sound,
            Err(fault) => result matches Err(error) && error@ == fault,
        },
{
    let format: SampleFormat = if common.bits == 8 {
        SampleFormat::PcmU8
    } else if common.bits == 16 {
        SampleFormat::PcmI16
    } else if common.bits == 24 {
        SampleFormat::PcmI24
    } else if common.bits == 32 {
        SampleFormat::PcmI32
    } else {
        let mut message = "AIFF with ".to_string();
        message.append(decimal_text(common.bits as u64).as_str());
        message.append(" bits per sample");
        return Err(Error::Unsupported(message));
    };
    let count: usize = common.channels as usize;
    let width: usize = format.bytes();
    assert(1 <= count * width <= 0x8_0000) by (nonlinear_arith)
        requires
            1 <= count <= 0xFFFF,
            1 <= width <= 8,
    ;
    let align: usize = count * width;
    let available: usize = data.len() / align;
    let frames: usize = if (common.frames as usize) < available {
        common.frames as usize
    } else {
        available
    };
    proof {
        lemma_fundamental_div_mod(data@.len() as int, align as int);
        assert(frames * count * width <= align * available) by (nonlinear_arith)
            requires
                align == count * width,
                frames <= available,
                count >= 0,
                width >= 0,
        ;
    }
    let channels = unweave(true, format, count, frames, data);
    Audio::from_channels(common.sample_rate, format, channels)
}

/// Finds the samples in an `SSND` chunk.
fn sound_of<'a>(body: &'a [u8]) -> (result: Result<&'a [u8], Error>)
    ensures
        match read_sound(body@) {
            Ok(sound) => result matches Ok(found) && found@ == sound,
            Err(fault) => result matches Err(error) && error@ == fault,
        },
{
    let length: usize = body.len();
    if length < 8 {
        return Err(format_error("`SSND` chunk shorter than 8 bytes"));
    }
    let offset: u64 = read_be(body, 0, 4);
    if offset > (length - 8) as u64 {
        return Err(format_error("`SSND` offset past end of chunk"));
    }
    let start: usize = 8 + offset as usize;
    let sound = slice_subrange(body, start, length);
    assert(sound@ =~= body@.skip(start as int));
    Ok(sound)
}

/// What the chunks that were read hold, as it is stated.
spec fn seen(common: Option<Common>, sound: Option<&[u8]>) -> Found {
    Found {
        common,
        sound: match sound {
            Some(body) => Some(body@),
            None => None,
        },
    }
}

/// Decodes an AIFF or AIFF-C file held in memory.
#[verifier::loop_isolation(false)]
pub fn decode(bytes: &[u8]) -> (result: Result<Audio, Error>)
    ensures
        match decoded(bytes@) {
            Ok(sound) => result matches Ok(audio) && audio.wf() && audio@ == sound,
            Err(fault) => result matches Err(error) && error@ == fault,
        },
{
    let length: usize = bytes.len();
    if length < 12 || !tagged(bytes, 0, &FORM) {
        return Err(format_error("not a FORM/AIFF file"));
    }
    if !tagged(bytes, 8, &AIFF) && !tagged(bytes, 8, &AIFC) {
        let mut message = "unsupported FORM type `".to_string();
        message.append(lossy(slice_subrange(bytes, 8, 12)).as_str());
        message.append("`");
        return Err(Error::Format(message));
    }
    let mut position: usize = 12;
    let mut common: Option<Common> = None;
    let mut sound: Option<&[u8]> = None;
    let ghost goal = read_chunks(bytes@, 12, seen(None, None));
    while length - position >= 8
        invariant
            position <= length,
            length == bytes@.len(),
            goal == read_chunks(bytes@, position as nat, seen(common, sound)),
            common matches Some(known) ==> known.channels > 0,
        decreases length - position,
    {
        let ghost before = seen(common, sound);
        proof {
            lemma2_to64();
            lemma_le_value_bound(bytes@.subrange(position + 4, position + 8).reverse());
        }
        let size: usize = read_be(bytes, position + 4, 4) as usize;
        let start: usize = position + 8;
        if size > length - start {
            return Err(format_error("chunk runs past end of file"));
        }
        let end: usize = start + size;
        let body = slice_subrange(bytes, start, end);
        if tagged(bytes, position, &COMM) {
            match parse_common(body) {
                Ok(known) => {
                    common = Some(known);
                },
                Err(error) => return Err(error),
            }
        } else if tagged(bytes, position, &SSND) {
            match sound_of(body) {
                Ok(samples) => {
                    sound = Some(samples);
                },
                Err(error) => return Err(error),
            }
        }
        proof {
            let after = seen(common, sound);
            let id = bytes@.subrange(position as int, position + 4);
            assert(body@ == bytes@.subrange(position + 8, end as int));
            assert(size == be_field(bytes@, position + 4, 4));
            assert(read_chunk(id, body@, before) == Ok::<Found, Fault>(after));
            assert(goal == read_chunks(bytes@, (end + size % 2) as nat, after));
            if end == length {
                assert(read_chunks(bytes@, (end + size % 2) as nat, after) == Ok::<Found, Fault>(after));
                assert(read_chunks(bytes@, end as nat, after) == Ok::<Found, Fault>(after));
            }
        }
        position = if size % 2 == 1 && end < length {
            end + 1
        } else {
            end
        };
    }
    match common {
        None => Err(format_error("missing `COMM` chunk")),
        Some(known) => match sound {
            None => Err(format_error("missing `SSND` chunk")),
            Some(body) => decode_samples(&known, body),
        },
    }
}

/// The samples of a file.
pub open spec fn data_of(sound: Sound) -> Seq<u8> {
    woven(
        true,
        sound.format,
        clamped_channels(sound.channels, sound.format),
        sound.frames() * sound.channels.len(),
    )
}

/// The body of a `COMM` chunk.
pub open spec fn common_body(sound: Sound) -> Seq<u8> {
    be_bytes(sound.channels.len() as int, 2) + be_bytes(sound.frames() as int, 4) + be_bytes(
        sound.format.spec_bits() as int,
        2,
    ) + extended_bytes(sound.sample_rate as int)
}

/// The body of an `SSND` chunk: no offset, no block size, the samples.
pub open spec fn sound_body(sound: Sound) -> Seq<u8> {
    be_bytes(0, 4) + be_bytes(0, 4) + data_of(sound)
}

/// A chunk as it is written, without a pad byte.
pub open spec fn chunk(id: Seq<u8>, body: Seq<u8>) -> Seq<u8> {
    id + be_bytes(body.len() as int, 4) + body
}

/// The file audio becomes.
pub open spec fn encoded(sound: Sound) -> Seq<u8> {
    let chunks = chunk(COMM@, common_body(sound)) + chunk(SSND@, sound_body(sound));
    FORM@ + be_bytes(4 + chunks.len() as int, 4) + AIFF@ + chunks
}

/// Why audio cannot be stored as AIFF, if it cannot.
pub open spec fn encode_fault(sound: Sound) -> Option<Fault> {
    if sound.format.spec_is_float() {
        Some(
            Fault::Unsupported("AIFF export covers integer PCM only; use WAV for float stems"@),
        )
    } else if sound.channels.len() > u16::MAX {
        Some(Fault::InvalidArgument("too many channels for AIFF"@))
    } else {
        None
    }
}

/// Appends an identifier.
fn push_tag(out: &mut Vec<u8>, tag: &[u8; 4])
    ensures
        final(out)@ == old(out)@ + tag@,
{
    out.push(tag[0]);
    out.push(tag[1]);
    out.push(tag[2]);
    out.push(tag[3]);
    assert(out@ =~= old(out)@ + tag@);
}

/// Appends a chunk.
fn push_chunk(out: &mut Vec<u8>, tag: &[u8; 4], body: &Vec<u8>)
    ensures
        final(out)@ == old(out)@ + chunk(tag@, body@),
{
    push_tag(out, tag);
    push_be_unsigned(out, body.len() as u64, 4);
    out.extend_from_slice(body.as_slice());
    assert(out@ =~= old(out)@ + chunk(tag@, body@));
}

/// Encodes `audio` as an AIFF file in memory.
pub fn encode(audio: &Audio) -> (result: Result<Vec<u8>, Error>)
    requires
        audio.wf(),
    ensures
        match encode_fault(audio@) {
            Some(fault) => result matches Err(error) && error@ == fault,
            None => result matches Ok(bytes) && bytes@ == encoded(audio@),
        },
{
    let ghost sound_view = audio@;
    let format = audio.format();
    if format.is_float() {
        return Err(
            Error::Unsupported(
                "AIFF export covers integer PCM only; use WAV for float stems".to_string(),
            ),
        );
    }
    if audio.channel_count() > u16::MAX as usize {
        return Err(Error::InvalidArgument("too many channels for AIFF".to_string()));
    }
    let codes = match audio.codes() {
        Some(codes) => codes,
        None => return Err(Error::InvalidArgument("integer format without grid".to_string())),
    };
    let frames: usize = audio.frames();
    proof {
        lemma_stored_shape(sound_view, codes@);
    }
    let mut sound: Vec<u8> = Vec::new();
    push_be_unsigned(&mut sound, 0, 4);  // offset
    push_be_unsigned(&mut sound, 0, 4);  // block size
    weave(true, format, &codes, frames, &mut sound);
    assert(sound@ =~= sound_body(sound_view));
    let common = common_of(audio);
    Ok(enclose(&common, &sound))
}

/// Builds the body of a `COMM` chunk.
fn common_of(audio: &Audio) -> (common: Vec<u8>)
    ensures
        common@ == common_body(audio@),
{
    let mut common: Vec<u8> = Vec::new();
    push_be_unsigned(&mut common, audio.channel_count() as u64, 2);
    push_be_unsigned(&mut common, audio.frames() as u64, 4);
    push_be_unsigned(&mut common, audio.format().bits() as u64, 2);
    let rate = encode_extended(audio.sample_rate() as i64);
    common.extend_from_slice(rate.as_slice());
    assert(common@ =~= common_body(audio@));
    common
}

/// Puts the bodies of the two chunks into a file.
fn enclose(common: &Vec<u8>, sound: &Vec<u8>) -> (out: Vec<u8>)
    ensures
        ({
            let chunks = chunk(COMM@, common@) + chunk(SSND@, sound@);
            out@ == FORM@ + be_bytes(4 + chunks.len() as int, 4) + AIFF@ + chunks
        }),
{
    let mut chunks: Vec<u8> = Vec::new();
    push_chunk(&mut chunks, &COMM, common);
    push_chunk(&mut chunks, &SSND, sound);
    assert(chunks@ =~= chunk(COMM@, common@) + chunk(SSND@, sound@));
    let mut out: Vec<u8> = Vec::new();
    push_tag(&mut out, &FORM);
    let low: u64 = chunks.len() as u64 % 0x1_0000_0000;
    proof {
        lemma2_to64();
        assert(8 * 4 == 32nat);
        lemma_le_bytes_mod(4 + low as int, 4);
        lemma_le_bytes_mod(4 + chunks@.len() as int, 4);
        assert((4 + low as int) % 0x1_0000_0000 == (4 + chunks@.len() as int) % 0x1_0000_0000);
    }
    push_be_unsigned(&mut out, low + 4, 4);
    push_tag(&mut out, &AIFF);
    out.extend_from_slice(chunks.as_slice());
    assert(out@ =~= FORM@ + be_bytes(4 + chunks@.len() as int, 4) + AIFF@ + chunks@);
    out
}

/// A big-endian field reads back.
proof fn lemma_be_reads(value: int, width: nat)
    requires
        0 <= value < pow2(8 * width),
    ensures
        be_bytes(value, width).len() == width,
        be_value(be_bytes(value, width)) == value,
{
    lemma_le_bytes_len(value, width);
    lemma_le_round_trip(value, width);
    assert(le_bytes(value, width).reverse().reverse() =~= le_bytes(value, width));
    vstd::arithmetic::div_mod::lemma_small_mod(value as nat, pow2(8 * width));
}

/// The power that a number reaches is the only one it lies at.
pub proof fn lemma_exponent_unique(value: nat, power: nat)
    requires
        pow2(power) <= value < pow2(power + 1),
    ensures
        exponent(value) == power,
{
    lemma_pow2_pos(power);
    lemma_exponent(value);
    if exponent(value) < power {
        if exponent(value) + 1 < power {
            lemma_pow2_strictly_increases(exponent(value) + 1, power);
        }
    } else if exponent(value) > power {
        if power + 1 < exponent(value) {
            lemma_pow2_strictly_increases(power + 1, exponent(value));
        }
    }
}

/// Every sample rate survives being written as an extended float.
pub proof fn law_extended_round_trip(rate: u32)
    requires
        rate > 0,
    ensures
        extended_bytes(rate as int).len() == 10,
        read_extended(extended_bytes(rate as int)) == Ok::<nat, Fault>(rate as nat),
{
    let value = rate as int;
    let power = exponent(rate as nat);
    let room = (63 - power) as nat;
    let unit = pow2(room);
    let mantissa = (value * unit) as nat;
    lemma2_to64();
    lemma2_to64_rest();
    lemma_exponent(rate as nat);
    if power >= 32 {
        if power > 32 {
            lemma_pow2_strictly_increases(32, power);
        }
        assert(false);
    }
    lemma_pow2_pos(room);
    lemma_pow2_adds(power, room);
    lemma_pow2_adds(power + 1, room);
    assert(pow2(power) * unit <= value * unit < pow2(power + 1) * unit) by (nonlinear_arith)
        requires
            pow2(power) <= value < pow2(power + 1),
            unit > 0,
    ;
    assert(power + room == 63nat && power + 1 + room == 64nat);
    lemma_exponent_unique(mantissa, 63);
    assert(8 * 2 == 16nat && 8 * 8 == 64nat);
    lemma_be_reads(power as int + 16383, 2);
    lemma_be_reads(mantissa as int, 8);
    let bytes = extended_bytes(value);
    assert(bytes.subrange(0, 2) =~= be_bytes(power as int + 16383, 2));
    assert(bytes.subrange(2, 10) =~= be_bytes(mantissa as int, 8));
    // The mantissa ends in zeros, so rounding it to 53 bits changes nothing.
    let dropped = (exponent(mantissa) - 52) as nat;
    assert(dropped == 11nat);
    let above = (room - 11) as nat;
    lemma_pow2_adds(above, 11);
    let kept = value * pow2(above);
    assert(mantissa == kept * 2048) by (nonlinear_arith)
        requires
            mantissa == value * unit,
            unit == pow2(above) * 2048,
            kept == value * pow2(above),
    ;
    assert(nearest53(mantissa) == mantissa);
    let scale = pow2((power + 16383 - 16382) as nat);
    assert((power + 16383 - 16382) as nat == power + 1);
    lemma_pow2_adds(room, power + 1);
    assert(mantissa * scale == value * 0x1_0000_0000_0000_0000) by (nonlinear_arith)
        requires
            mantissa == value * unit,
            unit * scale == 0x1_0000_0000_0000_0000,
    ;
}

/// Audio that an AIFF file can hold: no fault, channels and a rate, and sizes
/// that their fields have room for.
pub open spec fn storable(sound: Sound) -> bool {
    &&& sound.even()
    &&& encode_fault(sound) is None
    &&& sound.channels.len() >= 1
    &&& sound.sample_rate > 0
    &&& sound_body(sound).len() <= u32::MAX
}

/// A chunk that stands in a file, and is even or the last, is read as it is.
proof fn lemma_chunk_step(
    bytes: Seq<u8>,
    position: nat,
    id: Seq<u8>,
    body: Seq<u8>,
    rest: Seq<u8>,
    found: Found,
)
    requires
        position <= bytes.len(),
        id.len() == 4,
        body.len() <= u32::MAX,
        bytes.skip(position as int) == chunk(id, body) + rest,
    ensures
        chunk(id, body).len() == 8 + body.len(),
        read_chunks(bytes, position, found) == match read_chunk(id, body, found) {
            Err(fault) => Err(fault),
            Ok(more) => read_chunks(
                bytes,
                position + chunk(id, body).len() + body.len() % 2,
                more,
            ),
        },
{
    let start = position as int;
    let tail = bytes.skip(start);
    let size = be_bytes(body.len() as int, 4);
    lemma2_to64();
    assert(8 * 4 == 32nat);
    lemma_be_reads(body.len() as int, 4);
    assert(chunk(id, body).len() >= 8 + body.len());
    assert(tail.len() == bytes.len() - start);
    assert(bytes.subrange(start, start + 4) =~= tail.subrange(0, 4));
    assert(tail.subrange(0, 4) =~= id);
    assert(bytes.subrange(start + 4, start + 8) =~= tail.subrange(4, 8));
    assert(tail.subrange(4, 8) =~= size);
    assert(bytes.subrange(start + 8, start + 8 + body.len()) =~= tail.subrange(
        8,
        8 + body.len() as int,
    ));
    assert(tail.subrange(8, 8 + body.len() as int) =~= body);
}

/// A `COMM` chunk that was written reads back.
proof fn lemma_common_reads(sound: Sound)
    requires
        storable(sound),
        sound.frames() <= u32::MAX,
    ensures
        common_body(sound).len() == 18,
        read_common(common_body(sound)) == Ok::<Common, Fault>(
            Common {
                channels: sound.channels.len() as u16,
                frames: sound.frames() as u32,
                bits: sound.format.spec_bits() as u16,
                sample_rate: sound.sample_rate,
            },
        ),
{
    let body = common_body(sound);
    lemma2_to64();
    assert(8 * 2 == 16nat && 8 * 4 == 32nat);
    lemma_be_reads(sound.channels.len() as int, 2);
    lemma_be_reads(sound.frames() as int, 4);
    lemma_be_reads(sound.format.spec_bits() as int, 2);
    law_extended_round_trip(sound.sample_rate);
    assert(body.subrange(0, 2) =~= be_bytes(sound.channels.len() as int, 2));
    assert(body.subrange(2, 6) =~= be_bytes(sound.frames() as int, 4));
    assert(body.subrange(6, 8) =~= be_bytes(sound.format.spec_bits() as int, 2));
    assert(body.subrange(8, 18) =~= extended_bytes(sound.sample_rate as int));
}

/// A file that was written reads back as the audio it was written from, whose
/// codes are all in the range of its format.
pub proof fn law_aiff_is_lossless(sound: Sound)
    requires
        storable(sound),
        sound.in_range(),
    ensures
        decoded(encoded(sound)) == Ok::<Sound, Fault>(sound),
{
    let bytes = encoded(sound);
    let common = common_body(sound);
    let body = sound_body(sound);
    let data = data_of(sound);
    let first = chunk(COMM@, common);
    let last = chunk(SSND@, body);
    lemma_clamped_in_range(sound);
    lemma_data_frames(true, sound.format, sound.channels, sound.frames());
    lemma_le_bytes_len(0, 4);
    lemma_le_bytes_len(4 + (first + last).len() as int, 4);
    assert(sound.frames() <= data.len()) by (nonlinear_arith)
        requires
            data.len() == sound.frames() * (sound.channels.len() * (sound.format.spec_bits() / 8)),
            sound.channels.len() * (sound.format.spec_bits() / 8) >= 1,
    ;
    lemma_common_reads(sound);
    let known = read_common(common)->Ok_0;
    let none = Found { common: None, sound: None };
    let half = Found { common: Some(known), sound: None };
    let all = Found { common: Some(known), sound: Some(data) };
    assert(COMM@[0] != SSND@[0]);
    assert(bytes.subrange(0, 4) =~= FORM@);
    assert(bytes.subrange(8, 12) =~= AIFF@);
    assert(bytes.skip(12) =~= first + last);
    lemma_chunk_step(bytes, 12, COMM@, common, last, none);
    let second = 12 + first.len();
    assert(bytes.skip(second as int) =~= last + Seq::<u8>::empty());
    lemma2_to64();
    assert(8 * 4 == 32nat);
    lemma_be_reads(0, 4);
    assert(body.subrange(0, 4) =~= be_bytes(0, 4));
    assert(body.skip(8) =~= data);
    assert(read_sound(body) == Ok::<Seq<u8>, Fault>(data));
    lemma_chunk_step(bytes, second, SSND@, body, Seq::empty(), half);
    assert(second + last.len() == bytes.len());
    assert(read_chunks(bytes, bytes.len() + body.len() % 2, all) == Ok::<Found, Fault>(all));
    assert forall|i: int, j: int|
        0 <= i < sound.channels.len() && 0 <= j < sound.frames() implies sound.format.low()
        <= #[trigger] sound.channels[i][j] <= sound.format.high() by {
        assert(sound.channels[i].len() == sound.frames());
    }
    law_weave_round_trip(true, sound.format, sound.channels, sound.frames());
    assert(channels_fault(sound.sample_rate, sound.channels) is None) by {
        assert(sound.channels[0].len() == sound.frames());
    }
}

} // verus!
