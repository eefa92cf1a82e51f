//! RIFF/WAVE reading and writing.
//!
//! The reader accepts 8/16/24/32-bit integer PCM, 32/64-bit IEEE float, and the
//! `WAVE_FORMAT_EXTENSIBLE` wrapper around both, skipping any auxiliary chunk it
//! does not need. The writer emits the canonical chunk layout, so a file this
//! crate wrote and read back is byte-identical.

use vstd::arithmetic::div_mod::lemma_fundamental_div_mod;
use vstd::arithmetic::power2::lemma2_to64;
use vstd::prelude::*;
use vstd::slice::slice_subrange;

use super::bytes::{
    le_bytes, le_value, lemma_le_bytes_len, lemma_le_bytes_mod, lemma_le_round_trip,
    lemma_le_value_bound, push_le_unsigned, read_le, tagged,
};
use super::flac::decode::planes;
use super::pcm::{
    law_weave_round_trip, lemma_unwoven_in_range, lemma_woven_len, unweave, unwoven, weave, woven,
};
use super::{
    channels_fault, clamped_channels, lemma_clamped_in_range, Audio, SampleFormat, Sound,
};
use crate::error::{format_error, Error, Fault};
use crate::text::{decimal, decimal_text, lossy, lossy_text};

verus! {

pub const FORMAT_PCM: u16 = 1;

pub const FORMAT_IEEE_FLOAT: u16 = 3;

pub const FORMAT_EXTENSIBLE: u16 = 0xFFFE;

/// `RIFF`
pub const RIFF: [u8; 4] = [0x52, 0x49, 0x46, 0x46];

/// `WAVE`
pub const WAVE: [u8; 4] = [0x57, 0x41, 0x56, 0x45];

/// `fmt `
pub const FMT: [u8; 4] = [0x66, 0x6D, 0x74, 0x20];

/// `fact`
pub const FACT: [u8; 4] = [0x66, 0x61, 0x63, 0x74];

/// `data`
pub const DATA: [u8; 4] = [0x64, 0x61, 0x74, 0x61];

/// What a `fmt ` chunk says about the samples.
#[derive(Clone, Copy, Debug)]
pub struct WaveFormat {
    pub tag: u16,
    pub channels: u16,
    pub sample_rate: u32,
    pub bits: u16,
}

/// A little-endian field of a run of bytes.
pub open spec fn le_field(bytes: Seq<u8>, offset: int, width: int) -> nat {
    le_value(bytes.subrange(offset, offset + width))
}

/// Reading a `fmt ` chunk.
pub open spec fn read_format(body: Seq<u8>) -> Result<WaveFormat, Fault> {
    let stated = le_field(body, 0, 2);
    let channels = le_field(body, 2, 2);
    let sample_rate = le_field(body, 4, 4);
    if body.len() < 16 {
        Err(Fault::Format("`fmt ` chunk shorter than 16 bytes"@))
    } else if stated == FORMAT_EXTENSIBLE && body.len() < 40 {
        Err(Fault::Format("extensible `fmt ` chunk shorter than 40 bytes"@))
    } else if channels == 0 {
        Err(Fault::Format("channel count is zero"@))
    } else if sample_rate == 0 {
        Err(Fault::Format("sample rate is zero"@))
    } else {
        Ok(
            WaveFormat {
                // The first two bytes of the sub-format GUID carry the real tag.
                tag: (if stated == FORMAT_EXTENSIBLE {
                    le_field(body, 24, 2)
                } else {
                    stated
                }) as u16,
                channels: channels as u16,
                sample_rate: sample_rate as u32,
                bits: le_field(body, 14, 2) as u16,
            },
        )
    }
}

/// The sample format a tag and a depth stand for.
pub open spec fn sample_format(tag: u16, bits: u16) -> Option<SampleFormat> {
    if tag == FORMAT_PCM && bits == 8 {
        Some(SampleFormat::PcmU8)
    } else if tag == FORMAT_PCM && bits == 16 {
        Some(SampleFormat::PcmI16)
    } else if tag == FORMAT_PCM && bits == 24 {
        Some(SampleFormat::PcmI24)
    } else if tag == FORMAT_PCM && bits == 32 {
        Some(SampleFormat::PcmI32)
    } else if tag == FORMAT_IEEE_FLOAT && bits == 32 {
        Some(SampleFormat::F32)
    } else if tag == FORMAT_IEEE_FLOAT && bits == 64 {
        Some(SampleFormat::F64)
    } else {
        None
    }
}

/// Reading the samples of a `data` chunk.
pub open spec fn read_samples(format: WaveFormat, data: Seq<u8>) -> Result<Sound, Fault> {
    match sample_format(format.tag, format.bits) {
        None => Err(
            Fault::Unsupported(
                "WAVE format tag "@ + decimal(format.tag as nat) + " with "@ + decimal(
                    format.bits as nat,
                ) + " bits per sample"@,
            ),
        ),
        Some(sample) => {
            let align = format.channels as nat * (sample.spec_bits() / 8);
            let channels = unwoven(
                false,
                sample,
                format.channels as nat,
                data.len() / align,
                data,
            );
            match channels_fault(format.sample_rate, channels) {
                Some(fault) => Err(fault),
                None => Ok(Sound { sample_rate: format.sample_rate, format: sample, channels }),
            }
        },
    }
}

/// What the chunks of a file hold that matters.
pub struct Found {
    pub format: Option<WaveFormat>,
    pub data: Option<Seq<u8>>,
}

/// What is known behind a chunk.
pub open spec fn read_chunk(id: Seq<u8>, body: Seq<u8>, found: Found) -> Result<Found, Fault> {
    if id == FMT@ {
        match read_format(body) {
            Err(fault) => Err(fault),
            Ok(format) => Ok(Found { format: Some(format), data: found.data }),
        }
    } else if id == DATA@ {
        Ok(Found { format: found.format, data: Some(body) })
    } else {
        Ok(found)
    }
}

/// Reading every chunk from `position` on. Chunks are word aligned: an odd size
/// is followed by a pad byte.
pub open spec fn read_chunks(bytes: Seq<u8>, position: nat, found: Found) -> Result<Found, Fault>
    decreases bytes.len() + 1 - position,
{
    if position + 8 > bytes.len() {
        Ok(found)
    } else {
        let start = position as int;
        let id = bytes.subrange(start, start + 4);
        let size = le_field(bytes, start + 4, 4);
        let end = position + 8 + size;
        if end > bytes.len() {
            Err(Fault::Format("chunk `"@ + lossy_text(id) + "` runs past end of file"@))
        } else {
            match read_chunk(id, bytes.subrange(start + 8, end as int), found) {
                Err(fault) => Err(fault),
                Ok(more) => read_chunks(bytes, end + size % 2, more),
            }
        }
    }
}

/// The audio a WAV file holds.
pub open spec fn decoded(bytes: Seq<u8>) -> Result<Sound, Fault> {
    if bytes.len() < 12 || bytes.subrange(0, 4) != RIFF@ || bytes.subrange(8, 12) != WAVE@ {
        Err(Fault::Format("not a RIFF/WAVE file"@))
    } else {
        match read_chunks(bytes, 12, Found { format: None, data: None }) {
            Err(fault) => Err(fault),
            Ok(found) => match found.format {
                None => Err(Fault::Format("missing `fmt ` chunk"@)),
                Some(format) => match found.data {
                    None => Err(Fault::Format("missing `data` chunk"@)),
                    Some(data) => read_samples(format, data),
                },
            },
        }
    }
}

/// Reads a 16-bit field.
pub fn read_u16(bytes: &[u8], offset: usize) -> (result: Result<u16, Error>)
    requires
        offset + 2 <= usize::MAX,
    ensures
        if offset + 2 <= bytes@.len() {
            result matches Ok(value) && value == le_field(bytes@, offset as int, 2)
        } else {
            result matches Err(error) && error@ == Fault::Format(
                "truncated 16-bit field at offset "@ + decimal(offset as nat),
            )
        },
{
    if offset + 2 <= bytes.len() {
        proof {
            lemma2_to64();
            lemma_le_value_bound(bytes@.subrange(offset as int, offset + 2));
        }
        Ok(read_le(bytes, offset, 2) as u16)
    } else {
        let mut message = "truncated 16-bit field at offset ".to_string();
        message.append(decimal_text(offset as u64).as_str());
        Err(Error::Format(message))
    }
}

/// Reads a 32-bit field.
pub fn read_u32(bytes: &[u8], offset: usize) -> (result: Result<u32, Error>)
    requires
        offset + 4 <= usize::MAX,
    ensures
        if offset + 4 <= bytes@.len() {
            result matches Ok(value) && value == le_field(bytes@, offset as int, 4)
        } else {
            result matches Err(error) && error@ == Fault::Format(
                "truncated 32-bit field at offset "@ + decimal(offset as nat),
            )
        },
{
    if offset + 4 <= bytes.len() {
        proof {
            lemma2_to64();
            lemma_le_value_bound(bytes@.subrange(offset as int, offset + 4));
        }
        Ok(read_le(bytes, offset, 4) as u32)
    } else {
        let mut message = "truncated 32-bit field at offset ".to_string();
        message.append(decimal_text(offset as u64).as_str());
        Err(Error::Format(message))
    }
}

/// Reads a `fmt ` chunk.
pub fn parse_format(body: &[u8]) -> (result: Result<WaveFormat, Error>)
    ensures
        match read_format(body@) {
            Ok(format) => result == Ok::<WaveFormat, Error>(format),
            Err(fault) => result matches Err(error) && error@ == fault,
        },
        result matches Ok(format) ==> format.channels > 0,
{
    if body.len() < 16 {
        return Err(format_error("`fmt ` chunk shorter than 16 bytes"));
    }
    let stated: u16 = match read_u16(body, 0) {
        Ok(value) => value,
        Err(error) => return Err(error),
    };
    let channels: u16 = match read_u16(body, 2) {
        Ok(value) => value,
        Err(error) => return Err(error),
    };
    let sample_rate: u32 = match read_u32(body, 4) {
        Ok(value) => value,
        Err(error) => return Err(error),
    };
    let bits: u16 = match read_u16(body, 14) {
        Ok(value) => value,
        Err(error) => return Err(error),
    };
    let tag: u16 = if stated == FORMAT_EXTENSIBLE {
        if body.len() < 40 {
            return Err(format_error("extensible `fmt ` chunk shorter than 40 bytes"));
        }
        // The first two bytes of the sub-format GUID carry the real format tag.
        match read_u16(body, 24) {
            Ok(value) => value,
            Err(error) => return Err(error),
        }
    } else {
        stated
    };
    if channels == 0 {
        return Err(format_error("channel count is zero"));
    }
    if sample_rate == 0 {
        return Err(format_error("sample rate is zero"));
    }
    Ok(WaveFormat { tag, channels, sample_rate, bits })
}

/// Reads the samples of a `data` chunk.
pub fn decode_samples(format: &WaveFormat, data: &[u8]) -> (result: Result<Audio, Error>)
    requires
        format.channels > 0,
    ensures
        match read_samples(*format, data@) {
            Ok(sound) => result matches Ok(audio) && audio.wf() && audio@ == sound,
            Err(fault) => result matches Err(error) && error@ == fault,
        },
{
    let sample: SampleFormat = if format.tag == FORMAT_PCM && format.bits == 8 {
        SampleFormat::PcmU8
    } else if format.tag == FORMAT_PCM && format.bits == 16 {
        SampleFormat::PcmI16
    } else if format.tag == FORMAT_PCM && format.bits == 24 {
        SampleFormat::PcmI24
    } else if format.tag == FORMAT_PCM && format.bits == 32 {
        SampleFormat::PcmI32
    } else if format.tag == FORMAT_IEEE_FLOAT && format.bits == 32 {
        SampleFormat::F32
    } else if format.tag == FORMAT_IEEE_FLOAT && format.bits == 64 {
        SampleFormat::F64
    } else {
        let mut message = "WAVE format tag ".to_string();
        message.append(decimal_text(format.tag as u64).as_str());
        message.append(" with ");
        message.append(decimal_text(format.bits as u64).as_str());
        message.append(" bits per sample");
        return Err(Error::Unsupported(message));
    };
    let count: usize = format.channels as usize;
    let width: usize = sample.bytes();
    assert(1 <= count * width <= 0x8_0000) by (nonlinear_arith)
        requires
            1 <= count <= 0xFFFF,
            1 <= width <= 8,
    ;
    let align: usize = count * width;
    let frames: usize = data.len() / align;
    proof {
        lemma_fundamental_div_mod(data@.len() as int, align as int);
        assert(frames * count * width == align * frames) by (nonlinear_arith)
            requires
                align == count * width,
        ;
    }
    let channels = unweave(false, sample, count, frames, data);
    Audio::from_channels(format.sample_rate, sample, channels)
}

/// Decodes a WAV file held in memory.
#[verifier::loop_isolation(false)]
pub fn decode(bytes: &[u8]) -> (result: Result<Audio, Error>)
    ensures
        match decoded(bytes@) {
            Ok(sound) => result matches Ok(audio) && audio.wf() && audio@ == sound,
            Err(fault) => result matches Err(error) && error@ == fault,
        },
{
    let length: usize = bytes.len();
    if length < 12 || !tagged(bytes, 0, &RIFF) || !tagged(bytes, 8, &WAVE) {
        return Err(format_error("not a RIFF/WAVE file"));
    }
    let mut position: usize = 12;
    let mut format: Option<WaveFormat> = None;
    let mut data: Option<&[u8]> = None;
    let ghost goal = read_chunks(bytes@, 12, Found { format: None, data: None });
    while length - position >= 8
        invariant
            position <= length,
            length == bytes@.len(),
            goal == read_chunks(
                bytes@,
                position as nat,
                Found {
                    format,
                    data: match data {
                        Some(body) => Some(body@),
                        None => None,
                    },
                },
            ),
            format matches Some(known) ==> known.channels > 0,
        decreases length - position,
    {
        let ghost before = Found {
            format,
            data: match data {
                Some(body) => Some(body@),
                None => None,
            },
        };
        proof {
            lemma2_to64();
            lemma_le_value_bound(bytes@.subrange(position + 4, position + 8));
        }
        let size: usize = read_le(bytes, position + 4, 4) as usize;
        let start: usize = position + 8;
        if size > length - start {
            let mut message = "chunk `".to_string();
            message.append(lossy(slice_subrange(bytes, position, position + 4)).as_str());
            message.append("` runs past end of file");
            return Err(Error::Format(message));
        }
        let end: usize = start + size;
        let body = slice_subrange(bytes, start, end);
        if tagged(bytes, position, &FMT) {
            match parse_format(body) {
                Ok(known) => {
                    format = Some(known);
                },
                Err(error) => return Err(error),
            }
        } else if tagged(bytes, position, &DATA) {
            data = Some(body);
        }
        proof {
            let after = Found {
                format,
                data: match data {
                    Some(body) => Some(body@),
                    None => None,
                },
            };
            let id = bytes@.subrange(position as int, position + 4);
            assert(body@ == bytes@.subrange(position + 8, end as int));
            assert(size == le_field(bytes@, position + 4, 4));
            assert(read_chunk(id, body@, before) == Ok::<Found, Fault>(after));
            assert(goal == read_chunks(bytes@, (end + size % 2) as nat, after));
            if end == length {
                assert(read_chunks(bytes@, (end + size % 2) as nat, after) == Ok::<Found, Fault>(after));
                assert(read_chunks(bytes@, end as nat, after) == Ok::<Found, Fault>(after));
            }
        }
        // RIFF chunks are word aligned: an odd size is followed by a pad byte.
        position = if size % 2 == 1 && end < length {
            end + 1
        } else {
            end
        };
    }
    match format {
        None => Err(format_error("missing `fmt ` chunk")),
        Some(known) => match data {
            None => Err(format_error("missing `data` chunk")),
            Some(body) => decode_samples(&known, body),
        },
    }
}

/// A chunk: its identifier, its size, its body, and a pad byte where the size
/// is odd.
pub open spec fn chunk(id: Seq<u8>, body: Seq<u8>) -> Seq<u8> {
    id + le_bytes(body.len() as int, 4) + body + if body.len() % 2 == 1 {
        seq![0u8]
    } else {
        Seq::empty()
    }
}

/// The codes that are stored: integer codes brought into range, floats as they
/// are.
pub open spec fn stored(sound: Sound) -> Seq<Seq<i64>> {
    if sound.format.spec_is_float() {
        sound.channels
    } else {
        clamped_channels(sound.channels, sound.format)
    }
}

/// The samples of a file.
pub open spec fn data_of(sound: Sound) -> Seq<u8> {
    woven(false, sound.format, stored(sound), sound.frames() * sound.channels.len())
}

/// The body of a `fmt ` chunk. Floats carry the size of an empty extension.
pub open spec fn format_body(sound: Sound) -> Seq<u8> {
    let float = sound.format.spec_is_float();
    let align = sound.channels.len() * (sound.format.spec_bits() / 8);
    le_bytes(if float { 3 } else { 1 }, 2) + le_bytes(sound.channels.len() as int, 2) + le_bytes(
        sound.sample_rate as int,
        4,
    ) + le_bytes((sound.sample_rate as nat * align) as int, 4) + le_bytes(align as int, 2) + le_bytes(
        sound.format.spec_bits() as int,
        2,
    ) + if float {
        le_bytes(0, 2)
    } else {
        Seq::empty()
    }
}

/// The chunks of a file. Floats carry a `fact` chunk with the frame count.
pub open spec fn chunks(sound: Sound) -> Seq<u8> {
    chunk(FMT@, format_body(sound)) + (if sound.format.spec_is_float() {
        chunk(FACT@, le_bytes(sound.frames() as int, 4))
    } else {
        Seq::empty()
    }) + chunk(DATA@, data_of(sound))
}

/// The file audio becomes.
pub open spec fn encoded(sound: Sound) -> Seq<u8> {
    RIFF@ + le_bytes(4 + chunks(sound).len() as int, 4) + WAVE@ + chunks(sound)
}

/// Appends an identifier.
fn push_tag(out: &mut Vec<u8>, tag: &[u8; 4])
    ensures
        final(out)@ == old(out)@ + tag@,
{
    out.push(tag[0]);
    out.push(tag[1]);
    out.push(tag[2]);
    out.push(tag[3]);
    assert(out@ =~= old(out)@ + tag@);
}

/// Appends a chunk.
fn push_chunk(out: &mut Vec<u8>, tag: &[u8; 4], body: &Vec<u8>)
    ensures
        final(out)@ == old(out)@ + chunk(tag@, body@),
{
    push_tag(out, tag);
    push_le_unsigned(out, body.len() as u64, 4);
    out.extend_from_slice(body.as_slice());
    if body.len() % 2 == 1 {
        out.push(0);
    }
    assert(out@ =~= old(out)@ + chunk(tag@, body@));
}

/// Weaves the samples of `audio` into the bytes of a `data` chunk.
fn sample_bytes(audio: &Audio) -> (data: Vec<u8>)
    requires
        audio.wf(),
    ensures
        data@ == data_of(audio@),
{
    let ghost sound = audio@;
    let format = audio.format();
    let frames: usize = audio.frames();
    let mut data: Vec<u8> = Vec::new();
    match audio.codes() {
        Some(codes) => {
            proof {
                lemma_stored_shape(sound, codes@);
            }
            weave(false, format, &codes, frames, &mut data);
        },
        None => {
            proof {
                let plain = audio@.channels;
                assert forall|planes_of: Seq<Vec<i64>>| planes(planes_of) == plain implies forall|
                    i: int,
                | 0 <= i < planes_of.len() ==> (#[trigger] planes_of[i])@.len() == frames by {
                    assert forall|i: int| 0 <= i < planes_of.len() implies (#[trigger] planes_of[i])@.len()
                        == frames by {
                        assert(plain[i] == planes_of[i]@);
                    }
                }
            }
            weave(false, format, audio.channels(), frames, &mut data);
        },
    }
    assert(data@ =~= data_of(sound));
    data
}

/// Writes the body of the `fmt ` chunk of `audio`.
fn format_bytes(audio: &Audio) -> (body: Vec<u8>)
    requires
        audio.wf(),
        audio@.channels.len() <= u16::MAX,
    ensures
        body@ == format_body(audio@),
{
    let ghost sound = audio@;
    let format = audio.format();
    let channels: u64 = audio.channel_count() as u64;
    let float: bool = format.is_float();
    assert(channels * (format.spec_bits() / 8) <= 0x8_0000) by (nonlinear_arith)
        requires
            channels <= 0xFFFF,
            format.spec_bits() / 8 <= 8,
    ;
    let align: u64 = channels * format.bytes() as u64;
    assert(audio@.sample_rate * align <= 0x8_0000_0000_0000) by (nonlinear_arith)
        requires
            audio@.sample_rate <= 0xFFFF_FFFF,
            align <= 0x8_0000,
    ;
    let mut body: Vec<u8> = Vec::new();
    push_le_unsigned(
        &mut body,
        if float {
            FORMAT_IEEE_FLOAT as u64
        } else {
            FORMAT_PCM as u64
        },
        2,
    );
    push_le_unsigned(&mut body, channels, 2);
    push_le_unsigned(&mut body, audio.sample_rate() as u64, 4);
    push_le_unsigned(&mut body, audio.sample_rate() as u64 * align, 4);
    push_le_unsigned(&mut body, align, 2);
    push_le_unsigned(&mut body, format.bits() as u64, 2);
    if float {
        push_le_unsigned(&mut body, 0, 2);
    }
    assert(body@ =~= format_body(sound));
    body
}

/// Writes the chunks of a file.
fn chunk_bytes(audio: &Audio) -> (rest: Vec<u8>)
    requires
        audio.wf(),
        audio@.channels.len() <= u16::MAX,
    ensures
        rest@ == chunks(audio@),
{
    let data = sample_bytes(audio);
    let body = format_bytes(audio);
    let mut rest: Vec<u8> = Vec::new();
    push_chunk(&mut rest, &FMT, &body);
    assert(rest@ =~= chunk(FMT@, body@));
    let ghost first = rest@;
    // Non-PCM formats require a `fact` chunk.
    if audio.format().is_float() {
        let frames: usize = audio.frames();
        let mut fact: Vec<u8> = Vec::new();
        push_le_unsigned(&mut fact, frames as u64, 4);
        assert(fact@ =~= le_bytes(frames as int, 4));
        push_chunk(&mut rest, &FACT, &fact);
    } else {
        assert(first + Seq::<u8>::empty() =~= first);
    }
    push_chunk(&mut rest, &DATA, &data);
    rest
}

/// Puts the file header before the chunks.
fn wrapped(rest: &Vec<u8>) -> (out: Vec<u8>)
    ensures
        out@ == RIFF@ + le_bytes(4 + rest@.len() as int, 4) + WAVE@ + rest@,
{
    let mut out: Vec<u8> = Vec::new();
    push_tag(&mut out, &RIFF);
    assert(out@ =~= RIFF@);
    let low: u64 = rest.len() as u64 % 0x1_0000_0000;
    proof {
        lemma2_to64();
        lemma_le_bytes_mod(4 + low as int, 4);
        lemma_le_bytes_mod(4 + rest@.len() as int, 4);
        assert((low + 4) % 0x1_0000_0000 == (rest@.len() + 4) % 0x1_0000_0000);
    }
    push_le_unsigned(&mut out, low + 4, 4);
    push_tag(&mut out, &WAVE);
    out.extend_from_slice(rest.as_slice());
    out
}

/// Encodes `audio` as a WAV file in memory.
pub fn encode(audio: &Audio) -> (result: Result<Vec<u8>, Error>)
    requires
        audio.wf(),
    ensures
        if audio@.channels.len() > u16::MAX {
            result matches Err(error) && error@ == Fault::InvalidArgument(
                "too many channels for WAV"@,
            )
        } else {
            result matches Ok(bytes) && bytes@ == encoded(audio@)
        },
{
    if audio.channel_count() > u16::MAX as usize {
        return Err(Error::InvalidArgument("too many channels for WAV".to_string()));
    }
    let rest = chunk_bytes(audio);
    Ok(wrapped(&rest))
}

/// Codes brought into range are as long as the channels they came from, and
/// leave room above them.
pub proof fn lemma_stored_shape(sound: Sound, codes: Seq<Vec<i64>>)
    requires
        sound.even(),
        !sound.format.spec_is_float(),
        planes(codes) == clamped_channels(sound.channels, sound.format),
    ensures
        codes.len() == sound.channels.len(),
        forall|i: int| 0 <= i < codes.len() ==> (#[trigger] codes[i])@.len() == sound.frames(),
        forall|i: int, j: int|
            0 <= i < codes.len() && 0 <= j < sound.frames() ==> sound.format.low()
                <= #[trigger] codes[i]@[j] <= sound.format.high(),
{
    let clamped = clamped_channels(sound.channels, sound.format);
    assert(planes(codes).len() == codes.len());
    assert forall|i: int| 0 <= i < codes.len() implies (#[trigger] codes[i])@.len()
        == sound.frames() by {
        assert(planes(codes)[i] == codes[i]@);
        assert(clamped[i].len() == sound.channels[i].len());
        assert(sound.channels[i].len() == sound.frames());
    }
    assert forall|i: int, j: int| 0 <= i < codes.len() && 0 <= j < sound.frames() implies sound.format.low()
        <= #[trigger] codes[i]@[j] <= sound.format.high() by {
        assert(planes(codes)[i] == codes[i]@);
        assert(codes[i]@.len() == sound.frames());
        assert(clamped[i][j] == codes[i]@[j]);
    }
}

/// A chunk that stands in a file is read as it is.
proof fn lemma_chunk_step(
    bytes: Seq<u8>,
    position: nat,
    id: Seq<u8>,
    body: Seq<u8>,
    rest: Seq<u8>,
    found: Found,
)
    requires
        position <= bytes.len(),
        id.len() == 4,
        body.len() <= u32::MAX,
        bytes.skip(position as int) == chunk(id, body) + rest,
    ensures
        read_chunks(bytes, position, found) == match read_chunk(id, body, found) {
            Err(fault) => Err(fault),
            Ok(more) => read_chunks(bytes, position + chunk(id, body).len(), more),
        },
{
    let start = position as int;
    let tail = bytes.skip(start);
    let size = le_bytes(body.len() as int, 4);
    lemma2_to64();
    lemma_le_bytes_len(body.len() as int, 4);
    lemma_le_round_trip(body.len() as int, 4);
    assert(8 * 4 == 32nat);
    assert(chunk(id, body).len() >= 8 + body.len());
    assert(tail.len() == bytes.len() - start);
    assert(bytes.subrange(start, start + 4) =~= tail.subrange(0, 4));
    assert(tail.subrange(0, 4) =~= id);
    assert(bytes.subrange(start + 4, start + 8) =~= tail.subrange(4, 8));
    assert(tail.subrange(4, 8) =~= size);
    assert(bytes.subrange(start + 8, start + 8 + body.len()) =~= tail.subrange(
        8,
        8 + body.len() as int,
    ));
    assert(tail.subrange(8, 8 + body.len() as int) =~= body);
}

/// A `fmt ` chunk that was written reads back.
proof fn lemma_format_reads(sound: Sound)
    requires
        1 <= sound.channels.len() <= u16::MAX,
        sound.sample_rate > 0,
    ensures
        format_body(sound).len() == if sound.format.spec_is_float() { 18nat } else { 16nat },
        read_format(format_body(sound)) == Ok::<WaveFormat, Fault>(
            WaveFormat {
                tag: if sound.format.spec_is_float() { 3u16 } else { 1u16 },
                channels: sound.channels.len() as u16,
                sample_rate: sound.sample_rate,
                bits: sound.format.spec_bits() as u16,
            },
        ),
{
    let body = format_body(sound);
    let float = sound.format.spec_is_float();
    let align = sound.channels.len() * (sound.format.spec_bits() / 8);
    let tag = if float {
        3int
    } else {
        1int
    };
    lemma2_to64();
    lemma_le_bytes_len(tag, 2);
    lemma_le_bytes_len(sound.channels.len() as int, 2);
    lemma_le_bytes_len(sound.sample_rate as int, 4);
    lemma_le_bytes_len((sound.sample_rate as nat * align) as int, 4);
    lemma_le_bytes_len(align as int, 2);
    lemma_le_bytes_len(sound.format.spec_bits() as int, 2);
    lemma_le_bytes_len(0, 2);
    assert(body.subrange(0, 2) =~= le_bytes(tag, 2));
    assert(body.subrange(2, 4) =~= le_bytes(sound.channels.len() as int, 2));
    assert(body.subrange(4, 8) =~= le_bytes(sound.sample_rate as int, 4));
    assert(body.subrange(14, 16) =~= le_bytes(sound.format.spec_bits() as int, 2));
    assert(8 * 2 == 16nat && 8 * 4 == 32nat);
    lemma_le_round_trip(tag, 2);
    lemma_le_round_trip(sound.channels.len() as int, 2);
    lemma_le_round_trip(sound.sample_rate as int, 4);
    lemma_le_round_trip(sound.format.spec_bits() as int, 2);
    assert(le_field(body, 0, 2) == tag);
    assert(le_field(body, 2, 2) == sound.channels.len());
    assert(le_field(body, 4, 4) == sound.sample_rate);
    assert(le_field(body, 14, 2) == sound.format.spec_bits());
}

/// Audio that a WAV file can hold: channels and a rate, and samples whose size
/// its field has room for.
pub open spec fn storable(sound: Sound) -> bool {
    &&& sound.even()
    &&& 1 <= sound.channels.len() <= u16::MAX
    &&& sound.sample_rate > 0
    &&& data_of(sound).len() <= u32::MAX
}

/// What is woven from whole frames is that many frames long.
pub proof fn lemma_data_frames(big: bool, format: SampleFormat, channels: Seq<Seq<i64>>, frames: nat)
    requires
        channels.len() > 0,
    ensures
        ({
            let align = channels.len() * (format.spec_bits() / 8);
            let data = woven(big, format, channels, frames * channels.len());
            align > 0 && data.len() / align == frames && data.len() == frames * align
        }),
{
    let width = format.spec_bits() / 8;
    let n = channels.len();
    let align = n * width;
    lemma_woven_len(big, format, channels, frames * n);
    assert(align > 0) by (nonlinear_arith)
        requires
            n > 0,
            width > 0,
            align == n * width,
    ;
    assert((frames * n) * width == frames * align) by (nonlinear_arith)
        requires
            align == n * width,
    ;
    vstd::arithmetic::div_mod::lemma_div_multiples_vanish(frames as int, align as int);
    assert(align * frames == frames * align) by (nonlinear_arith);
}

/// A format that was read has channels.
proof fn lemma_format_has_channels(bytes: Seq<u8>, position: nat, found: Found)
    requires
        found.format matches Some(format) ==> format.channels > 0,
    ensures
        read_chunks(bytes, position, found) matches Ok(more) ==> (more.format matches Some(format)
            ==> format.channels > 0),
    decreases bytes.len() + 1 - position,
{
    if position + 8 <= bytes.len() {
        let start = position as int;
        let size = le_field(bytes, start + 4, 4);
        let end = position + 8 + size;
        if end <= bytes.len() {
            let body = bytes.subrange(start + 8, end as int);
            if let Ok(more) = read_chunk(bytes.subrange(start, start + 4), body, found) {
                lemma2_to64();
                assert(8 * 2 == 16nat);
                if body.len() >= 16 {
                    lemma_le_value_bound(body.subrange(2, 4));
                }
                lemma_format_has_channels(bytes, end + size % 2, more);
            }
        }
    }
}

/// What is read from a file is in the range of its format.
pub proof fn law_read_codes_are_in_range(bytes: Seq<u8>)
    ensures
        decoded(bytes) matches Ok(sound) ==> sound.in_range(),
{
    let found = read_chunks(bytes, 12, Found { format: None, data: None });
    if decoded(bytes) is Ok {
        let format = found->Ok_0.format->Some_0;
        let data = found->Ok_0.data->Some_0;
        let sound = decoded(bytes)->Ok_0;
        let sample = sound.format;
        let channels = format.channels as nat;
        let align = channels * (sample.spec_bits() / 8);
        lemma_format_has_channels(bytes, 12, Found { format: None, data: None });
        let frames = data.len() / align;
        assert(align > 0) by (nonlinear_arith)
            requires
                align == channels * (sample.spec_bits() / 8),
                channels > 0,
                sample.spec_bits() / 8 > 0,
        ;
        lemma_fundamental_div_mod(data.len() as int, align as int);
        assert(align * frames == frames * align) by (nonlinear_arith);
        lemma_unwoven_in_range(false, sample, channels, frames, data);
        let read = unwoven(false, sample, channels, frames, data);
        assert(sound.channels == read);
        assert forall|i: int, j: int|
            0 <= i < sound.channels.len() && 0 <= j < sound.channels[i].len() implies sample.low()
            <= #[trigger] sound.channels[i][j] <= sample.high() by {
            assert(read[i].len() == frames);
            assert(sample.low() <= read[i][j] <= sample.high());
        }
    }
}

/// A file that was written reads back as the audio it was written from, whose
/// codes are all in the range of its format.
pub proof fn law_wav_is_lossless(sound: Sound)
    requires
        storable(sound),
        sound.in_range(),
    ensures
        decoded(encoded(sound)) == Ok::<Sound, Fault>(sound),
{
    let bytes = encoded(sound);
    let float = sound.format.spec_is_float();
    let body = format_body(sound);
    let data = data_of(sound);
    let fact = le_bytes(sound.frames() as int, 4);
    let first = chunk(FMT@, body);
    let middle = if float {
        chunk(FACT@, fact)
    } else {
        Seq::empty()
    };
    let last = chunk(DATA@, data);
    lemma_le_bytes_len(4 + chunks(sound).len() as int, 4);
    lemma_le_bytes_len(sound.frames() as int, 4);
    lemma_le_bytes_len(body.len() as int, 4);
    lemma_le_bytes_len(fact.len() as int, 4);
    lemma_format_reads(sound);
    assert(bytes.subrange(0, 4) =~= RIFF@);
    assert(bytes.subrange(8, 12) =~= WAVE@);
    assert(bytes.skip(12) =~= first + (middle + last));
    let none = Found { format: None, data: None };
    let format = read_format(body)->Ok_0;
    let known = Found { format: Some(format), data: None };
    let all = Found { format: Some(format), data: Some(data) };
    assert(FMT@[0] != DATA@[0] && FACT@[0] != DATA@[0] && FACT@[1] != FMT@[1]);
    lemma_chunk_step(bytes, 12, FMT@, body, middle + last, none);
    let second = 12 + first.len();
    if float {
        assert(bytes.skip(second as int) =~= chunk(FACT@, fact) + last);
        lemma_chunk_step(bytes, second, FACT@, fact, last, known);
    }
    let third = second + middle.len();
    assert(bytes.skip(third as int) =~= last + Seq::<u8>::empty());
    lemma_chunk_step(bytes, third, DATA@, data, Seq::empty(), known);
    assert(third + last.len() == bytes.len());
    assert(read_chunks(bytes, bytes.len(), all) == Ok::<Found, Fault>(all));
    if !float {
        lemma_clamped_in_range(sound);
    }
    assert(stored(sound) == sound.channels);
    lemma_data_frames(false, sound.format, sound.channels, sound.frames());
    assert forall|i: int, j: int|
        0 <= i < sound.channels.len() && 0 <= j < sound.frames() implies sound.format.low()
        <= #[trigger] sound.channels[i][j] <= sound.format.high() by {
        assert(sound.channels[i].len() == sound.frames());
    }
    law_weave_round_trip(false, sound.format, sound.channels, sound.frames());
    assert(channels_fault(sound.sample_rate, sound.channels) is None) by {
        assert(sound.channels[0].len() == sound.frames());
    }
}

} // verus!
