//! What the bytes of a file mean, whoever wrote it: where a number stands, in
//! which order its bytes come, and which sample of which channel it is.

use vstd::arithmetic::power2::{
    lemma2_to64, lemma2_to64_rest, lemma_pow2_adds, lemma_pow2_pos, pow2,
};
use vstd::prelude::*;

use super::aiff;
use super::bytes::{be_value, le_value, lemma_le_value_bound};
use super::pcm::{code_bytes, code_of, unwoven};
use super::wav;
use super::{channels_fault, SampleFormat, Sound};
use crate::error::Fault;

verus! {

/// The number that bytes spell from a position on, the lowest byte first.
pub open spec fn low_first(bytes: Seq<u8>, at: int, width: int) -> int {
    if width == 1 {
        bytes[at] as int
    } else if width == 2 {
        bytes[at] + 0x100 * bytes[at + 1]
    } else if width == 3 {
        bytes[at] + 0x100 * bytes[at + 1] + 0x1_0000 * bytes[at + 2]
    } else if width == 4 {
        bytes[at] + 0x100 * bytes[at + 1] + 0x1_0000 * bytes[at + 2] + 0x100_0000 * bytes[at + 3]
    } else {
        bytes[at] + 0x100 * bytes[at + 1] + 0x1_0000 * bytes[at + 2] + 0x100_0000 * bytes[at + 3]
            + 0x1_0000_0000 * bytes[at + 4] + 0x100_0000_0000 * bytes[at + 5]
            + 0x1_0000_0000_0000 * bytes[at + 6] + 0x100_0000_0000_0000 * bytes[at + 7]
    }
}

/// The number that bytes spell from a position on, the highest byte first.
pub open spec fn high_first(bytes: Seq<u8>, at: int, width: int) -> int {
    if width == 1 {
        bytes[at] as int
    } else if width == 2 {
        0x100 * bytes[at] + bytes[at + 1]
    } else if width == 3 {
        0x1_0000 * bytes[at] + 0x100 * bytes[at + 1] + bytes[at + 2]
    } else if width == 4 {
        0x100_0000 * bytes[at] + 0x1_0000 * bytes[at + 1] + 0x100 * bytes[at + 2] + bytes[at + 3]
    } else {
        0x100_0000_0000_0000 * bytes[at] + 0x1_0000_0000_0000 * bytes[at + 1] + 0x100_0000_0000
            * bytes[at + 2] + 0x1_0000_0000 * bytes[at + 3] + 0x100_0000 * bytes[at + 4]
            + 0x1_0000 * bytes[at + 5] + 0x100 * bytes[at + 6] + bytes[at + 7]
    }
}

/// How many bytes a sample takes.
pub open spec fn sample_width(format: SampleFormat) -> int {
    match format {
        SampleFormat::PcmU8 => 1,
        SampleFormat::PcmI16 => 2,
        SampleFormat::PcmI24 => 3,
        SampleFormat::PcmI32 => 4,
        SampleFormat::F32 => 4,
        SampleFormat::F64 => 8,
    }
}

/// Whether a code is the one of two's complement that some bits spell: it lies in
/// the range of the width, and differs from the number by whole turns.
pub open spec fn turned(code: int, spelled: int, width: int) -> bool {
    if width == 1 {
        -0x80 <= code < 0x80 && (code - spelled) % 0x100 == 0
    } else if width == 2 {
        -0x8000 <= code < 0x8000 && (code - spelled) % 0x1_0000 == 0
    } else if width == 3 {
        -0x80_0000 <= code < 0x80_0000 && (code - spelled) % 0x100_0000 == 0
    } else if width == 4 {
        -0x8000_0000 <= code < 0x8000_0000 && (code - spelled) % 0x1_0000_0000 == 0
    } else {
        -0x8000_0000_0000_0000 <= code < 0x8000_0000_0000_0000 && (code - spelled)
            % 0x1_0000_0000_0000_0000 == 0
    }
}

/// Whether a code is what stands at a position of a little-endian file: eight-bit
/// samples count from the middle of their range, wider integers are in two's
/// complement, and floats are the bits themselves.
pub open spec fn little_sample(format: SampleFormat, bytes: Seq<u8>, at: int, code: int) -> bool {
    let spelled = low_first(bytes, at, sample_width(format));
    match format {
        SampleFormat::PcmU8 => code == spelled - 128,
        SampleFormat::F32 => code == spelled,
        _ => turned(code, spelled, sample_width(format)),
    }
}

/// Whether a code is what stands at a position of a big-endian file, every sample
/// an integer in two's complement.
pub open spec fn big_sample(format: SampleFormat, bytes: Seq<u8>, at: int, code: int) -> bool {
    turned(code, high_first(bytes, at, sample_width(format)), sample_width(format))
}

/// A run of bytes spells what its bytes weigh.
proof fn lemma_le_value_weighs(bytes: Seq<u8>)
    requires
        bytes.len() == 1 || bytes.len() == 2 || bytes.len() == 3 || bytes.len() == 4 || bytes.len()
            == 8,
    ensures
        le_value(bytes) == low_first(bytes, 0, bytes.len() as int),
{
    reveal_with_fuel(le_value, 9);
    let b1 = bytes.skip(1);
    let b2 = b1.skip(1);
    let b3 = b2.skip(1);
    let b4 = b3.skip(1);
    if bytes.len() == 8 {
        let b5 = b4.skip(1);
        let b6 = b5.skip(1);
        let b7 = b6.skip(1);
        assert(b1[0] == bytes[1] && b2[0] == bytes[2] && b3[0] == bytes[3] && b4[0] == bytes[4]
            && b5[0] == bytes[5] && b6[0] == bytes[6] && b7[0] == bytes[7]);
        assert(b7.skip(1).len() == 0);
        assert(le_value(b7) == bytes[7]);
        assert(le_value(b6) == bytes[6] + 256 * bytes[7]);
        assert(le_value(b4) == bytes[4] + 256 * (bytes[5] + 256 * (bytes[6] + 256 * bytes[7])));
    }
}

/// A field of a file spells what its bytes weigh.
pub proof fn lemma_little_field(bytes: Seq<u8>, at: int, width: int)
    requires
        width == 1 || width == 2 || width == 3 || width == 4 || width == 8,
        0 <= at,
        at + width <= bytes.len(),
    ensures
        le_value(bytes.subrange(at, at + width)) == low_first(bytes, at, width),
{
    lemma_le_value_weighs(bytes.subrange(at, at + width));
}

/// A field of a file spells what its bytes weigh.
pub proof fn lemma_big_field(bytes: Seq<u8>, at: int, width: int)
    requires
        width == 1 || width == 2 || width == 3 || width == 4 || width == 8,
        0 <= at,
        at + width <= bytes.len(),
    ensures
        be_value(bytes.subrange(at, at + width)) == high_first(bytes, at, width),
{
    let turned = bytes.subrange(at, at + width).reverse();
    lemma_le_value_weighs(turned);
    assert forall|i: int| 0 <= i < width implies #[trigger] turned[i] == bytes[at + width - 1
        - i] by {}
    assert(turned[0] == bytes[at + width - 1]);
    if width >= 2 {
        assert(turned[1] == bytes[at + width - 2]);
    }
    if width >= 3 {
        assert(turned[2] == bytes[at + width - 3]);
    }
    if width >= 4 {
        assert(turned[3] == bytes[at + width - 4]);
    }
    if width == 8 {
        assert(turned[4] == bytes[at + 3] && turned[5] == bytes[at + 2] && turned[6] == bytes[at
            + 1] && turned[7] == bytes[at]);
    }
}

/// A sample of a little-endian file is read with its lowest byte first, whatever
/// wrote it.
pub proof fn law_little_endian_samples(format: SampleFormat, bytes: Seq<u8>, at: int)
    requires
        0 <= at,
        at + sample_width(format) <= bytes.len(),
    ensures
        little_sample(
            format,
            bytes,
            at,
            code_of(false, format, bytes.subrange(at, at + sample_width(format))) as int,
        ),
{
    let part = bytes.subrange(at, at + sample_width(format));
    lemma2_to64();
    lemma2_to64_rest();
    lemma_le_value_bound(part);
    lemma_little_field(bytes, at, sample_width(format));
    assert(8 * 1 == 8nat && 8 * 2 == 16nat && 8 * 3 == 24nat && 8 * 4 == 32nat && 8 * 8 == 64nat);
}

/// A sample of a big-endian file is read with its highest byte first, whatever
/// wrote it.
pub proof fn law_big_endian_samples(format: SampleFormat, bytes: Seq<u8>, at: int)
    requires
        !format.spec_is_float(),
        0 <= at,
        at + sample_width(format) <= bytes.len(),
    ensures
        big_sample(
            format,
            bytes,
            at,
            code_of(true, format, bytes.subrange(at, at + sample_width(format))) as int,
        ),
{
    let part = bytes.subrange(at, at + sample_width(format));
    lemma2_to64();
    lemma2_to64_rest();
    lemma_le_value_bound(part.reverse());
    lemma_big_field(bytes, at, sample_width(format));
    assert(8 * 1 == 8nat && 8 * 2 == 16nat && 8 * 3 == 24nat && 8 * 4 == 32nat && 8 * 8 == 64nat);
}

/// A sample is written as the bytes that stand for it in a file of either order.
pub proof fn law_samples_are_written_in_order(format: SampleFormat, code: i64)
    requires
        format.low() <= code <= format.high(),
    ensures
        code_bytes(false, format, code).len() == sample_width(format),
        little_sample(format, code_bytes(false, format, code), 0, code as int),
        !format.spec_is_float() ==> code_bytes(true, format, code).len() == sample_width(format)
            && big_sample(format, code_bytes(true, format, code), 0, code as int),
{
    let width = sample_width(format);
    let little = code_bytes(false, format, code);
    super::pcm::lemma_code_bytes_len(false, format, code);
    super::pcm::law_code_round_trip(false, format, code);
    law_little_endian_samples(format, little, 0);
    assert(little.subrange(0, width) =~= little);
    if !format.spec_is_float() {
        let big = code_bytes(true, format, code);
        super::pcm::lemma_code_bytes_len(true, format, code);
        super::pcm::law_code_round_trip(true, format, code);
        law_big_endian_samples(format, big, 0);
        assert(big.subrange(0, width) =~= big);
    }
}

/// Whether the samples of a recording are those that stand in a file from a
/// position on, frame by frame and channel by channel.
pub open spec fn laid_out(
    sound: Sound,
    bytes: Seq<u8>,
    from: int,
    channels: int,
    frames: int,
    big: bool,
) -> bool {
    &&& sound.channels.len() == channels
    &&& forall|c: int| 0 <= c < channels ==> (#[trigger] sound.channels[c]).len() == frames
    &&& forall|c: int, f: int|
        0 <= c < channels && 0 <= f < frames ==> {
            let at = from + (f * channels + c) * sample_width(sound.format);
            if big {
                big_sample(sound.format, bytes, at, #[trigger] sound.channels[c][f] as int)
            } else {
                little_sample(sound.format, bytes, at, sound.channels[c][f] as int)
            }
        }
}

/// Where a sample stands, it lies in the file.
proof fn lemma_sample_inside(frame: int, frames: int, channel: int, channels: int, width: int)
    requires
        0 <= frame < frames,
        0 <= channel < channels,
        width > 0,
    ensures
        0 <= (frame * channels + channel) * width,
        (frame * channels + channel) * width + width <= frames * (channels * width),
{
    assert(0 <= (frame * channels + channel) * width && (frame * channels + channel) * width + width
        <= frames * (channels * width)) by (nonlinear_arith)
        requires
            0 <= frame < frames,
            0 <= channel < channels,
            width > 0,
    ;
}

/// Samples that were taken apart are laid out as they stood.
proof fn lemma_unwoven_laid_out(
    big: bool,
    sound: Sound,
    bytes: Seq<u8>,
    from: int,
    to: int,
    channels: nat,
    frames: nat,
)
    requires
        big ==> !sound.format.spec_is_float(),
        0 <= from <= to <= bytes.len(),
        frames * (channels * sample_width(sound.format)) <= to - from,
        sound.channels == unwoven(
            big,
            sound.format,
            channels,
            frames,
            bytes.subrange(from, to),
        ),
    ensures
        laid_out(sound, bytes, from, channels as int, frames as int, big),
{
    let width = sample_width(sound.format);
    let data = bytes.subrange(from, to);
    assert(width == sound.format.spec_bits() / 8);
    assert forall|c: int, f: int| 0 <= c < channels && 0 <= f < frames implies {
        let at = from + (f * channels + c) * width;
        if big {
            big_sample(sound.format, bytes, at, #[trigger] sound.channels[c][f] as int)
        } else {
            little_sample(sound.format, bytes, at, sound.channels[c][f] as int)
        }
    } by {
        let start = (f * channels + c) * width;
        lemma_sample_inside(f, frames as int, c, channels as int, width);
        let at = from + start;
        assert(data.subrange(start, start + width) =~= bytes.subrange(at, at + width));
        if big {
            law_big_endian_samples(sound.format, bytes, at);
        } else {
            law_little_endian_samples(sound.format, bytes, at);
        }
    }
}

/// Four characters of an identifier.
pub open spec fn id_at(bytes: Seq<u8>, at: int) -> (u8, u8, u8, u8) {
    (bytes[at], bytes[at + 1], bytes[at + 2], bytes[at + 3])
}

/// A WAV file of a `fmt ` and a `data` chunk is read as it is laid out, whatever
/// wrote it: the tag, the channels, the rate and the depth from their fields, an
/// extensible one's tag from its sub-format, and the samples behind each other.
#[verifier::spinoff_prover]
#[verifier::rlimit(60)]
pub proof fn law_wav_files_mean_what_they_say(file: Seq<u8>, format: SampleFormat)
    requires
        file.len() >= 44,
        id_at(file, 0) == (0x52u8, 0x49u8, 0x46u8, 0x46u8),
        id_at(file, 8) == (0x57u8, 0x41u8, 0x56u8, 0x45u8),
        id_at(file, 12) == (0x66u8, 0x6Du8, 0x74u8, 0x20u8),
        ({
            let size = low_first(file, 16, 4);
            let stated = low_first(file, 20, 2);
            let tag = if stated == 0xFFFE {
                low_first(file, 44, 2)
            } else {
                stated
            };
            let bits = low_first(file, 34, 2);
            let start = 28 + size;
            let length = low_first(file, 24 + size, 4);
            &&& size >= 16
            &&& size % 2 == 0
            &&& stated == 0xFFFE ==> size >= 40
            &&& start <= file.len()
            &&& id_at(file, 20 + size) == (0x64u8, 0x61u8, 0x74u8, 0x61u8)
            &&& start + length <= file.len() < start + length + length % 2 + 8
            &&& low_first(file, 22, 2) > 0
            &&& low_first(file, 24, 4) > 0
            &&& match format {
                SampleFormat::PcmU8 => tag == 1 && bits == 8,
                SampleFormat::PcmI16 => tag == 1 && bits == 16,
                SampleFormat::PcmI24 => tag == 1 && bits == 24,
                SampleFormat::PcmI32 => tag == 1 && bits == 32,
                SampleFormat::F32 => tag == 3 && bits == 32,
                SampleFormat::F64 => tag == 3 && bits == 64,
            }
        }),
    ensures
        ({
            let channels = low_first(file, 22, 2);
            let start = 28 + low_first(file, 16, 4);
            let length = low_first(file, start - 4, 4);
            let frames = length / (channels * sample_width(format));
            &&& wav::decoded(file) matches Ok(sound)
            &&& sound.sample_rate == low_first(file, 24, 4)
            &&& sound.format == format
            &&& laid_out(sound, file, start, channels, frames, false)
        }),
{
    let size = low_first(file, 16, 4);
    let channels = low_first(file, 22, 2);
    let start = 28 + size;
    let length = low_first(file, 24 + size, 4);
    let width = sample_width(format);
    lemma2_to64();
    lemma_little_field(file, 16, 4);
    lemma_little_field(file, 24 + size, 4);
    assert(file.subrange(0, 4) =~= wav::RIFF@);
    assert(file.subrange(8, 12) =~= wav::WAVE@);
    assert(file.subrange(12, 16) =~= wav::FMT@);
    assert(file.subrange(20 + size, 24 + size) =~= wav::DATA@);
    let body = file.subrange(20, 20 + size);
    assert(body.subrange(0, 2) =~= file.subrange(20, 22));
    assert(body.subrange(2, 4) =~= file.subrange(22, 24));
    assert(body.subrange(4, 8) =~= file.subrange(24, 28));
    assert(body.subrange(14, 16) =~= file.subrange(34, 36));
    lemma_little_field(file, 20, 2);
    lemma_little_field(file, 22, 2);
    lemma_little_field(file, 24, 4);
    lemma_little_field(file, 34, 2);
    if low_first(file, 20, 2) == 0xFFFE {
        assert(body.subrange(24, 26) =~= file.subrange(44, 46));
        lemma_little_field(file, 44, 2);
    }
    let data = file.subrange(start, start + length);
    let none = wav::Found { format: None, data: None };
    let known = wav::read_format(body)->Ok_0;
    assert(wav::FMT@[0] != wav::DATA@[0]);
    let half = wav::Found { format: Some(known), data: None };
    let all = wav::Found { format: Some(known), data: Some(data) };
    assert(wav::read_chunk(wav::FMT@, body, none) == Ok::<wav::Found, Fault>(half));
    assert(wav::read_chunks(file, 12, none) == wav::read_chunks(file, (20 + size) as nat, half));
    let end = (start + length + length % 2) as nat;
    assert(wav::read_chunks(file, (20 + size) as nat, half) == wav::read_chunks(file, end, all));
    assert(wav::read_chunks(file, end, all) == Ok::<wav::Found, Fault>(all));
    let align = channels * width;
    assert(align > 0) by (nonlinear_arith)
        requires
            channels > 0,
            width > 0,
            align == channels * width,
    ;
    let frames = (length / align) as nat;
    vstd::arithmetic::div_mod::lemma_fundamental_div_mod(length, align);
    vstd::arithmetic::div_mod::lemma_mod_bound(length, align);
    assert(frames * align <= length) by (nonlinear_arith)
        requires
            length == align * (length / align) + length % align,
            length % align >= 0,
            frames == length / align,
    ;
    let samples = unwoven(false, format, channels as nat, frames, data);
    assert(samples.len() == channels);
    assert(channels_fault(known.sample_rate, samples) is None);
    let sound = Sound { sample_rate: known.sample_rate, format, channels: samples };
    assert(wav::decoded(file) == Ok::<Sound, Fault>(sound));
    lemma_unwoven_laid_out(false, sound, file, start, start + length, channels as nat, frames);
}

/// An AIFF file of a `COMM` and an `SSND` chunk is read as it is laid out, whatever
/// wrote it: the channels, the frames and the depth from their fields, the rate from
/// its extended float, and the samples behind the offset the `SSND` chunk states, as
/// many frames as were announced or as there are.
#[verifier::spinoff_prover]
#[verifier::rlimit(60)]
pub proof fn law_aiff_files_mean_what_they_say(file: Seq<u8>, format: SampleFormat, rate: u32)
    requires
        file.len() >= 54,
        id_at(file, 0) == (0x46u8, 0x4Fu8, 0x52u8, 0x4Du8),
        id_at(file, 8) == (0x41u8, 0x49u8, 0x46u8, 0x46u8) || id_at(file, 8) == (
            0x41u8,
            0x49u8,
            0x46u8,
            0x43u8,
        ),
        id_at(file, 12) == (0x43u8, 0x4Fu8, 0x4Du8, 0x4Du8),
        ({
            let size = high_first(file, 16, 4);
            let bits = high_first(file, 26, 2);
            let start = 28 + size;
            let length = high_first(file, 24 + size, 4);
            &&& size >= 18
            &&& size % 2 == 0
            &&& size >= 22 ==> id_at(file, 38) == (0x4Eu8, 0x4Fu8, 0x4Eu8, 0x45u8)
            &&& start + 8 <= file.len()
            &&& id_at(file, 20 + size) == (0x53u8, 0x53u8, 0x4Eu8, 0x44u8)
            &&& start + length <= file.len() < start + length + length % 2 + 8
            &&& length >= 8 + high_first(file, start, 4)
            &&& high_first(file, 20, 2) > 0
            &&& is_rate(file, 28, rate)
            &&& match format {
                SampleFormat::PcmU8 => bits == 8,
                SampleFormat::PcmI16 => bits == 16,
                SampleFormat::PcmI24 => bits == 24,
                SampleFormat::PcmI32 => bits == 32,
                _ => false,
            }
        }),
    ensures
        ({
            let channels = high_first(file, 20, 2);
            let start = 28 + high_first(file, 16, 4);
            let skipped = 8 + high_first(file, start, 4);
            let length = high_first(file, start - 4, 4) - skipped;
            let available = length / (channels * sample_width(format));
            let announced = high_first(file, 22, 4);
            let frames = if announced < available {
                announced
            } else {
                available
            };
            &&& aiff::decoded(file) matches Ok(sound)
            &&& sound.sample_rate == rate
            &&& sound.format == format
            &&& laid_out(sound, file, start + skipped, channels, frames, true)
        }),
{
    let size = high_first(file, 16, 4);
    let channels = high_first(file, 20, 2);
    let start = 28 + size;
    let whole = high_first(file, 24 + size, 4);
    let skipped = 8 + high_first(file, start, 4);
    let length = whole - skipped;
    let width = sample_width(format);
    lemma2_to64();
    lemma_big_field(file, 16, 4);
    lemma_big_field(file, 24 + size, 4);
    assert(file.subrange(0, 4) =~= aiff::FORM@);
    if file[11] == 0x46 {
        assert(file.subrange(8, 12) =~= aiff::AIFF@);
    } else {
        assert(file.subrange(8, 12) =~= aiff::AIFC@);
    }
    assert(file.subrange(12, 16) =~= aiff::COMM@);
    assert(file.subrange(20 + size, 24 + size) =~= aiff::SSND@);
    let body = file.subrange(20, 20 + size);
    assert(body.subrange(0, 2) =~= file.subrange(20, 22));
    assert(body.subrange(2, 6) =~= file.subrange(22, 26));
    assert(body.subrange(6, 8) =~= file.subrange(26, 28));
    assert(body.subrange(8, 18) =~= file.subrange(28, 38));
    if size >= 22 {
        assert(body.subrange(18, 22) =~= aiff::NONE@);
    }
    lemma_big_field(file, 20, 2);
    lemma_big_field(file, 22, 4);
    lemma_big_field(file, 26, 2);
    law_rates_are_extended_floats(file, 28, rate);
    let sound_body = file.subrange(start, start + whole);
    assert(sound_body.subrange(0, 4) =~= file.subrange(start, start + 4));
    lemma_big_field(file, start, 4);
    let data = file.subrange(start + skipped, start + whole);
    assert(sound_body.skip(skipped) =~= data);
    let none = aiff::Found { common: None, sound: None };
    let known = aiff::read_common(body)->Ok_0;
    assert(aiff::COMM@[0] != aiff::SSND@[0]);
    let half = aiff::Found { common: Some(known), sound: None };
    let all = aiff::Found { common: Some(known), sound: Some(data) };
    assert(aiff::read_chunk(aiff::COMM@, body, none) == Ok::<aiff::Found, Fault>(half));
    assert(aiff::read_chunks(file, 12, none) == aiff::read_chunks(file, (20 + size) as nat, half));
    let end = (start + whole + whole % 2) as nat;
    assert(aiff::read_chunk(aiff::SSND@, sound_body, half) == Ok::<aiff::Found, Fault>(all));
    assert(aiff::read_chunks(file, (20 + size) as nat, half) == aiff::read_chunks(file, end, all));
    assert(aiff::read_chunks(file, end, all) == Ok::<aiff::Found, Fault>(all));
    let align = channels * width;
    assert(align > 0) by (nonlinear_arith)
        requires
            channels > 0,
            width > 0,
            align == channels * width,
    ;
    let available = (length / align) as nat;
    let frames = if high_first(file, 22, 4) < available {
        high_first(file, 22, 4) as nat
    } else {
        available
    };
    vstd::arithmetic::div_mod::lemma_fundamental_div_mod(length, align);
    vstd::arithmetic::div_mod::lemma_mod_bound(length, align);
    assert(frames * align <= length) by (nonlinear_arith)
        requires
            length == align * (length / align) + length % align,
            length % align >= 0,
            frames <= length / align,
            align > 0,
    ;
    let samples = unwoven(true, format, channels as nat, frames, data);
    assert(samples.len() == channels);
    assert(channels_fault(known.sample_rate, samples) is None);
    let sound = Sound { sample_rate: known.sample_rate, format, channels: samples };
    assert(aiff::decoded(file) == Ok::<Sound, Fault>(sound));
    lemma_unwoven_laid_out(
        true,
        sound,
        file,
        start + skipped,
        start + whole,
        channels as nat,
        frames,
    );
}

/// Whether the ten bytes at a position are the extended float nearest to which a
/// rate lies, halves going up: a positive number, an exponent that is counted from
/// 16383, and a mantissa of 64 bits whose first is set and whose last eleven are
/// not.
pub open spec fn is_rate(bytes: Seq<u8>, at: int, rate: u32) -> bool {
    let power = high_first(bytes, at, 2) - 16383;
    let mantissa = high_first(bytes, at + 2, 8);
    let unit = pow2((63 - power) as nat);
    &&& 0 <= power < 32
    &&& mantissa >= 0x8000_0000_0000_0000
    &&& mantissa % 2048 == 0
    &&& mantissa <= 0xFFFF_FFFF * unit
    &&& 2 * (rate * unit) <= 2 * mantissa + unit
    &&& 2 * mantissa + unit < 2 * (rate * unit) + 2 * unit
}

/// An extended float is read as the whole rate that lies nearest to it.
pub proof fn law_rates_are_extended_floats(bytes: Seq<u8>, at: int, rate: u32)
    requires
        0 <= at,
        at + 10 <= bytes.len(),
        is_rate(bytes, at, rate),
    ensures
        aiff::read_extended(bytes.subrange(at, at + 10)) == Ok::<nat, Fault>(rate as nat),
{
    let part = bytes.subrange(at, at + 10);
    let power = (high_first(bytes, at, 2) - 16383) as nat;
    let mantissa = high_first(bytes, at + 2, 8) as nat;
    let room = (63 - power) as nat;
    let unit = pow2(room);
    lemma2_to64();
    lemma2_to64_rest();
    assert(part.subrange(0, 2) =~= bytes.subrange(at, at + 2));
    assert(part.subrange(2, 10) =~= bytes.subrange(at + 2, at + 10));
    lemma_big_field(bytes, at, 2);
    lemma_big_field(bytes, at + 2, 8);
    aiff::lemma_exponent_unique(mantissa, 63);
    assert(aiff::nearest53(mantissa) == mantissa) by {
        assert((super::flac::encode::exponent(mantissa) - 52) as nat == 11nat);
        assert(mantissa == 2048 * (mantissa / 2048));
    }
    let scale = pow2(power + 1);
    assert((power + 16383 - 16382) as nat == power + 1);
    lemma_pow2_adds(room, power + 1);
    assert(room + (power + 1) == 64nat);
    lemma_pow2_pos(room);
    lemma_pow2_pos(power + 1);
    let turn: int = 0x1_0000_0000_0000_0000;
    let scaled = mantissa * scale;
    assert(unit * scale == turn);
    lemma_pow2_adds(power, room);
    assert(power + room == 63nat);
    assert(turn <= scaled <= 0xFFFF_FFFF * turn && rate * turn <= scaled + turn / 2 && scaled + turn
        / 2 < rate * turn + turn) by (nonlinear_arith)
        requires
            scaled == mantissa * scale,
            unit * scale == turn,
            turn == 0x1_0000_0000_0000_0000,
            mantissa >= 0x8000_0000_0000_0000,
            scale >= 2,
            unit > 0,
            mantissa <= 0xFFFF_FFFF * unit,
            2 * (rate * unit) <= 2 * mantissa + unit,
            2 * mantissa + unit < 2 * (rate * unit) + 2 * unit,
    ;
    vstd::arithmetic::div_mod::lemma_fundamental_div_mod_converse(
        scaled + turn / 2,
        turn,
        rate as int,
        scaled + turn / 2 - rate * turn,
    );
}

/// Whether a position is the end of whole chunks that begin at another: a chunk is
/// an identifier of four bytes, a size of four, as many bytes as it says, and one
/// more where that is odd.
pub open spec fn chunk_border(bytes: Seq<u8>, from: int, to: int, big: bool) -> bool
    decreases
            if from < to {
                to - from
            } else {
                0
            },
{
    if from >= to {
        from == to
    } else {
        let size = if big {
            high_first(bytes, from + 4, 4)
        } else {
            low_first(bytes, from + 4, 4)
        };
        &&& from + 8 + size <= bytes.len()
        &&& chunk_border(bytes, from + 8 + size + size % 2, to, big)
    }
}

/// A file with bytes put in at a position.
pub open spec fn with_inserted(file: Seq<u8>, at: int, extra: Seq<u8>) -> Seq<u8> {
    file.take(at) + extra + file.skip(at)
}

/// Whether bytes are one chunk with its pad byte.
pub open spec fn is_chunk(extra: Seq<u8>, big: bool) -> bool {
    let size = if big {
        high_first(extra, 4, 4)
    } else {
        low_first(extra, 4, 4)
    };
    extra.len() >= 8 && extra.len() == 8 + size + size % 2
}

/// Chunks behind what was put in are read as they were.
pub proof fn lemma_wav_shifts(old_file: Seq<u8>, new_file: Seq<u8>, shift: nat, at: nat, found: wav::Found)
    requires
        new_file.len() == old_file.len() + shift,
        forall|i: int| at <= i < old_file.len() ==> new_file[i + shift] == #[trigger] old_file[i],
    ensures
        wav::read_chunks(new_file, at + shift, found) == wav::read_chunks(old_file, at, found),
    decreases old_file.len() + 1 - at,
{
    if at + 8 <= old_file.len() {
        let a = at as int;
        let b = a + shift;
        assert(new_file.subrange(b, b + 4) =~= old_file.subrange(a, a + 4));
        assert(new_file.subrange(b + 4, b + 8) =~= old_file.subrange(a + 4, a + 8));
        let size = wav::le_field(old_file, a + 4, 4);
        let end = at + 8 + size;
        if end <= old_file.len() {
            let body = old_file.subrange(a + 8, end as int);
            assert(new_file.subrange(b + 8, (end + shift) as int) =~= body);
            if let Ok(more) = wav::read_chunk(old_file.subrange(a, a + 4), body, found) {
                lemma_wav_shifts(old_file, new_file, shift, end + size % 2, more);
            }
        }
    }
}

/// Chunks before what was put in are read as they were.
proof fn lemma_wav_insertion(file: Seq<u8>, from: nat, at: int, extra: Seq<u8>, found: wav::Found)
    requires
        0 <= at <= file.len(),
        chunk_border(file, from as int, at, false),
        is_chunk(extra, false),
        id_at(extra, 0) != (0x66u8, 0x6Du8, 0x74u8, 0x20u8),
        id_at(extra, 0) != (0x64u8, 0x61u8, 0x74u8, 0x61u8),
    ensures
        wav::read_chunks(with_inserted(file, at, extra), from, found) == wav::read_chunks(
            file,
            from,
            found,
        ),
    decreases at - from,
{
    let new_file = with_inserted(file, at, extra);
    let a = from as int;
    if a == at {
        let size = low_first(extra, 4, 4);
        assert(new_file.subrange(a, a + 4) =~= extra.subrange(0, 4));
        assert(new_file.subrange(a + 4, a + 8) =~= extra.subrange(4, 8));
        lemma_little_field(extra, 4, 4);
        let id = extra.subrange(0, 4);
        assert(id != wav::FMT@) by {
            if id == wav::FMT@ {
                assert(id[0] == wav::FMT@[0] && id[1] == wav::FMT@[1] && id[2] == wav::FMT@[2]
                    && id[3] == wav::FMT@[3]);
            }
        }
        assert(id != wav::DATA@) by {
            if id == wav::DATA@ {
                assert(id[0] == wav::DATA@[0] && id[1] == wav::DATA@[1] && id[2] == wav::DATA@[2]
                    && id[3] == wav::DATA@[3]);
            }
        }
        assert(wav::read_chunks(new_file, from, found) == wav::read_chunks(
            new_file,
            from + extra.len(),
            found,
        ));
        lemma_wav_shifts(file, new_file, extra.len(), from, found);
    } else {
        let size = low_first(file, a + 4, 4);
        let next = a + 8 + size + size % 2;
        assert(chunk_border(file, next, at, false));
        assert(next <= at);
        lemma_little_field(file, a + 4, 4);
        assert(new_file.subrange(a, a + 4) =~= file.subrange(a, a + 4));
        assert(new_file.subrange(a + 4, a + 8) =~= file.subrange(a + 4, a + 8));
        let body = file.subrange(a + 8, a + 8 + size);
        assert(new_file.subrange(a + 8, a + 8 + size) =~= body);
        if let Ok(more) = wav::read_chunk(file.subrange(a, a + 4), body, found) {
            lemma_wav_insertion(file, next as nat, at, extra, more);
        }
    }
}

/// A chunk that is neither `fmt ` nor `data` does not matter, wherever among the
/// chunks of a WAV file it stands.
pub proof fn law_wav_files_may_hold_other_chunks(file: Seq<u8>, at: int, extra: Seq<u8>)
    requires
        12 <= at <= file.len(),
        chunk_border(file, 12, at, false),
        is_chunk(extra, false),
        id_at(extra, 0) != (0x66u8, 0x6Du8, 0x74u8, 0x20u8),
        id_at(extra, 0) != (0x64u8, 0x61u8, 0x74u8, 0x61u8),
    ensures
        wav::decoded(with_inserted(file, at, extra)) == wav::decoded(file),
{
    let new_file = with_inserted(file, at, extra);
    assert(new_file.subrange(0, 4) =~= file.subrange(0, 4));
    assert(new_file.subrange(8, 12) =~= file.subrange(8, 12));
    lemma_wav_insertion(file, 12, at, extra, wav::Found { format: None, data: None });
}

/// Chunks behind what was put in are read as they were.
pub proof fn lemma_aiff_shifts(
    old_file: Seq<u8>,
    new_file: Seq<u8>,
    shift: nat,
    at: nat,
    found: aiff::Found,
)
    requires
        new_file.len() == old_file.len() + shift,
        forall|i: int| at <= i < old_file.len() ==> new_file[i + shift] == #[trigger] old_file[i],
    ensures
        aiff::read_chunks(new_file, at + shift, found) == aiff::read_chunks(old_file, at, found),
    decreases old_file.len() + 1 - at,
{
    if at + 8 <= old_file.len() {
        let a = at as int;
        let b = a + shift;
        assert(new_file.subrange(b, b + 4) =~= old_file.subrange(a, a + 4));
        assert(new_file.subrange(b + 4, b + 8) =~= old_file.subrange(a + 4, a + 8));
        let size = aiff::be_field(old_file, a + 4, 4);
        let end = at + 8 + size;
        if end <= old_file.len() {
            let body = old_file.subrange(a + 8, end as int);
            assert(new_file.subrange(b + 8, (end + shift) as int) =~= body);
            if let Ok(more) = aiff::read_chunk(old_file.subrange(a, a + 4), body, found) {
                lemma_aiff_shifts(old_file, new_file, shift, end + size % 2, more);
            }
        }
    }
}

/// Chunks before what was put in are read as they were.
proof fn lemma_aiff_insertion(file: Seq<u8>, from: nat, at: int, extra: Seq<u8>, found: aiff::Found)
    requires
        0 <= at <= file.len(),
        chunk_border(file, from as int, at, true),
        is_chunk(extra, true),
        id_at(extra, 0) != (0x43u8, 0x4Fu8, 0x4Du8, 0x4Du8),
        id_at(extra, 0) != (0x53u8, 0x53u8, 0x4Eu8, 0x44u8),
    ensures
        aiff::read_chunks(with_inserted(file, at, extra), from, found) == aiff::read_chunks(
            file,
            from,
            found,
        ),
    decreases at - from,
{
    let new_file = with_inserted(file, at, extra);
    let a = from as int;
    if a == at {
        assert(new_file.subrange(a, a + 4) =~= extra.subrange(0, 4));
        assert(new_file.subrange(a + 4, a + 8) =~= extra.subrange(4, 8));
        lemma_big_field(extra, 4, 4);
        let id = extra.subrange(0, 4);
        assert(id != aiff::COMM@) by {
            if id == aiff::COMM@ {
                assert(id[0] == aiff::COMM@[0] && id[1] == aiff::COMM@[1] && id[2]
                    == aiff::COMM@[2] && id[3] == aiff::COMM@[3]);
            }
        }
        assert(id != aiff::SSND@) by {
            if id == aiff::SSND@ {
                assert(id[0] == aiff::SSND@[0] && id[1] == aiff::SSND@[1] && id[2]
                    == aiff::SSND@[2] && id[3] == aiff::SSND@[3]);
            }
        }
        assert(aiff::read_chunks(new_file, from, found) == aiff::read_chunks(
            new_file,
            from + extra.len(),
            found,
        ));
        lemma_aiff_shifts(file, new_file, extra.len(), from, found);
    } else {
        let size = high_first(file, a + 4, 4);
        let next = a + 8 + size + size % 2;
        assert(chunk_border(file, next, at, true));
        assert(next <= at);
        lemma_big_field(file, a + 4, 4);
        assert(new_file.subrange(a, a + 4) =~= file.subrange(a, a + 4));
        assert(new_file.subrange(a + 4, a + 8) =~= file.subrange(a + 4, a + 8));
        let body = file.subrange(a + 8, a + 8 + size);
        assert(new_file.subrange(a + 8, a + 8 + size) =~= body);
        if let Ok(more) = aiff::read_chunk(file.subrange(a, a + 4), body, found) {
            lemma_aiff_insertion(file, next as nat, at, extra, more);
        }
    }
}

/// A chunk that is neither `COMM` nor `SSND` does not matter, wherever among the
/// chunks of an AIFF file it stands.
pub proof fn law_aiff_files_may_hold_other_chunks(file: Seq<u8>, at: int, extra: Seq<u8>)
    requires
        12 <= at <= file.len(),
        chunk_border(file, 12, at, true),
        is_chunk(extra, true),
        id_at(extra, 0) != (0x43u8, 0x4Fu8, 0x4Du8, 0x4Du8),
        id_at(extra, 0) != (0x53u8, 0x53u8, 0x4Eu8, 0x44u8),
    ensures
        aiff::decoded(with_inserted(file, at, extra)) == aiff::decoded(file),
{
    let new_file = with_inserted(file, at, extra);
    assert(new_file.subrange(0, 4) =~= file.subrange(0, 4));
    assert(new_file.subrange(8, 12) =~= file.subrange(8, 12));
    lemma_aiff_insertion(file, 12, at, extra, aiff::Found { common: None, sound: None });
}

} // verus!
