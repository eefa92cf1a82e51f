//! What the files that are written hold, byte by byte.

use vstd::arithmetic::power2::{lemma2_to64, pow2};
use vstd::prelude::*;

use super::aiff;
use super::bytes::{be_bytes, le_bytes, lemma_le_bytes_len, lemma_le_round_trip};
use super::layout::{
    big_sample, high_first, id_at, laid_out, law_samples_are_written_in_order, lemma_big_field,
    lemma_little_field, little_sample, low_first, sample_width,
};
use super::pcm::{code_bytes, lemma_woven_at, woven};
use super::wav;
use super::{clamped_channels, lemma_clamped_in_range, SampleFormat, Sound};

verus! {

/// A field that was written spells the number that was meant.
proof fn lemma_little_written(file: Seq<u8>, at: int, value: int, width: nat)
    requires
        width == 1 || width == 2 || width == 4,
        0 <= at,
        at + width <= file.len(),
        file.subrange(at, at + width) == le_bytes(value, width),
        0 <= value,
        value < (if width == 1 {
            0x100int
        } else if width == 2 {
            0x1_0000
        } else {
            0x1_0000_0000
        }),
    ensures
        low_first(file, at, width as int) == value,
{
    lemma2_to64();
    lemma_le_round_trip(value, width);
    lemma_little_field(file, at, width as int);
    assert(8 * 1 == 8nat && 8 * 2 == 16nat && 8 * 4 == 32nat);
    vstd::arithmetic::div_mod::lemma_small_mod(value as nat, pow2(8 * width));
}

proof fn lemma_big_written(file: Seq<u8>, at: int, value: int, width: nat)
    requires
        width == 1 || width == 2 || width == 4,
        0 <= at,
        at + width <= file.len(),
        file.subrange(at, at + width) == be_bytes(value, width),
        0 <= value,
        value < (if width == 1 {
            0x100int
        } else if width == 2 {
            0x1_0000
        } else {
            0x1_0000_0000
        }),
    ensures
        high_first(file, at, width as int) == value,
{
    lemma2_to64();
    lemma_le_round_trip(value, width);
    lemma_le_bytes_len(value, width);
    lemma_big_field(file, at, width as int);
    assert(be_bytes(value, width).reverse() =~= le_bytes(value, width));
    assert(8 * 1 == 8nat && 8 * 2 == 16nat && 8 * 4 == 32nat);
    vstd::arithmetic::div_mod::lemma_small_mod(value as nat, pow2(8 * width));
}

/// Samples that were woven stand where they belong.
proof fn lemma_woven_laid_out(sound: Sound, file: Seq<u8>, from: int, big: bool)
    requires
        sound.even(),
        sound.in_range(),
        sound.channels.len() >= 1,
        big ==> !sound.format.spec_is_float(),
        0 <= from,
        ({
            let data = woven(
                big,
                sound.format,
                sound.channels,
                sound.frames() * sound.channels.len(),
            );
            from + data.len() <= file.len() && file.subrange(from, from + data.len()) == data
        }),
    ensures
        laid_out(sound, file, from, sound.channels.len() as int, sound.frames() as int, big),
{
    let n = sound.channels.len() as int;
    let count = sound.frames() * sound.channels.len();
    let data = woven(big, sound.format, sound.channels, count);
    let width = sample_width(sound.format);
    assert forall|c: int| 0 <= c < n implies (#[trigger] sound.channels[c]).len()
        == sound.frames() by {}
    assert forall|c: int, f: int| 0 <= c < n && 0 <= f < sound.frames() implies {
        let at = from + (f * n + c) * width;
        if big {
            big_sample(sound.format, file, at, #[trigger] sound.channels[c][f] as int)
        } else {
            little_sample(sound.format, file, at, sound.channels[c][f] as int)
        }
    } by {
        let index = f * n + c;
        let code = sound.channels[c][f];
        assert(0 <= index < count && index % n == c && index / n == f) by {
            assert(0 <= index < sound.frames() * n) by (nonlinear_arith)
                requires
                    index == f * n + c,
                    0 <= c < n,
                    0 <= f,
                    f + 1 <= sound.frames(),
            ;
            vstd::arithmetic::div_mod::lemma_fundamental_div_mod_converse(index, n, f, c);
        }
        lemma_woven_at(big, sound.format, sound.channels, count, index as nat);
        lemma_woven_len(big, sound.format, sound.channels, count);
        law_samples_are_written_in_order(sound.format, code);
        let part = code_bytes(big, sound.format, code);
        let at = from + index * width;
        let step = index * width;
        assert(0 <= step && step + width <= data.len()) by {
            assert(sound.format.spec_bits() / 8 == width);
        }
        assert(file.subrange(at, at + width) =~= part) by {
            assert(file.subrange(at, at + width) =~= file.subrange(
                from,
                from + data.len(),
            ).subrange(step, step + width));
        }
        assert(part.subrange(0, width) =~= part);
        if big {
            lemma_big_field(file, at, width);
            lemma_big_field(part, 0, width);
        } else {
            lemma_little_field(file, at, width);
            lemma_little_field(part, 0, width);
        }
    }
}

/// Woven samples take as many bytes as their width says.
proof fn lemma_woven_len(big: bool, format: SampleFormat, channels: Seq<Seq<i64>>, count: nat)
    ensures
        woven(big, format, channels, count).len() == count * (format.spec_bits() / 8),
    decreases count,
{
    let width = format.spec_bits() / 8;
    if count > 0 {
        let less = (count - 1) as nat;
        let index = count - 1;
        let n = channels.len() as int;
        lemma_woven_len(big, format, channels, less);
        super::pcm::lemma_code_bytes_len(big, format, channels[index % n][index / n]);
        assert(count * width == less * width + width) by (nonlinear_arith)
            requires
                count == less + 1,
        ;
    } else {
        assert(count * width == 0) by (nonlinear_arith)
            requires
                count == 0,
        ;
    }
}

/// Whether bytes are a WAV file of a recording: its header says what the
/// recording is, a float file counts its frames in a chunk of its own, and the
/// samples stand in the last chunk, with a byte to spare where they are odd in
/// number.
pub open spec fn is_wav_file(file: Seq<u8>, sound: Sound) -> bool {
    let float = sound.format == SampleFormat::F32 || sound.format == SampleFormat::F64;
    let width = sample_width(sound.format);
    let channels = sound.channels.len() as int;
    let start = if float {
        58int
    } else {
        44
    };
    let length = sound.frames() * channels * width;
    &&& file.len() == start + length + length % 2
    &&& id_at(file, 0) == (0x52u8, 0x49u8, 0x46u8, 0x46u8)
    &&& low_first(file, 4, 4) == file.len() - 8
    &&& id_at(file, 8) == (0x57u8, 0x41u8, 0x56u8, 0x45u8)
    &&& id_at(file, 12) == (0x66u8, 0x6Du8, 0x74u8, 0x20u8)
    &&& low_first(file, 16, 4) == (if float {
        18int
    } else {
        16
    })
    &&& low_first(file, 20, 2) == (if float {
        3int
    } else {
        1
    })
    &&& low_first(file, 22, 2) == channels
    &&& low_first(file, 24, 4) == sound.sample_rate
    &&& sound.sample_rate * (channels * width) <= u32::MAX ==> low_first(file, 28, 4)
        == sound.sample_rate * (channels * width)
    &&& channels * width <= u16::MAX ==> low_first(file, 32, 2) == channels * width
    &&& low_first(file, 34, 2) == 8 * width
    &&& float ==> {
        &&& low_first(file, 36, 2) == 0
        &&& id_at(file, 38) == (0x66u8, 0x61u8, 0x63u8, 0x74u8)
        &&& low_first(file, 42, 4) == 4
        &&& low_first(file, 46, 4) == sound.frames()
    }
    &&& id_at(file, start - 8) == (0x64u8, 0x61u8, 0x74u8, 0x61u8)
    &&& low_first(file, start - 4, 4) == length
    &&& length % 2 == 1 ==> file.last() == 0
    &&& laid_out(sound, file, start, channels, sound.frames() as int, false)
}

/// A recording is written as the WAV file that it is.
#[verifier::spinoff_prover]
#[verifier::rlimit(60)]
pub proof fn law_recordings_are_written_as_wav_files(sound: Sound)
    requires
        wav::storable(sound),
        sound.in_range(),
        wav::encoded(sound).len() <= u32::MAX,
    ensures
        is_wav_file(wav::encoded(sound), sound),
{
    let file = wav::encoded(sound);
    let float = sound.format.spec_is_float();
    let width = sample_width(sound.format);
    let channels = sound.channels.len() as int;
    let count = sound.frames() * sound.channels.len();
    let start: int = if float {
        58
    } else {
        44
    };
    if !float {
        lemma_clamped_in_range(sound);
    }
    assert(wav::stored(sound) == sound.channels);
    let data = wav::data_of(sound);
    lemma_woven_len(false, sound.format, sound.channels, count);
    assert(sound.format.spec_bits() / 8 == width);
    assert(data.len() == sound.frames() * channels * width);
    lemma_wav_parts(sound);
    let align = channels * width;
    lemma_little_written(file, 4, file.len() - 8, 4);
    lemma_little_written(file, 16, if float { 18 } else { 16 }, 4);
    lemma_little_written(file, 20, if float { 3 } else { 1 }, 2);
    lemma_little_written(file, 22, channels, 2);
    lemma_little_written(file, 24, sound.sample_rate as int, 4);
    assert(align >= 0 && sound.sample_rate * align >= 0) by (nonlinear_arith)
        requires
            align == channels * width,
            channels >= 0,
            width >= 0,
            sound.sample_rate >= 0,
    ;
    if sound.sample_rate * align <= u32::MAX {
        lemma_little_written(file, 28, sound.sample_rate * align, 4);
    }
    if align <= u16::MAX {
        lemma_little_written(file, 32, align, 2);
    }
    lemma_little_written(file, 34, 8 * width, 2);
    if float {
        lemma_little_written(file, 36, 0, 2);
        lemma_little_written(file, 42, 4, 4);
        assert(sound.frames() <= data.len()) by (nonlinear_arith)
            requires
                data.len() == sound.frames() * channels * width,
                channels >= 1,
                width >= 1,
        ;
        lemma_little_written(file, 46, sound.frames() as int, 4);
    }
    lemma_little_written(file, start - 4, data.len() as int, 4);
    lemma_woven_laid_out(sound, file, start, false);
}

/// The parts of a WAV file, each where it stands.
#[verifier::spinoff_prover]
#[verifier::rlimit(60)]
proof fn lemma_wav_parts(sound: Sound)
    ensures
        ({
            let file = wav::encoded(sound);
            let float = sound.format.spec_is_float();
            let data = wav::data_of(sound);
            let align = sound.channels.len() * (sound.format.spec_bits() / 8);
            let start: int = if float {
                58
            } else {
                44
            };
            &&& file.len() == start + data.len() + data.len() % 2
            &&& id_at(file, 0) == (0x52u8, 0x49u8, 0x46u8, 0x46u8)
            &&& file.subrange(4, 8) == le_bytes(file.len() - 8, 4)
            &&& id_at(file, 8) == (0x57u8, 0x41u8, 0x56u8, 0x45u8)
            &&& id_at(file, 12) == (0x66u8, 0x6Du8, 0x74u8, 0x20u8)
            &&& file.subrange(16, 20) == le_bytes(
                if float {
                    18
                } else {
                    16
                },
                4,
            )
            &&& file.subrange(20, 22) == le_bytes(
                if float {
                    3
                } else {
                    1
                },
                2,
            )
            &&& file.subrange(22, 24) == le_bytes(sound.channels.len() as int, 2)
            &&& file.subrange(24, 28) == le_bytes(sound.sample_rate as int, 4)
            &&& file.subrange(28, 32) == le_bytes((sound.sample_rate as nat * align) as int, 4)
            &&& file.subrange(32, 34) == le_bytes(align as int, 2)
            &&& file.subrange(34, 36) == le_bytes(sound.format.spec_bits() as int, 2)
            &&& float ==> {
                &&& file.subrange(36, 38) == le_bytes(0, 2)
                &&& id_at(file, 38) == (0x66u8, 0x61u8, 0x63u8, 0x74u8)
                &&& file.subrange(42, 46) == le_bytes(4, 4)
                &&& file.subrange(46, 50) == le_bytes(sound.frames() as int, 4)
            }
            &&& id_at(file, start - 8) == (0x64u8, 0x61u8, 0x74u8, 0x61u8)
            &&& file.subrange(start - 4, start) == le_bytes(data.len() as int, 4)
            &&& file.subrange(start, start + data.len()) == data
            &&& data.len() % 2 == 1 ==> file.last() == 0
        }),
{
    let file = wav::encoded(sound);
    let float = sound.format.spec_is_float();
    let data = wav::data_of(sound);
    let align = sound.channels.len() * (sound.format.spec_bits() / 8);
    let tag: int = if float {
        3
    } else {
        1
    };
    let body = wav::format_body(sound);
    let a = le_bytes(tag, 2);
    let b = le_bytes(sound.channels.len() as int, 2);
    let c = le_bytes(sound.sample_rate as int, 4);
    let d = le_bytes((sound.sample_rate as nat * align) as int, 4);
    let e = le_bytes(align as int, 2);
    let g = le_bytes(sound.format.spec_bits() as int, 2);
    let h = le_bytes(0, 2);
    lemma_le_bytes_len(tag, 2);
    lemma_le_bytes_len(sound.channels.len() as int, 2);
    lemma_le_bytes_len(sound.sample_rate as int, 4);
    lemma_le_bytes_len((sound.sample_rate as nat * align) as int, 4);
    lemma_le_bytes_len(align as int, 2);
    lemma_le_bytes_len(sound.format.spec_bits() as int, 2);
    lemma_le_bytes_len(0, 2);
    assert(body.subrange(0, 2) =~= a);
    assert(body.subrange(2, 4) =~= b);
    assert(body.subrange(4, 8) =~= c);
    assert(body.subrange(8, 12) =~= d);
    assert(body.subrange(12, 14) =~= e);
    assert(body.subrange(14, 16) =~= g);
    assert(float ==> body.subrange(16, 18) =~= h);
    let size: int = if float {
        18
    } else {
        16
    };
    assert(body.len() == size);
    let first = wav::chunk(wav::FMT@, body);
    lemma_le_bytes_len(size, 4);
    assert(first.len() == 8 + size);
    let frames = le_bytes(sound.frames() as int, 4);
    lemma_le_bytes_len(sound.frames() as int, 4);
    lemma_le_bytes_len(4, 4);
    let fact = wav::chunk(wav::FACT@, frames);
    assert(fact.len() == 12);
    let last = wav::chunk(wav::DATA@, data);
    lemma_le_bytes_len(data.len() as int, 4);
    assert(last.len() == 8 + data.len() + data.len() % 2);
    let all = wav::chunks(sound);
    lemma_le_bytes_len(4 + all.len() as int, 4);
    assert(file.skip(12) =~= all);
    assert(all.subrange(0, first.len() as int) =~= first);
    let start: int = if float {
        58
    } else {
        44
    };
    assert(all.subrange(start - 20, all.len() as int) =~= last);
    assert(file.subrange(4, 8) =~= le_bytes(4 + all.len() as int, 4));
    assert(file.subrange(16, 20) =~= first.subrange(4, 8));
    assert(first.subrange(4, 8) =~= le_bytes(size, 4));
    assert(first.subrange(8, 8 + size) =~= body);
    assert(file.subrange(20, 20 + size) =~= body);
    assert(file.subrange(20, 22) =~= body.subrange(0, 2));
    assert(file.subrange(22, 24) =~= body.subrange(2, 4));
    assert(file.subrange(24, 28) =~= body.subrange(4, 8));
    assert(file.subrange(28, 32) =~= body.subrange(8, 12));
    assert(file.subrange(32, 34) =~= body.subrange(12, 14));
    assert(file.subrange(34, 36) =~= body.subrange(14, 16));
    if float {
        assert(file.subrange(36, 38) =~= body.subrange(16, 18));
        assert(all.subrange(26, 38) =~= fact);
        assert(file.subrange(38, 50) =~= fact);
        assert(fact.subrange(4, 8) =~= le_bytes(4, 4));
        assert(fact.subrange(8, 12) =~= frames);
        assert(file.subrange(42, 46) =~= fact.subrange(4, 8));
        assert(file.subrange(46, 50) =~= fact.subrange(8, 12));
    }
    assert(file.subrange(start - 8, file.len() as int) =~= last);
    assert(last.subrange(4, 8) =~= le_bytes(data.len() as int, 4));
    assert(last.subrange(8, 8int + data.len()) =~= data);
    assert(file.subrange(start - 4, start) =~= last.subrange(4, 8));
    assert(file.subrange(start, start + data.len()) =~= last.subrange(8, 8int + data.len()));
}

/// Whether bytes are an AIFF file of a recording: its header says what the
/// recording is, the highest byte of every number first, and the samples stand
/// behind two empty fields in the last chunk.
pub open spec fn is_aiff_file(file: Seq<u8>, sound: Sound) -> bool {
    let width = sample_width(sound.format);
    let channels = sound.channels.len() as int;
    let length = sound.frames() * channels * width;
    &&& file.len() == 54 + length
    &&& id_at(file, 0) == (0x46u8, 0x4Fu8, 0x52u8, 0x4Du8)
    &&& high_first(file, 4, 4) == file.len() - 8
    &&& id_at(file, 8) == (0x41u8, 0x49u8, 0x46u8, 0x46u8)
    &&& id_at(file, 12) == (0x43u8, 0x4Fu8, 0x4Du8, 0x4Du8)
    &&& high_first(file, 16, 4) == 18
    &&& high_first(file, 20, 2) == channels
    &&& high_first(file, 22, 4) == sound.frames()
    &&& high_first(file, 26, 2) == 8 * width
    &&& id_at(file, 38) == (0x53u8, 0x53u8, 0x4Eu8, 0x44u8)
    &&& high_first(file, 42, 4) == 8 + length
    &&& high_first(file, 46, 4) == 0
    &&& high_first(file, 50, 4) == 0
    &&& laid_out(sound, file, 54, channels, sound.frames() as int, true)
}

/// A recording is written as the AIFF file that it is.
#[verifier::spinoff_prover]
#[verifier::rlimit(60)]
pub proof fn law_recordings_are_written_as_aiff_files(sound: Sound)
    requires
        aiff::storable(sound),
        sound.in_range(),
        aiff::encoded(sound).len() <= u32::MAX,
    ensures
        is_aiff_file(aiff::encoded(sound), sound),
{
    let file = aiff::encoded(sound);
    let width = sample_width(sound.format);
    let channels = sound.channels.len() as int;
    let count = sound.frames() * sound.channels.len();
    lemma_clamped_in_range(sound);
    assert(clamped_channels(sound.channels, sound.format) == sound.channels);
    let data = aiff::data_of(sound);
    lemma_woven_len(true, sound.format, sound.channels, count);
    assert(sound.format.spec_bits() / 8 == width);
    assert(data.len() == sound.frames() * channels * width);
    lemma_aiff_parts(sound);
    lemma_big_written(file, 4, file.len() - 8, 4);
    lemma_big_written(file, 16, 18, 4);
    lemma_big_written(file, 20, channels, 2);
    assert(sound.frames() <= data.len()) by (nonlinear_arith)
        requires
            data.len() == sound.frames() * channels * width,
            channels >= 1,
            width >= 1,
    ;
    lemma_big_written(file, 22, sound.frames() as int, 4);
    lemma_big_written(file, 26, 8 * width, 2);
    lemma_big_written(file, 42, 8 + data.len() as int, 4);
    lemma_big_written(file, 46, 0, 4);
    lemma_big_written(file, 50, 0, 4);
    lemma_woven_laid_out(sound, file, 54, true);
}

/// The parts of an AIFF file, each where it stands.
#[verifier::spinoff_prover]
#[verifier::rlimit(60)]
proof fn lemma_aiff_parts(sound: Sound)
    requires
        sound.sample_rate > 0,
    ensures
        ({
            let file = aiff::encoded(sound);
            let data = aiff::data_of(sound);
            &&& file.len() == 54 + data.len()
            &&& id_at(file, 0) == (0x46u8, 0x4Fu8, 0x52u8, 0x4Du8)
            &&& file.subrange(4, 8) == be_bytes(file.len() - 8, 4)
            &&& id_at(file, 8) == (0x41u8, 0x49u8, 0x46u8, 0x46u8)
            &&& id_at(file, 12) == (0x43u8, 0x4Fu8, 0x4Du8, 0x4Du8)
            &&& file.subrange(16, 20) == be_bytes(18, 4)
            &&& file.subrange(20, 22) == be_bytes(sound.channels.len() as int, 2)
            &&& file.subrange(22, 26) == be_bytes(sound.frames() as int, 4)
            &&& file.subrange(26, 28) == be_bytes(sound.format.spec_bits() as int, 2)
            &&& id_at(file, 38) == (0x53u8, 0x53u8, 0x4Eu8, 0x44u8)
            &&& file.subrange(42, 46) == be_bytes(8 + data.len() as int, 4)
            &&& file.subrange(46, 50) == be_bytes(0, 4)
            &&& file.subrange(50, 54) == be_bytes(0, 4)
            &&& file.subrange(54, 54int + data.len()) == data
        }),
{
    let file = aiff::encoded(sound);
    let data = aiff::data_of(sound);
    let common = aiff::common_body(sound);
    let rate = aiff::extended_bytes(sound.sample_rate as int);
    let power = super::flac::encode::exponent(sound.sample_rate as nat);
    lemma_le_bytes_len(power as int + 16383, 2);
    lemma_le_bytes_len(sound.sample_rate * pow2((63 - power) as nat), 8);
    assert(rate.len() == 10);
    lemma_le_bytes_len(sound.channels.len() as int, 2);
    lemma_le_bytes_len(sound.frames() as int, 4);
    lemma_le_bytes_len(sound.format.spec_bits() as int, 2);
    assert(common.len() == 18);
    assert(common.subrange(0, 2) =~= be_bytes(sound.channels.len() as int, 2));
    assert(common.subrange(2, 6) =~= be_bytes(sound.frames() as int, 4));
    assert(common.subrange(6, 8) =~= be_bytes(sound.format.spec_bits() as int, 2));
    let body = aiff::sound_body(sound);
    lemma_le_bytes_len(0, 4);
    assert(body.len() == 8 + data.len());
    assert(body.subrange(0, 4) =~= be_bytes(0, 4));
    assert(body.subrange(4, 8) =~= be_bytes(0, 4));
    assert(body.subrange(8, 8int + data.len()) =~= data);
    let first = aiff::chunk(aiff::COMM@, common);
    let last = aiff::chunk(aiff::SSND@, body);
    lemma_le_bytes_len(18, 4);
    lemma_le_bytes_len(8 + data.len() as int, 4);
    assert(first.len() == 26);
    assert(last.len() == 16 + data.len());
    lemma_le_bytes_len(4 + (first + last).len() as int, 4);
    assert(file.len() == 54 + data.len());
    assert(file.subrange(4, 8) =~= be_bytes(4 + (first + last).len() as int, 4));
    assert(file.subrange(12, 38) =~= first);
    assert(file.subrange(38, file.len() as int) =~= last);
    assert(first.subrange(4, 8) =~= be_bytes(18, 4));
    assert(first.subrange(8, 26) =~= common);
    assert(file.subrange(16, 20) =~= first.subrange(4, 8));
    assert(file.subrange(20, 38) =~= common);
    assert(file.subrange(20, 22) =~= common.subrange(0, 2));
    assert(file.subrange(22, 26) =~= common.subrange(2, 6));
    assert(file.subrange(26, 28) =~= common.subrange(6, 8));
    assert(last.subrange(4, 8) =~= be_bytes(8 + data.len() as int, 4));
    assert(last.subrange(8, 16int + data.len()) =~= body);
    assert(file.subrange(42, 46) =~= last.subrange(4, 8));
    assert(file.subrange(46, 54int + data.len()) =~= body);
    assert(file.subrange(46, 50) =~= body.subrange(0, 4));
    assert(file.subrange(50, 54) =~= body.subrange(4, 8));
    assert(file.subrange(54, 54int + data.len()) =~= body.subrange(8, 8int + data.len()));
}

} // verus!
