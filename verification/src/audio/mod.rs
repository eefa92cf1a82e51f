//! In-memory audio representation and container codecs.
//!
//! Everything in this crate works on [`Audio`]: planar channels of sample codes
//! and the [`SampleFormat`] the codes belong to. A code of an integer format
//! counts steps of that format's grid, so decoding and re-encoding an integer
//! PCM file is bit-exact. A code of a float format is the sample's IEEE 754 bit
//! pattern, which is carried and never computed with.

pub mod aiff;
pub mod buffers;
pub mod bytes;
pub mod flac;
pub mod float;
pub mod grid;
pub mod layout;
pub mod order;
pub mod pcm;
pub mod wav;
pub mod written;

use vstd::arithmetic::div_mod::lemma_fundamental_div_mod;
use vstd::arithmetic::power2::{lemma2_to64, pow2};
use vstd::prelude::*;

use self::bytes::tagged;
use crate::error::{format_error, Error, Fault};
use crate::path::{extension, extension_of, file_name, file_name_of};
use crate::text::{
    blank, chars_of, decimal, decimal_text, is_space, law_blanks_around_are_trimmed,
    law_case_does_not_matter_to_trimming, lemma_trimmed_behind, lower, lower_char, lowered, same,
    string_of, trim, trimmed, trimmed_end, trimmed_start,
};
use flac::decode::planes;

verus! {

/// Sample encodings understood by the readers and writers.
#[derive(Clone, Copy, Debug, PartialEq, Eq, Hash, Structural)]
pub enum SampleFormat {
    /// Unsigned 8-bit PCM, the WAV/AIFF byte encoding centred on 128.
    PcmU8,
    /// Signed 16-bit PCM, the CD-audio encoding.
    PcmI16,
    /// Signed 24-bit PCM packed into three bytes per sample.
    PcmI24,
    /// Signed 32-bit PCM.
    PcmI32,
    /// IEEE 754 single-precision floating point.
    F32,
    /// IEEE 754 double-precision floating point.
    F64,
}

impl SampleFormat {
    /// Every format, narrowest first.
    pub const ALL: [SampleFormat; 6] = [
        SampleFormat::PcmU8,
        SampleFormat::PcmI16,
        SampleFormat::PcmI24,
        SampleFormat::PcmI32,
        SampleFormat::F32,
        SampleFormat::F64,
    ];

    /// Bits stored per sample.
    pub open spec fn spec_bits(self) -> nat {
        match self {
            SampleFormat::PcmU8 => 8,
            SampleFormat::PcmI16 => 16,
            SampleFormat::PcmI24 => 24,
            SampleFormat::PcmI32 => 32,
            SampleFormat::F32 => 32,
            SampleFormat::F64 => 64,
        }
    }

    /// Whether the format stores floating-point samples.
    pub open spec fn spec_is_float(self) -> bool {
        self == SampleFormat::F32 || self == SampleFormat::F64
    }

    /// Lowest code of the format.
    pub open spec fn low(self) -> int {
        match self {
            SampleFormat::PcmU8 => -128,
            SampleFormat::PcmI16 => -32_768,
            SampleFormat::PcmI24 => -8_388_608,
            SampleFormat::PcmI32 => -2_147_483_648,
            SampleFormat::F32 => 0,
            SampleFormat::F64 => i64::MIN as int,
        }
    }

    /// Highest code of the format.
    pub open spec fn high(self) -> int {
        match self {
            SampleFormat::PcmU8 => 127,
            SampleFormat::PcmI16 => 32_767,
            SampleFormat::PcmI24 => 8_388_607,
            SampleFormat::PcmI32 => 2_147_483_647,
            SampleFormat::F32 => 4_294_967_295,
            SampleFormat::F64 => i64::MAX as int,
        }
    }

    /// Short lowercase name used by the CLI and by manifest files.
    pub open spec fn spec_name(self) -> Seq<char> {
        match self {
            SampleFormat::PcmU8 => "pcm_u8"@,
            SampleFormat::PcmI16 => "pcm_i16"@,
            SampleFormat::PcmI24 => "pcm_i24"@,
            SampleFormat::PcmI32 => "pcm_i32"@,
            SampleFormat::F32 => "f32"@,
            SampleFormat::F64 => "f64"@,
        }
    }

    /// The format a name stands for.
    pub open spec fn spec_parse(name: Seq<char>) -> Option<SampleFormat> {
        if name == "pcm_u8"@ || name == "u8"@ || name == "8"@ {
            Some(SampleFormat::PcmU8)
        } else if name == "pcm_i16"@ || name == "i16"@ || name == "16"@ {
            Some(SampleFormat::PcmI16)
        } else if name == "pcm_i24"@ || name == "i24"@ || name == "24"@ {
            Some(SampleFormat::PcmI24)
        } else if name == "pcm_i32"@ || name == "i32"@ || name == "32"@ {
            Some(SampleFormat::PcmI32)
        } else if name == "f32"@ || name == "float32"@ {
            Some(SampleFormat::F32)
        } else if name == "f64"@ || name == "float64"@ {
            Some(SampleFormat::F64)
        } else {
            None
        }
    }

    /// Bits stored per sample.
    pub fn bits(self) -> (bits: u16)
        ensures
            bits == self.spec_bits(),
    {
        match self {
            SampleFormat::PcmU8 => 8,
            SampleFormat::PcmI16 => 16,
            SampleFormat::PcmI24 => 24,
            SampleFormat::PcmI32 | SampleFormat::F32 => 32,
            SampleFormat::F64 => 64,
        }
    }

    /// Bytes stored per sample.
    pub fn bytes(self) -> (bytes: usize)
        ensures
            bytes == self.spec_bits() / 8,
            bytes == 1 || bytes == 2 || bytes == 3 || bytes == 4 || bytes == 8,
    {
        self.bits() as usize / 8
    }

    /// Whether the format stores floating-point samples.
    pub fn is_float(self) -> (float: bool)
        ensures
            float == self.spec_is_float(),
    {
        matches!(self, SampleFormat::F32 | SampleFormat::F64)
    }

    /// Inclusive range of integer codes for the integer formats.
    pub fn code_range(self) -> (range: Option<(i64, i64)>)
        ensures
            range is Some == !self.spec_is_float(),
            range matches Some((low, high)) ==> low == self.low() && high == self.high(),
    {
        match self {
            SampleFormat::PcmU8 => Some((-128, 127)),
            SampleFormat::PcmI16 => Some((-32_768, 32_767)),
            SampleFormat::PcmI24 => Some((-8_388_608, 8_388_607)),
            SampleFormat::PcmI32 => Some((-2_147_483_648, 2_147_483_647)),
            SampleFormat::F32 | SampleFormat::F64 => None,
        }
    }

    /// Short lowercase name used by the CLI and by manifest files.
    pub fn name(self) -> (name: &'static str)
        ensures
            name@ == self.spec_name(),
    {
        match self {
            SampleFormat::PcmU8 => "pcm_u8",
            SampleFormat::PcmI16 => "pcm_i16",
            SampleFormat::PcmI24 => "pcm_i24",
            SampleFormat::PcmI32 => "pcm_i32",
            SampleFormat::F32 => "f32",
            SampleFormat::F64 => "f64",
        }
    }

    /// Parses the name produced by [`SampleFormat::name`].
    pub fn parse(name: &str) -> (result: Result<Self, Error>)
        ensures
            match SampleFormat::spec_parse(name@) {
                Some(format) => result == Ok::<SampleFormat, Error>(format),
                None => result matches Err(error) && error@ == Fault::InvalidArgument(
                    "unknown sample format `"@ + name@ + "`"@,
                ),
            },
    {
        if same(name, "pcm_u8") || same(name, "u8") || same(name, "8") {
            Ok(SampleFormat::PcmU8)
        } else if same(name, "pcm_i16") || same(name, "i16") || same(name, "16") {
            Ok(SampleFormat::PcmI16)
        } else if same(name, "pcm_i24") || same(name, "i24") || same(name, "24") {
            Ok(SampleFormat::PcmI24)
        } else if same(name, "pcm_i32") || same(name, "i32") || same(name, "32") {
            Ok(SampleFormat::PcmI32)
        } else if same(name, "f32") || same(name, "float32") {
            Ok(SampleFormat::F32)
        } else if same(name, "f64") || same(name, "float64") {
            Ok(SampleFormat::F64)
        } else {
            let mut message = "unknown sample format `".to_string();
            message.append(name);
            message.append("`");
            Err(Error::InvalidArgument(message))
        }
    }
}

/// The codes of an integer format of some bits are those of a two's-complement
/// number of as many bits, and no more: from minus half the number of codes up to
/// one less than half of it.
pub proof fn law_codes_span_their_bits(format: SampleFormat)
    requires
        !format.spec_is_float(),
    ensures
        format.low() == -pow2((format.spec_bits() - 1) as nat),
        format.high() == pow2((format.spec_bits() - 1) as nat) - 1,
        format.high() - format.low() + 1 == pow2(format.spec_bits()),
{
    lemma2_to64();
}

/// A format's name is parsed as that format.
pub proof fn law_format_names_round_trip(format: SampleFormat)
    ensures
        SampleFormat::spec_parse(format.spec_name()) == Some(format),
{
    reveal_strlit("pcm_u8");
    reveal_strlit("u8");
    reveal_strlit("8");
    reveal_strlit("pcm_i16");
    reveal_strlit("i16");
    reveal_strlit("16");
    reveal_strlit("pcm_i24");
    reveal_strlit("i24");
    reveal_strlit("24");
    reveal_strlit("pcm_i32");
    reveal_strlit("i32");
    reveal_strlit("32");
    reveal_strlit("f32");
    reveal_strlit("float32");
    reveal_strlit("f64");
    reveal_strlit("float64");
    let name = format.spec_name();
    assert(name.len() > 2);
    if name == "f32"@ || name == "f64"@ {
        assert(name[0] == 'f');
        assert("i16"@[0] == 'i' && "i24"@[0] == 'i' && "i32"@[0] == 'i');
        if name == "f64"@ {
            assert("f32"@[1] == '3' && name[1] == '6');
        }
    } else {
        assert(name[0] == 'p' && name.len() > 5);
        if name.len() == 7 {
            assert("pcm_i16"@[5] == '1' && "pcm_i24"@[5] == '2' && "pcm_i32"@[5] == '3');
            assert("float32"@[0] == 'f' && "float64"@[0] == 'f');
        }
    }
}

/// What a buffer holds.
pub struct Sound {
    pub sample_rate: u32,
    pub format: SampleFormat,
    pub channels: Seq<Seq<i64>>,
}

impl Sound {
    /// How many frames the channels hold.
    pub open spec fn frames(self) -> nat {
        if self.channels.len() == 0 {
            0
        } else {
            self.channels[0].len()
        }
    }

    /// All channels are of one length.
    pub open spec fn even(self) -> bool {
        forall|i: int|
            0 <= i < self.channels.len() ==> (#[trigger] self.channels[i]).len() == self.frames()
    }

    /// Every code belongs to the format.
    pub open spec fn in_range(self) -> bool {
        forall|i: int, j: int|
            0 <= i < self.channels.len() && 0 <= j < self.channels[i].len() ==> self.format.low()
                <= #[trigger] self.channels[i][j] <= self.format.high()
    }
}

/// A code brought into a format's range.
pub open spec fn clamped(code: i64, format: SampleFormat) -> i64 {
    if code < format.low() {
        format.low() as i64
    } else if code > format.high() {
        format.high() as i64
    } else {
        code
    }
}

/// Every code brought into a format's range.
pub open spec fn clamped_channels(channels: Seq<Seq<i64>>, format: SampleFormat) -> Seq<Seq<i64>> {
    Seq::new(
        channels.len(),
        |i: int| Seq::new(channels[i].len(), |j: int| clamped(channels[i][j], format)),
    )
}

/// Codes that belong to a format are left alone.
pub proof fn lemma_clamped_in_range(sound: Sound)
    requires
        sound.in_range(),
    ensures
        clamped_channels(sound.channels, sound.format) == sound.channels,
{
    let after = clamped_channels(sound.channels, sound.format);
    assert forall|i: int| 0 <= i < after.len() implies after[i] == sound.channels[i] by {
        assert forall|j: int| 0 <= j < after[i].len() implies after[i][j]
            == sound.channels[i][j] by {
            assert(sound.format.low() <= sound.channels[i][j] <= sound.format.high());
        }
        assert(after[i] =~= sound.channels[i]);
    }
    assert(after =~= sound.channels);
}

/// Planar audio: one vector of codes per channel, all of the same length.
#[derive(Clone, Debug, PartialEq, Eq)]
pub struct Audio {
    sample_rate: u32,
    format: SampleFormat,
    channels: Vec<Vec<i64>>,
}

impl View for Audio {
    type V = Sound;

    closed spec fn view(&self) -> Sound {
        Sound {
            sample_rate: self.sample_rate,
            format: self.format,
            channels: planes(self.channels@),
        }
    }
}

/// What is wrong with the parts of a buffer, if anything is.
pub open spec fn channels_fault(sample_rate: u32, channels: Seq<Seq<i64>>) -> Option<Fault> {
    if sample_rate == 0 {
        Some(Fault::InvalidArgument("sample rate must be positive"@))
    } else if channels.len() == 0 {
        Some(Fault::InvalidArgument("at least one channel required"@))
    } else if exists|i: int|
        0 <= i < channels.len() && (#[trigger] channels[i]).len() != channels[0].len() {
        Some(Fault::Mismatch("channels have different lengths"@))
    } else {
        None
    }
}

/// What keeps two buffers from being combined, if anything does.
pub open spec fn incompatibility(first: Sound, second: Sound) -> Option<Fault> {
    if first.sample_rate != second.sample_rate {
        Some(
            Fault::Mismatch(
                "sample rate "@ + decimal(first.sample_rate as nat) + " != "@ + decimal(
                    second.sample_rate as nat,
                ),
            ),
        )
    } else if first.channels.len() != second.channels.len() {
        Some(
            Fault::Mismatch(
                "channel count "@ + decimal(first.channels.len()) + " != "@ + decimal(
                    second.channels.len(),
                ),
            ),
        )
    } else if first.frames() != second.frames() {
        Some(
            Fault::Mismatch(
                "frame count "@ + decimal(first.frames()) + " != "@ + decimal(second.frames()),
            ),
        )
    } else {
        None
    }
}

/// Builds the error of two counts that should agree.
fn mismatch(what: &str, first: u64, second: u64) -> (error: Error)
    ensures
        error@ == Fault::Mismatch(what@ + decimal(first as nat) + " != "@ + decimal(second as nat)),
{
    let mut message = what.to_string();
    message.append(decimal_text(first).as_str());
    message.append(" != ");
    message.append(decimal_text(second).as_str());
    Error::Mismatch(message)
}

impl Audio {
    /// All channels are of one length.
    pub open spec fn wf(&self) -> bool {
        self@.even()
    }

    /// Creates a silent buffer.
    pub fn silence(sample_rate: u32, format: SampleFormat, channels: usize, frames: usize) -> (audio:
        Self)
        ensures
            audio.wf(),
            audio@.sample_rate == sample_rate,
            audio@.format == format,
            audio@.channels == Seq::new(
                channels as nat,
                |i: int| Seq::new(frames as nat, |j: int| 0i64),
            ),
    {
        let mut made: Vec<Vec<i64>> = Vec::with_capacity(channels);
        while made.len() < channels
            invariant
                made@.len() <= channels,
                forall|i: int|
                    0 <= i < made@.len() ==> (#[trigger] made@[i])@ == Seq::new(
                        frames as nat,
                        |j: int| 0i64,
                    ),
            decreases channels - made@.len(),
        {
            let mut plane: Vec<i64> = Vec::with_capacity(frames);
            while plane.len() < frames
                invariant
                    plane@.len() <= frames,
                    forall|j: int| 0 <= j < plane@.len() ==> plane@[j] == 0,
                decreases frames - plane@.len(),
            {
                plane.push(0);
            }
            assert(plane@ =~= Seq::new(frames as nat, |j: int| 0i64));
            made.push(plane);
        }
        assert(planes(made@) =~= Seq::new(
            channels as nat,
            |i: int| Seq::new(frames as nat, |j: int| 0i64),
        ));
        Audio { sample_rate, format, channels: made }
    }

    /// The same buffer once more.
    pub fn copy(&self) -> (audio: Self)
        ensures
            audio@ == self@,
    {
        let mut channels: Vec<Vec<i64>> = Vec::new();
        while channels.len() < self.channels.len()
            invariant
                channels@.len() <= self.channels@.len(),
                forall|i: int|
                    0 <= i < channels@.len() ==> (#[trigger] channels@[i])@ == self.channels@[i]@,
            decreases self.channels@.len() - channels@.len(),
        {
            let plane = self.channels[channels.len()].clone();
            channels.push(plane);
        }
        assert(planes(channels@) =~= planes(self.channels@));
        Audio { sample_rate: self.sample_rate, format: self.format, channels }
    }

    /// A buffer of channels that are known to be of one length.
    pub(crate) fn of_planes(sample_rate: u32, format: SampleFormat, channels: Vec<Vec<i64>>) -> (audio:
        Self)
        requires
            (Sound { sample_rate, format, channels: planes(channels@) }).even(),
        ensures
            audio.wf(),
            audio@ == (Sound { sample_rate, format, channels: planes(channels@) }),
    {
        Audio { sample_rate, format, channels }
    }

    /// Creates a buffer from planar channel data.
    pub fn from_channels(sample_rate: u32, format: SampleFormat, channels: Vec<Vec<i64>>) -> (result:
        Result<Self, Error>)
        ensures
            match channels_fault(sample_rate, planes(channels@)) {
                None => result matches Ok(audio) && audio.wf() && audio@ == (Sound {
                    sample_rate,
                    format,
                    channels: planes(channels@),
                }),
                Some(fault) => result matches Err(error) && error@ == fault,
            },
    {
        let ghost plain = planes(channels@);
        if sample_rate == 0 {
            return Err(Error::InvalidArgument("sample rate must be positive".to_string()));
        }
        if channels.len() == 0 {
            return Err(Error::InvalidArgument("at least one channel required".to_string()));
        }
        let frames: usize = channels[0].len();
        let mut index: usize = 0;
        while index < channels.len()
            invariant
                index <= channels@.len(),
                channels@.len() > 0,
                sample_rate != 0,
                frames == plain[0].len(),
                plain == planes(channels@),
                forall|i: int| 0 <= i < index ==> (#[trigger] plain[i]).len() == frames,
            decreases channels@.len() - index,
        {
            assert(plain[index as int] == channels@[index as int]@);
            if channels[index].len() != frames {
                return Err(Error::Mismatch("channels have different lengths".to_string()));
            }
            index = index + 1;
        }
        Ok(Audio { sample_rate, format, channels })
    }

    /// Creates a mono buffer from a single channel.
    pub fn from_mono(sample_rate: u32, format: SampleFormat, samples: Vec<i64>) -> (result: Result<
        Self,
        Error,
    >)
        ensures
            match channels_fault(sample_rate, seq![samples@]) {
                None => result matches Ok(audio) && audio.wf() && audio@ == (Sound {
                    sample_rate,
                    format,
                    channels: seq![samples@],
                }),
                Some(fault) => result matches Err(error) && error@ == fault,
            },
    {
        let ghost plain = samples@;
        let mut channels: Vec<Vec<i64>> = Vec::new();
        channels.push(samples);
        assert(planes(channels@) =~= seq![plain]);
        Audio::from_channels(sample_rate, format, channels)
    }

    /// Sample rate in hertz.
    pub fn sample_rate(&self) -> (rate: u32)
        ensures
            rate == self@.sample_rate,
    {
        self.sample_rate
    }

    /// Encoding the samples were decoded from, and will be written back as.
    pub fn format(&self) -> (format: SampleFormat)
        ensures
            format == self@.format,
    {
        self.format
    }

    /// Number of channels.
    pub fn channel_count(&self) -> (count: usize)
        ensures
            count == self@.channels.len(),
    {
        self.channels.len()
    }

    /// Number of frames (samples per channel).
    pub fn frames(&self) -> (frames: usize)
        ensures
            frames == self@.frames(),
    {
        if self.channels.len() == 0 {
            0
        } else {
            assert(self@.channels[0] == self.channels@[0]@);
            self.channels[0].len()
        }
    }

    /// Planar channel data.
    pub fn channels(&self) -> (channels: &Vec<Vec<i64>>)
        ensures
            planes(channels@) == self@.channels,
    {
        &self.channels
    }

    /// A single channel.
    pub fn channel(&self, index: usize) -> (channel: &Vec<i64>)
        requires
            index < self@.channels.len(),
        ensures
            channel@ == self@.channels[index as int],
    {
        &self.channels[index]
    }

    /// Checks that another buffer has the same rate, channel count and length.
    pub fn ensure_compatible(&self, other: &Self) -> (result: Result<(), Error>)
        ensures
            match incompatibility(self@, other@) {
                None => result is Ok,
                Some(fault) => result matches Err(error) && error@ == fault,
            },
    {
        if self.sample_rate != other.sample_rate {
            return Err(
                mismatch("sample rate ", self.sample_rate as u64, other.sample_rate as u64),
            );
        }
        if self.channel_count() != other.channel_count() {
            return Err(
                mismatch(
                    "channel count ",
                    self.channel_count() as u64,
                    other.channel_count() as u64,
                ),
            );
        }
        if self.frames() != other.frames() {
            return Err(mismatch("frame count ", self.frames() as u64, other.frames() as u64));
        }
        Ok(())
    }

    /// Integer codes for the current format, or `None` for float formats.
    #[verifier::loop_isolation(false)]
    pub fn codes(&self) -> (codes: Option<Vec<Vec<i64>>>)
        ensures
            codes is Some == !self@.format.spec_is_float(),
            codes matches Some(found) ==> planes(found@) == clamped_channels(
                self@.channels,
                self@.format,
            ),
    {
        let (low, high): (i64, i64) = match self.format.code_range() {
            Some(range) => range,
            None => return None,
        };
        let ghost goal = clamped_channels(self@.channels, self@.format);
        let mut codes: Vec<Vec<i64>> = Vec::with_capacity(self.channels.len());
        while codes.len() < self.channels.len()
            invariant
                codes@.len() <= self.channels@.len(),
                forall|i: int| 0 <= i < codes@.len() ==> (#[trigger] codes@[i])@ == goal[i],
            decreases self.channels@.len() - codes@.len(),
        {
            let source = &self.channels[codes.len()];
            assert(self@.channels[codes@.len() as int] == source@);
            let mut plane: Vec<i64> = Vec::with_capacity(source.len());
            while plane.len() < source.len()
                invariant
                    plane@.len() <= source@.len(),
                    forall|j: int|
                        0 <= j < plane@.len() ==> plane@[j] == clamped(source@[j], self@.format),
                decreases source@.len() - plane@.len(),
            {
                let code: i64 = source[plane.len()];
                plane.push(
                    if code < low {
                        low
                    } else if code > high {
                        high
                    } else {
                        code
                    },
                );
            }
            assert(plane@ =~= goal[codes@.len() as int]);
            codes.push(plane);
        }
        assert(planes(codes@) =~= goal);
        Some(codes)
    }

    /// Rebuilds a buffer from integer codes of `format`.
    pub fn from_codes(sample_rate: u32, format: SampleFormat, codes: Vec<Vec<i64>>) -> (result: Result<
        Self,
        Error,
    >)
        ensures
            if format.spec_is_float() {
                result matches Err(error) && error@ == Fault::InvalidArgument(
                    "float formats have no code grid"@,
                )
            } else {
                match channels_fault(sample_rate, planes(codes@)) {
                    None => result matches Ok(audio) && audio.wf() && audio@ == (Sound {
                        sample_rate,
                        format,
                        channels: planes(codes@),
                    }),
                    Some(fault) => result matches Err(error) && error@ == fault,
                }
            },
    {
        if format.is_float() {
            return Err(Error::InvalidArgument("float formats have no code grid".to_string()));
        }
        Audio::from_channels(sample_rate, format, codes)
    }
}

/// Codes added sample by sample.
pub open spec fn sum_of(first: Seq<Seq<i64>>, second: Seq<Seq<i64>>) -> Seq<Seq<i64>> {
    Seq::new(
        first.len(),
        |i: int| Seq::new(first[i].len(), |j: int| (first[i][j] + second[i][j]) as i64),
    )
}

/// Codes subtracted sample by sample.
pub open spec fn difference_of(first: Seq<Seq<i64>>, second: Seq<Seq<i64>>) -> Seq<Seq<i64>> {
    Seq::new(
        first.len(),
        |i: int| Seq::new(first[i].len(), |j: int| (first[i][j] - second[i][j]) as i64),
    )
}

/// Codes far from the ends of their word, so that two of them can be added and
/// subtracted.
pub open spec fn roomy(channels: Seq<Seq<i64>>) -> bool {
    forall|i: int, j: int|
        0 <= i < channels.len() && 0 <= j < channels[i].len() ==> -0x4000_0000_0000_0000
            <= #[trigger] channels[i][j] <= 0x3FFF_FFFF_FFFF_FFFF
}

/// Adding back what was subtracted restores the codes: a residual and what it
/// is the residual of come to the recording exactly, whatever was rendered.
pub proof fn law_residual_restores(recording: Seq<Seq<i64>>, rendered: Seq<Seq<i64>>)
    requires
        roomy(recording),
        roomy(rendered),
        recording.len() == rendered.len(),
        forall|i: int|
            0 <= i < recording.len() ==> (#[trigger] recording[i]).len() == rendered[i].len(),
    ensures
        sum_of(difference_of(recording, rendered), rendered) == recording,
        sum_of(rendered, difference_of(recording, rendered)) == recording,
{
    let residual = difference_of(recording, rendered);
    let back = sum_of(residual, rendered);
    let forth = sum_of(rendered, residual);
    assert forall|i: int| 0 <= i < recording.len() implies back[i] == recording[i] && forth[i]
        == recording[i] by {
        assert(recording[i].len() == rendered[i].len());
        assert forall|j: int| 0 <= j < recording[i].len() implies back[i][j] == recording[i][j]
            && forth[i][j] == recording[i][j] by {
            assert(-0x4000_0000_0000_0000 <= recording[i][j] <= 0x3FFF_FFFF_FFFF_FFFF);
            assert(-0x4000_0000_0000_0000 <= rendered[i][j] <= 0x3FFF_FFFF_FFFF_FFFF);
        }
        assert(back[i] =~= recording[i]);
        assert(forth[i] =~= recording[i]);
    }
    assert(back =~= recording);
    assert(forth =~= recording);
}

/// A stretch of every channel, with silence past the end.
pub open spec fn segment_of(channels: Seq<Seq<i64>>, start: nat, length: nat) -> Seq<Seq<i64>> {
    Seq::new(
        channels.len(),
        |i: int|
            Seq::new(
                length,
                |j: int|
                    if start + j < channels[i].len() {
                        channels[i][start + j]
                    } else {
                        0
                    },
            ),
    )
}

/// Whether a number has at most 24 significant bits.
pub open spec fn has_24_bits(code: int) -> bool
    decreases if code < 0 { -code } else { code },
{
    if -0x100_0000 <= code <= 0x100_0000 {
        true
    } else if code % 2 != 0 {
        false
    } else {
        has_24_bits(code / 2)
    }
}

/// Whether a code of one integer format can be written in another format
/// without being changed.
pub open spec fn exact_in(code: i64, from: SampleFormat, to: SampleFormat) -> bool {
    if to == SampleFormat::F64 {
        true
    } else if to == SampleFormat::F32 {
        has_24_bits(code as int)
    } else if to.spec_bits() >= from.spec_bits() {
        to.low() <= code * pow2((to.spec_bits() - from.spec_bits()) as nat) <= to.high()
    } else {
        let unit = pow2((from.spec_bits() - to.spec_bits()) as nat) as int;
        code as int % unit == 0 && to.low() <= code as int / unit <= to.high()
    }
}

/// Whether every code can be written in a format without being changed.
pub open spec fn all_exact_in(sound: Sound, to: SampleFormat) -> bool {
    forall|i: int, j: int|
        0 <= i < sound.channels.len() && 0 <= j < sound.channels[i].len() ==> exact_in(
            #[trigger] sound.channels[i][j],
            sound.format,
            to,
        )
}

/// The format behind another, narrowest first.
pub open spec fn wider(format: SampleFormat) -> SampleFormat {
    match format {
        SampleFormat::PcmU8 => SampleFormat::PcmI16,
        SampleFormat::PcmI16 => SampleFormat::PcmI24,
        SampleFormat::PcmI24 => SampleFormat::PcmI32,
        SampleFormat::PcmI32 => SampleFormat::F32,
        _ => SampleFormat::F64,
    }
}

/// The rank of a format, narrowest first.
pub open spec fn rank(format: SampleFormat) -> nat {
    match format {
        SampleFormat::PcmU8 => 0,
        SampleFormat::PcmI16 => 1,
        SampleFormat::PcmI24 => 2,
        SampleFormat::PcmI32 => 3,
        SampleFormat::F32 => 4,
        SampleFormat::F64 => 5,
    }
}

/// The first format from `format` on that resolves at least as finely as a
/// floor and holds every code unchanged.
pub open spec fn first_exact(sound: Sound, floor: SampleFormat, format: SampleFormat) -> SampleFormat
    decreases 5 - rank(format),
{
    if format == SampleFormat::F64 || (format.spec_bits() >= floor.spec_bits() && all_exact_in(
        sound,
        format,
    )) {
        format
    } else {
        first_exact(sound, floor, wider(format))
    }
}

impl Audio {
    /// Adds `other` into this buffer sample by sample.
    #[verifier::loop_isolation(false)]
    pub fn add_assign(&mut self, other: &Self) -> (result: Result<(), Error>)
        requires
            old(self).wf(),
            other.wf(),
            !old(self)@.format.spec_is_float(),
            other@.format == old(self)@.format,
            roomy(old(self)@.channels),
            roomy(other@.channels),
        ensures
            final(self).wf(),
            match incompatibility(old(self)@, other@) {
                Some(fault) => result matches Err(error) && error@ == fault && final(self)@
                    == old(self)@,
                None => result is Ok && final(self)@ == (Sound {
                    sample_rate: old(self)@.sample_rate,
                    format: old(self)@.format,
                    channels: sum_of(old(self)@.channels, other@.channels),
                }),
            },
    {
        match self.ensure_compatible(other) {
            Ok(_) => {},
            Err(error) => return Err(error),
        }
        let ghost goal = sum_of(self@.channels, other@.channels);
        let mut sums: Vec<Vec<i64>> = Vec::new();
        while sums.len() < self.channels.len()
            invariant
                sums@.len() <= self.channels@.len(),
                forall|i: int| 0 <= i < sums@.len() ==> (#[trigger] sums@[i])@ == goal[i],
            decreases self.channels@.len() - sums@.len(),
        {
            let index: usize = sums.len();
            let mine = &self.channels[index];
            let theirs = &other.channels[index];
            let mut plane: Vec<i64> = Vec::new();
            proof {
                assert(old(self)@.channels[index as int] == mine@);
                assert(other@.channels[index as int] == theirs@);
                assert(mine@.len() == old(self)@.frames());
                assert(theirs@.len() == other@.frames());
            }
            while plane.len() < mine.len()
                invariant
                    plane@.len() <= mine@.len(),
                    forall|j: int| 0 <= j < plane@.len() ==> plane@[j] == mine@[j] + theirs@[j],
                decreases mine@.len() - plane@.len(),
            {
                let frame: usize = plane.len();
                assert(-0x4000_0000_0000_0000 <= old(self)@.channels[index as int][frame as int]
                    <= 0x3FFF_FFFF_FFFF_FFFF);
                assert(-0x4000_0000_0000_0000 <= other@.channels[index as int][frame as int]
                    <= 0x3FFF_FFFF_FFFF_FFFF);
                plane.push(mine[frame] + theirs[frame]);
            }
            assert(plane@ =~= goal[index as int]);
            sums.push(plane);
        }
        assert(planes(sums@) =~= goal);
        self.channels = sums;
        proof {
            assert forall|i: int| 0 <= i < goal.len() implies (#[trigger] goal[i]).len()
                == self@.frames() by {
                assert(old(self)@.channels[i].len() == old(self)@.frames());
                assert(old(self)@.channels[0].len() == old(self)@.frames());
            }
        }
        Ok(())
    }

    /// Returns `self - other`.
    #[verifier::loop_isolation(false)]
    pub fn difference(&self, other: &Self) -> (result: Result<Self, Error>)
        requires
            self.wf(),
            other.wf(),
            !self@.format.spec_is_float(),
            other@.format == self@.format,
            roomy(self@.channels),
            roomy(other@.channels),
        ensures
            match incompatibility(self@, other@) {
                Some(fault) => result matches Err(error) && error@ == fault,
                None => match channels_fault(
                    self@.sample_rate,
                    difference_of(self@.channels, other@.channels),
                ) {
                    Some(fault) => result matches Err(error) && error@ == fault,
                    None => result matches Ok(audio) && audio.wf() && audio@ == (Sound {
                        sample_rate: self@.sample_rate,
                        format: self@.format,
                        channels: difference_of(self@.channels, other@.channels),
                    }),
                },
            },
    {
        match self.ensure_compatible(other) {
            Ok(_) => {},
            Err(error) => return Err(error),
        }
        let ghost goal = difference_of(self@.channels, other@.channels);
        let mut left: Vec<Vec<i64>> = Vec::new();
        while left.len() < self.channels.len()
            invariant
                left@.len() <= self.channels@.len(),
                forall|i: int| 0 <= i < left@.len() ==> (#[trigger] left@[i])@ == goal[i],
            decreases self.channels@.len() - left@.len(),
        {
            let index: usize = left.len();
            let mine = &self.channels[index];
            let theirs = &other.channels[index];
            let mut plane: Vec<i64> = Vec::new();
            proof {
                assert(self@.channels[index as int] == mine@);
                assert(other@.channels[index as int] == theirs@);
                assert(mine@.len() == self@.frames());
                assert(theirs@.len() == other@.frames());
            }
            while plane.len() < mine.len()
                invariant
                    plane@.len() <= mine@.len(),
                    forall|j: int| 0 <= j < plane@.len() ==> plane@[j] == mine@[j] - theirs@[j],
                decreases mine@.len() - plane@.len(),
            {
                let frame: usize = plane.len();
                assert(-0x4000_0000_0000_0000 <= self@.channels[index as int][frame as int]
                    <= 0x3FFF_FFFF_FFFF_FFFF);
                assert(-0x4000_0000_0000_0000 <= other@.channels[index as int][frame as int]
                    <= 0x3FFF_FFFF_FFFF_FFFF);
                plane.push(mine[frame] - theirs[frame]);
            }
            assert(plane@ =~= goal[index as int]);
            left.push(plane);
        }
        assert(planes(left@) =~= goal);
        Audio::from_channels(self.sample_rate, self.format, left)
    }

    /// Extracts `length` frames starting at `start`, zero-padding past the end.
    #[verifier::loop_isolation(false)]
    pub fn segment(&self, start: usize, length: usize) -> (audio: Self)
        requires
            self.wf(),
            start + length <= usize::MAX,
        ensures
            audio.wf(),
            audio@ == (Sound {
                sample_rate: self@.sample_rate,
                format: self@.format,
                channels: segment_of(self@.channels, start as nat, length as nat),
            }),
    {
        let ghost goal = segment_of(self@.channels, start as nat, length as nat);
        let mut channels: Vec<Vec<i64>> = Vec::new();
        while channels.len() < self.channels.len()
            invariant
                channels@.len() <= self.channels@.len(),
                forall|i: int| 0 <= i < channels@.len() ==> (#[trigger] channels@[i])@ == goal[i],
            decreases self.channels@.len() - channels@.len(),
        {
            let source = &self.channels[channels.len()];
            assert(self@.channels[channels@.len() as int] == source@);
            let mut plane: Vec<i64> = Vec::new();
            while plane.len() < length
                invariant
                    plane@.len() <= length,
                    forall|j: int|
                        0 <= j < plane@.len() ==> plane@[j] == if start + j < source@.len() {
                            source@[start + j]
                        } else {
                            0
                        },
                decreases length - plane@.len(),
            {
                let index: usize = start + plane.len();
                plane.push(
                    if index < source.len() {
                        source[index]
                    } else {
                        0
                    },
                );
            }
            assert(plane@ =~= goal[channels@.len() as int]);
            channels.push(plane);
        }
        assert(planes(channels@) =~= goal);
        Audio { sample_rate: self.sample_rate, format: self.format, channels }
    }

    /// Snaps every sample to the integer grid of the current format.
    ///
    /// Codes lie on the grid already, so this brings them into its range. Float
    /// formats have no grid, so the buffer is left untouched.
    pub fn quantize(&mut self)
        requires
            old(self).wf(),
        ensures
            final(self).wf(),
            final(self)@ == (Sound {
                sample_rate: old(self)@.sample_rate,
                format: old(self)@.format,
                channels: if old(self)@.format.spec_is_float() {
                    old(self)@.channels
                } else {
                    clamped_channels(old(self)@.channels, old(self)@.format)
                },
            }),
    {
        match self.codes() {
            Some(codes) => {
                self.channels = codes;
                proof {
                    let clamped = clamped_channels(old(self)@.channels, old(self)@.format);
                    assert forall|i: int| 0 <= i < clamped.len() implies (#[trigger] clamped[i]).len()
                        == self@.frames() by {
                        assert(old(self)@.channels[i].len() == old(self)@.frames());
                        assert(old(self)@.channels[0].len() == old(self)@.frames());
                    }
                }
            },
            None => {},
        }
    }

    /// Whether every sample would survive being written in `format` and read
    /// back, unchanged.
    pub fn is_exact_in(&self, format: SampleFormat) -> (exact: bool)
        requires
            !self@.format.spec_is_float(),
            forall|i: int, j: int|
                0 <= i < self@.channels.len() && 0 <= j < self@.channels[i].len()
                    ==> -0x20_0000_0000_0000 <= #[trigger] self@.channels[i][j] <= 0x20_0000_0000_0000,
        ensures
            exact == all_exact_in(self@, format),
    {
        let mut channel: usize = 0;
        while channel < self.channels.len()
            invariant
                channel <= self.channels@.len(),
                !self@.format.spec_is_float(),
                forall|i: int, j: int|
                    0 <= i < self@.channels.len() && 0 <= j < self@.channels[i].len()
                        ==> -0x20_0000_0000_0000 <= #[trigger] self@.channels[i][j]
                        <= 0x20_0000_0000_0000,
                forall|i: int, j: int|
                    0 <= i < channel && 0 <= j < self@.channels[i].len() ==> exact_in(
                        #[trigger] self@.channels[i][j],
                        self@.format,
                        format,
                    ),
            decreases self.channels@.len() - channel,
        {
            let source = &self.channels[channel];
            let mut frame: usize = 0;
            assert(self@.channels[channel as int] == source@);
            while frame < source.len()
                invariant
                    channel < self.channels@.len(),
                    frame <= source@.len(),
                    self@.channels[channel as int] == source@,
                    !self@.format.spec_is_float(),
                    forall|i: int, j: int|
                        0 <= i < self@.channels.len() && 0 <= j < self@.channels[i].len()
                            ==> -0x20_0000_0000_0000 <= #[trigger] self@.channels[i][j]
                            <= 0x20_0000_0000_0000,
                    forall|j: int|
                        0 <= j < frame ==> exact_in(#[trigger] source@[j], self@.format, format),
                decreases source@.len() - frame,
            {
                assert(-0x20_0000_0000_0000 <= self@.channels[channel as int][frame as int]
                    <= 0x20_0000_0000_0000);
                if !is_exact(source[frame], self.format, format) {
                    assert(!exact_in(
                        self@.channels[channel as int][frame as int],
                        self@.format,
                        format,
                    ));
                    return false;
                }
                frame = frame + 1;
            }
            channel = channel + 1;
        }
        true
    }

    /// Whether writing the buffer in its own format and reading it back yields
    /// exactly the same numbers.
    pub fn is_exact_in_format(&self) -> (exact: bool)
        requires
            !self@.format.spec_is_float(),
            forall|i: int, j: int|
                0 <= i < self@.channels.len() && 0 <= j < self@.channels[i].len()
                    ==> -0x20_0000_0000_0000 <= #[trigger] self@.channels[i][j] <= 0x20_0000_0000_0000,
        ensures
            exact == all_exact_in(self@, self@.format),
            exact == self@.in_range(),
    {
        let exact: bool = self.is_exact_in(self.format);
        proof {
            lemma2_to64();
            let format = self@.format;
            assert((format.spec_bits() - format.spec_bits()) as nat == 0nat);
            assert forall|i: int, j: int|
                0 <= i < self@.channels.len() && 0 <= j < self@.channels[i].len() implies exact_in(
                #[trigger] self@.channels[i][j],
                format,
                format,
            ) == (format.low() <= self@.channels[i][j] <= format.high()) by {
                assert(self@.channels[i][j] * 1 == self@.channels[i][j]);
            }
        }
        exact
    }

    /// The smallest format that stores every sample of this buffer exactly and
    /// resolves at least as finely as `floor`.
    ///
    /// Reaching straight for the widest format whenever a buffer leaves its own
    /// grid is safe and usually four times larger than it needs to be. A
    /// residual is a difference of grid values, so it lands back on that same
    /// grid and 16 bits still hold it; only arithmetic that lands *between* grid
    /// points buys anything with the extra width.
    pub fn narrowest_exact_format(&self, floor: SampleFormat) -> (format: SampleFormat)
        requires
            !self@.format.spec_is_float(),
            forall|i: int, j: int|
                0 <= i < self@.channels.len() && 0 <= j < self@.channels[i].len()
                    ==> -0x20_0000_0000_0000 <= #[trigger] self@.channels[i][j] <= 0x20_0000_0000_0000,
        ensures
            format == first_exact(self@, floor, SampleFormat::PcmU8),
    {
        let mut format = SampleFormat::PcmU8;
        while format != SampleFormat::F64 && !(format.bits() >= floor.bits() && self.is_exact_in(
            format,
        ))
            invariant
                !self@.format.spec_is_float(),
                forall|i: int, j: int|
                    0 <= i < self@.channels.len() && 0 <= j < self@.channels[i].len()
                        ==> -0x20_0000_0000_0000 <= #[trigger] self@.channels[i][j]
                        <= 0x20_0000_0000_0000,
                first_exact(self@, floor, SampleFormat::PcmU8) == first_exact(
                    self@,
                    floor,
                    format,
                ),
            decreases 5 - rank(format),
        {
            format = match format {
                SampleFormat::PcmU8 => SampleFormat::PcmI16,
                SampleFormat::PcmI16 => SampleFormat::PcmI24,
                SampleFormat::PcmI24 => SampleFormat::PcmI32,
                SampleFormat::PcmI32 => SampleFormat::F32,
                _ => SampleFormat::F64,
            };
        }
        format
    }
}

/// A code of one integer format counted in the steps of another.
pub open spec fn regridded(code: i64, from: SampleFormat, to: SampleFormat) -> i64 {
    if to.spec_bits() >= from.spec_bits() {
        (code * pow2((to.spec_bits() - from.spec_bits()) as nat)) as i64
    } else {
        (code as int / pow2((from.spec_bits() - to.spec_bits()) as nat) as int) as i64
    }
}

/// Every code counted in the steps of another format.
pub open spec fn regridded_channels(
    channels: Seq<Seq<i64>>,
    from: SampleFormat,
    to: SampleFormat,
) -> Seq<Seq<i64>> {
    Seq::new(
        channels.len(),
        |i: int| Seq::new(channels[i].len(), |j: int| regridded(channels[i][j], from, to)),
    )
}

/// Counts a code in the steps of another format.
fn regrid(code: i64, from: SampleFormat, to: SampleFormat) -> (same: i64)
    requires
        -0x20_0000_0000_0000 <= code <= 0x20_0000_0000_0000,
        !from.spec_is_float(),
        !to.spec_is_float(),
        exact_in(code, from, to),
    ensures
        same == regridded(code, from, to),
{
    proof {
        lemma2_to64();
    }
    if to.bits() >= from.bits() {
        let shift: u16 = to.bits() - from.bits();
        let unit: i128 = if shift == 0 {
            1
        } else if shift == 8 {
            0x100
        } else if shift == 16 {
            0x1_0000
        } else {
            0x100_0000
        };
        let scaled: i128 = code as i128 * unit;
        assert(scaled == code * pow2((to.spec_bits() - from.spec_bits()) as nat)) by {
            assert((to.spec_bits() - from.spec_bits()) as nat == shift as nat);
        }
        scaled as i64
    } else {
        let shift: u32 = (from.bits() - to.bits()) as u32;
        assert((from.spec_bits() - to.spec_bits()) as nat == shift as nat);
        flac::word::shift_down(code, shift)
    }
}

impl Audio {
    /// Moves the buffer to another integer format that holds every sample
    /// exactly, so that each code stands for the same sample as before.
    pub fn set_format(&mut self, format: SampleFormat)
        requires
            old(self).wf(),
            !old(self)@.format.spec_is_float(),
            !format.spec_is_float(),
            all_exact_in(old(self)@, format),
            forall|i: int, j: int|
                0 <= i < old(self)@.channels.len() && 0 <= j < old(self)@.channels[i].len()
                    ==> -0x20_0000_0000_0000 <= #[trigger] old(self)@.channels[i][j]
                    <= 0x20_0000_0000_0000,
        ensures
            final(self).wf(),
            final(self)@ == (Sound {
                sample_rate: old(self)@.sample_rate,
                format,
                channels: regridded_channels(old(self)@.channels, old(self)@.format, format),
            }),
            final(self)@.in_range(),
    {
        let from = self.format;
        let ghost before = self@;
        let ghost goal = regridded_channels(before.channels, from, format);
        let mut channels: Vec<Vec<i64>> = Vec::new();
        while channels.len() < self.channels.len()
            invariant
                self@ == before,
                before.format == from,
                channels@.len() <= self.channels@.len(),
                !from.spec_is_float(),
                !format.spec_is_float(),
                all_exact_in(before, format),
                forall|i: int, j: int|
                    0 <= i < before.channels.len() && 0 <= j < before.channels[i].len()
                        ==> -0x20_0000_0000_0000 <= #[trigger] before.channels[i][j]
                        <= 0x20_0000_0000_0000,
                goal == regridded_channels(before.channels, from, format),
                planes(channels@) == goal.take(channels@.len() as int),
            decreases self.channels@.len() - channels@.len(),
        {
            let channel: usize = channels.len();
            let source = &self.channels[channel];
            assert(before.channels[channel as int] == source@);
            let mut plane: Vec<i64> = Vec::new();
            while plane.len() < source.len()
                invariant
                    plane@.len() <= source@.len(),
                    channel < before.channels.len(),
                    before.channels[channel as int] == source@,
                    before.format == from,
                    !from.spec_is_float(),
                    !format.spec_is_float(),
                    all_exact_in(before, format),
                    forall|i: int, j: int|
                        0 <= i < before.channels.len() && 0 <= j < before.channels[i].len()
                            ==> -0x20_0000_0000_0000 <= #[trigger] before.channels[i][j]
                            <= 0x20_0000_0000_0000,
                    goal == regridded_channels(before.channels, from, format),
                    plane@ == goal[channel as int].take(plane@.len() as int),
                decreases source@.len() - plane@.len(),
            {
                let frame: usize = plane.len();
                assert(before.channels[channel as int][frame as int] == source@[frame as int]);
                assert(exact_in(before.channels[channel as int][frame as int], from, format));
                plane.push(regrid(source[frame], from, format));
                assert(plane@ =~= goal[channel as int].take(frame + 1));
            }
            assert(plane@ =~= goal[channel as int]);
            channels.push(plane);
            assert(planes(channels@) =~= goal.take(channels@.len() as int));
        }
        self.channels = channels;
        self.format = format;
        proof {
            assert(planes(self.channels@) =~= goal);
            assert forall|i: int| 0 <= i < goal.len() implies (#[trigger] goal[i]).len()
                == self@.frames() by {
                assert(before.channels[i].len() == before.frames());
                assert(before.channels[0].len() == before.frames());
            }
            assert forall|i: int, j: int|
                0 <= i < goal.len() && 0 <= j < goal[i].len() implies format.low() <= #[trigger]
            goal[i][j] <= format.high() by {
                assert(exact_in(before.channels[i][j], from, format));
                assert(goal[i][j] == regridded(before.channels[i][j], from, format));
            }
        }
    }
}

/// Whether a code of one integer format can be written in another format
/// without being changed.
fn is_exact(code: i64, from: SampleFormat, to: SampleFormat) -> (exact: bool)
    requires
        -0x20_0000_0000_0000 <= code <= 0x20_0000_0000_0000,
        !from.spec_is_float(),
    ensures
        exact == exact_in(code, from, to),
{
    if to == SampleFormat::F64 {
        return true;
    }
    let (low, high): (i64, i64) = match to.code_range() {
        Some(range) => range,
        None => return is_24_bits(code),
    };
    proof {
        lemma2_to64();
    }
    if to.bits() >= from.bits() {
        let shift: u16 = to.bits() - from.bits();
        let unit: i128 = if shift == 0 {
            1
        } else if shift == 8 {
            0x100
        } else if shift == 16 {
            0x1_0000
        } else {
            0x100_0000
        };
        let scaled: i128 = code as i128 * unit;
        assert(scaled == code * pow2((to.spec_bits() - from.spec_bits()) as nat)) by {
            assert((to.spec_bits() - from.spec_bits()) as nat == shift as nat);
        }
        low as i128 <= scaled && scaled <= high as i128
    } else {
        let shift: u32 = (from.bits() - to.bits()) as u32;
        let down: i64 = flac::word::shift_down(code, shift);
        let unit: i128 = if shift == 8 {
            0x100
        } else if shift == 16 {
            0x1_0000
        } else {
            0x100_0000
        };
        assert((from.spec_bits() - to.spec_bits()) as nat == shift as nat);
        proof {
            lemma_fundamental_div_mod(code as int, unit as int);
        }
        down as i128 * unit == code as i128 && low <= down && down <= high
    }
}

/// Whether a number has at most 24 significant bits.
fn is_24_bits(code: i64) -> (few: bool)
    requires
        -0x20_0000_0000_0000 <= code <= 0x20_0000_0000_0000,
    ensures
        few == has_24_bits(code as int),
{
    let mut rest: i64 = code;
    while rest < -0x100_0000 || rest > 0x100_0000
        invariant
            -0x20_0000_0000_0000 <= rest <= 0x20_0000_0000_0000,
            has_24_bits(code as int) == has_24_bits(rest as int),
        decreases (if rest < 0 { -(rest as int) } else { rest as int }),
    {
        proof {
            lemma2_to64();
        }
        let half: i64 = flac::word::shift_down(rest, 1);
        if half + half != rest {
            return false;
        }
        rest = half;
    }
    true
}

/// A container an audio file can be stored in.
#[derive(Clone, Copy, Debug, PartialEq, Eq, Hash, Structural)]
pub enum Container {
    /// Microsoft RIFF/WAVE.
    Wav,
    /// Apple AIFF, with the uncompressed AIFF-C layout.
    Aiff,
}

/// A name without the dots at its front.
pub open spec fn undotted(name: Seq<char>) -> Seq<char>
    decreases name.len(),
{
    if name.len() > 0 && name[0] == '.' {
        undotted(name.skip(1))
    } else {
        name
    }
}

/// What a container's name is compared as: trimmed, without dots at its front,
/// in small letters.
pub open spec fn plain_name(name: Seq<char>) -> Seq<char> {
    lower(undotted(trimmed(name)))
}

impl Container {
    /// Every container.
    pub const ALL: [Container; 2] = [Container::Wav, Container::Aiff];

    /// The extension the container is conventionally stored under.
    pub open spec fn spec_extension(self) -> Seq<char> {
        match self {
            Container::Wav => "wav"@,
            Container::Aiff => "aiff"@,
        }
    }

    /// The container a name stands for.
    pub open spec fn spec_parse(name: Seq<char>) -> Option<Container> {
        let plain = plain_name(name);
        if plain == "wav"@ || plain == "wave"@ || plain == "riff"@ {
            Some(Container::Wav)
        } else if plain == "aif"@ || plain == "aiff"@ || plain == "aifc"@ {
            Some(Container::Aiff)
        } else {
            None
        }
    }

    /// The container a path names, by its extension.
    pub open spec fn spec_of_path(path: Seq<char>) -> Option<Container> {
        match file_name_of(path) {
            None => None,
            Some(name) => match extension_of(name) {
                None => None,
                Some(extension) => Container::spec_parse(extension),
            },
        }
    }

    /// The container a file's first bytes announce.
    pub open spec fn spec_of_bytes(bytes: Seq<u8>) -> Option<Container> {
        if bytes.len() < 4 {
            None
        } else if bytes.take(4) == wav::RIFF@ || bytes.take(4) == RIFX@ {
            Some(Container::Wav)
        } else if bytes.take(4) == aiff::FORM@ {
            Some(Container::Aiff)
        } else {
            None
        }
    }

    /// The extension the container is conventionally stored under.
    pub fn extension(self) -> (name: &'static str)
        ensures
            name@ == self.spec_extension(),
    {
        match self {
            Container::Wav => "wav",
            Container::Aiff => "aiff",
        }
    }

    /// The container an extension or name stands for.
    pub fn parse(name: &str) -> (container: Option<Self>)
        ensures
            container == Container::spec_parse(name@),
    {
        let inner = trim(chars_of(name));
        let mut start: usize = 0;
        assert(inner@.skip(0) =~= inner@);
        while start < inner.len() && inner[start] == '.'
            invariant
                start <= inner@.len(),
                undotted(inner@) == undotted(inner@.skip(start as int)),
            decreases inner@.len() - start,
        {
            assert(inner@.skip(start as int).skip(1) =~= inner@.skip(start + 1));
            start = start + 1;
        }
        let mut small: Vec<char> = Vec::new();
        let ghost rest = inner@.skip(start as int);
        let mut index: usize = start;
        while index < inner.len()
            invariant
                start <= index <= inner@.len(),
                rest == inner@.skip(start as int),
                small@ == lower(rest).take(index - start),
            decreases inner@.len() - index,
        {
            small.push(lowered(inner[index]));
            assert(small@ =~= lower(rest).take(index + 1 - start));
            index = index + 1;
        }
        assert(small@ =~= lower(rest));
        let plain = string_of(&small);
        let plain = plain.as_str();
        if same(plain, "wav") || same(plain, "wave") || same(plain, "riff") {
            Some(Container::Wav)
        } else if same(plain, "aif") || same(plain, "aiff") || same(plain, "aifc") {
            Some(Container::Aiff)
        } else {
            None
        }
    }

    /// The container a path names, by its extension.
    pub fn of_path(path: &str) -> (container: Option<Self>)
        ensures
            container == Container::spec_of_path(path@),
    {
        match file_name(path) {
            None => None,
            Some(name) => match extension(&name) {
                None => None,
                Some(behind) => {
                    let text = string_of(&behind);
                    Container::parse(text.as_str())
                },
            },
        }
    }

    /// The container a file's first bytes announce.
    ///
    /// Extensions lie; the four-character chunk identifiers at the head of a
    /// RIFF or IFF file do not.
    pub fn of_bytes(bytes: &[u8]) -> (container: Option<Self>)
        ensures
            container == Container::spec_of_bytes(bytes@),
    {
        if bytes.len() < 4 {
            return None;
        }
        assert(bytes@.subrange(0, 4) =~= bytes@.take(4));
        if tagged(bytes, 0, &wav::RIFF) || tagged(bytes, 0, &RIFX) {
            Some(Container::Wav)
        } else if tagged(bytes, 0, &aiff::FORM) {
            Some(Container::Aiff)
        } else {
            None
        }
    }
}

/// `RIFX`
pub const RIFX: [u8; 4] = [0x52, 0x49, 0x46, 0x58];

/// The audio some bytes hold, by the container they announce.
pub open spec fn decoded(bytes: Seq<u8>) -> Result<Sound, Fault> {
    match Container::spec_of_bytes(bytes) {
        Some(Container::Wav) => wav::decoded(bytes),
        Some(Container::Aiff) => aiff::decoded(bytes),
        None => Err(
            Fault::Format(
                "unrecognised audio container; expected a RIFF/WAVE or IFF/AIFF header"@,
            ),
        ),
    }
}

/// The container a file is read in: the one its first bytes announce, or else the
/// one its name does.
pub open spec fn reading_of(bytes: Seq<u8>, path: Seq<char>) -> Option<Container> {
    match Container::spec_of_bytes(bytes) {
        Some(container) => Some(container),
        None => Container::spec_of_path(path),
    }
}

/// Decodes the bytes of a file, in the container that they or its name announce.
pub fn decode_file(bytes: &[u8], path: &str) -> (result: Result<Audio, Error>)
    ensures
        match reading_of(bytes@, path@) {
            Some(Container::Wav) => match wav::decoded(bytes@) {
                Ok(sound) => result matches Ok(audio) && audio.wf() && audio@ == sound,
                Err(fault) => result matches Err(error) && error@ == fault,
            },
            Some(Container::Aiff) => match aiff::decoded(bytes@) {
                Ok(sound) => result matches Ok(audio) && audio.wf() && audio@ == sound,
                Err(fault) => result matches Err(error) && error@ == fault,
            },
            None => result matches Err(error) && error@ == Fault::Format(
                path@ + " is not a container this build reads; expected WAV or AIFF"@,
            ),
        },
{
    let container = match Container::of_bytes(bytes) {
        Some(container) => Some(container),
        None => Container::of_path(path),
    };
    match container {
        Some(Container::Wav) => wav::decode(bytes),
        Some(Container::Aiff) => aiff::decode(bytes),
        None => {
            let mut message = path.to_string();
            message.append(" is not a container this build reads; expected WAV or AIFF");
            Err(Error::Format(message))
        },
    }
}

/// Encodes audio in the container that a file's name asks for. A name that asks
/// for none is refused rather than guessed at.
pub fn encode_file(audio: &Audio, path: &str) -> (result: Result<Vec<u8>, Error>)
    requires
        audio.wf(),
    ensures
        match Container::spec_of_path(path@) {
            Some(Container::Wav) => if audio@.channels.len() > u16::MAX {
                result matches Err(error) && error@ == Fault::InvalidArgument(
                    "too many channels for WAV"@,
                )
            } else {
                result matches Ok(bytes) && bytes@ == wav::encoded(audio@)
            },
            Some(Container::Aiff) => match aiff::encode_fault(audio@) {
                Some(fault) => result matches Err(error) && error@ == fault,
                None => result matches Ok(bytes) && bytes@ == aiff::encoded(audio@),
            },
            None => result matches Err(error) && error@ == Fault::InvalidArgument(
                path@ + " has no extension this build writes; expected .wav or .aiff"@,
            ),
        },
{
    match Container::of_path(path) {
        Some(Container::Wav) => wav::encode(audio),
        Some(Container::Aiff) => aiff::encode(audio),
        None => {
            let mut message = path.to_string();
            message.append(" has no extension this build writes; expected .wav or .aiff");
            Err(Error::InvalidArgument(message))
        },
    }
}

/// Decodes audio, choosing the codec by what the bytes say.
pub fn decode(bytes: &[u8]) -> (result: Result<Audio, Error>)
    ensures
        match decoded(bytes@) {
            Ok(sound) => result matches Ok(audio) && audio.wf() && audio@ == sound,
            Err(fault) => result matches Err(error) && error@ == fault,
        },
{
    match Container::of_bytes(bytes) {
        Some(Container::Wav) => wav::decode(bytes),
        Some(Container::Aiff) => aiff::decode(bytes),
        None => Err(
            format_error("unrecognised audio container; expected a RIFF/WAVE or IFF/AIFF header"),
        ),
    }
}

/// What audio becomes in a container.
pub open spec fn encoded(sound: Sound, container: Container) -> Result<Seq<u8>, Fault> {
    match container {
        Container::Wav => if sound.channels.len() > u16::MAX {
            Err(Fault::InvalidArgument("too many channels for WAV"@))
        } else {
            Ok(wav::encoded(sound))
        },
        Container::Aiff => match aiff::encode_fault(sound) {
            Some(fault) => Err(fault),
            None => Ok(aiff::encoded(sound)),
        },
    }
}

/// Encodes audio into a container.
pub fn encode(audio: &Audio, container: Container) -> (result: Result<Vec<u8>, Error>)
    requires
        audio.wf(),
    ensures
        match encoded(audio@, container) {
            Ok(expected) => result matches Ok(bytes) && bytes@ == expected,
            Err(fault) => result matches Err(error) && error@ == fault,
        },
{
    match container {
        Container::Wav => wav::encode(audio),
        Container::Aiff => aiff::encode(audio),
    }
}

/// Audio that a container can hold.
pub open spec fn storable(sound: Sound, container: Container) -> bool {
    match container {
        Container::Wav => wav::storable(sound),
        Container::Aiff => aiff::storable(sound),
    }
}

/// Whatever container audio is written in, its bytes announce that container
/// and read back as the audio.
pub proof fn law_containers_round_trip(sound: Sound, container: Container)
    requires
        storable(sound, container),
        sound.in_range(),
    ensures
        encoded(sound, container) matches Ok(bytes) && Container::spec_of_bytes(bytes) == Some(
            container,
        ) && decoded(bytes) == Ok::<Sound, Fault>(sound),
{
    match container {
        Container::Wav => {
            wav::law_wav_is_lossless(sound);
            assert(wav::encoded(sound).take(4) =~= wav::RIFF@);
        },
        Container::Aiff => {
            aiff::law_aiff_is_lossless(sound);
            assert(aiff::encoded(sound).take(4) =~= aiff::FORM@);
            assert(aiff::FORM@[0] != wav::RIFF@[0] && aiff::FORM@[0] != RIFX@[0]);
        },
    }
}

/// A container's extension names that container.
pub proof fn law_container_extensions_round_trip(container: Container)
    ensures
        Container::spec_parse(container.spec_extension()) == Some(container),
{
    reveal_strlit("wav");
    reveal_strlit("aiff");
    reveal_strlit("wave");
    reveal_strlit("riff");
    reveal_strlit("aif");
    reveal_strlit("aifc");
    let name = container.spec_extension();
    assert(!is_space(name[0]) && !is_space(name.last()));
    assert(trimmed(name) == name);
    assert(undotted(name) == name);
    assert(lower(name) =~= name);
}

/// Leaving out dots at the front and making letters small can be done in either
/// order.
proof fn lemma_lower_undotted(name: Seq<char>)
    ensures
        lower(undotted(name)) == undotted(lower(name)),
    decreases name.len(),
{
    if name.len() > 0 {
        assert((lower_char(name[0]) == '.') == (name[0] == '.'));
        if name[0] == '.' {
            lemma_lower_undotted(name.skip(1));
            assert(lower(name).skip(1) =~= lower(name.skip(1)));
        }
    }
}

/// Case does not matter to which container a name stands for.
pub proof fn law_case_does_not_matter_to_containers(first: Seq<char>, second: Seq<char>)
    requires
        lower(first) == lower(second),
    ensures
        Container::spec_parse(first) == Container::spec_parse(second),
{
    law_case_does_not_matter_to_trimming(first);
    law_case_does_not_matter_to_trimming(second);
    lemma_lower_undotted(trimmed(first));
    lemma_lower_undotted(trimmed(second));
}

/// A dot before a name and blanks around it do not matter to which container it
/// stands for.
pub proof fn law_dots_and_blanks_do_not_matter_to_containers(
    before: Seq<char>,
    name: Seq<char>,
    after: Seq<char>,
)
    requires
        blank(before),
        blank(after),
        trimmed(name) == name,
    ensures
        Container::spec_parse(before + name + after) == Container::spec_parse(name),
        Container::spec_parse(before + (seq!['.'] + name) + after) == Container::spec_parse(name),
{
    let dotted = seq!['.'] + name;
    law_blanks_around_are_trimmed(before, name, after);
    law_blanks_around_are_trimmed(before, dotted, after);
    lemma_trimmed_behind('.', name);
    lemma_trimmed_twice(name);
    assert(trimmed(dotted) == dotted);
    assert(dotted[0] == '.');
    assert(dotted.skip(1) =~= name);
}

/// A trimmed name has nothing to trim at its end.
proof fn lemma_trimmed_twice(name: Seq<char>)
    requires
        trimmed(name) == name,
    ensures
        trimmed_end(name) == name,
{
    lemma_trimmed_lens(name);
    lemma_trimmed_end_len(trimmed_start(name));
    if trimmed_start(name).len() == name.len() {
        assert(trimmed_start(name) == name);
    }
}

/// Trimming a front takes away, and changes nothing else.
proof fn lemma_trimmed_lens(name: Seq<char>)
    ensures
        trimmed_start(name).len() <= name.len(),
        trimmed_start(name).len() == name.len() ==> trimmed_start(name) == name,
    decreases name.len(),
{
    if name.len() > 0 && is_space(name[0]) {
        lemma_trimmed_lens(name.skip(1));
    }
}

/// Trimming an end takes away.
proof fn lemma_trimmed_end_len(name: Seq<char>)
    ensures
        trimmed_end(name).len() <= name.len(),
    decreases name.len(),
{
    if name.len() > 0 && is_space(name.last()) {
        lemma_trimmed_end_len(name.drop_last());
    }
}

} // verus!
