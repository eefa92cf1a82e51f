//! What a decomposition is: stems, a deduplicated sample bank, the placements
//! that put the bank back on the timeline, the notes that describe it
//! musically, and the residual that makes the sum exact.
//!
//! The whole design follows one identity. For every channel and every frame,
//!
//! ```text
//! original = render(bank, placements) + residual (+ correction)
//! ```
//!
//! where the rendering is a single deterministic function used both when the
//! decomposition is produced and when it is played back. Nothing about the
//! reconstruction depends on the analysis being *right*: a bad match simply
//! leaves more signal in the residual. That is what lets the round trip be
//! exact while the musical interpretation stays approximate.

use vstd::prelude::*;

use crate::audio::flac::decode::planes;
use crate::audio::grid::{gridded, lies_on, takeable, taken_to};
use crate::audio::{Audio, SampleFormat, Sound};
use crate::number::Number;

verus! {

/// Denominator of the fixed-point gain, chosen as a power of two so that a gain
/// is an exact binary number and survives being written to text and read back.
pub const GAIN_SCALE: i64 = 0x1_0000;

/// A gain factor stored as an exact binary rational.
#[derive(Clone, Copy, Debug, PartialEq, Eq, Hash, PartialOrd, Ord, Structural)]
pub struct Gain(i64);

impl Gain {
    /// The numerator over [`GAIN_SCALE`].
    pub closed spec fn over_scale(self) -> i64 {
        self.0
    }

    /// The gain with a numerator over [`GAIN_SCALE`].
    pub closed spec fn over(numerator: i64) -> Gain {
        Gain(numerator)
    }

    /// The unit gain.
    pub fn unit() -> (gain: Self)
        ensures
            gain == Gain::over(GAIN_SCALE),
            gain.over_scale() == GAIN_SCALE,
    {
        Gain(GAIN_SCALE)
    }

    /// A gain from its numerator over [`GAIN_SCALE`].
    pub fn from_numerator(numerator: i64) -> (gain: Self)
        ensures
            gain == Gain::over(numerator),
            gain.over_scale() == numerator,
    {
        Gain(numerator)
    }

    /// The numerator, which is what manifests store.
    pub fn numerator(self) -> (numerator: i64)
        ensures
            numerator == self.over_scale(),
    {
        self.0
    }

    /// Whether the gain is exactly zero.
    pub fn is_silent(self) -> (silent: bool)
        ensures
            silent == (self.over_scale() == 0),
    {
        self.0 == 0
    }
}

/// A gain is its numerator.
pub broadcast proof fn lemma_gain(gain: Gain)
    ensures
        Gain::over(#[trigger] gain.over_scale()) == gain,
{
}

/// A gain has the numerator it was made of.
pub proof fn lemma_over(numerator: i64)
    ensures
        Gain::over(numerator).over_scale() == numerator,
{
}

impl Default for Gain {
    /// The unit gain.
    fn default() -> (gain: Self)
        ensures
            gain == Gain::over(GAIN_SCALE),
    {
        Gain::unit()
    }
}

/// Where a decomposition came from.
#[derive(Clone, Debug, PartialEq, Eq)]
pub struct SourceInfo {
    /// Name of the recording, used for exported file names.
    pub name: String,
    /// Sample rate of every buffer in the decomposition.
    pub sample_rate: u32,
    /// Sample format the recording was decoded from.
    pub format: SampleFormat,
    /// Number of channels.
    pub channels: usize,
    /// Number of frames per channel.
    pub frames: usize,
}

/// What a [`SourceInfo`] says.
#[verifier::ext_equal]
pub struct Origin {
    /// Name of the recording.
    pub name: Seq<char>,
    /// Sample rate of every buffer.
    pub sample_rate: u32,
    /// Sample format the recording was decoded from.
    pub format: SampleFormat,
    /// Number of channels.
    pub channels: usize,
    /// Number of frames per channel.
    pub frames: usize,
}

impl View for SourceInfo {
    type V = Origin;

    open spec fn view(&self) -> Origin {
        Origin {
            name: self.name@,
            sample_rate: self.sample_rate,
            format: self.format,
            channels: self.channels,
            frames: self.frames,
        }
    }
}

/// A buffer of silence.
pub open spec fn quiet(
    sample_rate: u32,
    format: SampleFormat,
    channels: nat,
    frames: nat,
) -> Sound {
    Sound {
        sample_rate,
        format,
        channels: Seq::new(channels, |i: int| Seq::new(frames, |j: int| 0i64)),
    }
}

impl SourceInfo {
    /// The description of an existing buffer.
    pub fn of(name: &str, audio: &Audio) -> (source: Self)
        ensures
            source@ == (Origin {
                name: name@,
                sample_rate: audio@.sample_rate,
                format: audio@.format,
                channels: audio@.channels.len() as usize,
                frames: audio@.frames() as usize,
            }),
            source.channels == audio@.channels.len(),
            source.frames == audio@.frames(),
    {
        SourceInfo {
            name: name.to_string(),
            sample_rate: audio.sample_rate(),
            format: audio.format(),
            channels: audio.channel_count(),
            frames: audio.frames(),
        }
    }

    /// The same description once more.
    pub fn copy(&self) -> (source: Self)
        ensures
            source@ == self@,
    {
        SourceInfo {
            name: self.name.clone(),
            sample_rate: self.sample_rate,
            format: self.format,
            channels: self.channels,
            frames: self.frames,
        }
    }

    /// An empty buffer with this shape.
    pub fn silence(&self) -> (audio: Audio)
        ensures
            audio.wf(),
            audio@ == quiet(
                self.sample_rate,
                self.format,
                self.channels as nat,
                self.frames as nat,
            ),
    {
        Audio::silence(self.sample_rate, self.format, self.channels, self.frames)
    }
}

/// A named part of the recording.
///
/// Every stem of a decomposition has the same shape as the source, and the
/// stems sum back to it sample for sample.
#[derive(Clone, Debug, PartialEq)]
pub struct Stem {
    /// Name used for the exported file and the manifest.
    pub name: String,
    /// The audio of this part.
    pub audio: Audio,
}

impl Stem {
    /// A stem from its parts.
    pub fn new(name: String, audio: Audio) -> (stem: Self)
        ensures
            stem.name@ == name@,
            stem.audio == audio,
    {
        Stem { name, audio }
    }
}

/// One distinct waveform in the deduplicated bank.
#[derive(Clone, Debug, PartialEq)]
pub struct Sample {
    /// Position of the sample in the bank, and its address in exports.
    pub id: usize,
    /// Name used for the exported file and the manifest.
    pub name: String,
    /// The mono waveform.
    pub waveform: Audio,
    /// MIDI note this waveform was recognised as, when it was.
    pub note: Option<u8>,
    /// Fundamental frequency in hertz, when one was found.
    pub frequency: Option<Number>,
    /// Peak amplitude, kept so exporters can normalise without rescanning.
    pub peak: Number,
}

impl Sample {
    /// A bank sample from a waveform and its peak.
    pub fn new(id: usize, name: String, waveform: Audio, peak: Number) -> (sample: Self)
        ensures
            sample.id == id,
            sample.name@ == name@,
            sample.waveform == waveform,
            sample.note is None,
            sample.frequency is None,
            sample.peak == peak,
    {
        Sample { id, name, waveform, note: None, frequency: None, peak }
    }

    /// Number of frames in the waveform.
    pub fn len(&self) -> (length: usize)
        ensures
            length == self.waveform@.frames(),
    {
        self.waveform.frames()
    }

    /// Whether the waveform is empty.
    pub fn is_empty(&self) -> (empty: bool)
        ensures
            empty == (self.waveform@.frames() == 0),
    {
        self.waveform.frames() == 0
    }
}

/// One use of a bank sample on the timeline.
#[derive(Clone, Copy, Debug, PartialEq, Eq, Structural)]
pub struct Placement {
    /// Index into the bank.
    pub sample: usize,
    /// Channel the sample is added to.
    pub channel: usize,
    /// First frame of the sample, which may be negative when the best match
    /// starts before the recording does.
    pub start: i64,
    /// Factor the waveform is scaled by.
    pub gain: Gain,
}

impl Placement {
    /// A placement from its parts.
    pub fn new(sample: usize, channel: usize, start: i64, gain: Gain) -> (placement: Self)
        ensures
            placement == (Placement { sample, channel, start, gain }),
    {
        Placement { sample, channel, start, gain }
    }
}

/// A recognised musical event, the layer MIDI and notation are exported from.
#[derive(Clone, Debug, PartialEq)]
pub struct Note {
    /// Channel the note was heard in.
    pub channel: usize,
    /// First frame of the note.
    pub start: usize,
    /// Length of the note in frames.
    pub length: usize,
    /// MIDI note number.
    pub note: u8,
    /// MIDI velocity, derived from the amplitude envelope.
    pub velocity: u8,
    /// Detected fundamental in hertz.
    pub frequency: Number,
    /// How strongly the analysis supports the note, in `0.0..=1.0`.
    pub confidence: Number,
}

/// What a [`Note`] says.
#[verifier::ext_equal]
pub struct Played {
    /// Channel the note was heard in.
    pub channel: usize,
    /// First frame of the note.
    pub start: usize,
    /// Length of the note in frames.
    pub length: usize,
    /// MIDI note number.
    pub note: u8,
    /// MIDI velocity.
    pub velocity: u8,
    /// Detected fundamental in hertz.
    pub frequency: Seq<char>,
    /// How strongly the analysis supports the note.
    pub confidence: Seq<char>,
}

impl View for Note {
    type V = Played;

    open spec fn view(&self) -> Played {
        Played {
            channel: self.channel,
            start: self.start,
            length: self.length,
            note: self.note,
            velocity: self.velocity,
            frequency: self.frequency@,
            confidence: self.confidence@,
        }
    }
}

impl Note {
    /// Whether the numbers of the note are numbers.
    pub open spec fn wf(&self) -> bool {
        self.frequency.wf() && self.confidence.wf()
    }

    /// One past the last frame of the note.
    pub fn end(&self) -> (end: usize)
        requires
            self.start + self.length <= usize::MAX,
        ensures
            end == self.start + self.length,
    {
        self.start + self.length
    }

    /// The same note once more.
    pub fn copy(&self) -> (note: Self)
        ensures
            note@ == self@,
            self.wf() ==> note.wf(),
    {
        Note {
            channel: self.channel,
            start: self.start,
            length: self.length,
            note: self.note,
            velocity: self.velocity,
            frequency: self.frequency.copy(),
            confidence: self.confidence.copy(),
        }
    }
}

/// A complete decomposition of one recording.
#[derive(Clone, Debug, PartialEq)]
pub struct Decomposition {
    /// Shape and provenance of the recording.
    pub source: SourceInfo,
    /// Parts that sum back to the recording.
    pub stems: Vec<Stem>,
    /// The deduplicated sample bank.
    pub samples: Vec<Sample>,
    /// Where the bank samples are used.
    pub placements: Vec<Placement>,
    /// The musical reading of the recording.
    pub notes: Vec<Note>,
    /// `original - render(bank, placements)`, always stored in full precision.
    pub residual: Audio,
    /// `original - (render + residual)`, needed only for float sources where
    /// the sum can round.
    pub correction: Option<Audio>,
}

/// What a placement adds to a frame of its channel, over [`GAIN_SCALE`].
pub open spec fn share(wave: Seq<i64>, start: int, numerator: int, frame: int) -> int {
    if 0 <= frame - start < wave.len() {
        numerator * wave[frame - start]
    } else {
        0
    }
}

/// What a placement adds to a frame of a channel, over [`GAIN_SCALE`]. A
/// placement of a sample that the bank does not hold adds nothing.
pub open spec fn contribution(
    bank: Seq<Seq<i64>>,
    placement: Placement,
    channel: int,
    frame: int,
) -> int {
    if placement.sample < bank.len() && placement.channel == channel {
        share(
            bank[placement.sample as int],
            placement.start as int,
            placement.gain.over_scale() as int,
            frame,
        )
    } else {
        0
    }
}

/// What several placements add to a frame of a channel, over [`GAIN_SCALE`].
pub open spec fn mixed(
    bank: Seq<Seq<i64>>,
    placements: Seq<Placement>,
    channel: int,
    frame: int,
) -> int
    decreases placements.len(),
{
    if placements.len() == 0 {
        0
    } else {
        mixed(bank, placements.drop_last(), channel, frame) + contribution(
            bank,
            placements.last(),
            channel,
            frame,
        )
    }
}

/// The nearest whole number to a fraction over [`GAIN_SCALE`], halves going away
/// from zero.
pub open spec fn nearest(total: int) -> int {
    if total >= 0 {
        (total + 0x8000) / 0x1_0000
    } else {
        -((0x8000 - total) / 0x1_0000)
    }
}

/// A mixed frame on the grid of a format.
pub open spec fn snapped(total: int, format: SampleFormat) -> i64 {
    if nearest(total) < format.low() {
        format.low() as i64
    } else if nearest(total) > format.high() {
        format.high() as i64
    } else {
        nearest(total) as i64
    }
}

/// A bank rendered through its placements.
pub open spec fn rendered(
    format: SampleFormat,
    channels: nat,
    frames: nat,
    bank: Seq<Seq<i64>>,
    placements: Seq<Placement>,
) -> Seq<Seq<i64>> {
    Seq::new(
        channels,
        |c: int| Seq::new(frames, |f: int| snapped(mixed(bank, placements, c, f), format)),
    )
}

/// The waveforms of a bank on an integer grid.
pub open spec fn waves(samples: Seq<Sample>, format: SampleFormat) -> Seq<Seq<i64>> {
    Seq::new(samples.len(), |i: int| gridded(samples[i].waveform@, format)[0])
}

/// Whether the waveforms of a bank are mono and lie on the grid of a format,
/// within a word of 32 bits and its sign.
pub open spec fn on_grid(samples: Seq<Sample>, format: SampleFormat) -> bool {
    &&& !format.spec_is_float()
    &&& forall|i: int|
        0 <= i < samples.len() ==> {
            &&& takeable((#[trigger] samples[i]).waveform, format)
            &&& lies_on(samples[i].waveform@, format)
            &&& samples[i].waveform@.channels.len() == 1
            &&& within_word(gridded(samples[i].waveform@, format)[0])
        }
}

/// Whether codes lie within a word of 32 bits and its sign.
pub open spec fn within_word(codes: Seq<i64>) -> bool {
    forall|j: int|
        0 <= j < codes.len() ==> -0x1_0000_0000 <= #[trigger] codes[j] <= 0x1_0000_0000
}

/// How many placements a rendering takes at most.
pub const MOST_PLACEMENTS: usize = 0x4000_0000;

/// How much a number of placements can come to.
pub open spec fn reach(count: nat) -> int {
    count as int * 0x8000_0000_0000_0000_0000_0000
}

/// A placement comes to no more than a gain times a code.
proof fn lemma_share_bound(wave: Seq<i64>, start: int, numerator: i64, frame: int)
    requires
        within_word(wave),
    ensures
        -reach(1) <= share(wave, start, numerator as int, frame) <= reach(1),
{
    if 0 <= frame - start < wave.len() {
        let code = wave[frame - start] as int;
        assert(-0x1_0000_0000 <= code <= 0x1_0000_0000);
        assert(-0x8000_0000_0000_0000_0000_0000 <= numerator as int * code
            <= 0x8000_0000_0000_0000_0000_0000) by (nonlinear_arith)
            requires
                -0x8000_0000_0000_0000 <= numerator <= 0x7FFF_FFFF_FFFF_FFFF,
                -0x1_0000_0000 <= code <= 0x1_0000_0000,
        ;
    }
}

/// Placements come to no more than their number allows.
proof fn lemma_mixed_bound(
    bank: Seq<Seq<i64>>,
    placements: Seq<Placement>,
    channel: int,
    frame: int,
)
    requires
        forall|i: int| 0 <= i < bank.len() ==> within_word(#[trigger] bank[i]),
    ensures
        -reach(placements.len()) <= mixed(bank, placements, channel, frame) <= reach(
            placements.len(),
        ),
    decreases placements.len(),
{
    if placements.len() > 0 {
        let placement = placements.last();
        lemma_mixed_bound(bank, placements.drop_last(), channel, frame);
        if placement.sample < bank.len() && placement.channel == channel {
            assert(within_word(bank[placement.sample as int]));
            lemma_share_bound(
                bank[placement.sample as int],
                placement.start as int,
                placement.gain.over_scale(),
                frame,
            );
        }
        assert(reach(placements.len()) == reach(placements.drop_last().len()) + reach(1));
    }
}

/// Adds a scaled waveform into a line of mixed frames, ignoring the part that
/// falls outside it.
fn mix_in(line: &mut Vec<i128>, wave: &Vec<i64>, start: i64, numerator: i64, limit: Ghost<int>)
    requires
        within_word(wave@),
        0 <= limit@ <= 0x4000_0000 * 0x8000_0000_0000_0000_0000_0000,
        forall|f: int| 0 <= f < old(line)@.len() ==> -limit@ <= #[trigger] old(line)@[f] <= limit@,
    ensures
        final(line)@.len() == old(line)@.len(),
        forall|f: int|
            0 <= f < old(line)@.len() ==> #[trigger] final(line)@[f] == old(line)@[f] + share(
                wave@,
                start as int,
                numerator as int,
                f,
            ),
{
    let count: usize = line.len();
    let length: usize = wave.len();
    let frames: i128 = count as i128;
    let ghost before = line@;
    let from: i128 = if start > 0 {
        start as i128
    } else {
        0
    };
    let wide: i128 = start as i128 + length as i128;
    let to: i128 = if wide < frames {
        wide
    } else {
        frames
    };
    let mut frame: i128 = from;
    while frame < to
        invariant
            line@.len() == before.len(),
            frames == before.len(),
            frames == count,
            length == wave@.len(),
            0 <= from,
            from == (if start > 0 {
                start as int
            } else {
                0
            }),
            from <= frame,
            frame <= to || frame == from,
            to <= frames,
            to <= start + wave@.len(),
            within_word(wave@),
            0 <= limit@ <= 0x4000_0000 * 0x8000_0000_0000_0000_0000_0000,
            forall|f: int| 0 <= f < before.len() ==> -limit@ <= #[trigger] before[f] <= limit@,
            forall|f: int| from <= f < frame && f < to ==> #[trigger] line@[f] == before[f] + share(
                wave@,
                start as int,
                numerator as int,
                f,
            ),
            forall|f: int|
                0 <= f < before.len() && !(from <= f < frame) ==> #[trigger] line@[f] == before[f],
        decreases to - frame,
    {
        let position: usize = frame as usize;
        let offset: usize = (frame - start as i128) as usize;
        proof {
            lemma_share_bound(wave@, start as int, numerator, frame as int);
            assert(wave@[offset as int] == wave@[frame - start]);
            assert(-limit@ <= before[frame as int] <= limit@);
            assert(line@[frame as int] == before[frame as int]);
            assert(-0x1_0000_0000 <= wave@[offset as int] <= 0x1_0000_0000);
        }
        let code: i64 = wave[offset];
        assert(-0x8000_0000_0000_0000_0000_0000 <= numerator as int * code as int
            <= 0x8000_0000_0000_0000_0000_0000) by (nonlinear_arith)
            requires
                -0x8000_0000_0000_0000 <= numerator <= 0x7FFF_FFFF_FFFF_FFFF,
                -0x1_0000_0000 <= code <= 0x1_0000_0000,
        ;
        let scaled: i128 = numerator as i128 * code as i128;
        line[position] = line[position] + scaled;
        frame = frame + 1;
    }
}

/// Brings a mixed frame onto the grid of a format.
fn snap(total: i128, low: i64, high: i64, format: Ghost<SampleFormat>) -> (code: i64)
    requires
        -0x2000_0000_0000_0000_0000_0000_0000_0000 <= total
            <= 0x2000_0000_0000_0000_0000_0000_0000_0000,
        low == format@.low(),
        high == format@.high(),
        low <= high,
    ensures
        code == snapped(total as int, format@),
{
    let whole: i128 = if total >= 0 {
        (total + 0x8000) / 0x1_0000
    } else {
        -((0x8000 - total) / 0x1_0000)
    };
    if whole < low as i128 {
        low
    } else if whole > high as i128 {
        high
    } else {
        whole as i64
    }
}

/// The waveforms of a bank on its grid.
fn bank_codes(samples: &Vec<Sample>, format: SampleFormat) -> (bank: Vec<Vec<i64>>)
    requires
        on_grid(samples@, format),
    ensures
        planes(bank@) == waves(samples@, format),
        forall|i: int| 0 <= i < bank@.len() ==> within_word((#[trigger] bank@[i])@),
{
    let mut bank: Vec<Vec<i64>> = Vec::new();
    while bank.len() < samples.len()
        invariant
            on_grid(samples@, format),
            bank@.len() <= samples@.len(),
            forall|i: int|
                0 <= i < bank@.len() ==> within_word((#[trigger] bank@[i])@) && bank@[i]@ == waves(
                    samples@,
                    format,
                )[i],
        decreases samples@.len() - bank@.len(),
    {
        let grid = taken_to(&samples[bank.len()].waveform, format);
        bank.push(grid.channel(0).clone());
    }
    assert(planes(bank@) =~= waves(samples@, format));
    bank
}

/// Renders one channel of a bank.
fn render_channel(
    format: SampleFormat,
    frames: usize,
    bank: &Vec<Vec<i64>>,
    placements: &Vec<Placement>,
    channel: usize,
) -> (codes: Vec<i64>)
    requires
        !format.spec_is_float(),
        forall|i: int| 0 <= i < bank@.len() ==> within_word((#[trigger] bank@[i])@),
        placements@.len() <= MOST_PLACEMENTS,
    ensures
        codes@ == Seq::new(
            frames as nat,
            |f: int| snapped(mixed(planes(bank@), placements@, channel as int, f), format),
        ),
{
    let ghost waves = planes(bank@);
    let mut line: Vec<i128> = Vec::new();
    while line.len() < frames
        invariant
            line@.len() <= frames,
            forall|f: int| 0 <= f < line@.len() ==> line@[f] == 0,
        decreases frames - line@.len(),
    {
        line.push(0);
    }
    proof {
        assert forall|i: int| 0 <= i < waves.len() implies within_word(#[trigger] waves[i]) by {
            assert(within_word(bank@[i]@));
        }
        assert(placements@.take(0) =~= Seq::<Placement>::empty());
    }
    let mut index: usize = 0;
    while index < placements.len()
        invariant
            index <= placements@.len() <= MOST_PLACEMENTS,
            waves == planes(bank@),
            forall|i: int| 0 <= i < waves.len() ==> within_word(#[trigger] waves[i]),
            line@.len() == frames,
            forall|f: int|
                0 <= f < frames ==> #[trigger] line@[f] == mixed(
                    waves,
                    placements@.take(index as int),
                    channel as int,
                    f,
                ),
        decreases placements@.len() - index,
    {
        let placement: Placement = placements[index];
        let ghost before = line@;
        let ghost taken = placements@.take(index as int);
        let ghost limit = reach(taken.len());
        proof {
            assert(placements@.take(index + 1).drop_last() =~= taken);
            assert forall|f: int| 0 <= f < line@.len() implies -limit <= #[trigger] line@[f]
                <= limit by {
                lemma_mixed_bound(waves, taken, channel as int, f);
            }
        }
        if placement.sample < bank.len() && placement.channel == channel
            && !placement.gain.is_silent() {
            let wave = &bank[placement.sample];
            assert(waves[placement.sample as int] == wave@);
            assert(within_word(waves[placement.sample as int]));
            mix_in(
                &mut line,
                wave,
                placement.start,
                placement.gain.numerator(),
                Ghost(limit),
            );
        }
        assert forall|f: int| 0 <= f < frames implies #[trigger] line@[f] == mixed(
            waves,
            placements@.take(index + 1),
            channel as int,
            f,
        ) by {
            assert(before[f] == mixed(waves, taken, channel as int, f));
            if placement.gain.over_scale() == 0 {
                lemma_silent(waves, placement, channel as int, f);
            }
        }
        index = index + 1;
    }
    assert(placements@.take(index as int) =~= placements@);
    let (low, high): (i64, i64) = match format.code_range() {
        Some(range) => range,
        None => (0, 0),
    };
    let mut codes: Vec<i64> = Vec::new();
    while codes.len() < line.len()
        invariant
            line@.len() == frames,
            codes@.len() <= frames,
            placements@.len() <= MOST_PLACEMENTS,
            forall|i: int| 0 <= i < waves.len() ==> within_word(#[trigger] waves[i]),
            low == format.low(),
            high == format.high(),
            low <= high,
            forall|f: int|
                0 <= f < frames ==> #[trigger] line@[f] == mixed(
                    waves,
                    placements@,
                    channel as int,
                    f,
                ),
            forall|f: int|
                0 <= f < codes@.len() ==> #[trigger] codes@[f] == snapped(
                    mixed(waves, placements@, channel as int, f),
                    format,
                ),
        decreases frames - codes@.len(),
    {
        let frame: usize = codes.len();
        proof {
            lemma_mixed_bound(waves, placements@, channel as int, frame as int);
        }
        codes.push(snap(line[frame], low, high, Ghost(format)));
    }
    assert(codes@ =~= Seq::new(
        frames as nat,
        |f: int| snapped(mixed(planes(bank@), placements@, channel as int, f), format),
    ));
    codes
}

/// A silent placement adds nothing.
proof fn lemma_silent(bank: Seq<Seq<i64>>, placement: Placement, channel: int, frame: int)
    requires
        placement.gain.over_scale() == 0,
    ensures
        contribution(bank, placement, channel, frame) == 0,
{
}

/// Renders a bank through its placements into a buffer shaped like `source`.
///
/// The waveforms lie on the grid of the source, in whatever format, so that the mix is a whole
/// number of steps over [`GAIN_SCALE`] and is exact until it is snapped to the
/// grid, halves going away from zero.
pub fn render(source: &SourceInfo, samples: &Vec<Sample>, placements: &Vec<Placement>) -> (audio:
    Audio)
    requires
        on_grid(samples@, source.format),
        placements@.len() <= MOST_PLACEMENTS,
    ensures
        audio.wf(),
        audio@ == (Sound {
            sample_rate: source.sample_rate,
            format: source.format,
            channels: rendered(
                source.format,
                source.channels as nat,
                source.frames as nat,
                waves(samples@, source.format),
                placements@,
            ),
        }),
{
    let ghost goal = rendered(
        source.format,
        source.channels as nat,
        source.frames as nat,
        waves(samples@, source.format),
        placements@,
    );
    let bank = bank_codes(samples, source.format);
    let mut channels: Vec<Vec<i64>> = Vec::new();
    while channels.len() < source.channels
        invariant
            channels@.len() <= source.channels,
            !source.format.spec_is_float(),
            planes(bank@) == waves(samples@, source.format),
            forall|i: int| 0 <= i < bank@.len() ==> within_word((#[trigger] bank@[i])@),
            placements@.len() <= MOST_PLACEMENTS,
            goal == rendered(
                source.format,
                source.channels as nat,
                source.frames as nat,
                waves(samples@, source.format),
                placements@,
            ),
            forall|c: int| 0 <= c < channels@.len() ==> (#[trigger] channels@[c])@ == goal[c],
        decreases source.channels - channels@.len(),
    {
        let line = render_channel(
            source.format,
            source.frames,
            &bank,
            placements,
            channels.len(),
        );
        assert(line@ =~= goal[channels@.len() as int]);
        channels.push(line);
    }
    assert(planes(channels@) =~= goal);
    Audio::of_planes(source.sample_rate, source.format, channels)
}

/// Whether codes lie within a distance of zero.
pub open spec fn within(channels: Seq<Seq<i64>>, bound: int) -> bool {
    forall|c: int, f: int|
        0 <= c < channels.len() && 0 <= f < channels[c].len() ==> -bound
            <= #[trigger] channels[c][f] <= bound
}

/// How far from zero the codes of a recording and of what is derived from it
/// may lie.
pub const FAR: i64 = 0x100_0000_0000;

/// Codes with others added where the two overlap.
pub open spec fn overlaid(base: Seq<Seq<i64>>, other: Seq<Seq<i64>>) -> Seq<Seq<i64>> {
    Seq::new(
        base.len(),
        |c: int|
            Seq::new(
                base[c].len(),
                |f: int|
                    if c < other.len() && f < other[c].len() {
                        (base[c][f] + other[c][f]) as i64
                    } else {
                        base[c][f]
                    },
            ),
    )
}

/// Adds `other` into `audio`, ignoring any part that does not overlap.
fn overlay(audio: &Audio, other: &Audio, reach: Ghost<int>, step: Ghost<int>) -> (sum: Audio)
    requires
        audio.wf(),
        other.wf(),
        within(audio@.channels, reach@),
        within(other@.channels, step@),
        0 <= reach@,
        0 <= step@,
        reach@ + step@ <= i64::MAX,
    ensures
        sum.wf(),
        sum@ == (Sound {
            sample_rate: audio@.sample_rate,
            format: audio@.format,
            channels: overlaid(audio@.channels, other@.channels),
        }),
        within(sum@.channels, reach@ + step@),
{
    let ghost goal = overlaid(audio@.channels, other@.channels);
    let mut sums: Vec<Vec<i64>> = Vec::new();
    while sums.len() < audio.channel_count()
        invariant
            sums@.len() <= audio@.channels.len(),
            audio.wf(),
            other.wf(),
            within(audio@.channels, reach@),
            within(other@.channels, step@),
            0 <= reach@,
            0 <= step@,
            reach@ + step@ <= i64::MAX,
            goal == overlaid(audio@.channels, other@.channels),
            forall|c: int| 0 <= c < sums@.len() ==> (#[trigger] sums@[c])@ == goal[c],
        decreases audio@.channels.len() - sums@.len(),
    {
        let index: usize = sums.len();
        let mine = audio.channel(index);
        let mut line: Vec<i64> = Vec::new();
        let shared: bool = index < other.channel_count();
        while line.len() < mine.len()
            invariant
                line@.len() <= mine@.len(),
                index < audio@.channels.len(),
                mine@ == audio@.channels[index as int],
                shared == (index < other@.channels.len()),
                other.wf(),
                within(audio@.channels, reach@),
                within(other@.channels, step@),
                0 <= reach@,
                0 <= step@,
                reach@ + step@ <= i64::MAX,
                goal == overlaid(audio@.channels, other@.channels),
                forall|f: int|
                    0 <= f < line@.len() ==> #[trigger] line@[f] == goal[index as int][f],
            decreases mine@.len() - line@.len(),
        {
            let frame: usize = line.len();
            let base: i64 = mine[frame];
            assert(-reach@ <= audio@.channels[index as int][frame as int] <= reach@);
            if shared && frame < other.channel(index).len() {
                assert(-step@ <= other@.channels[index as int][frame as int] <= step@);
                line.push(base + other.channel(index)[frame]);
            } else {
                line.push(base);
            }
        }
        assert(line@ =~= goal[index as int]);
        sums.push(line);
    }
    proof {
        assert(planes(sums@) =~= goal);
        assert forall|c: int| 0 <= c < goal.len() implies (#[trigger] goal[c]).len()
            == goal[0].len() by {
            assert(audio@.channels[c].len() == audio@.frames());
            assert(audio@.channels[0].len() == audio@.frames());
        }
        assert forall|c: int, f: int| 0 <= c < goal.len() && 0 <= f < goal[c].len() implies -(
        reach@ + step@) <= #[trigger] goal[c][f] <= reach@ + step@ by {
            assert(-reach@ <= audio@.channels[c][f] <= reach@);
            if c < other@.channels.len() && f < other@.channels[c].len() {
                assert(-step@ <= other@.channels[c][f] <= step@);
            }
        }
    }
    Audio::of_planes(audio.sample_rate(), audio.format(), sums)
}

/// The stems of a recording added up on an integer grid, on top of silence.
pub open spec fn stacked(base: Seq<Seq<i64>>, stems: Seq<Stem>, format: SampleFormat) -> Seq<
    Seq<i64>,
>
    decreases stems.len(),
{
    if stems.len() == 0 {
        base
    } else {
        overlaid(
            stacked(base, stems.drop_last(), format),
            gridded(stems.last().audio@, format),
        )
    }
}

/// Whether a buffer lies on an integer grid, near enough to zero to be added.
pub open spec fn addable(audio: Audio, format: SampleFormat) -> bool {
    &&& takeable(audio, format)
    &&& lies_on(audio@, format)
    &&& within(gridded(audio@, format), FAR as int)
}

/// How many frames a bank holds.
pub open spec fn bank_length(samples: Seq<Sample>) -> nat
    decreases samples.len(),
{
    if samples.len() == 0 {
        0
    } else {
        bank_length(samples.drop_last()) + samples.last().waveform@.frames()
    }
}

/// How many frames placements cover.
pub open spec fn covered_length(samples: Seq<Sample>, placements: Seq<Placement>) -> nat
    decreases placements.len(),
{
    if placements.len() == 0 {
        0
    } else {
        covered_length(samples, placements.drop_last()) + if placements.last().sample
            < samples.len() {
            samples[placements.last().sample as int].waveform@.frames()
        } else {
            0
        }
    }
}

/// The placements of one bank sample.
pub open spec fn uses_of(placements: Seq<Placement>, sample: usize) -> Seq<Placement>
    decreases placements.len(),
{
    if placements.len() == 0 {
        Seq::empty()
    } else if placements.last().sample == sample {
        uses_of(placements.drop_last(), sample).push(placements.last())
    } else {
        uses_of(placements.drop_last(), sample)
    }
}

impl Decomposition {
    /// Whether everything lies on the grid of the source, an integer one.
    pub open spec fn exact(&self) -> bool {
        &&& on_grid(self.samples@, self.source.format)
        &&& self.placements@.len() <= MOST_PLACEMENTS
        &&& self.settled()
    }

    /// Whether what a rendering leaves over lies on the grid of the source, an
    /// integer one, in whatever format it is held.
    pub open spec fn settled(&self) -> bool {
        &&& !self.source.format.spec_is_float()
        &&& addable(self.residual, self.source.format)
        &&& self.correction matches Some(correction) ==> addable(correction, self.source.format)
    }

    /// The bank rendered through its placements.
    pub open spec fn rendering(&self) -> Seq<Seq<i64>> {
        rendered(
            self.source.format,
            self.source.channels as nat,
            self.source.frames as nat,
            waves(self.samples@, self.source.format),
            self.placements@,
        )
    }

    /// The recording that comes of a rendering of the bank, the residual and the
    /// correction.
    pub open spec fn restored_from(&self, rendering: Seq<Seq<i64>>) -> Sound {
        let format = self.source.format;
        let summed = overlaid(rendering, gridded(self.residual@, format));
        Sound {
            sample_rate: self.source.sample_rate,
            format,
            channels: match self.correction {
                Some(correction) => overlaid(summed, gridded(correction@, format)),
                None => summed,
            },
        }
    }

    /// The recording that comes of the bank as it is rendered.
    pub open spec fn restored(&self) -> Sound {
        self.restored_from(self.rendering())
    }

    /// Renders the bank through its placements.
    ///
    /// This is the deterministic half of the round trip: given the same bank,
    /// the same placements and the same source description, it produces exactly
    /// the same samples on every platform, which is what lets the residual be
    /// an exact difference.
    pub fn render(&self) -> (audio: Audio)
        requires
            on_grid(self.samples@, self.source.format),
            self.placements@.len() <= MOST_PLACEMENTS,
        ensures
            audio.wf(),
            audio@ == (Sound {
                sample_rate: self.source.sample_rate,
                format: self.source.format,
                channels: self.rendering(),
            }),
    {
        render(&self.source, &self.samples, &self.placements)
    }

    /// Rebuilds the recording.
    pub fn reconstruct(&self) -> (audio: Audio)
        requires
            self.exact(),
        ensures
            audio.wf(),
            audio@ == self.restored(),
    {
        let rendered = self.render();
        proof {
            lemma_rendering_within(*self);
        }
        self.reconstruct_from(&rendered)
    }

    /// Rebuilds the recording from a rendering of its bank. A bank whose waveforms
    /// do not lie on the grid is rendered in floating point and brought onto it;
    /// from there on nothing rounds.
    pub fn reconstruct_from(&self, rendered: &Audio) -> (audio: Audio)
        requires
            self.settled(),
            rendered.wf(),
            rendered@.sample_rate == self.source.sample_rate,
            rendered@.format == self.source.format,
            within(rendered@.channels, 0x8000_0000),
        ensures
            audio.wf(),
            audio@ == self.restored_from(rendered@.channels),
    {
        let residual = taken_to(&self.residual, self.source.format);
        let summed = overlay(rendered, &residual, Ghost(0x8000_0000), Ghost(FAR as int));
        match &self.correction {
            Some(correction) => {
                let correction = taken_to(correction, self.source.format);
                overlay(
                    &summed,
                    &correction,
                    Ghost(0x8000_0000 + FAR as int),
                    Ghost(FAR as int),
                )
            },
            None => summed,
        }
    }

    /// Sum of the stems, which reproduces the recording exactly.
    pub fn stem_sum(&self) -> (audio: Audio)
        requires
            !self.source.format.spec_is_float(),
            self.stems@.len() <= 0x10_0000,
            forall|i: int|
                0 <= i < self.stems@.len() ==> addable(
                    (#[trigger] self.stems@[i]).audio,
                    self.source.format,
                ),
        ensures
            audio.wf(),
            audio@.sample_rate == self.source.sample_rate,
            audio@.format == self.source.format,
            audio@.channels == stacked(
                quiet(
                    self.source.sample_rate,
                    self.source.format,
                    self.source.channels as nat,
                    self.source.frames as nat,
                ).channels,
                self.stems@,
                self.source.format,
            ),
    {
        let mut audio = self.source.silence();
        let ghost base = audio@.channels;
        let mut index: usize = 0;
        assert(self.stems@.take(0) =~= Seq::<Stem>::empty());
        while index < self.stems.len()
            invariant
                !self.source.format.spec_is_float(),
                index <= self.stems@.len() <= 0x10_0000,
                forall|i: int|
                    0 <= i < self.stems@.len() ==> addable(
                        (#[trigger] self.stems@[i]).audio,
                        self.source.format,
                    ),
                audio.wf(),
                audio@.sample_rate == self.source.sample_rate,
                audio@.format == self.source.format,
                audio@.channels == stacked(
                    base,
                    self.stems@.take(index as int),
                    self.source.format,
                ),
                within(audio@.channels, index * FAR),
            decreases self.stems@.len() - index,
        {
            assert(self.stems@.take(index + 1).drop_last() =~= self.stems@.take(index as int));
            assert(addable(self.stems@[index as int].audio, self.source.format));
            let grid = taken_to(&self.stems[index].audio, self.source.format);
            audio = overlay(&audio, &grid, Ghost(index * FAR), Ghost(FAR as int));
            index = index + 1;
        }
        assert(self.stems@.take(index as int) =~= self.stems@);
        audio
    }

    /// A bank sample by its identifier.
    pub fn sample(&self, id: usize) -> (sample: Option<&Sample>)
        ensures
            match sample {
                Some(found) => id < self.samples@.len() && *found == self.samples@[id as int],
                None => id >= self.samples@.len(),
            },
    {
        if id < self.samples.len() {
            Some(&self.samples[id])
        } else {
            None
        }
    }

    /// Every placement of one bank sample.
    pub fn placements_of(&self, sample: usize) -> (uses: Vec<Placement>)
        ensures
            uses@ == uses_of(self.placements@, sample),
    {
        let mut uses: Vec<Placement> = Vec::new();
        let mut index: usize = 0;
        assert(self.placements@.take(0) =~= Seq::<Placement>::empty());
        while index < self.placements.len()
            invariant
                index <= self.placements@.len(),
                uses@ == uses_of(self.placements@.take(index as int), sample),
            decreases self.placements@.len() - index,
        {
            assert(self.placements@.take(index + 1).drop_last() =~= self.placements@.take(
                index as int,
            ));
            if self.placements[index].sample == sample {
                uses.push(self.placements[index]);
            }
            index = index + 1;
        }
        assert(self.placements@.take(index as int) =~= self.placements@);
        uses
    }

    /// How many frames the bank holds in total, against how many frames the
    /// placements cover. The ratio is what deduplication saved.
    pub fn bank_frames(&self) -> (counts: (usize, usize))
        requires
            bank_length(self.samples@) <= usize::MAX,
            covered_length(self.samples@, self.placements@) <= usize::MAX,
        ensures
            counts.0 == bank_length(self.samples@),
            counts.1 == covered_length(self.samples@, self.placements@),
    {
        let mut stored: usize = 0;
        let mut index: usize = 0;
        assert(self.samples@.take(0) =~= Seq::<Sample>::empty());
        while index < self.samples.len()
            invariant
                index <= self.samples@.len(),
                bank_length(self.samples@) <= usize::MAX,
                stored == bank_length(self.samples@.take(index as int)),
            decreases self.samples@.len() - index,
        {
            proof {
                assert(self.samples@.take(index + 1).drop_last() =~= self.samples@.take(
                    index as int,
                ));
                lemma_bank_grows(self.samples@, index + 1);
            }
            stored = stored + self.samples[index].len();
            index = index + 1;
        }
        assert(self.samples@.take(index as int) =~= self.samples@);
        let mut covered: usize = 0;
        index = 0;
        assert(self.placements@.take(0) =~= Seq::<Placement>::empty());
        while index < self.placements.len()
            invariant
                index <= self.placements@.len(),
                covered_length(self.samples@, self.placements@) <= usize::MAX,
                covered == covered_length(self.samples@, self.placements@.take(index as int)),
            decreases self.placements@.len() - index,
        {
            proof {
                assert(self.placements@.take(index + 1).drop_last() =~= self.placements@.take(
                    index as int,
                ));
                lemma_cover_grows(self.samples@, self.placements@, index + 1);
            }
            match self.sample(self.placements[index].sample) {
                Some(sample) => {
                    covered = covered + sample.len();
                },
                None => {},
            }
            index = index + 1;
        }
        assert(self.placements@.take(index as int) =~= self.placements@);
        (stored, covered)
    }
}

/// Part of a bank holds no more than the whole.
proof fn lemma_bank_grows(samples: Seq<Sample>, count: int)
    requires
        0 <= count <= samples.len(),
    ensures
        bank_length(samples.take(count)) <= bank_length(samples),
    decreases samples.len(),
{
    if count < samples.len() {
        lemma_bank_grows(samples.drop_last(), count);
        assert(samples.drop_last().take(count) =~= samples.take(count));
    } else {
        assert(samples.take(count) =~= samples);
    }
}

/// Some of the placements cover no more than all of them.
proof fn lemma_cover_grows(samples: Seq<Sample>, placements: Seq<Placement>, count: int)
    requires
        0 <= count <= placements.len(),
    ensures
        covered_length(samples, placements.take(count)) <= covered_length(samples, placements),
    decreases placements.len(),
{
    if count < placements.len() {
        lemma_cover_grows(samples, placements.drop_last(), count);
        assert(placements.drop_last().take(count) =~= placements.take(count));
    } else {
        assert(placements.take(count) =~= placements);
    }
}

/// A rendering lies in the range of the source's format.
pub proof fn lemma_rendering_within(decomposition: Decomposition)
    requires
        !decomposition.source.format.spec_is_float(),
    ensures
        within(decomposition.rendering(), 0x8000_0000),
{
    let channels = decomposition.rendering();
    let format = decomposition.source.format;
    assert forall|c: int, f: int| 0 <= c < channels.len() && 0 <= f < channels[c].len() implies
        -0x8000_0000 <= #[trigger] channels[c][f] <= 0x8000_0000 by {
        assert(-0x8000_0000 <= format.low() <= format.high() <= 0x8000_0000);
    }
}

/// A buffer laid over another adds to it frame by frame as far as it reaches, and
/// leaves the rest.
pub proof fn law_overlays_add_where_they_reach(
    base: Seq<Seq<i64>>,
    other: Seq<Seq<i64>>,
    channel: int,
    frame: int,
)
    requires
        0 <= channel < base.len(),
        0 <= frame < base[channel].len(),
        within(base, FAR as int),
        within(other, FAR as int),
    ensures
        overlaid(base, other).len() == base.len(),
        overlaid(base, other)[channel].len() == base[channel].len(),
        overlaid(base, other)[channel][frame] - base[channel][frame] == (if channel < other.len()
            && frame < other[channel].len() {
            other[channel][frame] as int
        } else {
            0
        }),
{
    assert(-FAR <= base[channel][frame] <= FAR);
    if channel < other.len() && frame < other[channel].len() {
        assert(-FAR <= other[channel][frame] <= FAR);
    }
}

/// The lengths of two banks add up to that of both, and so does what two lists of
/// placements cover; a placement of no sample covers nothing.
pub proof fn law_lengths_add_up(
    first: Seq<Sample>,
    second: Seq<Sample>,
    placements: Seq<Placement>,
    more: Seq<Placement>,
)
    ensures
        bank_length(first + second) == bank_length(first) + bank_length(second),
        covered_length(first, placements + more) == covered_length(first, placements)
            + covered_length(first, more),
        covered_length(Seq::empty(), placements) == 0,
    decreases second.len() + more.len() + placements.len(),
{
    if second.len() > 0 {
        law_lengths_add_up(first, second.drop_last(), placements, more);
        assert((first + second).drop_last() =~= first + second.drop_last());
        assert((first + second).last() == second.last());
    } else {
        assert(first + second =~= first);
        if more.len() > 0 {
            law_lengths_add_up(first, second, placements, more.drop_last());
            assert((placements + more).drop_last() =~= placements + more.drop_last());
            assert((placements + more).last() == more.last());
        } else {
            assert(placements + more =~= placements);
            if placements.len() > 0 {
                law_lengths_add_up(first, second, placements.drop_last(), more);
                assert(placements.drop_last() + more =~= placements.drop_last());
            }
        }
    }
}

/// A single sample is as long as its waveform, and a placement covers as much as
/// the sample it names.
pub proof fn law_one_placement_covers_its_sample(samples: Seq<Sample>, placement: Placement)
    requires
        placement.sample < samples.len(),
    ensures
        covered_length(samples, seq![placement]) == samples[placement.sample as int]
            .waveform@.frames(),
        bank_length(seq![samples[placement.sample as int]]) == samples[placement.sample as int]
            .waveform@.frames(),
{
    let sample = samples[placement.sample as int];
    assert(seq![placement].drop_last() =~= Seq::<Placement>::empty());
    assert(covered_length(samples, Seq::<Placement>::empty()) == 0);
    assert(seq![sample].drop_last() =~= Seq::<Sample>::empty());
    assert(bank_length(Seq::<Sample>::empty()) == 0);
}

/// The uses of a sample are the placements that name it, all of them and in their
/// order.
pub proof fn law_uses_are_the_placements_that_name_it(
    placements: Seq<Placement>,
    placement: Placement,
    sample: usize,
)
    ensures
        uses_of(placements, sample).contains(placement) <==> placements.contains(placement)
            && placement.sample == sample,
        uses_of(placements.push(placement), sample) == (if placement.sample == sample {
            uses_of(placements, sample).push(placement)
        } else {
            uses_of(placements, sample)
        }),
    decreases placements.len(),
{
    assert(placements.push(placement).drop_last() =~= placements);
    if placements.len() > 0 {
        let front = placements.drop_last();
        let before = uses_of(front, sample);
        let all = uses_of(placements, sample);
        law_uses_are_the_placements_that_name_it(front, placement, sample);
        if front.contains(placement) {
            let k = choose|k: int| 0 <= k < front.len() && front[k] == placement;
            assert(placements[k] == placement);
        }
        if placements.contains(placement) && !front.contains(placement) {
            let k = choose|k: int| 0 <= k < placements.len() && placements[k] == placement;
            if k < front.len() {
                assert(front[k] == placement);
            }
            assert(placements.last() == placement);
        }
        if before.contains(placement) {
            let k = choose|k: int| 0 <= k < before.len() && before[k] == placement;
            assert(all[k] == placement);
        }
        if all.contains(placement) && !before.contains(placement) {
            let k = choose|k: int| 0 <= k < all.len() && all[k] == placement;
            if k < before.len() {
                assert(before[k] == placement);
            }
            assert(placements[placements.len() - 1] == placement);
        }
        if placements.last().sample == sample {
            assert(all[all.len() - 1] == placements.last());
        }
    }
}

} // verus!
