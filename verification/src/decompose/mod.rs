//! Taking a recording apart.
//!
//! The decomposer runs a matching pursuit over the recording. It cuts the
//! timeline into events, walks them in time order, and for each one asks
//! whether some waveform it has already stored can be subtracted at some
//! position to remove it. When one can, the event costs a reference; when none
//! can, the event's audio — as it stands *after* every earlier subtraction —
//! becomes a new entry in the bank. Either way the audio is subtracted from the
//! working signal, so later events are matched against what is genuinely left.
//!
//! The pursuit is only an analysis. The reconstruction is defined by
//! [`Decomposition::render`] alone, and the residual is computed against that
//! rendering at the very end:
//!
//! ```text
//! residual = original - render(bank, placements)
//! ```
//!
//! so however well or badly the matching does, adding the residual back
//! restores the recording. For integer PCM sources it restores it sample for
//! sample.

pub mod dedup;
pub mod events;
pub mod matching;
pub mod mixing;
pub mod model;
pub mod notes;
pub mod pursuit;

use vstd::prelude::*;

use crate::audio::float::{limited, LIMIT};
use crate::audio::grid::{gridded, law_stored_buffers_keep_their_samples, stored, stored_as};
use crate::audio::{
    channels_fault, difference_of, incompatibility, roomy, sum_of, Audio, SampleFormat, Sound,
};
use crate::error::{Error, Fault};
use crate::number::Number;

use model::{
    addable, overlaid, quiet, stacked, within, Decomposition, Note, Origin, Placement, Sample,
    SourceInfo, Stem, FAR, MOST_PLACEMENTS,
};
use pursuit::{law_placements_name_stored_waveforms, name_of, sample_name, Pursuit};

verus! {

/// Which parts a recording is split into before deduplication.
#[derive(Clone, Copy, Debug, Default, PartialEq, Eq, Structural)]
pub enum StemMode {
    /// Keep the recording whole.
    Whole,
    /// Split it into a harmonic and a percussive part, plus the correction
    /// that makes the two sum back exactly.
    #[default]
    HarmonicPercussive,
}

/// How far from zero the codes of a recording may lie.
pub const NEAR: i64 = 0x40_0000_0000;

/// Codes within reach of zero can be added and subtracted.
proof fn lemma_roomy(channels: Seq<Seq<i64>>, bound: int)
    requires
        within(channels, bound),
        bound <= FAR,
    ensures
        roomy(channels),
{
    assert forall|i: int, j: int|
        0 <= i < channels.len() && 0 <= j < channels[i].len() implies -0x4000_0000_0000_0000
        <= #[trigger] channels[i][j] <= 0x3FFF_FFFF_FFFF_FFFF by {
        assert(-bound <= channels[i][j] <= bound);
    }
}

/// Codes within reach of zero can be held as floats.
proof fn lemma_limited(channels: Seq<Seq<i64>>)
    requires
        within(channels, FAR as int),
    ensures
        limited(channels),
{
    assert forall|i: int, j: int|
        0 <= i < channels.len() && 0 <= j < channels[i].len() implies -LIMIT
        < #[trigger] channels[i][j] < LIMIT by {
        assert(-FAR <= channels[i][j] <= FAR);
    }
}

/// The difference of two recordings lies within the reach of both.
proof fn lemma_difference_within(
    first: Seq<Seq<i64>>,
    second: Seq<Seq<i64>>,
    one: int,
    other: int,
)
    requires
        within(first, one),
        within(second, other),
        one + other <= FAR,
        first.len() == second.len(),
        forall|i: int| 0 <= i < first.len() ==> (#[trigger] first[i]).len() == second[i].len(),
    ensures
        within(difference_of(first, second), one + other),
{
    let left = difference_of(first, second);
    assert forall|c: int, f: int| 0 <= c < left.len() && 0 <= f < left[c].len() implies -(one
        + other) <= #[trigger] left[c][f] <= one + other by {
        assert(first[c].len() == second[c].len());
        assert(-one <= first[c][f] <= one);
        assert(-other <= second[c][f] <= other);
    }
}

/// Adding a difference back restores what it was taken from.
pub proof fn law_differences_restore(recording: Seq<Seq<i64>>, rendering: Seq<Seq<i64>>)
    requires
        within(recording, NEAR as int),
        within(rendering, NEAR as int),
        recording.len() == rendering.len(),
        forall|i: int|
            0 <= i < recording.len() ==> (#[trigger] recording[i]).len() == rendering[i].len(),
    ensures
        overlaid(rendering, difference_of(recording, rendering)) == recording,
{
    let residual = difference_of(recording, rendering);
    let back = overlaid(rendering, residual);
    assert forall|c: int| 0 <= c < recording.len() implies back[c] == recording[c] by {
        assert(recording[c].len() == rendering[c].len());
        assert forall|f: int| 0 <= f < recording[c].len() implies back[c][f]
            == recording[c][f] by {
            assert(-NEAR <= recording[c][f] <= NEAR);
            assert(-NEAR <= rendering[c][f] <= NEAR);
        }
        assert(back[c] =~= recording[c]);
    }
    assert(back =~= recording);
}

/// What keeps a decomposition from being closed over a recording, if anything
/// does.
pub open spec fn closing_fault(recording: Sound, rendering: Sound) -> Option<Fault> {
    match incompatibility(recording, rendering) {
        Some(fault) => Some(fault),
        None => channels_fault(
            recording.sample_rate,
            difference_of(recording.channels, rendering.channels),
        ),
    }
}

/// What a rendering leaves of a recording: the difference, held so that nothing of
/// it is rounded.
pub open spec fn left_by(recording: Sound, rendering: Seq<Seq<i64>>) -> Sound {
    stored_as(
        Sound {
            sample_rate: recording.sample_rate,
            format: recording.format,
            channels: difference_of(recording.channels, rendering),
        },
    )
}

/// Whether a decomposition was closed over a recording with a rendering of its
/// bank: its residual is what the rendering leaves over, needs no correction, and
/// restores the recording; nothing else changed.
pub open spec fn closed_over(
    before: Decomposition,
    after: Decomposition,
    recording: Sound,
    rendering: Seq<Seq<i64>>,
) -> bool {
    &&& after.source == before.source
    &&& after.stems == before.stems
    &&& after.samples == before.samples
    &&& after.placements == before.placements
    &&& after.notes == before.notes
    &&& after.correction is None
    &&& after.settled()
    &&& after.residual@ == left_by(recording, rendering)
    &&& after.restored_from(rendering) == recording
}

/// Computes the residual of a recording on an integer grid against a rendering
/// of the bank.
///
/// Sums on that grid do not round, so the residual alone restores the recording
/// and there is nothing left for a correction to absorb. The residual has the
/// format of the recording where that holds it; a difference can be twice as large
/// as any code of it, and is then held as floats.
pub fn close_over(decomposition: &mut Decomposition, rendered: &Audio, audio: &Audio) -> (result:
    Result<(), Error>)
    requires
        audio.wf(),
        rendered.wf(),
        !audio@.format.spec_is_float(),
        audio@.format == old(decomposition).source.format,
        rendered@.format == old(decomposition).source.format,
        rendered@.sample_rate == old(decomposition).source.sample_rate,
        within(audio@.channels, NEAR as int),
        within(rendered@.channels, 0x8000_0000),
        old(decomposition).correction is None,
    ensures
        match closing_fault(audio@, rendered@) {
            Some(fault) => {
                &&& result matches Err(error) && error@ == fault
                &&& *final(decomposition) == *old(decomposition)
            },
            None => {
                &&& result is Ok
                &&& closed_over(
                    *old(decomposition),
                    *final(decomposition),
                    audio@,
                    rendered@.channels,
                )
            },
        },
{
    proof {
        lemma_roomy(audio@.channels, NEAR as int);
        lemma_roomy(rendered@.channels, 0x8000_0000);
    }
    match audio.difference(rendered) {
        Ok(residual) => {
            proof {
                let rendering = rendered@.channels;
                assert forall|i: int| 0 <= i < audio@.channels.len() implies (
                #[trigger] audio@.channels[i]).len() == rendering[i].len() by {
                    assert(audio@.channels[i].len() == audio@.frames());
                    assert(rendered@.channels[i].len() == rendered@.frames());
                }
                lemma_difference_within(audio@.channels, rendering, NEAR as int, 0x8000_0000);
                assert(within(residual@.channels, FAR as int));
                assert(within(rendering, NEAR as int));
                law_differences_restore(audio@.channels, rendering);
                lemma_limited(residual@.channels);
                law_stored_buffers_keep_their_samples(residual@);
            }
            decomposition.residual = stored(&residual);
            Ok(())
        },
        Err(error) => Err(error),
    }
}

/// Computes the residual of a recording on an integer grid, where the bank lies
/// on it too.
pub fn close(decomposition: &mut Decomposition, audio: &Audio) -> (result: Result<(), Error>)
    requires
        audio.wf(),
        audio@.format == old(decomposition).source.format,
        within(audio@.channels, NEAR as int),
        model::on_grid(old(decomposition).samples@, old(decomposition).source.format),
        old(decomposition).placements@.len() <= MOST_PLACEMENTS,
        old(decomposition).correction is None,
    ensures
        ({
            let rendering = Sound {
                sample_rate: old(decomposition).source.sample_rate,
                format: old(decomposition).source.format,
                channels: old(decomposition).rendering(),
            };
            match closing_fault(audio@, rendering) {
                Some(fault) => {
                    &&& result matches Err(error) && error@ == fault
                    &&& *final(decomposition) == *old(decomposition)
                },
                None => {
                    &&& result is Ok
                    &&& closed_over(
                        *old(decomposition),
                        *final(decomposition),
                        audio@,
                        rendering.channels,
                    )
                    &&& final(decomposition).exact()
                    &&& final(decomposition).restored() == audio@
                },
            }
        }),
{
    let rendered = decomposition.render();
    proof {
        model::lemma_rendering_within(*decomposition);
    }
    close_over(decomposition, &rendered, audio)
}

/// Whether the samples of a bank are numbered by their places in it.
pub open spec fn numbered(samples: Seq<Sample>) -> bool {
    forall|i: int| 0 <= i < samples.len() ==> (#[trigger] samples[i]).id == i
}

/// Adds a waveform to a bank, under the number and the name of its place.
pub fn add_sample(samples: &mut Vec<Sample>, waveform: Audio, peak: Number)
    requires
        old(samples)@.len() < usize::MAX,
    ensures
        final(samples)@.len() == old(samples)@.len() + 1,
        final(samples)@.drop_last() == old(samples)@,
        ({
            let added = final(samples)@.last();
            &&& added.id == old(samples)@.len()
            &&& added.name@ == name_of(old(samples)@.len() as int)
            &&& added.waveform == waveform
            &&& added.note is None
            &&& added.frequency is None
            &&& added.peak == peak
        }),
        numbered(old(samples)@) ==> numbered(final(samples)@),
{
    let id: usize = samples.len();
    samples.push(Sample::new(id, sample_name(id), waveform, peak));
    assert(samples@.drop_last() =~= old(samples)@);
}

/// Whether a decomposition holds its parts as they were found, and nothing yet
/// of what they leave over.
pub open spec fn gathered(
    decomposition: Decomposition,
    name: Seq<char>,
    recording: Sound,
    stems: Seq<Stem>,
    samples: Seq<Sample>,
    placements: Seq<Placement>,
) -> bool {
    &&& decomposition.source@ == (Origin {
        name,
        sample_rate: recording.sample_rate,
        format: recording.format,
        channels: recording.channels.len() as usize,
        frames: recording.frames() as usize,
    })
    &&& decomposition.source.channels == recording.channels.len()
    &&& decomposition.source.frames == recording.frames()
    &&& decomposition.stems@ == stems
    &&& decomposition.samples@ == samples
    &&& decomposition.placements@ == placements
    &&& decomposition.notes@ == Seq::<Note>::empty()
    &&& decomposition.residual@ == recording
    &&& decomposition.correction is None
}

/// The parts of a recording as a decomposition that is still to be closed: its
/// residual is the whole recording.
pub fn bring_together(
    name: &str,
    audio: &Audio,
    stems: Vec<Stem>,
    samples: Vec<Sample>,
    placements: Vec<Placement>,
) -> (decomposition: Decomposition)
    ensures
        gathered(decomposition, name@, audio@, stems@, samples@, placements@),
{
    Decomposition {
        source: SourceInfo::of(name, audio),
        stems,
        samples,
        placements,
        notes: Vec::new(),
        residual: audio.copy(),
        correction: None,
    }
}

/// Whether a decomposition is whole: its residual is what the rendering of its
/// bank leaves over, the two restore the recording with no correction, the stems
/// sum back to it, and every placement names a sample that stands in the bank at
/// its own number.
pub open spec fn whole(
    decomposition: Decomposition,
    recording: Sound,
    rendering: Seq<Seq<i64>>,
) -> bool {
    &&& decomposition.restored_from(rendering) == recording
    &&& decomposition.residual@ == left_by(recording, rendering)
    &&& decomposition.correction is None
    &&& stacked(
        quiet(
            decomposition.source.sample_rate,
            decomposition.source.format,
            decomposition.source.channels as nat,
            decomposition.source.frames as nat,
        ).channels,
        decomposition.stems@,
        decomposition.source.format,
    ) == recording.channels
    &&& numbered(decomposition.samples@)
    &&& forall|i: int|
        0 <= i < decomposition.placements@.len() ==> {
            let id = (#[trigger] decomposition.placements@[i]).sample;
            id < decomposition.samples@.len() && decomposition.samples@[id as int].id == id
        }
}

/// Taking a recording apart loses nothing: what a pursuit found, gathered with
/// stems that sum to the recording and closed over it, is whole.
pub proof fn law_decomposition_is_whole(
    before: Decomposition,
    after: Decomposition,
    name: Seq<char>,
    recording: Sound,
    stems: Seq<Stem>,
    samples: Seq<Sample>,
    pursuit: Pursuit,
    rendering: Seq<Seq<i64>>,
)
    requires
        pursuit.wf(),
        samples.len() == pursuit@.bank.len(),
        numbered(samples),
        stacked(hush(recording).channels, stems, recording.format) == recording.channels,
        gathered(before, name, recording, stems, samples, pursuit@.placements),
        closed_over(before, after, recording, rendering),
    ensures
        whole(after, recording, rendering),
        rendering == before.rendering() ==> after.restored() == recording,
{
    law_placements_name_stored_waveforms(pursuit);
}

/// Whether a recording is kept whole: because that is asked for, or because
/// there is nothing in it to split.
pub fn keeps_whole(audio: &Audio, mode: StemMode) -> (whole: bool)
    ensures
        whole == (mode == StemMode::Whole || audio@.frames() == 0 || audio@.channels.len() == 0),
{
    mode == StemMode::Whole || audio.frames() == 0 || audio.channel_count() == 0
}

/// A recording as its own only stem.
pub fn whole_stem(audio: &Audio) -> (stems: Vec<Stem>)
    ensures
        stems@.len() == 1,
        stems@[0].name@ == "full"@,
        stems@[0].audio@ == audio@,
        audio.wf() ==> stacked(hush(audio@).channels, stems@, audio@.format) == audio@.channels,
{
    let mut stems: Vec<Stem> = Vec::new();
    stems.push(Stem::new("full".to_string(), audio.copy()));
    proof {
        if audio.wf() {
            let silence = hush(audio@).channels;
            assert forall|i: int| 0 <= i < silence.len() implies (#[trigger] silence[i]).len()
                == audio@.channels[i].len() by {
                assert(audio@.channels[i].len() == audio@.frames());
            }
            lemma_from_silence(audio@.channels, silence);
            lemma_overlaid(silence, audio@.channels);
            assert(stems@.drop_last() =~= Seq::<Stem>::empty());
            assert(stacked(silence, stems@.drop_last(), audio@.format) == silence);
        }
    }
    stems
}

/// A buffer of silence shaped like a recording.
pub open spec fn hush(recording: Sound) -> Sound {
    quiet(
        recording.sample_rate,
        recording.format,
        recording.channels.len(),
        recording.frames(),
    )
}

/// What two parts of a recording leave over.
pub open spec fn left_over(recording: Sound, harmonic: Sound, percussive: Sound) -> Seq<Seq<i64>> {
    difference_of(
        recording.channels,
        sum_of(sum_of(hush(recording).channels, harmonic.channels), percussive.channels),
    )
}

/// What keeps two parts from splitting a recording, if anything does.
pub open spec fn splitting_fault(
    recording: Sound,
    harmonic: Sound,
    percussive: Sound,
) -> Option<Fault> {
    match incompatibility(hush(recording), harmonic) {
        Some(fault) => Some(fault),
        None => match incompatibility(hush(recording), percussive) {
            Some(fault) => Some(fault),
            None => channels_fault(
                recording.sample_rate,
                left_over(recording, harmonic, percussive),
            ),
        },
    }
}

/// Silence with a recording added is the recording.
proof fn lemma_from_silence(recording: Seq<Seq<i64>>, silence: Seq<Seq<i64>>)
    requires
        recording.len() == silence.len(),
        forall|i: int|
            0 <= i < recording.len() ==> (#[trigger] recording[i]).len() == silence[i].len(),
        forall|i: int, j: int|
            0 <= i < silence.len() && 0 <= j < silence[i].len() ==> #[trigger] silence[i][j] == 0,
    ensures
        sum_of(silence, recording) == recording,
{
    let sum = sum_of(silence, recording);
    assert forall|i: int| 0 <= i < sum.len() implies sum[i] == recording[i] by {
        assert(recording[i].len() == silence[i].len());
        assert forall|j: int| 0 <= j < sum[i].len() implies sum[i][j] == recording[i][j] by {
            assert(silence[i][j] == 0);
        }
        assert(sum[i] =~= recording[i]);
    }
    assert(sum =~= recording);
}

/// Where two buffers have one shape, overlaying them is adding them.
proof fn lemma_overlaid(base: Seq<Seq<i64>>, other: Seq<Seq<i64>>)
    requires
        base.len() == other.len(),
        forall|i: int| 0 <= i < base.len() ==> (#[trigger] base[i]).len() == other[i].len(),
    ensures
        overlaid(base, other) == sum_of(base, other),
{
    assert forall|i: int| 0 <= i < base.len() implies overlaid(base, other)[i] == sum_of(
        base,
        other,
    )[i] by {
        assert(base[i].len() == other[i].len());
        assert(overlaid(base, other)[i] =~= sum_of(base, other)[i]);
    }
    assert(overlaid(base, other) =~= sum_of(base, other));
}

/// The sum of two recordings lies within the reach of both.
proof fn lemma_sum_within(first: Seq<Seq<i64>>, second: Seq<Seq<i64>>, one: int, other: int)
    requires
        within(first, one),
        within(second, other),
        one + other <= FAR,
        first.len() == second.len(),
        forall|i: int| 0 <= i < first.len() ==> (#[trigger] first[i]).len() == second[i].len(),
    ensures
        within(sum_of(first, second), one + other),
{
    let sum = sum_of(first, second);
    assert forall|c: int, f: int| 0 <= c < sum.len() && 0 <= f < sum[c].len() implies -(one
        + other) <= #[trigger] sum[c][f] <= one + other by {
        assert(first[c].len() == second[c].len());
        assert(-one <= first[c][f] <= one);
        assert(-other <= second[c][f] <= other);
    }
}

/// Three stems, stacked.
proof fn lemma_three_stems(base: Seq<Seq<i64>>, stems: Seq<Stem>, format: SampleFormat)
    requires
        stems.len() == 3,
    ensures
        stacked(base, stems, format) == overlaid(
            overlaid(
                overlaid(base, gridded(stems[0].audio@, format)),
                gridded(stems[1].audio@, format),
            ),
            gridded(stems[2].audio@, format),
        ),
{
    let two = stems.drop_last();
    let one = two.drop_last();
    assert(two.last() == stems[1]);
    assert(one.last() == stems[0]);
    assert(one.drop_last() =~= Seq::<Stem>::empty());
    assert(stacked(base, one.drop_last(), format) == base);
    assert(stacked(base, one, format) == overlaid(base, gridded(stems[0].audio@, format)));
    assert(stacked(base, two, format) == overlaid(
        stacked(base, one, format),
        gridded(stems[1].audio@, format),
    ));
}

/// Whether two buffers have one shape.
pub open spec fn alike(first: Seq<Seq<i64>>, second: Seq<Seq<i64>>) -> bool {
    &&& first.len() == second.len()
    &&& forall|i: int| 0 <= i < first.len() ==> (#[trigger] first[i]).len() == second[i].len()
}

/// The stems of a split recording come to the recording.
proof fn lemma_stems_restore(recording: Sound, harmonic: Sound, percussive: Sound)
    requires
        recording.even(),
        alike(recording.channels, harmonic.channels),
        alike(recording.channels, percussive.channels),
        within(recording.channels, NEAR as int),
        within(harmonic.channels, NEAR as int),
        within(percussive.channels, NEAR as int),
    ensures
        overlaid(
            overlaid(
                overlaid(hush(recording).channels, harmonic.channels),
                percussive.channels,
            ),
            left_over(recording, harmonic, percussive),
        ) == recording.channels,
        within(left_over(recording, harmonic, percussive), 3 * NEAR),
{
    let silence = hush(recording).channels;
    assert forall|i: int| 0 <= i < silence.len() implies (#[trigger] silence[i]).len()
        == harmonic.channels[i].len() by {
        assert(recording.channels[i].len() == recording.frames());
        assert(recording.channels[i].len() == harmonic.channels[i].len());
    }
    lemma_from_silence(harmonic.channels, silence);
    lemma_overlaid(silence, harmonic.channels);
    let both = sum_of(harmonic.channels, percussive.channels);
    assert forall|i: int| 0 <= i < harmonic.channels.len() implies (
    #[trigger] harmonic.channels[i]).len() == percussive.channels[i].len() by {
        assert(recording.channels[i].len() == harmonic.channels[i].len());
    }
    lemma_overlaid(harmonic.channels, percussive.channels);
    lemma_sum_within(harmonic.channels, percussive.channels, NEAR as int, NEAR as int);
    assert forall|i: int| 0 <= i < recording.channels.len() implies (
    #[trigger] recording.channels[i]).len() == both[i].len() by {
        assert(recording.channels[i].len() == harmonic.channels[i].len());
    }
    lemma_difference_within(recording.channels, both, NEAR as int, 2 * NEAR);
    let left = difference_of(recording.channels, both);
    let back = overlaid(both, left);
    assert forall|c: int| 0 <= c < recording.channels.len() implies back[c]
        == recording.channels[c] by {
        assert(recording.channels[c].len() == both[c].len());
        assert forall|f: int| 0 <= f < recording.channels[c].len() implies back[c][f]
            == recording.channels[c][f] by {
            assert(-NEAR <= recording.channels[c][f] <= NEAR);
            assert(-(2 * NEAR) <= both[c][f] <= 2 * NEAR);
        }
        assert(back[c] =~= recording.channels[c]);
    }
    assert(back =~= recording.channels);
}

/// Splits a recording into two given parts and the correction that makes the
/// three sum back to it exactly.
///
/// The correction has the format of the recording where that holds it; what two
/// parts leave over can lie past its range, and is then held as floats.
pub fn split_stems(audio: &Audio, harmonic: Audio, percussive: Audio) -> (result: Result<
    Vec<Stem>,
    Error,
>)
    requires
        audio.wf(),
        harmonic.wf(),
        percussive.wf(),
        !audio@.format.spec_is_float(),
        harmonic@.format == audio@.format,
        percussive@.format == audio@.format,
        within(audio@.channels, NEAR as int),
        within(harmonic@.channels, NEAR as int),
        within(percussive@.channels, NEAR as int),
    ensures
        match splitting_fault(audio@, harmonic@, percussive@) {
            Some(fault) => result matches Err(error) && error@ == fault,
            None => {
                &&& result matches Ok(stems)
                &&& stems@.len() == 3
                &&& stems@[0].name@ == "harmonic"@
                &&& stems@[0].audio@ == harmonic@
                &&& stems@[1].name@ == "percussive"@
                &&& stems@[1].audio@ == percussive@
                &&& stems@[2].name@ == "correction"@
                &&& stems@[2].audio@ == stored_as(
                    Sound {
                        sample_rate: audio@.sample_rate,
                        format: audio@.format,
                        channels: left_over(audio@, harmonic@, percussive@),
                    },
                )
                &&& forall|i: int|
                    0 <= i < 3 ==> addable((#[trigger] stems@[i]).audio, audio@.format)
                &&& stacked(hush(audio@).channels, stems@, audio@.format) == audio@.channels
            },
        },
{
    let mut sum = Audio::silence(
        audio.sample_rate(),
        audio.format(),
        audio.channel_count(),
        audio.frames(),
    );
    proof {
        assert(sum@ == hush(audio@));
        assert(within(sum@.channels, 0));
        lemma_roomy(sum@.channels, 0);
        lemma_roomy(harmonic@.channels, NEAR as int);
        lemma_roomy(percussive@.channels, NEAR as int);
        lemma_roomy(audio@.channels, NEAR as int);
    }
    match sum.add_assign(&harmonic) {
        Ok(_) => {},
        Err(error) => return Err(error),
    }
    proof {
        lemma_shapes(audio@, harmonic@);
        lemma_from_silence(harmonic@.channels, hush(audio@).channels);
        assert(sum@.channels == harmonic@.channels);
        assert(sum@.frames() == hush(audio@).frames());
    }
    match sum.add_assign(&percussive) {
        Ok(_) => {},
        Err(error) => return Err(error),
    }
    proof {
        lemma_shapes(audio@, percussive@);
        assert forall|i: int| 0 <= i < harmonic@.channels.len() implies (
        #[trigger] harmonic@.channels[i]).len() == percussive@.channels[i].len() by {
            assert(audio@.channels[i].len() == harmonic@.channels[i].len());
        }
        lemma_sum_within(harmonic@.channels, percussive@.channels, NEAR as int, NEAR as int);
        lemma_roomy(sum@.channels, 2 * NEAR);
        assert(incompatibility(audio@, sum@) is None);
    }
    match audio.difference(&sum) {
        Ok(correction) => {
            let mut stems: Vec<Stem> = Vec::new();
            proof {
                lemma_stems_restore(audio@, harmonic@, percussive@);
                lemma_limited(correction@.channels);
                law_stored_buffers_keep_their_samples(correction@);
            }
            stems.push(Stem::new("harmonic".to_string(), harmonic));
            stems.push(Stem::new("percussive".to_string(), percussive));
            stems.push(Stem::new("correction".to_string(), stored(&correction)));
            proof {
                lemma_three_stems(hush(audio@).channels, stems@, audio@.format);
            }
            Ok(stems)
        },
        Err(error) => Err(error),
    }
}

/// Two recordings that agree are of one shape.
proof fn lemma_shapes(recording: Sound, part: Sound)
    requires
        recording.even(),
        part.even(),
        incompatibility(hush(recording), part) is None,
    ensures
        alike(recording.channels, part.channels),
        forall|i: int|
            0 <= i < part.channels.len() ==> (#[trigger] part.channels[i]).len() == hush(
                recording,
            ).channels[i].len(),
{
    if recording.channels.len() > 0 {
        assert(hush(recording).channels[0].len() == recording.frames());
    }
    assert forall|i: int| 0 <= i < recording.channels.len() implies (
    #[trigger] recording.channels[i]).len() == part.channels[i].len() by {
        assert(recording.channels[i].len() == recording.frames());
        assert(part.channels[i].len() == part.frames());
    }
}

/// What is left of a recording besides a harmonic and a percussive part makes the
/// three of them sum up to it, frame by frame.
pub proof fn law_parts_sum_to_the_recording(
    recording: Sound,
    harmonic: Sound,
    percussive: Sound,
    channel: int,
    frame: int,
)
    requires
        recording.even(),
        0 <= channel < recording.channels.len(),
        0 <= frame < recording.frames(),
        within(recording.channels, NEAR as int),
        within(harmonic.channels, NEAR as int),
        within(percussive.channels, NEAR as int),
        alike(recording.channels, harmonic.channels),
        alike(recording.channels, percussive.channels),
    ensures
        left_over(recording, harmonic, percussive).len() == recording.channels.len(),
        left_over(recording, harmonic, percussive)[channel].len() == recording.frames(),
        harmonic.channels[channel][frame] + percussive.channels[channel][frame] + left_over(
            recording,
            harmonic,
            percussive,
        )[channel][frame] == recording.channels[channel][frame],
{
    assert(recording.channels[channel].len() == recording.frames());
    assert(harmonic.channels[channel].len() == recording.frames());
    assert(percussive.channels[channel].len() == recording.frames());
    assert(-NEAR <= recording.channels[channel][frame] <= NEAR);
    assert(-NEAR <= harmonic.channels[channel][frame] <= NEAR);
    assert(-NEAR <= percussive.channels[channel][frame] <= NEAR);
    let silence = hush(recording).channels;
    assert(silence[channel].len() == recording.frames());
    assert(silence[channel][frame] == 0);
    let first = sum_of(silence, harmonic.channels);
    assert(first[channel][frame] == harmonic.channels[channel][frame]);
}

/// A recording can be split if and only if both parts have its rate and its shape,
/// and it has a rate and a channel.
pub proof fn law_parts_have_the_shape_of_the_recording(
    recording: Sound,
    harmonic: Sound,
    percussive: Sound,
)
    requires
        recording.even(),
        recording.channels.len() > 0,
    ensures
        splitting_fault(recording, harmonic, percussive) is None <==> {
            &&& recording.sample_rate > 0
            &&& harmonic.sample_rate == recording.sample_rate
            &&& percussive.sample_rate == recording.sample_rate
            &&& harmonic.channels.len() == recording.channels.len()
            &&& percussive.channels.len() == recording.channels.len()
            &&& harmonic.frames() == recording.frames()
            &&& percussive.frames() == recording.frames()
        },
{
    let rest = left_over(recording, harmonic, percussive);
    let quiet = hush(recording);
    assert(quiet.channels.len() == recording.channels.len());
    assert(quiet.channels[0].len() == recording.frames());
    assert(quiet.frames() == recording.frames());
    assert forall|i: int| 0 <= i < rest.len() implies (#[trigger] rest[i]).len()
        == rest[0].len() by {
        assert(recording.channels[i].len() == recording.frames());
        assert(recording.channels[0].len() == recording.frames());
    }
}

/// What a rendering leaves of a recording can be taken if and only if both have one
/// rate and one shape, and there is a rate and a channel.
pub proof fn law_renderings_have_the_shape_of_the_recording(recording: Sound, rendering: Sound)
    requires
        recording.even(),
    ensures
        closing_fault(recording, rendering) is None <==> {
            &&& recording.sample_rate > 0
            &&& recording.channels.len() > 0
            &&& rendering.sample_rate == recording.sample_rate
            &&& rendering.channels.len() == recording.channels.len()
            &&& rendering.frames() == recording.frames()
        },
{
    let rest = difference_of(recording.channels, rendering.channels);
    assert forall|i: int| 0 <= i < rest.len() implies (#[trigger] rest[i]).len()
        == rest[0].len() by {
        assert(recording.channels[i].len() == recording.frames());
        assert(recording.channels[0].len() == recording.frames());
    }
}

} // verus!
