//! What becomes of detected onsets: they are kept apart, and they cut the signal
//! into segments.

use vstd::prelude::*;

verus! {

/// A frame in which the detection function peaks.
#[derive(Clone, Copy, Debug, PartialEq, Eq, Structural)]
pub struct Peak {
    /// Index of the spectrogram frame the peak was found in.
    pub frame: usize,
    /// Sample index in the original signal.
    pub sample: usize,
    /// Height of the peak, as a number that grows with it.
    pub strength: u64,
}

/// The onsets that a run of peaks leaves: of two peaks that come closer than the
/// gap the higher one stays, and of two equally high ones the earlier.
pub open spec fn kept_apart(peaks: Seq<Peak>, gap: int) -> Seq<Peak>
    decreases peaks.len(),
{
    if peaks.len() == 0 {
        Seq::empty()
    } else {
        let before = kept_apart(peaks.drop_last(), gap);
        let peak = peaks.last();
        if before.len() > 0 && peak.sample < before.last().sample + gap {
            if peak.strength > before.last().strength {
                before.drop_last().push(peak)
            } else {
                before
            }
        } else {
            before.push(peak)
        }
    }
}

/// Keeps the peaks that stand at least a gap apart, the higher one of two that
/// do not.
pub fn keep_apart(peaks: &Vec<Peak>, gap: usize) -> (onsets: Vec<Peak>)
    ensures
        onsets@ == kept_apart(peaks@, gap as int),
{
    let mut onsets: Vec<Peak> = Vec::new();
    let mut index: usize = 0;
    assert(peaks@.take(0) =~= Seq::<Peak>::empty());
    while index < peaks.len()
        invariant
            index <= peaks@.len(),
            onsets@ == kept_apart(peaks@.take(index as int), gap as int),
        decreases peaks@.len() - index,
    {
        let peak: Peak = peaks[index];
        assert(peaks@.take(index + 1).drop_last() =~= peaks@.take(index as int));
        let count: usize = onsets.len();
        if count > 0 && (peak.sample as u128) < onsets[count - 1].sample as u128 + gap as u128 {
            if peak.strength > onsets[count - 1].strength {
                onsets.pop();
                onsets.push(peak);
            }
        } else {
            onsets.push(peak);
        }
        index = index + 1;
    }
    assert(peaks@.take(index as int) =~= peaks@);
    onsets
}

/// Onsets that were kept apart stand at least a gap apart, and in order, as long
/// as the peaks came in order.
///
/// The gap is that between an onset and the one before it.
pub proof fn law_onsets_stand_apart(peaks: Seq<Peak>, gap: int)
    requires
        gap >= 0,
        forall|i: int, j: int| 0 <= i <= j < peaks.len() ==> peaks[i].sample <= peaks[j].sample,
    ensures
        ({
            let onsets = kept_apart(peaks, gap);
            &&& peaks.len() > 0 ==> onsets.len() > 0 && onsets.last().sample
                <= peaks.last().sample
            &&& forall|i: int|
                0 < i < onsets.len() ==> (#[trigger] onsets[i]).sample >= onsets[i - 1].sample + gap
        }),
    decreases peaks.len(),
{
    if peaks.len() > 0 {
        let front = peaks.drop_last();
        law_onsets_stand_apart(front, gap);
        let before = kept_apart(front, gap);
        let onsets = kept_apart(peaks, gap);
        assert forall|i: int| 0 < i < onsets.len() implies (#[trigger] onsets[i]).sample
            >= onsets[i - 1].sample + gap by {
            if i < before.len() {
                assert(before[i].sample >= before[i - 1].sample + gap);
                if i == onsets.len() - 1 && onsets != before {
                    assert(front.len() > 0);
                    assert(before.last().sample <= front.last().sample);
                    assert(peaks[front.len() - 1].sample <= peaks[front.len() as int].sample);
                }
            }
        }
        if front.len() > 0 {
            assert(peaks[front.len() - 1].sample <= peaks[front.len() as int].sample);
        }
    }
}

/// Whether some ranges are what a signal is cut into at a set of positions: they
/// are not empty, they tile the signal from its first sample to its last, and
/// they meet exactly at the positions that lie inside it.
pub open spec fn cuts(ranges: Seq<(usize, usize)>, positions: Seq<usize>, length: int) -> bool {
    &&& length > 0 ==> {
        &&& ranges.len() > 0
        &&& ranges[0].0 == 0
        &&& ranges.last().1 == length
    }
    &&& length <= 0 ==> ranges.len() == 0
    &&& forall|i: int| 0 <= i < ranges.len() ==> (#[trigger] ranges[i]).0 < ranges[i].1
    &&& forall|i: int| 0 < i < ranges.len() ==> (#[trigger] ranges[i]).0 == ranges[i - 1].1
    &&& forall|i: int| 0 < i < ranges.len() ==> positions.contains((#[trigger] ranges[i]).0)
    &&& forall|k: int|
        0 <= k < positions.len() && 0 < (#[trigger] positions[k]) < length ==> exists|i: int|
            0 < i < ranges.len() && (#[trigger] ranges[i]).0 == positions[k]
}

/// The least position above another, or the length where there is none below it.
fn next_cut(positions: &Vec<usize>, from: usize, length: usize) -> (cut: usize)
    requires
        from < length,
    ensures
        from < cut <= length,
        cut < length ==> positions@.contains(cut),
        forall|k: int|
            0 <= k < positions@.len() && from < (#[trigger] positions@[k]) ==> cut
                <= positions@[k] || length <= positions@[k],
{
    let mut cut: usize = length;
    let mut index: usize = 0;
    while index < positions.len()
        invariant
            index <= positions@.len(),
            from < cut <= length,
            cut < length ==> positions@.contains(cut),
            forall|k: int|
                0 <= k < index && from < (#[trigger] positions@[k]) ==> cut <= positions@[k]
                    || length <= positions@[k],
        decreases positions@.len() - index,
    {
        let position: usize = positions[index];
        if from < position && position < cut {
            cut = position;
            assert(positions@[index as int] == cut);
        }
        index = index + 1;
    }
    cut
}

/// Turns onset positions into half-open sample ranges that tile the whole
/// signal.
pub fn segments(positions: &Vec<usize>, length: usize) -> (ranges: Vec<(usize, usize)>)
    ensures
        cuts(ranges@, positions@, length as int),
{
    let mut ranges: Vec<(usize, usize)> = Vec::new();
    let mut from: usize = 0;
    while from < length
        invariant
            from <= length,
            ranges@.len() == 0 <==> from == 0,
            ranges@.len() > 0 ==> ranges@[0].0 == 0 && ranges@.last().1 == from,
            forall|i: int| 0 <= i < ranges@.len() ==> (#[trigger] ranges@[i]).0 < ranges@[i].1,
            forall|i: int|
                0 < i < ranges@.len() ==> (#[trigger] ranges@[i]).0 == ranges@[i - 1].1,
            forall|i: int|
                0 < i < ranges@.len() ==> positions@.contains((#[trigger] ranges@[i]).0),
            from < length && ranges@.len() > 0 ==> positions@.contains(from),
            forall|k: int|
                0 <= k < positions@.len() && 0 < (#[trigger] positions@[k]) < from ==> exists|i: int|
                    0 < i < ranges@.len() && (#[trigger] ranges@[i]).0 == positions@[k],
        decreases length - from,
    {
        let cut: usize = next_cut(positions, from, length);
        let ghost before = ranges@;
        ranges.push((from, cut));
        proof {
            assert forall|k: int|
                0 <= k < positions@.len() && 0 < (#[trigger] positions@[k]) < cut implies exists|i:
                int| 0 < i < ranges@.len() && (#[trigger] ranges@[i]).0 == positions@[k] by {
                if positions@[k] < from {
                    let i = choose|i: int|
                        0 < i < before.len() && (#[trigger] before[i]).0 == positions@[k];
                    assert(ranges@[i].0 == positions@[k]);
                } else {
                    assert(positions@[k] == from);
                    assert(ranges@[before.len() as int].0 == positions@[k]);
                }
            }
        }
        from = cut;
    }
    ranges
}

/// Every onset is one of the peaks.
proof fn lemma_onsets_are_peaks(peaks: Seq<Peak>, gap: int)
    ensures
        forall|k: int|
            0 <= k < kept_apart(peaks, gap).len() ==> peaks.contains(
                #[trigger] kept_apart(peaks, gap)[k],
            ),
    decreases peaks.len(),
{
    if peaks.len() > 0 {
        let front = peaks.drop_last();
        let before = kept_apart(front, gap);
        let onsets = kept_apart(peaks, gap);
        lemma_onsets_are_peaks(front, gap);
        assert forall|k: int| 0 <= k < onsets.len() implies peaks.contains(#[trigger] onsets[k]) by {
            if k < before.len() && onsets[k] == before[k] {
                assert(front.contains(before[k]));
                let j = choose|j: int| 0 <= j < front.len() && front[j] == before[k];
                assert(peaks[j] == onsets[k]);
            } else {
                assert(peaks[peaks.len() - 1] == onsets[k]);
            }
        }
    }
}

/// Peaks that all stand at least a gap apart all stay.
pub proof fn law_peaks_that_stand_apart_stay(peaks: Seq<Peak>, gap: int)
    requires
        forall|i: int, j: int|
            0 <= i < j < peaks.len() ==> #[trigger] peaks[i].sample + gap
                <= #[trigger] peaks[j].sample,
    ensures
        kept_apart(peaks, gap) == peaks,
    decreases peaks.len(),
{
    if peaks.len() > 0 {
        let front = peaks.drop_last();
        assert forall|i: int, j: int| 0 <= i < j < front.len() implies #[trigger] front[i].sample
            + gap <= #[trigger] front[j].sample by {
            assert(peaks[i].sample + gap <= peaks[j].sample);
        }
        law_peaks_that_stand_apart_stay(front, gap);
        if front.len() > 0 {
            assert(peaks[front.len() - 1].sample + gap <= peaks[peaks.len() - 1].sample);
        }
        assert(front.push(peaks.last()) =~= peaks);
    } else {
        assert(peaks =~= Seq::<Peak>::empty());
    }
}

/// Every onset is one of the peaks, and the peak that is stronger than all the
/// others is an onset, however close they stand.
pub proof fn law_the_strongest_peak_stays(peaks: Seq<Peak>, gap: int, index: int)
    requires
        0 <= index < peaks.len(),
        forall|i: int|
            0 <= i < peaks.len() && i != index ==> (#[trigger] peaks[i]).strength
                < peaks[index].strength,
    ensures
        kept_apart(peaks, gap).contains(peaks[index]),
        forall|k: int|
            0 <= k < kept_apart(peaks, gap).len() ==> peaks.contains(
                #[trigger] kept_apart(peaks, gap)[k],
            ),
    decreases peaks.len(),
{
    let front = peaks.drop_last();
    let before = kept_apart(front, gap);
    let onsets = kept_apart(peaks, gap);
    lemma_onsets_are_peaks(peaks, gap);
    lemma_onsets_are_peaks(front, gap);
    if index == peaks.len() - 1 {
        if before.len() > 0 {
            assert(front.contains(before[before.len() - 1]));
            let j = choose|j: int| 0 <= j < front.len() && front[j] == before.last();
            assert(peaks[j].strength < peaks[index].strength);
        }
        assert(onsets[onsets.len() - 1] == peaks[index]);
    } else {
        assert forall|i: int| 0 <= i < front.len() && i != index implies (
        #[trigger] front[i]).strength < front[index].strength by {
            assert(peaks[i].strength < peaks[index].strength);
        }
        law_the_strongest_peak_stays(front, gap, index);
        let k = choose|k: int| 0 <= k < before.len() && before[k] == peaks[index];
        assert(peaks[peaks.len() - 1].strength < peaks[index].strength);
        assert(onsets[k] == peaks[index]);
    }
}

/// Of two peaks closer than a gap the stronger one stays, and the first where
/// they are equally strong.
pub proof fn law_the_stronger_of_two_close_peaks_stays(first: Peak, second: Peak, gap: int)
    requires
        second.sample < first.sample + gap,
    ensures
        kept_apart(seq![first, second], gap) == (if second.strength > first.strength {
            seq![second]
        } else {
            seq![first]
        }),
{
    let both = seq![first, second];
    assert(both.drop_last() =~= seq![first]);
    assert(seq![first].drop_last() =~= Seq::<Peak>::empty());
    assert(kept_apart(seq![first].drop_last(), gap) =~= Seq::<Peak>::empty());
    assert(kept_apart(seq![first], gap) =~= seq![first]);
    assert(seq![first].drop_last().push(second) =~= seq![second]);
}

/// Segments begin at the first frame and at every position inside the signal, and
/// nowhere else; each ends where the next begins, and the last with the signal.
pub proof fn law_segments_begin_at_positions(
    ranges: Seq<(usize, usize)>,
    positions: Seq<usize>,
    length: int,
    start: usize,
)
    requires
        cuts(ranges, positions, length),
        0 < length,
        start < length,
    ensures
        (exists|i: int| 0 <= i < ranges.len() && (#[trigger] ranges[i]).0 == start) <==> start == 0
            || positions.contains(start),
        ranges[0].0 == 0 && ranges.last().1 == length,
        forall|i: int| 0 <= i < ranges.len() - 1 ==> (#[trigger] ranges[i]).1 == ranges[i + 1].0,
{
    if start == 0 {
        assert(ranges[0].0 == start);
    } else if positions.contains(start) {
        let k = choose|k: int| 0 <= k < positions.len() && positions[k] == start;
        assert(0 < positions[k] < length);
        let i = choose|i: int| 0 < i < ranges.len() && (#[trigger] ranges[i]).0 == positions[k];
        assert(ranges[i].0 == start);
    }
    if exists|i: int| 0 <= i < ranges.len() && (#[trigger] ranges[i]).0 == start {
        let i = choose|i: int| 0 <= i < ranges.len() && (#[trigger] ranges[i]).0 == start;
        if i > 0 {
            assert(positions.contains(ranges[i].0));
        }
    }
    assert forall|i: int| 0 <= i < ranges.len() - 1 implies (#[trigger] ranges[i]).1 == ranges[i
        + 1].0 by {
        assert(ranges[i + 1].0 == ranges[i + 1 - 1].1);
    }
}

} // verus!
