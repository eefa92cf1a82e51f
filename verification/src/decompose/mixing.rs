//! What a rendering sounds like.
//!
//! A rendering is a sum: every placement adds its waveform, scaled by its gain,
//! to the frames of the one channel that it names, and the sum is rounded to the
//! grid of the format.

use vstd::prelude::*;

use crate::audio::SampleFormat;

use super::model::{contribution, mixed, nearest, rendered, snapped, Placement};

verus! {

/// The placements that name a channel.
pub open spec fn naming(placements: Seq<Placement>, channel: int) -> Seq<Placement>
    decreases placements.len(),
{
    if placements.len() == 0 {
        Seq::empty()
    } else if placements[0].channel == channel {
        seq![placements[0]] + naming(placements.drop_first(), channel)
    } else {
        naming(placements.drop_first(), channel)
    }
}

/// What is heard of placements in a frame of a channel, counted in the parts that
/// a gain of one has: every placement of the channel that reaches the frame adds
/// its gain times the sample that falls there.
pub open spec fn heard(
    bank: Seq<Seq<i64>>,
    placements: Seq<Placement>,
    channel: int,
    frame: int,
) -> int
    decreases placements.len(),
{
    if placements.len() == 0 {
        0
    } else {
        let rest = heard(bank, placements.drop_first(), channel, frame);
        let first = placements[0];
        let offset = frame - first.start;
        if first.channel == channel && first.sample < bank.len() && 0 <= offset
            < bank[first.sample as int].len() {
            rest + first.gain.over_scale() * bank[first.sample as int][offset]
        } else {
            rest
        }
    }
}

/// Whether a code is a sum of parts rounded to the grid of a format: to the
/// nearest code, to the one away from zero between two codes, and to the end of
/// the range beyond it.
pub open spec fn rounds(parts: int, code: int, format: SampleFormat) -> bool {
    &&& format.low() <= code <= format.high()
    &&& code > format.low() ==> 2 * (0x1_0000 * code - parts) <= 0x1_0000
    &&& code < format.high() ==> 2 * (parts - 0x1_0000 * code) <= 0x1_0000
    &&& format.low() < code && 2 * (0x1_0000 * code - parts) == 0x1_0000 ==> parts > 0
    &&& code < format.high() && 2 * (parts - 0x1_0000 * code) == 0x1_0000 ==> parts < 0
}

/// Placements of two lists add up.
proof fn lemma_mixed_concat(
    bank: Seq<Seq<i64>>,
    first: Seq<Placement>,
    second: Seq<Placement>,
    channel: int,
    frame: int,
)
    ensures
        mixed(bank, first + second, channel, frame) == mixed(bank, first, channel, frame) + mixed(
            bank,
            second,
            channel,
            frame,
        ),
    decreases second.len(),
{
    if second.len() == 0 {
        assert(first + second =~= first);
    } else {
        lemma_mixed_concat(bank, first, second.drop_last(), channel, frame);
        assert((first + second).drop_last() =~= first + second.drop_last());
        assert((first + second).last() == second.last());
    }
}

/// One placement alone.
proof fn lemma_mixed_one(bank: Seq<Seq<i64>>, placement: Placement, channel: int, frame: int)
    ensures
        mixed(bank, seq![placement], channel, frame) == contribution(
            bank,
            placement,
            channel,
            frame,
        ),
{
    assert(seq![placement].drop_last() =~= Seq::<Placement>::empty());
    assert(mixed(bank, Seq::<Placement>::empty(), channel, frame) == 0);
}

/// The first placement and the rest add up.
proof fn lemma_mixed_first(
    bank: Seq<Seq<i64>>,
    placements: Seq<Placement>,
    channel: int,
    frame: int,
)
    requires
        placements.len() > 0,
    ensures
        mixed(bank, placements, channel, frame) == contribution(
            bank,
            placements[0],
            channel,
            frame,
        ) + mixed(bank, placements.drop_first(), channel, frame),
{
    assert(placements =~= seq![placements[0]] + placements.drop_first());
    lemma_mixed_concat(bank, seq![placements[0]], placements.drop_first(), channel, frame);
    lemma_mixed_one(bank, placements[0], channel, frame);
}

/// Placements of other channels add nothing.
proof fn lemma_mixed_naming(
    bank: Seq<Seq<i64>>,
    placements: Seq<Placement>,
    channel: int,
    frame: int,
)
    ensures
        mixed(bank, placements, channel, frame) == mixed(
            bank,
            naming(placements, channel),
            channel,
            frame,
        ),
    decreases placements.len(),
{
    if placements.len() > 0 {
        lemma_mixed_first(bank, placements, channel, frame);
        lemma_mixed_naming(bank, placements.drop_first(), channel, frame);
        if placements[0].channel == channel {
            lemma_mixed_concat(
                bank,
                seq![placements[0]],
                naming(placements.drop_first(), channel),
                channel,
                frame,
            );
            lemma_mixed_one(bank, placements[0], channel, frame);
        }
    }
}

/// The sum is what is heard.
proof fn lemma_mixed_heard(
    bank: Seq<Seq<i64>>,
    placements: Seq<Placement>,
    channel: int,
    frame: int,
)
    ensures
        mixed(bank, placements, channel, frame) == heard(bank, placements, channel, frame),
    decreases placements.len(),
{
    if placements.len() > 0 {
        lemma_mixed_first(bank, placements, channel, frame);
        lemma_mixed_heard(bank, placements.drop_first(), channel, frame);
    }
}

/// What the channel of a rendering holds depends only on the placements that name
/// the channel: without all the others it is the same.
pub proof fn law_channels_are_rendered_apart(
    format: SampleFormat,
    channels: nat,
    frames: nat,
    bank: Seq<Seq<i64>>,
    placements: Seq<Placement>,
    channel: int,
)
    requires
        0 <= channel < channels,
    ensures
        rendered(format, channels, frames, bank, placements)[channel] == rendered(
            format,
            channels,
            frames,
            bank,
            naming(placements, channel),
        )[channel],
{
    let whole = rendered(format, channels, frames, bank, placements)[channel];
    let apart = rendered(format, channels, frames, bank, naming(placements, channel))[channel];
    assert forall|f: int| 0 <= f < frames implies whole[f] == apart[f] by {
        lemma_mixed_naming(bank, placements, channel, f);
    }
    assert(whole =~= apart);
}

/// A channel that no placement names is rendered as silence.
pub proof fn law_unnamed_channels_are_silent(
    format: SampleFormat,
    channels: nat,
    frames: nat,
    bank: Seq<Seq<i64>>,
    placements: Seq<Placement>,
    channel: int,
    frame: int,
)
    requires
        0 <= channel < channels,
        0 <= frame < frames,
        forall|i: int| 0 <= i < placements.len() ==> (#[trigger] placements[i]).channel != channel,
    ensures
        rendered(format, channels, frames, bank, placements)[channel][frame] == 0,
    decreases placements.len(),
{
    if placements.len() > 0 {
        lemma_mixed_first(bank, placements, channel, frame);
        assert forall|i: int| 0 <= i < placements.drop_first().len() implies (
        #[trigger] placements.drop_first()[i]).channel != channel by {
            assert(placements.drop_first()[i] == placements[i + 1]);
        }
        law_unnamed_channels_are_silent(
            format,
            channels,
            frames,
            bank,
            placements.drop_first(),
            channel,
            frame,
        );
        assert(placements[0].channel != channel);
    } else {
        assert(nearest(0) == 0);
    }
}

/// A rendering has the channels and the frames that were asked for, and every
/// frame of it is what is heard of the placements, rounded to the grid.
pub proof fn law_renderings_round_what_is_heard(
    format: SampleFormat,
    channels: nat,
    frames: nat,
    bank: Seq<Seq<i64>>,
    placements: Seq<Placement>,
    channel: int,
    frame: int,
)
    requires
        0 <= channel < channels,
        0 <= frame < frames,
    ensures
        rendered(format, channels, frames, bank, placements).len() == channels,
        rendered(format, channels, frames, bank, placements)[channel].len() == frames,
        rounds(
            heard(bank, placements, channel, frame),
            rendered(format, channels, frames, bank, placements)[channel][frame] as int,
            format,
        ),
{
    lemma_mixed_heard(bank, placements, channel, frame);
    let parts = mixed(bank, placements, channel, frame);
    lemma_nearest(parts);
    assert(rendered(format, channels, frames, bank, placements)[channel][frame] == snapped(
        parts,
        format,
    ));
}

/// A sum of parts and the whole number nearest to it.
proof fn lemma_nearest(parts: int)
    ensures
        -0x1_0000 <= 2 * (0x1_0000 * nearest(parts) - parts) <= 0x1_0000,
        2 * (0x1_0000 * nearest(parts) - parts) == 0x1_0000 ==> parts > 0,
        2 * (parts - 0x1_0000 * nearest(parts)) == 0x1_0000 ==> parts < 0,
{
}

/// A single placement of gain one puts the codes of its waveform where it starts,
/// on its own channel, and leaves everything else silent. What lies before the
/// first frame or behind the last is cut off.
pub proof fn law_a_placement_plays_its_waveform(
    format: SampleFormat,
    channels: nat,
    frames: nat,
    bank: Seq<Seq<i64>>,
    placement: Placement,
    channel: int,
    frame: int,
)
    requires
        0 <= channel < channels,
        0 <= frame < frames,
        placement.sample < bank.len(),
        placement.gain.over_scale() == 0x1_0000,
        forall|i: int|
            0 <= i < bank[placement.sample as int].len() ==> format.low()
                <= #[trigger] bank[placement.sample as int][i] <= format.high(),
    ensures
        rendered(format, channels, frames, bank, seq![placement])[channel][frame] == (if channel
            == placement.channel && placement.start <= frame < placement.start
            + bank[placement.sample as int].len() {
            bank[placement.sample as int][frame - placement.start] as int
        } else {
            0
        }),
{
    let wave = bank[placement.sample as int];
    lemma_mixed_one(bank, placement, channel, frame);
    if channel == placement.channel && placement.start <= frame < placement.start + wave.len() {
        let code = wave[frame - placement.start] as int;
        assert(format.low() <= code <= format.high());
        assert(nearest(0x1_0000 * code) == code);
    } else {
        assert(nearest(0) == 0);
    }
}

/// The order of the placements does not matter: exchanging two neighbours leaves
/// the rendering as it was.
pub proof fn law_placements_render_in_any_order(
    format: SampleFormat,
    channels: nat,
    frames: nat,
    bank: Seq<Seq<i64>>,
    before: Seq<Placement>,
    first: Placement,
    second: Placement,
    after: Seq<Placement>,
)
    ensures
        rendered(format, channels, frames, bank, before + seq![first, second] + after) == rendered(
            format,
            channels,
            frames,
            bank,
            before + seq![second, first] + after,
        ),
{
    let one = rendered(format, channels, frames, bank, before + seq![first, second] + after);
    let other = rendered(format, channels, frames, bank, before + seq![second, first] + after);
    assert forall|c: int| 0 <= c < channels implies one[c] == other[c] by {
        assert forall|f: int| 0 <= f < frames implies one[c][f] == other[c][f] by {
            assert(seq![first, second] =~= seq![first] + seq![second]);
            assert(seq![second, first] =~= seq![second] + seq![first]);
            lemma_mixed_concat(bank, seq![first], seq![second], c, f);
            lemma_mixed_concat(bank, seq![second], seq![first], c, f);
            lemma_mixed_concat(bank, before, seq![first, second], c, f);
            lemma_mixed_concat(bank, before, seq![second, first], c, f);
            lemma_mixed_concat(bank, before + seq![first, second], after, c, f);
            lemma_mixed_concat(bank, before + seq![second, first], after, c, f);
        }
        assert(one[c] =~= other[c]);
    }
    assert(one =~= other);
}

} // verus!
