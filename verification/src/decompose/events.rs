//! Cutting a recording into the events that become bank samples.
//!
//! An event is a half-open range of frames on one channel. Events tile the
//! timeline without overlapping, which is what makes the first pass of the
//! decomposition exact: if every event is stored as its own bank sample and
//! placed back where it came from, the rendering reproduces the recording. The
//! deduplication pass then replaces as many of those samples as it can with
//! references to earlier ones, and only the difference it fails to explain
//! reaches the residual.

use std::collections::HashMap;
use vstd::prelude::*;
use vstd::slice::slice_subrange;

verus! {

broadcast use vstd::std_specs::hash::group_hash_axioms;

/// A stretch of one channel that is analysed as a unit.
#[derive(Clone, Copy, Debug, PartialEq, Eq, Structural)]
pub struct Event {
    /// Channel the event belongs to.
    pub channel: usize,
    /// First frame of the event.
    pub start: usize,
    /// Number of frames.
    pub length: usize,
}

impl Event {
    /// One past the last frame.
    pub open spec fn past(self) -> int {
        self.start + self.length
    }

    /// An event from its parts.
    pub fn new(channel: usize, start: usize, length: usize) -> (event: Self)
        ensures
            event == (Event { channel, start, length }),
    {
        Event { channel, start, length }
    }

    /// One past the last frame.
    pub fn end(&self) -> (end: usize)
        requires
            self.past() <= usize::MAX,
        ensures
            end == self.past(),
    {
        self.start + self.length
    }

    /// The samples of this event, read from a buffer.
    pub fn slice<'a>(&self, channels: &'a Vec<Vec<i64>>) -> (samples: &'a [i64])
        requires
            self.past() <= usize::MAX,
        ensures
            samples@ == read_event(*self, channels@),
    {
        if self.channel >= channels.len() {
            let none: &[i64] = &[];
            assert(none@ =~= Seq::<i64>::empty());
            return none;
        }
        let channel = &channels[self.channel];
        let length: usize = channel.len();
        let start: usize = if self.start < length {
            self.start
        } else {
            length
        };
        let end: usize = if self.end() < length {
            self.end()
        } else {
            length
        };
        let samples = slice_subrange(channel.as_slice(), start, end);
        assert(samples@ =~= read_event(*self, channels@));
        samples
    }
}

/// The lesser of two numbers.
pub open spec fn lesser(first: int, second: int) -> int {
    if first < second {
        first
    } else {
        second
    }
}

/// The greater of two numbers.
pub open spec fn greater(first: int, second: int) -> int {
    if first < second {
        second
    } else {
        first
    }
}

/// The samples of an event: the part of it that lies inside the buffer.
pub open spec fn read_event(event: Event, channels: Seq<Vec<i64>>) -> Seq<i64> {
    if event.channel < channels.len() {
        let channel = channels[event.channel as int]@;
        channel.subrange(
            lesser(event.start as int, channel.len() as int),
            lesser(event.past(), channel.len() as int),
        )
    } else {
        Seq::empty()
    }
}

/// The events between cut positions, the last one reaching to the end.
pub open spec fn pieces_of(channel: usize, cuts: Seq<usize>, frames: usize) -> Seq<Event> {
    let between = Seq::new(
        if cuts.len() == 0 {
            0
        } else {
            (cuts.len() - 1) as nat
        },
        |i: int|
            Event { channel, start: cuts[i], length: (cuts[i + 1] - cuts[i]) as usize },
    );
    if cuts.len() > 0 && cuts.last() < frames {
        between.push(
            Event { channel, start: cuts.last(), length: (frames - cuts.last()) as usize },
        )
    } else {
        between
    }
}

/// Whether cut positions never go back.
pub open spec fn ordered(cuts: Seq<usize>) -> bool {
    forall|i: int, j: int| 0 <= i <= j < cuts.len() ==> cuts[i] <= cuts[j]
}

/// Turns a list of boundaries into the events of one channel.
pub fn events_from(channel: usize, cuts: &Vec<usize>, frames: usize) -> (events: Vec<Event>)
    requires
        ordered(cuts@),
    ensures
        events@ == pieces_of(channel, cuts@, frames),
{
    let mut events: Vec<Event> = Vec::new();
    if cuts.len() == 0 {
        assert(events@ =~= pieces_of(channel, cuts@, frames));
        return events;
    }
    let mut index: usize = 0;
    while index < cuts.len() - 1
        invariant
            cuts@.len() > 0,
            index <= cuts@.len() - 1,
            ordered(cuts@),
            events@ == Seq::new(
                index as nat,
                |i: int|
                    Event { channel, start: cuts@[i], length: (cuts@[i + 1] - cuts@[i]) as usize },
            ),
        decreases cuts@.len() - 1 - index,
    {
        events.push(Event::new(channel, cuts[index], cuts[index + 1] - cuts[index]));
        index = index + 1;
        assert(events@ =~= Seq::new(
            index as nat,
            |i: int|
                Event { channel, start: cuts@[i], length: (cuts@[i + 1] - cuts@[i]) as usize },
        ));
    }
    let last: usize = cuts[cuts.len() - 1];
    if last < frames {
        events.push(Event::new(channel, last, frames - last));
    }
    assert(events@ =~= pieces_of(channel, cuts@, frames));
    events
}

/// Events without gaps: each ends where the next begins, and the last one ends
/// at the end.
pub open spec fn tiles(events: Seq<Event>, from: int, to: int) -> bool
    decreases events.len(),
{
    if events.len() == 0 {
        from == to
    } else {
        &&& events.last().past() == to
        &&& tiles(events.drop_last(), from, events.last().start as int)
    }
}

/// The pieces between cuts that begin at the first frame tile the whole
/// timeline.
pub proof fn law_pieces_tile_the_timeline(channel: usize, cuts: Seq<usize>, frames: usize)
    requires
        ordered(cuts),
        cuts.len() > 0,
        cuts[0] == 0,
        cuts.last() <= frames,
    ensures
        tiles(pieces_of(channel, cuts, frames), 0, frames as int),
{
    let between = Seq::new(
        (cuts.len() - 1) as nat,
        |i: int|
            Event { channel, start: cuts[i], length: (cuts[i + 1] - cuts[i]) as usize },
    );
    lemma_between_tiles(channel, cuts, (cuts.len() - 1) as nat);
    let pieces = pieces_of(channel, cuts, frames);
    if cuts.last() < frames {
        assert(pieces.drop_last() =~= between);
        assert(pieces.last().start == cuts.last());
    } else {
        assert(pieces =~= between);
    }
}

/// The pieces between cuts tile the timeline from the first cut to the last.
proof fn lemma_between_tiles(channel: usize, cuts: Seq<usize>, count: nat)
    requires
        ordered(cuts),
        count < cuts.len(),
    ensures
        tiles(
            Seq::new(
                count,
                |i: int|
                    Event { channel, start: cuts[i], length: (cuts[i + 1] - cuts[i]) as usize },
            ),
            cuts[0] as int,
            cuts[count as int] as int,
        ),
    decreases count,
{
    let pieces = Seq::new(
        count,
        |i: int| Event { channel, start: cuts[i], length: (cuts[i + 1] - cuts[i]) as usize },
    );
    if count > 0 {
        lemma_between_tiles(channel, cuts, (count - 1) as nat);
        assert(pieces.drop_last() =~= Seq::new(
            (count - 1) as nat,
            |i: int|
                Event { channel, start: cuts[i], length: (cuts[i + 1] - cuts[i]) as usize },
        ));
        assert(cuts[count - 1] <= cuts[count as int]);
    }
}

/// The boundaries that are kept: the first frame, and every start that is far
/// enough behind the last one kept.
pub open spec fn kept(ranges: Seq<(usize, usize)>, minimum: usize) -> Seq<usize>
    decreases ranges.len(),
{
    if ranges.len() == 0 {
        seq![0]
    } else {
        let before = kept(ranges.drop_last(), minimum);
        let start = ranges.last().0;
        if start > 0 && greater(start - before.last(), 0) >= minimum {
            before.push(start)
        } else {
            before
        }
    }
}

/// Positions from one on, a piece apart, as long as what is left is long
/// enough.
pub open spec fn marked(
    before: Seq<usize>,
    position: int,
    end: int,
    piece: int,
    minimum: int,
) -> Seq<usize>
    decreases greater(end - position, 0),
{
    if piece > 0 && position < end && end - position >= minimum {
        marked(before.push(position as usize), position + piece, end, piece, minimum)
    } else {
        before
    }
}

/// The quotient of two numbers, rounded up.
pub open spec fn rounded_up(value: int, divisor: int) -> int {
    (value + divisor - 1) / divisor
}

/// A stretch with its start, divided into equal pieces where it is longer than
/// a maximum.
pub open spec fn divided(
    before: Seq<usize>,
    start: int,
    end: int,
    minimum: int,
    maximum: int,
) -> Seq<usize> {
    let span = greater(end - start, 0);
    let opened = before.push(start as usize);
    if span > maximum {
        let piece = rounded_up(span, rounded_up(span, maximum));
        marked(opened, start + piece, end, piece, minimum)
    } else {
        opened
    }
}

/// Where the stretch behind a cut ends.
pub open spec fn stretch_end(cuts: Seq<usize>, index: int, length: usize) -> int {
    if index + 1 < cuts.len() {
        cuts[index + 1] as int
    } else {
        length as int
    }
}

/// The first stretches between cuts, each divided where it is too long.
pub open spec fn all_divided(
    cuts: Seq<usize>,
    count: int,
    length: usize,
    minimum: int,
    maximum: int,
) -> Seq<usize>
    decreases count,
{
    if count <= 0 {
        Seq::empty()
    } else {
        divided(
            all_divided(cuts, count - 1, length, minimum, maximum),
            cuts[count - 1] as int,
            stretch_end(cuts, count - 1, length),
            minimum,
            maximum,
        )
    }
}

/// The cuts that lie before an end.
pub open spec fn below(cuts: Seq<usize>, length: usize) -> Seq<usize>
    decreases cuts.len(),
{
    if cuts.len() == 0 {
        Seq::empty()
    } else if cuts.last() < length {
        below(cuts.drop_last(), length).push(cuts.last())
    } else {
        below(cuts.drop_last(), length)
    }
}

/// Cuts without the repetition of the one before.
pub open spec fn single(cuts: Seq<usize>) -> Seq<usize>
    decreases cuts.len(),
{
    if cuts.len() < 2 {
        cuts
    } else if cuts.last() == cuts[cuts.len() - 2] {
        single(cuts.drop_last())
    } else {
        single(cuts.drop_last()).push(cuts.last())
    }
}

/// The cut positions for detected ranges under the length limits.
pub open spec fn shaped(
    ranges: Seq<(usize, usize)>,
    length: usize,
    minimum: usize,
    maximum: usize,
) -> Seq<usize> {
    let cuts = kept(ranges, minimum);
    let limited = if maximum > 0 {
        all_divided(cuts, cuts.len() as int, length, minimum as int, maximum as int)
    } else {
        cuts
    };
    single(below(limited, length))
}

/// Something is always kept.
proof fn lemma_kept(ranges: Seq<(usize, usize)>, minimum: usize)
    ensures
        kept(ranges, minimum).len() > 0,
    decreases ranges.len(),
{
    if ranges.len() > 0 {
        lemma_kept(ranges.drop_last(), minimum);
    }
}

/// The boundaries that are kept.
fn keep(ranges: &Vec<(usize, usize)>, minimum: usize) -> (cuts: Vec<usize>)
    ensures
        cuts@ == kept(ranges@, minimum),
        cuts@.len() > 0,
{
    let mut cuts: Vec<usize> = Vec::new();
    cuts.push(0);
    let mut index: usize = 0;
    assert(ranges@.take(0) =~= Seq::<(usize, usize)>::empty());
    assert(cuts@ =~= seq![0usize]);
    while index < ranges.len()
        invariant
            index <= ranges@.len(),
            cuts@.len() > 0,
            cuts@ == kept(ranges@.take(index as int), minimum),
        decreases ranges@.len() - index,
    {
        assert(ranges@.take(index + 1).drop_last() =~= ranges@.take(index as int));
        let start: usize = ranges[index].0;
        let last: usize = cuts[cuts.len() - 1];
        let distance: usize = if start > last {
            start - last
        } else {
            0
        };
        if start > 0 && distance >= minimum {
            cuts.push(start);
        }
        index = index + 1;
    }
    assert(ranges@.take(index as int) =~= ranges@);
    cuts
}

/// A piece of a stretch is not longer than the stretch.
proof fn lemma_piece(span: int, maximum: int)
    requires
        span > maximum > 0,
    ensures
        1 <= rounded_up(span, maximum) <= span,
        1 <= rounded_up(span, rounded_up(span, maximum)) <= span,
{
    lemma_rounded_up(span, maximum);
    lemma_rounded_up(span, rounded_up(span, maximum));
}

/// A quotient rounded up lies between one and the dividend.
proof fn lemma_rounded_up(value: int, divisor: int)
    requires
        value > 0,
        divisor > 0,
    ensures
        1 <= rounded_up(value, divisor) <= value,
{
    assert(1 <= (value + divisor - 1) / divisor <= value) by (nonlinear_arith)
        requires
            value > 0,
            divisor > 0,
    ;
}

/// Rounds a quotient up.
fn round_up(value: usize, divisor: usize) -> (quotient: usize)
    requires
        value > 0,
        divisor > 0,
    ensures
        quotient == rounded_up(value as int, divisor as int),
{
    proof {
        lemma_rounded_up(value as int, divisor as int);
        assert((value as int - 1) / (divisor as int) + 1 == (value + divisor - 1) / (
        divisor as int)) by (nonlinear_arith)
            requires
                value > 0,
                divisor > 0,
        ;
    }
    (value - 1) / divisor + 1
}

/// Appends a stretch with its start, divided where it is too long.
fn divide(cuts: &mut Vec<usize>, start: usize, end: usize, minimum: usize, maximum: usize)
    requires
        maximum > 0,
    ensures
        final(cuts)@ == divided(
            old(cuts)@,
            start as int,
            end as int,
            minimum as int,
            maximum as int,
        ),
{
    cuts.push(start);
    let span: usize = if end > start {
        end - start
    } else {
        0
    };
    if span <= maximum {
        return;
    }
    let pieces: usize = round_up(span, maximum);
    proof {
        lemma_piece(span as int, maximum as int);
    }
    let piece: usize = round_up(span, pieces);
    let ghost goal = marked(cuts@, start + piece, end as int, piece as int, minimum as int);
    let mut position: usize = start + piece;
    while position < end && end - position >= minimum
        invariant_except_break
            position <= end,
            goal == marked(cuts@, position as int, end as int, piece as int, minimum as int),
        invariant
            piece > 0,
        ensures
            goal == cuts@,
        decreases end - position,
    {
        cuts.push(position);
        if end - position <= piece {
            assert(marked(
                cuts@,
                position + piece,
                end as int,
                piece as int,
                minimum as int,
            ) == cuts@);
            break;
        }
        position = position + piece;
    }
}

/// Divides every stretch between cuts that is too long.
fn divide_all(cuts: &Vec<usize>, length: usize, minimum: usize, maximum: usize) -> (pieces: Vec<
    usize,
>)
    requires
        maximum > 0,
    ensures
        pieces@ == all_divided(
            cuts@,
            cuts@.len() as int,
            length,
            minimum as int,
            maximum as int,
        ),
{
    let mut pieces: Vec<usize> = Vec::new();
    let mut index: usize = 0;
    assert(pieces@ =~= Seq::<usize>::empty());
    while index < cuts.len()
        invariant
            maximum > 0,
            index <= cuts@.len(),
            pieces@ == all_divided(cuts@, index as int, length, minimum as int, maximum as int),
        decreases cuts@.len() - index,
    {
        let end: usize = if index + 1 < cuts.len() {
            cuts[index + 1]
        } else {
            length
        };
        divide(&mut pieces, cuts[index], end, minimum, maximum);
        index = index + 1;
    }
    pieces
}

/// Applies the length limits to detected ranges, returning cut positions.
///
/// A boundary closer than `minimum` to the previous one is dropped; a stretch
/// longer than `maximum` is divided into equal pieces.
pub fn shape(ranges: &Vec<(usize, usize)>, length: usize, minimum: usize, maximum: usize) -> (cuts:
    Vec<usize>)
    ensures
        cuts@ == shaped(ranges@, length, minimum, maximum),
{
    let first = keep(ranges, minimum);
    let limited = if maximum > 0 {
        divide_all(&first, length, minimum, maximum)
    } else {
        first
    };
    let ghost all = limited@;
    let mut inside: Vec<usize> = Vec::new();
    let mut index: usize = 0;
    assert(all.take(0) =~= Seq::<usize>::empty());
    assert(inside@ =~= Seq::<usize>::empty());
    while index < limited.len()
        invariant
            all == limited@,
            index <= all.len(),
            inside@ == below(all.take(index as int), length),
        decreases all.len() - index,
    {
        assert(all.take(index + 1).drop_last() =~= all.take(index as int));
        if limited[index] < length {
            inside.push(limited[index]);
        }
        index = index + 1;
    }
    assert(all.take(index as int) =~= all);
    let ghost within = inside@;
    let mut cuts: Vec<usize> = Vec::new();
    index = 0;
    assert(within.take(0) =~= Seq::<usize>::empty());
    assert(cuts@ =~= Seq::<usize>::empty());
    while index < inside.len()
        invariant
            within == inside@,
            index <= within.len(),
            cuts@ == single(within.take(index as int)),
        decreases within.len() - index,
    {
        assert(within.take(index + 1).drop_last() =~= within.take(index as int));
        if index == 0 {
            assert(within.take(1) =~= cuts@.push(within[0]));
        }
        if index == 0 || inside[index] != inside[index - 1] {
            cuts.push(inside[index]);
        }
        index = index + 1;
    }
    assert(within.take(index as int) =~= within);
    cuts
}

/// Whether cuts begin at the first frame, never go back, and lie before or at an
/// end.
pub open spec fn well_cut(cuts: Seq<usize>, end: int) -> bool {
    &&& cuts.len() > 0
    &&& cuts[0] == 0
    &&& ordered(cuts)
    &&& forall|i: int| 0 <= i < cuts.len() ==> #[trigger] cuts[i] <= end
}

/// The boundaries that are kept ascend from the first frame.
proof fn lemma_kept_ascends(ranges: Seq<(usize, usize)>, minimum: usize)
    requires
        minimum >= 1,
    ensures
        well_cut(kept(ranges, minimum), usize::MAX as int),
        forall|i: int, j: int|
            0 <= i < j < kept(ranges, minimum).len() ==> kept(ranges, minimum)[i] < kept(
                ranges,
                minimum,
            )[j],
    decreases ranges.len(),
{
    if ranges.len() > 0 {
        lemma_kept_ascends(ranges.drop_last(), minimum);
        let before = kept(ranges.drop_last(), minimum);
        let after = kept(ranges, minimum);
        if after.len() != before.len() {
            assert forall|i: int, j: int| 0 <= i < j < after.len() implies after[i] < after[j] by {
                if j == before.len() {
                    assert(before[i] <= before.last());
                }
            }
        }
    }
}

/// Marks ascend within their stretch.
proof fn lemma_marked(
    before: Seq<usize>,
    position: int,
    end: int,
    piece: int,
    minimum: int,
)
    requires
        before.len() > 0,
        before[0] == 0,
        ordered(before),
        before.last() <= position,
        0 <= position,
        end <= usize::MAX,
        forall|i: int| 0 <= i < before.len() ==> #[trigger] before[i] <= end,
    ensures
        well_cut(marked(before, position, end, piece, minimum), end),
    decreases greater(end - position, 0),
{
    if piece > 0 && position < end && end - position >= minimum {
        let next = before.push(position as usize);
        assert forall|i: int, j: int| 0 <= i <= j < next.len() implies next[i] <= next[j] by {
            if j == before.len() && i < j {
                assert(before[i] <= before.last());
            }
        }
        lemma_marked(next, position + piece, end, piece, minimum);
    }
}

/// Divided stretches ascend.
proof fn lemma_all_divided(
    cuts: Seq<usize>,
    count: int,
    length: usize,
    minimum: int,
    maximum: int,
)
    requires
        well_cut(cuts, usize::MAX as int),
        1 <= count <= cuts.len(),
        maximum > 0,
    ensures
        ({
            let pieces = all_divided(cuts, count, length, minimum, maximum);
            well_cut(
                pieces,
                greater(cuts[count - 1] as int, stretch_end(cuts, count - 1, length)),
            )
        }),
    decreases count,
{
    let before = all_divided(cuts, count - 1, length, minimum, maximum);
    let start = cuts[count - 1] as int;
    let end = stretch_end(cuts, count - 1, length);
    let opened = before.push(start as usize);
    if count > 1 {
        lemma_all_divided(cuts, count - 1, length, minimum, maximum);
        assert(stretch_end(cuts, count - 2, length) == start);
        assert(cuts[count - 2] <= cuts[count - 1]);
        assert forall|i: int, j: int| 0 <= i <= j < opened.len() implies opened[i]
            <= opened[j] by {
            if j == before.len() && i < j {
                assert(before[i] <= start);
            }
        }
    } else {
        assert(before =~= Seq::<usize>::empty());
    }
    let span = greater(end - start, 0);
    if span > maximum {
        lemma_piece(span, maximum);
        let piece = rounded_up(span, rounded_up(span, maximum));
        lemma_marked(opened, start + piece, end, piece, minimum);
    }
}

/// Cuts that lie before an end still ascend from the first frame.
proof fn lemma_below(cuts: Seq<usize>, length: usize)
    requires
        ordered(cuts),
        cuts.len() > 0 ==> cuts[0] == 0,
        length > 0,
    ensures
        ordered(below(cuts, length)),
        forall|i: int|
            0 <= i < below(cuts, length).len() ==> #[trigger] below(cuts, length)[i] < length,
        cuts.len() > 0 ==> below(cuts, length).len() > 0 && below(cuts, length)[0] == 0,
        cuts.len() > 0 && below(cuts, length).len() > 0 ==> below(cuts, length).last()
            <= cuts.last(),
    decreases cuts.len(),
{
    if cuts.len() > 0 {
        let front = cuts.drop_last();
        lemma_below(front, length);
        let before = below(front, length);
        if front.len() > 0 {
            assert(front.last() <= cuts.last());
        }
        if cuts.last() < length {
            let after = below(cuts, length);
            assert forall|i: int, j: int| 0 <= i <= j < after.len() implies after[i]
                <= after[j] by {
                if j == before.len() && i < j {
                    assert(before[i] <= before.last());
                }
            }
        }
    }
}

/// Cuts without repetition still ascend from the first frame.
proof fn lemma_single(cuts: Seq<usize>)
    requires
        ordered(cuts),
    ensures
        ordered(single(cuts)),
        forall|i: int| 0 <= i < single(cuts).len() ==> cuts.contains(#[trigger] single(cuts)[i]),
        cuts.len() > 0 ==> {
            &&& single(cuts).len() > 0
            &&& single(cuts)[0] == cuts[0]
            &&& single(cuts).last() == cuts.last()
        },
    decreases cuts.len(),
{
    if cuts.len() >= 2 {
        let front = cuts.drop_last();
        lemma_single(front);
        let before = single(front);
        let after = single(cuts);
        assert(front.last() <= cuts.last());
        assert forall|i: int, j: int| 0 <= i <= j < after.len() implies after[i] <= after[j] by {
            if after.len() != before.len() && j == before.len() && i < j {
                assert(before[i] <= before.last());
            }
        }
        assert forall|i: int| 0 <= i < after.len() implies cuts.contains(#[trigger] after[i]) by {
            if i < before.len() {
                assert(front.contains(before[i]));
                let k = choose|k: int| 0 <= k < front.len() && front[k] == before[i];
                assert(cuts[k] == before[i]);
            } else {
                assert(cuts[cuts.len() - 1] == after[i]);
            }
        }
    }
}

/// The events between shaped cuts tile the whole timeline, whatever was
/// detected.
pub proof fn law_shaped_events_tile_the_timeline(
    channel: usize,
    ranges: Seq<(usize, usize)>,
    length: usize,
    minimum: usize,
    maximum: usize,
)
    requires
        length > 0,
        minimum > 0,
    ensures
        ordered(shaped(ranges, length, minimum, maximum)),
        tiles(
            pieces_of(channel, shaped(ranges, length, minimum, maximum), length),
            0,
            length as int,
        ),
{
    let cuts = kept(ranges, minimum);
    lemma_kept_ascends(ranges, minimum);
    let limited = if maximum > 0 {
        all_divided(cuts, cuts.len() as int, length, minimum as int, maximum as int)
    } else {
        cuts
    };
    if maximum > 0 {
        lemma_all_divided(cuts, cuts.len() as int, length, minimum as int, maximum as int);
    }
    lemma_below(limited, length);
    let inside = below(limited, length);
    lemma_single(inside);
    let result = shaped(ranges, length, minimum, maximum);
    assert(result.last() < length);
    law_pieces_tile_the_timeline(channel, result, length);
}

/// Whether no cut lies farther behind the one before than a bound.
spec fn close(cuts: Seq<usize>, bound: int) -> bool {
    forall|i: int| 0 <= i < cuts.len() - 1 ==> #[trigger] cuts[i + 1] - cuts[i] <= bound
}

/// One more cut within the bound keeps cuts close.
proof fn lemma_close_push(cuts: Seq<usize>, cut: usize, bound: int)
    requires
        close(cuts, bound),
        cuts.len() > 0 ==> cut - cuts.last() <= bound,
    ensures
        close(cuts.push(cut), bound),
{
    let after = cuts.push(cut);
    assert forall|i: int| 0 <= i < after.len() - 1 implies #[trigger] after[i + 1] - after[i]
        <= bound by {
        if i + 1 < cuts.len() {
            assert(cuts[i + 1] - cuts[i] <= bound);
        }
    }
}

/// Marks are a piece apart, and what is left behind the last of them is no piece
/// and a minimum.
proof fn lemma_marked_close(
    before: Seq<usize>,
    position: int,
    end: int,
    piece: int,
    minimum: int,
    bound: int,
)
    requires
        before.len() > 0,
        close(before, bound),
        0 <= position,
        end <= usize::MAX,
        0 < piece,
        before.last() == position - piece,
        piece + minimum - 1 <= bound,
        minimum >= 1,
    ensures
        ({
            let after = marked(before, position, end, piece, minimum);
            after.len() > 0 && close(after, bound) && end - after.last() <= bound
        }),
    decreases greater(end - position, 0),
{
    if position < end && end - position >= minimum {
        lemma_close_push(before, position as usize, bound);
        lemma_marked_close(
            before.push(position as usize),
            position + piece,
            end,
            piece,
            minimum,
            bound,
        );
    }
}

/// An equal piece of a stretch is no longer than the maximum it was divided for.
proof fn lemma_piece_fits(span: int, maximum: int)
    requires
        0 < maximum < span,
    ensures
        rounded_up(span, rounded_up(span, maximum)) <= maximum,
{
    let count = rounded_up(span, maximum);
    let piece = rounded_up(span, count);
    vstd::arithmetic::div_mod::lemma_fundamental_div_mod(span + maximum - 1, maximum);
    vstd::arithmetic::div_mod::lemma_mod_bound(span + maximum - 1, maximum);
    assert(maximum * count >= span);
    assert(count >= 1) by (nonlinear_arith)
        requires
            maximum * count >= span,
            span > 0,
            maximum > 0,
    ;
    vstd::arithmetic::div_mod::lemma_fundamental_div_mod(span + count - 1, count);
    vstd::arithmetic::div_mod::lemma_mod_bound(span + count - 1, count);
    assert(piece <= maximum) by (nonlinear_arith)
        requires
            count * piece <= span + count - 1,
            span <= maximum * count,
            count >= 1,
    ;
}

/// Divided stretches are close.
proof fn lemma_all_divided_close(
    cuts: Seq<usize>,
    count: int,
    length: usize,
    minimum: int,
    maximum: int,
)
    requires
        well_cut(cuts, usize::MAX as int),
        1 <= count <= cuts.len(),
        maximum > 0,
        minimum >= 1,
    ensures
        ({
            let pieces = all_divided(cuts, count, length, minimum, maximum);
            &&& pieces.len() > 0
            &&& close(pieces, maximum + minimum - 1)
            &&& stretch_end(cuts, count - 1, length) - pieces.last() <= maximum + minimum - 1
        }),
    decreases count,
{
    let bound = maximum + minimum - 1;
    let before = all_divided(cuts, count - 1, length, minimum, maximum);
    let start = cuts[count - 1] as int;
    let end = stretch_end(cuts, count - 1, length);
    if count > 1 {
        lemma_all_divided_close(cuts, count - 1, length, minimum, maximum);
        assert(stretch_end(cuts, count - 2, length) == start);
    }
    lemma_close_push(before, start as usize, bound);
    let span = greater(end - start, 0);
    if span > maximum {
        lemma_piece(span, maximum);
        lemma_piece_fits(span, maximum);
        let piece = rounded_up(span, rounded_up(span, maximum));
        lemma_marked_close(before.push(start as usize), start + piece, end, piece, minimum, bound);
    }
}

/// Leaving out the cuts behind an end keeps the others close, up to the end.
proof fn lemma_below_close(cuts: Seq<usize>, length: usize, bound: int)
    requires
        ordered(cuts),
        cuts.len() > 0,
        cuts[0] == 0,
        length > 0,
        close(cuts, bound),
        length - cuts.last() <= bound,
    ensures
        below(cuts, length).len() > 0,
        close(below(cuts, length), bound),
        length - below(cuts, length).last() <= bound,
    decreases cuts.len(),
{
    lemma_below(cuts, length);
    if cuts.last() < length {
        lemma_all_below(cuts, length);
    } else {
        let front = cuts.drop_last();
        assert(front.len() > 0);
        assert forall|i: int| 0 <= i < front.len() - 1 implies #[trigger] front[i + 1] - front[i]
            <= bound by {
            assert(cuts[i + 1] - cuts[i] <= bound);
        }
        assert(cuts[cuts.len() - 2 + 1] - cuts[cuts.len() - 2] <= bound);
        lemma_below_close(front, length, bound);
    }
}

/// Where the last of ascending cuts lies before an end, all do.
proof fn lemma_all_below(cuts: Seq<usize>, length: usize)
    requires
        ordered(cuts),
        cuts.len() > 0 ==> cuts.last() < length,
    ensures
        below(cuts, length) == cuts,
    decreases cuts.len(),
{
    if cuts.len() > 0 {
        let front = cuts.drop_last();
        if front.len() > 0 {
            assert(cuts[front.len() - 1] <= cuts[cuts.len() - 1]);
        }
        lemma_all_below(front, length);
        assert(front.push(cuts.last()) =~= cuts);
    }
}

/// Leaving out repetitions keeps cuts close.
proof fn lemma_single_close(cuts: Seq<usize>, bound: int)
    requires
        ordered(cuts),
        close(cuts, bound),
    ensures
        close(single(cuts), bound),
    decreases cuts.len(),
{
    if cuts.len() >= 2 {
        let front = cuts.drop_last();
        assert forall|i: int| 0 <= i < front.len() - 1 implies #[trigger] front[i + 1] - front[i]
            <= bound by {
            assert(cuts[i + 1] - cuts[i] <= bound);
        }
        lemma_single(front);
        lemma_single_close(front, bound);
        assert(cuts[cuts.len() - 2 + 1] - cuts[cuts.len() - 2] <= bound);
        lemma_close_push(single(front), cuts.last(), bound);
    }
}

/// No piece between shaped cuts is longer than the maximum, but for one that ends
/// a stretch: what would be left behind it, less than the minimum, is added to it.
pub proof fn law_shaped_pieces_are_bounded(
    channel: usize,
    ranges: Seq<(usize, usize)>,
    length: usize,
    minimum: usize,
    maximum: usize,
)
    requires
        length > 0,
        minimum > 0,
        maximum > 0,
    ensures
        forall|i: int|
            0 <= i < pieces_of(
                channel,
                shaped(ranges, length, minimum, maximum),
                length,
            ).len() ==> (#[trigger] pieces_of(
                channel,
                shaped(ranges, length, minimum, maximum),
                length,
            )[i]).length < maximum + minimum,
{
    let bound = maximum + minimum - 1;
    let cuts = kept(ranges, minimum);
    let limited = all_divided(cuts, cuts.len() as int, length, minimum as int, maximum as int);
    lemma_kept_ascends(ranges, minimum);
    lemma_all_divided(cuts, cuts.len() as int, length, minimum as int, maximum as int);
    lemma_all_divided_close(cuts, cuts.len() as int, length, minimum as int, maximum as int);
    lemma_below_close(limited, length, bound);
    lemma_below(limited, length);
    let inside = below(limited, length);
    lemma_single(inside);
    lemma_single_close(inside, bound);
    let result = shaped(ranges, length, minimum, maximum);
    let pieces = pieces_of(channel, result, length);
    assert forall|i: int| 0 <= i < pieces.len() implies (#[trigger] pieces[i]).length < maximum
        + minimum by {
        if i < result.len() - 1 {
            assert(result[i + 1] - result[i] <= bound);
            assert(result[i] <= result[i + 1]);
        }
    }
}

/// Whether detected ranges start one behind the other.
pub open spec fn ascending(ranges: Seq<(usize, usize)>) -> bool {
    forall|i: int, j: int| 0 <= i < j < ranges.len() ==> ranges[i].0 < ranges[j].0
}

/// Whether a frame is the first one or the start of one of the first ranges.
pub open spec fn opens(ranges: Seq<(usize, usize)>, count: int, frame: usize) -> bool {
    ||| frame == 0
    ||| exists|i: int| 0 <= i < count && #[trigger] ranges[i].0 == frame
}

/// What is kept is the first frame and starts that were detected.
proof fn lemma_kept_opens(ranges: Seq<(usize, usize)>, minimum: usize)
    ensures
        kept(ranges, minimum).len() > 0,
        forall|k: int|
            0 <= k < kept(ranges, minimum).len() ==> opens(
                ranges,
                ranges.len() as int,
                #[trigger] kept(ranges, minimum)[k],
            ),
    decreases ranges.len(),
{
    if ranges.len() > 0 {
        let front = ranges.drop_last();
        lemma_kept_opens(front, minimum);
        let cuts = kept(ranges, minimum);
        assert forall|k: int| 0 <= k < cuts.len() implies opens(
            ranges,
            ranges.len() as int,
            #[trigger] cuts[k],
        ) by {
            if k < kept(front, minimum).len() {
                assert(cuts[k] == kept(front, minimum)[k]);
                if cuts[k] != 0 {
                    let i = choose|i: int|
                        0 <= i < front.len() && #[trigger] front[i].0 == cuts[k];
                    assert(ranges[i].0 == cuts[k]);
                }
            } else {
                assert(ranges[ranges.len() - 1].0 == cuts[k]);
            }
        }
    }
}

/// A start is kept, or lies too close behind one that is.
proof fn lemma_kept_starts(ranges: Seq<(usize, usize)>, minimum: usize, index: int)
    requires
        ascending(ranges),
        0 <= index < ranges.len(),
        ranges[index].0 > 0,
    ensures
        kept(ranges, minimum).contains(ranges[index].0) || exists|k: int|
            0 <= k < kept(ranges, minimum).len() && #[trigger] kept(ranges, minimum)[k]
                < ranges[index].0 < kept(ranges, minimum)[k] + minimum,
    decreases ranges.len(),
{
    let front = ranges.drop_last();
    let before = kept(front, minimum);
    let cuts = kept(ranges, minimum);
    let start = ranges[index].0;
    lemma_kept_opens(front, minimum);
    if index < ranges.len() - 1 {
        lemma_kept_starts(front, minimum, index);
        assert(front[index] == ranges[index]);
        if before.contains(start) {
            let k = choose|k: int| 0 <= k < before.len() && before[k] == start;
            assert(cuts[k] == start);
        } else {
            let k = choose|k: int|
                0 <= k < before.len() && #[trigger] before[k] < start < before[k] + minimum;
            assert(cuts[k] == before[k]);
        }
    } else {
        let k = before.len() - 1;
        assert(opens(front, front.len() as int, before[k]));
        if before[k] != 0 {
            let i = choose|i: int| 0 <= i < front.len() && #[trigger] front[i].0 == before[k];
            assert(ranges[i].0 < ranges[index].0);
        }
        if cuts.len() > before.len() {
            assert(cuts[cuts.len() - 1] == start);
        } else {
            assert(cuts[k] < start < cuts[k] + minimum);
        }
    }
}

/// Marking a stretch keeps what was marked before.
proof fn lemma_marked_keeps(
    before: Seq<usize>,
    position: int,
    end: int,
    piece: int,
    minimum: int,
    cut: usize,
)
    requires
        before.contains(cut),
    ensures
        marked(before, position, end, piece, minimum).contains(cut),
    decreases greater(end - position, 0),
{
    if piece > 0 && position < end && end - position >= minimum {
        let after = before.push(position as usize);
        let k = choose|k: int| 0 <= k < before.len() && before[k] == cut;
        assert(after[k] == cut);
        lemma_marked_keeps(after, position + piece, end, piece, minimum, cut);
    }
}

/// Dividing stretches keeps the cuts between them.
proof fn lemma_divided_keeps(
    cuts: Seq<usize>,
    count: int,
    length: usize,
    minimum: int,
    maximum: int,
    index: int,
)
    requires
        0 <= index < count <= cuts.len(),
    ensures
        all_divided(cuts, count, length, minimum, maximum).contains(cuts[index]),
    decreases count,
{
    let before = all_divided(cuts, count - 1, length, minimum, maximum);
    let start = cuts[count - 1] as int;
    let end = stretch_end(cuts, count - 1, length);
    let opened = before.push(start as usize);
    if index < count - 1 {
        lemma_divided_keeps(cuts, count - 1, length, minimum, maximum, index);
        let k = choose|k: int| 0 <= k < before.len() && before[k] == cuts[index];
        assert(opened[k] == cuts[index]);
    } else {
        assert(opened[opened.len() - 1] == cuts[index]);
    }
    let span = greater(end - start, 0);
    if span > maximum {
        let piece = rounded_up(span, rounded_up(span, maximum));
        lemma_marked_keeps(opened, start + piece, end, piece, minimum, cuts[index]);
    }
}

/// Cuts that lie inside stay, once.
proof fn lemma_inside_keeps(cuts: Seq<usize>, length: usize, cut: usize)
    requires
        cuts.contains(cut),
        cut < length,
    ensures
        below(cuts, length).contains(cut),
    decreases cuts.len(),
{
    let k = choose|k: int| 0 <= k < cuts.len() && cuts[k] == cut;
    let front = cuts.drop_last();
    let rest = below(front, length);
    let all = below(cuts, length);
    if k < front.len() {
        assert(front[k] == cut);
        lemma_inside_keeps(front, length, cut);
        let j = choose|j: int| 0 <= j < rest.len() && rest[j] == cut;
        assert(all[j] == cut);
    } else {
        assert(all[all.len() - 1] == cut);
    }
}

/// Dropping repetitions drops no cut.
proof fn lemma_single_keeps(cuts: Seq<usize>, cut: usize)
    requires
        cuts.contains(cut),
    ensures
        single(cuts).contains(cut),
    decreases cuts.len(),
{
    if cuts.len() >= 2 {
        let k = choose|k: int| 0 <= k < cuts.len() && cuts[k] == cut;
        let front = cuts.drop_last();
        let rest = single(front);
        let all = single(cuts);
        if k < front.len() || cuts.last() == cuts[cuts.len() - 2] {
            if k < front.len() {
                assert(front[k] == cut);
            } else {
                assert(front[front.len() - 1] == cut);
            }
            lemma_single_keeps(front, cut);
            let j = choose|j: int| 0 <= j < rest.len() && rest[j] == cut;
            assert(all[j] == cut);
        } else {
            assert(all[all.len() - 1] == cut);
        }
    }
}

/// What is kept and lies inside is among the shaped cuts.
proof fn lemma_kept_is_shaped(
    ranges: Seq<(usize, usize)>,
    length: usize,
    minimum: usize,
    maximum: usize,
    index: int,
)
    requires
        0 <= index < kept(ranges, minimum).len(),
        kept(ranges, minimum)[index] < length,
    ensures
        shaped(ranges, length, minimum, maximum).contains(kept(ranges, minimum)[index]),
{
    let cuts = kept(ranges, minimum);
    let cut = cuts[index];
    let limited = if maximum > 0 {
        all_divided(cuts, cuts.len() as int, length, minimum as int, maximum as int)
    } else {
        cuts
    };
    if maximum > 0 {
        lemma_divided_keeps(
            cuts,
            cuts.len() as int,
            length,
            minimum as int,
            maximum as int,
            index,
        );
    }
    assert(limited.contains(cut));
    lemma_inside_keeps(limited, length, cut);
    lemma_single_keeps(below(limited, length), cut);
}

/// Where detected starts ascend, each of them that lies inside the channel and
/// above zero is among the cuts, unless it lies less than the minimum behind
/// another cut, which is the first frame or an earlier start. So every start that
/// lies at least the minimum behind the first frame and behind all earlier ones
/// becomes a cut.
pub proof fn law_detected_starts_become_cuts(
    ranges: Seq<(usize, usize)>,
    length: usize,
    minimum: usize,
    maximum: usize,
    index: int,
)
    requires
        ascending(ranges),
        0 <= index < ranges.len(),
        0 < ranges[index].0 < length,
    ensures
        shaped(ranges, length, minimum, maximum).contains(ranges[index].0) || exists|cut: usize|
            #[trigger] shaped(ranges, length, minimum, maximum).contains(cut) && opens(
                ranges,
                index,
                cut,
            ) && cut < ranges[index].0 < cut + minimum,
        ranges[index].0 >= minimum && (forall|i: int|
            0 <= i < index ==> (#[trigger] ranges[i].0) + minimum <= ranges[index].0)
            ==> shaped(ranges, length, minimum, maximum).contains(ranges[index].0),
{
    let start = ranges[index].0;
    let cuts = kept(ranges, minimum);
    let all = shaped(ranges, length, minimum, maximum);
    lemma_kept_opens(ranges, minimum);
    lemma_kept_starts(ranges, minimum, index);
    if cuts.contains(start) {
        let k = choose|k: int| 0 <= k < cuts.len() && cuts[k] == start;
        lemma_kept_is_shaped(ranges, length, minimum, maximum, k);
    } else {
        let k = choose|k: int|
            0 <= k < cuts.len() && #[trigger] cuts[k] < start < cuts[k] + minimum;
        lemma_kept_is_shaped(ranges, length, minimum, maximum, k);
        assert(opens(ranges, ranges.len() as int, cuts[k]));
        if cuts[k] != 0 {
            let i = choose|i: int| 0 <= i < ranges.len() && #[trigger] ranges[i].0 == cuts[k];
            assert(i < index);
            assert(ranges[i].0 == cuts[k]);
        }
        assert(opens(ranges, index, cuts[k]));
        assert(all.contains(cuts[k]));
    }
}

/// Dropping cuts leaves some of them, as far apart as they were.
proof fn lemma_apart(cuts: Seq<usize>, length: usize, minimum: usize)
    requires
        forall|i: int, j: int|
            0 <= i < j < cuts.len() ==> #[trigger] cuts[i] + minimum <= #[trigger] cuts[j],
        minimum > 0,
    ensures
        single(below(cuts, length)) == below(cuts, length),
        forall|k: int|
            0 <= k < below(cuts, length).len() ==> cuts.contains(
                #[trigger] below(cuts, length)[k],
            ),
        forall|i: int, j: int|
            0 <= i < j < below(cuts, length).len() ==> #[trigger] below(cuts, length)[i] + minimum
                <= #[trigger] below(cuts, length)[j],
    decreases cuts.len(),
{
    if cuts.len() > 0 {
        let front = cuts.drop_last();
        lemma_apart(front, length, minimum);
        let rest = below(front, length);
        let all = below(cuts, length);
        assert forall|k: int| 0 <= k < all.len() implies cuts.contains(#[trigger] all[k]) by {
            if k < rest.len() {
                assert(all[k] == rest[k]);
                let j = choose|j: int| 0 <= j < front.len() && front[j] == rest[k];
                assert(cuts[j] == all[k]);
            } else {
                assert(cuts[cuts.len() - 1] == all[k]);
            }
        }
        assert forall|i: int, j: int| 0 <= i < j < all.len() implies #[trigger] all[i] + minimum
            <= #[trigger] all[j] by {
            if j < rest.len() {
                assert(rest[i] + minimum <= rest[j]);
            } else {
                assert(front.contains(rest[i]));
                let h = choose|h: int| 0 <= h < front.len() && front[h] == rest[i];
                assert(cuts[h] + minimum <= cuts[cuts.len() - 1]);
            }
        }
        if all.len() >= 2 && all.len() > rest.len() {
            assert(all.drop_last() =~= rest);
            assert(all[all.len() - 2] + minimum <= all[all.len() - 1]);
        } else if all.len() > rest.len() {
            assert(single(all) == all);
        }
    }
}

/// What is kept lies at least the minimum apart.
proof fn lemma_kept_apart(ranges: Seq<(usize, usize)>, minimum: usize)
    requires
        minimum > 0,
    ensures
        kept(ranges, minimum).len() > 0,
        forall|i: int, j: int|
            0 <= i < j < kept(ranges, minimum).len() ==> #[trigger] kept(ranges, minimum)[i]
                + minimum <= #[trigger] kept(ranges, minimum)[j],
    decreases ranges.len(),
{
    if ranges.len() > 0 {
        let front = ranges.drop_last();
        lemma_kept_apart(front, minimum);
        let before = kept(front, minimum);
        let cuts = kept(ranges, minimum);
        assert forall|i: int, j: int| 0 <= i < j < cuts.len() implies #[trigger] cuts[i] + minimum
            <= #[trigger] cuts[j] by {
            if j == before.len() && i < before.len() - 1 {
                assert(before[i] + minimum <= before[before.len() - 1]);
            } else if j < before.len() {
                assert(before[i] + minimum <= before[j]);
            }
        }
    }
}

/// Without a maximum every cut is the first frame or the start of a detected
/// range, and no two cuts are closer than the minimum.
pub proof fn law_cuts_are_detected_starts(
    ranges: Seq<(usize, usize)>,
    length: usize,
    minimum: usize,
)
    requires
        minimum > 0,
    ensures
        forall|k: int|
            0 <= k < shaped(ranges, length, minimum, 0).len() ==> opens(
                ranges,
                ranges.len() as int,
                #[trigger] shaped(ranges, length, minimum, 0)[k],
            ) && shaped(ranges, length, minimum, 0)[k] < length,
        forall|i: int, j: int|
            0 <= i < j < shaped(ranges, length, minimum, 0).len() ==> #[trigger] shaped(
                ranges,
                length,
                minimum,
                0,
            )[i] + minimum <= #[trigger] shaped(ranges, length, minimum, 0)[j],
{
    let cuts = kept(ranges, minimum);
    let all = shaped(ranges, length, minimum, 0);
    lemma_kept_opens(ranges, minimum);
    lemma_kept_apart(ranges, minimum);
    lemma_apart(cuts, length, minimum);
    lemma_all_inside(cuts, length);
    assert forall|k: int| 0 <= k < all.len() implies opens(
        ranges,
        ranges.len() as int,
        #[trigger] all[k],
    ) && all[k] < length by {
        assert(cuts.contains(below(cuts, length)[k]));
        let j = choose|j: int| 0 <= j < cuts.len() && cuts[j] == all[k];
        assert(opens(ranges, ranges.len() as int, cuts[j]));
    }
}

/// Cuts inside lie below the length.
proof fn lemma_all_inside(cuts: Seq<usize>, length: usize)
    ensures
        forall|k: int|
            0 <= k < below(cuts, length).len() ==> #[trigger] below(cuts, length)[k] < length,
    decreases cuts.len(),
{
    if cuts.len() > 0 {
        let rest = below(cuts.drop_last(), length);
        lemma_all_inside(cuts.drop_last(), length);
        assert forall|k: int| 0 <= k < below(cuts, length).len() implies #[trigger] below(
            cuts,
            length,
        )[k] < length by {
            if k < rest.len() {
                assert(rest[k] < length);
            }
        }
    }
}

/// Whether one event comes before another: by its start, then by its channel.
pub open spec fn earlier(first: Event, second: Event) -> bool {
    first.start < second.start || (first.start == second.start && first.channel < second.channel)
}

/// Two lists of events in one, the first list's coming first where two are
/// level.
pub open spec fn merged(first: Seq<Event>, second: Seq<Event>) -> Seq<Event>
    decreases first.len() + second.len(),
{
    if first.len() == 0 {
        second
    } else if second.len() == 0 {
        first
    } else if earlier(second.last(), first.last()) {
        merged(first.drop_last(), second).push(first.last())
    } else {
        merged(first, second.drop_last()).push(second.last())
    }
}

/// Whether events are in order.
pub open spec fn in_order(events: Seq<Event>) -> bool {
    forall|i: int, j: int| 0 <= i <= j < events.len() ==> !earlier(events[j], events[i])
}

/// The events of the first channels, in order.
pub open spec fn gathered(cuts: Seq<Vec<usize>>, count: int, frames: usize) -> Seq<Event>
    decreases count,
{
    if count <= 0 {
        Seq::empty()
    } else {
        merged(
            gathered(cuts, count - 1, frames),
            pieces_of((count - 1) as usize, cuts[count - 1]@, frames),
        )
    }
}

/// Merges two lists of events.
fn merge(first: &Vec<Event>, second: &Vec<Event>) -> (events: Vec<Event>)
    requires
        first@.len() + second@.len() <= usize::MAX,
    ensures
        events@ == merged(first@, second@),
{
    let mut backwards: Vec<Event> = Vec::new();
    let mut left: usize = first.len();
    let mut right: usize = second.len();
    let ghost goal = merged(first@, second@);
    assert(first@.take(left as int) =~= first@);
    assert(second@.take(right as int) =~= second@);
    assert(backwards@.reverse() =~= Seq::<Event>::empty());
    assert(goal + Seq::<Event>::empty() =~= goal);
    while left > 0 || right > 0
        invariant
            left <= first@.len(),
            right <= second@.len(),
            goal == merged(first@.take(left as int), second@.take(right as int))
                + backwards@.reverse(),
        decreases left + right,
    {
        let ghost head = first@.take(left as int);
        let ghost tail = second@.take(right as int);
        let ghost before = backwards@;
        let from_first: bool = if right == 0 {
            true
        } else if left == 0 {
            false
        } else {
            let one = first[left - 1];
            let other = second[right - 1];
            other.start < one.start || (other.start == one.start && other.channel < one.channel)
        };
        if from_first {
            backwards.push(first[left - 1]);
            left = left - 1;
            proof {
                assert(head.drop_last() =~= first@.take(left as int));
                if tail.len() == 0 {
                    assert(tail =~= Seq::<Event>::empty());
                    assert(merged(head, tail) =~= merged(head.drop_last(), tail).push(head.last()));
                }
                assert(backwards@.reverse() =~= seq![head.last()] + before.reverse());
                assert(merged(head, tail) + before.reverse() =~= merged(head.drop_last(), tail)
                    + backwards@.reverse());
            }
        } else {
            backwards.push(second[right - 1]);
            right = right - 1;
            proof {
                assert(tail.drop_last() =~= second@.take(right as int));
                if head.len() == 0 {
                    assert(head =~= Seq::<Event>::empty());
                    assert(merged(head, tail) =~= merged(head, tail.drop_last()).push(tail.last()));
                }
                assert(backwards@.reverse() =~= seq![tail.last()] + before.reverse());
                assert(merged(head, tail) + before.reverse() =~= merged(head, tail.drop_last())
                    + backwards@.reverse());
            }
        }
    }
    assert(goal =~= backwards@.reverse());
    let mut events: Vec<Event> = Vec::new();
    let mut index: usize = backwards.len();
    while index > 0
        invariant
            index <= backwards@.len(),
            events@.len() + index == backwards@.len(),
            forall|i: int|
                0 <= i < events@.len() ==> #[trigger] events@[i] == backwards@[backwards@.len() - 1
                    - i],
        decreases index,
    {
        index = index - 1;
        events.push(backwards[index]);
    }
    assert(events@ =~= backwards@.reverse());
    events
}

/// Cuts a recording into events: the events of every channel, in order.
pub fn gather(cuts: &Vec<Vec<usize>>, frames: usize) -> (events: Vec<Event>)
    requires
        forall|c: int| 0 <= c < cuts@.len() ==> ordered((#[trigger] cuts@[c])@),
        gathered(cuts@, cuts@.len() as int, frames).len() <= usize::MAX,
    ensures
        events@ == gathered(cuts@, cuts@.len() as int, frames),
{
    let mut events: Vec<Event> = Vec::new();
    let mut channel: usize = 0;
    assert(events@ =~= Seq::<Event>::empty());
    while channel < cuts.len()
        invariant
            channel <= cuts@.len(),
            forall|c: int| 0 <= c < cuts@.len() ==> ordered((#[trigger] cuts@[c])@),
            gathered(cuts@, cuts@.len() as int, frames).len() <= usize::MAX,
            events@ == gathered(cuts@, channel as int, frames),
        decreases cuts@.len() - channel,
    {
        let pieces = events_from(channel, &cuts[channel], frames);
        proof {
            lemma_merged_length(events@, pieces@);
            lemma_gathered_grows(cuts@, channel + 1, cuts@.len() as int, frames);
        }
        events = merge(&events, &pieces);
        channel = channel + 1;
    }
    events
}

/// Merging keeps every event.
proof fn lemma_merged_length(first: Seq<Event>, second: Seq<Event>)
    ensures
        merged(first, second).len() == first.len() + second.len(),
    decreases first.len() + second.len(),
{
    if first.len() > 0 && second.len() > 0 {
        if earlier(second.last(), first.last()) {
            lemma_merged_length(first.drop_last(), second);
        } else {
            lemma_merged_length(first, second.drop_last());
        }
    }
}

/// More channels have more events.
proof fn lemma_gathered_grows(cuts: Seq<Vec<usize>>, count: int, more: int, frames: usize)
    requires
        0 <= count <= more <= cuts.len(),
    ensures
        gathered(cuts, count, frames).len() <= gathered(cuts, more, frames).len(),
    decreases more - count,
{
    if count < more {
        lemma_gathered_grows(cuts, count, more - 1, frames);
        lemma_merged_length(
            gathered(cuts, more - 1, frames),
            pieces_of((more - 1) as usize, cuts[more - 1]@, frames),
        );
    }
}

/// Merging lists that are in order gives a list that is in order and holds what
/// the two held.
proof fn lemma_merged(first: Seq<Event>, second: Seq<Event>)
    requires
        in_order(first),
        in_order(second),
    ensures
        in_order(merged(first, second)),
        merged(first, second).to_multiset() == first.to_multiset().add(second.to_multiset()),
    decreases first.len() + second.len(),
{
    broadcast use vstd::seq_lib::group_to_multiset_ensures;

    if first.len() == 0 {
        assert(first =~= Seq::<Event>::empty());
        assert(merged(first, second).to_multiset() =~= first.to_multiset().add(
            second.to_multiset(),
        ));
    } else if second.len() == 0 {
        assert(second =~= Seq::<Event>::empty());
        assert(merged(first, second).to_multiset() =~= first.to_multiset().add(
            second.to_multiset(),
        ));
    } else {
        let take_first = earlier(second.last(), first.last());
        let one = if take_first {
            first.drop_last()
        } else {
            first
        };
        let other = if take_first {
            second
        } else {
            second.drop_last()
        };
        let last = if take_first {
            first.last()
        } else {
            second.last()
        };
        lemma_merged(one, other);
        let before = merged(one, other);
        let after = merged(first, second);
        assert(after == before.push(last));
        assert(first =~= first.drop_last().push(first.last()));
        assert(second =~= second.drop_last().push(second.last()));
        assert(after.to_multiset() =~= first.to_multiset().add(second.to_multiset()));
        assert forall|i: int, j: int| 0 <= i <= j < after.len() implies !earlier(
            after[j],
            after[i],
        ) by {
            if j == before.len() && i < j {
                assert(before.to_multiset().contains(before[i])) by {
                    assert(before.contains(before[i]));
                }
                if one.to_multiset().contains(before[i]) {
                    assert(one.contains(before[i]));
                    let k = choose|k: int| 0 <= k < one.len() && one[k] == before[i];
                    assert(first[k] == before[i]);
                    assert(!earlier(first.last(), first[k]));
                } else {
                    assert(other.to_multiset().contains(before[i]));
                    assert(other.contains(before[i]));
                    let k = choose|k: int| 0 <= k < other.len() && other[k] == before[i];
                    assert(second[k] == before[i]);
                    assert(!earlier(second.last(), second[k]));
                }
            }
        }
    }
}

/// The pieces of one channel are in order.
proof fn lemma_pieces_in_order(channel: usize, cuts: Seq<usize>, frames: usize)
    requires
        ordered(cuts),
    ensures
        in_order(pieces_of(channel, cuts, frames)),
{
    let pieces = pieces_of(channel, cuts, frames);
    assert forall|i: int, j: int| 0 <= i <= j < pieces.len() implies !earlier(
        pieces[j],
        pieces[i],
    ) by {
        assert(pieces[i].start == cuts[i]);
        assert(pieces[j].start == cuts[j]);
    }
}

/// The events that were gathered are in time order, and are the events of every
/// channel.
pub proof fn law_gathered_events_are_in_order(cuts: Seq<Vec<usize>>, count: int, frames: usize)
    requires
        0 <= count <= cuts.len(),
        forall|c: int| 0 <= c < cuts.len() ==> ordered((#[trigger] cuts[c])@),
    ensures
        in_order(gathered(cuts, count, frames)),
        count > 0 ==> gathered(cuts, count, frames).to_multiset() == gathered(
            cuts,
            count - 1,
            frames,
        ).to_multiset().add(
            pieces_of((count - 1) as usize, cuts[count - 1]@, frames).to_multiset(),
        ),
    decreases count,
{
    if count > 0 {
        law_gathered_events_are_in_order(cuts, count - 1, frames);
        assert(ordered(cuts[count - 1]@));
        lemma_pieces_in_order((count - 1) as usize, cuts[count - 1]@, frames);
        lemma_merged(
            gathered(cuts, count - 1, frames),
            pieces_of((count - 1) as usize, cuts[count - 1]@, frames),
        );
    }
}

/// The last event of a channel among the first ones.
pub open spec fn last_of(found: Seq<Event>, count: int, channel: usize) -> Option<int>
    decreases count,
{
    if count <= 0 {
        None
    } else if found[count - 1].channel == channel {
        Some(count - 1)
    } else {
        last_of(found, count - 1, channel)
    }
}

/// The first event of a channel between two positions.
pub open spec fn first_of(found: Seq<Event>, from: int, to: int, channel: usize) -> Option<int>
    decreases to - from,
{
    if to <= from {
        None
    } else {
        match first_of(found, from, to - 1, channel) {
            Some(index) => Some(index),
            None => if found[to - 1].channel == channel {
                Some(to - 1)
            } else {
                None
            },
        }
    }
}

/// Where an event would begin: the position that was chosen for it, if that lies
/// before the event's end.
pub open spec fn proposal(event: Event, start: Option<i64>) -> int {
    match start {
        Some(position) => if 0 <= position < event.past() {
            position as int
        } else {
            event.start as int
        },
        None => event.start as int,
    }
}

/// Where an event begins after it was moved: at its proposal, unless that does
/// not lie behind the event before it on the same channel.
pub open spec fn moved_start(found: Seq<Event>, starts: Seq<Option<i64>>, index: int) -> int
    decreases index,
{
    match last_of(found, index, found[index].channel) {
        None => proposal(found[index], starts[index]),
        Some(before) => if 0 <= before < index {
            let previous = moved_start(found, starts, before);
            if proposal(found[index], starts[index]) <= previous {
                greater(found[index].start as int, previous + 1)
            } else {
                proposal(found[index], starts[index])
            }
        } else {
            0
        },
    }
}

/// How long an event is after the first ones were moved: up to the next event
/// of its channel, or up to its old end.
pub open spec fn moved_length(
    found: Seq<Event>,
    starts: Seq<Option<i64>>,
    index: int,
    count: int,
) -> int {
    match first_of(found, index + 1, count, found[index].channel) {
        Some(next) => moved_start(found, starts, next) - moved_start(found, starts, index),
        None => greater(found[index].past() - moved_start(found, starts, index), 0),
    }
}

/// Events moved to the positions that were chosen for them.
pub open spec fn realigned(found: Seq<Event>, starts: Seq<Option<i64>>) -> Seq<Event> {
    Seq::new(
        found.len(),
        |i: int|
            Event {
                channel: found[i].channel,
                start: moved_start(found, starts, i) as usize,
                length: moved_length(found, starts, i, found.len() as int) as usize,
            },
    )
}

/// What the last event of a channel is.
proof fn lemma_last_of(found: Seq<Event>, count: int, channel: usize)
    requires
        0 <= count <= found.len(),
    ensures
        match last_of(found, count, channel) {
            Some(index) => {
                &&& 0 <= index < count
                &&& found[index].channel == channel
                &&& forall|k: int| index < k < count ==> (#[trigger] found[k]).channel != channel
            },
            None => forall|k: int| 0 <= k < count ==> (#[trigger] found[k]).channel != channel,
        },
    decreases count,
{
    if count > 0 && found[count - 1].channel != channel {
        lemma_last_of(found, count - 1, channel);
    }
}

/// What the first event of a channel is.
proof fn lemma_first_of(found: Seq<Event>, from: int, to: int, channel: usize)
    requires
        0 <= from,
        to <= found.len(),
    ensures
        match first_of(found, from, to, channel) {
            Some(index) => {
                &&& from <= index < to
                &&& found[index].channel == channel
                &&& forall|k: int| from <= k < index ==> (#[trigger] found[k]).channel != channel
            },
            None => forall|k: int| from <= k < to ==> (#[trigger] found[k]).channel != channel,
        },
    decreases to - from,
{
    if from < to {
        lemma_first_of(found, from, to - 1, channel);
    }
}

/// Whether events leave room above their ends for as many frames as there are
/// events.
pub open spec fn leaves_room(found: Seq<Event>) -> bool {
    forall|i: int|
        0 <= i < found.len() ==> (#[trigger] found[i]).past() + found.len() <= usize::MAX
}

/// A moved event begins within the room above the ends.
proof fn lemma_moved_start(found: Seq<Event>, starts: Seq<Option<i64>>, index: int)
    requires
        0 <= index < found.len(),
        starts.len() == found.len(),
        leaves_room(found),
    ensures
        0 <= moved_start(found, starts, index) <= usize::MAX - found.len() + index,
    decreases index,
{
    assert(found[index].past() + found.len() <= usize::MAX);
    lemma_last_of(found, index, found[index].channel);
    if let Some(before) = last_of(found, index, found[index].channel) {
        lemma_moved_start(found, starts, before);
    }
}

/// The event after another on its channel begins behind it.
proof fn lemma_next_is_behind(found: Seq<Event>, starts: Seq<Option<i64>>, index: int, next: int)
    requires
        0 <= index < next < found.len(),
        first_of(found, index + 1, next + 1, found[index].channel) == Some(next),
    ensures
        moved_start(found, starts, index) < moved_start(found, starts, next),
        last_of(found, next, found[next].channel) == Some(index),
{
    lemma_first_of(found, index + 1, next + 1, found[index].channel);
    lemma_last_of(found, next, found[next].channel);
}

/// Moves each event boundary to the position the matcher chose for it, keeping
/// the events of a channel in order and still tiling the timeline.
///
/// A position is only taken when it stays inside the event and after the
/// boundary before it; anything else would reorder the timeline, so the
/// original boundary is kept instead.
pub fn realign(found: &Vec<Event>, starts: &Vec<Option<i64>>) -> (moved: Vec<Event>)
    requires
        starts@.len() == found@.len(),
        leaves_room(found@),
    ensures
        moved@ == realigned(found@, starts@),
{
    let mut moved: Vec<Event> = Vec::new();
    let mut latest: HashMap<usize, usize> = HashMap::new();
    let mut index: usize = 0;
    while index < found.len()
        invariant
            index <= found@.len(),
            starts@.len() == found@.len(),
            leaves_room(found@),
            moved@.len() == index,
            forall|c: usize|
                (#[trigger] latest@.contains_key(c)) == (last_of(found@, index as int, c) is Some),
            forall|c: usize| #[trigger]
                latest@.contains_key(c) ==> last_of(found@, index as int, c) == Some(
                    latest@[c] as int,
                ),
            forall|i: int|
                0 <= i < index ==> {
                    &&& (#[trigger] moved@[i]).channel == found@[i].channel
                    &&& moved@[i].start == moved_start(found@, starts@, i)
                    &&& moved@[i].length == moved_length(found@, starts@, i, index as int)
                },
        decreases found@.len() - index,
    {
        let event: Event = found[index];
        let ghost before = moved@;
        assert(event.past() + found@.len() <= usize::MAX);
        let end: usize = event.end();
        let mut start: usize = match starts[index] {
            Some(position) => if position >= 0 && (position as u64) < end as u64 {
                position as usize
            } else {
                event.start
            },
            None => event.start,
        };
        assert(start == proposal(event, starts@[index as int]));
        let previous: Option<usize> = match latest.get(&event.channel) {
            Some(found_before) => Some(*found_before),
            None => None,
        };
        proof {
            lemma_last_of(found@, index as int, event.channel);
            lemma_moved_start(found@, starts@, index as int);
        }
        match previous {
            Some(earlier_index) => {
                let mut held: Event = moved[earlier_index];
                proof {
                    lemma_moved_start(found@, starts@, earlier_index as int);
                }
                if start <= held.start {
                    start = if event.start > held.start + 1 {
                        event.start
                    } else {
                        held.start + 1
                    };
                }
                assert(start == moved_start(found@, starts@, index as int));
                held.length = start - held.start;
                moved.set(earlier_index, held);
            },
            None => {},
        }
        assert(start == moved_start(found@, starts@, index as int));
        let length: usize = if end > start {
            end - start
        } else {
            0
        };
        moved.push(Event::new(event.channel, start, length));
        latest.insert(event.channel, index);
        proof {
            assert forall|i: int| 0 <= i < index + 1 implies {
                &&& (#[trigger] moved@[i]).channel == found@[i].channel
                &&& moved@[i].start == moved_start(found@, starts@, i)
                &&& moved@[i].length == moved_length(found@, starts@, i, index + 1)
            } by {
                lemma_first_of(found@, i + 1, index as int, found@[i].channel);
                if i < index {
                    assert(before[i].channel == found@[i].channel);
                    assert(before[i].start == moved_start(found@, starts@, i));
                    assert(before[i].length == moved_length(found@, starts@, i, index as int));
                    if found@[i].channel == event.channel {
                        if previous == Some(i as usize) {
                            assert(first_of(found@, i + 1, index as int, event.channel) is None);
                        } else {
                            assert(first_of(found@, i + 1, index as int, event.channel) is Some);
                        }
                    }
                }
            }
        }
        index = index + 1;
    }
    assert(moved@ =~= realigned(found@, starts@));
    moved
}

/// Realigned events still follow each other without gaps on their channel: each
/// ends where the next one of its channel begins, and behind its own start.
pub proof fn law_realigned_events_still_tile(
    found: Seq<Event>,
    starts: Seq<Option<i64>>,
    index: int,
    next: int,
)
    requires
        starts.len() == found.len(),
        leaves_room(found),
        0 <= index < next < found.len(),
        first_of(found, index + 1, found.len() as int, found[index].channel) == Some(next),
    ensures
        realigned(found, starts)[index].past() == realigned(found, starts)[next].start,
        realigned(found, starts)[index].start < realigned(found, starts)[next].start,
{
    lemma_first_of(found, index + 1, found.len() as int, found[index].channel);
    lemma_first_of(found, index + 1, next + 1, found[index].channel);
    lemma_next_is_behind(found, starts, index, next);
    lemma_moved_start(found, starts, index);
    lemma_moved_start(found, starts, next);
}

/// Whether the events of every channel follow each other without gaps, none of
/// them empty.
pub open spec fn follows_on(found: Seq<Event>) -> bool {
    &&& forall|i: int| 0 <= i < found.len() ==> (#[trigger] found[i]).length > 0
    &&& forall|i: int|
        0 <= i < found.len() ==> (last_of(found, i, (#[trigger] found[i]).channel) matches Some(
            before,
        ) ==> found[before].past() == found[i].start)
}

/// A moved event of a channel that follows on begins before its own end.
proof fn lemma_moved_inside(found: Seq<Event>, starts: Seq<Option<i64>>, index: int)
    requires
        0 <= index < found.len(),
        starts.len() == found.len(),
        follows_on(found),
    ensures
        moved_start(found, starts, index) < found[index].past(),
    decreases index,
{
    assert(found[index].length > 0);
    lemma_last_of(found, index, found[index].channel);
    if let Some(before) = last_of(found, index, found[index].channel) {
        lemma_moved_inside(found, starts, before);
        assert(found[before].past() == found[index].start);
    }
}

/// Realigning moves no end of a channel: its last event ends where it did.
pub proof fn law_realigning_keeps_the_end(found: Seq<Event>, starts: Seq<Option<i64>>, index: int)
    requires
        starts.len() == found.len(),
        leaves_room(found),
        follows_on(found),
        0 <= index < found.len(),
        first_of(found, index + 1, found.len() as int, found[index].channel) is None,
    ensures
        realigned(found, starts)[index].past() == found[index].past(),
{
    lemma_moved_inside(found, starts, index);
    lemma_moved_start(found, starts, index);
}

/// Where an event is taken to have started, unless that lies at or before the
/// start of an earlier event of its channel.
pub open spec fn wished(event: Event, start: Option<i64>) -> int {
    if start is Some && 0 <= start->Some_0 < event.start + event.length {
        start->Some_0 as int
    } else {
        event.start as int
    }
}

/// Realigned events keep their number and their channels, and each starts where
/// it is taken to have started, as long as the earlier events of its channel start
/// before that.
pub proof fn law_realigned_events_start_where_they_were_found(
    found: Seq<Event>,
    starts: Seq<Option<i64>>,
    index: int,
)
    requires
        starts.len() == found.len(),
        leaves_room(found),
        0 <= index < found.len(),
    ensures
        realigned(found, starts).len() == found.len(),
        realigned(found, starts)[index].channel == found[index].channel,
        (forall|i: int|
            0 <= i < index && (#[trigger] found[i]).channel == found[index].channel ==> realigned(
                found,
                starts,
            )[i].start < wished(found[index], starts[index])) ==> realigned(
            found,
            starts,
        )[index].start == wished(found[index], starts[index]),
{
    lemma_moved_start(found, starts, index);
    lemma_last_of(found, index, found[index].channel);
    if let Some(before) = last_of(found, index, found[index].channel) {
        lemma_moved_start(found, starts, before);
        assert(found[before].channel == found[index].channel);
    }
}

/// Whether cuts are multiples of a piece.
spec fn spaced(cuts: Seq<usize>, piece: int) -> bool {
    forall|i: int| 0 <= i < cuts.len() ==> (#[trigger] cuts[i]) as int == i * piece
}

/// Marking goes on from piece to piece.
proof fn lemma_marked_spaced(
    before: Seq<usize>,
    end: int,
    piece: int,
    minimum: int,
    other: int,
)
    requires
        spaced(before, piece),
        piece > 0,
        minimum > 0,
        0 <= end <= usize::MAX,
        forall|i: int| 0 <= i < before.len() ==> (#[trigger] before[i]) < end,
        0 <= other,
    ensures
        ({
            let cuts = marked(before, before.len() * piece, end, piece, minimum);
            &&& spaced(cuts, piece)
            &&& cuts.len() >= before.len()
            &&& forall|i: int| 0 <= i < cuts.len() ==> (#[trigger] cuts[i]) < end
            &&& other < cuts.len() <==> other < before.len() || end - other * piece >= minimum
        }),
    decreases greater(end - before.len() * piece, 0),
{
    let position = before.len() * piece;
    assert(position >= 0) by (nonlinear_arith)
        requires
            position == before.len() * piece,
            piece > 0,
    ;
    if position < end && end - position >= minimum {
        let more = before.push(position as usize);
        assert((before.len() + 1) * piece == position + piece) by (nonlinear_arith)
            requires
                position == before.len() * piece,
        ;
        lemma_marked_spaced(more, end, piece, minimum, other);
        if other == before.len() {
            assert(end - other * piece >= minimum);
        }
    } else {
        if other >= before.len() {
            assert(other * piece >= position) by (nonlinear_arith)
                requires
                    position == before.len() * piece,
                    other >= before.len(),
                    piece > 0,
            ;
        }
    }
}

/// Cuts that ascend below the length stay as they are.
proof fn lemma_nothing_dropped(cuts: Seq<usize>, length: usize)
    requires
        forall|i: int| 0 <= i < cuts.len() ==> (#[trigger] cuts[i]) < length,
        forall|i: int, j: int| 0 <= i < j < cuts.len() ==> cuts[i] < cuts[j],
    ensures
        below(cuts, length) == cuts,
        single(cuts) == cuts,
    decreases cuts.len(),
{
    if cuts.len() > 0 {
        let front = cuts.drop_last();
        assert forall|i: int| 0 <= i < front.len() implies (#[trigger] front[i]) < length by {
            assert(cuts[i] < length);
        }
        lemma_nothing_dropped(front, length);
        assert(cuts[cuts.len() - 1] < length);
        assert(front.push(cuts.last()) =~= cuts);
        if cuts.len() >= 2 {
            assert(cuts[cuts.len() - 2] < cuts[cuts.len() - 1]);
        }
    } else {
        assert(below(cuts, length) =~= cuts);
    }
}

/// A channel that is longer than the maximum, and in which nothing was detected, is
/// divided evenly: into the least number of pieces that the maximum allows, each as
/// short as that number of them can be, and what would be left behind them stays
/// with the last where it is shorter than the minimum.
pub proof fn law_long_stretches_are_divided_evenly(
    length: usize,
    minimum: usize,
    maximum: usize,
    pieces: int,
    piece: int,
    index: int,
)
    requires
        length > maximum > 0,
        minimum > 0,
        pieces > 0,
        (pieces - 1) * maximum < length <= pieces * maximum,
        pieces * (piece - 1) < length <= pieces * piece,
        index > 0,
    ensures
        index < shaped(Seq::empty(), length, minimum, maximum).len() <==> length - index * piece
            >= minimum,
        index < shaped(Seq::empty(), length, minimum, maximum).len() ==> shaped(
            Seq::empty(),
            length,
            minimum,
            maximum,
        )[index] == index * piece,
{
    let none = Seq::<(usize, usize)>::empty();
    let cuts = kept(none, minimum);
    assert(cuts =~= seq![0usize]);
    let span = length as int;
    lemma_exactly(span, maximum as int, pieces);
    lemma_exactly(span, pieces, piece);
    assert(rounded_up(span, maximum as int) == pieces);
    assert(rounded_up(span, pieces) == piece) by {
        assert((piece - 1) * pieces == pieces * (piece - 1)) by (nonlinear_arith);
        assert(piece * pieces == pieces * piece) by (nonlinear_arith);
    }
    lemma_piece(span, maximum as int);
    let start = Seq::<usize>::empty().push(0usize);
    assert(start =~= seq![0usize]);
    assert(all_divided(cuts, 0, length, minimum as int, maximum as int)
        =~= Seq::<usize>::empty());
    let limited = all_divided(cuts, 1, length, minimum as int, maximum as int);
    assert(limited == marked(start, 0 + piece, span, piece, minimum as int));
    assert(start.len() * piece == piece) by (nonlinear_arith)
        requires
            start.len() == 1,
    ;
    assert(0 * piece == 0) by (nonlinear_arith);
    lemma_marked_spaced(start, span, piece, minimum as int, index);
    assert forall|i: int, j: int| 0 <= i < j < limited.len() implies limited[i] < limited[j] by {
        assert(limited[i] as int == i * piece);
        assert(limited[j] as int == j * piece);
        assert(i * piece < j * piece) by (nonlinear_arith)
            requires
                i < j,
                piece > 0,
        ;
    }
    lemma_nothing_dropped(limited, length);
    assert(shaped(none, length, minimum, maximum) == limited);
}

/// A quotient rounded up, by what it must satisfy.
proof fn lemma_exactly(value: int, divisor: int, quotient: int)
    requires
        divisor > 0,
        (quotient - 1) * divisor < value <= quotient * divisor || divisor * (quotient - 1) < value
            <= divisor * quotient,
    ensures
        rounded_up(value, divisor) == quotient,
{
    let rest = value + divisor - 1 - quotient * divisor;
    assert((quotient - 1) * divisor == quotient * divisor - divisor && divisor * (quotient - 1)
        == quotient * divisor - divisor && divisor * quotient == quotient * divisor)
        by (nonlinear_arith);
    vstd::arithmetic::div_mod::lemma_fundamental_div_mod_converse(
        value + divisor - 1,
        divisor,
        quotient,
        rest,
    );
}

/// What two neighbouring events of a channel hold, one behind the other, is what
/// one event over both of them holds, and an event over a whole channel holds it.
pub proof fn law_neighbouring_events_read_on(
    channels: Seq<Vec<i64>>,
    channel: usize,
    start: usize,
    first: usize,
    second: usize,
)
    requires
        start + first + second <= usize::MAX,
        channel < channels.len(),
    ensures
        read_event(
            Event { channel, start, length: (first + second) as usize },
            channels,
        ) == read_event(Event { channel, start, length: first }, channels) + read_event(
            Event { channel, start: (start + first) as usize, length: second },
            channels,
        ),
        start == 0 && first == channels[channel as int]@.len() ==> read_event(
            Event { channel, start, length: first },
            channels,
        ) == channels[channel as int]@,
        start + first <= channels[channel as int]@.len() ==> read_event(
            Event { channel, start, length: first },
            channels,
        ).len() == first,
{
    let whole = read_event(Event { channel, start, length: (first + second) as usize }, channels);
    let one = read_event(Event { channel, start, length: first }, channels);
    let other = read_event(
        Event { channel, start: (start + first) as usize, length: second },
        channels,
    );
    assert(whole =~= one + other);
    if start == 0 && first == channels[channel as int]@.len() {
        assert(one =~= channels[channel as int]@);
    }
}

/// Gathered events go by their first frame, and those that start together by their
/// channel.
pub proof fn law_gathered_events_go_by_start_and_channel(
    cuts: Seq<Vec<usize>>,
    count: int,
    frames: usize,
    first: int,
    second: int,
)
    requires
        0 <= count <= cuts.len(),
        forall|c: int| 0 <= c < cuts.len() ==> ordered((#[trigger] cuts[c])@),
        0 <= first < second < gathered(cuts, count, frames).len(),
    ensures
        ({
            let one = gathered(cuts, count, frames)[first];
            let other = gathered(cuts, count, frames)[second];
            &&& one.start <= other.start
            &&& one.start == other.start ==> one.channel <= other.channel
        }),
{
    law_gathered_events_are_in_order(cuts, count, frames);
    let all = gathered(cuts, count, frames);
    assert(!earlier(all[second], all[first]));
}

/// The pieces between cuts start at the cuts, one at each, and end at the next cut
/// or with the channel.
pub proof fn law_pieces_lie_between_cuts(
    channel: usize,
    cuts: Seq<usize>,
    frames: usize,
    index: int,
)
    requires
        ordered(cuts),
        0 <= index < cuts.len(),
        cuts.last() < frames,
    ensures
        pieces_of(channel, cuts, frames).len() == cuts.len(),
        ({
            let piece = pieces_of(channel, cuts, frames)[index];
            &&& piece.channel == channel
            &&& piece.start == cuts[index]
            &&& piece.start + piece.length == (if index + 1 < cuts.len() {
                cuts[index + 1]
            } else {
                frames
            })
        }),
{
    if index + 1 < cuts.len() {
        assert(cuts[index] <= cuts[index + 1]);
    }
}

} // verus!
