//! What becomes of the notes that were heard: where they start and end, in which
//! order they are listed, and how they name a sample.

use vstd::prelude::*;

use crate::associative::schema::all_played;
use crate::decompose::model::{Note, Played};
use crate::dsp::pitch;

verus! {

/// The stretch of a channel that a run of frames covers, if it is long enough to
/// be a note: from the sample its first frame starts at to the sample its end
/// frame starts at, or to the end of the channel.
pub open spec fn stretch_of(start: int, end: int, length: int, minimum: int) -> Option<
    (int, int),
> {
    let last = if end < length {
        end
    } else {
        length
    };
    if last <= start || last - start < minimum {
        None
    } else {
        Some((start, last - start))
    }
}

/// The stretch of a channel that a run of frames covers, as its first sample and
/// its length, if it is long enough to be a note.
pub fn stretch(start: usize, end: usize, length: usize, minimum: usize) -> (found: Option<
    (usize, usize),
>)
    ensures
        match stretch_of(start as int, end as int, length as int, minimum as int) {
            Some((first, count)) => found matches Some((from, long)) && from == first && long
                == count,
            None => found is None,
        },
{
    let last: usize = if end < length {
        end
    } else {
        length
    };
    if last <= start || last - start < minimum {
        None
    } else {
        Some((start, last - start))
    }
}

/// Whether one note is listed before another whatever their order was: by where
/// they start, by channel, by pitch.
pub open spec fn before(first: Played, second: Played) -> bool {
    ||| first.start < second.start
    ||| first.start == second.start && (first.channel < second.channel || (first.channel
        == second.channel && first.note < second.note))
}

/// A list with one more note in it, behind every note that is not listed after
/// it.
pub open spec fn inserted(notes: Seq<Played>, note: Played) -> Seq<Played>
    decreases notes.len(),
{
    if notes.len() == 0 || !before(note, notes.last()) {
        notes.push(note)
    } else {
        inserted(notes.drop_last(), note).push(notes.last())
    }
}

/// Notes in the order they are listed in, those that tie as they came.
pub open spec fn listed(notes: Seq<Played>) -> Seq<Played>
    decreases notes.len(),
{
    if notes.len() == 0 {
        Seq::empty()
    } else {
        inserted(listed(notes.drop_last()), notes.last())
    }
}

/// Whether one note is listed before another.
fn precedes(first: &Note, second: &Note) -> (earlier: bool)
    ensures
        earlier == before(first@, second@),
{
    first.start < second.start || (first.start == second.start && (first.channel < second.channel
        || (first.channel == second.channel && first.note < second.note)))
}

/// Putting a note at its place gives the list with it in.
proof fn lemma_inserted(notes: Seq<Played>, note: Played, place: int)
    requires
        0 <= place <= notes.len(),
        place > 0 ==> !before(note, notes[place - 1]),
        forall|i: int| place <= i < notes.len() ==> before(note, #[trigger] notes[i]),
    ensures
        inserted(notes, note) == notes.insert(place, note),
    decreases notes.len(),
{
    if place == notes.len() {
        assert(notes.insert(place, note) =~= notes.push(note));
    } else {
        assert(before(note, notes[notes.len() - 1]));
        lemma_inserted(notes.drop_last(), note, place);
        assert(notes.insert(place, note) =~= notes.drop_last().insert(place, note).push(
            notes.last(),
        ));
    }
}

/// Lists notes by where they start, by channel and by pitch.
pub fn in_order(notes: &Vec<Note>) -> (sorted: Vec<Note>)
    ensures
        all_played(sorted@) == listed(all_played(notes@)),
{
    let mut sorted: Vec<Note> = Vec::new();
    let mut index: usize = 0;
    let ghost whole = all_played(notes@);
    proof {
        assert(whole.take(0) =~= Seq::<Played>::empty());
        assert(all_played(sorted@) =~= Seq::<Played>::empty());
    }
    while index < notes.len()
        invariant
            index <= notes@.len(),
            whole == all_played(notes@),
            all_played(sorted@) == listed(whole.take(index as int)),
        decreases notes@.len() - index,
    {
        let note = &notes[index];
        let ghost sofar = all_played(sorted@);
        let mut place: usize = sorted.len();
        while place > 0 && precedes(note, &sorted[place - 1])
            invariant
                place <= sorted@.len(),
                sofar == all_played(sorted@),
                forall|i: int| place <= i < sofar.len() ==> before(note@, #[trigger] sofar[i]),
            ensures
                place > 0 ==> !before(note@, sofar[place - 1]),
            decreases place,
        {
            assert(sofar[place - 1] == sorted@[place - 1]@);
            place = place - 1;
        }
        proof {
            lemma_inserted(sofar, note@, place as int);
            assert(whole.take(index + 1).drop_last() =~= whole.take(index as int));
            assert(whole.take(index + 1).last() == note@);
        }
        sorted.insert(place, note.copy());
        assert(all_played(sorted@) =~= sofar.insert(place as int, note@));
        index = index + 1;
    }
    assert(whole.take(index as int) =~= whole);
    sorted
}

/// Listing notes keeps every one of them and puts none before one that comes
/// before it.
pub proof fn law_listed_notes_are_in_order(notes: Seq<Played>)
    ensures
        listed(notes).to_multiset() == notes.to_multiset(),
        forall|i: int, j: int|
            0 <= i < j < listed(notes).len() ==> !before(listed(notes)[j], listed(notes)[i]),
    decreases notes.len(),
{
    if notes.len() > 0 {
        law_listed_notes_are_in_order(notes.drop_last());
        lemma_inserting_keeps_order(listed(notes.drop_last()), notes.last());
        assert(notes =~= notes.drop_last().push(notes.last()));
        notes.drop_last().to_multiset_ensures();
    } else {
        assert(notes =~= Seq::<Played>::empty());
    }
}

/// Inserting a note keeps a list in order.
proof fn lemma_inserting_keeps_order(notes: Seq<Played>, note: Played)
    requires
        forall|i: int, j: int| 0 <= i < j < notes.len() ==> !before(notes[j], notes[i]),
    ensures
        inserted(notes, note).to_multiset() == notes.to_multiset().insert(note),
        forall|i: int, j: int|
            0 <= i < j < inserted(notes, note).len() ==> !before(
                inserted(notes, note)[j],
                inserted(notes, note)[i],
            ),
        forall|i: int|
            0 <= i < inserted(notes, note).len() ==> (#[trigger] inserted(notes, note)[i]) == note
                || notes.contains(inserted(notes, note)[i]),
    decreases notes.len(),
{
    notes.to_multiset_ensures();
    let after = inserted(notes, note);
    if notes.len() == 0 || !before(note, notes.last()) {
        assert forall|i: int, j: int| 0 <= i < j < after.len() implies !before(
            after[j],
            after[i],
        ) by {
            if j == notes.len() {
                if before(note, notes[i]) && i < notes.len() - 1 {
                    assert(!before(notes.last(), notes[i]));
                }
            }
        }
        assert forall|i: int| 0 <= i < after.len() implies (#[trigger] after[i]) == note
            || notes.contains(after[i]) by {
            if i < notes.len() {
                assert(after[i] == notes[i]);
            }
        }
    } else {
        let front = notes.drop_last();
        lemma_inserting_keeps_order(front, note);
        let middle = inserted(front, note);
        assert(notes =~= front.push(notes.last()));
        front.to_multiset_ensures();
        middle.to_multiset_ensures();
        assert(after.to_multiset() =~= notes.to_multiset().insert(note));
        assert forall|i: int, j: int| 0 <= i < j < after.len() implies !before(
            after[j],
            after[i],
        ) by {
            if j == middle.len() {
                assert(after[i] == middle[i]);
                if middle[i] != note {
                    let k = front.index_of(middle[i]);
                    assert(notes[k] == middle[i]);
                    assert(!before(notes[notes.len() - 1], notes[k]));
                }
            } else {
                assert(after[i] == middle[i] && after[j] == middle[j]);
            }
        }
        assert forall|i: int| 0 <= i < after.len() implies (#[trigger] after[i]) == note
            || notes.contains(after[i]) by {
            if i < middle.len() {
                assert(after[i] == middle[i]);
                if middle[i] != note {
                    let k = front.index_of(middle[i]);
                    assert(notes[k] == middle[i]);
                }
            } else {
                assert(notes[notes.len() - 1] == after[i]);
            }
        }
    }
}

/// The name of a sample with the note it sounds.
pub fn labelled(name: &str, note: u8) -> (label: String)
    ensures
        label@ == name@ + seq!['-'] + pitch::name_of(note as int),
{
    let mut label = name.to_string();
    label.push('-');
    assert(label@ =~= name@ + seq!['-']);
    label.append(pitch::note_name(note as i32).as_str());
    label
}

/// Listed notes go by their start, then by their channel, then by their number.
pub proof fn law_notes_are_listed_by_start_channel_and_number(
    notes: Seq<Played>,
    first: int,
    second: int,
)
    requires
        0 <= first < second < listed(notes).len(),
    ensures
        ({
            let one = listed(notes)[first];
            let other = listed(notes)[second];
            &&& one.start <= other.start
            &&& one.start == other.start ==> one.channel <= other.channel
            &&& one.start == other.start && one.channel == other.channel ==> one.note <= other.note
        }),
{
    law_listed_notes_are_in_order(notes);
    assert(!before(listed(notes)[second], listed(notes)[first]));
}

/// A stretch that is found starts where it was said to, ends where it was said to
/// or with the channel, and lasts as long as it has to; none is found only where
/// that cannot be.
pub proof fn law_stretches_lie_in_the_channel(start: int, end: int, length: int, minimum: int)
    ensures
        match stretch_of(start, end, length, minimum) {
            Some((from, count)) => {
                &&& from == start
                &&& count > 0
                &&& count >= minimum
                &&& from + count <= length
                &&& from + count <= end
                &&& from + count == end || from + count == length
            },
            None => forall|to: int|
                start < to && to <= length && to <= end ==> #[trigger] (to - start) < minimum,
        },
{
}

} // verus!
