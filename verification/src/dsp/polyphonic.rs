//! Joining the notes that were heard frame by frame into notes that last.

use vstd::prelude::*;

verus! {

/// A note held across a run of frames.
#[derive(Clone, Copy, Debug, PartialEq, Eq, Structural)]
pub struct Run {
    /// MIDI note number.
    pub note: i32,
    /// First frame the note is active in.
    pub start_frame: usize,
    /// One past the last frame the note is active in.
    pub end_frame: usize,
}

/// Whether a note is heard in a frame.
pub open spec fn heard(frames: Seq<Vec<i32>>, frame: int, note: i32) -> bool {
    0 <= frame < frames.len() && frames[frame]@.contains(note)
}

/// Whether a note is heard throughout a run of frames, and neither just before
/// it nor just after.
pub open spec fn held(frames: Seq<Vec<i32>>, run: Run) -> bool {
    &&& run.start_frame < run.end_frame <= frames.len()
    &&& forall|frame: int|
        run.start_frame <= frame < run.end_frame ==> #[trigger] heard(frames, frame, run.note)
    &&& !heard(frames, run.start_frame - 1, run.note)
    &&& !heard(frames, run.end_frame as int, run.note)
}

/// Whether a run lasts long enough.
pub open spec fn lasting(run: Run, minimum: int) -> bool {
    run.end_frame - run.start_frame >= minimum
}

/// Whether one run comes before another: it starts earlier, or with it and lower.
pub open spec fn earlier(first: Run, second: Run) -> bool {
    first.start_frame < second.start_frame || (first.start_frame == second.start_frame
        && first.note < second.note)
}

/// Whether some runs are all those of the notes that last long enough and start
/// before a frame, in order.
pub open spec fn all_runs(frames: Seq<Vec<i32>>, minimum: int, upto: int, runs: Seq<Run>) -> bool {
    &&& forall|i: int|
        0 <= i < runs.len() ==> held(frames, #[trigger] runs[i]) && lasting(runs[i], minimum)
            && runs[i].start_frame < upto
    &&& forall|i: int, j: int| 0 <= i < j < runs.len() ==> earlier(runs[i], runs[j])
    &&& forall|run: Run| #[trigger]
        held(frames, run) && lasting(run, minimum) && run.start_frame < upto ==> runs.contains(run)
}

/// Whether a list holds a note.
fn listed(notes: &Vec<i32>, note: i32) -> (found: bool)
    ensures
        found == notes@.contains(note),
{
    let mut index: usize = 0;
    while index < notes.len()
        invariant
            index <= notes@.len(),
            forall|k: int| 0 <= k < index ==> notes@[k] != note,
        decreases notes@.len() - index,
    {
        if notes[index] == note {
            assert(notes@[index as int] == note);
            return true;
        }
        index = index + 1;
    }
    false
}

/// Where a note that is heard in a frame ends.
fn end_of(frames: &Vec<Vec<i32>>, start: usize, note: i32) -> (end: usize)
    requires
        heard(frames@, start as int, note),
    ensures
        start < end <= frames@.len(),
        forall|frame: int| start <= frame < end ==> #[trigger] heard(frames@, frame, note),
        !heard(frames@, end as int, note),
{
    let count: usize = frames.len();
    let mut end: usize = start + 1;
    while end < count && listed(&frames[end], note)
        invariant
            count == frames@.len(),
            start < end <= frames@.len(),
            forall|frame: int| start <= frame < end ==> #[trigger] heard(frames@, frame, note),
        ensures
            !heard(frames@, end as int, note),
        decreases frames@.len() - end,
    {
        assert(heard(frames@, end as int, note));
        end = end + 1;
    }
    end
}

/// Two runs of a note that start together are one.
proof fn lemma_one_run(frames: Seq<Vec<i32>>, first: Run, second: Run)
    requires
        held(frames, first),
        held(frames, second),
        first.note == second.note,
        first.start_frame == second.start_frame,
    ensures
        first == second,
{
    if first.end_frame < second.end_frame {
        assert(heard(frames, first.end_frame as int, second.note));
    } else if second.end_frame < first.end_frame {
        assert(heard(frames, second.end_frame as int, first.note));
    }
}

/// The runs that start in a frame among its first notes, on top of those that
/// start before it.
spec fn runs_within(
    frames: Seq<Vec<i32>>,
    minimum: int,
    frame: int,
    seen: int,
    runs: Seq<Run>,
) -> bool {
    &&& forall|i: int|
        0 <= i < runs.len() ==> held(frames, #[trigger] runs[i]) && lasting(runs[i], minimum)
            && runs[i].start_frame <= frame
    &&& forall|i: int, j: int| 0 <= i < j < runs.len() ==> earlier(runs[i], runs[j])
    &&& forall|run: Run| #[trigger]
        held(frames, run) && lasting(run, minimum) && (run.start_frame < frame || (
        run.start_frame == frame && frames[frame]@.take(seen).contains(run.note)))
            ==> runs.contains(run)
}

/// A run put in its place.
proof fn lemma_put(
    frames: Seq<Vec<i32>>,
    minimum: int,
    frame: int,
    seen: int,
    runs: Seq<Run>,
    run: Run,
    place: int,
)
    requires
        0 <= frame < frames.len(),
        0 <= seen < frames[frame]@.len(),
        runs_within(frames, minimum, frame, seen, runs),
        held(frames, run),
        lasting(run, minimum),
        run.start_frame == frame,
        run.note == frames[frame]@[seen],
        0 <= place <= runs.len(),
        forall|k: int| 0 <= k < place ==> earlier(#[trigger] runs[k], run),
        forall|k: int| place <= k < runs.len() ==> earlier(run, #[trigger] runs[k]),
    ensures
        runs_within(frames, minimum, frame, seen + 1, runs.insert(place, run)),
{
    let after = runs.insert(place, run);
    assert forall|i: int| 0 <= i < after.len() implies held(frames, #[trigger] after[i])
        && lasting(after[i], minimum) && after[i].start_frame <= frame by {
        if i < place {
            assert(after[i] == runs[i]);
        } else if i > place {
            assert(after[i] == runs[i - 1]);
        }
    }
    assert forall|i: int, j: int| 0 <= i < j < after.len() implies earlier(after[i], after[j]) by {
        if j < place {
            assert(after[i] == runs[i] && after[j] == runs[j]);
        } else if j == place {
            assert(after[i] == runs[i]);
        } else if i < place {
            assert(after[i] == runs[i] && after[j] == runs[j - 1]);
        } else if i == place {
            assert(after[j] == runs[j - 1]);
        } else {
            assert(after[i] == runs[i - 1] && after[j] == runs[j - 1]);
        }
    }
    assert forall|other: Run| #[trigger]
        held(frames, other) && lasting(other, minimum) && (other.start_frame < frame || (
        other.start_frame == frame && frames[frame]@.take(seen + 1).contains(
            other.note,
        ))) implies after.contains(other) by {
        lemma_seen(frames[frame]@, seen, other.note);
        if other.start_frame == frame && other.note == run.note {
            lemma_one_run(frames, other, run);
            assert(after[place] == run);
        } else {
            assert(runs.contains(other));
            let k = runs.index_of(other);
            if k < place {
                assert(after[k] == other);
            } else {
                assert(after[k + 1] == other);
            }
        }
    }
}

/// One more note of a frame.
proof fn lemma_seen(notes: Seq<i32>, seen: int, note: i32)
    requires
        0 <= seen < notes.len(),
    ensures
        notes.take(seen + 1).contains(note) <==> notes.take(seen).contains(note) || note
            == notes[seen],
{
    if notes.take(seen + 1).contains(note) {
        let k = notes.take(seen + 1).index_of(note);
        if k < seen {
            assert(notes.take(seen)[k] == note);
        }
    }
    if notes.take(seen).contains(note) {
        let k = notes.take(seen).index_of(note);
        assert(notes.take(seen + 1)[k] == note);
    }
    assert(notes.take(seen + 1)[seen] == notes[seen]);
}

/// A note that makes no run of its own adds nothing.
proof fn lemma_passed(
    frames: Seq<Vec<i32>>,
    minimum: int,
    frame: int,
    seen: int,
    runs: Seq<Run>,
)
    requires
        0 <= frame < frames.len(),
        0 <= seen < frames[frame]@.len(),
        runs_within(frames, minimum, frame, seen, runs),
        forall|run: Run| #[trigger]
            held(frames, run) && lasting(run, minimum) && run.start_frame == frame && run.note
                == frames[frame]@[seen] ==> runs.contains(run),
    ensures
        runs_within(frames, minimum, frame, seen + 1, runs),
{
    assert forall|run: Run| #[trigger]
        held(frames, run) && lasting(run, minimum) && (run.start_frame < frame || (
        run.start_frame == frame && frames[frame]@.take(seen + 1).contains(
            run.note,
        ))) implies runs.contains(run) by {
        lemma_seen(frames[frame]@, seen, run.note);
    }
}

/// Takes one note of a frame into the runs.
fn take_note(
    frames: &Vec<Vec<i32>>,
    minimum: usize,
    frame: usize,
    seen: usize,
    runs: &mut Vec<Run>,
)
    requires
        minimum >= 1,
        frame < frames@.len(),
        seen < frames@[frame as int]@.len(),
        runs_within(frames@, minimum as int, frame as int, seen as int, old(runs)@),
    ensures
        runs_within(frames@, minimum as int, frame as int, seen + 1, final(runs)@),
{
    let note: i32 = frames[frame][seen];
    if frame > 0 && listed(&frames[frame - 1], note) {
        proof {
            assert(heard(frames@, frame - 1, note));
            lemma_passed(frames@, minimum as int, frame as int, seen as int, runs@);
        }
        return;
    }
    assert(heard(frames@, frame as int, note));
    let end: usize = end_of(frames, frame, note);
    let run = Run { note, start_frame: frame, end_frame: end };
    proof {
        assert(!heard(frames@, frame - 1, note));
        assert(held(frames@, run));
        assert forall|other: Run| #[trigger]
            held(frames@, other) && other.start_frame == frame && other.note
                == note implies other == run by {
            lemma_one_run(frames@, other, run);
        }
    }
    if end - frame < minimum {
        proof {
            lemma_passed(frames@, minimum as int, frame as int, seen as int, runs@);
        }
        return;
    }
    let mut place: usize = runs.len();
    while place > 0 && runs[place - 1].start_frame == frame && runs[place - 1].note > note
        invariant
            frame < frames@.len(),
            place <= runs@.len(),
            run.start_frame == frame,
            run.note == note,
            forall|k: int| place <= k < runs@.len() ==> earlier(run, #[trigger] runs@[k]),
        ensures
            place > 0 ==> runs@[place - 1].start_frame != frame || runs@[place - 1].note <= note,
        decreases place,
    {
        place = place - 1;
    }
    if place > 0 && runs[place - 1].start_frame == frame && runs[place - 1].note == note {
        proof {
            lemma_one_run(frames@, runs@[place - 1], run);
            assert(runs@.contains(run));
            lemma_passed(frames@, minimum as int, frame as int, seen as int, runs@);
        }
        return;
    }
    proof {
        assert forall|k: int| 0 <= k < place implies earlier(#[trigger] runs@[k], run) by {
            assert(runs@[place - 1].start_frame <= frame);
            if k < place - 1 {
                assert(earlier(runs@[k], runs@[place - 1]));
            }
        }
        lemma_put(frames@, minimum as int, frame as int, seen as int, runs@, run, place as int);
    }
    runs.insert(place, run);
}

/// Joins the notes heard in each frame into runs that last at least a number of
/// frames, ordered by where they start and how high they are.
pub fn track(frames: &Vec<Vec<i32>>, minimum_frames: usize) -> (runs: Vec<Run>)
    ensures
        all_runs(
            frames@,
            if minimum_frames < 1 {
                1
            } else {
                minimum_frames as int
            },
            frames@.len() as int,
            runs@,
        ),
{
    let minimum: usize = if minimum_frames < 1 {
        1
    } else {
        minimum_frames
    };
    let mut runs: Vec<Run> = Vec::new();
    let mut frame: usize = 0;
    while frame < frames.len()
        invariant
            minimum >= 1,
            frame <= frames@.len(),
            all_runs(frames@, minimum as int, frame as int, runs@),
        decreases frames@.len() - frame,
    {
        let mut seen: usize = 0;
        proof {
            let none = frames@[frame as int]@.take(0);
            assert(none =~= Seq::<i32>::empty());
            assert(forall|note: i32| !none.contains(note));
        }
        while seen < frames[frame].len()
            invariant
                minimum >= 1,
                frame < frames@.len(),
                seen <= frames@[frame as int]@.len(),
                runs_within(frames@, minimum as int, frame as int, seen as int, runs@),
            decreases frames@[frame as int]@.len() - seen,
        {
            take_note(frames, minimum, frame, seen, &mut runs);
            seen = seen + 1;
        }
        proof {
            let all = frames@[frame as int]@;
            assert(all.take(seen as int) =~= all);
            assert forall|run: Run| #[trigger]
                held(frames@, run) && lasting(run, minimum as int) && run.start_frame < frame
                    + 1 implies runs@.contains(run) by {
                if run.start_frame == frame {
                    assert(heard(frames@, frame as int, run.note));
                }
            }
        }
        frame = frame + 1;
    }
    runs
}

/// Tracking loses and invents nothing: a note lasts through a frame exactly if
/// it is heard in it, as long as every note counts.
pub proof fn law_held_notes_are_the_heard_ones(
    frames: Seq<Vec<i32>>,
    runs: Seq<Run>,
    frame: int,
    note: i32,
)
    requires
        frames.len() <= usize::MAX,
        all_runs(frames, 1, frames.len() as int, runs),
    ensures
        heard(frames, frame, note) <==> exists|i: int|
            0 <= i < runs.len() && (#[trigger] runs[i]).note == note && runs[i].start_frame <= frame
                < runs[i].end_frame,
{
    if heard(frames, frame, note) {
        let start = lemma_start(frames, frame, note);
        let end = lemma_end(frames, frame, note);
        let run = Run { note, start_frame: start as usize, end_frame: end as usize };
        assert(held(frames, run));
        assert(lasting(run, 1));
        assert(runs.contains(run));
        let i = runs.index_of(run);
        assert(runs[i].note == note);
    }
    if exists|i: int|
        0 <= i < runs.len() && (#[trigger] runs[i]).note == note && runs[i].start_frame <= frame
            < runs[i].end_frame {
        let i = choose|i: int|
            0 <= i < runs.len() && (#[trigger] runs[i]).note == note && runs[i].start_frame <= frame
                < runs[i].end_frame;
        assert(held(frames, runs[i]));
        assert(heard(frames, frame, runs[i].note));
    }
}

/// Where a note that is heard began.
proof fn lemma_start(frames: Seq<Vec<i32>>, frame: int, note: i32) -> (start: int)
    requires
        heard(frames, frame, note),
    ensures
        0 <= start <= frame,
        forall|other: int| start <= other <= frame ==> #[trigger] heard(frames, other, note),
        !heard(frames, start - 1, note),
    decreases frame,
{
    if frame > 0 && heard(frames, frame - 1, note) {
        lemma_start(frames, frame - 1, note)
    } else {
        frame
    }
}

/// Where a note that is heard ends.
proof fn lemma_end(frames: Seq<Vec<i32>>, frame: int, note: i32) -> (end: int)
    requires
        heard(frames, frame, note),
    ensures
        frame < end <= frames.len(),
        forall|other: int| frame <= other < end ==> #[trigger] heard(frames, other, note),
        !heard(frames, end, note),
    decreases frames.len() - frame,
{
    if heard(frames, frame + 1, note) {
        lemma_end(frames, frame + 1, note)
    } else {
        frame + 1
    }
}

} // verus!
