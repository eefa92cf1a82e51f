//! The decisions of the matching pursuit.
//!
//! The pursuit walks the events of a recording in time order. For each one it
//! is told what is left of the recording there, and decides whether a waveform
//! that is stored already is heard again, which stored waveforms are worth
//! trying, and how a waveform that is new enters the bank. How well a waveform
//! fits is measured outside.

use std::collections::HashMap;
use vstd::prelude::*;

use crate::decompose::dedup::{
    equal_waveforms, fingerprint, fingerprint_of, law_equal_waveforms_share_a_fingerprint,
    same_waveform,
};
use crate::decompose::events::{greater, leaves_room, lesser, realign, realigned, Event};
use crate::decompose::model::{Gain, Placement, GAIN_SCALE};
use crate::text::{digits, digits_text};

verus! {

broadcast use vstd::std_specs::hash::group_hash_axioms;

/// The waveforms of a bank.
pub open spec fn waveforms(bank: Seq<Vec<u64>>) -> Seq<Seq<u64>> {
    Seq::new(bank.len(), |i: int| bank[i]@)
}

/// The stored waveforms with a fingerprint, in the order they were stored.
pub open spec fn marked_by(bank: Seq<Seq<u64>>, hash: u64) -> Seq<usize>
    decreases bank.len(),
{
    if bank.len() == 0 {
        Seq::empty()
    } else {
        let before = marked_by(bank.drop_last(), hash);
        if fingerprint_of(bank.last(), bank.last().len()) == hash {
            before.push((bank.len() - 1) as usize)
        } else {
            before
        }
    }
}

/// The first stored waveform that equals a window, sample for sample.
pub open spec fn twin(bank: Seq<Seq<u64>>, window: Seq<u64>) -> Option<usize>
    decreases bank.len(),
{
    if bank.len() == 0 {
        None
    } else {
        match twin(bank.drop_last(), window) {
            Some(id) => Some(id),
            None => if same_waveform(bank.last(), window) {
                Some((bank.len() - 1) as usize)
            } else {
                None
            },
        }
    }
}

/// What a pursuit has come to.
#[verifier::ext_equal]
pub struct Findings {
    /// The waveforms that were stored.
    pub bank: Seq<Seq<u64>>,
    /// Where each of them was placed.
    pub placements: Seq<Placement>,
    /// The position chosen for each event, if it held anything worth storing.
    pub starts: Seq<Option<i64>>,
}

/// Whether every placement names a stored waveform.
pub open spec fn names_stored(findings: Findings) -> bool {
    forall|i: int|
        0 <= i < findings.placements.len() ==> (#[trigger] findings.placements[i]).sample
            < findings.bank.len()
}

/// What a pursuit comes to with a waveform placed once more.
pub open spec fn once_placed(findings: Findings, placement: Placement) -> Findings {
    Findings {
        bank: findings.bank,
        placements: findings.placements.push(placement),
        starts: findings.starts.push(Some(placement.start)),
    }
}

/// What a pursuit comes to with a waveform stored and placed where it was found.
pub open spec fn once_stored(findings: Findings, window: Seq<u64>, event: Event) -> Findings {
    Findings {
        bank: findings.bank.push(window),
        placements: findings.placements.push(in_place(findings.bank.len() as usize, event)),
        starts: findings.starts.push(Some(event.start as i64)),
    }
}

/// A stored waveform where an event stands, at full loudness.
pub open spec fn in_place(id: usize, event: Event) -> Placement {
    Placement {
        sample: id,
        channel: event.channel,
        start: event.start as i64,
        gain: Gain::over(GAIN_SCALE),
    }
}

/// One pass of the pursuit over a set of events.
pub struct Pursuit {
    bank: Vec<Vec<u64>>,
    by_fingerprint: HashMap<u64, Vec<usize>>,
    placements: Vec<Placement>,
    starts: Vec<Option<i64>>,
}

impl View for Pursuit {
    type V = Findings;

    closed spec fn view(&self) -> Findings {
        Findings {
            bank: waveforms(self.bank@),
            placements: self.placements@,
            starts: self.starts@,
        }
    }
}

/// The name of a stored waveform: its number, from one on, in four digits or
/// more.
pub open spec fn name_of(id: int) -> Seq<char> {
    "sample-"@ + if id + 1 < 10_000 {
        digits((id + 1) as nat, 10, 4)
    } else {
        crate::text::decimal((id + 1) as nat)
    }
}

/// The name of a stored waveform.
pub fn sample_name(id: usize) -> (name: String)
    requires
        id < usize::MAX,
    ensures
        name@ == name_of(id as int),
{
    let mut name = "sample-".to_string();
    if id + 1 < 10_000 {
        name.append(digits_text((id + 1) as u64, 10, 4).as_str());
    } else {
        name.append(crate::text::decimal_text((id + 1) as u64).as_str());
    }
    name
}

/// The stored waveforms with a fingerprint are the ones that have it.
proof fn lemma_marked_by(bank: Seq<Seq<u64>>, hash: u64)
    requires
        bank.len() <= usize::MAX,
    ensures
        forall|k: int|
            0 <= k < marked_by(bank, hash).len() ==> {
                &&& (#[trigger] marked_by(bank, hash)[k]) < bank.len()
                &&& fingerprint_of(
                    bank[marked_by(bank, hash)[k] as int],
                    bank[marked_by(bank, hash)[k] as int].len(),
                ) == hash
            },
    decreases bank.len(),
{
    if bank.len() > 0 {
        lemma_marked_by(bank.drop_last(), hash);
        let before = marked_by(bank.drop_last(), hash);
        assert forall|k: int| 0 <= k < marked_by(bank, hash).len() implies {
            &&& (#[trigger] marked_by(bank, hash)[k]) < bank.len()
            &&& fingerprint_of(
                bank[marked_by(bank, hash)[k] as int],
                bank[marked_by(bank, hash)[k] as int].len(),
            ) == hash
        } by {
            if k < before.len() {
                assert(marked_by(bank, hash)[k] == before[k]);
                assert(bank.drop_last()[before[k] as int] == bank[before[k] as int]);
            }
        }
    }
}

/// The first of some stored waveforms that equals a window.
pub open spec fn first_equal(
    bank: Seq<Seq<u64>>,
    ids: Seq<usize>,
    window: Seq<u64>,
) -> Option<usize>
    decreases ids.len(),
{
    if ids.len() == 0 {
        None
    } else {
        match first_equal(bank, ids.drop_last(), window) {
            Some(id) => Some(id),
            None => if same_waveform(bank[ids.last() as int], window) {
                Some(ids.last())
            } else {
                None
            },
        }
    }
}

/// Looking among the waveforms with a window's fingerprint finds its twin.
proof fn lemma_twin(bank: Seq<Seq<u64>>, whole: Seq<Seq<u64>>, window: Seq<u64>)
    requires
        whole.len() <= usize::MAX,
        bank.len() <= whole.len(),
        forall|i: int| 0 <= i < bank.len() ==> bank[i] == whole[i],
    ensures
        first_equal(
            whole,
            marked_by(bank, fingerprint_of(window, window.len())),
            window,
        ) == twin(bank, window),
    decreases bank.len(),
{
    if bank.len() > 0 {
        let hash = fingerprint_of(window, window.len());
        let front = bank.drop_last();
        lemma_twin(front, whole, window);
        if same_waveform(bank.last(), window) {
            law_equal_waveforms_share_a_fingerprint(bank.last(), window);
        }
        if fingerprint_of(bank.last(), bank.last().len()) == hash {
            assert(marked_by(bank, hash).drop_last() =~= marked_by(front, hash));
            assert(marked_by(bank, hash).last() == bank.len() - 1);
        }
    }
}

/// How a stored waveform of a length stands to a window: the longer of the two
/// lengths over the shorter.
pub open spec fn longer(stored: nat, window: nat) -> nat {
    greater(stored as int, window as int) as nat
}

/// The shorter of the two lengths.
pub open spec fn shorter(stored: nat, window: nat) -> nat {
    lesser(stored as int, window as int) as nat
}

/// Whether a stored waveform is worth trying for a window: it is at most twice
/// as long and at least half as long.
pub open spec fn worth_trying(bank: Seq<Seq<u64>>, length: nat, id: int) -> bool {
    &&& 0 <= id < bank.len()
    &&& bank[id].len() > 0
    &&& length <= 2 * bank[id].len()
    &&& bank[id].len() <= 2 * length
}

/// Whether one stored waveform is tried before another: its length is closer to
/// the window's by the ratio of the two, or as close and it was stored later.
pub open spec fn tried_before(bank: Seq<Seq<u64>>, length: nat, first: int, second: int) -> bool {
    let left = longer(bank[first].len(), length) * shorter(bank[second].len(), length);
    let right = longer(bank[second].len(), length) * shorter(bank[first].len(), length);
    left < right || (left == right && first > second)
}

/// Whether some stored waveforms are the ones to try for a window, at most
/// `limit` of them, the best first: of those worth trying among the first
/// `count`, none that was left out comes before one that was not.
pub open spec fn shortlist(
    bank: Seq<Seq<u64>>,
    count: int,
    length: nat,
    limit: nat,
    ids: Seq<usize>,
) -> bool {
    &&& ids.len() <= limit
    &&& forall|k: int|
        0 <= k < ids.len() ==> (#[trigger] ids[k]) < count && worth_trying(
            bank,
            length,
            ids[k] as int,
        )
    &&& forall|i: int, j: int|
        0 <= i < j < ids.len() ==> tried_before(bank, length, ids[i] as int, ids[j] as int)
    &&& forall|id: int|
        0 <= id < count && #[trigger] worth_trying(bank, length, id) ==> {
            ||| ids.contains(id as usize)
            ||| {
                &&& ids.len() == limit
                &&& forall|k: int|
                    0 <= k < ids.len() ==> #[trigger] tried_before(bank, length, ids[k] as int, id)
            }
        }
}

/// How well a stored waveform explains an event where it fits best.
#[derive(Clone, Copy, Debug, PartialEq, Eq)]
pub struct Trial {
    /// Which stored waveform was tried.
    pub sample: usize,
    /// Where it fits best, in frames.
    pub start: i64,
    /// How loud it is there.
    pub gain: Gain,
    /// What it leaves unexplained, as a number that grows with it.
    pub remainder: u64,
}

/// The first trial that leaves the least unexplained.
pub open spec fn least(trials: Seq<Trial>) -> Option<Trial>
    decreases trials.len(),
{
    if trials.len() == 0 {
        None
    } else {
        match least(trials.drop_last()) {
            None => Some(trials.last()),
            Some(best) => if trials.last().remainder < best.remainder {
                Some(trials.last())
            } else {
                Some(best)
            },
        }
    }
}

/// Where a stored waveform explains an event: one that the window repeats
/// verbatim, in place and at full loudness, or else the best of the trials.
pub open spec fn explained(
    bank: Seq<Seq<u64>>,
    window: Seq<u64>,
    event: Event,
    trials: Seq<Trial>,
) -> Option<Placement> {
    match twin(bank, window) {
        Some(id) => Some(in_place(id, event)),
        None => match least(trials) {
            Some(best) => Some(
                Placement {
                    sample: best.sample,
                    channel: event.channel,
                    start: best.start,
                    gain: best.gain,
                },
            ),
            None => None,
        },
    }
}

/// The twin of a window is stored.
proof fn lemma_twin_stored(bank: Seq<Seq<u64>>, window: Seq<u64>)
    requires
        bank.len() <= usize::MAX,
    ensures
        twin(bank, window) matches Some(id) ==> id < bank.len(),
    decreases bank.len(),
{
    if bank.len() > 0 {
        lemma_twin_stored(bank.drop_last(), window);
    }
}

/// The best trial is one of them.
proof fn lemma_least_tried(trials: Seq<Trial>)
    ensures
        least(trials) matches Some(best) ==> trials.contains(best),
        least(trials) is None ==> trials.len() == 0,
    decreases trials.len(),
{
    if trials.len() > 0 {
        let before = trials.drop_last();
        lemma_least_tried(before);
        assert(trials[trials.len() - 1] == trials.last());
        if let Some(best) = least(before) {
            let at = before.index_of(best);
            assert(trials[at] == before[at]);
        }
    }
}

/// The order of trying is transitive.
proof fn lemma_tried_before_chains(
    bank: Seq<Seq<u64>>,
    length: nat,
    first: int,
    second: int,
    third: int,
)
    requires
        worth_trying(bank, length, first),
        worth_trying(bank, length, second),
        worth_trying(bank, length, third),
        tried_before(bank, length, first, second),
        tried_before(bank, length, second, third),
    ensures
        tried_before(bank, length, first, third),
{
    let a = longer(bank[first].len(), length) as int;
    let b = shorter(bank[first].len(), length) as int;
    let c = longer(bank[second].len(), length) as int;
    let d = shorter(bank[second].len(), length) as int;
    let e = longer(bank[third].len(), length) as int;
    let f = shorter(bank[third].len(), length) as int;
    assert(a * d * f <= c * b * f) by (nonlinear_arith)
        requires
            a * d <= c * b,
            f > 0,
    ;
    assert(c * f * b <= e * d * b) by (nonlinear_arith)
        requires
            c * f <= e * d,
            b > 0,
    ;
    assert(c * b * f == c * f * b) by (nonlinear_arith);
    assert(a * d * f == (a * f) * d) by (nonlinear_arith);
    assert(e * d * b == (e * b) * d) by (nonlinear_arith);
    assert(a * f <= e * b) by (nonlinear_arith)
        requires
            (a * f) * d <= (e * b) * d,
            d > 0,
    ;
    if a * f == e * b {
        assert(a * d * f == c * b * f);
        assert(a * d == c * b) by (nonlinear_arith)
            requires
                a * d * f == c * b * f,
                f > 0,
        ;
        assert(c * f == e * d) by (nonlinear_arith)
            requires
                c * f * b == e * d * b,
                b > 0,
        ;
    }
}

/// Of two stored waveforms one is tried first.
proof fn lemma_tried_before_decides(bank: Seq<Seq<u64>>, length: nat, first: int, second: int)
    requires
        first != second,
    ensures
        tried_before(bank, length, first, second) != tried_before(bank, length, second, first),
{
    assert(longer(bank[first].len(), length) * shorter(bank[second].len(), length) == shorter(
        bank[second].len(),
        length,
    ) * longer(bank[first].len(), length)) by (nonlinear_arith);
}

/// A waveform put in front of the first one that it comes before, and the last
/// one dropped where there are too many, keeps a shortlist.
proof fn lemma_shortlisted(
    bank: Seq<Seq<u64>>,
    count: int,
    length: nat,
    limit: nat,
    ids: Seq<usize>,
    place: int,
    longlist: Seq<usize>,
    kept: Seq<usize>,
)
    requires
        0 <= count < bank.len() <= usize::MAX,
        shortlist(bank, count, length, limit, ids),
        worth_trying(bank, length, count),
        0 <= place <= ids.len(),
        forall|k: int|
            0 <= k < place ==> !tried_before(bank, length, count, (#[trigger] ids[k]) as int),
        place < ids.len() ==> tried_before(bank, length, count, ids[place] as int),
        longlist == ids.insert(place, count as usize),
        kept == if longlist.len() > limit {
            longlist.drop_last()
        } else {
            longlist
        },
    ensures
        shortlist(bank, count + 1, length, limit, kept),
{
    assert forall|k: int| 0 <= k < longlist.len() implies (#[trigger] longlist[k]) < count + 1
        && worth_trying(bank, length, longlist[k] as int) by {
        if k < place {
            assert(longlist[k] == ids[k]);
        } else if k > place {
            assert(longlist[k] == ids[k - 1]);
        }
    }
    assert forall|i: int, j: int| 0 <= i < j < longlist.len() implies tried_before(
        bank,
        length,
        longlist[i] as int,
        longlist[j] as int,
    ) by {
        if j < place {
            assert(longlist[i] == ids[i] && longlist[j] == ids[j]);
        } else if j == place {
            assert(longlist[i] == ids[i]);
            lemma_tried_before_decides(bank, length, count, ids[i] as int);
        } else if i < place {
            assert(longlist[i] == ids[i] && longlist[j] == ids[j - 1]);
        } else if i == place {
            assert(longlist[j] == ids[j - 1]);
            if j - 1 > place {
                lemma_tried_before_chains(
                    bank,
                    length,
                    count,
                    ids[place] as int,
                    ids[j - 1] as int,
                );
            }
        } else {
            assert(longlist[i] == ids[i - 1] && longlist[j] == ids[j - 1]);
        }
    }
    assert forall|id: int|
        0 <= id < count + 1 && #[trigger] worth_trying(bank, length, id) implies {
        ||| kept.contains(id as usize)
        ||| {
            &&& kept.len() == limit
            &&& forall|k: int|
                0 <= k < kept.len() ==> #[trigger] tried_before(bank, length, kept[k] as int, id)
        }
    } by {
        let at = if id == count {
            place
        } else if ids.contains(id as usize) {
            let k = ids.index_of(id as usize);
            if k < place {
                k
            } else {
                k + 1
            }
        } else {
            -1
        };
        if at >= 0 {
            assert(longlist[at] == id as usize);
            if at < kept.len() {
                assert(kept[at] == id as usize);
            } else {
                assert forall|k: int| 0 <= k < kept.len() implies #[trigger] tried_before(
                    bank,
                    length,
                    kept[k] as int,
                    id,
                ) by {
                    assert(kept[k] == longlist[k]);
                }
            }
        } else {
            assert(longlist.len() == ids.len() + 1);
            assert forall|k: int| 0 <= k < kept.len() implies #[trigger] tried_before(
                bank,
                length,
                kept[k] as int,
                id,
            ) by {
                if k < place {
                    assert(kept[k] == ids[k]);
                } else if k == place {
                    lemma_tried_before_chains(bank, length, count, ids[place] as int, id);
                } else {
                    assert(kept[k] == ids[k - 1]);
                }
            }
        }
    }
}

impl Pursuit {
    /// Whether the fingerprints lead to the waveforms that have them, and every
    /// placement to a stored one.
    pub closed spec fn wf(&self) -> bool {
        &&& self.bank@.len() <= usize::MAX
        &&& forall|hash: u64| #[trigger]
            marked_by(waveforms(self.bank@), hash) == (if self.by_fingerprint@.contains_key(hash) {
                self.by_fingerprint@[hash]@
            } else {
                Seq::empty()
            })
        &&& names_stored(self@)
    }

    /// A pass that has not begun.
    pub fn new() -> (pursuit: Self)
        ensures
            pursuit.wf(),
            pursuit@ == (Findings {
                bank: Seq::empty(),
                placements: Seq::empty(),
                starts: Seq::empty(),
            }),
    {
        let pursuit = Pursuit {
            bank: Vec::new(),
            by_fingerprint: HashMap::new(),
            placements: Vec::new(),
            starts: Vec::new(),
        };
        proof {
            assert(waveforms(pursuit.bank@) =~= Seq::<Seq<u64>>::empty());
            assert forall|hash: u64| #[trigger] marked_by(waveforms(pursuit.bank@), hash)
                == Seq::<usize>::empty() by {}
            assert(pursuit@ =~= (Findings {
                bank: Seq::empty(),
                placements: Seq::empty(),
                starts: Seq::empty(),
            }));
        }
        pursuit
    }

    /// How many waveforms are stored.
    pub fn len(&self) -> (count: usize)
        ensures
            count == self@.bank.len(),
    {
        self.bank.len()
    }

    /// A stored waveform.
    pub fn waveform(&self, id: usize) -> (waveform: &Vec<u64>)
        requires
            id < self@.bank.len(),
        ensures
            waveform@ == self@.bank[id as int],
    {
        &self.bank[id]
    }

    /// Where the stored waveforms were placed.
    pub fn placements(&self) -> (placements: &Vec<Placement>)
        ensures
            placements@ == self@.placements,
    {
        &self.placements
    }

    /// The position chosen for each event, if it held anything worth storing.
    pub fn starts(&self) -> (starts: &Vec<Option<i64>>)
        ensures
            starts@ == self@.starts,
    {
        &self.starts
    }

    /// The first stored waveform that a window repeats verbatim.
    pub fn identical(&self, window: &[u64]) -> (id: Option<usize>)
        requires
            self.wf(),
        ensures
            id == twin(self@.bank, window@),
    {
        let hash: u64 = fingerprint(window);
        let ghost bank = waveforms(self.bank@);
        proof {
            lemma_twin(bank, bank, window@);
            lemma_marked_by(bank, hash);
            assert(marked_by(bank, hash) == marked_by(waveforms(self.bank@), hash));
        }
        match self.by_fingerprint.get(&hash) {
            None => None,
            Some(ids) => {
                let mut index: usize = 0;
                assert(ids@.take(0) =~= Seq::<usize>::empty());
                while index < ids.len()
                    invariant
                        bank == waveforms(self.bank@),
                        index <= ids@.len(),
                        forall|k: int| 0 <= k < ids@.len() ==> (#[trigger] ids@[k]) < bank.len(),
                        first_equal(bank, ids@.take(index as int), window@) is None,
                        first_equal(bank, ids@, window@) == twin(bank, window@),
                    decreases ids@.len() - index,
                {
                    let id: usize = ids[index];
                    assert(ids@.take(index + 1).drop_last() =~= ids@.take(index as int));
                    assert(bank[id as int] == self.bank@[id as int]@);
                    if equal_waveforms(self.bank[id].as_slice(), window) {
                        proof {
                            assert(first_equal(bank, ids@.take(index + 1), window@) == Some(id));
                            lemma_first_equal_kept(bank, ids@, window@, index + 1);
                        }
                        return Some(id);
                    }
                    index = index + 1;
                }
                assert(ids@.take(index as int) =~= ids@);
                None
            },
        }
    }

    /// Whether one stored waveform is tried before another for a window.
    fn precedes(&self, length: usize, first: usize, second: usize) -> (before: bool)
        requires
            first < self@.bank.len(),
            second < self@.bank.len(),
        ensures
            before == tried_before(self@.bank, length as nat, first as int, second as int),
    {
        let near: usize = self.bank[first].len();
        let far: usize = self.bank[second].len();
        assert(near == self@.bank[first as int].len());
        assert(far == self@.bank[second as int].len());
        let near_longer: u128 = (if near > length { near } else { length }) as u128;
        let near_shorter: u128 = (if near > length { length } else { near }) as u128;
        let far_longer: u128 = (if far > length { far } else { length }) as u128;
        let far_shorter: u128 = (if far > length { length } else { far }) as u128;
        assert(near_longer * far_shorter <= 0xffff_ffff_ffff_ffff * 0xffff_ffff_ffff_ffff)
            by (nonlinear_arith)
            requires
                near_longer <= 0xffff_ffff_ffff_ffff,
                far_shorter <= 0xffff_ffff_ffff_ffff,
        ;
        assert(far_longer * near_shorter <= 0xffff_ffff_ffff_ffff * 0xffff_ffff_ffff_ffff)
            by (nonlinear_arith)
            requires
                far_longer <= 0xffff_ffff_ffff_ffff,
                near_shorter <= 0xffff_ffff_ffff_ffff,
        ;
        let left: u128 = near_longer * far_shorter;
        let right: u128 = far_longer * near_shorter;
        left < right || (left == right && first > second)
    }

    /// The stored waveforms worth trying for a window of a length, at most
    /// `limit` of them: the closest lengths, the most recent first.
    pub fn candidates(&self, length: usize, limit: usize) -> (ids: Vec<usize>)
        requires
            self.wf(),
        ensures
            shortlist(
                self@.bank,
                self@.bank.len() as int,
                length as nat,
                limit as nat,
                ids@,
            ),
    {
        let mut ids: Vec<usize> = Vec::new();
        let mut id: usize = 0;
        while id < self.bank.len()
            invariant
                id <= self.bank@.len() <= usize::MAX,
                shortlist(self@.bank, id as int, length as nat, limit as nat, ids@),
            decreases self.bank@.len() - id,
        {
            let ghost bank = self@.bank;
            let ghost before = ids@;
            let stored: usize = self.bank[id].len();
            assert(stored == bank[id as int].len());
            if stored > 0 && length as u128 <= 2 * (stored as u128) && stored as u128 <= 2
                * (length as u128) {
                let mut place: usize = 0;
                while place < ids.len() && !self.precedes(length, id, ids[place])
                    invariant
                        place <= ids@.len(),
                        id < bank.len(),
                        bank == self@.bank,
                        forall|k: int|
                            0 <= k < ids@.len() ==> (#[trigger] ids@[k]) < bank.len(),
                        forall|k: int|
                            0 <= k < place ==> !tried_before(
                                bank,
                                length as nat,
                                id as int,
                                (#[trigger] ids@[k]) as int,
                            ),
                    ensures
                        place < ids@.len() ==> tried_before(
                            bank,
                            length as nat,
                            id as int,
                            ids@[place as int] as int,
                        ),
                    decreases ids@.len() - place,
                {
                    place = place + 1;
                }
                if ids.len() < limit {
                    ids.insert(place, id);
                    proof {
                        lemma_shortlisted(
                            bank,
                            id as int,
                            length as nat,
                            limit as nat,
                            before,
                            place as int,
                            ids@,
                            ids@,
                        );
                    }
                } else {
                    if place < ids.len() {
                        ids.pop();
                        ids.insert(place, id);
                    }
                    proof {
                        let longlist = before.insert(place as int, id);
                        assert(ids@ =~= longlist.drop_last());
                        lemma_shortlisted(
                            bank,
                            id as int,
                            length as nat,
                            limit as nat,
                            before,
                            place as int,
                            longlist,
                            ids@,
                        );
                    }
                }
            }
            id = id + 1;
        }
        ids
    }

    /// The stored waveform that explains an event, given how the candidates
    /// fared: a verbatim repeat, or else the first of the best.
    pub fn reuse(&self, window: &[u64], event: Event, trials: &Vec<Trial>) -> (placement: Option<
        Placement,
    >)
        requires
            self.wf(),
            event.start <= i64::MAX,
        ensures
            placement == explained(self@.bank, window@, event, trials@),
    {
        match self.identical(window) {
            Some(id) => {
                return Some(
                    Placement::new(id, event.channel, event.start as i64, Gain::unit()),
                );
            },
            None => {},
        }
        let mut best: Option<Trial> = None;
        let mut index: usize = 0;
        assert(trials@.take(0) =~= Seq::<Trial>::empty());
        while index < trials.len()
            invariant
                index <= trials@.len(),
                best == least(trials@.take(index as int)),
            decreases trials@.len() - index,
        {
            let trial: Trial = trials[index];
            assert(trials@.take(index + 1).drop_last() =~= trials@.take(index as int));
            best = match best {
                None => Some(trial),
                Some(other) => if trial.remainder < other.remainder {
                    Some(trial)
                } else {
                    Some(other)
                },
            };
            index = index + 1;
        }
        assert(trials@.take(index as int) =~= trials@);
        match best {
            Some(trial) => Some(
                Placement::new(trial.sample, event.channel, trial.start, trial.gain),
            ),
            None => None,
        }
    }

    /// Notes that an event held nothing worth storing.
    pub fn skip(&mut self)
        requires
            old(self).wf(),
        ensures
            final(self).wf(),
            final(self)@ == (Findings { starts: old(self)@.starts.push(None), ..old(self)@ }),
    {
        self.starts.push(None);
        assert(self@ =~= (Findings { starts: old(self)@.starts.push(None), ..old(self)@ }));
    }

    /// Notes that an event is explained by a waveform at a position.
    pub fn place(&mut self, placement: Placement)
        requires
            old(self).wf(),
            placement.sample < old(self)@.bank.len(),
        ensures
            final(self).wf(),
            final(self)@ == once_placed(old(self)@, placement),
    {
        self.placements.push(placement);
        self.starts.push(Some(placement.start));
        assert(self@ =~= once_placed(old(self)@, placement));
    }

    /// Stores what is left at an event as a new waveform, and places it where it
    /// was found.
    pub fn store(&mut self, window: Vec<u64>, event: Event) -> (placement: Placement)
        requires
            old(self).wf(),
            old(self)@.bank.len() < usize::MAX,
            event.start <= i64::MAX,
        ensures
            final(self).wf(),
            placement == in_place(old(self)@.bank.len() as usize, event),
            final(self)@ == once_stored(old(self)@, window@, event),
    {
        let id: usize = self.bank.len();
        let hash: u64 = fingerprint(window.as_slice());
        let ghost before = waveforms(self.bank@);
        let ghost index = self.by_fingerprint@;
        assert(marked_by(before, hash) == marked_by(waveforms(self.bank@), hash));
        let mut ids: Vec<usize> = match self.by_fingerprint.remove(&hash) {
            Some(ids) => ids,
            None => Vec::new(),
        };
        assert(ids@ =~= marked_by(before, hash));
        ids.push(id);
        self.by_fingerprint.insert(hash, ids);
        let ghost added = window@;
        self.bank.push(window);
        let placement = Placement::new(id, event.channel, event.start as i64, Gain::unit());
        self.placements.push(placement);
        self.starts.push(Some(event.start as i64));
        proof {
            let after = waveforms(self.bank@);
            assert(after =~= before.push(added));
            assert(after.drop_last() =~= before);
            assert forall|other: u64| #[trigger]
                marked_by(after, other) == (if self.by_fingerprint@.contains_key(other) {
                    self.by_fingerprint@[other]@
                } else {
                    Seq::empty()
                }) by {
                assert(marked_by(before, other) == (if index.contains_key(other) {
                    index[other]@
                } else {
                    Seq::empty()
                }));
            }
            assert(self@ =~= once_stored(old(self)@, added, event));
        }
        placement
    }

    /// Takes an event: places the stored waveform that explains it, or stores
    /// what is left there where none does.
    pub fn take(&mut self, window: Vec<u64>, event: Event, trials: &Vec<Trial>) -> (placement:
        Placement)
        requires
            old(self).wf(),
            old(self)@.bank.len() < usize::MAX,
            event.start <= i64::MAX,
            forall|i: int|
                0 <= i < trials@.len() ==> (#[trigger] trials@[i]).sample < old(self)@.bank.len(),
        ensures
            final(self).wf(),
            match explained(old(self)@.bank, window@, event, trials@) {
                Some(expected) => {
                    &&& placement == expected
                    &&& final(self)@ == once_placed(old(self)@, expected)
                },
                None => {
                    &&& placement == in_place(old(self)@.bank.len() as usize, event)
                    &&& final(self)@ == once_stored(old(self)@, window@, event)
                },
            },
            placement.sample < final(self)@.bank.len(),
    {
        match self.reuse(window.as_slice(), event, trials) {
            Some(placement) => {
                proof {
                    lemma_twin_stored(self@.bank, window@);
                    lemma_least_tried(trials@);
                }
                self.place(placement);
                placement
            },
            None => self.store(window, event),
        }
    }
}

/// Whatever a pursuit was told, each of its placements names a waveform that it
/// stored.
pub proof fn law_placements_name_stored_waveforms(pursuit: Pursuit)
    requires
        pursuit.wf(),
    ensures
        names_stored(pursuit@),
{
}

/// The events that a second pass goes over: the first pass's, moved to where it
/// placed its waveforms, unless nothing may be shifted or nothing was.
pub open spec fn once_more(
    found: Seq<Event>,
    starts: Seq<Option<i64>>,
    radius: int,
) -> Option<Seq<Event>> {
    if radius == 0 || realigned(found, starts) == found {
        None
    } else {
        Some(realigned(found, starts))
    }
}

/// The events that a second pass goes over, if one is worth it.
pub fn second_pass(
    found: &Vec<Event>,
    starts: &Vec<Option<i64>>,
    radius: usize,
) -> (events: Option<Vec<Event>>)
    requires
        starts@.len() == found@.len(),
        leaves_room(found@),
    ensures
        match once_more(found@, starts@, radius as int) {
            Some(expected) => events matches Some(moved) && moved@ == expected,
            None => events is None,
        },
{
    if radius == 0 {
        return None;
    }
    let moved = realign(found, starts);
    let mut same: bool = moved.len() == found.len();
    let mut index: usize = 0;
    while same && index < found.len()
        invariant
            index <= found@.len(),
            same ==> moved@.len() == found@.len() && forall|i: int|
                0 <= i < index ==> moved@[i] == found@[i],
            !same ==> moved@ != found@,
        decreases found@.len() - index + (if same { 1int } else { 0 }),
    {
        if moved[index] != found[index] {
            same = false;
        } else {
            index = index + 1;
        }
    }
    if same {
        assert(moved@ =~= found@);
        None
    } else {
        Some(moved)
    }
}

/// What the first of some waveforms found, all of them find.
proof fn lemma_first_equal_kept(
    bank: Seq<Seq<u64>>,
    ids: Seq<usize>,
    window: Seq<u64>,
    count: int,
)
    requires
        0 <= count <= ids.len(),
        first_equal(bank, ids.take(count), window) is Some,
    ensures
        first_equal(bank, ids, window) == first_equal(bank, ids.take(count), window),
    decreases ids.len() - count,
{
    if count < ids.len() {
        assert(ids.take(count + 1).drop_last() =~= ids.take(count));
        lemma_first_equal_kept(bank, ids, window, count + 1);
    } else {
        assert(ids.take(count) =~= ids);
    }
}

} // verus!
