//! What finding a waveform again comes to.
//!
//! Samples are given by the bits of a float of 64 bits. An event that repeats a
//! stored waveform is told by it, and any other by the trial that leaves the
//! least of it unexplained.

use vstd::prelude::*;

use crate::number::{all_digits, is_digit, lemma_decimal, value_of};
use crate::text::{decimal, digits};

use super::dedup::{same_sample, same_waveform};
use super::events::Event;
use super::model::GAIN_SCALE;
use super::pursuit::{
    explained, least, longer, name_of, once_stored, shorter, shortlist, tried_before, twin,
    worth_trying, Findings, Trial,
};

verus! {

/// The size of a float, without its sign.
pub open spec fn size_of_float(bits: u64) -> int {
    bits as int % 0x8000_0000_0000_0000
}

/// Two samples are the same if and only if they are the same number: none is not
/// a number, and either the bits are the same or both are a zero.
pub proof fn law_samples_are_the_same_number(first: u64, second: u64)
    ensures
        same_sample(first, second) <==> {
            &&& size_of_float(first) <= 0x7FF0_0000_0000_0000
            &&& size_of_float(second) <= 0x7FF0_0000_0000_0000
            &&& first == second || (size_of_float(first) == 0 && size_of_float(second) == 0)
        },
{
    assert(first & 0x7FFF_FFFF_FFFF_FFFF == first % 0x8000_0000_0000_0000) by (bit_vector);
    assert(second & 0x7FFF_FFFF_FFFF_FFFF == second % 0x8000_0000_0000_0000) by (bit_vector);
}

/// A twin is the first stored waveform that is as long and has the same samples,
/// and there is none only where no stored waveform has them.
pub proof fn law_twins_are_the_first_of_their_kind(
    bank: Seq<Seq<u64>>,
    window: Seq<u64>,
    other: int,
)
    requires
        bank.len() <= usize::MAX,
        0 <= other < bank.len(),
        bank[other].len() == window.len(),
        forall|i: int| 0 <= i < window.len() ==> same_sample(#[trigger] bank[other][i], window[i]),
    ensures
        twin(bank, window) matches Some(id) && id <= other && same_waveform(
            bank[id as int],
            window,
        ) && forall|k: int| 0 <= k < id ==> !same_waveform(#[trigger] bank[k], window),
    decreases bank.len(),
{
    let front = bank.drop_last();
    lemma_twin(front, window);
    if other < front.len() {
        assert(front[other] == bank[other]);
        law_twins_are_the_first_of_their_kind(front, window, other);
        let id = twin(front, window)->Some_0;
        assert(front[id as int] == bank[id as int]);
        assert forall|k: int| 0 <= k < id implies !same_waveform(#[trigger] bank[k], window) by {
            assert(front[k] == bank[k]);
        }
    } else {
        assert(same_waveform(bank[other], window));
        match twin(front, window) {
            Some(id) => {
                assert(front[id as int] == bank[id as int]);
                assert forall|k: int| 0 <= k < id implies !same_waveform(
                    #[trigger] bank[k],
                    window,
                ) by {
                    assert(front[k] == bank[k]);
                }
            },
            None => {
                assert forall|k: int| 0 <= k < bank.len() - 1 implies !same_waveform(
                    #[trigger] bank[k],
                    window,
                ) by {
                    assert(front[k] == bank[k]);
                }
            },
        }
    }
}

/// What a twin is.
proof fn lemma_twin(bank: Seq<Seq<u64>>, window: Seq<u64>)
    requires
        bank.len() <= usize::MAX,
    ensures
        match twin(bank, window) {
            Some(id) => id < bank.len() && same_waveform(bank[id as int], window) && forall|k: int|
                0 <= k < id ==> !same_waveform(#[trigger] bank[k], window),
            None => forall|k: int|
                0 <= k < bank.len() ==> !same_waveform(#[trigger] bank[k], window),
        },
    decreases bank.len(),
{
    if bank.len() > 0 {
        let front = bank.drop_last();
        lemma_twin(front, window);
        assert forall|k: int| 0 <= k < front.len() implies #[trigger] front[k] == bank[k] by {}
        match twin(front, window) {
            Some(id) => {
                assert forall|k: int| 0 <= k < id implies !same_waveform(
                    #[trigger] bank[k],
                    window,
                ) by {
                    assert(front[k] == bank[k]);
                }
            },
            None => {
                assert forall|k: int| 0 <= k < bank.len() - 1 implies !same_waveform(
                    #[trigger] bank[k],
                    window,
                ) by {
                    assert(front[k] == bank[k]);
                }
            },
        }
    }
}

/// The best trial is one of those that were made, leaves no more than any other
/// does, and less than any made before it.
pub proof fn law_the_best_trial_leaves_the_least(trials: Seq<Trial>)
    ensures
        least(trials) is None <==> trials.len() == 0,
        least(trials) matches Some(best) ==> exists|k: int|
            0 <= k < trials.len() && #[trigger] trials[k] == best && (forall|i: int|
                0 <= i < k ==> best.remainder < (#[trigger] trials[i]).remainder) && (forall|i: int|
                k <= i < trials.len() ==> best.remainder <= (#[trigger] trials[i]).remainder),
    decreases trials.len(),
{
    if trials.len() > 0 {
        let front = trials.drop_last();
        law_the_best_trial_leaves_the_least(front);
        match least(front) {
            None => {
                assert(trials[0] == trials.last());
            },
            Some(found) => {
                let k = choose|k: int|
                    0 <= k < front.len() && #[trigger] front[k] == found && (forall|i: int|
                        0 <= i < k ==> found.remainder < (#[trigger] front[i]).remainder) && (
                    forall|i: int|
                        k <= i < front.len() ==> found.remainder <= (
                        #[trigger] front[i]).remainder);
                assert forall|i: int| 0 <= i < front.len() implies #[trigger] trials[i]
                    == front[i] by {}
                assert(trials[k] == found);
                if trials.last().remainder < found.remainder {
                    let last = trials.len() - 1;
                    assert(trials[last] == trials.last());
                    assert forall|i: int| 0 <= i < last implies trials.last().remainder < (
                    #[trigger] trials[i]).remainder by {
                        assert(found.remainder <= front[i].remainder);
                    }
                } else {
                    assert forall|i: int| 0 <= i < k implies found.remainder < (
                    #[trigger] trials[i]).remainder by {
                        assert(found.remainder < front[i].remainder);
                    }
                    assert forall|i: int| k <= i < trials.len() implies found.remainder <= (
                    #[trigger] trials[i]).remainder by {
                        if i < front.len() {
                            assert(found.remainder <= front[i].remainder);
                        }
                    }
                }
            },
        }
    }
}

/// An event that repeats a stored waveform is told by the first such waveform, on
/// its own channel, where it stands and as loud as it is stored. Any other is
/// told, on its own channel, by the trial that leaves the least, and one without
/// trials is not told at all.
pub proof fn law_events_are_told_by_what_was_stored(
    bank: Seq<Seq<u64>>,
    window: Seq<u64>,
    event: Event,
    trials: Seq<Trial>,
)
    requires
        bank.len() <= usize::MAX,
    ensures
        match explained(bank, window, event, trials) {
            None => trials.len() == 0 && forall|k: int|
                0 <= k < bank.len() ==> !same_waveform(#[trigger] bank[k], window),
            Some(placement) => {
                &&& placement.channel == event.channel
                &&& (exists|k: int| 0 <= k < bank.len() && same_waveform(#[trigger] bank[k], window))
                    ==> {
                    &&& placement.sample < bank.len()
                    &&& same_waveform(bank[placement.sample as int], window)
                    &&& forall|k: int|
                        0 <= k < placement.sample ==> !same_waveform(#[trigger] bank[k], window)
                    &&& placement.start == event.start as i64
                    &&& placement.gain.over_scale() == 0x1_0000
                }
                &&& (forall|k: int|
                    0 <= k < bank.len() ==> !same_waveform(#[trigger] bank[k], window)) ==> exists|
                    t: int,
                |
                    0 <= t < trials.len() && (#[trigger] trials[t]).sample == placement.sample
                        && trials[t].start == placement.start && trials[t].gain == placement.gain
                        && forall|i: int|
                        0 <= i < trials.len() ==> trials[t].remainder <= (
                        #[trigger] trials[i]).remainder
            },
        },
{
    lemma_twin(bank, window);
    law_the_best_trial_leaves_the_least(trials);
    super::model::lemma_over(GAIN_SCALE);
    if least(trials) is Some {
        let best = least(trials)->Some_0;
        let k = choose|k: int|
            0 <= k < trials.len() && #[trigger] trials[k] == best && (forall|i: int|
                0 <= i < k ==> best.remainder < (#[trigger] trials[i]).remainder) && (forall|i: int|
                k <= i < trials.len() ==> best.remainder <= (#[trigger] trials[i]).remainder);
        assert forall|i: int| 0 <= i < trials.len() implies trials[k].remainder <= (
        #[trigger] trials[i]).remainder by {
            if i < k {
                assert(best.remainder < trials[i].remainder);
            }
        }
    }
}

/// Waveforms are tried that are at least half as long as the event and at most
/// twice as long, all of them unless there are too many; one of the same length
/// comes before all of another length, and of equally long ones the one that was
/// stored last.
pub proof fn law_close_lengths_are_tried_first(
    bank: Seq<Seq<u64>>,
    count: int,
    length: nat,
    limit: nat,
    ids: Seq<usize>,
    same: int,
    place: int,
)
    requires
        bank.len() <= usize::MAX,
        0 <= count <= bank.len(),
        shortlist(bank, count, length, limit, ids),
        length > 0,
        0 <= same < count,
        bank[same].len() == length,
        0 <= place < ids.len(),
    ensures
        ids[place] < count,
        length <= 2 * bank[ids[place] as int].len(),
        bank[ids[place] as int].len() <= 2 * length,
        ids.len() <= limit,
        bank[ids[place] as int].len() != length ==> exists|k: int|
            0 <= k < place && #[trigger] ids[k] == same,
        forall|k: int|
            0 <= k < place && bank[#[trigger] ids[k] as int].len()
                == bank[ids[place] as int].len() ==> ids[k] > ids[place],
        ids.len() < limit ==> forall|id: int|
            0 <= id < count && 0 < bank[id].len() && length <= 2 * (#[trigger] bank[id]).len()
                && bank[id].len() <= 2 * length ==> ids.contains(id as usize),
{
    let here = ids[place] as int;
    assert(worth_trying(bank, length, here));
    let size = bank[here].len();
    if size != length {
        assert(worth_trying(bank, length, same));
        let near = longer(length, length) * shorter(size, length);
        let far = longer(size, length) * shorter(length, length);
        assert(near < far) by (nonlinear_arith)
            requires
                near == length * shorter(size, length),
                far == longer(size, length) * length,
                shorter(size, length) < longer(size, length),
                length > 0,
        ;
        assert(!tried_before(bank, length, here, same));
        assert(ids.contains(same as usize));
        let k = choose|k: int| 0 <= k < ids.len() && ids[k] == same as usize;
        if k > place {
            assert(tried_before(bank, length, ids[place] as int, ids[k] as int));
        }
        assert(ids[k] == same);
    }
    assert forall|k: int|
        0 <= k < place && bank[#[trigger] ids[k] as int].len() == bank[here].len() implies ids[k]
        > ids[place] by {
        assert(tried_before(bank, length, ids[k] as int, ids[place] as int));
    }
    if ids.len() < limit {
        assert forall|id: int|
            0 <= id < count && 0 < bank[id].len() && length <= 2 * (#[trigger] bank[id]).len()
                && bank[id].len() <= 2 * length implies ids.contains(id as usize) by {
            assert(worth_trying(bank, length, id));
        }
    }
}

/// The name of a stored waveform ends in its number, counted from one, in at
/// least four digits.
pub proof fn law_names_number_the_samples(id: int)
    requires
        id >= 0,
    ensures
        name_of(id).len() >= 11,
        name_of(id).take(7) == seq!['s', 'a', 'm', 'p', 'l', 'e', '-'],
        all_digits(name_of(id).skip(7)),
        value_of(name_of(id).skip(7)) == id + 1,
{
    reveal_strlit("sample-");
    let number = (id + 1) as nat;
    let tail = name_of(id).skip(7);
    assert(name_of(id).take(7) =~= seq!['s', 'a', 'm', 'p', 'l', 'e', '-']);
    if number < 10_000 {
        assert(tail =~= digits(number, 10, 4));
        lemma_four_digits(number);
    } else {
        assert(tail =~= decimal(number));
        lemma_decimal(number);
        lemma_long_decimal(number);
    }
}

/// A number of more than four digits is written with as many.
proof fn lemma_long_decimal(number: nat)
    requires
        number >= 1000,
    ensures
        decimal(number).len() >= 4,
{
    reveal_with_fuel(decimal, 5);
}

/// Four digits spell a number below ten thousand.
proof fn lemma_four_digits(number: nat)
    requires
        number < 10_000,
    ensures
        digits(number, 10, 4).len() == 4,
        all_digits(digits(number, 10, 4)),
        value_of(digits(number, 10, 4)) == number,
{
    let one = digits(number / 1000, 10, 1);
    let two = digits(number / 100, 10, 2);
    let three = digits(number / 10, 10, 3);
    let four = digits(number, 10, 4);
    assert(number / 10 / 10 == number / 100);
    assert(number / 100 / 10 == number / 1000);
    assert(digits(number / 1000 / 10, 10, 0) =~= Seq::<char>::empty());
    assert(one.drop_last() =~= Seq::<char>::empty());
    assert(two.drop_last() =~= one);
    assert(three.drop_last() =~= two);
    assert(four.drop_last() =~= three);
    assert(value_of(one.drop_last()) == 0);
    assert(value_of(one) == number / 1000);
    assert(value_of(two) == number / 100);
    assert(value_of(three) == number / 10);
    assert forall|i: int| 0 <= i < four.len() implies is_digit(#[trigger] four[i]) by {
        if i < 3 {
            assert(four[i] == three[i]);
            if i < 2 {
                assert(three[i] == two[i]);
                if i < 1 {
                    assert(two[i] == one[i]);
                }
            }
        }
    }
}

/// A waveform that is stored is found again: the next event of the same samples is
/// told by it, or by one that was stored before and is the same. Storing it puts it
/// at the end of the bank and places it where the event stands, as loud as it is.
pub proof fn law_stored_waveforms_are_found_again(
    findings: Findings,
    window: Seq<u64>,
    event: Event,
)
    requires
        findings.bank.len() < usize::MAX,
        forall|i: int|
            0 <= i < window.len() ==> size_of_float(#[trigger] window[i]) <= 0x7FF0_0000_0000_0000,
    ensures
        ({
            let after = once_stored(findings, window, event);
            let placement = after.placements.last();
            &&& after.bank.len() == findings.bank.len() + 1
            &&& after.bank.drop_last() == findings.bank
            &&& after.placements.drop_last() == findings.placements
            &&& placement.sample < after.bank.len()
            &&& after.bank[placement.sample as int] == window
            &&& placement.channel == event.channel
            &&& placement.start == event.start as i64
            &&& placement.gain.over_scale() == 0x1_0000
            &&& twin(after.bank, window) matches Some(id) && id < after.bank.len()
                && same_waveform(after.bank[id as int], window)
        }),
{
    let after = once_stored(findings, window, event);
    let last = findings.bank.len() as int;
    super::model::lemma_over(GAIN_SCALE);
    assert(after.bank.drop_last() =~= findings.bank);
    assert(after.placements.drop_last() =~= findings.placements);
    assert(after.bank[last] == window);
    assert forall|i: int| 0 <= i < window.len() implies same_sample(
        #[trigger] after.bank[last][i],
        window[i],
    ) by {
        law_samples_are_the_same_number(window[i], window[i]);
    }
    law_twins_are_the_first_of_their_kind(after.bank, window, last);
}

} // verus!
