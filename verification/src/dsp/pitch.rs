//! Note names: the scientific-pitch reading of MIDI note numbers.

use vstd::prelude::*;

use crate::number::{parse_signed, signed_decimal, signed_text, signed_value};
use crate::path::stretch;
use crate::text::{
    blank, chars_of, is_space, law_blanks_around_are_trimmed, lemma_trimmed_behind, lower_char,
    string_of, trim, trimmed, trimmed_end, trimmed_start,
};

verus! {

/// The name of a note within its octave, the twelve of them counted from C.
pub open spec fn class_name(class: int) -> Seq<char> {
    if class == 0 {
        seq!['C']
    } else if class == 1 {
        seq!['C', '#']
    } else if class == 2 {
        seq!['D']
    } else if class == 3 {
        seq!['D', '#']
    } else if class == 4 {
        seq!['E']
    } else if class == 5 {
        seq!['F']
    } else if class == 6 {
        seq!['F', '#']
    } else if class == 7 {
        seq!['G']
    } else if class == 8 {
        seq!['G', '#']
    } else if class == 9 {
        seq!['A']
    } else if class == 10 {
        seq!['A', '#']
    } else {
        seq!['B']
    }
}

/// A note number brought into the MIDI range.
pub open spec fn clamped(note: int) -> int {
    if note < 0 {
        0
    } else if note > 127 {
        127
    } else {
        note
    }
}

/// The scientific-pitch name of a MIDI note.
pub open spec fn name_of(note: int) -> Seq<char> {
    class_name(clamped(note) % 12) + signed_decimal(clamped(note) / 12 - 1)
}

/// How many semitones a letter stands above C, in either case.
pub open spec fn semitones(letter: char) -> Option<int> {
    if letter == 'C' || letter == 'c' {
        Some(0)
    } else if letter == 'D' || letter == 'd' {
        Some(2)
    } else if letter == 'E' || letter == 'e' {
        Some(4)
    } else if letter == 'F' || letter == 'f' {
        Some(5)
    } else if letter == 'G' || letter == 'g' {
        Some(7)
    } else if letter == 'A' || letter == 'a' {
        Some(9)
    } else if letter == 'B' || letter == 'b' {
        Some(11)
    } else {
        None
    }
}

/// The MIDI note that a name stands for: a letter, a sharp or a flat if any, and
/// an octave, as long as it lies in the MIDI range.
pub open spec fn note_of(name: Seq<char>) -> Option<int> {
    let inner = trimmed(name);
    if inner.len() == 0 {
        None
    } else {
        let rest = inner.skip(1);
        let (accidental, octave) = if rest.len() > 0 && rest[0] == '#' {
            (1int, rest.skip(1))
        } else if rest.len() > 0 && rest[0] == 'b' {
            (-1int, rest.skip(1))
        } else {
            (0int, rest)
        };
        match (semitones(inner[0]), signed_value(trimmed(octave))) {
            (Some(base), Some(number)) => {
                let note = (number + 1) * 12 + base + accidental;
                if 0 <= note <= 127 {
                    Some(note)
                } else {
                    None
                }
            },
            _ => None,
        }
    }
}

/// The scientific-pitch name of a MIDI note, such as `A4` or `C#3`.
pub fn note_name(note: i32) -> (name: String)
    ensures
        name@ == name_of(note as int),
{
    let inside: i32 = if note < 0 {
        0
    } else if note > 127 {
        127
    } else {
        note
    };
    let octave: i64 = (inside / 12) as i64 - 1;
    let class: i32 = inside % 12;
    let letters = if class == 0 {
        "C"
    } else if class == 1 {
        "C#"
    } else if class == 2 {
        "D"
    } else if class == 3 {
        "D#"
    } else if class == 4 {
        "E"
    } else if class == 5 {
        "F"
    } else if class == 6 {
        "F#"
    } else if class == 7 {
        "G"
    } else if class == 8 {
        "G#"
    } else if class == 9 {
        "A"
    } else if class == 10 {
        "A#"
    } else {
        "B"
    };
    proof {
        reveal_strlit("C");
        reveal_strlit("C#");
        reveal_strlit("D");
        reveal_strlit("D#");
        reveal_strlit("E");
        reveal_strlit("F");
        reveal_strlit("F#");
        reveal_strlit("G");
        reveal_strlit("G#");
        reveal_strlit("A");
        reveal_strlit("A#");
        reveal_strlit("B");
        assert(letters@ =~= class_name(class as int));
    }
    let mut name = letters.to_string();
    name.append(signed_text(octave).as_str());
    name
}

/// How many semitones a letter stands above C.
fn steps(letter: char) -> (base: Option<i64>)
    ensures
        match semitones(letter) {
            Some(number) => base matches Some(steps) && steps == number && 0 <= steps <= 11,
            None => base is None,
        },
{
    match letter {
        'C' | 'c' => Some(0),
        'D' | 'd' => Some(2),
        'E' | 'e' => Some(4),
        'F' | 'f' => Some(5),
        'G' | 'g' => Some(7),
        'A' | 'a' => Some(9),
        'B' | 'b' => Some(11),
        _ => None,
    }
}

/// Parses a scientific-pitch name back into a MIDI note number.
pub fn parse_note_name(name: &str) -> (note: Option<i32>)
    ensures
        match note_of(name@) {
            Some(number) => note matches Some(value) && value == number,
            None => note is None,
        },
{
    let inner = trim(chars_of(name));
    if inner.len() == 0 {
        return None;
    }
    let base: i64 = match steps(inner[0]) {
        Some(base) => base,
        None => {
            return None;
        },
    };
    let mut from: usize = 1;
    let mut accidental: i64 = 0;
    let ghost rest = inner@.skip(1);
    if inner.len() > 1 {
        assert(rest[0] == inner@[1]);
        if inner[1] == '#' {
            accidental = 1;
            from = 2;
        } else if inner[1] == 'b' {
            accidental = -1;
            from = 2;
        }
    }
    let octave = trim(stretch(&inner, from, inner.len()));
    proof {
        if from == 2 {
            assert(rest.skip(1) =~= inner@.skip(2));
        }
        assert(inner@.subrange(from as int, inner@.len() as int) =~= inner@.skip(from as int));
    }
    let number: i64 = match parse_signed(string_of(&octave).as_str()) {
        Some(number) => number,
        None => {
            return None;
        },
    };
    if number < -2 || number > 10 {
        return None;
    }
    let value: i64 = (number + 1) * 12 + base + accidental;
    if 0 <= value && value <= 127 {
        Some(value as i32)
    } else {
        None
    }
}

/// The name of a MIDI note is parsed as that note.
pub proof fn law_note_names_round_trip(note: int)
    requires
        0 <= note <= 127,
    ensures
        note_of(name_of(note)) == Some(note),
{
    let octave = note / 12 - 1;
    let class = note % 12;
    let name = name_of(note);
    let digits = signed_decimal(octave);
    crate::number::law_signed_numbers_round_trip(octave);
    lemma_octave_is_bare(octave);
    assert(name[0] == class_name(class)[0]);
    assert(name.last() == digits.last());
    assert(trimmed(name) == name);
    let rest = name.skip(1);
    if class_name(class).len() == 2 {
        assert(rest[0] == '#');
        assert(rest.skip(1) =~= digits);
    } else {
        assert(rest =~= digits);
        assert(rest[0] == digits[0]);
    }
    assert(trimmed(digits) == digits);
}

/// The text of an octave begins and ends with nothing that would be trimmed or
/// taken for an accidental.
proof fn lemma_octave_is_bare(octave: int)
    requires
        -1 <= octave <= 9,
    ensures
        ({
            let digits = signed_decimal(octave);
            &&& digits.len() > 0
            &&& digits[0] != '#'
            &&& digits[0] != 'b'
            &&& !crate::text::is_space(digits[0])
            &&& !crate::text::is_space(digits.last())
        }),
{
    reveal_with_fuel(crate::text::decimal, 3);
}

/// Blanks around a name do not matter to which note it is.
pub proof fn law_blanks_do_not_matter_to_notes(
    before: Seq<char>,
    name: Seq<char>,
    after: Seq<char>,
)
    requires
        blank(before),
        blank(after),
    ensures
        note_of(before + name + after) == note_of(name),
{
    law_blanks_around_are_trimmed(before, name, after);
}

/// The case of the letter does not matter to which note a name is.
pub proof fn law_case_does_not_matter_to_notes(first: char, second: char, rest: Seq<char>)
    requires
        lower_char(first) == lower_char(second),
    ensures
        note_of(seq![first] + rest) == note_of(seq![second] + rest),
{
    if first != second {
        lemma_trimmed_behind(first, rest);
        lemma_trimmed_behind(second, rest);
        let one = seq![first] + trimmed_end(rest);
        let other = seq![second] + trimmed_end(rest);
        assert(one[0] == first && other[0] == second);
        assert(one.skip(1) =~= trimmed_end(rest));
        assert(other.skip(1) =~= trimmed_end(rest));
        assert(semitones(first) == semitones(second));
    }
}

/// A flat is its enharmonic sharp: a note with a flat is the note a whole tone
/// below it with a sharp.
pub proof fn law_flats_are_sharps(upper: char, lower: char, octave: Seq<char>)
    requires
        semitones(upper) is Some,
        semitones(lower) is Some,
        semitones(upper)->Some_0 == semitones(lower)->Some_0 + 2,
    ensures
        note_of(seq![upper, 'b'] + octave) == note_of(seq![lower, '#'] + octave),
{
    let flat = seq!['b'] + octave;
    let sharp = seq!['#'] + octave;
    assert(seq![upper, 'b'] + octave =~= seq![upper] + flat);
    assert(seq![lower, '#'] + octave =~= seq![lower] + sharp);
    lemma_trimmed_behind(upper, flat);
    lemma_trimmed_behind(lower, sharp);
    lemma_trimmed_behind('b', octave);
    lemma_trimmed_behind('#', octave);
    let tail = trimmed_end(octave);
    assert(!is_space('b') && !is_space('#'));
    assert(flat[0] == 'b' && sharp[0] == '#');
    assert(trimmed_start(flat) == flat && trimmed_start(sharp) == sharp);
    assert(trimmed_end(flat) == seq!['b'] + tail);
    assert(trimmed_end(sharp) == seq!['#'] + tail);
    let one = seq![upper] + (seq!['b'] + tail);
    let other = seq![lower] + (seq!['#'] + tail);
    assert(one[0] == upper && other[0] == lower);
    assert(one.skip(1) =~= seq!['b'] + tail);
    assert(other.skip(1) =~= seq!['#'] + tail);
    assert(one.skip(1)[0] == 'b' && other.skip(1)[0] == '#');
    assert(one.skip(1).skip(1) =~= tail);
    assert(other.skip(1).skip(1) =~= tail);
}

/// How many semitones the white keys lie above the C of their octave.
pub open spec fn keys_above_c(letter: char) -> int {
    if letter == 'C' {
        0
    } else if letter == 'D' {
        2
    } else if letter == 'E' {
        4
    } else if letter == 'F' {
        5
    } else if letter == 'G' {
        7
    } else if letter == 'A' {
        9
    } else {
        11
    }
}

/// Notes are numbered by semitones, twelve to an octave, so that the A of octave
/// 4 is number 69. A sharp is a semitone higher and a flat a semitone lower, and
/// a name outside the 128 notes is none.
pub proof fn law_names_count_semitones(letter: char, octave: int, raised: int)
    requires
        'A' <= letter <= 'G',
        -1 <= octave <= 9,
        -1 <= raised <= 1,
    ensures
        ({
            let name = seq![letter] + (if raised == 1 {
                seq!['#']
            } else if raised == -1 {
                seq!['b']
            } else {
                seq![]
            }) + signed_decimal(octave);
            let number = 69 + 12 * (octave - 4) + keys_above_c(letter) - 9 + raised;
            note_of(name) == (if 0 <= number <= 127 {
                Some(number)
            } else {
                None
            })
        }),
{
    let sign: Seq<char> = if raised == 1 {
        seq!['#']
    } else if raised == -1 {
        seq!['b']
    } else {
        seq![]
    };
    let digits = signed_decimal(octave);
    let name = seq![letter] + sign + digits;
    crate::number::law_signed_numbers_round_trip(octave);
    lemma_octave_is_bare(octave);
    assert(name[0] == letter);
    assert(!is_space(letter));
    assert(name.last() == digits.last());
    assert(trimmed(name) == name);
    let rest = name.skip(1);
    if raised == 0 {
        assert(rest =~= digits);
    } else {
        assert(rest[0] == sign[0]);
        assert(rest.skip(1) =~= digits);
    }
    assert(trimmed(digits) == digits);
    assert(semitones(letter) == Some(keys_above_c(letter)));
}

/// A name is a letter from A to G, a sharp where there is one, and the octave; flats
/// are not used. A number beyond the 128 notes is named as the nearest of them.
pub proof fn law_names_use_sharps(note: int)
    ensures
        'A' <= name_of(note)[0] <= 'G',
        name_of(note).len() >= 2,
        name_of(note)[1] != 'b',
        note < 0 ==> name_of(note) == name_of(0),
        note > 127 ==> name_of(note) == name_of(127),
{
    let number = clamped(note);
    let octave = number / 12 - 1;
    lemma_octave_is_bare(octave);
    let class = class_name(number % 12);
    assert(name_of(note)[0] == class[0]);
    if class.len() == 2 {
        assert(name_of(note)[1] == '#');
    } else {
        assert(name_of(note)[1] == signed_decimal(octave)[0]);
    }
}

} // verus!
