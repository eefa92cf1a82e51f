//! Writing numbers down.

use vstd::prelude::*;
use vstd::utf8::{decode_utf8, valid_utf8};

verus! {

/// `String::push` appends one character.
pub assume_specification[ String::push ](text: &mut String, character: char)
    ensures
        final(text)@ == old(text)@.push(character),
;

/// The character of a digit, in any base up to sixteen.
pub open spec fn digit_char(digit: nat) -> char {
    if digit < 10 {
        (48 + digit) as char
    } else {
        (87 + digit) as char
    }
}

/// The decimal digits of a number, most significant first.
pub open spec fn decimal(value: nat) -> Seq<char>
    decreases value,
{
    if value < 10 {
        seq![digit_char(value)]
    } else {
        decimal(value / 10).push(digit_char(value % 10))
    }
}

/// The low `width` digits of a number in a base, most significant first.
pub open spec fn digits(value: nat, base: nat, width: nat) -> Seq<char>
    decreases width,
{
    if width == 0 {
        Seq::empty()
    } else {
        digits(value / base, base, (width - 1) as nat).push(digit_char(value % base))
    }
}

/// The character of one digit.
pub fn digit(value: u8) -> (character: char)
    requires
        value < 16,
    ensures
        character == digit_char(value as nat),
{
    if value < 10 {
        (48 + value) as char
    } else {
        (87 + value) as char
    }
}

/// A number in decimal.
pub fn decimal_text(value: u64) -> (text: String)
    ensures
        text@ == decimal(value as nat),
    decreases value,
{
    if value < 10 {
        let mut text = String::new();
        text.push(digit(value as u8));
        assert(text@ =~= decimal(value as nat));
        text
    } else {
        let mut text = decimal_text(value / 10);
        text.push(digit((value % 10) as u8));
        text
    }
}

/// A number in `width` digits of a base.
pub fn digits_text(value: u64, base: u64, width: u32) -> (text: String)
    requires
        2 <= base <= 16,
    ensures
        text@ == digits(value as nat, base as nat, width as nat),
    decreases width,
{
    if width == 0 {
        let text = String::new();
        assert(text@ =~= Seq::<char>::empty());
        text
    } else {
        let mut text = digits_text(value / base, base, width - 1);
        text.push(digit((value % base) as u8));
        text
    }
}

/// The characters of a text.
pub fn chars_of(text: &str) -> (characters: Vec<char>)
    ensures
        characters@ == text@,
{
    let mut characters: Vec<char> = Vec::new();
    for character in iter: text.chars()
        invariant
            characters@ == iter.seq().take(iter.index()),
            iter.seq() == text@,
    {
        characters.push(character);
        assert(iter.seq().take(iter.index() + 1) =~= iter.seq().take(iter.index()).push(character));
    }
    assert(characters@ =~= text@);
    characters
}

/// A text of characters.
pub fn string_of(characters: &Vec<char>) -> (text: String)
    ensures
        text@ == characters@,
{
    let mut text = String::new();
    let mut index: usize = 0;
    while index < characters.len()
        invariant
            index <= characters@.len(),
            text@ == characters@.take(index as int),
        decreases characters@.len() - index,
    {
        text.push(characters[index]);
        assert(characters@.take(index + 1) =~= characters@.take(index as int).push(
            characters@[index as int],
        ));
        index = index + 1;
    }
    assert(characters@.take(index as int) =~= characters@);
    text
}

/// Whether two texts are the same.
pub fn same(first: &str, second: &str) -> (equal: bool)
    ensures
        equal == (first@ == second@),
{
    first.to_owned() == second.to_owned()
}

/// A letter of the Latin alphabet without its capital.
pub open spec fn lower_char(character: char) -> char {
    if 'A' <= character && character <= 'Z' {
        (character as u32 + 32) as char
    } else {
        character
    }
}

/// A text with its Latin capitals made small.
pub open spec fn lower(text: Seq<char>) -> Seq<char> {
    Seq::new(text.len(), |i: int| lower_char(text[i]))
}

/// A letter of the Latin alphabet without its capital.
pub fn lowered(character: char) -> (small: char)
    ensures
        small == lower_char(character),
{
    if 'A' <= character && character <= 'Z' {
        (character as u8 + 32) as char
    } else {
        character
    }
}

/// A text in small letters.
pub fn lower_text(text: &Vec<char>) -> (small: Vec<char>)
    ensures
        small@ == lower(text@),
{
    let mut small: Vec<char> = Vec::new();
    let mut index: usize = 0;
    while index < text.len()
        invariant
            index <= text@.len(),
            small@ == lower(text@).take(index as int),
        decreases text@.len() - index,
    {
        small.push(lowered(text[index]));
        assert(small@ =~= lower(text@).take(index + 1));
        index = index + 1;
    }
    assert(small@ =~= lower(text@));
    small
}

/// The characters that separate words.
pub open spec fn is_space(character: char) -> bool {
    let code = character as u32;
    ||| 0x09 <= code <= 0x0D
    ||| code == 0x20
    ||| code == 0x85
    ||| code == 0xA0
    ||| code == 0x1680
    ||| 0x2000 <= code <= 0x200A
    ||| code == 0x2028
    ||| code == 0x2029
    ||| code == 0x202F
    ||| code == 0x205F
    ||| code == 0x3000
}

/// Whether a character separates words.
pub fn space(character: char) -> (separates: bool)
    ensures
        separates == is_space(character),
{
    let code: u32 = character as u32;
    (0x09 <= code && code <= 0x0D) || code == 0x20 || code == 0x85 || code == 0xA0 || code == 0x1680
        || (0x2000 <= code && code <= 0x200A) || code == 0x2028 || code == 0x2029 || code == 0x202F
        || code == 0x205F || code == 0x3000
}

/// A text without the white space at its front.
pub open spec fn trimmed_start(text: Seq<char>) -> Seq<char>
    decreases text.len(),
{
    if text.len() > 0 && is_space(text[0]) {
        trimmed_start(text.skip(1))
    } else {
        text
    }
}

/// A text without the white space at its end.
pub open spec fn trimmed_end(text: Seq<char>) -> Seq<char>
    decreases text.len(),
{
    if text.len() > 0 && is_space(text.last()) {
        trimmed_end(text.drop_last())
    } else {
        text
    }
}

/// A text without the white space around it.
pub open spec fn trimmed(text: Seq<char>) -> Seq<char> {
    trimmed_end(trimmed_start(text))
}

/// Whether a text is white space alone.
pub open spec fn blank(text: Seq<char>) -> bool {
    forall|i: int| 0 <= i < text.len() ==> is_space(#[trigger] text[i])
}

/// White space at the front is trimmed whatever follows.
proof fn lemma_blank_front(space: Seq<char>, text: Seq<char>)
    requires
        blank(space),
    ensures
        trimmed_start(space + text) == trimmed_start(text),
    decreases space.len(),
{
    if space.len() > 0 {
        assert((space + text)[0] == space[0]);
        assert((space + text).skip(1) =~= space.skip(1) + text);
        assert forall|i: int| 0 <= i < space.skip(1).len() implies is_space(
            #[trigger] space.skip(1)[i],
        ) by {
            assert(is_space(space[i + 1]));
        }
        lemma_blank_front(space.skip(1), text);
    } else {
        assert(space + text =~= text);
    }
}

/// White space at the end is trimmed whatever stands before it.
proof fn lemma_blank_end(text: Seq<char>, space: Seq<char>)
    requires
        blank(space),
    ensures
        trimmed_end(text + space) == trimmed_end(text),
    decreases space.len(),
{
    if space.len() > 0 {
        assert((text + space).last() == space.last());
        assert((text + space).drop_last() =~= text + space.drop_last());
        assert(is_space(space[space.len() - 1]));
        assert forall|i: int| 0 <= i < space.drop_last().len() implies is_space(
            #[trigger] space.drop_last()[i],
        ) by {
            assert(is_space(space[i]));
        }
        lemma_blank_end(text, space.drop_last());
    } else {
        assert(text + space =~= text);
    }
}

/// What follows a text stays where its front is trimmed, unless all of it is.
proof fn lemma_trimmed_start_push(text: Seq<char>, rest: Seq<char>)
    ensures
        trimmed_start(text + rest) == if blank(text) {
            trimmed_start(rest)
        } else {
            trimmed_start(text) + rest
        },
    decreases text.len(),
{
    if blank(text) {
        lemma_blank_front(text, rest);
    } else if is_space(text[0]) {
        assert((text + rest)[0] == text[0]);
        assert((text + rest).skip(1) =~= text.skip(1) + rest);
        assert(!blank(text.skip(1))) by {
            if blank(text.skip(1)) {
                assert forall|i: int| 0 <= i < text.len() implies is_space(#[trigger] text[i]) by {
                    if i > 0 {
                        assert(is_space(text.skip(1)[i - 1]));
                    }
                }
            }
        }
        lemma_trimmed_start_push(text.skip(1), rest);
    } else {
        assert((text + rest)[0] == text[0]);
    }
}

/// White space around a text does not matter to what it is trimmed to.
pub proof fn law_blanks_around_are_trimmed(before: Seq<char>, text: Seq<char>, after: Seq<char>)
    requires
        blank(before),
        blank(after),
    ensures
        trimmed(before + text + after) == trimmed(text),
{
    assert(before + text + after =~= before + (text + after));
    lemma_blank_front(before, text + after);
    lemma_trimmed_start_push(text, after);
    if blank(text) {
        let none = Seq::<char>::empty();
        lemma_blank_front(text, none);
        lemma_blank_front(after, none);
        assert(text + none =~= text);
        assert(after + none =~= after);
    } else {
        lemma_blank_end(trimmed_start(text), after);
    }
}

/// A text behind a character that is no white space is trimmed at its end alone.
pub proof fn lemma_trimmed_behind(first: char, rest: Seq<char>)
    requires
        !is_space(first),
    ensures
        trimmed(seq![first] + rest) == seq![first] + trimmed_end(rest),
    decreases rest.len(),
{
    let text = seq![first] + rest;
    assert(text[0] == first);
    if rest.len() == 0 {
        assert(text =~= seq![first]);
        assert(text.last() == first);
        assert(seq![first] + trimmed_end(rest) =~= text);
    } else {
        assert(text.last() == rest.last());
        if is_space(rest.last()) {
            assert(text.drop_last() =~= seq![first] + rest.drop_last());
            lemma_trimmed_behind(first, rest.drop_last());
            assert((seq![first] + rest.drop_last())[0] == first);
        }
    }
}

/// Small letters are white space where their capitals are.
proof fn lemma_lower_char(character: char)
    ensures
        is_space(lower_char(character)) == is_space(character),
        (lower_char(character) == '.') == (character == '.'),
{
}

/// Trimming a front and making letters small can be done in either order.
proof fn lemma_lower_trimmed_start(text: Seq<char>)
    ensures
        lower(trimmed_start(text)) == trimmed_start(lower(text)),
    decreases text.len(),
{
    if text.len() > 0 {
        lemma_lower_char(text[0]);
        if is_space(text[0]) {
            lemma_lower_trimmed_start(text.skip(1));
            assert(lower(text).skip(1) =~= lower(text.skip(1)));
        }
    }
}

/// Trimming an end and making letters small can be done in either order.
proof fn lemma_lower_trimmed_end(text: Seq<char>)
    ensures
        lower(trimmed_end(text)) == trimmed_end(lower(text)),
    decreases text.len(),
{
    if text.len() > 0 {
        lemma_lower_char(text.last());
        if is_space(text.last()) {
            lemma_lower_trimmed_end(text.drop_last());
            assert(lower(text).drop_last() =~= lower(text.drop_last()));
        }
    }
}

/// Trimming a text and making its letters small can be done in either order.
pub proof fn law_case_does_not_matter_to_trimming(text: Seq<char>)
    ensures
        lower(trimmed(text)) == trimmed(lower(text)),
{
    lemma_lower_trimmed_start(text);
    lemma_lower_trimmed_end(trimmed_start(text));
}

/// Takes the white space around a text away.
pub fn trim(text: Vec<char>) -> (inner: Vec<char>)
    ensures
        inner@ == trimmed(text@),
{
    let mut start: usize = 0;
    assert(text@.skip(0) =~= text@);
    while start < text.len() && space(text[start])
        invariant
            start <= text@.len(),
            trimmed_start(text@) == trimmed_start(text@.skip(start as int)),
        decreases text@.len() - start,
    {
        assert(text@.skip(start as int).skip(1) =~= text@.skip(start + 1));
        start = start + 1;
    }
    let mut inner: Vec<char> = Vec::new();
    let mut index: usize = start;
    while index < text.len()
        invariant
            start <= index <= text@.len(),
            inner@ == text@.subrange(start as int, index as int),
        decreases text@.len() - index,
    {
        inner.push(text[index]);
        assert(inner@ =~= text@.subrange(start as int, index + 1));
        index = index + 1;
    }
    assert(inner@ =~= text@.skip(start as int));
    let ghost front = inner@;
    while inner.len() > 0 && space(inner[inner.len() - 1])
        invariant
            trimmed_end(front) == trimmed_end(inner@),
        decreases inner@.len(),
    {
        let ghost before = inner@;
        inner.pop();
        assert(inner@ =~= before.drop_last());
    }
    inner
}

/// What [`String::from_utf8_lossy`] makes of some bytes.
pub uninterp spec fn lossy_text(bytes: Seq<u8>) -> Seq<char>;

/// Bytes as text. `String::from_utf8_lossy` gives the text that valid UTF-8
/// spells; of other bytes it gives what [`lossy_text`] names, with replacement
/// characters for what is no UTF-8.
#[verifier::external_body]
pub(crate) fn lossy(bytes: &[u8]) -> (text: String)
    ensures
        text@ == lossy_text(bytes@),
        valid_utf8(bytes@) ==> text@ == decode_utf8(bytes@),
{
    String::from_utf8_lossy(bytes).to_string()
}

/// Of the ASCII characters, white space is the space and what a tab, a line feed,
/// a vertical tab, a form feed and a carriage return are.
pub proof fn law_ascii_white_space(character: char)
    requires
        character as u32 <= 0x7F,
    ensures
        is_space(character) <==> character == ' ' || character == '\t' || character == '\n'
            || character == '\r' || character as u32 == 0x0B || character as u32 == 0x0C,
{
}

/// A trimmed text neither begins nor ends with white space, and only white space
/// was taken from either end of it.
pub proof fn law_trimming_takes_white_space_only(text: Seq<char>)
    ensures
        trimmed(text).len() > 0 ==> !is_space(trimmed(text)[0]) && !is_space(
            trimmed(text).last(),
        ),
        exists|before: Seq<char>, after: Seq<char>| #[trigger]
            blank(before) && #[trigger] blank(after) && text == before + trimmed(text) + after,
{
    let rest = trimmed_start(text);
    let inner = trimmed_end(rest);
    lemma_start_taken(text);
    lemma_end_taken(rest);
    let before = text.take(text.len() - rest.len());
    let after = rest.skip(inner.len() as int);
    assert(blank(before) && blank(after));
    assert(text =~= before + inner + after);
    if inner.len() > 0 {
        assert(inner[0] == rest[0]);
    }
}

proof fn lemma_start_taken(text: Seq<char>)
    ensures
        trimmed_start(text).len() <= text.len(),
        trimmed_start(text) == text.skip(text.len() - trimmed_start(text).len()),
        blank(text.take(text.len() - trimmed_start(text).len())),
        trimmed_start(text).len() > 0 ==> !is_space(trimmed_start(text)[0]),
    decreases text.len(),
{
    if text.len() > 0 && is_space(text[0]) {
        let rest = text.skip(1);
        lemma_start_taken(rest);
        let inner = trimmed_start(text);
        let taken = text.take(text.len() - inner.len());
        assert(inner =~= text.skip(text.len() - inner.len()));
        assert forall|i: int| 0 <= i < taken.len() implies is_space(#[trigger] taken[i]) by {
            if i > 0 {
                assert(taken[i] == rest.take(rest.len() - inner.len())[i - 1]);
            }
        }
    } else {
        assert(text.skip(0) =~= text);
        assert(text.take(0) =~= Seq::empty());
    }
}

proof fn lemma_end_taken(text: Seq<char>)
    ensures
        trimmed_end(text).len() <= text.len(),
        trimmed_end(text) == text.take(trimmed_end(text).len() as int),
        blank(text.skip(trimmed_end(text).len() as int)),
        trimmed_end(text).len() > 0 ==> !is_space(trimmed_end(text).last()),
    decreases text.len(),
{
    if text.len() > 0 && is_space(text.last()) {
        let rest = text.drop_last();
        lemma_end_taken(rest);
        let inner = trimmed_end(text);
        let taken = text.skip(inner.len() as int);
        assert(inner =~= text.take(inner.len() as int));
        assert forall|i: int| 0 <= i < taken.len() implies is_space(#[trigger] taken[i]) by {
            if i < taken.len() - 1 {
                assert(taken[i] == rest.skip(inner.len() as int)[i]);
            } else {
                assert(taken[i] == text.last());
            }
        }
    } else {
        assert(text.take(text.len() as int) =~= text);
        assert(text.skip(text.len() as int) =~= Seq::empty());
    }
}

/// Lower case changes the capital letters A to Z and nothing else, and changes
/// nothing twice.
pub proof fn law_lower_case_changes_capitals(text: Seq<char>, index: int)
    requires
        0 <= index < text.len(),
    ensures
        lower(text).len() == text.len(),
        'A' <= text[index] && text[index] <= 'Z' ==> lower(text)[index] as int - 'a' as int
            == text[index] as int - 'A' as int,
        !('A' <= text[index] && text[index] <= 'Z') ==> lower(text)[index] == text[index],
        lower(lower(text)) == lower(text),
{
    assert(lower(lower(text)) =~= lower(text));
}

/// A number in a width and a base is spelled by digits below the base, the lowest
/// last: taking the last digit off divides by the base.
pub proof fn law_digits_are_places(value: nat, base: nat, width: nat)
    requires
        2 <= base <= 16,
        width > 0,
    ensures
        digits(value, base, width).len() == width,
        digits(value, base, width).drop_last() == digits(value / base, base, (width - 1) as nat),
        ({
            let digit = value % base;
            let last = digits(value, base, width).last() as int;
            last == (if digit < 10 {
                '0' as int + digit
            } else {
                'a' as int + digit - 10
            })
        }),
    decreases width,
{
    if width > 1 {
        law_digits_are_places(value / base, base, (width - 1) as nat);
    }
    let front = digits(value / base, base, (width - 1) as nat);
    assert(front.push(digit_char(value % base)).drop_last() =~= front);
    assert(value % base < base) by {
        vstd::arithmetic::div_mod::lemma_mod_bound(value as int, base as int);
    }
}

} // verus!
