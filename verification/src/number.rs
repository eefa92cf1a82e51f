//! Numbers written down in text, and read from it.

use vstd::prelude::*;

use crate::text::{chars_of, decimal, decimal_text, digit_char, lower, lower_char, lowered};

verus! {

/// Whether a character is a decimal digit.
pub open spec fn is_digit(character: char) -> bool {
    '0' <= character && character <= '9'
}

/// Whether a character is a sign.
pub open spec fn is_sign(character: char) -> bool {
    character == '+' || character == '-'
}

/// How many digits stand at the front of a text.
pub open spec fn digit_run(text: Seq<char>) -> nat
    decreases text.len(),
{
    if text.len() > 0 && is_digit(text[0]) {
        1 + digit_run(text.skip(1))
    } else {
        0
    }
}

/// Whether a text is digits, and at least one of them.
pub open spec fn all_digits(text: Seq<char>) -> bool {
    text.len() > 0 && forall|i: int| 0 <= i < text.len() ==> is_digit(#[trigger] text[i])
}

/// The number that digits spell.
pub open spec fn value_of(text: Seq<char>) -> nat
    decreases text.len(),
{
    if text.len() == 0 {
        0
    } else {
        value_of(text.drop_last()) * 10 + (text.last() as nat - 48) as nat
    }
}

/// The number a text spells, if it is digits with at most a plus sign before
/// them, and the number is within a limit.
pub open spec fn unsigned_value(text: Seq<char>, limit: nat) -> Option<nat> {
    let digits = if text.len() > 0 && text[0] == '+' {
        text.skip(1)
    } else {
        text
    };
    if all_digits(digits) && value_of(digits) <= limit {
        Some(value_of(digits))
    } else {
        None
    }
}

/// The number a text spells, if it is digits with at most a sign before them,
/// and the number fits a signed 64-bit word.
pub open spec fn signed_value(text: Seq<char>) -> Option<int> {
    let negative = text.len() > 0 && text[0] == '-';
    let digits = if text.len() > 0 && is_sign(text[0]) {
        text.skip(1)
    } else {
        text
    };
    if !all_digits(digits) {
        None
    } else if negative {
        if value_of(digits) <= 0x8000_0000_0000_0000 {
            Some(-(value_of(digits) as int))
        } else {
            None
        }
    } else if value_of(digits) <= 0x7FFF_FFFF_FFFF_FFFF {
        Some(value_of(digits) as int)
    } else {
        None
    }
}

/// A number in decimal, with a minus sign before it where it is negative.
pub open spec fn signed_decimal(value: int) -> Seq<char> {
    if value < 0 {
        seq!['-'] + decimal((-value) as nat)
    } else {
        decimal(value as nat)
    }
}

/// The number that the digits from a position on spell, if they are digits and
/// the number is within a limit.
fn digits_value(text: &Vec<char>, from: usize, limit: u64) -> (value: Option<u64>)
    requires
        from <= text@.len(),
    ensures
        ({
            let digits = text@.skip(from as int);
            match value {
                Some(number) => all_digits(digits) && value_of(digits) == number && number
                    <= limit,
                None => !all_digits(digits) || value_of(digits) > limit,
            }
        }),
{
    let ghost digits = text@.skip(from as int);
    if from == text.len() {
        return None;
    }
    let mut index: usize = from;
    let mut exceeded: bool = false;
    let mut total: u128 = 0;
    assert(digits.take(0) =~= Seq::<char>::empty());
    while index < text.len()
        invariant
            from <= index <= text@.len(),
            digits == text@.skip(from as int),
            forall|i: int| 0 <= i < index - from ==> is_digit(#[trigger] digits[i]),
            !exceeded ==> total == value_of(digits.take(index - from)) && total <= limit,
            exceeded ==> value_of(digits.take(index - from)) > limit,
        decreases text@.len() - index,
    {
        let character: char = text[index];
        assert(digits[index - from] == character);
        if !('0' <= character && character <= '9') {
            assert(!is_digit(digits[index - from]));
            return None;
        }
        proof {
            assert(digits.take(index - from + 1).drop_last() =~= digits.take(index - from));
            assert(digits.take(index - from + 1).last() == character);
        }
        if !exceeded {
            total = total * 10 + (character as u8 - 48) as u128;
            if total > limit as u128 {
                exceeded = true;
            }
        }
        index = index + 1;
    }
    assert(digits.take(index - from) =~= digits);
    if exceeded {
        None
    } else {
        Some(total as u64)
    }
}

/// Reads a number that is at most `limit`.
pub fn parse_unsigned(text: &str, limit: u64) -> (value: Option<u64>)
    ensures
        match unsigned_value(text@, limit as nat) {
            Some(expected) => value == Some(expected as u64) && expected <= limit,
            None => value is None,
        },
{
    let characters = chars_of(text);
    if characters.len() > 0 && characters[0] == '+' {
        digits_value(&characters, 1, limit)
    } else {
        assert(characters@.skip(0) =~= characters@);
        digits_value(&characters, 0, limit)
    }
}

/// Reads a signed number.
pub fn parse_signed(text: &str) -> (value: Option<i64>)
    ensures
        match signed_value(text@) {
            Some(expected) => value matches Some(number) && number == expected,
            None => value is None,
        },
{
    let characters = chars_of(text);
    if characters.len() > 0 && characters[0] == '-' {
        match digits_value(&characters, 1, 0x8000_0000_0000_0000) {
            Some(size) => if size == 0x8000_0000_0000_0000 {
                Some(i64::MIN)
            } else {
                Some(-(size as i64))
            },
            None => None,
        }
    } else {
        let from: usize = if characters.len() > 0 && characters[0] == '+' {
            1
        } else {
            0
        };
        proof {
            assert(characters@.skip(0) =~= characters@);
        }
        match digits_value(&characters, from, 0x7FFF_FFFF_FFFF_FFFF) {
            Some(size) => Some(size as i64),
            None => None,
        }
    }
}

/// Writes a signed number in decimal.
pub fn signed_text(value: i64) -> (text: String)
    ensures
        text@ == signed_decimal(value as int),
{
    if value >= 0 {
        decimal_text(value as u64)
    } else {
        let size: u64 = (-(value as i128)) as u64;
        let mut text = String::new();
        text.push('-');
        text.append(decimal_text(size).as_str());
        assert(text@ =~= seq!['-'] + decimal(size as nat));
        text
    }
}

/// A decimal is digits, and they spell the number.
pub proof fn lemma_decimal(value: nat)
    ensures
        all_digits(decimal(value)),
        value_of(decimal(value)) == value,
    decreases value,
{
    if value < 10 {
        assert(decimal(value).drop_last() =~= Seq::<char>::empty());
        assert(value_of(decimal(value).drop_last()) == 0);
        assert(decimal(value).last() == digit_char(value));
    } else {
        lemma_decimal(value / 10);
        assert(decimal(value).drop_last() =~= decimal(value / 10));
        assert(decimal(value).last() == digit_char(value % 10));
    }
}

/// A number that was written down is read back.
pub proof fn law_unsigned_numbers_round_trip(value: nat, limit: nat)
    requires
        value <= limit,
    ensures
        unsigned_value(decimal(value), limit) == Some(value),
{
    lemma_decimal(value);
    assert(is_digit(decimal(value)[0]));
}

/// A signed number that was written down is read back.
pub proof fn law_signed_numbers_round_trip(value: int)
    requires
        i64::MIN <= value <= i64::MAX,
    ensures
        signed_value(signed_decimal(value)) == Some(value),
{
    if value < 0 {
        lemma_decimal((-value) as nat);
        assert(signed_decimal(value).skip(1) =~= decimal((-value) as nat));
    } else {
        lemma_decimal(value as nat);
        assert(is_digit(decimal(value as nat)[0]));
    }
}

/// A text without a sign at its front.
pub open spec fn unsigned_part(text: Seq<char>) -> Seq<char> {
    if text.len() > 0 && is_sign(text[0]) {
        text.skip(1)
    } else {
        text
    }
}

/// Whether a text is an exponent: an `e`, perhaps a sign, and digits.
pub open spec fn is_exponent(text: Seq<char>) -> bool {
    &&& text.len() > 0
    &&& text[0] == 'e' || text[0] == 'E'
    &&& unsigned_part(text.skip(1)).len() > 0
    &&& digit_run(unsigned_part(text.skip(1))) == unsigned_part(text.skip(1)).len()
}

/// Whether a text is a plain number: digits with at most one point among them
/// and at least one digit, and perhaps an exponent.
pub open spec fn is_plain_number(text: Seq<char>) -> bool {
    let whole = digit_run(text);
    let after = text.skip(whole as int);
    if after.len() > 0 && after[0] == '.' {
        let fraction = digit_run(after.skip(1));
        let rest = after.skip(1).skip(fraction as int);
        whole + fraction > 0 && (rest.len() == 0 || is_exponent(rest))
    } else {
        whole > 0 && (after.len() == 0 || is_exponent(after))
    }
}

/// Whether a text is a number of any size: a plain one, an infinite one, or one
/// that is not a number, perhaps with a sign.
pub open spec fn is_numeral(text: Seq<char>) -> bool {
    let body = unsigned_part(text);
    ||| is_plain_number(body)
    ||| lower(body) == seq!['i', 'n', 'f']
    ||| lower(body) == seq!['i', 'n', 'f', 'i', 'n', 'i', 't', 'y']
    ||| lower(body) == seq!['n', 'a', 'n']
}

/// Counts the digits from a position on.
fn run_from(text: &Vec<char>, from: usize) -> (end: usize)
    requires
        from <= text@.len(),
    ensures
        from <= end <= text@.len(),
        end == from + digit_run(text@.skip(from as int)),
{
    let mut end: usize = from;
    while end < text.len() && '0' <= text[end] && text[end] <= '9'
        invariant
            from <= end <= text@.len(),
            from + digit_run(text@.skip(from as int)) == end + digit_run(text@.skip(end as int)),
        decreases text@.len() - end,
    {
        assert(text@.skip(end as int).skip(1) =~= text@.skip(end + 1));
        end = end + 1;
    }
    end
}

/// Steps over a sign.
fn past_sign(text: &Vec<char>, from: usize) -> (next: usize)
    requires
        from <= text@.len(),
    ensures
        from <= next <= text@.len(),
        text@.skip(next as int) == unsigned_part(text@.skip(from as int)),
{
    if from < text.len() && (text[from] == '+' || text[from] == '-') {
        assert(text@.skip(from as int).skip(1) =~= text@.skip(from + 1));
        from + 1
    } else {
        from
    }
}

/// Whether an exponent stands from a position on.
fn exponent_from(text: &Vec<char>, from: usize) -> (found: bool)
    requires
        from <= text@.len(),
    ensures
        found == is_exponent(text@.skip(from as int)),
{
    if from == text.len() || !(text[from] == 'e' || text[from] == 'E') {
        return false;
    }
    assert(text@.skip(from as int).skip(1) =~= text@.skip(from + 1));
    let digits: usize = past_sign(text, from + 1);
    digits < text.len() && run_from(text, digits) == text.len()
}

/// Whether a plain number stands from a position on.
fn plain_from(text: &Vec<char>, from: usize) -> (found: bool)
    requires
        from <= text@.len(),
    ensures
        found == is_plain_number(text@.skip(from as int)),
{
    let whole: usize = run_from(text, from);
    assert(text@.skip(from as int).skip(whole - from) =~= text@.skip(whole as int));
    if whole < text.len() && text[whole] == '.' {
        let end: usize = run_from(text, whole + 1);
        proof {
            assert(text@.skip(whole as int).skip(1) =~= text@.skip(whole + 1));
            assert(text@.skip(whole + 1).skip(end - whole - 1) =~= text@.skip(end as int));
        }
        (whole > from || end > whole + 1) && (end == text.len() || exponent_from(text, end))
    } else {
        whole > from && (whole == text.len() || exponent_from(text, whole))
    }
}

/// Whether a word stands from a position on, large or small.
fn word_from(text: &Vec<char>, from: usize, word: &[char]) -> (found: bool)
    requires
        from <= text@.len(),
    ensures
        found == (lower(text@.skip(from as int)) == word@),
{
    let length: usize = word.len();
    let end: usize = text.len();
    if end - from != length {
        return false;
    }
    let mut index: usize = 0;
    while index < length
        invariant
            index <= length,
            length == word@.len(),
            from + length == end,
            end == text@.len(),
            forall|i: int| 0 <= i < index ==> lower_char(text@[from + i]) == #[trigger] word@[i],
        decreases length - index,
    {
        if lowered(text[from + index]) != word[index] {
            assert(lower(text@.skip(from as int))[index as int] != word@[index as int]);
            return false;
        }
        index = index + 1;
    }
    assert(lower(text@.skip(from as int)) =~= word@);
    true
}

/// A number of any size, held as the text that spells it.
#[derive(Clone, Debug, PartialEq, Eq)]
pub struct Number {
    text: String,
}

impl View for Number {
    type V = Seq<char>;

    closed spec fn view(&self) -> Seq<char> {
        self.text@
    }
}

impl Number {
    /// Whether the text spells a number.
    pub open spec fn wf(&self) -> bool {
        is_numeral(self@)
    }

    /// The number a text spells, if it spells one.
    pub fn parse(text: &str) -> (number: Option<Number>)
        ensures
            match number {
                Some(found) => is_numeral(text@) && found.wf() && found@ == text@,
                None => !is_numeral(text@),
            },
    {
        let characters = chars_of(text);
        assert(characters@.skip(0) =~= characters@);
        let body: usize = past_sign(&characters, 0);
        if plain_from(&characters, body) || word_from(&characters, body, &['i', 'n', 'f'])
            || word_from(&characters, body, &['i', 'n', 'f', 'i', 'n', 'i', 't', 'y'])
            || word_from(&characters, body, &['n', 'a', 'n']) {
            proof {
                lemma_words();
            }
            Some(Number { text: text.to_string() })
        } else {
            proof {
                lemma_words();
            }
            None
        }
    }

    /// The text that spells the number.
    pub fn text(&self) -> (text: &str)
        ensures
            text@ == self@,
    {
        self.text.as_str()
    }

    /// The same number once more.
    pub fn copy(&self) -> (number: Number)
        ensures
            number@ == self@,
    {
        Number { text: self.text.clone() }
    }
}

/// The words for numbers that have no digits, as arrays and as sequences.
proof fn lemma_words()
    ensures
        ['i', 'n', 'f']@ == seq!['i', 'n', 'f'],
        ['i', 'n', 'f', 'i', 'n', 'i', 't', 'y']@ == seq!['i', 'n', 'f', 'i', 'n', 'i', 't', 'y'],
        ['n', 'a', 'n']@ == seq!['n', 'a', 'n'],
{
    assert(['i', 'n', 'f']@ =~= seq!['i', 'n', 'f']);
    assert(['i', 'n', 'f', 'i', 'n', 'i', 't', 'y']@ =~= seq![
        'i',
        'n',
        'f',
        'i',
        'n',
        'i',
        't',
        'y',
    ]);
    assert(['n', 'a', 'n']@ =~= seq!['n', 'a', 'n']);
}

/// A number is written without a leading zero, but for zero itself.
pub proof fn law_numbers_have_no_leading_zero(value: nat)
    ensures
        all_digits(decimal(value)),
        value_of(decimal(value)) == value,
        value > 0 ==> decimal(value)[0] != '0',
        decimal(0) == seq!['0'],
    decreases value,
{
    lemma_decimal(value);
    if value >= 10 {
        law_numbers_have_no_leading_zero(value / 10);
        assert(decimal(value)[0] == decimal(value / 10)[0]);
    } else {
        assert(decimal(value)[0] == digit_char(value));
    }
    assert(decimal(0) =~= seq!['0']);
}

/// Digits spell a number place by place: one more digit is ten times the number and
/// the digit.
pub proof fn law_digits_count_tens(text: Seq<char>, digit: char)
    requires
        is_digit(digit),
    ensures
        value_of(text.push(digit)) == 10 * value_of(text) + (digit as int - '0' as int),
{
    assert(text.push(digit).drop_last() =~= text);
}

/// A number may have a plus sign and leading zeros. One above the limit is refused,
/// and so is a text that holds anything but digits behind the sign, or none.
pub proof fn law_whole_numbers_are_read(text: Seq<char>, limit: nat)
    ensures
        all_digits(text) ==> unsigned_value(text, limit) == (if value_of(text) <= limit {
            Some(value_of(text))
        } else {
            None
        }),
        all_digits(text) ==> unsigned_value(seq!['+'] + text, limit) == unsigned_value(
            text,
            limit,
        ),
        all_digits(text) ==> unsigned_value(seq!['0'] + text, limit) == unsigned_value(
            text,
            limit,
        ),
        text.len() > 0 && text[0] != '+' && !all_digits(text) ==> unsigned_value(text, limit)
            is None,
        unsigned_value(Seq::empty(), limit) is None,
{
    if all_digits(text) {
        let plus = seq!['+'] + text;
        assert(plus.skip(1) =~= text);
        assert(is_digit(text[0]));
        let zero = seq!['0'] + text;
        lemma_leading_zero(text);
        assert forall|i: int| 0 <= i < zero.len() implies is_digit(#[trigger] zero[i]) by {
            if i > 0 {
                assert(zero[i] == text[i - 1]);
            }
        }
    }
}

proof fn lemma_leading_zero(text: Seq<char>)
    ensures
        value_of(seq!['0'] + text) == value_of(text),
    decreases text.len(),
{
    let zero = seq!['0'] + text;
    if text.len() == 0 {
        assert(zero.drop_last() =~= Seq::<char>::empty());
        assert(zero.last() == '0');
        assert(value_of(zero.drop_last()) == 0);
    } else {
        lemma_leading_zero(text.drop_last());
        assert(zero.drop_last() =~= seq!['0'] + text.drop_last());
    }
}

/// A minus sign makes a number negative, a plus sign changes nothing, and a number
/// that does not fit a word with a sign is refused.
pub proof fn law_signed_numbers_are_read(text: Seq<char>)
    requires
        all_digits(text),
    ensures
        signed_value(text) == (if value_of(text) <= i64::MAX {
            Some(value_of(text) as int)
        } else {
            None
        }),
        signed_value(seq!['+'] + text) == signed_value(text),
        signed_value(seq!['-'] + text) == (if -(value_of(text) as int) >= i64::MIN {
            Some(-(value_of(text) as int))
        } else {
            None
        }),
{
    assert((seq!['+'] + text).skip(1) =~= text);
    assert((seq!['-'] + text).skip(1) =~= text);
    assert(is_digit(text[0]));
}

/// A run of digits is all of a text of digits.
proof fn lemma_digit_run(text: Seq<char>, rest: Seq<char>)
    requires
        forall|i: int| 0 <= i < text.len() ==> is_digit(#[trigger] text[i]),
        rest.len() == 0 || !is_digit(rest[0]),
    ensures
        digit_run(text + rest) == text.len(),
    decreases text.len(),
{
    let whole = text + rest;
    if text.len() > 0 {
        assert(whole[0] == text[0]);
        assert(is_digit(text[0]));
        assert(whole.skip(1) =~= text.skip(1) + rest);
        assert forall|i: int| 0 <= i < text.skip(1).len() implies is_digit(
            #[trigger] text.skip(1)[i],
        ) by {
            assert(text.skip(1)[i] == text[i + 1]);
        }
        lemma_digit_run(text.skip(1), rest);
    } else {
        assert(whole =~= rest);
    }
}

/// Digits, with or without a sign before them, a point and digits behind it, and an
/// exponent, are a number.
pub proof fn law_decimals_are_numerals(
    whole: Seq<char>,
    fraction: Seq<char>,
    power: Seq<char>,
    sign: char,
)
    requires
        all_digits(whole),
        all_digits(fraction),
        all_digits(power),
        is_sign(sign),
    ensures
        is_numeral(whole),
        is_numeral(seq![sign] + whole),
        is_numeral(whole + seq!['.'] + fraction),
        is_numeral(seq![sign] + (whole + seq!['.'] + fraction)),
        is_numeral(whole + seq!['.'] + fraction + seq!['e'] + power),
        is_numeral(whole + seq!['.'] + fraction + seq!['e', sign] + power),
{
    let none = Seq::<char>::empty();
    assert(is_digit(whole[0]));
    lemma_digit_run(whole, none);
    assert(whole + none =~= whole);
    assert(whole.skip(whole.len() as int) =~= none);
    assert(is_plain_number(whole));
    assert(unsigned_part(whole) == whole);
    assert((seq![sign] + whole).skip(1) =~= whole);
    let short = whole + seq!['.'] + fraction;
    lemma_pointed(whole, fraction, none);
    assert(short + none =~= short);
    assert(short[0] == whole[0]);
    assert((seq![sign] + short).skip(1) =~= short);
    let plain = seq!['e'] + power;
    let signed = seq!['e', sign] + power;
    lemma_digit_run(power, none);
    assert(power + none =~= power);
    assert(is_digit(power[0]));
    assert(plain.skip(1) =~= power);
    assert(signed.skip(1) =~= seq![sign] + power);
    assert((seq![sign] + power).skip(1) =~= power);
    assert(is_exponent(plain));
    assert(is_exponent(signed));
    lemma_pointed(whole, fraction, plain);
    lemma_pointed(whole, fraction, signed);
    assert(whole + seq!['.'] + fraction + seq!['e'] + power =~= short + plain);
    assert(whole + seq!['.'] + fraction + seq!['e', sign] + power =~= short + signed);
    assert((short + plain)[0] == whole[0]);
    assert((short + signed)[0] == whole[0]);
}

proof fn lemma_pointed(whole: Seq<char>, fraction: Seq<char>, rest: Seq<char>)
    requires
        all_digits(whole),
        all_digits(fraction),
        rest.len() == 0 || is_exponent(rest),
    ensures
        is_plain_number(whole + seq!['.'] + fraction + rest),
{
    let text = whole + seq!['.'] + fraction + rest;
    let tail = seq!['.'] + (fraction + rest);
    assert(text =~= whole + tail);
    lemma_digit_run(whole, tail);
    let after = text.skip(whole.len() as int);
    assert(after =~= tail);
    assert(after[0] == '.');
    assert(after.skip(1) =~= fraction + rest);
    lemma_digit_run(fraction, rest);
    assert(after.skip(1).skip(fraction.len() as int) =~= rest);
}

} // verus!
