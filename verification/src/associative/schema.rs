//! The schema a decomposition is written in.
//!
//! A decomposition is two things: a structure (what was found, where it goes,
//! how loud) and a pile of waveforms. The structure is written as a Links
//! Notation manifest, which is stored in the link network and read back from
//! it without loss; the waveforms are written next to the manifest as audio
//! files, and the manifest names them. Keeping the two apart is what makes the
//! archive both readable and exact: text stays text, and samples stay bits.
//!
//! ```text
//! (decomposition: version 1)
//! (source: (name song) (sample-rate 44100) (format pcm_i16) (channels 2) (frames 220500))
//! (stem: harmonic stems/harmonic.wav)
//! (sample: 1 sample-0001-A3 samples/sample-0001-A3.wav (frames 4096) (peak 0.5) (note 57))
//! (placement: 1 0 0 65536)
//! (note: 0 0 4096 57 100 220.0 0.93)
//! (residual: residual.wav)
//! ```
//!
//! Every text value is percent-encoded, so a name with a space or a bracket in
//! it survives the round trip through Links Notation, where those characters
//! are syntax.

use vstd::prelude::*;
use vstd::utf8::{
    decode_utf8, encode_utf8, encode_utf8_decode_utf8, encode_utf8_valid_utf8, is_ascii_chars,
    is_ascii_chars_encode_utf8, is_char_boundary, is_char_boundary_iff_not_is_continuation_byte,
    is_char_boundary_start_end_of_seq, is_continuation_byte, valid_utf8, valid_utf8_split,
};

use crate::associative::faithful::{
    law_manifests_survive_documents, law_read_manifests_are_whole, lemma_manifest_tame, whole,
};
use crate::associative::lino::{
    document_at, formatted, grows, lemma_trees, link, node_text, parse, parsed, property,
    property_tree, read_document, reference, store_document, tame, tree, trees, weights,
    with_document, written, Document, Node, Tree,
};
use crate::associative::reversible::law_documents_survive_the_network;
use crate::associative::store::{LinkIndex, LinkStore, Network};
use crate::audio::SampleFormat;
use crate::decompose::model::{
    Decomposition, Gain, Note, Origin, Placement, Played, Sample, SourceInfo, Stem,
};
use crate::error::{Error, Fault};
use crate::number::{
    is_numeral, parse_signed, parse_unsigned, signed_decimal, signed_text, signed_value,
    unsigned_value, Number,
};
use crate::text::{chars_of, decimal, decimal_text, same, string_of};

verus! {

/// Whether a byte may appear in a manifest value unencoded.
pub open spec fn plain_byte(byte: u8) -> bool {
    ||| 0x30 <= byte <= 0x39
    ||| 0x41 <= byte <= 0x5A
    ||| 0x61 <= byte <= 0x7A
    ||| byte == 0x2D
    ||| byte == 0x5F
    ||| byte == 0x2E
    ||| byte == 0x2F
    ||| byte == 0x23
}

/// Whether a byte may appear in a manifest value unencoded.
fn is_plain(byte: u8) -> (plain: bool)
    ensures
        plain == plain_byte(byte),
{
    (0x30 <= byte && byte <= 0x39) || (0x41 <= byte && byte <= 0x5A) || (0x61 <= byte && byte
        <= 0x7A) || byte == 0x2D || byte == 0x5F || byte == 0x2E || byte == 0x2F || byte == 0x23
}

/// A hexadecimal digit, letters large.
pub open spec fn large_digit(digit: nat) -> char {
    if digit < 10 {
        (48 + digit) as char
    } else {
        (55 + digit) as char
    }
}

/// A hexadecimal digit, letters large.
fn large(digit: u8) -> (character: char)
    requires
        digit < 16,
    ensures
        character == large_digit(digit as nat),
{
    if digit < 10 {
        (48 + digit) as char
    } else {
        (55 + digit) as char
    }
}

/// A byte as it appears in a manifest value.
pub open spec fn escaped(byte: u8) -> Seq<char> {
    if plain_byte(byte) {
        seq![byte as char]
    } else {
        seq!['%', large_digit(byte as nat / 16), large_digit(byte as nat % 16)]
    }
}

/// Bytes as they appear in a manifest value.
pub open spec fn escaped_all(bytes: Seq<u8>) -> Seq<char>
    decreases bytes.len(),
{
    if bytes.len() == 0 {
        Seq::empty()
    } else {
        escaped_all(bytes.drop_last()) + escaped(bytes.last())
    }
}

/// A text as it appears in a manifest. An empty one is a lone `%`.
pub open spec fn encoded(value: Seq<char>) -> Seq<char> {
    if value.len() == 0 {
        seq!['%']
    } else {
        escaped_all(encode_utf8(value))
    }
}

/// Percent-encodes a value so that Links Notation syntax cannot appear in it.
pub fn encode(value: &str) -> (text: String)
    ensures
        text@ == encoded(value@),
{
    let mut text = String::new();
    if value.unicode_len() == 0 {
        text.push('%');
        assert(text@ =~= seq!['%']);
        return text;
    }
    let bytes = value.as_bytes();
    let length: usize = bytes.len();
    let mut index: usize = 0;
    assert(bytes@.take(0) =~= Seq::<u8>::empty());
    while index < length
        invariant
            length == bytes@.len(),
            index <= length,
            text@ == escaped_all(bytes@.take(index as int)),
        decreases length - index,
    {
        let byte: u8 = bytes[index];
        let ghost before = text@;
        assert(bytes@.take(index + 1).drop_last() =~= bytes@.take(index as int));
        if is_plain(byte) {
            text.push(byte as char);
        } else {
            text.push('%');
            text.push(large(byte / 16));
            text.push(large(byte % 16));
        }
        assert(text@ =~= before + escaped(byte));
        index = index + 1;
    }
    assert(bytes@.take(length as int) =~= bytes@);
    text
}

/// The value of a hexadecimal digit, large or small.
pub open spec fn digit_of(byte: u8) -> Option<nat> {
    if 0x30 <= byte <= 0x39 {
        Some((byte - 0x30) as nat)
    } else if 0x41 <= byte <= 0x46 {
        Some((byte - 0x37) as nat)
    } else if 0x61 <= byte <= 0x66 {
        Some((byte - 0x57) as nat)
    } else {
        None
    }
}

/// The byte that two characters of an escape spell: two hexadecimal digits, or
/// a plus sign and one.
pub open spec fn pair_value(first: u8, second: u8) -> Option<nat> {
    match digit_of(second) {
        None => None,
        Some(low) => if first == 0x2B {
            Some(low)
        } else {
            match digit_of(first) {
                None => None,
                Some(high) => Some(16 * high + low),
            }
        },
    }
}

/// The value of a hexadecimal digit, large or small.
fn hex_digit(byte: u8) -> (digit: Option<u8>)
    ensures
        match digit_of(byte) {
            Some(expected) => digit == Some(expected as u8) && expected < 16,
            None => digit is None,
        },
{
    if 0x30 <= byte && byte <= 0x39 {
        Some(byte - 0x30)
    } else if 0x41 <= byte && byte <= 0x46 {
        Some(byte - 0x37)
    } else if 0x61 <= byte && byte <= 0x66 {
        Some(byte - 0x57)
    } else {
        None
    }
}

/// The byte that two characters of an escape spell.
fn hex_pair(first: u8, second: u8) -> (byte: Option<u8>)
    ensures
        match pair_value(first, second) {
            Some(expected) => byte == Some(expected as u8) && expected < 256,
            None => byte is None,
        },
{
    match hex_digit(second) {
        None => None,
        Some(low) => if first == 0x2B {
            Some(low)
        } else {
            match hex_digit(first) {
                None => None,
                Some(high) => Some(16 * high + low),
            }
        },
    }
}

/// Whether two bytes at a position are whole characters of a text.
pub open spec fn whole_pair(bytes: Seq<u8>, start: int) -> bool {
    &&& start + 2 <= bytes.len()
    &&& start + 2 < bytes.len() ==> !is_continuation_byte(bytes[start + 2])
}

/// The bytes that a manifest value stands for, behind those read already.
pub open spec fn unescaped(
    value: Seq<char>,
    bytes: Seq<u8>,
    index: int,
    before: Seq<u8>,
) -> Result<Seq<u8>, Fault>
    decreases bytes.len() - index,
{
    if index >= bytes.len() {
        Ok(before)
    } else if bytes[index] != 0x25 {
        unescaped(value, bytes, index + 1, before.push(bytes[index]))
    } else if !whole_pair(bytes, index + 1) {
        Err(Fault::Format("truncated escape in `"@ + value + "`"@))
    } else {
        match pair_value(bytes[index + 1], bytes[index + 2]) {
            Some(byte) => unescaped(value, bytes, index + 3, before.push(byte as u8)),
            None => Err(
                Fault::Format(
                    "invalid escape `%"@ + decode_utf8(bytes.subrange(index + 1, index + 3))
                        + "` in `"@ + value + "`"@,
                ),
            ),
        }
    }
}

/// What `String::from_utf8` complains about in bytes that are no text.
pub uninterp spec fn utf8_complaint(bytes: Seq<u8>) -> Seq<char>;

/// What came of reading bytes as text.
pub open spec fn text_outcome(result: Result<String, String>) -> Result<Seq<char>, Seq<char>> {
    match result {
        Ok(text) => Ok(text@),
        Err(complaint) => Err(complaint@),
    }
}

/// The text that bytes spell, or a complaint.
pub open spec fn spelled(bytes: Seq<u8>, complaint: Seq<char>) -> Result<Seq<char>, Seq<char>> {
    if valid_utf8(bytes) {
        Ok(decode_utf8(bytes))
    } else {
        Err(complaint)
    }
}

/// `String::from_utf8` gives the text that valid UTF-8 spells, and complains of
/// anything else in words that [`utf8_complaint`] names.
#[verifier::external_body]
fn text_of_bytes(bytes: Vec<u8>) -> (text: Result<String, String>)
    ensures
        text_outcome(text) == spelled(bytes@, utf8_complaint(bytes@)),
{
    String::from_utf8(bytes).map_err(|error| error.to_string())
}

/// The text that a manifest value stands for.
pub open spec fn decoded(value: Seq<char>) -> Result<Seq<char>, Fault> {
    if value == seq!['%'] {
        Ok(Seq::empty())
    } else {
        match unescaped(value, encode_utf8(value), 0, Seq::empty()) {
            Err(fault) => Err(fault),
            Ok(bytes) => match spelled(bytes, utf8_complaint(bytes)) {
                Ok(text) => Ok(text),
                Err(complaint) => Err(Fault::Format(complaint + " in `"@ + value + "`"@)),
            },
        }
    }
}

/// Two bytes behind a percent sign that are whole characters spell a text.
proof fn lemma_pair_is_text(bytes: Seq<u8>, start: int)
    requires
        valid_utf8(bytes),
        1 <= start,
        bytes[start - 1] == 0x25,
        whole_pair(bytes, start),
    ensures
        valid_utf8(bytes.subrange(start, start + 2)),
{
    is_char_boundary_iff_not_is_continuation_byte(bytes, start - 1);
    valid_utf8_split(bytes, start - 1);
    let rest = bytes.subrange(start - 1, bytes.len() as int);
    assert(rest[0] == 0x25);
    let tail = vstd::utf8::pop_first_scalar(rest);
    assert(tail =~= bytes.subrange(start, bytes.len() as int));
    assert(valid_utf8(tail));
    if start + 2 < bytes.len() {
        assert(tail[2] == bytes[start + 2]);
        is_char_boundary_iff_not_is_continuation_byte(tail, 2);
    } else {
        is_char_boundary_start_end_of_seq(tail);
    }
    assert(is_char_boundary(tail, 2));
    valid_utf8_split(tail, 2);
    assert(tail.subrange(0, 2) =~= bytes.subrange(start, start + 2));
}

/// Whether a byte continues a character.
fn continues(byte: u8) -> (continuation: bool)
    ensures
        continuation == is_continuation_byte(byte),
{
    0x80 <= byte && byte <= 0xBF
}

/// Builds the complaint about an escape that is no pair of digits.
fn invalid_escape(value: &str, first: u8, second: u8) -> (error: Error)
    requires
        valid_utf8(seq![first, second]),
    ensures
        error@ == Fault::Format(
            "invalid escape `%"@ + decode_utf8(seq![first, second]) + "` in `"@ + value@ + "`"@,
        ),
{
    let mut pair: Vec<u8> = Vec::new();
    pair.push(first);
    pair.push(second);
    assert(pair@ =~= seq![first, second]);
    let mut message = "invalid escape `%".to_string();
    match text_of_bytes(pair) {
        Ok(digits) => message.append(digits.as_str()),
        Err(_) => {},
    }
    message.append("` in `");
    message.append(value);
    message.append("`");
    Error::Format(message)
}

/// Decodes a value written by [`encode`].
pub fn decode(value: &str) -> (result: Result<String, Error>)
    ensures
        match decoded(value@) {
            Ok(expected) => result matches Ok(text) && text@ == expected,
            Err(fault) => result matches Err(error) && error@ == fault,
        },
{
    let bytes = value.as_bytes();
    let length: usize = bytes.len();
    let ghost goal = unescaped(value@, bytes@, 0, Seq::empty());
    proof {
        encode_utf8_valid_utf8(value@);
        lemma_lone_percent(value@);
    }
    if length == 1 && bytes[0] == 0x25 {
        let text = String::new();
        assert(text@ =~= Seq::<char>::empty());
        return Ok(text);
    }
    let mut decoded: Vec<u8> = Vec::new();
    let mut index: usize = 0;
    assert(decoded@ =~= Seq::<u8>::empty());
    while index < length
        invariant
            bytes@ == encode_utf8(value@),
            valid_utf8(bytes@),
            value@ != seq!['%'],
            length == bytes@.len(),
            index <= length,
            goal == unescaped(value@, bytes@, 0, Seq::empty()),
            goal == unescaped(value@, bytes@, index as int, decoded@),
        decreases length - index,
    {
        if bytes[index] != 0x25 {
            decoded.push(bytes[index]);
            index = index + 1;
        } else {
            if length - index < 3 || (length - index > 3 && continues(bytes[index + 3])) {
                let mut message = "truncated escape in `".to_string();
                message.append(value);
                message.append("`");
                return Err(Error::Format(message));
            }
            match hex_pair(bytes[index + 1], bytes[index + 2]) {
                Some(byte) => decoded.push(byte),
                None => {
                    proof {
                        lemma_pair_is_text(bytes@, index + 1);
                        assert(bytes@.subrange(index + 1, index + 3) =~= seq![
                            bytes@[index + 1],
                            bytes@[index + 2],
                        ]);
                    }
                    return Err(invalid_escape(value, bytes[index + 1], bytes[index + 2]));
                },
            }
            index = index + 3;
        }
    }
    match text_of_bytes(decoded) {
        Ok(text) => Ok(text),
        Err(complaint) => {
            let mut message = complaint;
            message.append(" in `");
            message.append(value);
            message.append("`");
            Err(Error::Format(message))
        },
    }
}

/// A text is a lone percent sign exactly where its bytes are.
proof fn lemma_lone_percent(value: Seq<char>)
    ensures
        (value == seq!['%']) == (encode_utf8(value) == seq![0x25u8]),
{
    let percent = seq!['%'];
    assert(is_ascii_chars(percent));
    is_ascii_chars_encode_utf8(percent);
    assert(encode_utf8(percent) =~= seq![0x25u8]);
    if encode_utf8(value) == seq![0x25u8] {
        encode_utf8_decode_utf8(value);
        encode_utf8_decode_utf8(percent);
    }
}

/// Escaping bytes in two goes is escaping them in one.
proof fn lemma_escaped_split(first: Seq<u8>, second: Seq<u8>)
    ensures
        escaped_all(first + second) == escaped_all(first) + escaped_all(second),
    decreases second.len(),
{
    if second.len() == 0 {
        assert(first + second =~= first);
        assert(escaped_all(first) + escaped_all(second) =~= escaped_all(first));
    } else {
        lemma_escaped_split(first, second.drop_last());
        assert((first + second).drop_last() =~= first + second.drop_last());
        assert(escaped_all(first + second) =~= escaped_all(first) + escaped_all(second));
    }
}

/// Escaped bytes are tame characters, at least as many as the bytes.
proof fn lemma_escaped_shape(bytes: Seq<u8>)
    ensures
        escaped_all(bytes).len() >= bytes.len(),
        is_ascii_chars(escaped_all(bytes)),
        bytes.len() > 0 ==> tame(escaped_all(bytes)),
    decreases bytes.len(),
{
    if bytes.len() > 0 {
        lemma_escaped_shape(bytes.drop_last());
    }
}

/// Reading an escaped byte gives the byte back.
proof fn lemma_unescaped_step(value: Seq<char>, raw: Seq<u8>, count: int)
    requires
        0 <= count < raw.len(),
    ensures
        ({
            let bytes = encode_utf8(escaped_all(raw));
            unescaped(
                value,
                bytes,
                escaped_all(raw.take(count)).len() as int,
                raw.take(count),
            ) == unescaped(
                value,
                bytes,
                escaped_all(raw.take(count + 1)).len() as int,
                raw.take(count + 1),
            )
        }),
{
    let text = escaped_all(raw);
    let bytes = encode_utf8(text);
    let front = escaped_all(raw.take(count));
    let byte = raw[count];
    lemma_escaped_shape(raw);
    is_ascii_chars_encode_utf8(text);
    assert(raw.take(count + 1).drop_last() =~= raw.take(count));
    assert(raw.take(count + 1) =~= raw.take(count).push(byte));
    assert(escaped_all(raw.take(count + 1)) == front + escaped(byte));
    assert(raw =~= raw.take(count + 1) + raw.skip(count + 1));
    lemma_escaped_split(raw.take(count + 1), raw.skip(count + 1));
    let at = front.len() as int;
    assert(text[at] == escaped(byte)[0]);
    assert(bytes[at] == text[at] as u8);
    if !plain_byte(byte) {
        assert(text[at + 1] == escaped(byte)[1]);
        assert(text[at + 2] == escaped(byte)[2]);
        assert(bytes[at + 1] == text[at + 1] as u8);
        assert(bytes[at + 2] == text[at + 2] as u8);
        if at + 3 < bytes.len() {
            assert(bytes[at + 3] == text[at + 3] as u8);
            assert('\0' <= text[at + 3] <= '\u{7f}');
        }
        assert(pair_value(bytes[at + 1], bytes[at + 2]) == Some(byte as nat));
    }
}

/// Reading escaped bytes gives the bytes back.
proof fn lemma_unescaped_all(value: Seq<char>, raw: Seq<u8>, count: int)
    requires
        0 <= count <= raw.len(),
    ensures
        unescaped(
            value,
            encode_utf8(escaped_all(raw)),
            escaped_all(raw.take(count)).len() as int,
            raw.take(count),
        ) == Ok::<Seq<u8>, Fault>(raw),
    decreases raw.len() - count,
{
    if count < raw.len() {
        lemma_unescaped_step(value, raw, count);
        lemma_unescaped_all(value, raw, count + 1);
    } else {
        assert(raw.take(count) =~= raw);
        lemma_escaped_shape(raw);
        is_ascii_chars_encode_utf8(escaped_all(raw));
    }
}

/// A text survives being encoded and decoded, whatever it holds, and what
/// stands in between is free of Links Notation syntax.
pub proof fn law_encoding_round_trips(value: Seq<char>)
    ensures
        decoded(encoded(value)) == Ok::<Seq<char>, Fault>(value),
        tame(encoded(value)),
{
    let raw = encode_utf8(value);
    if value.len() == 0 {
        assert(value =~= Seq::<char>::empty());
    } else {
        encode_utf8_valid_utf8(value);
        encode_utf8_decode_utf8(value);
        lemma_bytes_of_some(value);
        lemma_escaped_shape(raw);
        lemma_unescaped_all(encoded(value), raw, 0);
        assert(raw.take(0) =~= Seq::<u8>::empty());
        if encoded(value) == seq!['%'] {
            assert(raw.take(1) =~= seq![raw[0]]);
            assert(raw =~= raw.take(1) + raw.skip(1));
            lemma_escaped_split(raw.take(1), raw.skip(1));
            assert(raw.take(1).drop_last() =~= Seq::<u8>::empty());
            assert(escaped_all(raw.take(1)) =~= escaped(raw[0]));
            assert(encoded(value)[0] == escaped(raw[0])[0]);
            assert(escaped(raw[0]).len() == 1 ==> plain_byte(raw[0]));
        }
    }
}

/// A text with characters has bytes.
proof fn lemma_bytes_of_some(value: Seq<char>)
    requires
        value.len() > 0,
    ensures
        encode_utf8(value).len() > 0,
{
    encode_utf8_decode_utf8(value);
    if encode_utf8(value).len() == 0 {
        assert(encode_utf8(value) =~= encode_utf8(Seq::<char>::empty()));
        encode_utf8_decode_utf8(Seq::<char>::empty());
    }
}

/// A character that may stand in a file name as it is.
pub open spec fn plain_character(character: char) -> bool {
    ||| '0' <= character <= '9'
    ||| 'A' <= character <= 'Z'
    ||| 'a' <= character <= 'z'
    ||| character == '-'
    ||| character == '_'
    ||| character == '.'
}

/// A name with every character that a file name cannot hold made a `_`.
pub open spec fn slugged(name: Seq<char>) -> Seq<char> {
    if name.len() == 0 {
        seq!['_']
    } else {
        Seq::new(
            name.len(),
            |i: int|
                if plain_character(name[i]) {
                    name[i]
                } else {
                    '_'
                },
        )
    }
}

/// A file-name-safe form of a name, used for the audio files.
pub fn slug(name: &str) -> (slug: String)
    ensures
        slug@ == slugged(name@),
{
    let characters = chars_of(name);
    let mut safe: Vec<char> = Vec::new();
    let mut index: usize = 0;
    while index < characters.len()
        invariant
            index <= characters@.len(),
            safe@.len() == index,
            forall|i: int|
                0 <= i < index ==> #[trigger] safe@[i] == if plain_character(characters@[i]) {
                    characters@[i]
                } else {
                    '_'
                },
        decreases characters@.len() - index,
    {
        let character: char = characters[index];
        if ('0' <= character && character <= '9') || ('A' <= character && character <= 'Z') || ('a'
            <= character && character <= 'z') || character == '-' || character == '_' || character
            == '.' {
            safe.push(character);
        } else {
            safe.push('_');
        }
        index = index + 1;
    }
    if safe.len() == 0 {
        safe.push('_');
    }
    assert(safe@ =~= slugged(name@));
    string_of(&safe)
}

/// The file name of a stem's audio.
pub open spec fn stem_file_of(name: Seq<char>) -> Seq<char> {
    "stems/"@ + slugged(name) + ".wav"@
}

/// The file name of a bank sample's waveform.
pub open spec fn sample_file_of(name: Seq<char>) -> Seq<char> {
    "samples/"@ + slugged(name) + ".wav"@
}

/// File name of a stem's audio.
pub fn stem_file(name: &str) -> (file: String)
    ensures
        file@ == stem_file_of(name@),
{
    let mut file = "stems/".to_string();
    file.append(slug(name).as_str());
    file.append(".wav");
    file
}

/// File name of a bank sample's waveform.
pub fn sample_file(name: &str) -> (file: String)
    ensures
        file@ == sample_file_of(name@),
{
    let mut file = "samples/".to_string();
    file.append(slug(name).as_str());
    file.append(".wav");
    file
}

/// Version tag written into every manifest.
pub const VERSION: &'static str = "1";

/// File the residual is stored in.
pub const RESIDUAL_FILE: &'static str = "residual.wav";

/// File the correction is stored in, when there is one.
pub const CORRECTION_FILE: &'static str = "correction.wav";

/// A named audio file belonging to a decomposition.
#[derive(Clone, Debug, PartialEq, Eq)]
pub struct Entry {
    /// Name of the stem.
    pub name: String,
    /// File the audio lives in, relative to the manifest.
    pub file: String,
}

/// What an [`Entry`] says.
#[verifier::ext_equal]
pub struct Named {
    /// Name of the stem.
    pub name: Seq<char>,
    /// File the audio lives in.
    pub file: Seq<char>,
}

impl View for Entry {
    type V = Named;

    open spec fn view(&self) -> Named {
        Named { name: self.name@, file: self.file@ }
    }
}

/// Everything a manifest records about one bank sample.
#[derive(Clone, Debug, PartialEq)]
pub struct SampleEntry {
    /// Index into the bank.
    pub id: usize,
    /// Name of the sample.
    pub name: String,
    /// File the waveform lives in, relative to the manifest.
    pub file: String,
    /// Number of frames in the waveform.
    pub frames: usize,
    /// Peak amplitude of the waveform.
    pub peak: Number,
    /// Recognised MIDI note, when the sample is pitched.
    pub note: Option<u8>,
    /// Recognised fundamental frequency, when the sample is pitched.
    pub frequency: Option<Number>,
}

/// What a [`SampleEntry`] says.
#[verifier::ext_equal]
pub struct Cutting {
    /// Index into the bank.
    pub id: usize,
    /// Name of the sample.
    pub name: Seq<char>,
    /// File the waveform lives in.
    pub file: Seq<char>,
    /// Number of frames in the waveform.
    pub frames: usize,
    /// Peak amplitude of the waveform.
    pub peak: Seq<char>,
    /// Recognised MIDI note.
    pub note: Option<u8>,
    /// Recognised fundamental frequency.
    pub frequency: Option<Seq<char>>,
}

/// The text of a number that may be missing.
pub open spec fn number_text(number: Option<Number>) -> Option<Seq<char>> {
    match number {
        Some(found) => Some(found@),
        None => None,
    }
}

impl View for SampleEntry {
    type V = Cutting;

    open spec fn view(&self) -> Cutting {
        Cutting {
            id: self.id,
            name: self.name@,
            file: self.file@,
            frames: self.frames,
            peak: self.peak@,
            note: self.note,
            frequency: number_text(self.frequency),
        }
    }
}

/// A decomposition without its audio: what the manifest holds.
#[derive(Clone, Debug, PartialEq)]
pub struct Manifest {
    /// Where the recording came from.
    pub source: SourceInfo,
    /// The stems and the files holding them.
    pub stems: Vec<Entry>,
    /// The bank.
    pub samples: Vec<SampleEntry>,
    /// Where the bank samples are used.
    pub placements: Vec<Placement>,
    /// The recognised notes.
    pub notes: Vec<Note>,
    /// File holding the residual.
    pub residual: String,
    /// File holding the correction, when the source needed one.
    pub correction: Option<String>,
}

/// What a [`Manifest`] says.
#[verifier::ext_equal]
pub struct Inventory {
    /// Where the recording came from.
    pub source: Origin,
    /// The stems and the files holding them.
    pub stems: Seq<Named>,
    /// The bank.
    pub samples: Seq<Cutting>,
    /// Where the bank samples are used.
    pub placements: Seq<Placement>,
    /// The recognised notes.
    pub notes: Seq<Played>,
    /// File holding the residual.
    pub residual: Seq<char>,
    /// File holding the correction.
    pub correction: Option<Seq<char>>,
}

/// What several entries say.
pub open spec fn all_named(entries: Seq<Entry>) -> Seq<Named> {
    Seq::new(entries.len(), |i: int| entries[i]@)
}

/// What several bank samples say.
pub open spec fn all_cut(entries: Seq<SampleEntry>) -> Seq<Cutting> {
    Seq::new(entries.len(), |i: int| entries[i]@)
}

/// What several notes say.
pub open spec fn all_played(notes: Seq<Note>) -> Seq<Played> {
    Seq::new(notes.len(), |i: int| notes[i]@)
}

/// The text of a name that may be missing.
pub open spec fn text_of(name: Option<String>) -> Option<Seq<char>> {
    match name {
        Some(text) => Some(text@),
        None => None,
    }
}

impl View for Manifest {
    type V = Inventory;

    open spec fn view(&self) -> Inventory {
        Inventory {
            source: self.source@,
            stems: all_named(self.stems@),
            samples: all_cut(self.samples@),
            placements: self.placements@,
            notes: all_played(self.notes@),
            residual: self.residual@,
            correction: text_of(self.correction),
        }
    }
}

/// The first line of a manifest.
pub open spec fn version_tree() -> Tree {
    Tree::Link(Some("decomposition"@), seq![Tree::Ref("version"@), Tree::Ref("1"@)])
}

/// The line that describes the source.
pub open spec fn source_tree(source: Origin) -> Tree {
    Tree::Link(
        Some("source"@),
        seq![
            property_tree("name"@, encoded(source.name)),
            property_tree("sample-rate"@, decimal(source.sample_rate as nat)),
            property_tree("format"@, source.format.spec_name()),
            property_tree("channels"@, decimal(source.channels as nat)),
            property_tree("frames"@, decimal(source.frames as nat)),
        ],
    )
}

/// The line of a stem.
pub open spec fn stem_tree(stem: Named) -> Tree {
    Tree::Link(
        Some("stem"@),
        seq![Tree::Ref(encoded(stem.name)), Tree::Ref(encoded(stem.file))],
    )
}

/// What the line of a bank sample holds in any case.
pub open spec fn sample_values(sample: Cutting) -> Seq<Tree> {
    seq![
        Tree::Ref(decimal(sample.id as nat)),
        Tree::Ref(encoded(sample.name)),
        Tree::Ref(encoded(sample.file)),
        property_tree("frames"@, decimal(sample.frames as nat)),
        property_tree("peak"@, sample.peak),
    ]
}

/// What the line of a bank sample holds of its note.
pub open spec fn note_values(sample: Cutting) -> Seq<Tree> {
    match sample.note {
        Some(note) => seq![property_tree("note"@, decimal(note as nat))],
        None => Seq::empty(),
    }
}

/// What the line of a bank sample holds of its frequency.
pub open spec fn frequency_values(sample: Cutting) -> Seq<Tree> {
    match sample.frequency {
        Some(frequency) => seq![property_tree("frequency"@, frequency)],
        None => Seq::empty(),
    }
}

/// The line of a bank sample.
pub open spec fn sample_tree(sample: Cutting) -> Tree {
    Tree::Link(
        Some("sample"@),
        sample_values(sample) + note_values(sample) + frequency_values(sample),
    )
}

/// The line of a placement.
pub open spec fn placement_tree(placement: Placement) -> Tree {
    Tree::Link(
        Some("placement"@),
        seq![
            Tree::Ref(decimal(placement.sample as nat)),
            Tree::Ref(decimal(placement.channel as nat)),
            Tree::Ref(signed_decimal(placement.start as int)),
            Tree::Ref(signed_decimal(placement.gain.over_scale() as int)),
        ],
    )
}

/// The line of a note.
pub open spec fn note_tree(note: Played) -> Tree {
    Tree::Link(
        Some("note"@),
        seq![
            Tree::Ref(decimal(note.channel as nat)),
            Tree::Ref(decimal(note.start as nat)),
            Tree::Ref(decimal(note.length as nat)),
            Tree::Ref(decimal(note.note as nat)),
            Tree::Ref(decimal(note.velocity as nat)),
            Tree::Ref(note.frequency),
            Tree::Ref(note.confidence),
        ],
    )
}

/// The line of the residual.
pub open spec fn residual_tree(file: Seq<char>) -> Tree {
    Tree::Link(Some("residual"@), seq![Tree::Ref(encoded(file))])
}

/// The line of the correction.
pub open spec fn correction_tree(file: Seq<char>) -> Tree {
    Tree::Link(Some("correction"@), seq![Tree::Ref(encoded(file))])
}

/// The lines of the stems.
pub open spec fn stem_trees(stems: Seq<Named>) -> Seq<Tree> {
    Seq::new(stems.len(), |i: int| stem_tree(stems[i]))
}

/// The lines of the bank.
pub open spec fn sample_trees(samples: Seq<Cutting>) -> Seq<Tree> {
    Seq::new(samples.len(), |i: int| sample_tree(samples[i]))
}

/// The lines of the placements.
pub open spec fn placement_trees(placements: Seq<Placement>) -> Seq<Tree> {
    Seq::new(placements.len(), |i: int| placement_tree(placements[i]))
}

/// The lines of the notes.
pub open spec fn note_trees(notes: Seq<Played>) -> Seq<Tree> {
    Seq::new(notes.len(), |i: int| note_tree(notes[i]))
}

/// The line of the correction, when there is one.
pub open spec fn correction_trees(correction: Option<Seq<char>>) -> Seq<Tree> {
    match correction {
        Some(file) => seq![correction_tree(file)],
        None => Seq::empty(),
    }
}

/// The lines of a manifest.
pub open spec fn document_of(manifest: Inventory) -> Seq<Tree> {
    seq![version_tree(), source_tree(manifest.source)] + stem_trees(manifest.stems) + sample_trees(
        manifest.samples,
    ) + placement_trees(manifest.placements) + note_trees(manifest.notes) + seq![
        residual_tree(manifest.residual),
    ] + correction_trees(manifest.correction)
}

/// One more node says one more thing.
proof fn lemma_pushed(nodes: Seq<Node>, node: Node)
    ensures
        trees(nodes.push(node)) == trees(nodes).push(tree(node)),
{
    assert(nodes.push(node).drop_last() =~= nodes);
}

/// Appends a node.
fn attach(nodes: &mut Vec<Node>, node: Node)
    ensures
        trees(final(nodes)@) == trees(old(nodes)@).push(tree(node)),
{
    proof {
        lemma_pushed(nodes@, node);
    }
    nodes.push(node);
}

/// An unsigned number as a value node.
fn count_node(value: u64) -> (node: Node)
    ensures
        tree(node) == Tree::Ref(decimal(value as nat)),
{
    reference(decimal_text(value).as_str())
}

/// An unsigned number as a `(key value)` node.
fn count_pair(key: &str, value: u64) -> (node: Node)
    ensures
        tree(node) == property_tree(key@, decimal(value as nat)),
{
    property(key, decimal_text(value).as_str())
}

/// An encoded text as a value node.
fn text_node(value: &str) -> (node: Node)
    ensures
        tree(node) == Tree::Ref(encoded(value@)),
{
    reference(encode(value).as_str())
}

/// The first line of a manifest.
fn version_node() -> (node: Node)
    ensures
        tree(node) == version_tree(),
{
    let mut values: Vec<Node> = Vec::new();
    attach(&mut values, reference("version"));
    attach(&mut values, reference("1"));
    assert(trees(values@) =~= seq![Tree::Ref("version"@), Tree::Ref("1"@)]);
    link("decomposition", values)
}

/// The line that describes the source.
fn source_node(source: &SourceInfo) -> (node: Node)
    ensures
        tree(node) == source_tree(source@),
{
    let mut values: Vec<Node> = Vec::new();
    attach(&mut values, property("name", encode(source.name.as_str()).as_str()));
    attach(&mut values, count_pair("sample-rate", source.sample_rate as u64));
    attach(&mut values, property("format", source.format.name()));
    attach(&mut values, count_pair("channels", source.channels as u64));
    attach(&mut values, count_pair("frames", source.frames as u64));
    let node = link("source", values);
    assert(tree(node)->Link_1 =~= source_tree(source@)->Link_1);
    node
}

/// The line of a stem.
fn stem_node(stem: &Entry) -> (node: Node)
    ensures
        tree(node) == stem_tree(stem@),
{
    let mut values: Vec<Node> = Vec::new();
    attach(&mut values, text_node(stem.name.as_str()));
    attach(&mut values, text_node(stem.file.as_str()));
    let node = link("stem", values);
    assert(tree(node)->Link_1 =~= stem_tree(stem@)->Link_1);
    node
}

/// The line of a bank sample.
fn sample_node(sample: &SampleEntry) -> (node: Node)
    ensures
        tree(node) == sample_tree(sample@),
{
    let mut values: Vec<Node> = Vec::new();
    attach(&mut values, count_node(sample.id as u64));
    attach(&mut values, text_node(sample.name.as_str()));
    attach(&mut values, text_node(sample.file.as_str()));
    attach(&mut values, count_pair("frames", sample.frames as u64));
    attach(&mut values, property("peak", sample.peak.text()));
    assert(trees(values@) =~= sample_values(sample@));
    match sample.note {
        Some(note) => attach(&mut values, count_pair("note", note as u64)),
        None => {},
    }
    assert(trees(values@) =~= sample_values(sample@) + note_values(sample@));
    match &sample.frequency {
        Some(frequency) => attach(&mut values, property("frequency", frequency.text())),
        None => {},
    }
    assert(trees(values@) =~= sample_values(sample@) + note_values(sample@) + frequency_values(
        sample@,
    ));
    link("sample", values)
}

/// The line of a placement.
fn placement_node(placement: &Placement) -> (node: Node)
    ensures
        tree(node) == placement_tree(*placement),
{
    let mut values: Vec<Node> = Vec::new();
    attach(&mut values, count_node(placement.sample as u64));
    attach(&mut values, count_node(placement.channel as u64));
    attach(&mut values, reference(signed_text(placement.start).as_str()));
    attach(&mut values, reference(signed_text(placement.gain.numerator()).as_str()));
    let node = link("placement", values);
    assert(tree(node)->Link_1 =~= placement_tree(*placement)->Link_1);
    node
}

/// The line of a note.
fn note_node(note: &Note) -> (node: Node)
    ensures
        tree(node) == note_tree(note@),
{
    let mut values: Vec<Node> = Vec::new();
    attach(&mut values, count_node(note.channel as u64));
    attach(&mut values, count_node(note.start as u64));
    attach(&mut values, count_node(note.length as u64));
    attach(&mut values, count_node(note.note as u64));
    attach(&mut values, count_node(note.velocity as u64));
    attach(&mut values, reference(note.frequency.text()));
    attach(&mut values, reference(note.confidence.text()));
    let node = link("note", values);
    assert(tree(node)->Link_1 =~= note_tree(note@)->Link_1);
    node
}

/// A line with one encoded text.
fn file_node(id: &str, file: &str) -> (node: Node)
    ensures
        tree(node) == Tree::Link(Some(id@), seq![Tree::Ref(encoded(file@))]),
{
    let mut values: Vec<Node> = Vec::new();
    attach(&mut values, text_node(file));
    let node = link(id, values);
    assert(tree(node)->Link_1 =~= seq![Tree::Ref(encoded(file@))]);
    node
}

/// Appends the lines of the stems.
fn add_stems(document: &mut Vec<Node>, stems: &Vec<Entry>)
    ensures
        trees(final(document)@) == trees(old(document)@) + stem_trees(all_named(stems@)),
{
    let ghost front = trees(document@);
    let ghost goal = stem_trees(all_named(stems@));
    let mut index: usize = 0;
    assert(front + goal.take(0) =~= front);
    while index < stems.len()
        invariant
            index <= stems@.len(),
            goal == stem_trees(all_named(stems@)),
            trees(document@) == front + goal.take(index as int),
        decreases stems@.len() - index,
    {
        attach(document, stem_node(&stems[index]));
        assert(front + goal.take(index + 1) =~= (front + goal.take(index as int)).push(
            stem_tree(stems@[index as int]@),
        ));
        index = index + 1;
    }
    assert(goal.take(index as int) =~= goal);
}

/// Appends the lines of the bank.
fn add_samples(document: &mut Vec<Node>, samples: &Vec<SampleEntry>)
    ensures
        trees(final(document)@) == trees(old(document)@) + sample_trees(all_cut(samples@)),
{
    let ghost front = trees(document@);
    let ghost goal = sample_trees(all_cut(samples@));
    let mut index: usize = 0;
    assert(front + goal.take(0) =~= front);
    while index < samples.len()
        invariant
            index <= samples@.len(),
            goal == sample_trees(all_cut(samples@)),
            trees(document@) == front + goal.take(index as int),
        decreases samples@.len() - index,
    {
        attach(document, sample_node(&samples[index]));
        assert(front + goal.take(index + 1) =~= (front + goal.take(index as int)).push(
            sample_tree(samples@[index as int]@),
        ));
        index = index + 1;
    }
    assert(goal.take(index as int) =~= goal);
}

/// Appends the lines of the placements.
fn add_placements(document: &mut Vec<Node>, placements: &Vec<Placement>)
    ensures
        trees(final(document)@) == trees(old(document)@) + placement_trees(placements@),
{
    let ghost front = trees(document@);
    let ghost goal = placement_trees(placements@);
    let mut index: usize = 0;
    assert(front + goal.take(0) =~= front);
    while index < placements.len()
        invariant
            index <= placements@.len(),
            goal == placement_trees(placements@),
            trees(document@) == front + goal.take(index as int),
        decreases placements@.len() - index,
    {
        attach(document, placement_node(&placements[index]));
        assert(front + goal.take(index + 1) =~= (front + goal.take(index as int)).push(
            placement_tree(placements@[index as int]),
        ));
        index = index + 1;
    }
    assert(goal.take(index as int) =~= goal);
}

/// Appends the lines of the notes.
fn add_notes(document: &mut Vec<Node>, notes: &Vec<Note>)
    ensures
        trees(final(document)@) == trees(old(document)@) + note_trees(all_played(notes@)),
{
    let ghost front = trees(document@);
    let ghost goal = note_trees(all_played(notes@));
    let mut index: usize = 0;
    assert(front + goal.take(0) =~= front);
    while index < notes.len()
        invariant
            index <= notes@.len(),
            goal == note_trees(all_played(notes@)),
            trees(document@) == front + goal.take(index as int),
        decreases notes@.len() - index,
    {
        attach(document, note_node(&notes[index]));
        assert(front + goal.take(index + 1) =~= (front + goal.take(index as int)).push(
            note_tree(notes@[index as int]@),
        ));
        index = index + 1;
    }
    assert(goal.take(index as int) =~= goal);
}

impl Manifest {
    /// The manifest as a Links Notation document.
    pub fn to_document(&self) -> (document: Document)
        ensures
            trees(document@) == document_of(self@),
    {
        let mut document: Vec<Node> = Vec::new();
        attach(&mut document, version_node());
        attach(&mut document, source_node(&self.source));
        assert(trees(document@) =~= seq![version_tree(), source_tree(self.source@)]);
        add_stems(&mut document, &self.stems);
        add_samples(&mut document, &self.samples);
        add_placements(&mut document, &self.placements);
        add_notes(&mut document, &self.notes);
        let ghost front = trees(document@);
        attach(&mut document, file_node("residual", self.residual.as_str()));
        assert(trees(document@) =~= front + seq![residual_tree(self.residual@)]);
        match &self.correction {
            Some(correction) => attach(
                &mut document,
                file_node("correction", correction.as_str()),
            ),
            None => {},
        }
        assert(trees(document@) =~= document_of(self@));
        document
    }
}

/// The complaint about a text that is no number of its kind.
pub open spec fn not_valid(value: Seq<char>, what: Seq<char>) -> Fault {
    Fault::Format("`"@ + value + "` is not a valid "@ + what)
}

/// Builds the complaint about a text that is no number of its kind.
fn invalid(value: &str, what: &str) -> (error: Error)
    ensures
        error@ == not_valid(value@, what@),
{
    let mut message = "`".to_string();
    message.append(value);
    message.append("` is not a valid ");
    message.append(what);
    Error::Format(message)
}

/// The nth value of an entry, as text.
pub open spec fn field_of(values: Seq<Tree>, index: int, what: Seq<char>) -> Result<
    Seq<char>,
    Fault,
> {
    if index < values.len() {
        match values[index] {
            Tree::Ref(value) => Ok(value),
            other => Err(
                Fault::Format("expected "@ + what + ", found `"@ + written(other) + "`"@),
            ),
        }
    } else {
        Err(Fault::Format("missing "@ + what))
    }
}

/// The nth value of an entry, as text.
fn field<'a>(values: &'a Vec<Node>, index: usize, what: &str) -> (result: Result<&'a str, Error>)
    ensures
        match field_of(trees(values@), index as int, what@) {
            Ok(expected) => result matches Ok(text) && text@ == expected,
            Err(fault) => result matches Err(error) && error@ == fault,
        },
{
    proof {
        lemma_trees(values@);
    }
    if index < values.len() {
        let node = &values[index];
        assert(trees(values@)[index as int] == tree(*node));
        match node {
            Node::Ref(value) => Ok(value.as_str()),
            Node::Link { id: _, values: _ } => {
                let mut message = "expected ".to_string();
                message.append(what);
                message.append(", found `");
                message.append(node_text(node).as_str());
                message.append("`");
                Err(Error::Format(message))
            },
        }
    } else {
        let mut message = "missing ".to_string();
        message.append(what);
        Err(Error::Format(message))
    }
}

/// The value of a node, if it is a `(key value)` node for a key.
pub open spec fn hit(node: Tree, key: Seq<char>) -> Option<Seq<char>> {
    match node {
        Tree::Link(None, values) => if values.len() >= 2 {
            match (values[0], values[1]) {
                (Tree::Ref(name), Tree::Ref(value)) => if name == key {
                    Some(value)
                } else {
                    None
                },
                _ => None,
            }
        } else {
            None
        },
        _ => None,
    }
}

/// The value of the first `(key value)` node for a key.
pub open spec fn lookup_of(values: Seq<Tree>, key: Seq<char>) -> Option<Seq<char>>
    decreases values.len(),
{
    if values.len() == 0 {
        None
    } else {
        match hit(values[0], key) {
            Some(value) => Some(value),
            None => lookup_of(values.skip(1), key),
        }
    }
}

/// The value of a node, if it is a `(key value)` node for a key.
fn hit_by<'a>(node: &'a Node, key: &str) -> (value: Option<&'a str>)
    ensures
        match hit(tree(*node), key@) {
            Some(expected) => value matches Some(text) && text@ == expected,
            None => value is None,
        },
{
    match node {
        Node::Link { id: None, values } => {
            proof {
                lemma_trees(values@);
            }
            if values.len() < 2 {
                return None;
            }
            assert(trees(values@)[0] == tree(values@[0]));
            assert(trees(values@)[1] == tree(values@[1]));
            match (&values[0], &values[1]) {
                (Node::Ref(name), Node::Ref(value)) => if same(name.as_str(), key) {
                    Some(value.as_str())
                } else {
                    None
                },
                _ => None,
            }
        },
        _ => None,
    }
}

/// The value of a `(key value)` node inside an entry.
fn lookup<'a>(values: &'a Vec<Node>, key: &str) -> (value: Option<&'a str>)
    ensures
        match lookup_of(trees(values@), key@) {
            Some(expected) => value matches Some(text) && text@ == expected,
            None => value is None,
        },
{
    let ghost all = trees(values@);
    let mut index: usize = 0;
    proof {
        lemma_trees(values@);
        assert(all.skip(0) =~= all);
    }
    while index < values.len()
        invariant
            index <= values@.len(),
            all == trees(values@),
            all.len() == values@.len(),
            forall|i: int| 0 <= i < values@.len() ==> #[trigger] all[i] == tree(values@[i]),
            lookup_of(all, key@) == lookup_of(all.skip(index as int), key@),
        decreases values@.len() - index,
    {
        proof {
            assert(all.skip(index as int)[0] == all[index as int]);
            assert(all.skip(index as int).skip(1) =~= all.skip(index + 1));
        }
        match hit_by(&values[index], key) {
            Some(value) => return Some(value),
            None => {},
        }
        index = index + 1;
    }
    None
}

/// A required `(key value)` node.
pub open spec fn required_of(values: Seq<Tree>, key: Seq<char>) -> Result<Seq<char>, Fault> {
    match lookup_of(values, key) {
        Some(value) => Ok(value),
        None => Err(Fault::Format("missing `"@ + key + "`"@)),
    }
}

/// A required `(key value)` node.
fn required<'a>(values: &'a Vec<Node>, key: &str) -> (result: Result<&'a str, Error>)
    ensures
        match required_of(trees(values@), key@) {
            Ok(expected) => result matches Ok(text) && text@ == expected,
            Err(fault) => result matches Err(error) && error@ == fault,
        },
{
    match lookup(values, key) {
        Some(value) => Ok(value),
        None => {
            let mut message = "missing `".to_string();
            message.append(key);
            message.append("`");
            Err(Error::Format(message))
        },
    }
}

/// An unsigned field.
pub open spec fn count_of(value: Result<Seq<char>, Fault>, limit: nat, what: Seq<char>) -> Result<
    nat,
    Fault,
> {
    match value {
        Err(fault) => Err(fault),
        Ok(text) => match unsigned_value(text, limit) {
            Some(number) => Ok(number),
            None => Err(not_valid(text, what)),
        },
    }
}

/// Reads an unsigned field.
fn count(value: Result<&str, Error>, limit: u64, what: &str) -> (result: Result<u64, Error>)
    ensures
        match value {
            Err(error) => result == Err::<u64, Error>(error),
            Ok(text) => match unsigned_value(text@, limit as nat) {
                Some(number) => result == Ok::<u64, Error>(number as u64) && number <= limit,
                None => result matches Err(error) && error@ == not_valid(text@, what@),
            },
        },
{
    match value {
        Err(error) => Err(error),
        Ok(text) => match parse_unsigned(text, limit) {
            Some(number) => Ok(number),
            None => Err(invalid(text, what)),
        },
    }
}

/// A signed field.
pub open spec fn offset_of(value: Result<Seq<char>, Fault>, what: Seq<char>) -> Result<int, Fault> {
    match value {
        Err(fault) => Err(fault),
        Ok(text) => match signed_value(text) {
            Some(number) => Ok(number),
            None => Err(not_valid(text, what)),
        },
    }
}

/// Reads a signed field.
fn offset(value: Result<&str, Error>, what: &str) -> (result: Result<i64, Error>)
    ensures
        match value {
            Err(error) => result == Err::<i64, Error>(error),
            Ok(text) => match signed_value(text@) {
                Some(number) => result matches Ok(found) && found == number,
                None => result matches Err(error) && error@ == not_valid(text@, what@),
            },
        },
{
    match value {
        Err(error) => Err(error),
        Ok(text) => match parse_signed(text) {
            Some(number) => Ok(number),
            None => Err(invalid(text, what)),
        },
    }
}

/// A field that holds a number of any size.
pub open spec fn numeral_of(value: Result<Seq<char>, Fault>, what: Seq<char>) -> Result<
    Seq<char>,
    Fault,
> {
    match value {
        Err(fault) => Err(fault),
        Ok(text) => if is_numeral(text) {
            Ok(text)
        } else {
            Err(not_valid(text, what))
        },
    }
}

/// Reads a field that holds a number of any size.
fn numeral(value: Result<&str, Error>, what: &str) -> (result: Result<Number, Error>)
    ensures
        match value {
            Err(error) => result == Err::<Number, Error>(error),
            Ok(text) => if is_numeral(text@) {
                result matches Ok(number) && number.wf() && number@ == text@
            } else {
                result matches Err(error) && error@ == not_valid(text@, what@)
            },
        },
{
    match value {
        Err(error) => Err(error),
        Ok(text) => match Number::parse(text) {
            Some(number) => Ok(number),
            None => Err(invalid(text, what)),
        },
    }
}

/// A field that holds an encoded text.
pub open spec fn name_of_field(value: Result<Seq<char>, Fault>) -> Result<Seq<char>, Fault> {
    match value {
        Err(fault) => Err(fault),
        Ok(text) => decoded(text),
    }
}

/// Reads a field that holds an encoded text.
fn name_field(value: Result<&str, Error>) -> (result: Result<String, Error>)
    ensures
        match value {
            Err(error) => result == Err::<String, Error>(error),
            Ok(text) => match decoded(text@) {
                Ok(expected) => result matches Ok(name) && name@ == expected,
                Err(fault) => result matches Err(error) && error@ == fault,
            },
        },
{
    match value {
        Err(error) => Err(error),
        Ok(text) => decode(text),
    }
}

/// The version that an entry names.
pub open spec fn version_of(values: Seq<Tree>) -> Result<Seq<char>, Fault> {
    match field_of(values, 0, "the version key"@) {
        Err(fault) => Err(fault),
        Ok(key) => if key != "version"@ {
            Err(Fault::Format("expected `version`, found `"@ + key + "`"@))
        } else {
            field_of(values, 1, "the version"@)
        },
    }
}

/// Reads the version that an entry names.
fn read_version(values: &Vec<Node>) -> (result: Result<String, Error>)
    ensures
        match version_of(trees(values@)) {
            Ok(expected) => result matches Ok(version) && version@ == expected,
            Err(fault) => result matches Err(error) && error@ == fault,
        },
{
    let key = match field(values, 0, "the version key") {
        Ok(key) => key,
        Err(error) => return Err(error),
    };
    if !same(key, "version") {
        let mut message = "expected `version`, found `".to_string();
        message.append(key);
        message.append("`");
        return Err(Error::Format(message));
    }
    match field(values, 1, "the version") {
        Ok(version) => Ok(version.to_string()),
        Err(error) => Err(error),
    }
}

/// The format that a field names.
pub open spec fn format_of(value: Result<Seq<char>, Fault>) -> Result<SampleFormat, Fault> {
    match value {
        Err(fault) => Err(fault),
        Ok(name) => match SampleFormat::spec_parse(name) {
            Some(format) => Ok(format),
            None => Err(Fault::InvalidArgument("unknown sample format `"@ + name + "`"@)),
        },
    }
}

/// The source that an entry describes.
pub open spec fn source_of(values: Seq<Tree>) -> Result<Origin, Fault> {
    match name_of_field(required_of(values, "name"@)) {
        Err(fault) => Err(fault),
        Ok(name) => match count_of(
            required_of(values, "sample-rate"@),
            u32::MAX as nat,
            "sample rate"@,
        ) {
            Err(fault) => Err(fault),
            Ok(sample_rate) => match format_of(required_of(values, "format"@)) {
                Err(fault) => Err(fault),
                Ok(format) => match count_of(
                    required_of(values, "channels"@),
                    usize::MAX as nat,
                    "channel count"@,
                ) {
                    Err(fault) => Err(fault),
                    Ok(channels) => match count_of(
                        required_of(values, "frames"@),
                        usize::MAX as nat,
                        "frame count"@,
                    ) {
                        Err(fault) => Err(fault),
                        Ok(frames) => Ok(
                            Origin {
                                name,
                                sample_rate: sample_rate as u32,
                                format,
                                channels: channels as usize,
                                frames: frames as usize,
                            },
                        ),
                    },
                },
            },
        },
    }
}

/// Reads the source that an entry describes.
fn read_source(values: &Vec<Node>) -> (result: Result<SourceInfo, Error>)
    ensures
        match source_of(trees(values@)) {
            Ok(expected) => result matches Ok(source) && source@ == expected,
            Err(fault) => result matches Err(error) && error@ == fault,
        },
{
    let name = match name_field(required(values, "name")) {
        Ok(name) => name,
        Err(error) => return Err(error),
    };
    let sample_rate: u64 = match count(
        required(values, "sample-rate"),
        u32::MAX as u64,
        "sample rate",
    ) {
        Ok(number) => number,
        Err(error) => return Err(error),
    };
    let format = match required(values, "format") {
        Ok(text) => match SampleFormat::parse(text) {
            Ok(format) => format,
            Err(error) => return Err(error),
        },
        Err(error) => return Err(error),
    };
    let channels: u64 = match count(
        required(values, "channels"),
        usize::MAX as u64,
        "channel count",
    ) {
        Ok(number) => number,
        Err(error) => return Err(error),
    };
    let frames: u64 = match count(required(values, "frames"), usize::MAX as u64, "frame count") {
        Ok(number) => number,
        Err(error) => return Err(error),
    };
    Ok(
        SourceInfo {
            name,
            sample_rate: sample_rate as u32,
            format,
            channels: channels as usize,
            frames: frames as usize,
        },
    )
}

/// The stem that an entry describes.
pub open spec fn stem_of(values: Seq<Tree>) -> Result<Named, Fault> {
    match name_of_field(field_of(values, 0, "a stem name"@)) {
        Err(fault) => Err(fault),
        Ok(name) => match name_of_field(field_of(values, 1, "a stem file"@)) {
            Err(fault) => Err(fault),
            Ok(file) => Ok(Named { name, file }),
        },
    }
}

/// Reads the stem that an entry describes.
fn read_stem(values: &Vec<Node>) -> (result: Result<Entry, Error>)
    ensures
        match stem_of(trees(values@)) {
            Ok(expected) => result matches Ok(stem) && stem@ == expected,
            Err(fault) => result matches Err(error) && error@ == fault,
        },
{
    let name = match name_field(field(values, 0, "a stem name")) {
        Ok(name) => name,
        Err(error) => return Err(error),
    };
    let file = match name_field(field(values, 1, "a stem file")) {
        Ok(file) => file,
        Err(error) => return Err(error),
    };
    Ok(Entry { name, file })
}

/// The note of a bank sample, if an entry names one.
pub open spec fn sample_note_of(values: Seq<Tree>) -> Result<Option<u8>, Fault> {
    match lookup_of(values, "note"@) {
        None => Ok(None),
        Some(text) => match unsigned_value(text, 255) {
            Some(number) => Ok(Some(number as u8)),
            None => Err(not_valid(text, "note number"@)),
        },
    }
}

/// The frequency of a bank sample, if an entry names one.
pub open spec fn sample_frequency_of(values: Seq<Tree>) -> Result<Option<Seq<char>>, Fault> {
    match lookup_of(values, "frequency"@) {
        None => Ok(None),
        Some(text) => if is_numeral(text) {
            Ok(Some(text))
        } else {
            Err(not_valid(text, "frequency"@))
        },
    }
}

/// The bank sample that an entry describes.
pub open spec fn sample_of(values: Seq<Tree>) -> Result<Cutting, Fault> {
    match count_of(field_of(values, 0, "a sample id"@), usize::MAX as nat, "sample id"@) {
        Err(fault) => Err(fault),
        Ok(id) => match name_of_field(field_of(values, 1, "a sample name"@)) {
            Err(fault) => Err(fault),
            Ok(name) => match name_of_field(field_of(values, 2, "a sample file"@)) {
                Err(fault) => Err(fault),
                Ok(file) => match count_of(
                    required_of(values, "frames"@),
                    usize::MAX as nat,
                    "frame count"@,
                ) {
                    Err(fault) => Err(fault),
                    Ok(frames) => match numeral_of(required_of(values, "peak"@), "peak"@) {
                        Err(fault) => Err(fault),
                        Ok(peak) => match sample_note_of(values) {
                            Err(fault) => Err(fault),
                            Ok(note) => match sample_frequency_of(values) {
                                Err(fault) => Err(fault),
                                Ok(frequency) => Ok(
                                    Cutting {
                                        id: id as usize,
                                        name,
                                        file,
                                        frames: frames as usize,
                                        peak,
                                        note,
                                        frequency,
                                    },
                                ),
                            },
                        },
                    },
                },
            },
        },
    }
}

/// Whether the numbers of a bank sample are numbers.
pub open spec fn cut_well(sample: Cutting) -> bool {
    &&& is_numeral(sample.peak)
    &&& sample.frequency matches Some(frequency) ==> is_numeral(frequency)
}

/// Reads the bank sample that an entry describes.
fn read_sample(values: &Vec<Node>) -> (result: Result<SampleEntry, Error>)
    ensures
        match sample_of(trees(values@)) {
            Ok(expected) => result matches Ok(sample) && sample@ == expected,
            Err(fault) => result matches Err(error) && error@ == fault,
        },
{
    let id: u64 = match count(field(values, 0, "a sample id"), usize::MAX as u64, "sample id") {
        Ok(number) => number,
        Err(error) => return Err(error),
    };
    let name = match name_field(field(values, 1, "a sample name")) {
        Ok(name) => name,
        Err(error) => return Err(error),
    };
    let file = match name_field(field(values, 2, "a sample file")) {
        Ok(file) => file,
        Err(error) => return Err(error),
    };
    let frames: u64 = match count(required(values, "frames"), usize::MAX as u64, "frame count") {
        Ok(number) => number,
        Err(error) => return Err(error),
    };
    let peak = match numeral(required(values, "peak"), "peak") {
        Ok(number) => number,
        Err(error) => return Err(error),
    };
    let note: Option<u8> = match lookup(values, "note") {
        None => None,
        Some(text) => match parse_unsigned(text, 255) {
            Some(number) => Some(number as u8),
            None => return Err(invalid(text, "note number")),
        },
    };
    let frequency: Option<Number> = match lookup(values, "frequency") {
        None => None,
        Some(text) => match Number::parse(text) {
            Some(number) => Some(number),
            None => return Err(invalid(text, "frequency")),
        },
    };
    Ok(SampleEntry { id: id as usize, name, file, frames: frames as usize, peak, note, frequency })
}

/// The placement that an entry describes.
pub open spec fn placement_of(values: Seq<Tree>) -> Result<Placement, Fault> {
    match count_of(field_of(values, 0, "a placement sample"@), usize::MAX as nat, "sample id"@) {
        Err(fault) => Err(fault),
        Ok(sample) => match count_of(
            field_of(values, 1, "a placement channel"@),
            usize::MAX as nat,
            "channel"@,
        ) {
            Err(fault) => Err(fault),
            Ok(channel) => match offset_of(
                field_of(values, 2, "a placement start"@),
                "start frame"@,
            ) {
                Err(fault) => Err(fault),
                Ok(start) => match offset_of(field_of(values, 3, "a placement gain"@), "gain"@) {
                    Err(fault) => Err(fault),
                    Ok(gain) => Ok(
                        Placement {
                            sample: sample as usize,
                            channel: channel as usize,
                            start: start as i64,
                            gain: Gain::over(gain as i64),
                        },
                    ),
                },
            },
        },
    }
}

/// Reads the placement that an entry describes.
fn read_placement(values: &Vec<Node>) -> (result: Result<Placement, Error>)
    ensures
        match placement_of(trees(values@)) {
            Ok(expected) => result == Ok::<Placement, Error>(expected),
            Err(fault) => result matches Err(error) && error@ == fault,
        },
{
    let sample: u64 = match count(
        field(values, 0, "a placement sample"),
        usize::MAX as u64,
        "sample id",
    ) {
        Ok(number) => number,
        Err(error) => return Err(error),
    };
    let channel: u64 = match count(
        field(values, 1, "a placement channel"),
        usize::MAX as u64,
        "channel",
    ) {
        Ok(number) => number,
        Err(error) => return Err(error),
    };
    let start: i64 = match offset(field(values, 2, "a placement start"), "start frame") {
        Ok(number) => number,
        Err(error) => return Err(error),
    };
    let gain: i64 = match offset(field(values, 3, "a placement gain"), "gain") {
        Ok(number) => number,
        Err(error) => return Err(error),
    };
    Ok(Placement::new(sample as usize, channel as usize, start, Gain::from_numerator(gain)))
}

/// Where and how the note that an entry describes is played.
pub open spec fn note_place_of(values: Seq<Tree>) -> Result<(usize, usize, usize, u8, u8), Fault> {
    match count_of(field_of(values, 0, "a note channel"@), usize::MAX as nat, "channel"@) {
        Err(fault) => Err(fault),
        Ok(channel) => match count_of(
            field_of(values, 1, "a note start"@),
            usize::MAX as nat,
            "start frame"@,
        ) {
            Err(fault) => Err(fault),
            Ok(start) => match count_of(
                field_of(values, 2, "a note length"@),
                usize::MAX as nat,
                "length"@,
            ) {
                Err(fault) => Err(fault),
                Ok(length) => match count_of(
                    field_of(values, 3, "a note number"@),
                    255,
                    "note number"@,
                ) {
                    Err(fault) => Err(fault),
                    Ok(note) => match count_of(
                        field_of(values, 4, "a note velocity"@),
                        255,
                        "velocity"@,
                    ) {
                        Err(fault) => Err(fault),
                        Ok(velocity) => Ok(
                            (
                                channel as usize,
                                start as usize,
                                length as usize,
                                note as u8,
                                velocity as u8,
                            ),
                        ),
                    },
                },
            },
        },
    }
}

/// The note that an entry describes.
pub open spec fn note_of(values: Seq<Tree>) -> Result<Played, Fault> {
    match note_place_of(values) {
        Err(fault) => Err(fault),
        Ok(place) => match numeral_of(field_of(values, 5, "a note frequency"@), "frequency"@) {
            Err(fault) => Err(fault),
            Ok(frequency) => match numeral_of(
                field_of(values, 6, "a note confidence"@),
                "confidence"@,
            ) {
                Err(fault) => Err(fault),
                Ok(confidence) => Ok(
                    Played {
                        channel: place.0,
                        start: place.1,
                        length: place.2,
                        note: place.3,
                        velocity: place.4,
                        frequency,
                        confidence,
                    },
                ),
            },
        },
    }
}

/// Reads where and how the note that an entry describes is played.
fn read_note_place(values: &Vec<Node>) -> (result: Result<(usize, usize, usize, u8, u8), Error>)
    ensures
        match note_place_of(trees(values@)) {
            Ok(expected) => result matches Ok(place) && place == expected,
            Err(fault) => result matches Err(error) && error@ == fault,
        },
{
    let channel: u64 = match count(field(values, 0, "a note channel"), usize::MAX as u64, "channel") {
        Ok(number) => number,
        Err(error) => return Err(error),
    };
    let start: u64 = match count(field(values, 1, "a note start"), usize::MAX as u64, "start frame") {
        Ok(number) => number,
        Err(error) => return Err(error),
    };
    let length: u64 = match count(field(values, 2, "a note length"), usize::MAX as u64, "length") {
        Ok(number) => number,
        Err(error) => return Err(error),
    };
    let note: u64 = match count(field(values, 3, "a note number"), 255, "note number") {
        Ok(number) => number,
        Err(error) => return Err(error),
    };
    let velocity: u64 = match count(field(values, 4, "a note velocity"), 255, "velocity") {
        Ok(number) => number,
        Err(error) => return Err(error),
    };
    Ok((channel as usize, start as usize, length as usize, note as u8, velocity as u8))
}

/// Reads the note that an entry describes.
fn read_note(values: &Vec<Node>) -> (result: Result<Note, Error>)
    ensures
        match note_of(trees(values@)) {
            Ok(expected) => result matches Ok(note) && note@ == expected && note.wf(),
            Err(fault) => result matches Err(error) && error@ == fault,
        },
{
    let place: (usize, usize, usize, u8, u8) = match read_note_place(values) {
        Ok(place) => place,
        Err(error) => return Err(error),
    };
    let frequency = match numeral(field(values, 5, "a note frequency"), "frequency") {
        Ok(number) => number,
        Err(error) => return Err(error),
    };
    let confidence = match numeral(field(values, 6, "a note confidence"), "confidence") {
        Ok(number) => number,
        Err(error) => return Err(error),
    };
    Ok(
        Note {
            channel: place.0,
            start: place.1,
            length: place.2,
            note: place.3,
            velocity: place.4,
            frequency,
            confidence,
        },
    )
}

/// What was read of a manifest so far.
struct Draft {
    version: Option<String>,
    source: Option<SourceInfo>,
    stems: Vec<Entry>,
    samples: Vec<SampleEntry>,
    placements: Vec<Placement>,
    notes: Vec<Note>,
    residual: String,
    correction: Option<String>,
}

/// What was read of a manifest so far.
#[verifier::ext_equal]
pub struct Sketch {
    /// The version.
    pub version: Option<Seq<char>>,
    /// Where the recording came from.
    pub source: Option<Origin>,
    /// The stems.
    pub stems: Seq<Named>,
    /// The bank.
    pub samples: Seq<Cutting>,
    /// Where the bank samples are used.
    pub placements: Seq<Placement>,
    /// The recognised notes.
    pub notes: Seq<Played>,
    /// File holding the residual.
    pub residual: Seq<char>,
    /// File holding the correction.
    pub correction: Option<Seq<char>>,
}

impl View for Draft {
    type V = Sketch;

    closed spec fn view(&self) -> Sketch {
        Sketch {
            version: text_of(self.version),
            source: match self.source {
                Some(source) => Some(source@),
                None => None,
            },
            stems: all_named(self.stems@),
            samples: all_cut(self.samples@),
            placements: self.placements@,
            notes: all_played(self.notes@),
            residual: self.residual@,
            correction: text_of(self.correction),
        }
    }
}

/// Nothing read yet. A manifest that does not name its residual has it in the
/// conventional file.
pub open spec fn blank() -> Sketch {
    Sketch {
        version: None,
        source: None,
        stems: Seq::empty(),
        samples: Seq::empty(),
        placements: Seq::empty(),
        notes: Seq::empty(),
        residual: "residual.wav"@,
        correction: None,
    }
}

/// What is read with one more entry.
pub open spec fn with_entry(sketch: Sketch, id: Seq<char>, values: Seq<Tree>) -> Result<
    Sketch,
    Fault,
> {
    if id == "decomposition"@ {
        match version_of(values) {
            Ok(version) => Ok(Sketch { version: Some(version), ..sketch }),
            Err(fault) => Err(fault),
        }
    } else if id == "source"@ {
        match source_of(values) {
            Ok(source) => Ok(Sketch { source: Some(source), ..sketch }),
            Err(fault) => Err(fault),
        }
    } else if id == "stem"@ {
        match stem_of(values) {
            Ok(stem) => Ok(Sketch { stems: sketch.stems.push(stem), ..sketch }),
            Err(fault) => Err(fault),
        }
    } else if id == "sample"@ {
        match sample_of(values) {
            Ok(sample) => Ok(Sketch { samples: sketch.samples.push(sample), ..sketch }),
            Err(fault) => Err(fault),
        }
    } else if id == "placement"@ {
        match placement_of(values) {
            Ok(placement) => Ok(
                Sketch { placements: sketch.placements.push(placement), ..sketch },
            ),
            Err(fault) => Err(fault),
        }
    } else if id == "note"@ {
        match note_of(values) {
            Ok(note) => Ok(Sketch { notes: sketch.notes.push(note), ..sketch }),
            Err(fault) => Err(fault),
        }
    } else if id == "residual"@ {
        match name_of_field(field_of(values, 0, "the residual file"@)) {
            Ok(residual) => Ok(Sketch { residual, ..sketch }),
            Err(fault) => Err(fault),
        }
    } else if id == "correction"@ {
        match name_of_field(field_of(values, 0, "the correction file"@)) {
            Ok(correction) => Ok(Sketch { correction: Some(correction), ..sketch }),
            Err(fault) => Err(fault),
        }
    } else {
        Err(Fault::Format("unknown manifest entry `"@ + id + "`"@))
    }
}

/// What is read with one more line.
pub open spec fn with_line(sketch: Sketch, node: Tree) -> Result<Sketch, Fault> {
    match node {
        Tree::Link(Some(id), values) => with_entry(sketch, id, values),
        other => Err(
            Fault::Format("expected a named manifest entry, found `"@ + written(other) + "`"@),
        ),
    }
}

/// What is read of several lines.
#[verifier::opaque]
pub open spec fn sketched(document: Seq<Tree>) -> Result<Sketch, Fault>
    decreases document.len(),
{
    if document.len() == 0 {
        Ok(blank())
    } else {
        match sketched(document.drop_last()) {
            Ok(sketch) => with_line(sketch, document.last()),
            Err(fault) => Err(fault),
        }
    }
}

/// The manifest that was read, if it is whole.
pub open spec fn finished(sketch: Sketch) -> Result<Inventory, Fault> {
    match sketch.version {
        None => Err(Fault::Format("manifest has no version"@)),
        Some(version) => if version != "1"@ {
            Err(
                Fault::Format(
                    "manifest version `"@ + version + "` is not supported, expected `"@ + "1"@
                        + "`"@,
                ),
            )
        } else {
            match sketch.source {
                None => Err(Fault::Format("manifest has no source"@)),
                Some(source) => Ok(
                    Inventory {
                        source,
                        stems: sketch.stems,
                        samples: sketch.samples,
                        placements: sketch.placements,
                        notes: sketch.notes,
                        residual: sketch.residual,
                        correction: sketch.correction,
                    },
                ),
            }
        },
    }
}

/// The manifest that a document holds.
pub open spec fn inventory_of(document: Seq<Tree>) -> Result<Inventory, Fault> {
    match sketched(document) {
        Ok(sketch) => finished(sketch),
        Err(fault) => Err(fault),
    }
}

/// Takes one more entry in.
fn read_entry(draft: Draft, id: &str, values: &Vec<Node>) -> (result: Result<Draft, Error>)
    ensures
        match with_entry(draft@, id@, trees(values@)) {
            Ok(expected) => result matches Ok(next) && next@ == expected,
            Err(fault) => result matches Err(error) && error@ == fault,
        },
{
    let ghost before = draft;
    let mut next = draft;
    if same(id, "decomposition") {
        match read_version(values) {
            Ok(version) => {
                next.version = Some(version);
            },
            Err(error) => return Err(error),
        }
    } else if same(id, "source") {
        match read_source(values) {
            Ok(source) => {
                next.source = Some(source);
            },
            Err(error) => return Err(error),
        }
    } else if same(id, "stem") {
        match read_stem(values) {
            Ok(stem) => {
                next.stems.push(stem);
                assert(next@.stems =~= before@.stems.push(stem@));
            },
            Err(error) => return Err(error),
        }
    } else if same(id, "sample") {
        match read_sample(values) {
            Ok(sample) => {
                next.samples.push(sample);
                assert(next@.samples =~= before@.samples.push(sample@));
            },
            Err(error) => return Err(error),
        }
    } else if same(id, "placement") {
        match read_placement(values) {
            Ok(placement) => {
                next.placements.push(placement);
            },
            Err(error) => return Err(error),
        }
    } else if same(id, "note") {
        match read_note(values) {
            Ok(note) => {
                next.notes.push(note);
                assert(next@.notes =~= before@.notes.push(note@));
            },
            Err(error) => return Err(error),
        }
    } else if same(id, "residual") {
        match name_field(field(values, 0, "the residual file")) {
            Ok(residual) => {
                next.residual = residual;
            },
            Err(error) => return Err(error),
        }
    } else if same(id, "correction") {
        match name_field(field(values, 0, "the correction file")) {
            Ok(correction) => {
                next.correction = Some(correction);
            },
            Err(error) => return Err(error),
        }
    } else {
        let mut message = "unknown manifest entry `".to_string();
        message.append(id);
        message.append("`");
        return Err(Error::Format(message));
    }
    assert(next@ =~= with_entry(before@, id@, trees(values@))->Ok_0);
    Ok(next)
}

/// Takes one more line in.
fn read_line(draft: Draft, node: &Node) -> (result: Result<Draft, Error>)
    ensures
        match with_line(draft@, tree(*node)) {
            Ok(expected) => result matches Ok(next) && next@ == expected,
            Err(fault) => result matches Err(error) && error@ == fault,
        },
{
    match node {
        Node::Link { id: Some(id), values } => read_entry(draft, id.as_str(), values),
        _ => {
            let mut message = "expected a named manifest entry, found `".to_string();
            message.append(node_text(node).as_str());
            message.append("`");
            Err(Error::Format(message))
        },
    }
}

/// The first fault of several lines is the fault of them all.
proof fn lemma_first_fault(document: Seq<Tree>, count: int)
    requires
        0 <= count <= document.len(),
        sketched(document.take(count)) is Err,
    ensures
        sketched(document) == sketched(document.take(count)),
    decreases document.len() - count,
{
    reveal(sketched);
    if count < document.len() {
        assert(document.take(count + 1).drop_last() =~= document.take(count));
        lemma_first_fault(document, count + 1);
    } else {
        assert(document.take(count) =~= document);
    }
}

/// Makes a manifest of what was read.
fn finish(draft: Draft) -> (result: Result<Manifest, Error>)
    ensures
        match finished(draft@) {
            Ok(expected) => result matches Ok(manifest) && manifest@ == expected,
            Err(fault) => result matches Err(error) && error@ == fault,
        },
{
    match draft.version {
        None => return Err(Error::Format("manifest has no version".to_string())),
        Some(version) => {
            if !same(version.as_str(), "1") {
                let mut message = "manifest version `".to_string();
                message.append(version.as_str());
                message.append("` is not supported, expected `");
                message.append("1");
                message.append("`");
                return Err(Error::Format(message));
            }
        },
    }
    match draft.source {
        None => Err(Error::Format("manifest has no source".to_string())),
        Some(source) => Ok(
            Manifest {
                source,
                stems: draft.stems,
                samples: draft.samples,
                placements: draft.placements,
                notes: draft.notes,
                residual: draft.residual,
                correction: draft.correction,
            },
        ),
    }
}

impl Manifest {
    /// Reads a manifest back out of a Links Notation document.
    pub fn from_document(document: &Document) -> (result: Result<Self, Error>)
        ensures
            match inventory_of(trees(document@)) {
                Ok(expected) => result matches Ok(manifest) && manifest@ == expected && whole(
                    manifest@,
                ),
                Err(fault) => result matches Err(error) && error@ == fault,
            },
    {
        let ghost lines = trees(document@);
        let mut draft = Draft {
            version: None,
            source: None,
            stems: Vec::new(),
            samples: Vec::new(),
            placements: Vec::new(),
            notes: Vec::new(),
            residual: "residual.wav".to_string(),
            correction: None,
        };
        let mut index: usize = 0;
        proof {
            reveal(sketched);
            lemma_trees(document@);
            assert(draft@ =~= blank());
            assert(lines.take(0) =~= Seq::<Tree>::empty());
        }
        while index < document.len()
            invariant
                index <= document@.len(),
                lines == trees(document@),
                lines.len() == document@.len(),
                forall|i: int| 0 <= i < document@.len() ==> #[trigger] lines[i] == tree(
                    document@[i],
                ),
                sketched(lines.take(index as int)) == Ok::<Sketch, Fault>(draft@),
            decreases document@.len() - index,
        {
            proof {
                reveal(sketched);
                assert(lines.take(index + 1).drop_last() =~= lines.take(index as int));
                assert(lines.take(index + 1).last() == lines[index as int]);
            }
            match read_line(draft, &document[index]) {
                Ok(next) => {
                    draft = next;
                },
                Err(error) => {
                    proof {
                        lemma_first_fault(lines, index + 1);
                    }
                    return Err(error);
                },
            }
            index = index + 1;
        }
        assert(lines.take(index as int) =~= lines);
        proof {
            if inventory_of(lines) is Ok {
                law_read_manifests_are_whole(lines);
            }
        }
        finish(draft)
    }
}

/// The manifest that a text holds.
pub open spec fn inventory_in(text: Seq<char>) -> Result<Inventory, Fault> {
    match parsed(text) {
        Ok(document) => inventory_of(document),
        Err(complaint) => Err(Fault::Parse(complaint)),
    }
}

/// The manifest at an address of a network.
pub open spec fn inventory_at(network: Network, root: LinkIndex) -> Result<Inventory, Fault> {
    match document_at(network, root) {
        Ok(document) => inventory_of(document),
        Err(fault) => Err(fault),
    }
}

/// The entry of a stem.
pub open spec fn stem_entry(stem: Stem) -> Named {
    Named { name: stem.name@, file: stem_file_of(stem.name@) }
}

/// The entry of a bank sample.
pub open spec fn sample_entry(sample: Sample) -> Cutting {
    Cutting {
        id: sample.id,
        name: sample.name@,
        file: sample_file_of(sample.name@),
        frames: sample.waveform@.frames() as usize,
        peak: sample.peak@,
        note: sample.note,
        frequency: number_text(sample.frequency),
    }
}

/// The manifest of a decomposition, with the conventional file names.
pub open spec fn conventional(decomposition: Decomposition) -> Inventory {
    Inventory {
        source: decomposition.source@,
        stems: Seq::new(
            decomposition.stems@.len(),
            |i: int| stem_entry(decomposition.stems@[i]),
        ),
        samples: Seq::new(
            decomposition.samples@.len(),
            |i: int| sample_entry(decomposition.samples@[i]),
        ),
        placements: decomposition.placements@,
        notes: all_played(decomposition.notes@),
        residual: "residual.wav"@,
        correction: match decomposition.correction {
            Some(_) => Some("correction.wav"@),
            None => None,
        },
    }
}

/// Names the files of the stems.
fn stem_entries(stems: &Vec<Stem>) -> (entries: Vec<Entry>)
    ensures
        all_named(entries@) == Seq::new(stems@.len(), |i: int| stem_entry(stems@[i])),
{
    let mut entries: Vec<Entry> = Vec::new();
    let mut index: usize = 0;
    while index < stems.len()
        invariant
            index <= stems@.len(),
            entries@.len() == index,
            forall|i: int| 0 <= i < index ==> (#[trigger] entries@[i])@ == stem_entry(stems@[i]),
        decreases stems@.len() - index,
    {
        let stem = &stems[index];
        entries.push(
            Entry { name: stem.name.clone(), file: stem_file(stem.name.as_str()) },
        );
        index = index + 1;
    }
    assert(all_named(entries@) =~= Seq::new(stems@.len(), |i: int| stem_entry(stems@[i])));
    entries
}

/// Names the files of the bank.
fn sample_entries(samples: &Vec<Sample>) -> (entries: Vec<SampleEntry>)
    ensures
        all_cut(entries@) == Seq::new(samples@.len(), |i: int| sample_entry(samples@[i])),
{
    let mut entries: Vec<SampleEntry> = Vec::new();
    let mut index: usize = 0;
    while index < samples.len()
        invariant
            index <= samples@.len(),
            entries@.len() == index,
            forall|i: int|
                0 <= i < index ==> (#[trigger] entries@[i])@ == sample_entry(samples@[i]),
        decreases samples@.len() - index,
    {
        let sample = &samples[index];
        let frequency: Option<Number> = match &sample.frequency {
            Some(number) => Some(number.copy()),
            None => None,
        };
        entries.push(
            SampleEntry {
                id: sample.id,
                name: sample.name.clone(),
                file: sample_file(sample.name.as_str()),
                frames: sample.len(),
                peak: sample.peak.copy(),
                note: sample.note,
                frequency,
            },
        );
        assert(entries@[index as int]@ == sample_entry(samples@[index as int]));
        index = index + 1;
    }
    assert(all_cut(entries@) =~= Seq::new(samples@.len(), |i: int| sample_entry(samples@[i])));
    entries
}

/// The same placements once more.
pub fn copy_placements(placements: &Vec<Placement>) -> (copies: Vec<Placement>)
    ensures
        copies@ == placements@,
{
    let mut copies: Vec<Placement> = Vec::new();
    let mut index: usize = 0;
    while index < placements.len()
        invariant
            index <= placements@.len(),
            copies@ == placements@.take(index as int),
        decreases placements@.len() - index,
    {
        copies.push(placements[index]);
        assert(copies@ =~= placements@.take(index + 1));
        index = index + 1;
    }
    assert(placements@.take(index as int) =~= placements@);
    copies
}

/// The same notes once more.
pub fn copy_notes(notes: &Vec<Note>) -> (copies: Vec<Note>)
    ensures
        all_played(copies@) == all_played(notes@),
{
    let mut copies: Vec<Note> = Vec::new();
    let mut index: usize = 0;
    while index < notes.len()
        invariant
            index <= notes@.len(),
            copies@.len() == index,
            forall|i: int| 0 <= i < index ==> (#[trigger] copies@[i])@ == notes@[i]@,
        decreases notes@.len() - index,
    {
        copies.push(notes[index].copy());
        index = index + 1;
    }
    assert(all_played(copies@) =~= all_played(notes@));
    copies
}

impl Manifest {
    /// The manifest of a decomposition, with the conventional file names.
    pub fn of(decomposition: &Decomposition) -> (manifest: Self)
        ensures
            manifest@ == conventional(*decomposition),
    {
        Manifest {
            source: decomposition.source.copy(),
            stems: stem_entries(&decomposition.stems),
            samples: sample_entries(&decomposition.samples),
            placements: copy_placements(&decomposition.placements),
            notes: copy_notes(&decomposition.notes),
            residual: "residual.wav".to_string(),
            correction: match &decomposition.correction {
                Some(_) => Some("correction.wav".to_string()),
                None => None,
            },
        }
    }

    /// The manifest as Links Notation text.
    ///
    /// Reading the text gives the manifest back.
    pub fn to_lino(&self) -> (text: String)
        ensures
            text@ == formatted(document_of(self@)),
            whole(self@) ==> inventory_in(text@) == Ok::<Inventory, Fault>(self@),
    {
        let document = self.to_document();
        proof {
            if whole(self@) {
                lemma_manifest_tame(self@);
                lemma_trees(document@);
                law_manifests_survive_documents(self@);
            }
        }
        crate::associative::lino::format(&document)
    }

    /// Reads a manifest from Links Notation text.
    pub fn from_lino(text: &str) -> (result: Result<Self, Error>)
        ensures
            match inventory_in(text@) {
                Ok(expected) => result matches Ok(manifest) && manifest@ == expected && whole(
                    manifest@,
                ),
                Err(fault) => result matches Err(error) && error@ == fault,
            },
    {
        match parse(text) {
            Ok(document) => Manifest::from_document(&document),
            Err(error) => Err(error),
        }
    }

    /// Stores the manifest in a link network, returning the document root.
    pub fn store(&self, store: &mut LinkStore) -> (root: LinkIndex)
        requires
            old(store).wf(),
            old(store)@.links.len() + weights(document_of(self@)) + 2 * document_of(self@).len() + 6
                <= usize::MAX,
        ensures
            final(store).wf(),
            (final(store)@, root) == with_document(old(store)@, document_of(self@)),
            whole(self@) ==> inventory_at(final(store)@, root) == Ok::<Inventory, Fault>(self@),
    {
        let document = self.to_document();
        proof {
            lemma_trees(document@);
        }
        let root: usize = store_document(store, &document);
        proof {
            if whole(self@) {
                law_manifests_survive_documents(self@);
                assert(store@.links =~= store@.links.subrange(0, store@.links.len() as int));
                law_documents_survive_the_network(old(store)@, document_of(self@), store@);
            }
        }
        root
    }

    /// Reads a manifest back out of a link network.
    pub fn read(store: &LinkStore, root: LinkIndex) -> (result: Result<Self, Error>)
        ensures
            match inventory_at(store@, root) {
                Ok(expected) => result matches Ok(manifest) && manifest@ == expected && whole(
                    manifest@,
                ),
                Err(fault) => result matches Err(error) && error@ == fault,
            },
    {
        match read_document(store, root) {
            Ok(document) => Manifest::from_document(&document),
            Err(error) => Err(error),
        }
    }
}

/// A manifest survives the link network, whatever else the network holds and
/// whatever is added to it later.
pub proof fn law_manifests_survive_the_network(
    network: Network,
    manifest: Inventory,
    later: Network,
)
    requires
        whole(manifest),
        network.sound(),
        network.links.len() + weights(document_of(manifest)) + 2 * document_of(manifest).len() + 6
            <= usize::MAX,
        later.sound(),
        grows(with_document(network, document_of(manifest)).0, later),
    ensures
        inventory_at(later, with_document(network, document_of(manifest)).1) == Ok::<
            Inventory,
            Fault,
        >(manifest),
{
    law_manifests_survive_documents(manifest);
    law_documents_survive_the_network(network, document_of(manifest), later);
}

} // verus!
