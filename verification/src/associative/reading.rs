//! What a manifest may look like and still say the same.

use vstd::prelude::*;

use crate::associative::lino::{property_tree, Tree};
use crate::associative::schema::{
    conventional, correction_tree, document_of, encoded, escaped, hit, inventory_of, large_digit,
    lookup_of, note_tree, placement_tree, residual_tree, sample_tree, sketched, slugged,
    source_tree, stem_tree, version_tree, with_entry, with_line, Cutting, Inventory, Named, Sketch,
};
use crate::decompose::model::{Decomposition, Origin, Placement, Played};
use crate::error::Fault;
use crate::number::signed_decimal;
use crate::text::decimal;

verus! {

/// Whether a byte is an ASCII letter or digit.
pub open spec fn letter_or_digit(byte: int) -> bool {
    ||| 'a' as int <= byte <= 'z' as int
    ||| 'A' as int <= byte <= 'Z' as int
    ||| '0' as int <= byte <= '9' as int
}

/// The number a hexadecimal digit stands for, with capital letters.
pub open spec fn hex_value(digit: char) -> int {
    if '0' <= digit <= '9' {
        digit as int - '0' as int
    } else {
        digit as int - 'A' as int + 10
    }
}

/// A letter or a digit, a hyphen, an underscore, a dot, a slash and a number sign
/// stand for themselves. Every other byte is a percent sign and two hexadecimal
/// digits, the higher one first.
pub proof fn law_escapes_are_hexadecimal(byte: u8)
    ensures
        ({
            let plain = letter_or_digit(byte as int) || byte == '-' as u8 || byte == '_' as u8
                || byte == '.' as u8 || byte == '/' as u8 || byte == '#' as u8;
            let text = escaped(byte);
            &&& plain ==> text.len() == 1 && text[0] as int == byte
            &&& !plain ==> {
                &&& text.len() == 3
                &&& text[0] == '%'
                &&& ('0' <= text[1] <= '9' || 'A' <= text[1] <= 'F')
                &&& ('0' <= text[2] <= '9' || 'A' <= text[2] <= 'F')
                &&& 16 * hex_value(text[1]) + hex_value(text[2]) == byte
            }
        }),
{
    let high = byte as nat / 16;
    let low = byte as nat % 16;
    assert(large_digit(high) as int == if high < 10 {
        48 + high
    } else {
        55 + high
    });
    assert(large_digit(low) as int == if low < 10 {
        48 + low
    } else {
        55 + low
    });
}

/// A name that becomes part of a file name keeps its letters, digits, hyphens,
/// underscores and dots, and every other character becomes an underscore. So does
/// an empty name, and what was made into one before stays as it is.
pub proof fn law_slugs_keep_plain_characters(name: Seq<char>, index: int)
    requires
        0 <= index < name.len(),
    ensures
        slugged(name).len() == name.len(),
        ({
            let kept = letter_or_digit(name[index] as int) || name[index] == '-' || name[index]
                == '_' || name[index] == '.';
            slugged(name)[index] == (if kept {
                name[index]
            } else {
                '_'
            })
        }),
        slugged(slugged(name)) == slugged(name),
        slugged(Seq::empty()) == seq!['_'],
{
    assert(slugged(slugged(name)) =~= slugged(name));
}

/// A property is found by its key wherever it stands, as long as no other of that
/// key stands before it; and one of another key is passed over.
pub proof fn law_properties_are_found_by_their_key(
    before: Seq<Tree>,
    after: Seq<Tree>,
    key: Seq<char>,
    value: Seq<char>,
    other: Seq<char>,
)
    requires
        other != key,
    ensures
        lookup_of(before + seq![property_tree(key, value)] + after, key) == (if lookup_of(
            before,
            key,
        ) is Some {
            lookup_of(before, key)
        } else {
            Some(value)
        }),
        lookup_of(before + seq![property_tree(other, value)] + after, key) == lookup_of(
            before + after,
            key,
        ),
    decreases before.len(),
{
    let same = before + seq![property_tree(key, value)] + after;
    let odd = before + seq![property_tree(other, value)] + after;
    if before.len() == 0 {
        assert(same[0] == property_tree(key, value));
        assert(odd[0] == property_tree(other, value));
        assert(hit(same[0], key) == Some(value));
        assert(hit(odd[0], key) is None);
        assert(odd.skip(1) =~= before + after);
    } else {
        let rest = before.skip(1);
        law_properties_are_found_by_their_key(rest, after, key, value, other);
        assert(same[0] == before[0] && odd[0] == before[0] && (before + after)[0] == before[0]);
        assert(same.skip(1) =~= rest + seq![property_tree(key, value)] + after);
        assert(odd.skip(1) =~= rest + seq![property_tree(other, value)] + after);
        assert((before + after).skip(1) =~= rest + after);
    }
}

/// What two entries of different kinds say does not depend on which comes first.
proof fn lemma_entries_commute(
    sketch: Sketch,
    first: Seq<char>,
    ones: Seq<Tree>,
    second: Seq<char>,
    others: Seq<Tree>,
)
    requires
        first != second,
        with_entry(sketch, first, ones) is Ok,
        with_entry(with_entry(sketch, first, ones)->Ok_0, second, others) is Ok,
    ensures
        with_entry(sketch, second, others) is Ok,
        with_entry(with_entry(sketch, second, others)->Ok_0, first, ones) == with_entry(
            with_entry(sketch, first, ones)->Ok_0,
            second,
            others,
        ),
{
}

/// What is known behind a line.
#[verifier::opaque]
spec fn behind(sketch: Result<Sketch, Fault>, line: Tree) -> Result<Sketch, Fault> {
    match sketch {
        Ok(known) => with_line(known, line),
        Err(fault) => Err(fault),
    }
}

proof fn lemma_behind(front: Seq<Tree>, line: Tree)
    ensures
        sketched(front.push(line)) == behind(sketched(front), line),
{
    reveal(behind);
    reveal(sketched);
    assert(front.push(line).drop_last() =~= front);
}

proof fn lemma_behind_fails(sketch: Result<Sketch, Fault>, line: Tree)
    ensures
        behind(sketch, line) is Ok ==> sketch is Ok,
{
    reveal(behind);
}

/// Two lines are read the same whichever comes first.
proof fn lemma_two_lines(sketch: Result<Sketch, Fault>, first: Tree, second: Tree)
    requires
        first is Link,
        second is Link,
        first->Link_0 != second->Link_0,
        behind(behind(sketch, first), second) is Ok,
    ensures
        behind(behind(sketch, second), first) == behind(behind(sketch, first), second),
{
    reveal(behind);
    lemma_entries_commute(
        sketch->Ok_0,
        first->Link_0->Some_0,
        first->Link_1,
        second->Link_0->Some_0,
        second->Link_1,
    );
}

proof fn lemma_lines_commute(before: Seq<Tree>, first: Tree, second: Tree, after: Seq<Tree>)
    requires
        first is Link,
        second is Link,
        first->Link_0 != second->Link_0,
        sketched(before + seq![first, second] + after) is Ok,
    ensures
        sketched(before + seq![second, first] + after) == sketched(
            before + seq![first, second] + after,
        ),
    decreases after.len(),
{
    let one = before + seq![first, second] + after;
    let other = before + seq![second, first] + after;
    if after.len() == 0 {
        assert(one =~= before.push(first).push(second));
        assert(other =~= before.push(second).push(first));
        lemma_behind(before, first);
        lemma_behind(before.push(first), second);
        lemma_behind(before, second);
        lemma_behind(before.push(second), first);
        lemma_two_lines(sketched(before), first, second);
    } else {
        let less = after.drop_last();
        let last = after.last();
        assert(one =~= (before + seq![first, second] + less).push(last));
        assert(other =~= (before + seq![second, first] + less).push(last));
        lemma_behind(before + seq![first, second] + less, last);
        lemma_behind(before + seq![second, first] + less, last);
        lemma_behind_fails(sketched(before + seq![first, second] + less), last);
        lemma_lines_commute(before, first, second, less);
    }
}

/// The lines of a manifest may stand in any order, as far as they are of different
/// kinds: exchanging two neighbours changes nothing of what is read.
pub proof fn law_manifest_lines_stand_in_any_order(
    before: Seq<Tree>,
    first: Tree,
    second: Tree,
    after: Seq<Tree>,
)
    requires
        first is Link,
        second is Link,
        first->Link_0 != second->Link_0,
        inventory_of(before + seq![first, second] + after) is Ok,
    ensures
        inventory_of(before + seq![second, first] + after) == inventory_of(
            before + seq![first, second] + after,
        ),
{
    lemma_lines_commute(before, first, second, after);
}

/// A line of a manifest: a kind, and what it says as plain words.
pub open spec fn line_of(kind: Seq<char>, words: Seq<Seq<char>>) -> Tree {
    Tree::Link(Some(kind), Seq::new(words.len(), |i: int| Tree::Ref(words[i])))
}

/// A manifest is written line by line: its version, its source, its stems, its
/// samples, its placements, its notes, its residual, and its correction if it has
/// one.
pub proof fn law_manifests_are_written_line_by_line(manifest: Inventory, index: int)
    ensures
        ({
            let document = document_of(manifest);
            let stems = manifest.stems.len() as int;
            let samples = manifest.samples.len() as int;
            let placements = manifest.placements.len() as int;
            let notes = manifest.notes.len() as int;
            let end = 2 + stems + samples + placements + notes;
            &&& document.len() == end + (if manifest.correction is Some {
                2int
            } else {
                1int
            })
            &&& document[0] == line_of("decomposition"@, seq!["version"@, "1"@])
            &&& document[1] is Link && document[1]->Link_0 == Some("source"@)
            &&& 0 <= index < stems ==> document[2 + index] == line_of(
                "stem"@,
                seq![encoded(manifest.stems[index].name), encoded(manifest.stems[index].file)],
            )
            &&& 0 <= index < samples ==> {
                let line = document[2 + stems + index];
                let sample = manifest.samples[index];
                &&& line is Link && line->Link_0 == Some("sample"@)
                &&& line->Link_1.len() == 5 + (if sample.note is Some {
                    1int
                } else {
                    0int
                }) + (if sample.frequency is Some {
                    1int
                } else {
                    0int
                })
                &&& line->Link_1[0] == Tree::Ref(decimal(sample.id as nat))
                &&& line->Link_1[1] == Tree::Ref(encoded(sample.name))
                &&& line->Link_1[2] == Tree::Ref(encoded(sample.file))
            }
            &&& 0 <= index < placements ==> document[2 + stems + samples + index] == line_of(
                "placement"@,
                seq![
                    decimal(manifest.placements[index].sample as nat),
                    decimal(manifest.placements[index].channel as nat),
                    signed_decimal(manifest.placements[index].start as int),
                    signed_decimal(manifest.placements[index].gain.over_scale() as int),
                ],
            )
            &&& 0 <= index < notes ==> document[2 + stems + samples + placements + index]
                == line_of(
                "note"@,
                seq![
                    decimal(manifest.notes[index].channel as nat),
                    decimal(manifest.notes[index].start as nat),
                    decimal(manifest.notes[index].length as nat),
                    decimal(manifest.notes[index].note as nat),
                    decimal(manifest.notes[index].velocity as nat),
                    manifest.notes[index].frequency,
                    manifest.notes[index].confidence,
                ],
            )
            &&& document[end] == line_of("residual"@, seq![encoded(manifest.residual)])
            &&& manifest.correction is Some ==> document[end + 1] == line_of(
                "correction"@,
                seq![encoded(manifest.correction->Some_0)],
            )
        }),
{
    lemma_document_lines(manifest, index);
    if 0 <= index < manifest.stems.len() {
        lemma_stem_line(manifest.stems[index]);
    }
    if 0 <= index < manifest.samples.len() {
        lemma_sample_line(manifest.samples[index]);
    }
    if 0 <= index < manifest.placements.len() {
        lemma_placement_line(manifest.placements[index]);
    }
    if 0 <= index < manifest.notes.len() {
        lemma_note_line(manifest.notes[index]);
    }
    lemma_single_lines(manifest.source, manifest.residual);
    if manifest.correction is Some {
        lemma_correction_line(manifest.correction->Some_0);
    }
}

/// Which line of a manifest stands where.
proof fn lemma_document_lines(manifest: Inventory, index: int)
    ensures
        ({
            let document = document_of(manifest);
            let stems = manifest.stems.len() as int;
            let samples = manifest.samples.len() as int;
            let placements = manifest.placements.len() as int;
            let notes = manifest.notes.len() as int;
            let end = 2 + stems + samples + placements + notes;
            &&& document.len() == end + (if manifest.correction is Some {
                2int
            } else {
                1int
            })
            &&& document[0] == version_tree()
            &&& document[1] == source_tree(manifest.source)
            &&& 0 <= index < stems ==> document[2 + index] == stem_tree(manifest.stems[index])
            &&& 0 <= index < samples ==> document[2 + stems + index] == sample_tree(
                manifest.samples[index],
            )
            &&& 0 <= index < placements ==> document[2 + stems + samples + index]
                == placement_tree(manifest.placements[index])
            &&& 0 <= index < notes ==> document[2 + stems + samples + placements + index]
                == note_tree(manifest.notes[index])
            &&& document[end] == residual_tree(manifest.residual)
            &&& manifest.correction is Some ==> document[end + 1] == correction_tree(
                manifest.correction->Some_0,
            )
        }),
{
}

proof fn lemma_stem_line(stem: Named)
    ensures
        stem_tree(stem) == line_of("stem"@, seq![encoded(stem.name), encoded(stem.file)]),
{
    lemma_same_line("stem"@, seq![encoded(stem.name), encoded(stem.file)], stem_tree(stem));
}

proof fn lemma_sample_line(sample: Cutting)
    ensures
        ({
            let line = sample_tree(sample);
            &&& line is Link && line->Link_0 == Some("sample"@)
            &&& line->Link_1.len() == 5 + (if sample.note is Some {
                1int
            } else {
                0int
            }) + (if sample.frequency is Some {
                1int
            } else {
                0int
            })
            &&& line->Link_1[0] == Tree::Ref(decimal(sample.id as nat))
            &&& line->Link_1[1] == Tree::Ref(encoded(sample.name))
            &&& line->Link_1[2] == Tree::Ref(encoded(sample.file))
        }),
{
}

proof fn lemma_placement_line(placement: Placement)
    ensures
        placement_tree(placement) == line_of(
            "placement"@,
            seq![
                decimal(placement.sample as nat),
                decimal(placement.channel as nat),
                signed_decimal(placement.start as int),
                signed_decimal(placement.gain.over_scale() as int),
            ],
        ),
{
    lemma_same_line(
        "placement"@,
        seq![
            decimal(placement.sample as nat),
            decimal(placement.channel as nat),
            signed_decimal(placement.start as int),
            signed_decimal(placement.gain.over_scale() as int),
        ],
        placement_tree(placement),
    );
}

proof fn lemma_note_line(note: Played)
    ensures
        note_tree(note) == line_of(
            "note"@,
            seq![
                decimal(note.channel as nat),
                decimal(note.start as nat),
                decimal(note.length as nat),
                decimal(note.note as nat),
                decimal(note.velocity as nat),
                note.frequency,
                note.confidence,
            ],
        ),
{
    lemma_same_line(
        "note"@,
        seq![
            decimal(note.channel as nat),
            decimal(note.start as nat),
            decimal(note.length as nat),
            decimal(note.note as nat),
            decimal(note.velocity as nat),
            note.frequency,
            note.confidence,
        ],
        note_tree(note),
    );
}

proof fn lemma_single_lines(source: Origin, file: Seq<char>)
    ensures
        version_tree() == line_of("decomposition"@, seq!["version"@, "1"@]),
        source_tree(source) is Link && source_tree(source)->Link_0 == Some("source"@),
        residual_tree(file) == line_of("residual"@, seq![encoded(file)]),
{
    lemma_same_line("decomposition"@, seq!["version"@, "1"@], version_tree());
    lemma_same_line("residual"@, seq![encoded(file)], residual_tree(file));
}

proof fn lemma_correction_line(file: Seq<char>)
    ensures
        correction_tree(file) == line_of("correction"@, seq![encoded(file)]),
{
    lemma_same_line("correction"@, seq![encoded(file)], correction_tree(file));
}

proof fn lemma_same_line(kind: Seq<char>, words: Seq<Seq<char>>, line: Tree)
    requires
        line is Link,
        line->Link_0 == Some(kind),
        line->Link_1.len() == words.len(),
        forall|i: int| 0 <= i < words.len() ==> #[trigger] line->Link_1[i] == Tree::Ref(words[i]),
    ensures
        line == line_of(kind, words),
{
    assert(line->Link_1 =~= line_of(kind, words)->Link_1);
}

/// The source of a manifest is said by its properties: its name, its rate, its
/// format, its channels and its frames. So are the frames, the peak, the note and the
/// frequency of a sample.
pub proof fn law_properties_say_what_a_manifest_holds(source: Origin, sample: Cutting)
    ensures
        ({
            let values = source_tree(source)->Link_1;
            &&& values.len() == 5
            &&& values[0] == property_tree("name"@, encoded(source.name))
            &&& values[1] == property_tree("sample-rate"@, decimal(source.sample_rate as nat))
            &&& values[2] == property_tree("format"@, source.format.spec_name())
            &&& values[3] == property_tree("channels"@, decimal(source.channels as nat))
            &&& values[4] == property_tree("frames"@, decimal(source.frames as nat))
        }),
        ({
            let values = sample_tree(sample)->Link_1;
            &&& values[3] == property_tree("frames"@, decimal(sample.frames as nat))
            &&& values[4] == property_tree("peak"@, sample.peak)
            &&& sample.note is Some ==> values[5] == property_tree(
                "note"@,
                decimal(sample.note->Some_0 as nat),
            )
            &&& sample.frequency is Some ==> values.last() == property_tree(
                "frequency"@,
                sample.frequency->Some_0,
            )
        }),
        property_tree("key"@, "value"@) == Tree::Link(
            None,
            seq![Tree::Ref("key"@), Tree::Ref("value"@)],
        ),
{
}

/// The files of a decomposition are named by what they hold: stems and samples lie in
/// directories of their own, and the residual and the correction beside them.
pub proof fn law_files_are_named_by_what_they_hold(decomposition: Decomposition, index: int)
    ensures
        ({
            let manifest = conventional(decomposition);
            &&& manifest.source == decomposition.source@
            &&& manifest.stems.len() == decomposition.stems@.len()
            &&& manifest.samples.len() == decomposition.samples@.len()
            &&& manifest.placements == decomposition.placements@
            &&& manifest.residual == "residual.wav"@
            &&& manifest.correction is Some == decomposition.correction is Some
            &&& manifest.correction is Some ==> manifest.correction->Some_0 == "correction.wav"@
            &&& 0 <= index < decomposition.stems@.len() ==> {
                &&& manifest.stems[index].name == decomposition.stems@[index].name@
                &&& manifest.stems[index].file == "stems/"@ + slugged(
                    decomposition.stems@[index].name@,
                ) + ".wav"@
            }
            &&& 0 <= index < decomposition.samples@.len() ==> {
                &&& manifest.samples[index].id == decomposition.samples@[index].id
                &&& manifest.samples[index].name == decomposition.samples@[index].name@
                &&& manifest.samples[index].file == "samples/"@ + slugged(
                    decomposition.samples@[index].name@,
                ) + ".wav"@
                &&& manifest.samples[index].note == decomposition.samples@[index].note
            }
        }),
{
}

} // verus!
