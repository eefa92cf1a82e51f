//! Why a manifest loses nothing on its way through a document.

use vstd::prelude::*;

use crate::associative::lino::{
    document_tame, is_tame, max_levels, property_tree, tame, tree_tame, Tree,
};
use crate::associative::schema::{
    blank, correction_tree, correction_trees, cut_well, document_of, encoded, frequency_values,
    hit, inventory_of, law_encoding_round_trips, lookup_of, note_of, note_tree, note_trees,
    note_values, placement_of, placement_tree, placement_trees, residual_tree, sample_frequency_of,
    sample_note_of, sample_of, sample_tree, sample_trees, sample_values, sketched, source_of,
    source_tree, stem_of, stem_tree, stem_trees, version_of, version_tree, with_line, Cutting,
    Inventory, Named, Sketch,
};
use crate::audio::{law_format_names_round_trip, SampleFormat};
use crate::decompose::model::{lemma_gain, Origin, Placement, Played};
use crate::error::Fault;
use crate::number::{
    digit_run, is_digit, is_exponent, is_numeral, is_plain_number, law_signed_numbers_round_trip,
    law_unsigned_numbers_round_trip, lemma_decimal, signed_decimal, unsigned_part,
};
use crate::text::{decimal, lower, lower_char};

verus! {

/// Whether the numbers of a note are numbers.
pub open spec fn played_well(note: Played) -> bool {
    is_numeral(note.frequency) && is_numeral(note.confidence)
}

/// Whether the numbers of a manifest are numbers.
pub open spec fn whole(manifest: Inventory) -> bool {
    &&& forall|i: int| 0 <= i < manifest.samples.len() ==> cut_well(#[trigger] manifest.samples[i])
    &&& forall|i: int| 0 <= i < manifest.notes.len() ==> played_well(#[trigger] manifest.notes[i])
}

/// The first hit is what a lookup finds.
proof fn lemma_lookup(values: Seq<Tree>, key: Seq<char>, index: int)
    requires
        0 <= index < values.len(),
        forall|i: int| 0 <= i < index ==> hit(#[trigger] values[i], key) is None,
        hit(values[index], key) is Some,
    ensures
        lookup_of(values, key) == hit(values[index], key),
    decreases index,
{
    if index > 0 {
        assert(hit(values[0], key) is None);
        assert forall|i: int| 0 <= i < index - 1 implies hit(
            #[trigger] values.skip(1)[i],
            key,
        ) is None by {
            assert(values.skip(1)[i] == values[i + 1]);
        }
        lemma_lookup(values.skip(1), key, index - 1);
    }
}

/// Where nothing hits, a lookup finds nothing.
proof fn lemma_no_lookup(values: Seq<Tree>, key: Seq<char>)
    requires
        forall|i: int| 0 <= i < values.len() ==> hit(#[trigger] values[i], key) is None,
    ensures
        lookup_of(values, key) is None,
    decreases values.len(),
{
    if values.len() > 0 {
        assert(hit(values[0], key) is None);
        assert forall|i: int| 0 <= i < values.skip(1).len() implies hit(
            #[trigger] values.skip(1)[i],
            key,
        ) is None by {
            assert(values.skip(1)[i] == values[i + 1]);
        }
        lemma_no_lookup(values.skip(1), key);
    }
}

/// The keys of a manifest are told apart.
proof fn lemma_keys()
    ensures
        "name"@ != "sample-rate"@,
        "name"@ != "format"@,
        "name"@ != "channels"@,
        "name"@ != "frames"@,
        "sample-rate"@ != "format"@,
        "sample-rate"@ != "channels"@,
        "sample-rate"@ != "frames"@,
        "format"@ != "channels"@,
        "format"@ != "frames"@,
        "channels"@ != "frames"@,
        "frames"@ != "peak"@,
        "frames"@ != "note"@,
        "frames"@ != "frequency"@,
        "peak"@ != "note"@,
        "peak"@ != "frequency"@,
        "note"@ != "frequency"@,
{
    reveal_strlit("name");
    reveal_strlit("sample-rate");
    reveal_strlit("format");
    reveal_strlit("channels");
    reveal_strlit("frames");
    reveal_strlit("peak");
    reveal_strlit("note");
    reveal_strlit("frequency");
    assert("name"@.len() == 4);
    assert("sample-rate"@.len() == 11);
    assert("format"@.len() == 6 && "format"@[1] == 'o');
    assert("channels"@.len() == 8);
    assert("frames"@.len() == 6 && "frames"@[1] == 'r');
    assert("peak"@.len() == 4 && "peak"@[0] == 'p');
    assert("note"@.len() == 4 && "note"@[0] == 'n');
    assert("frequency"@.len() == 9);
}

/// The entries of a manifest are told apart.
proof fn lemma_entries()
    ensures
        "source"@ != "decomposition"@,
        "stem"@ != "decomposition"@,
        "stem"@ != "source"@,
        "sample"@ != "decomposition"@,
        "sample"@ != "source"@,
        "sample"@ != "stem"@,
        "placement"@ != "decomposition"@,
        "placement"@ != "source"@,
        "placement"@ != "stem"@,
        "placement"@ != "sample"@,
        "note"@ != "decomposition"@,
        "note"@ != "source"@,
        "note"@ != "stem"@,
        "note"@ != "sample"@,
        "note"@ != "placement"@,
        "residual"@ != "decomposition"@,
        "residual"@ != "source"@,
        "residual"@ != "stem"@,
        "residual"@ != "sample"@,
        "residual"@ != "placement"@,
        "residual"@ != "note"@,
        "correction"@ != "decomposition"@,
        "correction"@ != "source"@,
        "correction"@ != "stem"@,
        "correction"@ != "sample"@,
        "correction"@ != "placement"@,
        "correction"@ != "note"@,
        "correction"@ != "residual"@,
{
    reveal_strlit("decomposition");
    reveal_strlit("source");
    reveal_strlit("stem");
    reveal_strlit("sample");
    reveal_strlit("placement");
    reveal_strlit("note");
    reveal_strlit("residual");
    reveal_strlit("correction");
    assert("decomposition"@.len() == 13);
    assert("source"@.len() == 6 && "source"@[1] == 'o');
    assert("stem"@.len() == 4 && "stem"@[0] == 's');
    assert("sample"@.len() == 6 && "sample"@[1] == 'a');
    assert("placement"@.len() == 9);
    assert("note"@.len() == 4 && "note"@[0] == 'n');
    assert("residual"@.len() == 8);
    assert("correction"@.len() == 10);
}

/// A source is read back.
proof fn lemma_source(source: Origin)
    ensures
        source_of(source_tree(source)->Link_1) == Ok::<Origin, Fault>(source),
{
    let values = source_tree(source)->Link_1;
    let name = encoded(source.name);
    let rate = decimal(source.sample_rate as nat);
    let format = source.format.spec_name();
    let channels = decimal(source.channels as nat);
    let frames = decimal(source.frames as nat);
    lemma_keys();
    assert(values[0] == property_tree("name"@, name));
    assert(values[1] == property_tree("sample-rate"@, rate));
    assert(values[2] == property_tree("format"@, format));
    assert(values[3] == property_tree("channels"@, channels));
    assert(values[4] == property_tree("frames"@, frames));
    lemma_lookup(values, "name"@, 0);
    lemma_lookup(values, "sample-rate"@, 1);
    lemma_lookup(values, "format"@, 2);
    lemma_lookup(values, "channels"@, 3);
    lemma_lookup(values, "frames"@, 4);
    law_encoding_round_trips(source.name);
    law_unsigned_numbers_round_trip(source.sample_rate as nat, u32::MAX as nat);
    law_format_names_round_trip(source.format);
    law_unsigned_numbers_round_trip(source.channels as nat, usize::MAX as nat);
    law_unsigned_numbers_round_trip(source.frames as nat, usize::MAX as nat);
}

/// A stem is read back.
proof fn lemma_stem(stem: Named)
    ensures
        stem_of(stem_tree(stem)->Link_1) == Ok::<Named, Fault>(stem),
{
    law_encoding_round_trips(stem.name);
    law_encoding_round_trips(stem.file);
    let values = stem_tree(stem)->Link_1;
    assert(values[0] == Tree::Ref(encoded(stem.name)));
    assert(values[1] == Tree::Ref(encoded(stem.file)));
}

/// A bank sample is read back.
proof fn lemma_sample(sample: Cutting)
    requires
        cut_well(sample),
    ensures
        sample_of(sample_tree(sample)->Link_1) == Ok::<Cutting, Fault>(sample),
{
    let values = sample_tree(sample)->Link_1;
    lemma_keys();
    assert(values[0] == Tree::Ref(decimal(sample.id as nat)));
    assert(values[1] == Tree::Ref(encoded(sample.name)));
    assert(values[2] == Tree::Ref(encoded(sample.file)));
    assert(values[3] == property_tree("frames"@, decimal(sample.frames as nat)));
    assert(values[4] == property_tree("peak"@, sample.peak));
    law_unsigned_numbers_round_trip(sample.id as nat, usize::MAX as nat);
    law_encoding_round_trips(sample.name);
    law_encoding_round_trips(sample.file);
    law_unsigned_numbers_round_trip(sample.frames as nat, usize::MAX as nat);
    lemma_lookup(values, "frames"@, 3);
    lemma_lookup(values, "peak"@, 4);
    match sample.note {
        Some(note) => {
            assert(values[5] == property_tree("note"@, decimal(note as nat)));
            lemma_lookup(values, "note"@, 5);
            law_unsigned_numbers_round_trip(note as nat, 255);
        },
        None => {
            assert forall|i: int| 0 <= i < values.len() implies hit(
                #[trigger] values[i],
                "note"@,
            ) is None by {
                if i == 5 {
                    assert(values[5] == property_tree("frequency"@, sample.frequency->Some_0));
                }
            }
            lemma_no_lookup(values, "note"@);
        },
    }
    assert(sample_note_of(values) == Ok::<Option<u8>, Fault>(sample.note));
    match sample.frequency {
        Some(frequency) => {
            let at = if sample.note is Some {
                6int
            } else {
                5int
            };
            assert(values[at] == property_tree("frequency"@, frequency));
            assert forall|i: int| 0 <= i < at implies hit(
                #[trigger] values[i],
                "frequency"@,
            ) is None by {
                if i == 5 {
                    assert(values[5] == property_tree(
                        "note"@,
                        decimal(sample.note->Some_0 as nat),
                    ));
                }
            }
            lemma_lookup(values, "frequency"@, at);
        },
        None => {
            assert forall|i: int| 0 <= i < values.len() implies hit(
                #[trigger] values[i],
                "frequency"@,
            ) is None by {
                if i == 5 {
                    assert(values[5] == property_tree(
                        "note"@,
                        decimal(sample.note->Some_0 as nat),
                    ));
                }
            }
            lemma_no_lookup(values, "frequency"@);
        },
    }
    assert(sample_frequency_of(values) == Ok::<Option<Seq<char>>, Fault>(sample.frequency));
}

/// A placement is read back.
proof fn lemma_placement(placement: Placement)
    ensures
        placement_of(placement_tree(placement)->Link_1) == Ok::<Placement, Fault>(placement),
{
    let values = placement_tree(placement)->Link_1;
    assert(values[0] == Tree::Ref(decimal(placement.sample as nat)));
    assert(values[1] == Tree::Ref(decimal(placement.channel as nat)));
    assert(values[2] == Tree::Ref(signed_decimal(placement.start as int)));
    assert(values[3] == Tree::Ref(signed_decimal(placement.gain.over_scale() as int)));
    law_unsigned_numbers_round_trip(placement.sample as nat, usize::MAX as nat);
    law_unsigned_numbers_round_trip(placement.channel as nat, usize::MAX as nat);
    law_signed_numbers_round_trip(placement.start as int);
    law_signed_numbers_round_trip(placement.gain.over_scale() as int);
    lemma_gain(placement.gain);
}

/// A note is read back.
proof fn lemma_note(note: Played)
    requires
        played_well(note),
    ensures
        note_of(note_tree(note)->Link_1) == Ok::<Played, Fault>(note),
{
    let values = note_tree(note)->Link_1;
    assert(values[0] == Tree::Ref(decimal(note.channel as nat)));
    assert(values[1] == Tree::Ref(decimal(note.start as nat)));
    assert(values[2] == Tree::Ref(decimal(note.length as nat)));
    assert(values[3] == Tree::Ref(decimal(note.note as nat)));
    assert(values[4] == Tree::Ref(decimal(note.velocity as nat)));
    assert(values[5] == Tree::Ref(note.frequency));
    assert(values[6] == Tree::Ref(note.confidence));
    law_unsigned_numbers_round_trip(note.channel as nat, usize::MAX as nat);
    law_unsigned_numbers_round_trip(note.start as nat, usize::MAX as nat);
    law_unsigned_numbers_round_trip(note.length as nat, usize::MAX as nat);
    law_unsigned_numbers_round_trip(note.note as nat, 255);
    law_unsigned_numbers_round_trip(note.velocity as nat, 255);
}

/// One more line is read on top of what was read.
proof fn lemma_one_more(front: Seq<Tree>, line: Tree)
    ensures
        sketched(front.push(line)) == (match sketched(front) {
            Ok(sketch) => with_line(sketch, line),
            Err(fault) => Err(fault),
        }),
{
    reveal(sketched);
    assert(front.push(line).drop_last() =~= front);
}

/// The lines of stems are read as those stems.
proof fn lemma_stems(front: Seq<Tree>, sketch: Sketch, stems: Seq<Named>)
    requires
        sketched(front) == Ok::<Sketch, Fault>(sketch),
    ensures
        sketched(front + stem_trees(stems)) == Ok::<Sketch, Fault>(
            Sketch { stems: sketch.stems + stems, ..sketch },
        ),
    decreases stems.len(),
{
    if stems.len() == 0 {
        assert(front + stem_trees(stems) =~= front);
        assert(sketch.stems + stems =~= sketch.stems);
    } else {
        let rest = stems.drop_last();
        lemma_stems(front, sketch, rest);
        lemma_stem(stems.last());
        lemma_entries();
        lemma_one_more(front + stem_trees(rest), stem_tree(stems.last()));
        assert((front + stem_trees(rest)).push(stem_tree(stems.last())) =~= front + stem_trees(
            stems,
        ));
        assert((sketch.stems + rest).push(stems.last()) =~= sketch.stems + stems);
    }
}

/// The lines of a bank are read as that bank.
proof fn lemma_samples(front: Seq<Tree>, sketch: Sketch, samples: Seq<Cutting>)
    requires
        sketched(front) == Ok::<Sketch, Fault>(sketch),
        forall|i: int| 0 <= i < samples.len() ==> cut_well(#[trigger] samples[i]),
    ensures
        sketched(front + sample_trees(samples)) == Ok::<Sketch, Fault>(
            Sketch { samples: sketch.samples + samples, ..sketch },
        ),
    decreases samples.len(),
{
    if samples.len() == 0 {
        assert(front + sample_trees(samples) =~= front);
        assert(sketch.samples + samples =~= sketch.samples);
    } else {
        let rest = samples.drop_last();
        lemma_samples(front, sketch, rest);
        lemma_sample(samples.last());
        lemma_entries();
        lemma_one_more(front + sample_trees(rest), sample_tree(samples.last()));
        assert((front + sample_trees(rest)).push(sample_tree(samples.last())) =~= front
            + sample_trees(samples));
        assert((sketch.samples + rest).push(samples.last()) =~= sketch.samples + samples);
    }
}

/// The lines of placements are read as those placements.
proof fn lemma_placements(front: Seq<Tree>, sketch: Sketch, placements: Seq<Placement>)
    requires
        sketched(front) == Ok::<Sketch, Fault>(sketch),
    ensures
        sketched(front + placement_trees(placements)) == Ok::<Sketch, Fault>(
            Sketch { placements: sketch.placements + placements, ..sketch },
        ),
    decreases placements.len(),
{
    if placements.len() == 0 {
        assert(front + placement_trees(placements) =~= front);
        assert(sketch.placements + placements =~= sketch.placements);
    } else {
        let rest = placements.drop_last();
        lemma_placements(front, sketch, rest);
        lemma_placement(placements.last());
        lemma_entries();
        lemma_one_more(front + placement_trees(rest), placement_tree(placements.last()));
        assert((front + placement_trees(rest)).push(placement_tree(placements.last())) =~= front
            + placement_trees(placements));
        assert((sketch.placements + rest).push(placements.last()) =~= sketch.placements
            + placements);
    }
}

/// The lines of notes are read as those notes.
proof fn lemma_notes(front: Seq<Tree>, sketch: Sketch, notes: Seq<Played>)
    requires
        sketched(front) == Ok::<Sketch, Fault>(sketch),
        forall|i: int| 0 <= i < notes.len() ==> played_well(#[trigger] notes[i]),
    ensures
        sketched(front + note_trees(notes)) == Ok::<Sketch, Fault>(
            Sketch { notes: sketch.notes + notes, ..sketch },
        ),
    decreases notes.len(),
{
    if notes.len() == 0 {
        assert(front + note_trees(notes) =~= front);
        assert(sketch.notes + notes =~= sketch.notes);
    } else {
        let rest = notes.drop_last();
        lemma_notes(front, sketch, rest);
        lemma_note(notes.last());
        lemma_entries();
        lemma_one_more(front + note_trees(rest), note_tree(notes.last()));
        assert((front + note_trees(rest)).push(note_tree(notes.last())) =~= front + note_trees(
            notes,
        ));
        assert((sketch.notes + rest).push(notes.last()) =~= sketch.notes + notes);
    }
}

/// The version line is read back.
proof fn lemma_version()
    ensures
        with_line(blank(), version_tree()) == Ok::<Sketch, Fault>(
            Sketch { version: Some("1"@), ..blank() },
        ),
{
    let values = version_tree()->Link_1;
    assert(values[0] == Tree::Ref("version"@));
    assert(values[1] == Tree::Ref("1"@));
    assert(version_of(values) == Ok::<Seq<char>, Fault>("1"@));
}

/// The source line is read back.
proof fn lemma_source_line(sketch: Sketch, source: Origin)
    ensures
        with_line(sketch, source_tree(source)) == Ok::<Sketch, Fault>(
            Sketch { source: Some(source), ..sketch },
        ),
{
    lemma_entries();
    lemma_source(source);
}

/// The head of a manifest is read back.
proof fn lemma_head(source: Origin)
    ensures
        sketched(seq![version_tree(), source_tree(source)]) == Ok::<Sketch, Fault>(
            Sketch { version: Some("1"@), source: Some(source), ..blank() },
        ),
{
    let none = Seq::<Tree>::empty();
    let one = none.push(version_tree());
    assert(sketched(none) == Ok::<Sketch, Fault>(blank())) by {
        reveal(sketched);
    }
    lemma_version();
    lemma_one_more(none, version_tree());
    lemma_source_line(Sketch { version: Some("1"@), ..blank() }, source);
    lemma_one_more(one, source_tree(source));
    assert(one.push(source_tree(source)) =~= seq![version_tree(), source_tree(source)]);
}

/// The line of the residual is read back.
proof fn lemma_residual(front: Seq<Tree>, sketch: Sketch, file: Seq<char>)
    requires
        sketched(front) == Ok::<Sketch, Fault>(sketch),
    ensures
        sketched(front + seq![residual_tree(file)]) == Ok::<Sketch, Fault>(
            Sketch { residual: file, ..sketch },
        ),
{
    law_encoding_round_trips(file);
    lemma_entries();
    lemma_one_more(front, residual_tree(file));
    assert(residual_tree(file)->Link_1[0] == Tree::Ref(encoded(file)));
    assert(front.push(residual_tree(file)) =~= front + seq![residual_tree(file)]);
}

/// The line of the correction is read back.
proof fn lemma_correction(front: Seq<Tree>, sketch: Sketch, correction: Option<Seq<char>>)
    requires
        sketched(front) == Ok::<Sketch, Fault>(sketch),
        sketch.correction is None,
    ensures
        sketched(front + correction_trees(correction)) == Ok::<Sketch, Fault>(
            Sketch { correction, ..sketch },
        ),
{
    match correction {
        Some(file) => {
            law_encoding_round_trips(file);
            lemma_entries();
            lemma_one_more(front, correction_tree(file));
            assert(correction_tree(file)->Link_1[0] == Tree::Ref(encoded(file)));
            assert(front.push(correction_tree(file)) =~= front + correction_trees(correction));
        },
        None => {
            assert(front + correction_trees(correction) =~= front);
        },
    }
}

/// What is read of the lines of a manifest.
proof fn lemma_sketched(manifest: Inventory)
    requires
        whole(manifest),
    ensures
        sketched(document_of(manifest)) == Ok::<Sketch, Fault>(
            Sketch {
                version: Some("1"@),
                source: Some(manifest.source),
                stems: blank().stems + manifest.stems,
                samples: blank().samples + manifest.samples,
                placements: blank().placements + manifest.placements,
                notes: blank().notes + manifest.notes,
                residual: manifest.residual,
                correction: manifest.correction,
            },
        ),
{
    let head = seq![version_tree(), source_tree(manifest.source)];
    let first = Sketch { version: Some("1"@), source: Some(manifest.source), ..blank() };
    lemma_head(manifest.source);
    lemma_stems(head, first, manifest.stems);
    let two = head + stem_trees(manifest.stems);
    let second = Sketch { stems: first.stems + manifest.stems, ..first };
    lemma_samples(two, second, manifest.samples);
    let three = two + sample_trees(manifest.samples);
    let third = Sketch { samples: second.samples + manifest.samples, ..second };
    lemma_placements(three, third, manifest.placements);
    let four = three + placement_trees(manifest.placements);
    let fourth = Sketch { placements: third.placements + manifest.placements, ..third };
    lemma_notes(four, fourth, manifest.notes);
    let five = four + note_trees(manifest.notes);
    let fifth = Sketch { notes: fourth.notes + manifest.notes, ..fourth };
    lemma_residual(five, fifth, manifest.residual);
    let six = five + seq![residual_tree(manifest.residual)];
    let sixth = Sketch { residual: manifest.residual, ..fifth };
    lemma_correction(six, sixth, manifest.correction);
}

/// A manifest that is written down as a document is read back from it, whatever
/// it holds.
pub proof fn law_manifests_survive_documents(manifest: Inventory)
    requires
        whole(manifest),
    ensures
        inventory_of(document_of(manifest)) == Ok::<Inventory, Fault>(manifest),
{
    lemma_sketched(manifest);
    assert(blank().stems + manifest.stems =~= manifest.stems);
    assert(blank().samples + manifest.samples =~= manifest.samples);
    assert(blank().placements + manifest.placements =~= manifest.placements);
    assert(blank().notes + manifest.notes =~= manifest.notes);
}

/// What a run of digits holds.
proof fn lemma_run(text: Seq<char>)
    ensures
        digit_run(text) <= text.len(),
        forall|i: int| 0 <= i < digit_run(text) ==> is_digit(#[trigger] text[i]),
    decreases text.len(),
{
    if text.len() > 0 && is_digit(text[0]) {
        lemma_run(text.skip(1));
        assert forall|i: int| 0 <= i < digit_run(text) implies is_digit(#[trigger] text[i]) by {
            if i > 0 {
                assert(text.skip(1)[i - 1] == text[i]);
            }
        }
    }
}

/// An exponent is tame.
proof fn lemma_exponent_tame(text: Seq<char>)
    requires
        is_exponent(text),
    ensures
        tame(text),
{
    let tail = text.skip(1);
    let digits = unsigned_part(tail);
    lemma_run(digits);
    assert forall|i: int| 0 <= i < text.len() implies is_tame(#[trigger] text[i]) by {
        if i > 0 {
            assert(tail[i - 1] == text[i]);
            if digits.len() == tail.len() {
                assert(is_digit(digits[i - 1]));
            } else if i > 1 {
                assert(digits[i - 2] == tail[i - 1]);
                assert(is_digit(digits[i - 2]));
            }
        }
    }
}

/// A plain number is tame.
proof fn lemma_plain_tame(text: Seq<char>)
    requires
        is_plain_number(text),
    ensures
        tame(text),
{
    let whole = digit_run(text) as int;
    let after = text.skip(whole);
    lemma_run(text);
    if after.len() > 0 && after[0] == '.' {
        let tail = after.skip(1);
        let fraction = digit_run(tail) as int;
        let rest = tail.skip(fraction);
        lemma_run(tail);
        if rest.len() > 0 {
            lemma_exponent_tame(rest);
        }
        assert forall|i: int| 0 <= i < text.len() implies is_tame(#[trigger] text[i]) by {
            if i < whole {
                assert(is_digit(text[i]));
            } else if i > whole {
                assert(after[i - whole] == text[i]);
                assert(tail[i - whole - 1] == text[i]);
                if i - whole - 1 < fraction {
                    assert(is_digit(tail[i - whole - 1]));
                } else {
                    assert(rest[i - whole - 1 - fraction] == text[i]);
                }
            } else {
                assert(after[0] == text[i]);
            }
        }
    } else {
        if after.len() > 0 {
            lemma_exponent_tame(after);
        }
        assert forall|i: int| 0 <= i < text.len() implies is_tame(#[trigger] text[i]) by {
            if i < whole {
                assert(is_digit(text[i]));
            } else {
                assert(after[i - whole] == text[i]);
            }
        }
    }
}

/// A word of small letters is tame, however it is capitalised.
proof fn lemma_word_tame(text: Seq<char>, word: Seq<char>)
    requires
        lower(text) == word,
        word.len() > 0,
        forall|i: int| 0 <= i < word.len() ==> 'a' <= #[trigger] word[i] <= 'z',
    ensures
        tame(text),
{
    assert(text.len() == word.len());
    assert forall|i: int| 0 <= i < text.len() implies is_tame(#[trigger] text[i]) by {
        assert(lower(text)[i] == word[i]);
        assert(lower_char(text[i]) == word[i]);
    }
}

/// A numeral is tame.
proof fn lemma_numeral_tame(text: Seq<char>)
    requires
        is_numeral(text),
    ensures
        tame(text),
{
    let body = unsigned_part(text);
    if is_plain_number(body) {
        lemma_plain_tame(body);
    } else if lower(body) == seq!['i', 'n', 'f'] {
        lemma_word_tame(body, seq!['i', 'n', 'f']);
    } else if lower(body) == seq!['n', 'a', 'n'] {
        lemma_word_tame(body, seq!['n', 'a', 'n']);
    } else {
        lemma_word_tame(body, seq!['i', 'n', 'f', 'i', 'n', 'i', 't', 'y']);
    }
    assert forall|i: int| 0 <= i < text.len() implies is_tame(#[trigger] text[i]) by {
        if body.len() == text.len() {
            assert(body[i] == text[i]);
        } else if i > 0 {
            assert(body[i - 1] == text[i]);
        }
    }
}

/// A decimal is tame.
proof fn lemma_decimal_tame(value: nat)
    ensures
        tame(decimal(value)),
{
    lemma_decimal(value);
    assert forall|i: int| 0 <= i < decimal(value).len() implies is_tame(
        #[trigger] decimal(value)[i],
    ) by {
        assert(is_digit(decimal(value)[i]));
    }
}

/// A signed decimal is tame.
proof fn lemma_signed_tame(value: int)
    ensures
        tame(signed_decimal(value)),
{
    if value < 0 {
        lemma_decimal_tame((-value) as nat);
        let text = signed_decimal(value);
        assert forall|i: int| 0 <= i < text.len() implies is_tame(#[trigger] text[i]) by {
            if i > 0 {
                assert(text[i] == decimal((-value) as nat)[i - 1]);
            }
        }
    } else {
        lemma_decimal_tame(value as nat);
    }
}

/// The words of a manifest are tame.
proof fn lemma_words_tame()
    ensures
        tame("decomposition"@),
        tame("version"@),
        tame("1"@),
        tame("source"@),
        tame("name"@),
        tame("sample-rate"@),
        tame("format"@),
        tame("channels"@),
        tame("frames"@),
        tame("stem"@),
        tame("sample"@),
        tame("peak"@),
        tame("note"@),
        tame("frequency"@),
        tame("placement"@),
        tame("residual"@),
        tame("correction"@),
{
    reveal_strlit("decomposition");
    reveal_strlit("version");
    reveal_strlit("1");
    reveal_strlit("source");
    reveal_strlit("name");
    reveal_strlit("sample-rate");
    reveal_strlit("format");
    reveal_strlit("channels");
    reveal_strlit("frames");
    reveal_strlit("stem");
    reveal_strlit("sample");
    reveal_strlit("peak");
    reveal_strlit("note");
    reveal_strlit("frequency");
    reveal_strlit("placement");
    reveal_strlit("residual");
    reveal_strlit("correction");
}

/// The name of a format is tame.
proof fn lemma_format_tame(format: SampleFormat)
    ensures
        tame(format.spec_name()),
{
    reveal_strlit("pcm_u8");
    reveal_strlit("pcm_i16");
    reveal_strlit("pcm_i24");
    reveal_strlit("pcm_i32");
    reveal_strlit("f32");
    reveal_strlit("f64");
}

/// A property of tame words is tame.
proof fn lemma_property_tame(key: Seq<char>, value: Seq<char>, levels: nat)
    requires
        tame(key),
        tame(value),
        levels > 0,
    ensures
        tree_tame(property_tree(key, value), levels),
{
    let values = seq![Tree::Ref(key), Tree::Ref(value)];
    assert forall|i: int| 0 <= i < values.len() implies tree_tame(
        #[trigger] values[i],
        (levels - 1) as nat,
    ) by {
        if i == 0 {
            assert(values[i] == Tree::Ref(key));
        } else {
            assert(values[i] == Tree::Ref(value));
        }
    }
}

/// A line of tame values is tame.
proof fn lemma_line_tame(id: Seq<char>, values: Seq<Tree>)
    requires
        tame(id),
        values.len() > 0,
        forall|i: int| 0 <= i < values.len() ==> tree_tame(#[trigger] values[i], 63),
    ensures
        tree_tame(Tree::Link(Some(id), values), max_levels()),
{
}

/// The line of the source is tame.
proof fn lemma_source_tame(source: Origin)
    ensures
        tree_tame(source_tree(source), max_levels()),
{
    lemma_words_tame();
    law_encoding_round_trips(source.name);
    lemma_decimal_tame(source.sample_rate as nat);
    lemma_format_tame(source.format);
    lemma_decimal_tame(source.channels as nat);
    lemma_decimal_tame(source.frames as nat);
    let values = source_tree(source)->Link_1;
    lemma_property_tame("name"@, encoded(source.name), 63);
    lemma_property_tame("sample-rate"@, decimal(source.sample_rate as nat), 63);
    lemma_property_tame("format"@, source.format.spec_name(), 63);
    lemma_property_tame("channels"@, decimal(source.channels as nat), 63);
    lemma_property_tame("frames"@, decimal(source.frames as nat), 63);
    assert(values[0] == property_tree("name"@, encoded(source.name)));
    assert(values[1] == property_tree("sample-rate"@, decimal(source.sample_rate as nat)));
    assert(values[2] == property_tree("format"@, source.format.spec_name()));
    assert(values[3] == property_tree("channels"@, decimal(source.channels as nat)));
    assert(values[4] == property_tree("frames"@, decimal(source.frames as nat)));
    lemma_line_tame("source"@, values);
}

/// The line of a bank sample is tame.
proof fn lemma_sample_tame(sample: Cutting)
    requires
        cut_well(sample),
    ensures
        tree_tame(sample_tree(sample), max_levels()),
{
    lemma_words_tame();
    lemma_decimal_tame(sample.id as nat);
    law_encoding_round_trips(sample.name);
    law_encoding_round_trips(sample.file);
    lemma_decimal_tame(sample.frames as nat);
    lemma_numeral_tame(sample.peak);
    lemma_property_tame("frames"@, decimal(sample.frames as nat), 63);
    lemma_property_tame("peak"@, sample.peak, 63);
    let first = sample_values(sample);
    assert forall|i: int| 0 <= i < first.len() implies tree_tame(#[trigger] first[i], 63) by {
        if i == 0 {
            assert(first[i] == Tree::Ref(decimal(sample.id as nat)));
        } else if i == 1 {
            assert(first[i] == Tree::Ref(encoded(sample.name)));
        } else if i == 2 {
            assert(first[i] == Tree::Ref(encoded(sample.file)));
        } else if i == 3 {
            assert(first[i] == property_tree("frames"@, decimal(sample.frames as nat)));
        } else {
            assert(first[i] == property_tree("peak"@, sample.peak));
        }
    }
    let second = note_values(sample);
    if let Some(note) = sample.note {
        lemma_decimal_tame(note as nat);
        lemma_property_tame("note"@, decimal(note as nat), 63);
        assert(second[0] == property_tree("note"@, decimal(note as nat)));
    }
    let third = frequency_values(sample);
    if let Some(frequency) = sample.frequency {
        lemma_numeral_tame(frequency);
        lemma_property_tame("frequency"@, frequency, 63);
        assert(third[0] == property_tree("frequency"@, frequency));
    }
    let values = first + second + third;
    assert forall|i: int| 0 <= i < values.len() implies tree_tame(#[trigger] values[i], 63) by {
        if i < first.len() {
            assert(values[i] == first[i]);
        } else if i < first.len() + second.len() {
            assert(values[i] == second[i - first.len()]);
        } else {
            assert(values[i] == third[i - first.len() - second.len()]);
        }
    }
    lemma_line_tame("sample"@, values);
}

/// A line of tame references is tame.
proof fn lemma_references_tame(id: Seq<char>, values: Seq<Tree>)
    requires
        tame(id),
        values.len() > 0,
        forall|i: int|
            0 <= i < values.len() ==> (#[trigger] values[i] matches Tree::Ref(name) && tame(name)),
    ensures
        tree_tame(Tree::Link(Some(id), values), max_levels()),
{
    assert forall|i: int| 0 <= i < values.len() implies tree_tame(#[trigger] values[i], 63) by {
        assert(values[i] matches Tree::Ref(name) && tame(name));
    }
    lemma_line_tame(id, values);
}

/// The line of a stem is tame.
proof fn lemma_stem_tame(stem: Named)
    ensures
        tree_tame(stem_tree(stem), max_levels()),
{
    lemma_words_tame();
    law_encoding_round_trips(stem.name);
    law_encoding_round_trips(stem.file);
    lemma_references_tame("stem"@, stem_tree(stem)->Link_1);
}

/// The line of a placement is tame.
proof fn lemma_placement_tame(placement: Placement)
    ensures
        tree_tame(placement_tree(placement), max_levels()),
{
    lemma_words_tame();
    lemma_decimal_tame(placement.sample as nat);
    lemma_decimal_tame(placement.channel as nat);
    lemma_signed_tame(placement.start as int);
    lemma_signed_tame(placement.gain.over_scale() as int);
    lemma_references_tame("placement"@, placement_tree(placement)->Link_1);
}

/// The line of a note is tame.
proof fn lemma_note_tame(note: Played)
    requires
        played_well(note),
    ensures
        tree_tame(note_tree(note), max_levels()),
{
    lemma_words_tame();
    lemma_decimal_tame(note.channel as nat);
    lemma_decimal_tame(note.start as nat);
    lemma_decimal_tame(note.length as nat);
    lemma_decimal_tame(note.note as nat);
    lemma_decimal_tame(note.velocity as nat);
    lemma_numeral_tame(note.frequency);
    lemma_numeral_tame(note.confidence);
    lemma_references_tame("note"@, note_tree(note)->Link_1);
}

/// Two tame documents are one.
proof fn lemma_tame_together(first: Seq<Tree>, second: Seq<Tree>)
    requires
        document_tame(first),
        document_tame(second),
    ensures
        document_tame(first + second),
{
    let both = first + second;
    assert forall|i: int| 0 <= i < both.len() implies {
        &&& #[trigger] both[i] is Link
        &&& tree_tame(both[i], max_levels())
    } by {
        if i < first.len() {
            assert(both[i] == first[i]);
        } else {
            assert(both[i] == second[i - first.len()]);
        }
    }
}

/// A manifest is written in a form that reading gives back as it was.
pub proof fn lemma_manifest_tame(manifest: Inventory)
    requires
        whole(manifest),
    ensures
        document_tame(document_of(manifest)),
        document_of(manifest).len() > 0,
{
    lemma_words_tame();
    let head = seq![version_tree(), source_tree(manifest.source)];
    lemma_references_tame("decomposition"@, version_tree()->Link_1);
    lemma_source_tame(manifest.source);
    assert(document_tame(head)) by {
        assert(head[0] == version_tree());
        assert(head[1] == source_tree(manifest.source));
    }
    assert(document_tame(stem_trees(manifest.stems))) by {
        assert forall|i: int| 0 <= i < manifest.stems.len() implies tree_tame(
            #[trigger] stem_trees(manifest.stems)[i],
            max_levels(),
        ) by {
            lemma_stem_tame(manifest.stems[i]);
        }
    }
    assert(document_tame(sample_trees(manifest.samples))) by {
        assert forall|i: int| 0 <= i < manifest.samples.len() implies tree_tame(
            #[trigger] sample_trees(manifest.samples)[i],
            max_levels(),
        ) by {
            lemma_sample_tame(manifest.samples[i]);
        }
    }
    assert(document_tame(placement_trees(manifest.placements))) by {
        assert forall|i: int| 0 <= i < manifest.placements.len() implies tree_tame(
            #[trigger] placement_trees(manifest.placements)[i],
            max_levels(),
        ) by {
            lemma_placement_tame(manifest.placements[i]);
        }
    }
    assert(document_tame(note_trees(manifest.notes))) by {
        assert forall|i: int| 0 <= i < manifest.notes.len() implies tree_tame(
            #[trigger] note_trees(manifest.notes)[i],
            max_levels(),
        ) by {
            lemma_note_tame(manifest.notes[i]);
        }
    }
    law_encoding_round_trips(manifest.residual);
    lemma_references_tame("residual"@, residual_tree(manifest.residual)->Link_1);
    assert(document_tame(seq![residual_tree(manifest.residual)]));
    if let Some(file) = manifest.correction {
        law_encoding_round_trips(file);
        lemma_references_tame("correction"@, correction_tree(file)->Link_1);
    }
    assert(document_tame(correction_trees(manifest.correction)));
    let two = head + stem_trees(manifest.stems);
    let three = two + sample_trees(manifest.samples);
    let four = three + placement_trees(manifest.placements);
    let five = four + note_trees(manifest.notes);
    let six = five + seq![residual_tree(manifest.residual)];
    lemma_tame_together(head, stem_trees(manifest.stems));
    lemma_tame_together(two, sample_trees(manifest.samples));
    lemma_tame_together(three, placement_trees(manifest.placements));
    lemma_tame_together(four, note_trees(manifest.notes));
    lemma_tame_together(five, seq![residual_tree(manifest.residual)]);
    lemma_tame_together(six, correction_trees(manifest.correction));
}

/// Whether the numbers that were read of a manifest so far are numbers.
pub open spec fn sketched_well(sketch: Sketch) -> bool {
    &&& forall|i: int| 0 <= i < sketch.samples.len() ==> cut_well(#[trigger] sketch.samples[i])
    &&& forall|i: int| 0 <= i < sketch.notes.len() ==> played_well(#[trigger] sketch.notes[i])
}

/// One more line keeps the numbers numbers.
proof fn lemma_line_is_whole(sketch: Sketch, line: Tree)
    requires
        sketched_well(sketch),
        with_line(sketch, line) is Ok,
    ensures
        sketched_well(with_line(sketch, line)->Ok_0),
{
    let after = with_line(sketch, line)->Ok_0;
    let values = line->Link_1;
    assert forall|i: int| 0 <= i < after.samples.len() implies cut_well(
        #[trigger] after.samples[i],
    ) by {
        if i < sketch.samples.len() {
            assert(after.samples[i] == sketch.samples[i]);
        } else {
            assert(sample_of(values) == Ok::<Cutting, Fault>(after.samples[i]));
        }
    }
    assert forall|i: int| 0 <= i < after.notes.len() implies played_well(
        #[trigger] after.notes[i],
    ) by {
        if i < sketch.notes.len() {
            assert(after.notes[i] == sketch.notes[i]);
        } else {
            assert(note_of(values) == Ok::<Played, Fault>(after.notes[i]));
        }
    }
}

/// The numbers that are read of several lines are numbers.
proof fn lemma_sketch_is_whole(document: Seq<Tree>)
    requires
        sketched(document) is Ok,
    ensures
        sketched_well(sketched(document)->Ok_0),
    decreases document.len(),
{
    if document.len() == 0 {
        reveal(sketched);
    } else {
        lemma_one_more(document.drop_last(), document.last());
        assert(document.drop_last().push(document.last()) =~= document);
        lemma_sketch_is_whole(document.drop_last());
        lemma_line_is_whole(sketched(document.drop_last())->Ok_0, document.last());
    }
}

/// The numbers of a manifest that was read are numbers, so that it can be
/// written and read again.
pub proof fn law_read_manifests_are_whole(document: Seq<Tree>)
    requires
        inventory_of(document) is Ok,
    ensures
        whole(inventory_of(document)->Ok_0),
{
    lemma_sketch_is_whole(document);
}

} // verus!
