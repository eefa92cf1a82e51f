//! What the commands print, and the lists they are given.

use vstd::prelude::*;

use crate::associative::schema::{Cutting, Inventory, Manifest, Named};
use crate::decompose::model::{Origin, SourceInfo};
use crate::error::{Error, Fault};
use crate::text::{
    chars_of, decimal, decimal_text, lower, lower_text, same, string_of, trim, trimmed,
};

verus! {

/// Word that asks for every project format.
pub const ALL: &'static str = "all";

/// Word that asks for no project at all.
pub const NONE: &'static str = "none";

// Lists of formats.

/// What a text falls into at its commas, spaces around a part not counting.
pub open spec fn parts_of(text: Seq<char>) -> Seq<Seq<char>>
    decreases text.len(),
{
    if text.len() == 0 {
        seq![Seq::empty()]
    } else {
        let before = parts_of(text.drop_last());
        if text.last() == ',' {
            before.push(Seq::empty())
        } else {
            before.drop_last().push(before.last().push(text.last()))
        }
    }
}

/// The names among some parts: what is left of them without the spaces around,
/// where anything is.
pub open spec fn names_in(parts: Seq<Seq<char>>) -> Seq<Seq<char>>
    decreases parts.len(),
{
    if parts.len() == 0 {
        Seq::empty()
    } else {
        let before = names_in(parts.drop_last());
        if trimmed(parts.last()).len() == 0 {
            before
        } else {
            before.push(trimmed(parts.last()))
        }
    }
}

/// The names that several comma-separated items list.
pub open spec fn names_listed(items: Seq<Seq<char>>) -> Seq<Seq<char>>
    decreases items.len(),
{
    if items.len() == 0 {
        Seq::empty()
    } else {
        names_listed(items.drop_last()) + names_in(parts_of(items.last()))
    }
}

/// The texts of several strings.
pub open spec fn texts(items: Seq<String>) -> Seq<Seq<char>> {
    Seq::new(items.len(), |i: int| items[i]@)
}

/// There is always a part.
proof fn lemma_parts(text: Seq<char>)
    ensures
        parts_of(text).len() > 0,
    decreases text.len(),
{
    if text.len() > 0 {
        lemma_parts(text.drop_last());
    }
}

/// Adds a part to the names, if it is one.
fn add_name(names: &mut Vec<String>, part: Vec<char>)
    ensures
        texts(final(names)@) == (if trimmed(part@).len() == 0 {
            texts(old(names)@)
        } else {
            texts(old(names)@).push(trimmed(part@))
        }),
{
    let inner = trim(part);
    if inner.len() > 0 {
        let ghost before = texts(names@);
        names.push(string_of(&inner));
        assert(texts(names@) =~= before.push(inner@));
    }
}

/// The names that a comma-separated item lists, behind those already there.
fn add_names(names: &mut Vec<String>, item: &str)
    ensures
        texts(final(names)@) == texts(old(names)@) + names_in(parts_of(item@)),
{
    let characters = chars_of(item);
    let ghost before = texts(names@);
    let mut part: Vec<char> = Vec::new();
    let mut index: usize = 0;
    proof {
        assert(characters@.take(0) =~= Seq::<char>::empty());
        assert(parts_of(characters@.take(0)).drop_last() =~= Seq::<Seq<char>>::empty());
        assert(before + names_in(Seq::<Seq<char>>::empty()) =~= before);
        assert(part@ =~= parts_of(characters@.take(0)).last());
    }
    while index < characters.len()
        invariant
            index <= characters@.len(),
            parts_of(characters@.take(index as int)).len() > 0,
            part@ == parts_of(characters@.take(index as int)).last(),
            texts(names@) == before + names_in(
                parts_of(characters@.take(index as int)).drop_last(),
            ),
        decreases characters@.len() - index,
    {
        let character: char = characters[index];
        let ghost parts = parts_of(characters@.take(index as int));
        let ghost next = parts_of(characters@.take(index + 1));
        proof {
            assert(characters@.take(index + 1).drop_last() =~= characters@.take(index as int));
            assert(characters@.take(index + 1).last() == character);
        }
        if character == ',' {
            assert(next.drop_last() =~= parts);
            add_name(names, part);
            assert(texts(names@) =~= before + names_in(parts));
            part = Vec::new();
            assert(part@ =~= next.last());
        } else {
            assert(next.drop_last() =~= parts.drop_last());
            part.push(character);
        }
        index = index + 1;
    }
    assert(characters@.take(index as int) =~= characters@);
    add_name(names, part);
    assert(texts(names@) =~= before + names_in(parts_of(item@)));
}

/// The names that a `--formats` list holds, in the order they were written,
/// blank entries left out.
pub fn names(list: &Vec<String>) -> (names: Vec<String>)
    ensures
        texts(names@) == names_listed(texts(list@)),
{
    let mut names: Vec<String> = Vec::new();
    let mut index: usize = 0;
    let ghost items = texts(list@);
    proof {
        assert(items.take(0) =~= Seq::<Seq<char>>::empty());
        assert(texts(names@) =~= Seq::<Seq<char>>::empty());
    }
    while index < list.len()
        invariant
            index <= list@.len(),
            items == texts(list@),
            texts(names@) == names_listed(items.take(index as int)),
        decreases list@.len() - index,
    {
        add_names(&mut names, list[index].as_str());
        proof {
            assert(items.take(index + 1).drop_last() =~= items.take(index as int));
            assert(items.take(index + 1).last() == list@[index as int]@);
        }
        index = index + 1;
    }
    assert(items.take(index as int) =~= items);
    names
}

/// A list with a format in it, at the end unless it is there already.
pub open spec fn with_format(chosen: Seq<usize>, format: usize) -> Seq<usize> {
    if chosen.contains(format) {
        chosen
    } else {
        chosen.push(format)
    }
}

/// A list with every format in it.
pub open spec fn with_all(chosen: Seq<usize>, count: nat) -> Seq<usize>
    decreases count,
{
    if count == 0 {
        chosen
    } else {
        with_format(with_all(chosen, (count - 1) as nat), (count - 1) as usize)
    }
}

/// What is said of a name that is no format.
pub open spec fn unknown(name: Seq<char>, known: Seq<char>) -> Fault {
    Fault::InvalidArgument(
        name + " is not a project format; known formats are "@ + known,
    )
}

/// The formats that the names from a position on add to those chosen before:
/// the word for none cancels everything, the word for all adds every format,
/// and any other name adds the one that it stands for, if it stands for one.
pub open spec fn selection(
    names: Seq<Seq<char>>,
    parsed: Seq<Option<usize>>,
    from: nat,
    chosen: Seq<usize>,
    count: nat,
    known: Seq<char>,
) -> Result<Seq<usize>, Fault>
    decreases names.len() - from,
{
    if from >= names.len() {
        Ok(chosen)
    } else if lower(names[from as int]) == "none"@ {
        Ok(Seq::empty())
    } else if lower(names[from as int]) == "all"@ {
        selection(names, parsed, from + 1, with_all(chosen, count), count, known)
    } else {
        match parsed[from as int] {
            Some(format) => selection(
                names,
                parsed,
                from + 1,
                with_format(chosen, format),
                count,
                known,
            ),
            None => Err(unknown(names[from as int], known)),
        }
    }
}

/// Adds a format to a list, unless it is there already.
fn add_format(chosen: &mut Vec<usize>, format: usize)
    ensures
        final(chosen)@ == with_format(old(chosen)@, format),
{
    let mut index: usize = 0;
    while index < chosen.len()
        invariant
            index <= chosen@.len(),
            chosen@ == old(chosen)@,
            forall|k: int| 0 <= k < index ==> chosen@[k] != format,
        decreases chosen@.len() - index,
    {
        if chosen[index] == format {
            assert(chosen@.contains(format));
            return;
        }
        index = index + 1;
    }
    chosen.push(format);
}

/// The formats a list names, each once and in the order they were written.
///
/// The list is taken literally: an unknown name is an error rather than a
/// silently skipped export. What each name stands for is looked up beforehand,
/// among `count` formats.
pub fn formats(
    names: &Vec<String>,
    parsed: &Vec<Option<usize>>,
    count: usize,
    known: &str,
) -> (chosen: Result<Vec<usize>, Error>)
    requires
        parsed@.len() == names@.len(),
    ensures
        match selection(texts(names@), parsed@, 0, Seq::empty(), count as nat, known@) {
            Ok(expected) => chosen matches Ok(list) && list@ == expected,
            Err(fault) => chosen matches Err(error) && error@ == fault,
        },
{
    let mut chosen: Vec<usize> = Vec::new();
    let mut index: usize = 0;
    let ghost items = texts(names@);
    let ghost whole = selection(items, parsed@, 0, Seq::empty(), count as nat, known@);
    assert(chosen@ =~= Seq::<usize>::empty());
    while index < names.len()
        invariant
            index <= names@.len(),
            parsed@.len() == names@.len(),
            items == texts(names@),
            whole == selection(items, parsed@, 0, Seq::empty(), count as nat, known@),
            whole == selection(items, parsed@, index as nat, chosen@, count as nat, known@),
        decreases names@.len() - index,
    {
        let name = names[index].as_str();
        assert(items[index as int] == name@);
        let small = string_of(&lower_text(&chars_of(name)));
        if same(small.as_str(), "none") {
            let nothing: Vec<usize> = Vec::new();
            assert(nothing@ =~= Seq::<usize>::empty());
            return Ok(nothing);
        }
        if same(small.as_str(), "all") {
            let ghost before = chosen@;
            let mut format: usize = 0;
            while format < count
                invariant
                    format <= count,
                    chosen@ == with_all(before, format as nat),
                decreases count - format,
            {
                add_format(&mut chosen, format);
                format = format + 1;
            }
        } else {
            match parsed[index] {
                Some(format) => {
                    add_format(&mut chosen, format);
                },
                None => {
                    let mut message = name.to_string();
                    message.append(" is not a project format; known formats are ");
                    message.append(known);
                    return Err(Error::InvalidArgument(message));
                },
            }
        }
        index = index + 1;
    }
    Ok(chosen)
}

/// A format that was chosen was chosen once.
pub proof fn law_formats_are_chosen_once(
    names: Seq<Seq<char>>,
    parsed: Seq<Option<usize>>,
    from: nat,
    chosen: Seq<usize>,
    count: nat,
    known: Seq<char>,
)
    requires
        chosen.no_duplicates(),
    ensures
        selection(names, parsed, from, chosen, count, known) matches Ok(list)
            ==> list.no_duplicates(),
    decreases names.len() - from,
{
    if from < names.len() {
        lemma_with_all(chosen, count);
        law_formats_are_chosen_once(names, parsed, from + 1, with_all(chosen, count), count, known);
        if let Some(format) = parsed[from as int] {
            law_formats_are_chosen_once(
                names,
                parsed,
                from + 1,
                with_format(chosen, format),
                count,
                known,
            );
        }
    }
}

/// Adding every format repeats none.
proof fn lemma_with_all(chosen: Seq<usize>, count: nat)
    requires
        chosen.no_duplicates(),
    ensures
        with_all(chosen, count).no_duplicates(),
    decreases count,
{
    if count > 0 {
        lemma_with_all(chosen, (count - 1) as nat);
    }
}

// Descriptions.

/// The lines that describe the recording an archive came from, its duration
/// written beforehand.
pub open spec fn source_lines(source: Origin, duration: Seq<char>) -> Seq<char> {
    "recording: "@ + source.name + seq!['\n'] + "  "@ + decimal(source.sample_rate as nat)
        + " Hz, "@ + decimal(source.channels as nat) + " channel(s), "@ + decimal(
        source.frames as nat,
    ) + " frames, "@ + duration + " ("@ + source.format.spec_name() + ")"@ + seq!['\n']
}

/// Describes the recording an archive came from.
pub fn describe_source(source: &SourceInfo, duration: &str) -> (text: String)
    ensures
        text@ == source_lines(source@, duration@),
{
    let mut text = "recording: ".to_string();
    text.append(source.name.as_str());
    text.push('\n');
    assert(text@ =~= "recording: "@ + source@.name + seq!['\n']);
    text.append("  ");
    text.append(decimal_text(source.sample_rate as u64).as_str());
    text.append(" Hz, ");
    text.append(decimal_text(source.channels as u64).as_str());
    text.append(" channel(s), ");
    text.append(decimal_text(source.frames as u64).as_str());
    text.append(" frames, ");
    text.append(duration);
    text.append(" (");
    text.append(source.format.name());
    text.append(")");
    let ghost before = text@;
    text.push('\n');
    assert(text@ =~= before + seq!['\n']);
    text
}

/// The names of several stems with commas between them.
pub open spec fn stem_names(stems: Seq<Named>) -> Seq<char>
    decreases stems.len(),
{
    if stems.len() == 0 {
        Seq::empty()
    } else if stems.len() == 1 {
        stems[0].name
    } else {
        stem_names(stems.drop_last()) + ", "@ + stems.last().name
    }
}

/// How many samples sound a note.
pub open spec fn pitched(samples: Seq<Cutting>) -> nat
    decreases samples.len(),
{
    if samples.len() == 0 {
        0
    } else {
        pitched(samples.drop_last()) + if samples.last().note is Some {
            1nat
        } else {
            0nat
        }
    }
}

/// The lines that describe what a decomposition holds.
pub open spec fn manifest_lines(manifest: Inventory, duration: Seq<char>) -> Seq<char> {
    source_lines(manifest.source, duration) + "stems: "@ + (if manifest.stems.len() == 0 {
        "none"@
    } else {
        stem_names(manifest.stems)
    }) + seq!['\n'] + "bank: "@ + decimal(manifest.samples.len()) + " sample(s), "@ + decimal(
        pitched(manifest.samples),
    ) + " pitched, "@ + decimal(manifest.placements.len()) + " placement(s)"@ + seq!['\n']
        + "notes: "@ + decimal(manifest.notes.len()) + seq!['\n'] + correction_line(
        manifest.correction,
    )
}

/// The line that names a correction, where there is one.
pub open spec fn correction_line(correction: Option<Seq<char>>) -> Seq<char> {
    match correction {
        Some(file) => "correction: "@ + file + seq!['\n'],
        None => Seq::empty(),
    }
}

/// The names of the stems with commas between them.
fn join_stems(manifest: &Manifest) -> (text: String)
    requires
        manifest.stems@.len() > 0,
    ensures
        text@ == stem_names(manifest@.stems),
{
    let ghost stems = manifest@.stems;
    let mut text = manifest.stems[0].name.clone();
    let mut index: usize = 1;
    assert(stems.take(1)[0] == stems[0]);
    while index < manifest.stems.len()
        invariant
            stems == manifest@.stems,
            1 <= index <= manifest.stems@.len(),
            text@ == stem_names(stems.take(index as int)),
        decreases manifest.stems@.len() - index,
    {
        text.append(", ");
        text.append(manifest.stems[index].name.as_str());
        proof {
            assert(stems.take(index + 1).drop_last() =~= stems.take(index as int));
            assert(stems.take(index + 1).last() == stems[index as int]);
        }
        index = index + 1;
    }
    assert(stems.take(index as int) =~= stems);
    text
}

/// How many samples sound a note.
fn count_pitched(manifest: &Manifest) -> (count: usize)
    ensures
        count == pitched(manifest@.samples),
{
    let ghost samples = manifest@.samples;
    let mut count: usize = 0;
    let mut index: usize = 0;
    assert(samples.take(0) =~= Seq::<Cutting>::empty());
    while index < manifest.samples.len()
        invariant
            samples == manifest@.samples,
            index <= manifest.samples@.len(),
            count <= index,
            count == pitched(samples.take(index as int)),
        decreases manifest.samples@.len() - index,
    {
        proof {
            assert(samples.take(index + 1).drop_last() =~= samples.take(index as int));
            assert(samples.take(index + 1).last() == samples[index as int]);
        }
        if manifest.samples[index].note.is_some() {
            count = count + 1;
        }
        index = index + 1;
    }
    assert(samples.take(index as int) =~= samples);
    count
}

/// Ends a line.
fn end_line(text: &mut String)
    ensures
        final(text)@ == old(text)@ + seq!['\n'],
{
    text.push('\n');
    assert(text@ =~= old(text)@ + seq!['\n']);
}

/// Describes what a decomposition holds.
pub fn describe_manifest(manifest: &Manifest, duration: &str) -> (text: String)
    ensures
        text@ == manifest_lines(manifest@, duration@),
{
    let mut text = describe_source(&manifest.source, duration);
    text.append("stems: ");
    if manifest.stems.len() == 0 {
        text.append("none");
    } else {
        text.append(join_stems(manifest).as_str());
    }
    end_line(&mut text);
    text.append("bank: ");
    text.append(decimal_text(manifest.samples.len() as u64).as_str());
    text.append(" sample(s), ");
    text.append(decimal_text(count_pitched(manifest) as u64).as_str());
    text.append(" pitched, ");
    text.append(decimal_text(manifest.placements.len() as u64).as_str());
    text.append(" placement(s)");
    end_line(&mut text);
    text.append("notes: ");
    text.append(decimal_text(manifest.notes.len() as u64).as_str());
    end_line(&mut text);
    let ghost before = text@;
    match &manifest.correction {
        Some(file) => {
            text.append("correction: ");
            text.append(file.as_str());
            end_line(&mut text);
            assert(text@ =~= before + correction_line(manifest@.correction));
        },
        None => {
            assert(text@ =~= before + correction_line(manifest@.correction));
        },
    }
    text
}

/// A comma parts a text in two.
proof fn lemma_parts_at_comma(first: Seq<char>, second: Seq<char>)
    ensures
        parts_of(first + seq![','] + second) == parts_of(first) + parts_of(second),
        parts_of(second).len() > 0,
    decreases second.len(),
{
    let whole = first + seq![','] + second;
    if second.len() == 0 {
        assert(whole.drop_last() =~= first);
        assert(whole.last() == ',');
        assert(parts_of(first).push(Seq::empty()) =~= parts_of(first) + seq![
            Seq::<char>::empty(),
        ]);
    } else {
        let less = second.drop_last();
        lemma_parts_at_comma(first, less);
        assert(whole.drop_last() =~= first + seq![','] + less);
        assert(whole.last() == second.last());
        let all = parts_of(first) + parts_of(less);
        assert(all.drop_last() =~= parts_of(first) + parts_of(less).drop_last());
        assert(all.last() == parts_of(less).last());
        if second.last() == ',' {
            assert(all.push(Seq::empty()) =~= parts_of(first) + parts_of(less).push(Seq::empty()));
        } else {
            let grown = parts_of(less).last().push(second.last());
            assert(all.drop_last().push(grown) =~= parts_of(first) + parts_of(
                less,
            ).drop_last().push(grown));
        }
    }
}

proof fn lemma_names_concat(first: Seq<Seq<char>>, second: Seq<Seq<char>>)
    ensures
        names_in(first + second) == names_in(first) + names_in(second),
    decreases second.len(),
{
    if second.len() == 0 {
        assert(first + second =~= first);
        assert(names_in(first) + names_in(second) =~= names_in(first));
    } else {
        lemma_names_concat(first, second.drop_last());
        assert((first + second).drop_last() =~= first + second.drop_last());
        assert((first + second).last() == second.last());
        assert(names_in(first + second) =~= names_in(first) + names_in(second));
    }
}

/// A text without a comma is one part.
proof fn lemma_one_part(text: Seq<char>)
    requires
        !text.contains(','),
    ensures
        parts_of(text) == seq![text],
    decreases text.len(),
{
    if text.len() == 0 {
        assert(text =~= Seq::empty());
    } else {
        let less = text.drop_last();
        assert(!less.contains(',')) by {
            if less.contains(',') {
                let k = choose|k: int| 0 <= k < less.len() && less[k] == ',';
                assert(text[k] == ',');
            }
        }
        lemma_one_part(less);
        assert(text[text.len() - 1] != ',');
        assert(less.push(text.last()) =~= text);
        assert(seq![less].drop_last().push(less.push(text.last())) =~= seq![text]);
    }
}

/// Names may be listed one by one or with commas between them: either way the
/// same names are listed, in the same order.
pub proof fn law_commas_list_names(items: Seq<Seq<char>>, first: Seq<char>, second: Seq<char>)
    ensures
        names_listed(items.push(first + seq![','] + second)) == names_listed(
            items.push(first).push(second),
        ),
{
    let joined = items.push(first + seq![','] + second);
    let apart = items.push(first).push(second);
    assert(joined.drop_last() =~= items);
    assert(apart.drop_last() =~= items.push(first));
    assert(items.push(first).drop_last() =~= items);
    lemma_parts_at_comma(first, second);
    lemma_names_concat(parts_of(first), parts_of(second));
    let one = names_in(parts_of(first));
    let other = names_in(parts_of(second));
    assert(names_listed(items.push(first)) == names_listed(items) + one);
    assert(names_listed(apart) == names_listed(items) + one + other);
    assert(joined.last() == first + seq![','] + second);
    assert(names_listed(joined) == names_listed(items) + (one + other));
    assert(names_listed(joined) =~= names_listed(apart));
}

/// A text without a comma lists the name that is left of it without the blanks
/// around it, and none where nothing is left.
pub proof fn law_names_are_listed_without_blanks(items: Seq<Seq<char>>, text: Seq<char>)
    requires
        !text.contains(','),
    ensures
        names_listed(items.push(text)) == (if trimmed(text).len() == 0 {
            names_listed(items)
        } else {
            names_listed(items).push(trimmed(text))
        }),
{
    assert(items.push(text).drop_last() =~= items);
    lemma_one_part(text);
    assert(seq![text].drop_last() =~= Seq::<Seq<char>>::empty());
    assert(names_in(seq![text].drop_last()) =~= Seq::<Seq<char>>::empty());
    assert(names_listed(items.push(text)) =~= if trimmed(text).len() == 0 {
        names_listed(items)
    } else {
        names_listed(items).push(trimmed(text))
    });
}

/// Where no name is `none` or `all` and each is that of a format, the formats
/// chosen are the ones that were named, besides those chosen before. Where the
/// first name is `none`, nothing is chosen at all.
pub proof fn law_named_formats_are_chosen(
    names: Seq<Seq<char>>,
    parsed: Seq<Option<usize>>,
    from: nat,
    chosen: Seq<usize>,
    count: nat,
    known: Seq<char>,
    format: usize,
)
    requires
        from <= names.len() == parsed.len(),
        forall|i: int|
            from <= i < names.len() ==> lower(#[trigger] names[i]) != "none"@ && lower(names[i])
                != "all"@,
        forall|i: int| from <= i < names.len() ==> (#[trigger] parsed[i]) is Some,
    ensures
        selection(names, parsed, from, chosen, count, known) matches Ok(all) && (all.contains(
            format,
        ) <==> chosen.contains(format) || exists|i: int|
            from <= i < names.len() && #[trigger] parsed[i] == Some(format)),
    decreases names.len() - from,
{
    if from < names.len() {
        let next = with_format(chosen, parsed[from as int]->Some_0);
        assert(lower(names[from as int]) != "none"@);
        assert(parsed[from as int] is Some);
        law_named_formats_are_chosen(names, parsed, from + 1, next, count, known, format);
        assert(next.contains(format) <==> chosen.contains(format) || parsed[from as int] == Some(
            format,
        )) by {
            if chosen.contains(format) {
                let k = choose|k: int| 0 <= k < chosen.len() && chosen[k] == format;
                assert(next[k] == format);
            }
            if next != chosen {
                assert(next[chosen.len() as int] == parsed[from as int]->Some_0);
                if next.contains(format) && !chosen.contains(format) {
                    let k = choose|k: int| 0 <= k < next.len() && next[k] == format;
                    if k < chosen.len() {
                        assert(chosen[k] == format);
                    }
                }
            }
        }
    }
}

/// Where a name that is no format comes first, the choice is refused.
pub proof fn law_unknown_formats_are_refused(
    names: Seq<Seq<char>>,
    parsed: Seq<Option<usize>>,
    chosen: Seq<usize>,
    count: nat,
    known: Seq<char>,
    from: nat,
)
    requires
        from < names.len() == parsed.len(),
    ensures
        lower(names[from as int]) == "none"@ ==> selection(
            names,
            parsed,
            from,
            chosen,
            count,
            known,
        ) == Ok::<Seq<usize>, Fault>(Seq::empty()),
        lower(names[from as int]) != "none"@ && lower(names[from as int]) != "all"@
            && parsed[from as int] is None ==> selection(
            names,
            parsed,
            from,
            chosen,
            count,
            known,
        ) is Err,
{
}

/// Asking for all formats chooses every one of them.
pub proof fn law_all_chooses_every_format(chosen: Seq<usize>, count: nat, format: usize)
    requires
        count <= usize::MAX,
    ensures
        with_all(chosen, count).contains(format) <==> chosen.contains(format) || format < count,
    decreases count,
{
    if count > 0 {
        let less = (count - 1) as nat;
        let before = with_all(chosen, less);
        let all = with_all(chosen, count);
        law_all_chooses_every_format(chosen, less, format);
        if before.contains(format) {
            let k = choose|k: int| 0 <= k < before.len() && before[k] == format;
            assert(all[k] == format);
        }
        if all != before {
            assert(all[before.len() as int] == less as usize);
            if all.contains(format) && !before.contains(format) {
                let k = choose|k: int| 0 <= k < all.len() && all[k] == format;
                if k < before.len() {
                    assert(before[k] == format);
                }
            }
        }
    }
}

/// The pitched samples of a bank are counted one by one.
pub proof fn law_pitched_samples_are_counted(samples: Seq<Cutting>, sample: Cutting)
    ensures
        pitched(samples.push(sample)) == pitched(samples) + (if sample.note is None {
            0nat
        } else {
            1nat
        }),
        pitched(samples) <= samples.len(),
        (forall|i: int| 0 <= i < samples.len() ==> (#[trigger] samples[i]).note is None)
            ==> pitched(samples) == 0,
    decreases samples.len(),
{
    assert(samples.push(sample).drop_last() =~= samples);
    if samples.len() > 0 {
        let front = samples.drop_last();
        law_pitched_samples_are_counted(front, samples.last());
        assert(front.push(samples.last()) =~= samples);
        if forall|i: int| 0 <= i < samples.len() ==> (#[trigger] samples[i]).note is None {
            assert forall|i: int| 0 <= i < front.len() implies (#[trigger] front[i]).note is None by {
                assert(samples[i].note is None);
            }
            assert(samples[samples.len() - 1].note is None);
        }
    }
}

/// Stems are named one behind the other, with a comma and a space between them.
pub proof fn law_stems_are_named_in_order(stems: Seq<Named>, stem: Named)
    ensures
        stem_names(stems.push(stem)) == (if stems.len() == 0 {
            stem.name
        } else {
            stem_names(stems) + seq![',', ' '] + stem.name
        }),
{
    reveal_strlit(", ");
    assert(", "@ =~= seq![',', ' ']);
    assert(stems.push(stem).drop_last() =~= stems);
}

} // verus!
