//! What an archive directory holds, and whether its parts fit together.
//!
//! An archive is a plain directory:
//!
//! ```text
//! song.decomposition/
//!   decomposition.lino     the manifest, in Links Notation
//!   stems/harmonic.wav     one file per stem, summing to the recording
//!   stems/percussive.wav
//!   samples/kick-01.wav    one file per bank sample, mono
//!   residual.wav           what the bank could not explain
//!   correction.wav         present only when a float source needed one
//! ```
//!
//! A buffer is stored in its own sample format when that format can hold it
//! exactly, and otherwise in the narrowest format that can, so nothing is ever
//! rounded on the way to disk and nothing pays for precision it does not carry.

use vstd::prelude::*;

use crate::associative::faithful::{played_well, whole};
use crate::associative::schema::{
    all_cut, all_named, all_played, conventional, copy_notes, copy_placements, cut_well,
    number_text, sample_file_of, stem_file_of, Cutting, Entry, Inventory, Manifest, Named,
    SampleEntry,
};
use crate::audio::float::limited;
use crate::audio::grid::{
    gridded, law_stored_buffers_keep_their_samples, lies_on, stored, stored_as, takeable,
};
use crate::audio::{wav, Audio, SampleFormat, Sound};
use crate::decompose::model::{stacked, waves, Decomposition, Origin, Placement, Sample, Stem};
use crate::error::{Error, Fault};
use crate::number::{lemma_decimal, Number};
use crate::path::{
    join, joined, lemma_pieces_alone, lemma_pieces_at_slash, parent, pieces, split, views,
};
use crate::text::{chars_of, decimal, decimal_text, same};

verus! {

/// Name of the manifest inside an archive directory.
pub const MANIFEST_FILE: &'static str = "decomposition.lino";

// Files that nothing else has claimed.

/// Where the last dot of a file stands, or where it ends if there is none.
pub open spec fn dot_of(file: Seq<char>) -> int
    decreases file.len(),
{
    if !file.contains('.') {
        file.len() as int
    } else if file.last() == '.' {
        file.len() - 1
    } else {
        dot_of(file.drop_last())
    }
}

/// A file with a number put before its extension.
pub open spec fn numbered(file: Seq<char>, number: nat) -> Seq<char> {
    file.take(dot_of(file)) + seq!['-'] + decimal(number) + file.skip(dot_of(file))
}

/// Whether a number is the least, from two on, that makes a file one that
/// nothing has claimed.
pub open spec fn is_free(taken: Seq<Seq<char>>, file: Seq<char>, number: nat) -> bool {
    &&& number >= 2
    &&& !taken.contains(numbered(file, number))
    &&& forall|other: nat| 2 <= other < number ==> taken.contains(#[trigger] numbered(file, other))
}

/// The file that is claimed when one is asked for: itself, or the same with the
/// first number that is free.
pub open spec fn claimed(taken: Seq<Seq<char>>, file: Seq<char>) -> Seq<char> {
    if taken.contains(file) {
        numbered(file, choose|number: nat| is_free(taken, file, number))
    } else {
        file
    }
}

/// The files that are claimed when several are asked for, one after the other.
pub open spec fn all_claimed(files: Seq<Seq<char>>) -> Seq<Seq<char>>
    decreases files.len(),
{
    if files.len() == 0 {
        Seq::empty()
    } else {
        let before = all_claimed(files.drop_last());
        before.push(claimed(before, files.last()))
    }
}

/// The texts of several files.
pub open spec fn texts(files: Seq<String>) -> Seq<Seq<char>> {
    Seq::new(files.len(), |i: int| files[i]@)
}

/// The last dot stands inside the file.
proof fn lemma_dot(file: Seq<char>)
    ensures
        0 <= dot_of(file) <= file.len(),
    decreases file.len(),
{
    if file.contains('.') && file.last() != '.' {
        lemma_dot(file.drop_last());
    }
}

/// Numbers are told apart by what they are put into.
proof fn lemma_numbered(file: Seq<char>, first: nat, second: nat)
    requires
        numbered(file, first) == numbered(file, second),
    ensures
        first == second,
{
    lemma_dot(file);
    let dot = dot_of(file);
    let one = numbered(file, first);
    let two = numbered(file, second);
    assert(one.len() == file.len() + 1 + decimal(first).len());
    assert(two.len() == file.len() + 1 + decimal(second).len());
    assert(decimal(first) =~= one.subrange(dot + 1, dot + 1 + decimal(first).len()));
    assert(decimal(second) =~= two.subrange(dot + 1, dot + 1 + decimal(second).len()));
    lemma_decimal(first);
    lemma_decimal(second);
}

/// There is one free number at most.
proof fn lemma_one_free(taken: Seq<Seq<char>>, file: Seq<char>, first: nat, second: nat)
    requires
        is_free(taken, file, first),
        is_free(taken, file, second),
    ensures
        first == second,
{
    if first < second {
        assert(taken.contains(numbered(file, first)));
    } else if second < first {
        assert(taken.contains(numbered(file, second)));
    }
}

/// No more numbers can be claimed than there are claims.
proof fn lemma_claims(taken: Seq<Seq<char>>, file: Seq<char>, number: nat)
    requires
        number >= 2,
        forall|other: nat| 2 <= other < number ==> taken.contains(#[trigger] numbered(file, other)),
    ensures
        number - 2 <= taken.len(),
{
    let names = Seq::new((number - 2) as nat, |i: int| numbered(file, (i + 2) as nat));
    assert forall|i: int, j: int| 0 <= i < names.len() && 0 <= j < names.len() && i != j implies names[
    i] != names[j] by {
        if names[i] == names[j] {
            lemma_numbered(file, (i + 2) as nat, (j + 2) as nat);
        }
    }
    assert(names.no_duplicates());
    names.unique_seq_to_set();
    taken.lemma_cardinality_of_set();
    assert(names.to_set().subset_of(taken.to_set())) by {
        assert forall|name: Seq<char>| names.to_set().contains(name) implies taken.to_set().contains(
            name,
        ) by {
            let i = names.index_of(name);
            assert(names.contains(name));
            assert(taken.contains(numbered(file, (i + 2) as nat)));
        }
    }
    vstd::set_lib::lemma_len_subset(names.to_set(), taken.to_set());
}

/// Whether a file has been claimed.
fn is_taken(taken: &Vec<String>, file: &str) -> (found: bool)
    ensures
        found == texts(taken@).contains(file@),
{
    let mut index: usize = 0;
    while index < taken.len()
        invariant
            index <= taken@.len(),
            forall|k: int| 0 <= k < index ==> taken@[k]@ != file@,
        decreases taken@.len() - index,
    {
        if same(taken[index].as_str(), file) {
            assert(texts(taken@)[index as int] == file@);
            return true;
        }
        index = index + 1;
    }
    false
}

/// Where the last dot of a file stands, or where it ends if there is none.
fn last_dot(file: &Vec<char>) -> (dot: usize)
    ensures
        dot == dot_of(file@),
{
    let mut end: usize = file.len();
    assert(file@.take(end as int) =~= file@);
    while end > 0 && file[end - 1] != '.'
        invariant
            end <= file@.len(),
            forall|k: int| end <= k < file@.len() ==> file@[k] != '.',
            file@.contains('.') ==> dot_of(file@) == dot_of(file@.take(end as int)),
        ensures
            end > 0 ==> file@[end - 1] == '.',
        decreases end,
    {
        proof {
            let front = file@.take(end as int);
            assert(front.drop_last() =~= file@.take(end - 1));
            if file@.contains('.') {
                let k = file@.index_of('.');
                assert(front[k] == '.');
            }
        }
        end = end - 1;
    }
    if end > 0 {
        proof {
            let front = file@.take(end as int);
            assert(front[end - 1] == '.');
            assert(file@.contains('.'));
            assert(front.last() == '.');
        }
        return end - 1;
    }
    proof {
        if file@.contains('.') {
            let k = file@.index_of('.');
            assert(file@[k] == '.');
        }
    }
    file.len()
}

/// A file with a number put before its extension.
fn with_number(file: &Vec<char>, dot: usize, number: u64) -> (name: String)
    requires
        dot == dot_of(file@),
        dot <= file@.len(),
    ensures
        name@ == numbered(file@, number as nat),
{
    let mut name = String::new();
    let mut index: usize = 0;
    while index < dot
        invariant
            index <= dot <= file@.len(),
            name@ == file@.take(index as int),
        decreases dot - index,
    {
        name.push(file[index]);
        assert(name@ =~= file@.take(index + 1));
        index = index + 1;
    }
    name.push('-');
    name.append(decimal_text(number).as_str());
    let ghost middle = name@;
    while index < file.len()
        invariant
            dot <= index <= file@.len(),
            name@ == middle + file@.subrange(dot as int, index as int),
        decreases file@.len() - index,
    {
        name.push(file[index]);
        assert(name@ =~= middle + file@.subrange(dot as int, index + 1));
        index = index + 1;
    }
    assert(name@ =~= numbered(file@, number as nat));
    name
}

/// A file name that no other part of the archive has claimed yet.
pub fn unique(taken: &mut Vec<String>, file: &str) -> (name: String)
    requires
        old(taken)@.len() < usize::MAX - 2,
    ensures
        name@ == claimed(texts(old(taken)@), file@),
        texts(final(taken)@) == texts(old(taken)@).push(name@),
        !texts(old(taken)@).contains(name@),
        texts(old(taken)@).contains(file@) ==> exists|number: nat|
            #[trigger] is_free(texts(old(taken)@), file@, number) && name@ == numbered(
                file@,
                number,
            ),
{
    let ghost before = texts(taken@);
    let characters = chars_of(file);
    let mut name = file.to_string();
    if is_taken(taken, file) {
        let count: usize = taken.len();
        let dot: usize = last_dot(&characters);
        let mut number: u64 = 2;
        proof {
            lemma_dot(file@);
        }
        name = with_number(&characters, dot, number);
        while is_taken(taken, name.as_str())
            invariant
                count == taken@.len(),
                count < usize::MAX - 2,
                before == texts(taken@),
                characters@ == file@,
                dot == dot_of(file@),
                dot <= file@.len(),
                2 <= number,
                name@ == numbered(file@, number as nat),
                number - 2 <= count,
                forall|other: nat|
                    2 <= other < number ==> before.contains(#[trigger] numbered(file@, other)),
            ensures
                !before.contains(name@),
            decreases count + 2 - number,
        {
            proof {
                assert forall|other: nat| 2 <= other < number + 1 implies before.contains(
                    #[trigger] numbered(file@, other),
                ) by {}
                lemma_claims(before, file@, (number + 1) as nat);
            }
            number = number + 1;
            name = with_number(&characters, dot, number);
        }
        proof {
            assert(is_free(before, file@, number as nat));
            let chosen = choose|chosen: nat| is_free(before, file@, chosen);
            lemma_one_free(before, file@, number as nat, chosen);
        }
    }
    taken.push(name.clone());
    assert(texts(taken@) =~= before.push(name@));
    name
}

/// A file that is claimed twice is claimed with the least number, from two on, that
/// makes it one that nothing has claimed: there always is one, and no other.
pub proof fn law_claims_take_the_least_number(taken: Seq<Seq<char>>, file: Seq<char>) -> (number:
    nat)
    ensures
        !taken.contains(claimed(taken, file)),
        taken.contains(file) ==> {
            &&& is_free(taken, file, number)
            &&& claimed(taken, file) == numbered(file, number)
            &&& forall|other: nat| #[trigger] is_free(taken, file, other) ==> other == number
        },
        !taken.contains(file) ==> claimed(taken, file) == file,
{
    if taken.contains(file) {
        lemma_some_free(taken, file, 2);
        let number = choose|number: nat| is_free(taken, file, number);
        assert forall|other: nat| #[trigger] is_free(taken, file, other) implies other
            == number by {
            lemma_one_free(taken, file, other, number);
        }
        number
    } else {
        0
    }
}

/// No two files that were claimed are the same, and each was free when it was
/// claimed.
pub proof fn law_claimed_files_are_distinct(files: Seq<Seq<char>>)
    ensures
        all_claimed(files).len() == files.len(),
        all_claimed(files).no_duplicates(),
    decreases files.len(),
{
    if files.len() > 0 {
        let before = all_claimed(files.drop_last());
        let file = files.last();
        law_claimed_files_are_distinct(files.drop_last());
        if before.contains(file) {
            lemma_some_free(before, file, 2);
            let number = choose|number: nat| is_free(before, file, number);
            assert(is_free(before, file, number));
        }
        assert(!before.contains(claimed(before, file)));
        let after = all_claimed(files);
        assert forall|i: int, j: int|
            0 <= i < after.len() && 0 <= j < after.len() && i != j implies after[i] != after[j] by {
            if i < before.len() && j < before.len() {
                assert(before[i] != before[j]);
            } else if i < before.len() {
                assert(before.contains(before[i]));
            } else {
                assert(before.contains(before[j]));
            }
        }
    }
}

/// Some number is free.
proof fn lemma_some_free(taken: Seq<Seq<char>>, file: Seq<char>, from: nat)
    requires
        from >= 2,
        forall|other: nat| 2 <= other < from ==> taken.contains(#[trigger] numbered(file, other)),
    ensures
        exists|number: nat| is_free(taken, file, number),
    decreases taken.len() + 2 - from,
{
    lemma_claims(taken, file, from);
    if taken.contains(numbered(file, from)) {
        assert forall|other: nat| 2 <= other < from + 1 implies taken.contains(
            #[trigger] numbered(file, other),
        ) by {}
        lemma_claims(taken, file, from + 1);
        lemma_some_free(taken, file, from + 1);
    } else {
        assert(is_free(taken, file, from));
    }
}

// The manifest.

/// The files that a manifest names for its stems and samples, stems first.
pub open spec fn files_of(manifest: Inventory) -> Seq<Seq<char>> {
    Seq::new(manifest.stems.len(), |i: int| manifest.stems[i].file) + Seq::new(
        manifest.samples.len(),
        |i: int| manifest.samples[i].file,
    )
}

/// The same manifest with other files for its stems and samples.
pub open spec fn refiled(manifest: Inventory, files: Seq<Seq<char>>) -> Inventory {
    Inventory {
        stems: Seq::new(
            manifest.stems.len(),
            |i: int| Named { file: files[i], ..manifest.stems[i] },
        ),
        samples: Seq::new(
            manifest.samples.len(),
            |i: int| Cutting { file: files[manifest.stems.len() + i], ..manifest.samples[i] },
        ),
        ..manifest
    }
}

/// Claiming one more file leaves the earlier ones as they were.
proof fn lemma_claimed_prefix(files: Seq<Seq<char>>, count: int)
    requires
        0 <= count <= files.len(),
    ensures
        all_claimed(files).len() == files.len(),
        all_claimed(files).take(count) == all_claimed(files.take(count)),
    decreases files.len(),
{
    law_claimed_files_are_distinct(files);
    if count == files.len() {
        assert(files.take(count) =~= files);
        assert(all_claimed(files).take(count) =~= all_claimed(files));
    } else {
        lemma_claimed_prefix(files.drop_last(), count);
        law_claimed_files_are_distinct(files.drop_last());
        assert(files.drop_last().take(count) =~= files.take(count));
        assert(all_claimed(files).take(count) =~= all_claimed(files.drop_last()).take(count));
    }
}

/// The manifest an archive of a decomposition carries: the conventional one with
/// one extra guarantee, that no two stems and no two samples share a file, even
/// when their names differ only in characters that a file name cannot hold.
pub fn manifest_of(decomposition: &Decomposition) -> (manifest: Manifest)
    requires
        decomposition.stems@.len() + decomposition.samples@.len() < usize::MAX - 2,
    ensures
        manifest@ == refiled(
            conventional(*decomposition),
            all_claimed(files_of(conventional(*decomposition))),
        ),
        files_of(manifest@).no_duplicates(),
{
    let mut manifest = Manifest::of(decomposition);
    let ghost plain = manifest@;
    let ghost files = files_of(plain);
    let ghost goal = all_claimed(files);
    let mut taken: Vec<String> = Vec::new();
    proof {
        assert(files.take(0) =~= Seq::<Seq<char>>::empty());
        assert(texts(taken@) =~= Seq::<Seq<char>>::empty());
        law_claimed_files_are_distinct(files);
    }
    let mut stems: Vec<Entry> = Vec::new();
    while stems.len() < manifest.stems.len()
        invariant
            manifest@ == plain,
            files == files_of(plain),
            goal == all_claimed(files),
            goal.len() == files.len(),
            manifest.stems@.len() + manifest.samples@.len() < usize::MAX - 2,
            stems@.len() <= manifest.stems@.len(),
            taken@.len() == stems@.len(),
            texts(taken@) == all_claimed(files.take(stems@.len() as int)),
            forall|i: int|
                0 <= i < stems@.len() ==> (#[trigger] stems@[i])@ == (Named {
                    file: goal[i],
                    ..plain.stems[i]
                }),
        decreases manifest.stems@.len() - stems@.len(),
    {
        let index: usize = stems.len();
        let entry = &manifest.stems[index];
        assert(plain.stems[index as int] == entry@);
        assert(files[index as int] == entry.file@);
        assert(files.take(index + 1).drop_last() =~= files.take(index as int));
        let file = unique(&mut taken, entry.file.as_str());
        proof {
            lemma_claimed_prefix(files, index + 1);
            assert(goal.take(index + 1)[index as int] == goal[index as int]);
            assert(texts(taken@) == all_claimed(files.take(index + 1)));
        }
        stems.push(Entry { name: entry.name.clone(), file });
        assert(texts(taken@).len() == taken@.len());
    }
    let mut samples: Vec<SampleEntry> = Vec::new();
    while samples.len() < manifest.samples.len()
        invariant
            manifest@ == plain,
            files == files_of(plain),
            goal == all_claimed(files),
            goal.len() == files.len(),
            manifest.stems@.len() + manifest.samples@.len() < usize::MAX - 2,
            stems@.len() == manifest.stems@.len(),
            samples@.len() <= manifest.samples@.len(),
            taken@.len() == stems@.len() + samples@.len(),
            texts(taken@) == all_claimed(files.take(taken@.len() as int)),
            forall|i: int|
                0 <= i < samples@.len() ==> (#[trigger] samples@[i])@ == (Cutting {
                    file: goal[plain.stems.len() + i],
                    ..plain.samples[i]
                }),
        decreases manifest.samples@.len() - samples@.len(),
    {
        let index: usize = samples.len();
        let entry = &manifest.samples[index];
        let ghost place = plain.stems.len() + index;
        assert(plain.samples[index as int] == entry@);
        assert(files[place] == entry.file@);
        assert(files.take(place + 1).drop_last() =~= files.take(place));
        let file = unique(&mut taken, entry.file.as_str());
        proof {
            lemma_claimed_prefix(files, place + 1);
            assert(goal.take(place + 1)[place] == goal[place]);
            assert(texts(taken@).len() == taken@.len());
        }
        let frequency: Option<Number> = match &entry.frequency {
            Some(number) => Some(number.copy()),
            None => None,
        };
        samples.push(
            SampleEntry {
                id: entry.id,
                name: entry.name.clone(),
                file,
                frames: entry.frames,
                peak: entry.peak.copy(),
                note: entry.note,
                frequency,
            },
        );
        assert(samples@[index as int]@ =~= (Cutting {
            file: goal[plain.stems.len() + index],
            ..plain.samples[index as int]
        }));
    }
    manifest.stems = stems;
    manifest.samples = samples;
    proof {
        let after = refiled(plain, goal);
        assert(all_named(manifest.stems@) =~= after.stems);
        assert(all_cut(manifest.samples@) =~= after.samples);
        assert(files_of(manifest@) =~= goal);
    }
    manifest
}

// Files inside the archive.

/// Whether a file is named inside the directory it is relative to: it does not
/// start at the root or at a lone dot, and nowhere steps up.
pub open spec fn inside(file: Seq<char>) -> bool {
    let parts = pieces(file);
    &&& file.len() == 0 || file[0] != '/'
    &&& parts[0] != seq!['.']
    &&& forall|i: int| 0 <= i < parts.len() ==> (#[trigger] parts[i]) != seq!['.', '.']
}

/// There is at least one piece.
proof fn lemma_pieces(path: Seq<char>)
    ensures
        pieces(path).len() > 0,
    decreases path.len(),
{
    if path.len() > 0 {
        lemma_pieces(path.drop_last());
    }
}

/// Joins a manifest file name onto the archive root, refusing anything that
/// would step outside it.
pub fn resolve(root: &str, file: &str) -> (path: Result<String, Error>)
    ensures
        if inside(file@) {
            path matches Ok(text) && text@ == joined(root@, file@)
        } else {
            path matches Err(error) && error@ == Fault::Format(
                seq!['`'] + file@ + "` is not a name inside the archive"@,
            )
        },
{
    let characters = chars_of(file);
    let parts = split(file);
    proof {
        lemma_pieces(file@);
        assert(views(parts@).len() == parts@.len());
        assert(views(parts@)[0] == parts@[0]@);
    }
    let mut fine: bool = characters.len() == 0 || characters[0] != '/';
    if parts[0].len() == 1 && parts[0][0] == '.' {
        assert(parts@[0]@ =~= seq!['.']);
        fine = false;
    }
    let mut index: usize = 0;
    while index < parts.len()
        invariant
            index <= parts@.len(),
            views(parts@) == pieces(file@),
            fine == ((file@.len() == 0 || file@[0] != '/') && pieces(file@)[0] != seq!['.']
                && forall|i: int|
                0 <= i < index ==> (#[trigger] pieces(file@)[i]) != seq!['.', '.']),
        decreases parts@.len() - index,
    {
        assert(views(parts@)[index as int] == parts@[index as int]@);
        if parent(&parts[index]) {
            assert(pieces(file@)[index as int] == seq!['.', '.']);
            fine = false;
        }
        index = index + 1;
    }
    if !fine {
        let mut message = "`".to_string();
        message.append(file);
        message.append("` is not a name inside the archive");
        proof {
            reveal_strlit("`");
            assert("`"@ =~= seq!['`']);
        }
        return Err(Error::Format(message));
    }
    Ok(join(root, file))
}

/// Whether a file is a sound file straight under a folder.
pub open spec fn filed(file: Seq<char>, folder: Seq<char>) -> bool {
    &&& file.len() >= folder.len() + 5
    &&& file.take(folder.len() as int) == folder
    &&& file[folder.len() as int] == '/'
    &&& forall|i: int| folder.len() < i < file.len() ==> file[i] != '/'
    &&& file[file.len() - 4] == '.'
    &&& file[file.len() - 3] == 'w'
    &&& file[file.len() - 2] == 'a'
    &&& file[file.len() - 1] == 'v'
}

/// A text without a slash is one piece.
proof fn lemma_one_piece(text: Seq<char>)
    requires
        forall|i: int| 0 <= i < text.len() ==> text[i] != '/',
    ensures
        pieces(text) == seq![text],
    decreases text.len(),
{
    if text.len() == 0 {
        assert(text =~= Seq::empty());
    } else {
        lemma_one_piece(text.drop_last());
        assert(text.last() != '/');
        let before = pieces(text.drop_last());
        assert(before.last().push(text.last()) =~= text);
        assert(pieces(text) =~= seq![text]);
    }
}

/// A folder and what is straight under it are two pieces.
proof fn lemma_two_pieces(file: Seq<char>, slash: int)
    requires
        0 <= slash < file.len(),
        file[slash] == '/',
        forall|i: int| 0 <= i < file.len() && i != slash ==> file[i] != '/',
    ensures
        pieces(file) == seq![file.take(slash), file.skip(slash + 1)],
    decreases file.len(),
{
    let front = file.drop_last();
    if slash == file.len() - 1 {
        lemma_one_piece(front);
        assert(front =~= file.take(slash));
        assert(file.skip(slash + 1) =~= Seq::empty());
    } else {
        lemma_two_pieces(front, slash);
        assert(front.take(slash) =~= file.take(slash));
        assert(front.skip(slash + 1).push(file.last()) =~= file.skip(slash + 1));
        assert(file.last() != '/');
        assert(pieces(file) =~= seq![file.take(slash), file.skip(slash + 1)]);
    }
}

/// A sound file straight under a folder is inside.
proof fn lemma_filed_inside(file: Seq<char>, folder: Seq<char>)
    requires
        filed(file, folder),
        folder.len() > 2,
        forall|i: int| 0 <= i < folder.len() ==> folder[i] != '/',
    ensures
        inside(file),
{
    assert forall|i: int| 0 <= i < file.len() && i != folder.len() implies file[i] != '/' by {
        if i < folder.len() {
            assert(file.take(folder.len() as int)[i] == folder[i]);
        }
    }
    lemma_two_pieces(file, folder.len() as int);
    assert(file[0] != '/');
    assert(file.take(folder.len() as int).len() > 2);
    assert(file.skip((folder.len() + 1) as int).len() > 2);
}

/// A number keeps a sound file under its folder.
proof fn lemma_numbered_filed(file: Seq<char>, folder: Seq<char>, number: nat)
    requires
        filed(file, folder),
    ensures
        filed(numbered(file, number), folder),
{
    let dot = file.len() - 4;
    assert(dot_of(file) == dot) by {
        let one = file.drop_last();
        let two = one.drop_last();
        let three = two.drop_last();
        assert(file.contains('.') && one.contains('.') && two.contains('.') && three.contains('.'))
            by {
            assert(file[dot] == '.' && one[dot] == '.' && two[dot] == '.' && three[dot] == '.');
        }
        reveal_with_fuel(dot_of, 5);
    }
    lemma_decimal(number);
    let name = numbered(file, number);
    assert(name.take(folder.len() as int) =~= folder) by {
        assert(file.take(folder.len() as int) == folder);
    }
    assert forall|i: int| folder.len() < i < name.len() implies name[i] != '/' by {
        if dot < i < dot + 1 + decimal(number).len() {
            assert(name[i] == decimal(number)[i - dot - 1]);
        }
    }
}

/// The conventional file of a name is a sound file under the stems or the
/// samples.
proof fn lemma_conventional_filed(name: Seq<char>)
    ensures
        filed(stem_file_of(name), "stems"@),
        filed(sample_file_of(name), "samples"@),
{
    reveal_strlit("stems");
    reveal_strlit("samples");
    reveal_strlit("stems/");
    reveal_strlit("samples/");
    reveal_strlit(".wav");
    assert(stem_file_of(name).take(5) =~= "stems"@);
    assert(sample_file_of(name).take(7) =~= "samples"@);
}

/// An archive keeps to itself: every file that its manifest names for a stem or
/// a sample is named inside the directory.
pub proof fn law_archive_files_are_inside(decomposition: Decomposition)
    ensures
        ({
            let manifest = conventional(decomposition);
            let files = all_claimed(files_of(manifest));
            forall|i: int| 0 <= i < files.len() ==> inside(#[trigger] files[i])
        }),
{
    reveal_strlit("stems");
    reveal_strlit("samples");
    let plain = files_of(conventional(decomposition));
    assert forall|i: int| 0 <= i < plain.len() implies filed(#[trigger] plain[i], "stems"@)
        || filed(plain[i], "samples"@) by {
        if i < decomposition.stems@.len() {
            lemma_conventional_filed(decomposition.stems@[i].name@);
        } else {
            lemma_conventional_filed(
                decomposition.samples@[i - decomposition.stems@.len()].name@,
            );
        }
    }
    lemma_all_filed(plain);
    let files = all_claimed(plain);
    assert forall|i: int| 0 <= i < files.len() implies inside(#[trigger] files[i]) by {
        if filed(files[i], "stems"@) {
            lemma_filed_inside(files[i], "stems"@);
        } else {
            lemma_filed_inside(files[i], "samples"@);
        }
    }
}

/// Files that are claimed stay under their folder.
proof fn lemma_all_filed(files: Seq<Seq<char>>)
    requires
        forall|i: int|
            0 <= i < files.len() ==> filed(#[trigger] files[i], "stems"@) || filed(
                files[i],
                "samples"@,
            ),
    ensures
        forall|i: int|
            0 <= i < all_claimed(files).len() ==> filed(
                #[trigger] all_claimed(files)[i],
                "stems"@,
            ) || filed(all_claimed(files)[i], "samples"@),
    decreases files.len(),
{
    if files.len() > 0 {
        let before = all_claimed(files.drop_last());
        let file = files.last();
        lemma_all_filed(files.drop_last());
        assert(filed(file, "stems"@) || filed(file, "samples"@)) by {
            assert(files[files.len() - 1] == file);
        }
        let number = choose|number: nat| is_free(before, file, number);
        if filed(file, "stems"@) {
            lemma_numbered_filed(file, "stems"@, number);
        } else {
            lemma_numbered_filed(file, "samples"@, number);
        }
    }
}

/// The manifest of a decomposition whose numbers are numbers is read back from
/// its text, whatever files it names.
pub proof fn law_archived_manifests_are_whole(
    decomposition: Decomposition,
    files: Seq<Seq<char>>,
)
    requires
        forall|i: int|
            0 <= i < decomposition.samples@.len() ==> {
                &&& (#[trigger] decomposition.samples@[i]).peak.wf()
                &&& decomposition.samples@[i].frequency matches Some(frequency) ==> frequency.wf()
            },
        forall|i: int|
            0 <= i < decomposition.notes@.len() ==> (#[trigger] decomposition.notes@[i]).wf(),
    ensures
        whole(refiled(conventional(decomposition), files)),
{
    let manifest = refiled(conventional(decomposition), files);
    assert forall|i: int| 0 <= i < manifest.samples.len() implies cut_well(
        #[trigger] manifest.samples[i],
    ) by {
        assert(decomposition.samples@[i].peak.wf());
    }
    assert forall|i: int| 0 <= i < manifest.notes.len() implies played_well(
        #[trigger] manifest.notes[i],
    ) by {
        assert(decomposition.notes@[i].wf());
    }
}

// Parts that fit together.

/// Why an entry of the bank does not stand where its number says, if it does
/// not.
pub open spec fn misplaced(index: nat, entry: Cutting) -> Option<Fault> {
    if entry.id != index {
        Some(
            Fault::Format(
                "sample `"@ + entry.name + "` has id "@ + decimal(entry.id as nat)
                    + " but is the "@ + decimal(index) + ". entry in the bank"@,
            ),
        )
    } else {
        None
    }
}

/// Checks that an entry of the bank stands where its number says.
pub fn check_entry(index: usize, entry: &SampleEntry) -> (placed: Result<(), Error>)
    ensures
        match misplaced(index as nat, entry@) {
            None => placed is Ok,
            Some(fault) => placed matches Err(error) && error@ == fault,
        },
{
    if entry.id != index {
        let mut message = "sample `".to_string();
        message.append(entry.name.as_str());
        message.append("` has id ");
        message.append(decimal_text(entry.id as u64).as_str());
        message.append(" but is the ");
        message.append(decimal_text(index as u64).as_str());
        message.append(". entry in the bank");
        return Err(Error::Format(message));
    }
    Ok(())
}

/// Why the audio of a bank sample is not what the manifest promised, if it is
/// not: its channels, its length, or its peak, which was measured and compared
/// beforehand.
pub open spec fn unlike(
    entry: Cutting,
    sound: Sound,
    peak: Seq<char>,
    stated: Seq<char>,
    agrees: bool,
) -> Option<Fault> {
    if sound.channels.len() != 1 {
        Some(
            Fault::Mismatch(
                "sample `"@ + entry.name + "` has "@ + decimal(sound.channels.len())
                    + " channels, bank samples are mono"@,
            ),
        )
    } else if sound.frames() != entry.frames {
        Some(
            Fault::Mismatch(
                "sample `"@ + entry.name + "` holds "@ + decimal(sound.frames())
                    + " frames, the manifest says "@ + decimal(entry.frames as nat),
            ),
        )
    } else if !agrees {
        Some(
            Fault::Mismatch(
                "sample `"@ + entry.name + "` peaks at "@ + peak + ", the manifest says "@ + stated,
            ),
        )
    } else {
        None
    }
}

/// Whether a bank sample is what an entry of the manifest says of its audio.
pub open spec fn drawn(sample: Sample, entry: Cutting, waveform: Audio) -> bool {
    &&& sample.id == entry.id
    &&& sample.name@ == entry.name
    &&& sample.waveform == waveform
    &&& sample.note == entry.note
    &&& number_text(sample.frequency) == entry.frequency
}

/// Makes a bank sample of its audio, checking it against what the manifest
/// promised. The peak is the measured one and the one the manifest states, and
/// whether the two agree.
pub fn read_sample(
    entry: &SampleEntry,
    audio: Audio,
    peak: Number,
    stated: &Number,
    agrees: bool,
) -> (sample: Result<Sample, Error>)
    ensures
        match unlike(entry@, audio@, peak@, stated@, agrees) {
            None => sample matches Ok(read) && drawn(read, entry@, audio) && read.peak == peak,
            Some(fault) => sample matches Err(error) && error@ == fault,
        },
{
    if audio.channel_count() != 1 {
        let mut message = "sample `".to_string();
        message.append(entry.name.as_str());
        message.append("` has ");
        message.append(decimal_text(audio.channel_count() as u64).as_str());
        message.append(" channels, bank samples are mono");
        return Err(Error::Mismatch(message));
    }
    if audio.frames() != entry.frames {
        let mut message = "sample `".to_string();
        message.append(entry.name.as_str());
        message.append("` holds ");
        message.append(decimal_text(audio.frames() as u64).as_str());
        message.append(" frames, the manifest says ");
        message.append(decimal_text(entry.frames as u64).as_str());
        return Err(Error::Mismatch(message));
    }
    if !agrees {
        let mut message = "sample `".to_string();
        message.append(entry.name.as_str());
        message.append("` peaks at ");
        message.append(peak.text());
        message.append(", the manifest says ");
        message.append(stated.text());
        return Err(Error::Mismatch(message));
    }
    let mut sample = Sample::new(entry.id, entry.name.clone(), audio, peak);
    sample.note = entry.note;
    sample.frequency = match &entry.frequency {
        Some(number) => Some(number.copy()),
        None => None,
    };
    Ok(sample)
}

/// Whether a buffer has the shape of the recording.
pub open spec fn shaped(sound: Sound, source: Origin) -> bool {
    &&& sound.sample_rate == source.sample_rate
    &&& sound.channels.len() == source.channels
    &&& sound.frames() == source.frames
}

/// The shape of a buffer, in words.
pub open spec fn shape_text(rate: nat, channels: nat, frames: nat) -> Seq<char> {
    decimal(rate) + " Hz, "@ + decimal(channels) + " channels, "@ + decimal(frames) + " frames"@
}

/// What is said of a buffer that has another shape than the recording.
pub open spec fn misshapen(name: Seq<char>, sound: Sound, source: Origin) -> Fault {
    Fault::Mismatch(
        seq!['`'] + name + "` is "@ + shape_text(
            sound.sample_rate as nat,
            sound.channels.len(),
            sound.frames(),
        ) + "; the source is "@ + shape_text(
            source.sample_rate as nat,
            source.channels as nat,
            source.frames as nat,
        ),
    )
}

/// What is said of the first stem that has another shape than the recording.
pub open spec fn stems_fault(stems: Seq<Stem>, source: Origin) -> Option<Fault>
    decreases stems.len(),
{
    if stems.len() == 0 {
        None
    } else {
        match stems_fault(stems.drop_last(), source) {
            Some(fault) => Some(fault),
            None => if shaped(stems.last().audio@, source) {
                None
            } else {
                Some(misshapen(stems.last().name@, stems.last().audio@, source))
            },
        }
    }
}

/// What is said of the first placement of a sample that the bank does not hold.
pub open spec fn placements_fault(placements: Seq<Placement>, bank: nat) -> Option<Fault>
    decreases placements.len(),
{
    if placements.len() == 0 {
        None
    } else {
        match placements_fault(placements.drop_last(), bank) {
            Some(fault) => Some(fault),
            None => if placements.last().sample < bank {
                None
            } else {
                Some(
                    Fault::Format(
                        "a placement refers to sample "@ + decimal(
                            placements.last().sample as nat,
                        ) + ", the bank holds "@ + decimal(bank),
                    ),
                )
            },
        }
    }
}

/// Why the parts of a decomposition do not fit together, if they do not.
pub open spec fn unfit(decomposition: Decomposition) -> Option<Fault> {
    let source = decomposition.source@;
    match stems_fault(decomposition.stems@, source) {
        Some(fault) => Some(fault),
        None => if !shaped(decomposition.residual@, source) {
            Some(misshapen("residual"@, decomposition.residual@, source))
        } else if decomposition.correction matches Some(correction) && !shaped(
            correction@,
            source,
        ) {
            Some(misshapen("correction"@, decomposition.correction->Some_0@, source))
        } else {
            placements_fault(decomposition.placements@, decomposition.samples@.len())
        },
    }
}

/// The shape of a buffer, in words.
fn shape(rate: u32, channels: usize, frames: usize) -> (text: String)
    ensures
        text@ == shape_text(rate as nat, channels as nat, frames as nat),
{
    let mut text = decimal_text(rate as u64);
    text.append(" Hz, ");
    text.append(decimal_text(channels as u64).as_str());
    text.append(" channels, ");
    text.append(decimal_text(frames as u64).as_str());
    text.append(" frames");
    text
}

/// Checks that a buffer has the shape of the recording.
fn check_shape(name: &str, audio: &Audio, decomposition: &Decomposition) -> (fit: Result<
    (),
    Error,
>)
    ensures
        if shaped(audio@, decomposition.source@) {
            fit is Ok
        } else {
            fit matches Err(error) && error@ == misshapen(name@, audio@, decomposition.source@)
        },
{
    let source = &decomposition.source;
    if audio.sample_rate() != source.sample_rate || audio.channel_count() != source.channels
        || audio.frames() != source.frames {
        let mut message = "`".to_string();
        message.append(name);
        message.append("` is ");
        message.append(
            shape(audio.sample_rate(), audio.channel_count(), audio.frames()).as_str(),
        );
        message.append("; the source is ");
        message.append(shape(source.sample_rate, source.channels, source.frames).as_str());
        proof {
            reveal_strlit("`");
            assert("`"@ =~= seq!['`']);
        }
        return Err(Error::Mismatch(message));
    }
    Ok(())
}

/// What the first stems found, all of them find.
proof fn lemma_stems_fault_kept(stems: Seq<Stem>, source: Origin, count: int)
    requires
        0 <= count <= stems.len(),
        stems_fault(stems.take(count), source) is Some,
    ensures
        stems_fault(stems, source) == stems_fault(stems.take(count), source),
    decreases stems.len() - count,
{
    if count < stems.len() {
        assert(stems.take(count + 1).drop_last() =~= stems.take(count));
        lemma_stems_fault_kept(stems, source, count + 1);
    } else {
        assert(stems.take(count) =~= stems);
    }
}

/// What the first placements found, all of them find.
proof fn lemma_placements_fault_kept(placements: Seq<Placement>, bank: nat, count: int)
    requires
        0 <= count <= placements.len(),
        placements_fault(placements.take(count), bank) is Some,
    ensures
        placements_fault(placements, bank) == placements_fault(placements.take(count), bank),
    decreases placements.len() - count,
{
    if count < placements.len() {
        assert(placements.take(count + 1).drop_last() =~= placements.take(count));
        lemma_placements_fault_kept(placements, bank, count + 1);
    } else {
        assert(placements.take(count) =~= placements);
    }
}

/// Checks that every placement refers to a sample of the bank.
fn check_placements(placements: &Vec<Placement>, bank: usize) -> (fit: Result<(), Error>)
    ensures
        match placements_fault(placements@, bank as nat) {
            None => fit is Ok,
            Some(fault) => fit matches Err(error) && error@ == fault,
        },
{
    let mut index: usize = 0;
    assert(placements@.take(0) =~= Seq::<Placement>::empty());
    while index < placements.len()
        invariant
            index <= placements@.len(),
            placements_fault(placements@.take(index as int), bank as nat) is None,
        decreases placements@.len() - index,
    {
        assert(placements@.take(index + 1).drop_last() =~= placements@.take(index as int));
        let sample: usize = placements[index].sample;
        if sample >= bank {
            let mut message = "a placement refers to sample ".to_string();
            message.append(decimal_text(sample as u64).as_str());
            message.append(", the bank holds ");
            message.append(decimal_text(bank as u64).as_str());
            proof {
                lemma_placements_fault_kept(placements@, bank as nat, index + 1);
            }
            return Err(Error::Format(message));
        }
        index = index + 1;
    }
    assert(placements@.take(index as int) =~= placements@);
    Ok(())
}

/// Rejects an archive whose parts do not fit together.
pub fn check(decomposition: &Decomposition) -> (fit: Result<(), Error>)
    ensures
        match unfit(*decomposition) {
            None => fit is Ok,
            Some(fault) => fit matches Err(error) && error@ == fault,
        },
{
    let ghost source = decomposition.source@;
    let ghost stems = decomposition.stems@;
    let mut index: usize = 0;
    assert(stems.take(0) =~= Seq::<Stem>::empty());
    while index < decomposition.stems.len()
        invariant
            source == decomposition.source@,
            stems == decomposition.stems@,
            index <= stems.len(),
            stems_fault(stems.take(index as int), source) is None,
        decreases stems.len() - index,
    {
        let stem = &decomposition.stems[index];
        assert(stems.take(index + 1).drop_last() =~= stems.take(index as int));
        match check_shape(stem.name.as_str(), &stem.audio, decomposition) {
            Ok(()) => {},
            Err(error) => {
                proof {
                    lemma_stems_fault_kept(stems, source, index + 1);
                }
                return Err(error);
            },
        }
        index = index + 1;
    }
    assert(stems.take(index as int) =~= stems);
    match check_shape("residual", &decomposition.residual, decomposition) {
        Ok(()) => {},
        Err(error) => {
            return Err(error);
        },
    }
    match &decomposition.correction {
        Some(correction) => match check_shape("correction", correction, decomposition) {
            Ok(()) => {},
            Err(error) => {
                return Err(error);
            },
        },
        None => {},
    }
    check_placements(&decomposition.placements, decomposition.samples.len())
}

// The directory as a whole.

/// A sound file of an archive.
#[derive(Debug)]
pub struct SoundFile {
    /// Where it lies, relative to the manifest.
    pub file: String,
    /// What it holds.
    pub bytes: Vec<u8>,
}

/// The buffer that is written: one in its own format where that holds every
/// sample, and otherwise in the narrowest that does.
pub open spec fn kept_as(sound: Sound) -> Sound {
    if sound.format.spec_is_float() {
        sound
    } else {
        stored_as(sound)
    }
}

/// The bytes a buffer is stored as.
pub open spec fn bytes_of(sound: Sound) -> Seq<u8> {
    wav::encoded(kept_as(sound))
}

/// A buffer that was stored is read as it was stored, sample for sample; one whose
/// format holds all of its samples is read as it was.
pub proof fn law_stored_buffers_come_back(sound: Sound)
    requires
        if sound.format.spec_is_float() {
            sound.in_range()
        } else {
            limited(sound.channels)
        },
        wav::storable(kept_as(sound)),
    ensures
        wav::decoded(bytes_of(sound)) == Ok::<Sound, Fault>(kept_as(sound)),
        sound.in_range() ==> kept_as(sound) == sound,
        kept_as(sound).in_range(),
        kept_as(sound).sample_rate == sound.sample_rate,
        kept_as(sound).channels.len() == sound.channels.len(),
        kept_as(sound).frames() == sound.frames(),
        !sound.format.spec_is_float() ==> lies_on(kept_as(sound), sound.format) && gridded(
            kept_as(sound),
            sound.format,
        ) == sound.channels,
{
    if !sound.format.spec_is_float() {
        law_stored_buffers_keep_their_samples(sound);
    }
    wav::law_wav_is_lossless(kept_as(sound));
}

/// Whether a buffer can be stored.
pub open spec fn keepable(audio: Audio) -> bool {
    &&& audio.wf()
    &&& audio@.format.spec_is_float() || limited(audio@.channels)
}

/// The buffers of a decomposition, in the order they are stored in: the stems,
/// the bank, the residual, and the correction where there is one.
pub open spec fn buffers(decomposition: Decomposition) -> Seq<Sound> {
    Seq::new(decomposition.stems@.len(), |i: int| decomposition.stems@[i].audio@) + Seq::new(
        decomposition.samples@.len(),
        |i: int| decomposition.samples@[i].waveform@,
    ) + seq![decomposition.residual@] + match decomposition.correction {
        Some(correction) => seq![correction@],
        None => Seq::empty(),
    }
}

/// The files the buffers of a decomposition are stored in, in the same order.
pub open spec fn buffer_files(manifest: Inventory) -> Seq<Seq<char>> {
    files_of(manifest) + seq![manifest.residual] + match manifest.correction {
        Some(file) => seq![file],
        None => Seq::empty(),
    }
}

/// Whether every buffer can be stored.
pub open spec fn all_keepable(decomposition: Decomposition) -> bool {
    &&& forall|i: int|
        0 <= i < decomposition.stems@.len() ==> keepable(
            (#[trigger] decomposition.stems@[i]).audio,
        )
    &&& forall|i: int|
        0 <= i < decomposition.samples@.len() ==> keepable(
            (#[trigger] decomposition.samples@[i]).waveform,
        )
    &&& keepable(decomposition.residual)
    &&& decomposition.correction matches Some(correction) ==> keepable(correction)
}

/// Whether some sound files are those of the first buffers.
pub open spec fn packed(
    files: Seq<SoundFile>,
    names: Seq<Seq<char>>,
    sounds: Seq<Sound>,
    count: int,
) -> bool {
    &&& files.len() == count
    &&& forall|i: int|
        0 <= i < count ==> {
            &&& (#[trigger] files[i]).file@ == names[i]
            &&& files[i].bytes@ == bytes_of(sounds[i])
        }
}

/// What is said of a buffer that has more channels than a file can count.
pub open spec fn too_many() -> Fault {
    Fault::InvalidArgument("too many channels for WAV"@)
}

/// Stores one buffer behind the others.
fn pack_one(files: &mut Vec<SoundFile>, file: &str, audio: &Audio) -> (done: Result<(), Error>)
    requires
        keepable(*audio),
    ensures
        match done {
            Ok(()) => {
                &&& audio@.channels.len() <= u16::MAX
                &&& final(files)@.len() == old(files)@.len() + 1
                &&& final(files)@.take(old(files)@.len() as int) == old(files)@
                &&& final(files)@.last().file@ == file@
                &&& final(files)@.last().bytes@ == bytes_of(audio@)
            },
            Err(error) => audio@.channels.len() > u16::MAX && error@ == too_many(),
        },
{
    let encoded = if audio.format().is_float() {
        wav::encode(audio)
    } else {
        let kept = stored(audio);
        assert(kept@.channels.len() == audio@.channels.len());
        wav::encode(&kept)
    };
    match encoded {
        Ok(bytes) => {
            files.push(SoundFile { file: file.to_string(), bytes });
            assert(files@.take(old(files)@.len() as int) =~= old(files)@);
            Ok(())
        },
        Err(error) => Err(error),
    }
}

/// One more file behind the first ones.
proof fn lemma_packed(
    before: Seq<SoundFile>,
    after: Seq<SoundFile>,
    names: Seq<Seq<char>>,
    sounds: Seq<Sound>,
)
    requires
        packed(before, names, sounds, before.len() as int),
        after.len() == before.len() + 1,
        after.take(before.len() as int) == before,
        after.last().file@ == names[before.len() as int],
        after.last().bytes@ == bytes_of(sounds[before.len() as int]),
    ensures
        packed(after, names, sounds, after.len() as int),
{
    assert forall|i: int| 0 <= i < after.len() implies {
        &&& (#[trigger] after[i]).file@ == names[i]
        &&& after[i].bytes@ == bytes_of(sounds[i])
    } by {
        if i < before.len() {
            assert(after.take(before.len() as int)[i] == before[i]);
        }
    }
}

/// What an archive of a decomposition holds: its manifest, and every sound file.
pub fn pack(decomposition: &Decomposition) -> (archive: Result<(Manifest, Vec<SoundFile>), Error>)
    requires
        all_keepable(*decomposition),
        decomposition.stems@.len() + decomposition.samples@.len() < usize::MAX - 2,
    ensures
        match archive {
            Ok((manifest, files)) => {
                &&& manifest@ == archived(*decomposition)
                &&& packed(
                    files@,
                    buffer_files(manifest@),
                    buffers(*decomposition),
                    buffers(*decomposition).len() as int,
                )
                &&& forall|i: int|
                    0 <= i < buffers(*decomposition).len() ==> (#[trigger] buffers(
                        *decomposition,
                    )[i]).channels.len() <= u16::MAX
            },
            Err(error) => {
                &&& error@ == too_many()
                &&& exists|i: int|
                    0 <= i < buffers(*decomposition).len() && (#[trigger] buffers(
                        *decomposition,
                    )[i]).channels.len() > u16::MAX
            },
        },
{
    let manifest = manifest_of(decomposition);
    let ghost names = buffer_files(manifest@);
    let ghost sounds = buffers(*decomposition);
    let ghost stems = decomposition.stems@.len() as int;
    let ghost samples = decomposition.samples@.len() as int;
    let mut files: Vec<SoundFile> = Vec::new();
    let mut index: usize = 0;
    while index < decomposition.stems.len()
        invariant
            all_keepable(*decomposition),
            names == buffer_files(manifest@),
            sounds == buffers(*decomposition),
            stems == decomposition.stems@.len(),
            manifest.stems@.len() == decomposition.stems@.len(),
            manifest.samples@.len() == decomposition.samples@.len(),
            index <= stems,
            files@.len() == index,
            packed(files@, names, sounds, files@.len() as int),
            forall|i: int| 0 <= i < index ==> (#[trigger] sounds[i]).channels.len() <= u16::MAX,
        decreases decomposition.stems@.len() - index,
    {
        let ghost before = files@;
        assert(sounds[index as int] == decomposition.stems@[index as int].audio@);
        assert(manifest@.stems[index as int] == manifest.stems@[index as int]@);
        assert(names[index as int] == manifest@.stems[index as int].file);
        match pack_one(
            &mut files,
            manifest.stems[index].file.as_str(),
            &decomposition.stems[index].audio,
        ) {
            Ok(()) => {},
            Err(error) => {
                return Err(error);
            },
        }
        proof {
            lemma_packed(before, files@, names, sounds);
        }
        index = index + 1;
    }
    let mut index: usize = 0;
    while index < decomposition.samples.len()
        invariant
            all_keepable(*decomposition),
            names == buffer_files(manifest@),
            sounds == buffers(*decomposition),
            stems == decomposition.stems@.len(),
            samples == decomposition.samples@.len(),
            manifest.stems@.len() == decomposition.stems@.len(),
            manifest.samples@.len() == decomposition.samples@.len(),
            index <= samples,
            files@.len() == stems + index,
            packed(files@, names, sounds, files@.len() as int),
            forall|i: int|
                0 <= i < stems + index ==> (#[trigger] sounds[i]).channels.len() <= u16::MAX,
        decreases decomposition.samples@.len() - index,
    {
        let ghost before = files@;
        assert(sounds[stems + index] == decomposition.samples@[index as int].waveform@);
        assert(manifest@.samples[index as int] == manifest.samples@[index as int]@);
        assert(names[stems + index] == manifest@.samples[index as int].file);
        match pack_one(
            &mut files,
            manifest.samples[index].file.as_str(),
            &decomposition.samples[index].waveform,
        ) {
            Ok(()) => {},
            Err(error) => {
                return Err(error);
            },
        }
        proof {
            lemma_packed(before, files@, names, sounds);
        }
        index = index + 1;
    }
    let ghost before = files@;
    assert(sounds[stems + samples] == decomposition.residual@);
    assert(names[stems + samples] == manifest@.residual);
    match pack_one(&mut files, manifest.residual.as_str(), &decomposition.residual) {
        Ok(()) => {},
        Err(error) => {
            return Err(error);
        },
    }
    proof {
        lemma_packed(before, files@, names, sounds);
    }
    match (&manifest.correction, &decomposition.correction) {
        (Some(file), Some(correction)) => {
            let ghost before = files@;
            assert(sounds[stems + samples + 1] == correction@);
            assert(names[stems + samples + 1] == file@);
            match pack_one(&mut files, file.as_str(), correction) {
                Ok(()) => {},
                Err(error) => {
                    return Err(error);
                },
            }
            proof {
                lemma_packed(before, files@, names, sounds);
            }
        },
        _ => {},
    }
    Ok((manifest, files))
}

/// Whether a decomposition is a manifest with the audio it points at.
pub open spec fn assembled(
    decomposition: Decomposition,
    manifest: Inventory,
    stems: Seq<Audio>,
    samples: Seq<Sample>,
    residual: Audio,
    correction: Option<Audio>,
) -> bool {
    &&& decomposition.source@ == manifest.source
    &&& decomposition.stems@.len() == stems.len()
    &&& forall|i: int|
        0 <= i < stems.len() ==> {
            &&& (#[trigger] decomposition.stems@[i]).name@ == manifest.stems[i].name
            &&& decomposition.stems@[i].audio == stems[i]
        }
    &&& decomposition.samples@ == samples
    &&& decomposition.placements@ == manifest.placements
    &&& all_played(decomposition.notes@) == manifest.notes
    &&& decomposition.residual == residual
    &&& decomposition.correction == correction
}

/// Puts the audio that a manifest points at back together, if its parts fit.
pub fn assemble(
    manifest: &Manifest,
    stems: Vec<Audio>,
    samples: Vec<Sample>,
    residual: Audio,
    correction: Option<Audio>,
) -> (whole: Result<Decomposition, Error>)
    requires
        stems@.len() == manifest.stems@.len(),
    ensures
        match whole {
            Ok(decomposition) => {
                &&& assembled(decomposition, manifest@, stems@, samples@, residual, correction)
                &&& unfit(decomposition) is None
            },
            Err(error) => exists|decomposition: Decomposition|
                {
                    &&& #[trigger] assembled(
                        decomposition,
                        manifest@,
                        stems@,
                        samples@,
                        residual,
                        correction,
                    )
                    &&& unfit(decomposition) == Some(error@)
                },
        },
{
    let ghost audio = stems@;
    let mut named: Vec<Stem> = Vec::new();
    for part in iter: stems.into_iter()
        invariant
            iter.seq() == audio,
            audio.len() == manifest.stems@.len(),
            named@.len() == iter.index(),
            forall|i: int|
                0 <= i < iter.index() ==> {
                    &&& (#[trigger] named@[i]).name@ == manifest.stems@[i].name@
                    &&& named@[i].audio == audio[i]
                },
    {
        let index: usize = named.len();
        named.push(Stem::new(manifest.stems[index].name.clone(), part));
    }
    let decomposition = Decomposition {
        source: manifest.source.copy(),
        stems: named,
        samples,
        placements: copy_placements(&manifest.placements),
        notes: copy_notes(&manifest.notes),
        residual,
        correction,
    };
    proof {
        assert forall|i: int| 0 <= i < audio.len() implies {
            &&& (#[trigger] decomposition.stems@[i]).name@ == manifest@.stems[i].name
            &&& decomposition.stems@[i].audio == audio[i]
        } by {
            assert(manifest@.stems[i] == manifest.stems@[i]@);
        }
        assert(assembled(
            decomposition,
            manifest@,
            audio,
            decomposition.samples@,
            decomposition.residual,
            decomposition.correction,
        ));
    }
    match check(&decomposition) {
        Ok(()) => Ok(decomposition),
        Err(error) => Err(error),
    }
}

/// Whether a decomposition can be archived: every buffer can be stored, and what a
/// WAV file counts in its fields has room.
pub open spec fn archivable(decomposition: Decomposition) -> bool {
    &&& all_keepable(decomposition)
    &&& forall|i: int|
        0 <= i < buffers(decomposition).len() ==> {
            let sound = #[trigger] buffers(decomposition)[i];
            &&& sound.format.spec_is_float() ==> sound.in_range()
            &&& !sound.format.spec_is_float() ==> limited(sound.channels)
            &&& wav::storable(kept_as(sound))
        }
}

/// Whether a decomposition was read from a manifest and the buffers that its files
/// hold, in the order they are stored in.
pub open spec fn read_from(
    decomposition: Decomposition,
    manifest: Inventory,
    audio: Seq<Audio>,
) -> bool {
    let stems = manifest.stems.len() as int;
    let samples = manifest.samples.len() as int;
    &&& audio.len() == buffer_files(manifest).len()
    &&& assembled(
        decomposition,
        manifest,
        audio.take(stems),
        decomposition.samples@,
        audio[stems + samples],
        match manifest.correction {
            Some(_) => Some(audio[stems + samples + 1]),
            None => None,
        },
    )
    &&& decomposition.samples@.len() == samples
    &&& forall|i: int|
        0 <= i < samples ==> drawn(
            #[trigger] decomposition.samples@[i],
            manifest.samples[i],
            audio[stems + i],
        )
}

/// The manifest an archive of a decomposition carries.
pub open spec fn archived(decomposition: Decomposition) -> Inventory {
    refiled(
        conventional(decomposition),
        all_claimed(files_of(conventional(decomposition))),
    )
}

/// Whether a decomposition is another but for the formats its buffers are held in
/// and for the peaks, which are measured anew.
pub open spec fn retold(before: Decomposition, after: Decomposition) -> bool {
    &&& after.source@ == before.source@
    &&& after.stems@.len() == before.stems@.len()
    &&& forall|i: int|
        0 <= i < before.stems@.len() ==> (#[trigger] after.stems@[i]).name@
            == before.stems@[i].name@
    &&& after.samples@.len() == before.samples@.len()
    &&& forall|i: int|
        0 <= i < before.samples@.len() ==> {
            &&& (#[trigger] after.samples@[i]).id == before.samples@[i].id
            &&& after.samples@[i].name@ == before.samples@[i].name@
            &&& after.samples@[i].note == before.samples@[i].note
            &&& number_text(after.samples@[i].frequency) == number_text(
                before.samples@[i].frequency,
            )
        }
    &&& after.placements@ == before.placements@
    &&& all_played(after.notes@) == all_played(before.notes@)
    &&& after.correction is Some == before.correction is Some
}

/// Reading an archive back gives the decomposition it was written from: the same
/// description, names, placements and notes, and every buffer as it was stored,
/// sample for sample and, where its own format holds it, in that format.
pub proof fn law_archives_come_back(
    before: Decomposition,
    after: Decomposition,
    files: Seq<SoundFile>,
    audio: Seq<Audio>,
)
    requires
        archivable(before),
        packed(
            files,
            buffer_files(archived(before)),
            buffers(before),
            buffers(before).len() as int,
        ),
        audio.len() == files.len(),
        forall|i: int|
            0 <= i < files.len() ==> wav::decoded((#[trigger] files[i]).bytes@) == Ok::<
                Sound,
                Fault,
            >(audio[i]@),
        read_from(after, archived(before), audio),
    ensures
        retold(before, after),
        rekept(before, after),
        (forall|i: int|
            0 <= i < buffers(before).len() ==> (#[trigger] buffers(before)[i]).in_range())
            ==> buffers(after) == buffers(before),
{
    let stems = before.stems@.len() as int;
    let samples = before.samples@.len() as int;
    let old_buffers = buffers(before);
    let new_buffers = buffers(after);
    law_claimed_files_are_distinct(files_of(conventional(before)));
    assert forall|i: int| 0 <= i < old_buffers.len() implies audio[i]@ == kept_as(
        #[trigger] old_buffers[i],
    ) by {
        assert(files[i].bytes@ == bytes_of(old_buffers[i]));
        law_stored_buffers_come_back(old_buffers[i]);
    }
    assert(new_buffers.len() == old_buffers.len());
    assert forall|i: int| 0 <= i < old_buffers.len() implies new_buffers[i] == audio[i]@ by {
        if i < stems {
            assert(after.stems@[i].audio == audio.take(stems)[i]);
        } else if i < stems + samples {
            assert(drawn(
                after.samples@[i - stems],
                archived(before).samples[i - stems],
                audio[stems + (i - stems)],
            ));
        }
    }
    assert(new_buffers =~= Seq::new(old_buffers.len(), |i: int| kept_as(old_buffers[i])));
    assert forall|i: int| 0 <= i < stems implies (#[trigger] after.stems@[i]).name@
        == before.stems@[i].name@ by {}
    assert forall|i: int| 0 <= i < samples implies {
        &&& (#[trigger] after.samples@[i]).id == before.samples@[i].id
        &&& after.samples@[i].name@ == before.samples@[i].name@
        &&& after.samples@[i].note == before.samples@[i].note
        &&& number_text(after.samples@[i].frequency) == number_text(before.samples@[i].frequency)
    } by {
        assert(drawn(after.samples@[i], archived(before).samples[i], audio[stems + i]));
    }
    if forall|i: int| 0 <= i < old_buffers.len() ==> (#[trigger] old_buffers[i]).in_range() {
        assert forall|i: int| 0 <= i < old_buffers.len() implies new_buffers[i]
            == old_buffers[i] by {
            assert(old_buffers[i].in_range());
            law_stored_buffers_come_back(old_buffers[i]);
        }
        assert(new_buffers =~= old_buffers);
    }
}

/// Whether the buffers of a decomposition are those of another as they are stored.
pub open spec fn rekept(before: Decomposition, after: Decomposition) -> bool {
    buffers(after) == Seq::new(buffers(before).len(), |i: int| kept_as(buffers(before)[i]))
}

/// Where each buffer stands among the others.
proof fn lemma_rekept(before: Decomposition, after: Decomposition)
    requires
        retold(before, after),
        rekept(before, after),
    ensures
        forall|i: int|
            0 <= i < before.stems@.len() ==> (#[trigger] after.stems@[i]).audio@ == kept_as(
                before.stems@[i].audio@,
            ),
        forall|i: int|
            0 <= i < before.samples@.len() ==> (#[trigger] after.samples@[i]).waveform@ == kept_as(
                before.samples@[i].waveform@,
            ),
        after.residual@ == kept_as(before.residual@),
        before.correction matches Some(one) ==> after.correction->Some_0@ == kept_as(one@),
{
    let stems = before.stems@.len() as int;
    let samples = before.samples@.len() as int;
    let old_buffers = buffers(before);
    let new_buffers = buffers(after);
    assert forall|i: int| 0 <= i < stems implies (#[trigger] after.stems@[i]).audio@ == kept_as(
        before.stems@[i].audio@,
    ) by {
        assert(new_buffers[i] == kept_as(old_buffers[i]));
    }
    assert forall|i: int| 0 <= i < samples implies (#[trigger] after.samples@[i]).waveform@
        == kept_as(before.samples@[i].waveform@) by {
        assert(new_buffers[stems + i] == kept_as(old_buffers[stems + i]));
    }
    assert(new_buffers[stems + samples] == kept_as(old_buffers[stems + samples]));
    if before.correction is Some {
        assert(new_buffers[stems + samples + 1] == kept_as(old_buffers[stems + samples + 1]));
    }
}

/// However a buffer that lies on a grid is stored, it lies there as it did.
proof fn lemma_kept_on_grid(audio: Audio, format: SampleFormat)
    requires
        takeable(audio, format),
        !format.spec_is_float(),
        audio@.format == format ==> limited(audio@.channels),
    ensures
        gridded(kept_as(audio@), format) == gridded(audio@, format),
        lies_on(audio@, format) ==> lies_on(kept_as(audio@), format),
        kept_as(audio@).even(),
        kept_as(audio@).format == format || kept_as(audio@).in_range(),
        kept_as(audio@).channels.len() == audio@.channels.len(),
        kept_as(audio@).frames() == audio@.frames(),
{
    if audio@.format == format {
        law_stored_buffers_keep_their_samples(audio@);
        let kept = kept_as(audio@);
        assert forall|i: int| 0 <= i < kept.channels.len() implies (
        #[trigger] kept.channels[i]).len() == kept.frames() by {
            assert(audio@.channels[i].len() == audio@.frames());
        }
    }
}

/// A decomposition on an integer grid that was archived and read back makes the
/// recording that the one that was archived makes.
pub proof fn law_archived_decompositions_restore(
    before: Decomposition,
    after: Decomposition,
    rendering: Seq<Seq<i64>>,
)
    requires
        archivable(before),
        before.settled(),
        retold(before, after),
        rekept(before, after),
    ensures
        after.settled(),
        after.restored_from(rendering) == before.restored_from(rendering),
        before.exact() ==> after.exact() && after.rendering() == before.rendering()
            && after.restored() == before.restored(),
{
    let format = before.source.format;
    let stems = before.stems@.len() as int;
    let samples = before.samples@.len() as int;
    lemma_rekept(before, after);
    assert(buffers(before)[stems + samples] == before.residual@);
    lemma_kept_on_grid(before.residual, format);
    if let Some(one) = before.correction {
        assert(buffers(before)[stems + samples + 1] == one@);
        lemma_kept_on_grid(one, format);
    }
    if before.exact() {
        assert forall|i: int| 0 <= i < samples implies {
            &&& takeable((#[trigger] after.samples@[i]).waveform, format)
            &&& lies_on(after.samples@[i].waveform@, format)
            &&& after.samples@[i].waveform@.channels.len() == 1
            &&& gridded(after.samples@[i].waveform@, format) == gridded(
                before.samples@[i].waveform@,
                format,
            )
        } by {
            assert(buffers(before)[stems + i] == before.samples@[i].waveform@);
            lemma_kept_on_grid(before.samples@[i].waveform, format);
        }
        assert(waves(after.samples@, format) =~= waves(before.samples@, format));
    }
}

/// Stems that lie on a grid as others do add up as they do.
proof fn lemma_stacked_alike(
    base: Seq<Seq<i64>>,
    before: Seq<Stem>,
    after: Seq<Stem>,
    format: SampleFormat,
)
    requires
        before.len() == after.len(),
        forall|i: int|
            0 <= i < before.len() ==> gridded((#[trigger] after[i]).audio@, format) == gridded(
                before[i].audio@,
                format,
            ),
    ensures
        stacked(base, after, format) == stacked(base, before, format),
    decreases before.len(),
{
    if before.len() > 0 {
        let one = before.drop_last();
        let other = after.drop_last();
        assert forall|i: int| 0 <= i < one.len() implies gridded(
            (#[trigger] other[i]).audio@,
            format,
        ) == gridded(one[i].audio@, format) by {
            assert(gridded(after[i].audio@, format) == gridded(before[i].audio@, format));
        }
        lemma_stacked_alike(base, one, other, format);
        assert(after[after.len() - 1] == after.last());
    }
}

/// The stems of a decomposition on an integer grid that was archived and read back
/// sum to what they summed to.
pub proof fn law_archived_stems_sum_alike(
    before: Decomposition,
    after: Decomposition,
    base: Seq<Seq<i64>>,
)
    requires
        archivable(before),
        !before.source.format.spec_is_float(),
        forall|i: int|
            0 <= i < before.stems@.len() ==> takeable(
                (#[trigger] before.stems@[i]).audio,
                before.source.format,
            ),
        retold(before, after),
        rekept(before, after),
    ensures
        stacked(base, after.stems@, before.source.format) == stacked(
            base,
            before.stems@,
            before.source.format,
        ),
{
    let format = before.source.format;
    lemma_rekept(before, after);
    assert forall|i: int| 0 <= i < before.stems@.len() implies gridded(
        (#[trigger] after.stems@[i]).audio@,
        format,
    ) == gridded(before.stems@[i].audio@, format) by {
        assert(buffers(before)[i] == before.stems@[i].audio@);
        assert(takeable(before.stems@[i].audio, format));
        lemma_kept_on_grid(before.stems@[i].audio, format);
    }
    lemma_stacked_alike(base, before.stems@, after.stems@, format);
}

/// The bank of an archive that was written is accepted when it is read: every entry
/// stands where its number says and holds what the manifest promises, as long as
/// its peak is measured as it was.
pub proof fn law_archived_banks_are_accepted(
    before: Decomposition,
    after: Decomposition,
    index: int,
    peak: Seq<char>,
    stated: Seq<char>,
)
    requires
        archivable(before),
        0 <= index < before.samples@.len(),
        before.samples@[index].id == index,
        before.samples@[index].waveform@.channels.len() == 1,
        before.samples@[index].waveform@.frames() <= usize::MAX,
        retold(before, after),
        rekept(before, after),
    ensures
        misplaced(index as nat, archived(before).samples[index]) is None,
        unlike(
            archived(before).samples[index],
            after.samples@[index].waveform@,
            peak,
            stated,
            true,
        ) is None,
{
    let waveform = before.samples@[index].waveform@;
    lemma_rekept(before, after);
    assert(buffers(before)[before.stems@.len() + index] == waveform);
    law_stored_buffers_come_back(waveform);
    assert(after.samples@[index].waveform@ == kept_as(waveform));
}

/// The parts of an archive that was written fit together when it is read, as they
/// did before.
pub proof fn law_archived_parts_fit(before: Decomposition, after: Decomposition)
    requires
        archivable(before),
        unfit(before) is None,
        retold(before, after),
        rekept(before, after),
    ensures
        unfit(after) is None,
{
    let source = before.source@;
    let stems = before.stems@.len() as int;
    let samples = before.samples@.len() as int;
    lemma_rekept(before, after);
    assert forall|i: int| 0 <= i < stems implies shaped(
        (#[trigger] after.stems@[i]).audio@,
        source,
    ) == shaped(before.stems@[i].audio@, source) by {
        assert(buffers(before)[i] == before.stems@[i].audio@);
        law_stored_buffers_come_back(before.stems@[i].audio@);
    }
    lemma_stems_fit(before.stems@, after.stems@, source);
    assert(buffers(before)[stems + samples] == before.residual@);
    law_stored_buffers_come_back(before.residual@);
    if let Some(one) = before.correction {
        assert(buffers(before)[stems + samples + 1] == one@);
        law_stored_buffers_come_back(one@);
        assert(after.correction->Some_0@ == kept_as(one@));
    }
}

/// Stems of the same shapes fit as the others do.
proof fn lemma_stems_fit(before: Seq<Stem>, after: Seq<Stem>, source: Origin)
    requires
        before.len() == after.len(),
        stems_fault(before, source) is None,
        forall|i: int|
            0 <= i < before.len() ==> shaped((#[trigger] after[i]).audio@, source) == shaped(
                before[i].audio@,
                source,
            ),
    ensures
        stems_fault(after, source) is None,
    decreases before.len(),
{
    if before.len() > 0 {
        let one = before.drop_last();
        let other = after.drop_last();
        assert forall|i: int| 0 <= i < one.len() implies shaped(
            (#[trigger] other[i]).audio@,
            source,
        ) == shaped(one[i].audio@, source) by {
            assert(shaped(after[i].audio@, source) == shaped(before[i].audio@, source));
        }
        lemma_stems_fit(one, other, source);
        assert(after[after.len() - 1] == after.last());
    }
}

/// The last dot of a file name with one.
proof fn lemma_dot_of(stem: Seq<char>, extension: Seq<char>)
    requires
        !extension.contains('.'),
    ensures
        dot_of(stem + seq!['.'] + extension) == stem.len(),
    decreases extension.len(),
{
    let file = stem + seq!['.'] + extension;
    assert(file[stem.len() as int] == '.');
    assert(file.contains('.'));
    if extension.len() > 0 {
        let less = extension.drop_last();
        assert(!less.contains('.')) by {
            if less.contains('.') {
                let k = choose|k: int| 0 <= k < less.len() && less[k] == '.';
                assert(extension[k] == '.');
            }
        }
        lemma_dot_of(stem, less);
        assert(file.drop_last() =~= stem + seq!['.'] + less);
        assert(file.last() == extension.last());
        assert(extension[extension.len() - 1] != '.');
    } else {
        assert(file.last() == '.');
    }
}

/// A file whose name is taken gets a hyphen and a number before its extension, or
/// at its end where it has none.
pub proof fn law_numbers_stand_before_the_extension(
    stem: Seq<char>,
    extension: Seq<char>,
    number: nat,
)
    requires
        !extension.contains('.'),
    ensures
        numbered(stem + seq!['.'] + extension, number) == stem + seq!['-'] + decimal(number)
            + seq!['.'] + extension,
        numbered(extension, number) == extension + seq!['-'] + decimal(number),
{
    let file = stem + seq!['.'] + extension;
    lemma_dot_of(stem, extension);
    assert(file.take(stem.len() as int) =~= stem);
    assert(file.skip(stem.len() as int) =~= seq!['.'] + extension);
    assert(numbered(file, number) =~= stem + seq!['-'] + decimal(number) + seq!['.'] + extension);
    assert(extension.take(extension.len() as int) =~= extension);
    assert(extension.skip(extension.len() as int) =~= Seq::empty());
    assert(numbered(extension, number) =~= extension + seq!['-'] + decimal(number));
}

/// A decomposition fits together if and only if its stems, its residual and its
/// correction have the rate, the channels and the frames of the source, and every
/// placement names a sample of the bank.
pub proof fn law_fitting_parts_have_one_shape(decomposition: Decomposition)
    ensures
        unfit(decomposition) is None <==> {
            let source = decomposition.source@;
            &&& forall|i: int|
                0 <= i < decomposition.stems@.len() ==> alike_in_shape(
                    (#[trigger] decomposition.stems@[i]).audio@,
                    source,
                )
            &&& alike_in_shape(decomposition.residual@, source)
            &&& decomposition.correction matches Some(correction) ==> alike_in_shape(
                correction@,
                source,
            )
            &&& forall|i: int|
                0 <= i < decomposition.placements@.len() ==> (
                #[trigger] decomposition.placements@[i]).sample < decomposition.samples@.len()
        },
{
    lemma_stems_fault(decomposition.stems@, decomposition.source@);
    lemma_placements_fault(decomposition.placements@, decomposition.samples@.len());
}

/// Whether a buffer has the rate of a source and as many channels and frames.
pub open spec fn alike_in_shape(sound: Sound, source: Origin) -> bool {
    &&& sound.sample_rate == source.sample_rate
    &&& sound.channels.len() == source.channels
    &&& (if sound.channels.len() == 0 {
        0
    } else {
        sound.channels[0].len()
    }) == source.frames
}

proof fn lemma_stems_fault(stems: Seq<Stem>, source: Origin)
    ensures
        stems_fault(stems, source) is None <==> forall|i: int|
            0 <= i < stems.len() ==> alike_in_shape((#[trigger] stems[i]).audio@, source),
    decreases stems.len(),
{
    if stems.len() > 0 {
        let front = stems.drop_last();
        lemma_stems_fault(front, source);
        if stems_fault(stems, source) is None {
            assert forall|i: int| 0 <= i < stems.len() implies alike_in_shape(
                (#[trigger] stems[i]).audio@,
                source,
            ) by {
                if i < front.len() {
                    assert(front[i] == stems[i]);
                }
            }
        }
        if forall|i: int|
            0 <= i < stems.len() ==> alike_in_shape((#[trigger] stems[i]).audio@, source) {
            assert forall|i: int| 0 <= i < front.len() implies alike_in_shape(
                (#[trigger] front[i]).audio@,
                source,
            ) by {
                assert(front[i] == stems[i]);
            }
            assert(alike_in_shape(stems[stems.len() - 1].audio@, source));
        }
    }
}

proof fn lemma_placements_fault(placements: Seq<Placement>, bank: nat)
    ensures
        placements_fault(placements, bank) is None <==> forall|i: int|
            0 <= i < placements.len() ==> (#[trigger] placements[i]).sample < bank,
    decreases placements.len(),
{
    if placements.len() > 0 {
        let front = placements.drop_last();
        lemma_placements_fault(front, bank);
        if placements_fault(placements, bank) is None {
            assert forall|i: int| 0 <= i < placements.len() implies (
            #[trigger] placements[i]).sample < bank by {
                if i < front.len() {
                    assert(front[i].sample < bank);
                }
            }
        }
        if forall|i: int| 0 <= i < placements.len() ==> (#[trigger] placements[i]).sample < bank {
            assert forall|i: int| 0 <= i < front.len() implies (#[trigger] front[i]).sample
                < bank by {
                assert(placements[i].sample < bank);
            }
            assert(placements[placements.len() - 1].sample < bank);
        }
    }
}

/// An entry of the bank is accepted if and only if its number is its place, and
/// its file holds one channel of as many frames as it says with the peak it says.
pub proof fn law_bank_entries_are_what_they_say(
    index: nat,
    entry: Cutting,
    sound: Sound,
    peak: Seq<char>,
    stated: Seq<char>,
    agrees: bool,
)
    ensures
        misplaced(index, entry) is None <==> entry.id == index,
        unlike(entry, sound, peak, stated, agrees) is None <==> (sound.channels.len() == 1
            && sound.channels[0].len() == entry.frames && agrees),
{
}

/// A file that is named from the root, or by way of a directory above, does not lie
/// inside an archive. Going on inside a directory of it does.
pub proof fn law_files_above_are_not_inside(first: Seq<char>, second: Seq<char>)
    ensures
        !inside(seq!['/'] + second),
        !inside(seq!['.', '.']),
        !inside(first + seq!['/'] + seq!['.', '.']),
        !inside(seq!['.', '.'] + seq!['/'] + second),
        !inside(first + seq!['/'] + (seq!['.', '.'] + seq!['/'] + second)),
        first.len() > 0 && inside(first) && inside(second) ==> inside(
            first + seq!['/'] + second,
        ),
{
    let up = seq!['.', '.'];
    assert(!up.contains('/')) by {
        if up.contains('/') {
            let k = choose|k: int| 0 <= k < up.len() && up[k] == '/';
            assert(up[k] == '.');
        }
    }
    lemma_pieces_at_slash(seq![], up);
    assert(pieces(Seq::<char>::empty()) == seq![Seq::<char>::empty()]);
    lemma_pieces_alone(up);
    lemma_pieces_at_slash(first, up);
    lemma_pieces_at_slash(up, second);
    lemma_pieces_at_slash(first, up + seq!['/'] + second);
    lemma_pieces_at_slash(first, second);
    let one = pieces(first) + seq![up];
    assert(one[pieces(first).len() as int] == up);
    let two = seq![up] + pieces(second);
    assert(two[0] == up);
    let three = pieces(first) + two;
    assert(three[pieces(first).len() as int] == up);
    if first.len() > 0 && inside(first) && inside(second) {
        let both = pieces(first) + pieces(second);
        lemma_some_piece(first);
        assert(both[0] == pieces(first)[0]);
        assert((first + seq!['/'] + second)[0] == first[0]);
        assert forall|i: int| 0 <= i < both.len() implies (#[trigger] both[i]) != seq!['.', '.'] by {
            if i < pieces(first).len() {
                assert(both[i] == pieces(first)[i]);
            } else {
                assert(both[i] == pieces(second)[i - pieces(first).len()]);
            }
        }
    }
}

proof fn lemma_some_piece(path: Seq<char>)
    ensures
        pieces(path).len() > 0,
    decreases path.len(),
{
    if path.len() > 0 {
        lemma_some_piece(path.drop_last());
    }
}

} // verus!
