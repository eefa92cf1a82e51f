//! The command line: what the commands are given, and what follows from it
//! without looking at a file.

use vstd::prelude::*;

use crate::decompose::StemMode;
use crate::error::{Error, Fault};
use crate::number::Number;
use crate::path::{
    file_name, file_name_of, join, joined, law_files_are_named_behind_their_directory,
    law_files_lie_in_the_directory_they_are_joined_to, law_names_are_a_stem_and_an_extension,
    lengthen, named_part, parent_directory, parent_of, stem, stem_of,
};
use crate::text::string_of;

verus! {

/// Suffix of the directory a decomposition is written to when none is given.
pub const SUFFIX: &'static str = "-decomposition";

/// What the tool is asked to do.
#[derive(Debug)]
pub struct Cli {
    /// What to do.
    pub command: Command,
}

/// The commands the tool offers.
#[derive(Debug)]
pub enum Command {
    /// Take a recording apart into stems, a sample bank, notes and projects.
    Decompose(Decompose),
    /// Put a decomposition back together into an audio file.
    Compose(Compose),
    /// Check that a decomposition reproduces the recording it came from.
    Verify(Verify),
    /// Describe a recording or a decomposition without changing anything.
    Inspect(Inspect),
    /// Write DAW projects beside a decomposition that already exists.
    Export(Export),
    /// Play a score through the sample bank of a decomposition.
    Render(Render),
}

/// Arguments of the `decompose` command.
///
/// Each switch turns off a stage of the pipeline that is otherwise on.
#[derive(Debug)]
pub struct Decompose {
    /// Audio file to take apart.
    pub input: String,
    /// Directory to write the decomposition to.
    pub output: Option<String>,
    /// Name the decomposition carries; the file name by default.
    pub name: Option<String>,
    /// Project formats to export, `all` or `none`.
    pub formats: Vec<String>,
    /// Tempo of the exported projects; measured from the music when absent.
    pub tempo: Option<Number>,
    /// Reuse a waveform only where it repeats verbatim.
    pub exact_repeats: bool,
    /// Keep the recording whole instead of splitting it into stems.
    pub no_stems: bool,
    /// Skip note recognition.
    pub no_notes: bool,
    /// How far a match may be shifted, in seconds.
    pub search_seconds: Option<Number>,
    /// How many stored waveforms are tried per event.
    pub candidates: Option<usize>,
    /// Skip the reconstruction check.
    pub unchecked: bool,
}

/// Arguments of the `compose` command.
#[derive(Debug)]
pub struct Compose {
    /// Decomposition directory to rebuild.
    pub archive: String,
    /// File to write the reconstruction to; `<archive>.wav` by default.
    pub output: Option<String>,
}

/// Arguments of the `verify` command.
#[derive(Debug)]
pub struct Verify {
    /// Decomposition directory to check.
    pub archive: String,
    /// The recording the decomposition claims to reproduce.
    pub original: String,
    /// Fail when the reconstruction is not exact.
    pub strict: bool,
}

/// Arguments of the `inspect` command.
#[derive(Debug)]
pub struct Inspect {
    /// Audio file or decomposition directory to describe.
    pub path: String,
    /// Also list the tracks the projects would hold.
    pub tracks: bool,
    /// Also list the project formats the exporter writes.
    pub formats: bool,
}

/// Arguments of the `export` command.
#[derive(Debug)]
pub struct Export {
    /// Decomposition directory to export.
    pub archive: String,
    /// Project formats to export, `all` or `none`.
    pub formats: Vec<String>,
    /// Tempo of the exported projects; measured from the music when absent.
    pub tempo: Option<Number>,
    /// Leave the recognised notes out of the projects.
    pub no_notes: bool,
}

/// Arguments of the `render` command.
#[derive(Debug)]
pub struct Render {
    /// Decomposition directory holding the bank to play.
    pub archive: String,
    /// MIDI file to play through it; the decomposition's own notes by default.
    pub score: Option<String>,
    /// File to write the render to.
    pub output: String,
    /// Leave a note the bank cannot voice silent instead of synthesising it.
    pub silence_unvoiceable: bool,
    /// Cut every sample at the length of the note that plays it.
    pub trim: bool,
    /// Seconds of room left after the last note.
    pub tail_seconds: Option<Number>,
}

/// The text that an argument carries, if it was given.
pub open spec fn given(argument: Option<String>) -> Option<Seq<char>> {
    match argument {
        Some(text) => Some(text@),
        None => None,
    }
}

/// The name a recording carries: the one given, or the file's without its
/// extension.
pub open spec fn name_of(input: Seq<char>, name: Option<Seq<char>>) -> Seq<char> {
    match name {
        Some(text) => text,
        None => match file_name_of(input) {
            Some(file) => stem_of(file),
            None => "recording"@,
        },
    }
}

/// Where a decomposition is written: the directory given, or one beside the
/// recording.
pub open spec fn archive_of(
    input: Seq<char>,
    output: Option<Seq<char>>,
    name: Option<Seq<char>>,
) -> Seq<char> {
    match output {
        Some(directory) => directory,
        None => joined(
            match parent_of(input) {
                Some(directory) => directory,
                None => seq!['.'],
            },
            name_of(input, name) + "-decomposition"@,
        ),
    }
}

/// The analysis the switches add up to, but for what is measured in seconds.
#[derive(Debug)]
pub struct Plan {
    /// Name of the recording, used for exported file names.
    pub name: String,
    /// Whether a waveform is reused only where it repeats verbatim.
    pub exact_repeats: bool,
    /// How the recording is split into stems.
    pub stems: StemMode,
    /// How many stored waveforms are tried per event.
    pub candidates: usize,
    /// Whether notes are recognised at all.
    pub recognise_notes: bool,
}

/// How many stored waveforms are tried per event unless told otherwise.
pub const CANDIDATES: usize = 24;

impl Decompose {
    /// The name the decomposition carries.
    pub fn stem(&self) -> (name: String)
        ensures
            name@ == name_of(self.input@, given(self.name)),
    {
        match &self.name {
            Some(name) => name.clone(),
            None => match file_name(self.input.as_str()) {
                Some(file) => string_of(&stem(&file)),
                None => "recording".to_string(),
            },
        }
    }

    /// Where the decomposition is written.
    pub fn destination(&self) -> (path: String)
        ensures
            path@ == archive_of(self.input@, given(self.output), given(self.name)),
    {
        match &self.output {
            Some(output) => output.clone(),
            None => {
                let mut name = self.stem();
                name.append("-decomposition");
                match parent_directory(self.input.as_str()) {
                    Some(directory) => join(directory.as_str(), name.as_str()),
                    None => {
                        proof {
                            reveal_strlit(".");
                            assert("."@ =~= seq!['.']);
                        }
                        join(".", name.as_str())
                    },
                }
            },
        }
    }

    /// The analysis settings the switches add up to.
    pub fn options(&self) -> (plan: Plan)
        ensures
            plan.name@ == name_of(self.input@, given(self.name)),
            plan.exact_repeats == self.exact_repeats,
            plan.stems == (if self.no_stems {
                StemMode::Whole
            } else {
                StemMode::HarmonicPercussive
            }),
            plan.candidates == (match self.candidates {
                Some(candidates) => candidates,
                None => CANDIDATES,
            }),
            plan.recognise_notes == !self.no_notes,
    {
        Plan {
            name: self.stem(),
            exact_repeats: self.exact_repeats,
            stems: if self.no_stems {
                StemMode::Whole
            } else {
                StemMode::HarmonicPercussive
            },
            candidates: match self.candidates {
                Some(candidates) => candidates,
                None => CANDIDATES,
            },
            recognise_notes: !self.no_notes,
        }
    }
}

impl Compose {
    /// Where the reconstruction is written: the file given, or `<archive>.wav`
    /// beside the archive, whatever dots its name holds.
    pub fn destination(&self) -> (path: String)
        ensures
            path@ == match given(self.output) {
                Some(file) => file,
                None => match file_name_of(self.archive@) {
                    Some(_) => named_part(self.archive@) + ".wav"@,
                    None => self.archive@,
                },
            },
    {
        match &self.output {
            Some(output) => output.clone(),
            None => lengthen(self.archive.as_str(), ".wav"),
        }
    }
}

impl Verify {
    /// What is reported of a reconstruction: an error where it is not exact and
    /// has to be. The deviation is the largest difference, as it is written.
    pub fn outcome(&self, exact: bool, deviation: &str) -> (outcome: Result<(), Error>)
        ensures
            if self.strict && !exact {
                outcome matches Err(error) && error@ == Fault::Mismatch(
                    self.archive@ + " does not reproduce "@ + self.original@
                        + " exactly; largest difference "@ + deviation@,
                )
            } else {
                outcome is Ok
            },
    {
        if self.strict && !exact {
            let mut message = self.archive.clone();
            message.append(" does not reproduce ");
            message.append(self.original.as_str());
            message.append(" exactly; largest difference ");
            message.append(deviation);
            return Err(Error::Mismatch(message));
        }
        Ok(())
    }
}

/// Says which directory failed when it is not a decomposition.
pub fn not_a_decomposition(root: &str, complaint: &str) -> (error: Error)
    ensures
        error@ == Fault::InvalidArgument(
            root@ + " does not look like a decomposition directory ("@ + complaint@ + ")"@,
        ),
{
    let mut message = root.to_string();
    message.append(" does not look like a decomposition directory (");
    message.append(complaint);
    message.append(")");
    Error::InvalidArgument(message)
}

/// A recording is named after its file, without the extension, and its archive
/// lies beside it under that name. A name or a place that is given counts instead.
pub proof fn law_archives_lie_beside_their_recording(
    directory: Seq<char>,
    stem: Seq<char>,
    extension: Seq<char>,
    name: Seq<char>,
    output: Seq<char>,
)
    requires
        directory.len() > 0,
        directory.last() != '/',
        !(directory.last() == '.' && directory.len() > 1 && directory[directory.len() - 2] == '/'),
        stem.len() > 0,
        !stem.contains('/'),
        !extension.contains('/'),
        !extension.contains('.'),
        stem + seq!['.'] + extension != seq!['.', '.'],
    ensures
        ({
            let input = directory + seq!['/'] + (stem + seq!['.'] + extension);
            &&& name_of(input, None) == stem
            &&& name_of(input, Some(name)) == name
            &&& archive_of(input, None, None) == directory + seq!['/'] + (stem
                + "-decomposition"@)
            &&& archive_of(input, Some(output), None) == output
        }),
{
    let file = stem + seq!['.'] + extension;
    let input = directory + seq!['/'] + file;
    assert(!file.contains('/')) by {
        if file.contains('/') {
            let k = choose|k: int| 0 <= k < file.len() && file[k] == '/';
            if k < stem.len() {
                assert(stem[k] == '/');
            } else if k > stem.len() {
                assert(extension[k - stem.len() - 1] == '/');
            }
        }
    }
    assert(file.len() >= 2);
    assert(file != seq!['.']);
    law_files_are_named_behind_their_directory(directory, file);
    law_files_lie_in_the_directory_they_are_joined_to(directory, file);
    law_names_are_a_stem_and_an_extension(stem, extension);
    let folder = stem + "-decomposition"@;
    assert(folder[0] == stem[0]);
    assert(stem[0] != '/');
    assert(joined(directory, folder) == directory + seq!['/'] + folder);
}

} // verus!
