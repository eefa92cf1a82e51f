//! What follows from a command line.

use audio_decomposer::cli::{
    not_a_decomposition, Cli, Command, Compose, Decompose, Inspect, Verify,
};
use audio_decomposer::decompose::StemMode;
use audio_decomposer::path::{join, lengthen, parent_directory};
use audio_decomposer::report;

fn compose(archive: &str, output: Option<&str>) -> Compose {
    let cli = Cli {
        command: Command::Compose(Compose {
            archive: archive.to_string(),
            output: output.map(str::to_string),
        }),
    };
    match cli.command {
        Command::Compose(command) => command,
        other => panic!("expected compose, got {other:?}"),
    }
}

fn decompose(input: &str) -> Decompose {
    Decompose {
        input: input.to_string(),
        output: None,
        name: None,
        formats: vec!["all".to_string()],
        tempo: None,
        exact_repeats: false,
        no_stems: false,
        no_notes: false,
        search_seconds: None,
        candidates: None,
        unchecked: false,
    }
}

#[test]
fn the_reconstruction_lands_beside_the_archive_by_default() {
    let command = compose("/music/song-decomposition", None);
    assert_eq!(command.destination(), "/music/song-decomposition.wav");
}

#[test]
fn a_trailing_separator_does_not_confuse_the_default() {
    let command = compose("/music/song-decomposition/", None);
    let destination = command.destination();
    assert_eq!(
        std::path::Path::new(&destination)
            .extension()
            .and_then(|it| it.to_str()),
        Some("wav")
    );
    assert_eq!(destination, "/music/song-decomposition.wav");
}

#[test]
fn a_dot_in_the_name_of_an_archive_stays_in_the_default() {
    let command = compose("/music/song.decomposition", None);
    assert_eq!(command.destination(), "/music/song.decomposition.wav");
    let archive = decompose("/music/take 1.5.wav").destination();
    assert_eq!(archive, "/music/take 1.5-decomposition");
    assert_eq!(
        compose(&archive, None).destination(),
        "/music/take 1.5-decomposition.wav"
    );
    assert_eq!(compose("..", None).destination(), "..");
}

#[test]
fn compose_a_given_output_is_used_as_it_stands() {
    let command = compose("archive", Some("/tmp/out.aiff"));
    assert_eq!(command.destination(), "/tmp/out.aiff");
}

#[test]
fn the_decomposition_lands_beside_the_recording_by_default() {
    let command = decompose("/music/take one.wav");
    assert_eq!(command.destination(), "/music/take one-decomposition");
    assert_eq!(command.stem(), "take one");
}

#[test]
fn decompose_a_given_output_is_used_as_it_stands() {
    let mut command = decompose("song.wav");
    command.output = Some("/tmp/here".to_string());
    assert_eq!(command.destination(), "/tmp/here");
}

#[test]
fn a_given_name_replaces_the_file_stem_everywhere() {
    let mut command = decompose("song.wav");
    command.name = Some("chorus".to_string());
    assert_eq!(command.stem(), "chorus");
    assert_eq!(command.options().name, "chorus");
    assert_eq!(command.destination(), "chorus-decomposition");
}

#[test]
fn every_switch_reaches_the_analysis_it_names() {
    let mut command = decompose("song.wav");
    command.exact_repeats = true;
    command.no_stems = true;
    command.no_notes = true;
    command.candidates = Some(12);
    let options = command.options();
    assert_eq!(options.stems, StemMode::Whole);
    assert!(!options.recognise_notes);
    assert_eq!(options.candidates, 12);
    assert!(options.exact_repeats);
}

#[test]
fn the_analysis_is_whole_unless_switched_off() {
    let options = decompose("song.wav").options();
    assert_eq!(options.stems, StemMode::HarmonicPercussive);
    assert!(options.recognise_notes);
    assert_eq!(options.candidates, 24);
    assert!(!options.exact_repeats);
    assert_eq!(options.name, "song");
}

/// The names of the formats that the tests know, by extension or by title.
fn parsed(names: &[String]) -> Vec<Option<usize>> {
    names
        .iter()
        .map(|name| match name.as_str() {
            "mid" | "midi" => Some(0),
            "sfz" => Some(1),
            "musicxml" => Some(2),
            _ => None,
        })
        .collect()
}

fn formats(list: &[&str]) -> Result<Vec<usize>, String> {
    let list: Vec<String> = list.iter().map(|item| (*item).to_string()).collect();
    let names = report::names(&list);
    let parsed = parsed(&names);
    report::formats(&names, &parsed, 3, "mid, sfz, musicxml").map_err(|error| error.to_string())
}

#[test]
fn a_list_of_formats_is_read_in_the_order_it_was_written() {
    assert_eq!(formats(&["sfz,midi"]).unwrap(), vec![1, 0]);
}

#[test]
fn a_format_named_twice_is_exported_once() {
    let chosen = formats(&["midi", "midi,all,midi"]).unwrap();
    assert_eq!(chosen.len(), 3);
    assert_eq!(chosen[0], 0);
}

#[test]
fn the_word_none_cancels_everything_before_it() {
    assert!(formats(&["all,none"]).unwrap().is_empty());
    assert!(formats(&["all, NONE ,protools"]).unwrap().is_empty());
}

#[test]
fn an_unknown_format_is_refused_rather_than_skipped() {
    let error = formats(&["midi,protools"]).unwrap_err();
    assert!(error.contains("protools"), "{error}");
    assert!(error.contains("mid"), "{error}");
    assert_eq!(
        error,
        "invalid argument: protools is not a project format; known formats are mid, sfz, musicxml"
    );
}

#[test]
fn blank_entries_are_ignored() {
    assert!(formats(&["", " , "]).unwrap().is_empty());
}

#[test]
fn a_strict_check_fails_when_the_reconstruction_is_not_exact() {
    let mut command = Verify {
        archive: "a".to_string(),
        original: "b.wav".to_string(),
        strict: true,
    };
    assert!(command.outcome(true, "0.000e0").is_ok());
    assert_eq!(
        command.outcome(false, "1.000e-3").unwrap_err().to_string(),
        "mismatch: a does not reproduce b.wav exactly; largest difference 1.000e-3"
    );
    command.strict = false;
    assert!(command.outcome(false, "1.000e-3").is_ok());
}

#[test]
fn a_directory_that_is_no_decomposition_is_named() {
    let inspect = Inspect {
        path: "/tmp".to_string(),
        tracks: false,
        formats: false,
    };
    assert_eq!(
        not_a_decomposition(&inspect.path, "missing").to_string(),
        "invalid argument: /tmp does not look like a decomposition directory (missing)"
    );
}

#[test]
fn paths_are_taken_apart_as_the_standard_library_does() {
    for path in [
        "", "/", ".", "./", "..", "a", "a/", "a/.", "a//", "/a", "//a", "a/b", "a//b", "a/./b",
        "./a", "././a", "/./a", "../a", "a/..", "a/../b", ".hidden", "a/.hidden", "x.tar.gz",
        "/music/take one.wav", "a.b/c", "...", "a/...",
    ] {
        let std_path = std::path::Path::new(path);
        assert_eq!(
            parent_directory(path),
            std_path.parent().map(|it| it.to_str().unwrap().to_string()),
            "parent of {path:?}"
        );
        if let Some(name) = std_path.file_name().and_then(|it| it.to_str()) {
            assert_eq!(
                std::path::Path::new(&lengthen(path, ".wav")),
                std_path.with_file_name(format!("{name}.wav")),
                "longer {path:?}"
            );
        } else {
            assert_eq!(lengthen(path, ".wav"), path, "longer {path:?}");
        }
        for root in ["", ".", "/tmp", "/tmp/"] {
            assert_eq!(
                join(root, path),
                std::path::Path::new(root).join(path).to_str().unwrap(),
                "{root:?} and {path:?}"
            );
        }
    }
}
