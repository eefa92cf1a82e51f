//! What an archive holds and whether its parts fit together.

use audio_decomposer::archive::{
    assemble, check, check_entry, manifest_of, pack, read_sample, resolve, unique, MANIFEST_FILE,
};
use audio_decomposer::associative::schema::{Manifest, CORRECTION_FILE, RESIDUAL_FILE};
use audio_decomposer::audio::float::{float_code, grid_code};
use audio_decomposer::audio::grid::{regrid, storage_format, stored};
use audio_decomposer::audio::{wav, Audio, SampleFormat};
use audio_decomposer::decompose::close;
use audio_decomposer::decompose::model::{
    Decomposition, Gain, Note, Placement, Sample, SourceInfo, Stem,
};
use audio_decomposer::number::Number;
use audio_decomposer::report::{describe_manifest, describe_source};
use std::collections::HashMap;

fn number(text: &str) -> Number {
    Number::parse(text).unwrap()
}

fn audio(values: &[f64]) -> Audio {
    Audio::from_mono(
        8_000,
        SampleFormat::PcmI16,
        values.iter().map(|value| (value * 32_768.0) as i64).collect(),
    )
    .unwrap()
}

fn decomposition() -> Decomposition {
    let source = SourceInfo::of("a song", &audio(&[0.0; 8]));
    let mut samples = vec![
        Sample::new(0, "kick".to_string(), audio(&[0.5, -0.5, 0.25]), number("0.5")),
        Sample::new(1, "hat".to_string(), audio(&[0.125, 0.0625]), number("0.125")),
    ];
    samples[0].note = Some(36);
    samples[0].frequency = Some(number("65.40639132514966"));
    Decomposition {
        source,
        stems: vec![
            Stem::new("harmonic".to_string(), audio(&[0.25; 8])),
            Stem::new("percussive".to_string(), audio(&[-0.25; 8])),
        ],
        samples,
        placements: vec![
            Placement::new(0, 0, 0, Gain::unit()),
            Placement::new(1, 0, 4, Gain::from_numerator(32_768)),
        ],
        notes: vec![Note {
            channel: 0,
            start: 0,
            length: 3,
            note: 36,
            velocity: 100,
            frequency: number("65.40639132514966"),
            confidence: number("0.75"),
        }],
        residual: audio(&[0.0; 8]),
        correction: None,
    }
}

#[test]
fn names_that_share_a_file_name_are_kept_apart() {
    let mut original = decomposition();
    original.stems[1].name = "harmonic!".to_string();
    original.samples[1].name = "kick".to_string();

    let manifest = manifest_of(&original);
    assert_eq!(manifest.stems[0].file, "stems/harmonic.wav");
    assert_eq!(manifest.stems[1].file, "stems/harmonic_.wav");
    assert_eq!(manifest.samples[0].file, "samples/kick.wav");
    assert_eq!(manifest.samples[1].file, "samples/kick-2.wav");

    let mut directory = Directory::new();
    directory.write(&original);
    assert_eq!(
        directory.read().samples[1].waveform,
        original.samples[1].waveform
    );
}

#[test]
fn every_stem_and_sample_really_lands_in_its_own_file() {
    let mut taken = Vec::new();
    assert_eq!(unique(&mut taken, "a/b.wav"), "a/b.wav");
    assert_eq!(unique(&mut taken, "a/b.wav"), "a/b-2.wav");
    assert_eq!(unique(&mut taken, "a/b.wav"), "a/b-3.wav");
    assert_eq!(unique(&mut taken, "a/b-2.wav"), "a/b-2-2.wav");
    assert_eq!(unique(&mut taken, "plain"), "plain");
    assert_eq!(unique(&mut taken, "plain"), "plain-2");
}

#[test]
fn an_archive_that_points_outside_itself_is_refused() {
    let root = "/tmp/archive";
    assert!(resolve(root, "stems/a.wav").is_ok());
    assert!(resolve(root, "../escape.wav").is_err());
    assert!(resolve(root, "/etc/passwd").is_err());
    assert!(resolve(root, "./a.wav").is_err());
}

#[test]
fn files_are_resolved_as_the_standard_library_joins_them() {
    for file in [
        "", "a", "a/b.wav", "a//b", "a/./b", "a/.", ".", "./", "..", "a/..", "a/../b", "/", "/a",
        "...", "a...b", ".hidden", "a/..b",
    ] {
        let relative = std::path::Path::new(file);
        let inside = relative
            .components()
            .all(|component| matches!(component, std::path::Component::Normal(_)));
        for root in ["/tmp/archive", "archive/", ""] {
            let resolved = resolve(root, file);
            if inside {
                assert_eq!(
                    resolved.unwrap(),
                    std::path::Path::new(root).join(relative).to_str().unwrap(),
                    "{root:?} and {file:?}"
                );
            } else {
                assert_eq!(
                    resolved.unwrap_err().to_string(),
                    format!("invalid format: `{file}` is not a name inside the archive")
                );
            }
        }
    }
}

#[test]
fn a_manifest_that_does_not_match_its_audio_is_refused() {
    let original = decomposition();
    let manifest = manifest_of(&original);
    let kick = || audio(&[0.5, -0.5, 0.25]);
    let peak = || number("0.5");

    let mut wrong = manifest.clone();
    wrong.samples[0].frames = 99;
    assert!(read_sample(&wrong.samples[0], kick(), peak(), &peak(), true)
        .unwrap_err()
        .to_string()
        .contains("holds 3 frames"));

    assert!(
        read_sample(&manifest.samples[0], kick(), peak(), &number("0.125"), false)
            .unwrap_err()
            .to_string()
            .contains("peaks at")
    );

    let mut wrong = manifest.clone();
    wrong.samples[0].id = 7;
    assert!(check_entry(0, &wrong.samples[0])
        .unwrap_err()
        .to_string()
        .contains("has id 7"));

    let mut wrong = decomposition();
    wrong.source.frames = 9;
    assert!(check(&wrong).unwrap_err().to_string().contains("the source is"));

    let mut wrong = decomposition();
    wrong.placements.push(Placement::new(9, 0, 0, Gain::unit()));
    assert!(check(&wrong)
        .unwrap_err()
        .to_string()
        .contains("refers to sample 9"));

    assert!(check(&original).is_ok());
    assert!(check_entry(1, &manifest.samples[1]).is_ok());
}

#[test]
fn every_misfit_is_described() {
    let manifest = manifest_of(&decomposition());
    let stereo = Audio::silence(8_000, SampleFormat::PcmI16, 2, 3);
    assert_eq!(
        read_sample(&manifest.samples[0], stereo, number("0"), &number("0"), true)
            .unwrap_err()
            .to_string(),
        "mismatch: sample `kick` has 2 channels, bank samples are mono"
    );
    assert_eq!(
        check_entry(1, &manifest.samples[0]).unwrap_err().to_string(),
        "invalid format: sample `kick` has id 0 but is the 1. entry in the bank"
    );
    let mut wrong = decomposition();
    wrong.residual = Audio::silence(8_000, SampleFormat::PcmI16, 1, 9);
    assert_eq!(
        check(&wrong).unwrap_err().to_string(),
        "mismatch: `residual` is 8000 Hz, 1 channels, 9 frames; \
         the source is 8000 Hz, 1 channels, 8 frames"
    );
    let mut wrong = decomposition();
    wrong.correction = Some(Audio::silence(8_000, SampleFormat::PcmI16, 2, 8));
    assert!(check(&wrong).unwrap_err().to_string().contains("`correction`"));
    let mut wrong = decomposition();
    wrong.stems[1].audio = Audio::silence(44_100, SampleFormat::PcmI16, 1, 8);
    assert!(check(&wrong).unwrap_err().to_string().contains("`percussive` is 44100 Hz"));
}

#[test]
fn a_sample_is_read_back_with_its_note() {
    let original = decomposition();
    let manifest = manifest_of(&original);
    let read = read_sample(
        &manifest.samples[0],
        audio(&[0.5, -0.5, 0.25]),
        number("0.5"),
        &number("0.5"),
        true,
    )
    .unwrap();

    assert_eq!(read.id, 0);
    assert_eq!(read.name, "kick");
    assert_eq!(read.note, Some(36));
    assert_eq!(read.frequency, original.samples[0].frequency);
    assert_eq!(
        read.waveform.channels(),
        original.samples[0].waveform.channels()
    );
}

/// A directory that is held in memory, by path.
struct Directory(HashMap<String, Vec<u8>>);

const ROOT: &str = "/music/song-decomposition";

impl Directory {
    fn new() -> Self {
        Self(HashMap::new())
    }

    fn holds(&self, file: &str) -> bool {
        self.0.contains_key(&resolve(ROOT, file).unwrap())
    }

    fn write(&mut self, decomposition: &Decomposition) -> Manifest {
        let (manifest, files) = pack(decomposition).unwrap();
        for stored in files {
            self.0
                .insert(resolve(ROOT, &stored.file).unwrap(), stored.bytes);
        }
        let text = manifest.to_lino().into_bytes();
        self.0.insert(resolve(ROOT, MANIFEST_FILE).unwrap(), text);
        manifest
    }

    fn read_audio(&self, file: &str) -> Audio {
        wav::decode(&self.0[&resolve(ROOT, file).unwrap()]).unwrap()
    }

    fn read(&self) -> Decomposition {
        let text = &self.0[&resolve(ROOT, MANIFEST_FILE).unwrap()];
        let manifest = Manifest::from_lino(std::str::from_utf8(text).unwrap()).unwrap();
        let samples = manifest
            .samples
            .iter()
            .enumerate()
            .map(|(index, entry)| {
                check_entry(index, entry).unwrap();
                let audio = self.read_audio(&entry.file);
                read_sample(entry, audio, entry.peak.copy(), &entry.peak, true).unwrap()
            })
            .collect();
        let stems = manifest
            .stems
            .iter()
            .map(|entry| self.read_audio(&entry.file))
            .collect();
        let residual = self.read_audio(&manifest.residual);
        let correction = manifest
            .correction
            .as_ref()
            .map(|file| self.read_audio(file));
        assemble(&manifest, stems, samples, residual, correction).unwrap()
    }
}

#[test]
fn an_archive_round_trips_through_a_directory() {
    let mut directory = Directory::new();
    let original = decomposition();

    let manifest = directory.write(&original);
    assert_eq!(MANIFEST_FILE, "decomposition.lino");
    assert_eq!(manifest.stems[0].file, "stems/harmonic.wav");
    assert_eq!(manifest.samples[1].file, "samples/hat.wav");
    assert!(directory.holds(MANIFEST_FILE));
    assert!(directory.holds(RESIDUAL_FILE));
    assert!(!directory.holds(CORRECTION_FILE));

    let restored = directory.read();
    assert_eq!(restored.source, original.source);
    assert_eq!(restored.stems, original.stems);
    assert_eq!(restored.placements, original.placements);
    assert_eq!(restored.notes, original.notes);
    assert_eq!(restored.residual, original.residual);
    assert_eq!(restored.samples, original.samples);
    assert_eq!(restored.reconstruct(), original.reconstruct());
}

#[test]
fn buffers_with_more_channels_than_a_file_counts_are_refused() {
    let mut wide = decomposition();
    wide.residual = Audio::silence(8_000, SampleFormat::PcmI16, 65_536, 1);

    assert_eq!(
        pack(&wide).err().unwrap().to_string(),
        "invalid argument: too many channels for WAV"
    );
}

#[test]
fn parts_that_do_not_fit_are_not_assembled() {
    let original = decomposition();
    let manifest = manifest_of(&original);
    let stems = vec![audio(&[0.25; 8]), audio(&[-0.25; 7])];

    let error = assemble(&manifest, stems, original.samples, audio(&[0.0; 8]), None).unwrap_err();
    assert!(
        error.to_string().contains("`percussive` is 8000 Hz, 1 channels, 7 frames"),
        "{error:?}"
    );
}

#[test]
fn a_residual_past_full_scale_comes_back_from_its_archive() {
    let mut directory = Directory::new();
    let mut original = decomposition();
    let recording = audio(&[-0.9, 0.9, -0.9, 0.0, 0.25, 0.5, -0.5, 0.125]);
    original.placements[0] = Placement::new(0, 0, 0, Gain::from_numerator(2 * 65_536));
    original.stems = vec![Stem::new("full".to_string(), recording.copy())];
    close(&mut original, &recording).unwrap();
    assert_eq!(original.residual.format(), SampleFormat::F32);

    directory.write(&original);
    let restored = directory.read();

    assert_eq!(restored, original);
    assert_eq!(restored.reconstruct(), recording);
}

#[test]
fn a_correction_is_stored_when_there_is_one() {
    let mut directory = Directory::new();
    let mut original = decomposition();
    original.source.format = SampleFormat::F32;
    let tiny = 1.0e-9_f64.to_bits() as i64;
    original.correction =
        Some(Audio::from_mono(8_000, SampleFormat::F64, vec![tiny; 8]).unwrap());

    directory.write(&original);
    assert!(directory.holds(CORRECTION_FILE));

    let restored = directory.read();
    assert_eq!(restored.correction, original.correction);
    assert_eq!(restored, original);
}

/// A buffer of floats, in the format asked for where it holds them all.
fn floats(format: SampleFormat, values: &[f64]) -> Audio {
    let narrow = values.iter().all(|value| f64::from(*value as f32) == *value);
    if format == SampleFormat::F32 && narrow {
        let codes = values.iter().map(|value| i64::from((*value as f32).to_bits()));
        Audio::from_mono(8_000, SampleFormat::F32, codes.collect()).unwrap()
    } else {
        let codes = values.iter().map(|value| value.to_bits() as i64);
        Audio::from_mono(8_000, SampleFormat::F64, codes.collect()).unwrap()
    }
}

#[test]
fn buffers_that_their_format_cannot_hold_are_stored_as_double() {
    let mut directory = Directory::new();
    let mut original = decomposition();
    let precise = vec![0.1; 8];
    original.stems[0] = Stem::new(
        "harmonic".to_string(),
        floats(SampleFormat::F32, &precise),
    );
    original.stems[1] = Stem::new(
        "percussive".to_string(),
        floats(SampleFormat::F32, &[0.5; 8]),
    );

    directory.write(&original);
    let restored = directory.read();

    let amplitudes: Vec<f64> = restored.stems[0]
        .audio
        .channel(0)
        .iter()
        .map(|code| f64::from_bits(*code as u64))
        .collect();
    assert_eq!(amplitudes, precise);
    assert_eq!(restored.stems[0].audio.format(), SampleFormat::F64);
    assert_eq!(restored.stems[1].audio.format(), SampleFormat::F32);
}

#[test]
fn every_buffer_comes_back_in_its_own_format() {
    let mut directory = Directory::new();
    let mut original = decomposition();
    original.stems[0].audio = floats(SampleFormat::F32, &[0.0; 8]);
    original.stems[1].audio =
        Audio::from_mono(8_000, SampleFormat::PcmI24, vec![1, 2, 3, 4, 5, 6, 7, 8]).unwrap();
    original.samples[0].waveform =
        Audio::from_mono(8_000, SampleFormat::PcmI32, vec![1 << 30, 7, -9]).unwrap();
    original.residual = floats(SampleFormat::F64, &[1.0e-300; 8]);

    directory.write(&original);
    assert_eq!(directory.read(), original);
}

#[test]
fn codes_past_their_range_are_held_as_floats() {
    let fine = audio(&[0.5, -0.25]);
    assert_eq!(storage_format(&fine), SampleFormat::PcmI16);
    assert_eq!(stored(&fine).channels(), fine.channels());

    let loud = Audio::from_mono(8_000, SampleFormat::PcmI16, vec![49_152, -65_536, 0]).unwrap();
    assert_eq!(storage_format(&loud), SampleFormat::F32);
    let kept = stored(&loud);
    assert_eq!(kept.format(), SampleFormat::F32);
    assert_eq!(
        kept.channel(0),
        &vec![
            i64::from(1.5_f32.to_bits()),
            i64::from((-2.0_f32).to_bits()),
            0
        ]
    );

    let precise =
        Audio::from_mono(8_000, SampleFormat::PcmI32, vec![0x1_0000_0001, -0x1_8000_0003]).unwrap();
    let kept = stored(&precise);
    assert_eq!(kept.format(), SampleFormat::F64);
    let step = 2.0_f64.powi(-31);
    assert_eq!(
        kept.channel(0),
        &vec![
            (0x1_0000_0001_i64 as f64 * step).to_bits() as i64,
            (-0x1_8000_0003_i64 as f64 * step).to_bits() as i64
        ]
    );
}

#[test]
fn a_stored_buffer_is_taken_back_to_its_grid() {
    for buffer in [
        audio(&[0.5, -0.25]),
        Audio::from_mono(8_000, SampleFormat::PcmI16, vec![49_152, -65_535, 1]).unwrap(),
        Audio::from_mono(8_000, SampleFormat::PcmI32, vec![0x1_0000_0001, -0x1_8000_0003]).unwrap(),
        Audio::from_mono(8_000, SampleFormat::PcmI24, vec![0x100_0001, 3]).unwrap(),
    ] {
        let bytes = wav::encode(&stored(&buffer)).unwrap();
        let grid = regrid(&wav::decode(&bytes).unwrap(), buffer.format()).unwrap();
        assert_eq!(grid, buffer);
    }
    assert_eq!(
        regrid(&audio(&[0.5]), SampleFormat::PcmI24).unwrap().channel(0),
        &vec![4_194_304]
    );
    let finer = Audio::from_mono(8_000, SampleFormat::PcmI24, vec![1]).unwrap();
    assert!(regrid(&finer, SampleFormat::PcmI16).is_none());
    assert!(regrid(&floats(SampleFormat::F64, &[0.1]), SampleFormat::PcmI16).is_none());
}

#[test]
fn floats_between_the_steps_stay_floats() {
    for value in [0.1_f64, f64::MIN_POSITIVE, f64::INFINITY, f64::NAN, 1e300, 5e-324] {
        assert_eq!(
            grid_code(value.to_bits() as i64, SampleFormat::F64, SampleFormat::PcmI16),
            None,
            "{value}"
        );
    }
    assert_eq!(
        grid_code((-0.0_f64).to_bits() as i64, SampleFormat::F64, SampleFormat::PcmI16),
        Some(0)
    );
    for code in [-70_000_i64, -32_768, -1, 0, 1, 2, 3, 255, 32_767, 1_000_001] {
        let value = code as f64 / 32_768.0;
        assert_eq!(
            float_code(code, SampleFormat::PcmI16, SampleFormat::F64),
            value.to_bits() as i64
        );
        assert_eq!(
            float_code(code, SampleFormat::PcmI16, SampleFormat::F32),
            i64::from((value as f32).to_bits())
        );
        assert_eq!(
            grid_code(value.to_bits() as i64, SampleFormat::F64, SampleFormat::PcmI16),
            Some(code)
        );
    }
}

#[test]
fn a_manifest_is_described_line_by_line() {
    let original = decomposition();
    let mut manifest = manifest_of(&original);
    assert_eq!(
        describe_source(&manifest.source, "0:00.001"),
        "recording: a song\n  8000 Hz, 1 channel(s), 8 frames, 0:00.001 (pcm_i16)\n"
    );
    assert_eq!(
        describe_manifest(&manifest, "0:00.001"),
        "recording: a song\n  8000 Hz, 1 channel(s), 8 frames, 0:00.001 (pcm_i16)\n\
         stems: harmonic, percussive\nbank: 2 sample(s), 1 pitched, 2 placement(s)\nnotes: 1\n"
    );
    manifest.stems.clear();
    manifest.correction = Some("correction.wav".to_string());
    let text = describe_manifest(&manifest, "0:00.001");
    assert!(text.contains("stems: none\n"), "{text}");
    assert!(text.ends_with("notes: 1\ncorrection: correction.wav\n"), "{text}");
}
