//! The manifest as text and as a network.

use audio_decomposer::associative::schema::{
    decode, encode, sample_file, slug, stem_file, Entry, Manifest, SampleEntry, CORRECTION_FILE,
    RESIDUAL_FILE,
};
use audio_decomposer::associative::store::LinkStore;
use audio_decomposer::audio::{Audio, SampleFormat};
use audio_decomposer::decompose::model::{
    Decomposition, Gain, Note, Placement, Sample, SourceInfo, Stem,
};
use audio_decomposer::number::{parse_signed, parse_unsigned, signed_text, Number};

fn number(text: &str) -> Number {
    Number::parse(text).unwrap()
}

fn manifest() -> Manifest {
    Manifest {
        source: SourceInfo {
            name: "prelude in c".to_string(),
            sample_rate: 44_100,
            format: SampleFormat::PcmI16,
            channels: 2,
            frames: 220_500,
        },
        stems: vec![
            Entry {
                name: "harmonic".to_string(),
                file: "stems/harmonic.wav".to_string(),
            },
            Entry {
                name: "percussive".to_string(),
                file: "stems/percussive.wav".to_string(),
            },
        ],
        samples: vec![
            SampleEntry {
                id: 0,
                name: "sample-0001".to_string(),
                file: "samples/sample-0001.wav".to_string(),
                frames: 4096,
                peak: number("0.6"),
                note: Some(57),
                frequency: Some(number("220")),
            },
            SampleEntry {
                id: 1,
                name: "sample-0002".to_string(),
                file: "samples/sample-0002.wav".to_string(),
                frames: 1024,
                peak: number("0.125"),
                note: None,
                frequency: None,
            },
        ],
        placements: vec![
            Placement::new(0, 0, 0, Gain::unit()),
            Placement::new(1, 1, -12, Gain::from_numerator(32_768)),
        ],
        notes: vec![Note {
            channel: 0,
            start: 0,
            length: 4096,
            note: 57,
            velocity: 100,
            frequency: number("220"),
            confidence: number("0.93"),
        }],
        residual: RESIDUAL_FILE.to_string(),
        correction: Some(CORRECTION_FILE.to_string()),
    }
}

#[test]
fn a_manifest_survives_the_round_trip_through_links_notation() {
    let original = manifest();
    let text = original.to_lino();
    assert_eq!(Manifest::from_lino(&text).unwrap(), original);
    assert_eq!(Manifest::from_lino(&text).unwrap().to_lino(), text);
}

#[test]
fn a_manifest_survives_the_round_trip_through_the_link_network() {
    let original = manifest();
    let mut store = LinkStore::default();
    let root = original.store(&mut store);
    assert_eq!(Manifest::read(&store, root).unwrap(), original);
}

#[test]
fn a_manifest_without_optional_parts_round_trips() {
    let mut original = manifest();
    original.correction = None;
    original.stems.clear();
    original.notes.clear();
    original.samples[0].note = None;
    original.samples[0].frequency = None;

    let text = original.to_lino();
    assert!(!text.contains("correction"));
    assert!(!text.contains("(note"));
    assert_eq!(Manifest::from_lino(&text).unwrap(), original);
}

#[test]
fn the_manifest_of_a_decomposition_names_every_file() {
    let audio = Audio::silence(8000, SampleFormat::PcmI16, 1, 16);
    let waveform = Audio::from_mono(8000, SampleFormat::PcmI16, vec![16_384, -16_384]).unwrap();
    let decomposition = Decomposition {
        source: SourceInfo::of("my song", &audio),
        stems: vec![Stem {
            name: "one two".to_string(),
            audio: audio.copy(),
        }],
        samples: vec![Sample::new(0, "a/b".to_string(), waveform, number("0.5"))],
        placements: vec![Placement::new(0, 0, 4, Gain::unit())],
        notes: Vec::new(),
        residual: audio.copy(),
        correction: Some(audio),
    };

    let manifest = Manifest::of(&decomposition);
    assert_eq!(manifest.source.name, "my song");
    assert_eq!(manifest.stems[0].file, "stems/one_two.wav");
    assert_eq!(manifest.samples[0].file, "samples/a_b.wav");
    assert_eq!(manifest.samples[0].frames, 2);
    assert_eq!(manifest.samples[0].peak, number("0.5"));
    assert_eq!(manifest.residual, RESIDUAL_FILE);
    assert_eq!(manifest.correction.as_deref(), Some(CORRECTION_FILE));
    assert_eq!(Manifest::from_lino(&manifest.to_lino()).unwrap(), manifest);
}

#[test]
fn names_that_collide_with_the_notation_are_encoded() {
    let awkward = "a (b) c: d\t\u{e9}%";
    assert_eq!(encode(awkward), "a%20%28b%29%20c%3A%20d%09%C3%A9%25");
    assert_eq!(decode(&encode(awkward)).unwrap(), awkward);
    assert_eq!(encode(""), "%");
    assert_eq!(decode("%").unwrap(), "");
    assert_eq!(encode("stems/a-b_c.wav"), "stems/a-b_c.wav");

    let mut original = manifest();
    original.source.name = awkward.to_string();
    original.stems[0].name = "left right".to_string();
    assert_eq!(Manifest::from_lino(&original.to_lino()).unwrap(), original);
}

#[test]
fn awkward_decodes_are_reported_rather_than_guessed() {
    assert!(decode("%2").is_err());
    assert!(decode("%zz").is_err());
    assert!(decode("%FF").is_err());
    assert_eq!(slug(""), "_");
    assert_eq!(slug("Kick 01!"), "Kick_01_");
}

#[test]
fn exact_values_are_preserved_to_the_last_bit() {
    let mut original = manifest();
    original.samples[0].peak = number(&format!("{}", 0.1 + 0.2));
    original.samples[0].frequency = Some(number(&format!("{}", std::f64::consts::PI)));
    original.notes[0].confidence = number(&format!("{}", 1.0 / 3.0));

    let restored = Manifest::from_lino(&original.to_lino()).unwrap();
    let peak: f64 = restored.samples[0].peak.text().parse().unwrap();
    assert_eq!(peak.to_bits(), (0.1_f64 + 0.2).to_bits());
    assert_eq!(restored, original);
}

#[test]
fn broken_manifests_are_rejected_with_a_reason() {
    let complain = |text: &str| Manifest::from_lino(text).unwrap_err().to_string();

    assert!(complain("(residual: r.wav)").contains("no version"));
    assert!(complain("(decomposition: version 2)").contains("not supported"));
    assert!(complain("(decomposition: version 1)").contains("no source"));
    assert!(complain("(decomposition: revision 1)").contains("expected `version`"));
    assert!(complain("(mystery: 1)").contains("unknown manifest entry"));
    assert!(
        complain("(decomposition: version 1)\n(source: (name a) (sample-rate 44100))")
            .contains("missing `format`")
    );
    assert!(complain(
        "(decomposition: version 1)\n(source: (name a) (sample-rate x) (format pcm_i16) (channels 1) (frames 1))"
    )
    .contains("not a valid sample rate"));
    assert!(complain("(decomposition: version 1)\n(stem: only)").contains("missing a stem file"));
    assert!(
        complain("(decomposition: version 1)\n(placement: 0 0 0 x)").contains("not a valid gain")
    );
    assert!(complain("(decomposition: version 1)\n(note: 0 0 0 0 0 0.0 x)")
        .contains("not a valid confidence"));
    assert!(complain("(decomposition: version 1)\n(sample: 0 a b (frames 1))")
        .contains("missing `peak`"));
}

#[test]
fn files_are_named_after_what_they_hold() {
    assert_eq!(stem_file("one two"), "stems/one_two.wav");
    assert_eq!(sample_file("kick-01"), "samples/kick-01.wav");
    assert_eq!(sample_file(""), "samples/_.wav");
}

#[test]
fn a_text_that_is_no_text_is_refused_by_its_bytes() {
    let error = decode("%FF").unwrap_err().to_string();

    assert!(error.contains("utf-8"), "{error}");
    assert_eq!(decode("%C3%A9").unwrap(), "\u{e9}");
}

#[test]
fn numbers_are_read_as_the_standard_library_reads_them() {
    assert_eq!(parse_unsigned("42", 255), Some(42));
    assert_eq!(parse_unsigned("+42", 255), Some(42));
    assert_eq!(parse_unsigned("256", 255), None);
    assert_eq!(parse_unsigned("-1", 255), None);
    assert_eq!(parse_unsigned("", 255), None);
    assert_eq!(parse_signed("-9223372036854775808"), Some(i64::MIN));
    assert_eq!(parse_signed("9223372036854775808"), None);
    assert_eq!(signed_text(-12), "-12");
    assert_eq!(signed_text(i64::MIN), "-9223372036854775808");
    for text in ["0.5", "-1e9", ".5", "5.", "inf", "NaN", "+Infinity", "1E-3"] {
        assert!(Number::parse(text).is_some(), "{text}");
        assert!(text.parse::<f64>().is_ok(), "{text}");
    }
    for text in ["", ".", "e5", "1e", "x", "0x10", "1 ", "infinit"] {
        assert!(Number::parse(text).is_none(), "{text}");
        assert!(text.parse::<f64>().is_err(), "{text}");
    }
}
