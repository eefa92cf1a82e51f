//! Taking recordings apart and putting them back together.

use audio_decomposer::audio::{Audio, SampleFormat};
use audio_decomposer::decompose::dedup::{equal_waveforms, fingerprint, sample_at};
use audio_decomposer::decompose::events::{events_from, gather, realign, shape, Event};
use audio_decomposer::decompose::model::{
    render, Decomposition, Gain, Note, Placement, Sample, SourceInfo, Stem, GAIN_SCALE,
};
use audio_decomposer::decompose::notes::{in_order, labelled, stretch};
use audio_decomposer::decompose::pursuit::{sample_name, second_pass, Pursuit, Trial};
use audio_decomposer::decompose::{
    add_sample, bring_together, close, close_over, keeps_whole, split_stems, whole_stem, StemMode,
};
use audio_decomposer::error::Error;
use audio_decomposer::number::Number;

fn number(text: &str) -> Number {
    Number::parse(text).unwrap()
}

/// A sample of a 16-bit recording as a code.
fn code(value: f64) -> i64 {
    (value * 32_768.0).round() as i64
}

fn mono(values: &[f64]) -> Audio {
    Audio::from_mono(
        8000,
        SampleFormat::PcmI16,
        values.iter().map(|value| code(*value)).collect(),
    )
    .unwrap()
}

fn source(frames: usize) -> SourceInfo {
    SourceInfo {
        name: "test".to_string(),
        sample_rate: 8000,
        format: SampleFormat::PcmI16,
        channels: 1,
        frames,
    }
}

fn sample(id: usize, name: &str, values: &[f64]) -> Sample {
    Sample::new(id, name.to_string(), mono(values), number("0.5"))
}

fn bits(values: &[f64]) -> Vec<u64> {
    values.iter().map(|value| value.to_bits()).collect()
}

#[test]
fn long_stretches_are_divided_into_equal_pieces() {
    let cuts = shape(&vec![(0, 1000)], 1000, 10, 300);

    assert_eq!(cuts, vec![0, 250, 500, 750]);
}

#[test]
fn boundaries_too_close_together_are_dropped() {
    let cuts = shape(&vec![(0, 100), (100, 105), (105, 400)], 400, 50, 0);

    assert_eq!(
        cuts,
        vec![0, 100],
        "the boundary five frames after the last one is not kept"
    );
}

#[test]
fn an_event_reads_its_own_samples() {
    let channels = vec![vec![1, 2, 3, 4]];
    assert_eq!(Event::new(0, 1, 2).slice(&channels), &[2, 3]);
    assert_eq!(Event::new(0, 3, 9).slice(&channels), &[4]);
    assert_eq!(Event::new(1, 0, 2).slice(&channels), &[] as &[i64]);
    assert_eq!(Event::new(0, 2, 2).end(), 4);
}

#[test]
fn cuts_become_events_that_tile_the_channel() {
    assert_eq!(
        events_from(2, &vec![0, 30, 70], 100),
        vec![
            Event::new(2, 0, 30),
            Event::new(2, 30, 40),
            Event::new(2, 70, 30)
        ]
    );
    assert!(events_from(0, &vec![], 100).is_empty());
}

#[test]
fn events_of_several_channels_come_in_time_order() {
    let events = gather(&vec![vec![0, 50], vec![0, 30]], 100);

    assert_eq!(
        events,
        vec![
            Event::new(0, 0, 50),
            Event::new(1, 0, 30),
            Event::new(1, 30, 70),
            Event::new(0, 50, 50),
        ]
    );
}

#[test]
fn boundaries_move_to_the_positions_the_matcher_chose() {
    let found = vec![
        Event::new(0, 0, 100),
        Event::new(0, 100, 100),
        Event::new(0, 200, 100),
    ];
    let starts = vec![Some(0), Some(96), None];

    let moved = realign(&found, &starts);

    assert_eq!(
        moved,
        vec![
            Event::new(0, 0, 96),
            Event::new(0, 96, 104),
            Event::new(0, 200, 100),
        ],
        "the events still tile the timeline"
    );
}

#[test]
fn boundary_moves_that_would_reorder_the_timeline_are_refused() {
    let found = vec![Event::new(0, 0, 100), Event::new(0, 100, 100)];

    assert_eq!(
        realign(&found, &vec![Some(-5), Some(400)]),
        found,
        "a position outside its own event keeps the boundary"
    );
    assert_eq!(
        realign(&found, &vec![Some(0), Some(0)]),
        found,
        "a position on top of the boundary before it keeps the boundary"
    );
    assert_eq!(realign(&vec![], &vec![]), Vec::new());
}

#[test]
fn each_channel_is_realigned_on_its_own() {
    let found = vec![
        Event::new(0, 0, 100),
        Event::new(1, 0, 100),
        Event::new(0, 100, 100),
        Event::new(1, 100, 100),
    ];
    let starts = vec![Some(0), Some(0), Some(90), None];

    let moved = realign(&found, &starts);

    assert_eq!(moved[0], Event::new(0, 0, 90));
    assert_eq!(moved[2], Event::new(0, 90, 110));
    assert_eq!(moved[1], Event::new(1, 0, 100), "channel 1 is untouched");
    assert_eq!(moved[3], Event::new(1, 100, 100));
}

#[test]
fn a_second_pass_is_made_only_where_a_boundary_moved() {
    let found = vec![Event::new(0, 0, 100), Event::new(0, 100, 100)];

    assert!(second_pass(&found, &vec![Some(0), Some(100)], 80).is_none());
    assert!(second_pass(&found, &vec![Some(0), Some(90)], 0).is_none());
    assert_eq!(
        second_pass(&found, &vec![Some(0), Some(90)], 80),
        Some(vec![Event::new(0, 0, 90), Event::new(0, 90, 110)])
    );
}

#[test]
fn gains_are_exact_binary_rationals() {
    assert_eq!(Gain::default(), Gain::unit());
    assert_eq!(Gain::unit().numerator(), GAIN_SCALE);
    assert_eq!(
        Gain::from_numerator(GAIN_SCALE / 2).numerator(),
        GAIN_SCALE / 2
    );
    assert!(Gain::from_numerator(0).is_silent());
    assert!(!Gain::unit().is_silent());
    assert_eq!(
        Gain::from_numerator(GAIN_SCALE * 3).numerator(),
        3 * GAIN_SCALE,
        "gains above one are allowed"
    );
}

#[test]
fn a_sample_reports_its_shape() {
    let kick = sample(0, "kick", &[0.5, -0.25, 0.0]);

    assert_eq!(kick.len(), 3);
    assert!(!kick.is_empty());
    assert_eq!(kick.peak, number("0.5"));
    assert!(sample(1, "empty", &[]).is_empty());
}

#[test]
fn rendering_places_a_sample_at_every_position() {
    let source = source(16);
    let samples = vec![sample(0, "s", &[0.5, 0.25])];
    let placements = vec![
        Placement::new(0, 0, 0, Gain::unit()),
        Placement::new(0, 0, 8, Gain::from_numerator(GAIN_SCALE / 2)),
    ];

    let audio = render(&source, &samples, &placements);

    assert_eq!(audio.channel(0)[0], code(0.5));
    assert_eq!(audio.channel(0)[1], code(0.25));
    assert_eq!(audio.channel(0)[8], code(0.25));
    assert_eq!(audio.channel(0)[9], code(0.125));
    assert_eq!(audio.channel(0)[4], code(0.0));
}

#[test]
fn rendering_clips_placements_to_the_timeline() {
    let source = source(4);
    let samples = vec![sample(0, "s", &[0.5; 8])];
    let placements = vec![
        Placement::new(0, 0, -6, Gain::unit()),
        Placement::new(0, 0, 2, Gain::unit()),
        Placement::new(0, 3, 0, Gain::unit()),
        Placement::new(7, 0, 0, Gain::unit()),
        Placement::new(0, 0, 0, Gain::from_numerator(0)),
    ];

    let audio = render(&source, &samples, &placements);

    assert_eq!(audio.channel(0)[0], code(0.5), "tail of the early placement");
    assert_eq!(audio.channel(0)[1], code(0.5), "its last frame");
    assert_eq!(audio.channel(0)[2], code(0.5), "head of the later placement");
    assert_eq!(audio.channel(0)[3], code(0.5));
    assert_eq!(
        audio.channel_count(),
        1,
        "channel 3 and sample 7 were skipped"
    );
}

#[test]
fn rendering_rounds_halves_away_from_zero_and_clamps() {
    let source = source(2);
    let samples = vec![Sample::new(
        0,
        "s".to_string(),
        Audio::from_mono(8000, SampleFormat::PcmI16, vec![1, -1]).unwrap(),
        number("0"),
    )];
    let half = vec![Placement::new(0, 0, 0, Gain::from_numerator(GAIN_SCALE / 2))];
    assert_eq!(render(&source, &samples, &half).channel(0), &vec![1, -1]);

    let loud = vec![Placement::new(0, 0, 0, Gain::from_numerator(GAIN_SCALE * 40_000))];
    assert_eq!(
        render(&source, &samples, &loud).channel(0),
        &vec![32_767, -32_768]
    );
}

#[test]
fn a_decomposition_reconstructs_its_source_exactly() {
    let frames = 64;
    let source = source(frames);
    let waveform: Vec<f64> = (0..frames).map(|index| (index as f64 / 32_768.0).sin()).collect();
    let mut original = mono(&waveform);
    original.quantize();

    let samples = vec![sample(0, "whole", &waveform)];
    let placements = vec![Placement::new(0, 0, 0, Gain::unit())];
    let rendered = render(&source, &samples, &placements);
    let residual = original.difference(&rendered).unwrap();
    let decomposition = Decomposition {
        source,
        stems: vec![Stem::new("full".to_string(), original.copy())],
        samples,
        placements,
        notes: Vec::new(),
        residual,
        correction: None,
    };

    assert_eq!(decomposition.reconstruct().channels(), original.channels());
    assert_eq!(decomposition.stem_sum().channels(), original.channels());
    assert_eq!(decomposition.bank_frames(), (frames, frames));
    assert!(decomposition.sample(0).is_some());
    assert!(decomposition.sample(1).is_none());
    assert_eq!(decomposition.placements_of(0).len(), 1);
}

#[test]
fn the_residual_restores_what_a_bad_bank_misses() {
    let original = mono(&[0.9, -0.9, 0.3, 0.0]);
    let mut decomposition = Decomposition {
        source: source(4),
        stems: Vec::new(),
        samples: vec![sample(0, "wrong", &[-0.9, 0.9])],
        placements: vec![
            Placement::new(0, 0, 0, Gain::unit()),
            Placement::new(0, 0, -1, Gain::from_numerator(3 * GAIN_SCALE)),
        ],
        notes: Vec::new(),
        residual: original.copy(),
        correction: None,
    };

    close(&mut decomposition, &original).unwrap();

    assert_eq!(decomposition.reconstruct().channels(), original.channels());
}

#[test]
fn the_stems_sum_back_to_the_recording() {
    let original = mono(&[0.9, -0.9, 0.3, 0.0]);
    let harmonic = mono(&[0.5, -0.2, 0.1, 0.1]);
    let percussive = mono(&[0.1, -0.2, 0.1, 0.1]);
    let stems = split_stems(&original, harmonic, percussive).unwrap();

    let names: Vec<&str> = stems.iter().map(|stem| stem.name.as_str()).collect();
    assert_eq!(names, vec!["harmonic", "percussive", "correction"]);
    let decomposition = Decomposition {
        source: source(4),
        stems,
        samples: Vec::new(),
        placements: Vec::new(),
        notes: Vec::new(),
        residual: original.copy(),
        correction: None,
    };
    assert_eq!(decomposition.stem_sum().channels(), original.channels());
}

#[test]
fn derived_buffers_stay_on_the_grid_the_recording_came_from() {
    // Everything that is derived is a difference of 16-bit values, so it is 16-bit
    // data as long as it is no louder.
    let audio = mono(&[0.5, 0.25, 0.5, 0.25, 0.125, -0.5]);
    let stems = split_stems(
        &audio,
        mono(&[0.25, 0.125, 0.25, 0.125, 0.0, -0.25]),
        mono(&[0.125, 0.125, 0.25, 0.125, 0.0, -0.125]),
    )
    .unwrap();
    let mut samples = Vec::new();
    add_sample(&mut samples, mono(&[0.5, 0.25]), number("0.5"));
    let placements = vec![
        Placement::new(0, 0, 0, Gain::unit()),
        Placement::new(0, 0, 2, Gain::unit()),
    ];
    let mut decomposition = bring_together("song", &audio, stems, samples, placements);
    close(&mut decomposition, &audio).unwrap();

    assert_eq!(decomposition.residual.format(), SampleFormat::PcmI16);
    for stem in &decomposition.stems {
        assert_eq!(stem.audio.format(), SampleFormat::PcmI16, "{}", stem.name);
    }
    if let Some(correction) = &decomposition.correction {
        assert_eq!(correction.format(), SampleFormat::PcmI16);
    }

    // Narrower tags must never cost fidelity.
    assert_eq!(decomposition.reconstruct().channels(), audio.channels());
}

#[test]
fn what_is_left_past_full_scale_is_held_as_floats() {
    let original = mono(&[0.9, -0.9, 0.3, 0.0]);
    let stems = split_stems(
        &original,
        mono(&[-0.9, 0.2, 0.1, 0.1]),
        mono(&[-0.9, 0.2, 0.1, 0.1]),
    )
    .unwrap();
    assert_eq!(stems[0].audio.format(), SampleFormat::PcmI16);
    assert_eq!(stems[1].audio.format(), SampleFormat::PcmI16);
    assert_eq!(stems[2].audio.format(), SampleFormat::F32);
    let loud = 3.0 * code(0.9) as f32 / 32_768.0;
    assert_eq!(stems[2].audio.channels()[0][0], i64::from(loud.to_bits()));

    let mut decomposition = bring_together("song", &original, stems, vec![], vec![]);
    let rendered = mono(&[-0.9, 0.9, 0.0, 0.0]);
    close_over(&mut decomposition, &rendered, &original).unwrap();
    assert_eq!(decomposition.residual.format(), SampleFormat::F32);
    let loud = 2.0 * code(0.9) as f32 / 32_768.0;
    assert_eq!(decomposition.residual.channels()[0][0], i64::from(loud.to_bits()));
    assert_eq!(decomposition.reconstruct_from(&rendered), original);
    assert_eq!(decomposition.stem_sum(), original);
}

#[test]
fn parts_of_another_shape_split_nothing() {
    let original = mono(&[0.9, -0.9]);
    let error = split_stems(&original, mono(&[0.5]), mono(&[0.5, 0.5])).unwrap_err();
    assert!(matches!(error, Error::Mismatch(_)), "{error:?}");
}

#[test]
fn bank_samples_are_numbered_by_their_places() {
    let mut samples = Vec::new();
    for values in [[0.5, 0.25], [0.75, 0.5]] {
        add_sample(&mut samples, mono(&values), number("0.75"));
    }

    let ids: Vec<usize> = samples.iter().map(|sample| sample.id).collect();
    assert_eq!(ids, vec![0, 1]);
    assert_eq!(samples[0].name, "sample-0001");
    assert_eq!(samples[1].name, "sample-0002");
    assert_eq!(samples[1].waveform.channels(), mono(&[0.75, 0.5]).channels());
    assert_eq!(samples[1].peak, number("0.75"));
    assert_eq!(samples[1].note, None);
    assert_eq!(samples[1].frequency, None);
}

#[test]
fn what_was_taken_apart_is_whole() {
    let original = mono(&[0.5, 0.25, 0.5, 0.25, 0.125]);
    let mut pursuit = Pursuit::new();
    pursuit.take(bits(&[0.5, 0.25]), Event::new(0, 0, 2), &vec![]);
    pursuit.take(bits(&[0.5, 0.25]), Event::new(0, 2, 2), &vec![]);
    pursuit.skip();
    let mut samples = Vec::new();
    add_sample(&mut samples, mono(&[0.5, 0.25]), number("0.5"));
    let mut decomposition = bring_together(
        "song",
        &original,
        whole_stem(&original),
        samples,
        pursuit.placements().clone(),
    );
    assert_eq!(decomposition.source.name, "song");
    assert_eq!(decomposition.residual.channels(), original.channels());

    close(&mut decomposition, &original).unwrap();

    assert_eq!(decomposition.reconstruct().channels(), original.channels());
    assert_eq!(decomposition.stem_sum().channels(), original.channels());
    assert_eq!(decomposition.correction, None);
    assert_eq!(decomposition.residual.format(), SampleFormat::PcmI16);
    assert_eq!(
        decomposition.residual.channels(),
        mono(&[0.0, 0.0, 0.0, 0.0, 0.125]).channels()
    );
    assert_eq!(decomposition.placements.len(), 2);
    for placement in &decomposition.placements {
        let sample = decomposition.sample(placement.sample).unwrap();
        assert_eq!(sample.id, placement.sample);
    }
}

#[test]
fn a_bank_between_the_grid_points_still_restores_the_recording() {
    let original = mono(&[0.5, 0.25, 0.125]);
    let finer = Audio::from_mono(8000, SampleFormat::PcmI24, vec![0x40_0001, 0x20_0001]).unwrap();
    let mut samples = Vec::new();
    add_sample(&mut samples, finer, number("0.5"));
    let mut decomposition = bring_together(
        "song",
        &original,
        whole_stem(&original),
        samples,
        vec![Placement::new(0, 0, 0, Gain::unit())],
    );
    // Rendered and brought onto the grid of the recording.
    let rendered = mono(&[0.5, 0.25, 0.0]);

    close_over(&mut decomposition, &rendered, &original).unwrap();

    assert_eq!(
        decomposition.residual.channels(),
        mono(&[0.0, 0.0, 0.125]).channels()
    );
    assert_eq!(
        decomposition.reconstruct_from(&rendered).channels(),
        original.channels()
    );
}

#[test]
fn a_rendering_of_another_length_closes_nothing() {
    let original = mono(&[0.5, 0.25]);
    let mut decomposition = bring_together("song", &original, vec![], vec![], vec![]);
    let before = decomposition.clone();

    let error = close_over(&mut decomposition, &mono(&[0.5]), &original).unwrap_err();

    assert!(matches!(error, Error::Mismatch(_)), "{error:?}");
    assert_eq!(decomposition, before);
}

#[test]
fn a_recording_that_is_not_split_is_one_stem() {
    let original = mono(&[0.5, 0.25]);

    assert!(keeps_whole(&original, StemMode::Whole));
    assert!(!keeps_whole(&original, StemMode::HarmonicPercussive));
    assert!(keeps_whole(&mono(&[]), StemMode::HarmonicPercussive));
    let stems = whole_stem(&original);
    assert_eq!(stems.len(), 1);
    assert_eq!(stems[0].name, "full");
    assert_eq!(stems[0].audio.channels(), original.channels());
}

fn note(channel: usize, start: usize, pitch: u8) -> Note {
    Note {
        channel,
        start,
        length: 2000,
        note: pitch,
        velocity: 100,
        frequency: number("440"),
        confidence: number("0.9"),
    }
}

#[test]
fn notes_convert_frames_to_seconds() {
    let note = note(0, 4000, 69);

    assert_eq!(note.end(), 6000);
}

#[test]
fn notes_are_listed_by_start_channel_and_pitch() {
    let notes = vec![
        note(1, 10, 60),
        note(0, 20, 50),
        note(0, 10, 64),
        note(0, 10, 60),
    ];
    let sorted: Vec<(usize, usize, u8)> = in_order(&notes)
        .iter()
        .map(|note| (note.start, note.channel, note.note))
        .collect();

    assert_eq!(
        sorted,
        vec![(10, 0, 60), (10, 0, 64), (10, 1, 60), (20, 0, 50)]
    );
}

#[test]
fn a_note_ends_with_its_channel_and_is_long_enough() {
    assert_eq!(stretch(100, 300, 1000, 50), Some((100, 200)));
    assert_eq!(stretch(900, 1300, 1000, 50), Some((900, 100)));
    assert_eq!(stretch(100, 140, 1000, 50), None);
    assert_eq!(stretch(100, 100, 1000, 0), None);
    assert_eq!(labelled("sample-0001", 57), "sample-0001-A3");
}

#[test]
fn source_information_describes_a_buffer() {
    let audio = Audio::silence(48_000, SampleFormat::PcmI24, 2, 96_000);
    let info = SourceInfo::of("song", &audio);

    assert_eq!(info.channels, 2);
    assert_eq!(info.frames, 96_000);
    assert_eq!(info.silence().channels(), audio.channels());
    assert_eq!(info.silence().sample_rate(), 48_000);
}

#[test]
fn identical_waveforms_share_a_fingerprint() {
    let note = |length: usize, frequency: f64| -> Vec<u64> {
        (0..length)
            .map(|index| {
                let time = index as f64 / 8000.0;
                ((-6.0 * time).exp() * (std::f64::consts::TAU * frequency * time).sin()).to_bits()
            })
            .collect()
    };
    let first = note(256, 440.0);
    let second = note(256, 440.0);

    assert_eq!(fingerprint(&first), fingerprint(&second));
    assert_ne!(fingerprint(&first), fingerprint(&note(256, 441.0)));
    assert_ne!(fingerprint(&first), fingerprint(&first[..255]));
    assert_eq!(
        fingerprint(&bits(&[0.0, 1.0])),
        fingerprint(&bits(&[-0.0, 1.0])),
        "negative zero is the same sample"
    );
    assert_eq!(fingerprint(&[]), fingerprint(&[]));
    assert!(equal_waveforms(&bits(&[0.0, 1.0]), &bits(&[-0.0, 1.0])));
    assert!(!equal_waveforms(&bits(&[0.0]), &bits(&[0.0, 1.0])));
    assert_eq!(sample_at(&bits(&[0.5]), 0), 0.5_f64.to_bits());
    assert_eq!(sample_at(&bits(&[0.5]), -1), 0);
    assert_eq!(sample_at(&bits(&[0.5]), 1), 0);
}

#[test]
fn a_repeat_is_placed_and_a_new_waveform_is_stored() {
    let mut pursuit = Pursuit::new();
    let hit = bits(&[0.5, 0.25, 0.125]);
    let first = Event::new(0, 10, 3);

    assert_eq!(pursuit.reuse(&hit, first, &vec![]), None);
    let stored = pursuit.store(hit.clone(), first);
    assert_eq!(stored, Placement::new(0, 0, 10, Gain::unit()));

    let again = pursuit.reuse(&hit, Event::new(1, 50, 3), &vec![]).unwrap();
    assert_eq!(again, Placement::new(0, 1, 50, Gain::unit()));
    pursuit.place(again);
    pursuit.skip();

    assert_eq!(pursuit.len(), 1);
    assert_eq!(pursuit.waveform(0), &hit);
    assert_eq!(pursuit.placements(), &vec![stored, again]);
    assert_eq!(pursuit.starts(), &vec![Some(10), Some(50), None]);
}

#[test]
fn an_event_is_placed_or_stored_in_one_step() {
    let mut pursuit = Pursuit::new();
    let hit = bits(&[0.5, 0.25, 0.125]);
    let other = bits(&[0.75, 0.25]);
    let half = Gain::from_numerator(GAIN_SCALE / 2);

    let stored = pursuit.take(hit.clone(), Event::new(0, 10, 3), &vec![]);
    assert_eq!(stored, Placement::new(0, 0, 10, Gain::unit()));
    let again = pursuit.take(hit.clone(), Event::new(1, 50, 3), &vec![]);
    assert_eq!(again, Placement::new(0, 1, 50, Gain::unit()));
    let trial = Trial {
        sample: 0,
        start: 69,
        gain: half,
        remainder: 0.25_f64.to_bits(),
    };
    let close = pursuit.take(other.clone(), Event::new(0, 70, 2), &vec![trial]);
    assert_eq!(close, Placement::new(0, 0, 69, half));
    let new = pursuit.take(other.clone(), Event::new(0, 90, 2), &vec![]);
    assert_eq!(new, Placement::new(1, 0, 90, Gain::unit()));

    assert_eq!(pursuit.len(), 2);
    assert_eq!(pursuit.waveform(1), &other);
    assert_eq!(pursuit.placements(), &vec![stored, again, close, new]);
    assert_eq!(
        pursuit.starts(),
        &vec![Some(10), Some(50), Some(69), Some(90)]
    );
}

#[test]
fn the_trial_that_leaves_the_least_wins() {
    let pursuit = Pursuit::new();
    let trial = |sample: usize, remainder: f64| Trial {
        sample,
        start: sample as i64,
        gain: Gain::unit(),
        remainder: remainder.to_bits(),
    };
    let event = Event::new(0, 10, 3);
    let window = bits(&[0.5]);

    assert_eq!(pursuit.reuse(&window, event, &vec![]), None);
    assert_eq!(
        pursuit.reuse(
            &window,
            event,
            &vec![trial(3, 0.5), trial(1, 0.25), trial(2, 0.25)]
        ),
        Some(Placement::new(1, 0, 1, Gain::unit()))
    );
}

#[test]
fn candidates_are_the_closest_lengths_and_the_most_recent_first() {
    let mut pursuit = Pursuit::new();
    for length in [100, 400, 100, 50, 49, 200, 201, 0, 90] {
        pursuit.store(vec![1.0_f64.to_bits(); length], Event::new(0, 0, length));
    }

    assert_eq!(pursuit.candidates(100, 10), vec![2, 0, 8, 5, 3]);
    assert_eq!(pursuit.candidates(100, 2), vec![2, 0]);
    assert!(pursuit.candidates(100, 0).is_empty());
    assert!(pursuit.candidates(0, 10).is_empty());
}

#[test]
fn samples_are_numbered_from_one() {
    assert_eq!(sample_name(0), "sample-0001");
    assert_eq!(sample_name(41), "sample-0042");
    assert_eq!(sample_name(9_998), "sample-9999");
    assert_eq!(sample_name(9_999), "sample-10000");
}

#[test]
fn no_piece_is_longer_than_the_limits_allow() {
    // Ten frames in pieces of four at most: three pieces of four, the last of
    // which would be too short and is joined to the one before.
    assert_eq!(shape(&vec![], 10, 3, 4), vec![0, 4]);
    assert_eq!(shape(&vec![], 10, 2, 4), vec![0, 4, 8]);
    for length in 1..60 {
        for maximum in 1..12 {
            for minimum in 1..6 {
                let cuts = shape(&vec![(length / 3, length)], length, minimum, maximum);
                for event in events_from(0, &cuts, length) {
                    assert!(event.length < maximum + minimum, "{event:?}");
                }
            }
        }
    }
}
