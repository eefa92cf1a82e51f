//! Names, sizes and orders of the signal analysis.

use audio_decomposer::dsp::fft;
use audio_decomposer::dsp::hpss::{neighbourhood, odd_at_least_one, Spans};
use audio_decomposer::dsp::onset::{keep_apart, segments, Peak};
use audio_decomposer::dsp::pitch::{note_name, parse_note_name};
use audio_decomposer::dsp::polyphonic::{track, Run};
use audio_decomposer::dsp::stft::{fits, power_of_two, StftOptions};
use audio_decomposer::dsp::window::WindowKind;

#[test]
fn note_names_round_trip() {
    assert_eq!(note_name(69), "A4");
    assert_eq!(note_name(60), "C4");
    assert_eq!(note_name(61), "C#4");
    assert_eq!(note_name(0), "C-1");
    assert_eq!(note_name(200), "G9");
    for note in 0..128 {
        assert_eq!(parse_note_name(&note_name(note)), Some(note));
    }
    assert_eq!(parse_note_name("Db4"), Some(61));
    assert_eq!(parse_note_name(" a4 "), Some(69));
    assert_eq!(parse_note_name("H4"), None);
    assert_eq!(parse_note_name("C"), None);
    assert_eq!(parse_note_name("C99"), None);
}

#[test]
fn odd_note_names_are_read_as_they_stand() {
    assert_eq!(note_name(-7), "C-1");
    assert_eq!(parse_note_name(""), None);
    assert_eq!(parse_note_name("Cb4"), Some(59));
    assert_eq!(parse_note_name("b4"), Some(71));
    assert_eq!(parse_note_name("bb4"), Some(70));
    assert_eq!(parse_note_name("C# +4"), Some(61));
    assert_eq!(parse_note_name("C-2"), None);
    assert_eq!(parse_note_name("G#9"), None);
    assert_eq!(parse_note_name("C9999999999999999999"), None);
}

#[test]
fn window_names_round_trip() {
    for kind in [
        WindowKind::Rectangular,
        WindowKind::Hann,
        WindowKind::Hamming,
        WindowKind::Blackman,
    ] {
        assert_eq!(WindowKind::parse(kind.name()), Some(kind));
    }
    assert_eq!(WindowKind::parse(" HANNING "), Some(WindowKind::Hann));
    assert_eq!(WindowKind::parse("none"), Some(WindowKind::Rectangular));
    assert_eq!(WindowKind::parse("gaussian"), None);
    assert_eq!(WindowKind::default(), WindowKind::Hann);
}

#[test]
fn options_reject_impossible_combinations() {
    assert!(StftOptions {
        fft_size: 100,
        hop: 25,
        window: WindowKind::Hann
    }
    .validate(true)
    .is_err());
    assert!(StftOptions {
        fft_size: 64,
        hop: 0,
        window: WindowKind::Hann
    }
    .validate(true)
    .is_err());
    assert!(StftOptions {
        fft_size: 64,
        hop: 65,
        window: WindowKind::Hann
    }
    .validate(true)
    .is_err());
    assert!(StftOptions::with_size(1024).validate(true).is_ok());
    assert_eq!(StftOptions::default().bins(), 1025);
    assert_eq!(StftOptions::with_size(256).hop, 64);
}

#[test]
fn refused_options_say_why() {
    let options = StftOptions {
        fft_size: 100,
        hop: 25,
        window: WindowKind::Hann,
    };
    assert_eq!(
        options.validate(true).unwrap_err().to_string(),
        "invalid argument: FFT size 100 must be a positive power of two"
    );
    let options = StftOptions {
        fft_size: 64,
        hop: 65,
        window: WindowKind::Hann,
    };
    assert_eq!(
        options.validate(true).unwrap_err().to_string(),
        "invalid argument: hop 65 must be within 1..=64"
    );
    let options = StftOptions {
        fft_size: 64,
        hop: 64,
        window: WindowKind::Hann,
    };
    assert_eq!(
        options.validate(false).unwrap_err().to_string(),
        "invalid argument: window hann cannot be overlap-added at hop 64"
    );
    assert!(!power_of_two(0));
    assert!(power_of_two(1));
    assert!(power_of_two(1 << 20));
    assert!(!power_of_two((1 << 20) + 1));
}

#[test]
fn frames_cover_the_signal_and_its_padding() {
    let options = StftOptions {
        fft_size: 256,
        hop: 64,
        window: WindowKind::Hann,
    };
    // The way the analysis pads: one transform on either side, then on to a
    // whole number of hops.
    for length in [0usize, 1, 63, 64, 65, 1000] {
        let mut padded = length + 512;
        while (padded - 256) % 64 != 0 {
            padded += 1;
        }
        assert_eq!(options.frame_count(length), (padded - 256) / 64 + 1);
    }
    assert_eq!(options.frame_start(0), 0);
    assert_eq!(options.frame_start(4), 0);
    assert_eq!(options.frame_start(5), 64);
}

#[test]
fn a_mask_of_another_shape_is_refused() {
    assert!(fits(&vec![65, 65], &vec![65, 65]).is_ok());
    assert_eq!(
        fits(&vec![3], &vec![65, 65]).unwrap_err().to_string(),
        "mismatch: mask has 1 frames but the spectrogram has 2"
    );
    assert_eq!(
        fits(&vec![65, 3], &vec![65, 65]).unwrap_err().to_string(),
        "mismatch: mask frame has 3 bins but the spectrogram has 65"
    );
}

#[test]
fn spans_are_forced_odd() {
    let spans = Spans {
        harmonic: 8,
        percussive: 0,
    }
    .normalized();
    assert_eq!(spans.harmonic, 9);
    assert_eq!(spans.percussive, 1);
    assert_eq!(odd_at_least_one(17), 17);
    assert_eq!(neighbourhood(0, 17, 100), (0, 9));
    assert_eq!(neighbourhood(50, 17, 100), (42, 59));
    assert_eq!(neighbourhood(99, 17, 100), (91, 100));
}

#[test]
fn onsets_tile_the_signal_into_segments() {
    let onsets = vec![500, 1200];
    let ranges = segments(&onsets, 2000);

    assert_eq!(ranges, vec![(0, 500), (500, 1200), (1200, 2000)]);
    assert!(segments(&vec![], 0).is_empty());
    assert_eq!(segments(&onsets, 400), vec![(0, 400)]);
    assert_eq!(
        segments(&vec![7, 0, 3, 7, 10, 99], 10),
        vec![(0, 3), (3, 7), (7, 10)]
    );
}

#[test]
fn of_two_close_peaks_the_higher_one_stays() {
    let peak = |sample: usize, strength: u64| Peak {
        frame: sample / 10,
        sample,
        strength,
    };
    let kept = keep_apart(
        &vec![peak(100, 5), peak(110, 9), peak(115, 9), peak(200, 1)],
        50,
    );
    assert_eq!(kept, vec![peak(110, 9), peak(200, 1)]);
    assert!(keep_apart(&vec![], 50).is_empty());
}

#[test]
fn notes_are_joined_into_runs() {
    let run = |note: i32, start_frame: usize, end_frame: usize| Run {
        note,
        start_frame,
        end_frame,
    };
    let frames = vec![
        vec![60],
        vec![64, 60],
        vec![60, 64],
        vec![],
        vec![60, 67],
        vec![67],
        vec![67],
    ];
    assert_eq!(
        track(&frames, 1),
        vec![
            run(60, 0, 3),
            run(64, 1, 3),
            run(60, 4, 5),
            run(67, 4, 7)
        ]
    );
    assert_eq!(
        track(&frames, 2),
        vec![run(60, 0, 3), run(64, 1, 3), run(67, 4, 7)]
    );
    assert_eq!(track(&frames, 0), track(&frames, 1));
    assert!(track(&vec![], 1).is_empty());
}

#[test]
fn a_transform_takes_its_samples_in_mirrored_order() {
    assert_eq!(fft::order(0), vec![0]);
    assert_eq!(fft::order(3), vec![0, 4, 2, 6, 1, 5, 3, 7]);
    let order = fft::order(10);
    for (place, &sample) in order.iter().enumerate() {
        assert_eq!(order[sample], place);
        assert_eq!(sample, place.reverse_bits() >> (usize::BITS - 10));
    }
}
