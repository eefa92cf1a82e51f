//! Audio buffers and their containers.

use audio_decomposer::audio::aiff::{decode_extended, encode_extended, parse_common, Common};
use audio_decomposer::audio::flac::encode::{subframe, Predictor};
use audio_decomposer::audio::wav::{
    parse_format, read_u16, read_u32, WaveFormat, FORMAT_EXTENSIBLE, FORMAT_IEEE_FLOAT, FORMAT_PCM,
};
use audio_decomposer::audio::{
    aiff, decode, decode_file, encode, encode_file, flac, wav, Audio, Container, SampleFormat,
};
use audio_decomposer::error::Error;

/// A sample of a 16-bit recording as a code.
fn code(value: f64) -> i64 {
    (value * 32_768.0).round() as i64
}

/// What a code of a format stands for.
fn value(format: SampleFormat, code: i64) -> f64 {
    match format {
        SampleFormat::F32 => f64::from(f32::from_bits(code as u32)),
        SampleFormat::F64 => f64::from_bits(code as u64),
        _ => code as f64 * quantum(format),
    }
}

/// The step of an integer format.
fn quantum(format: SampleFormat) -> f64 {
    2.0_f64.powi(-(i32::from(format.bits()) - 1))
}

#[test]
fn a_container_is_recognised_by_its_bytes_before_its_name() {
    assert_eq!(Container::of_bytes(b"RIFF....WAVE"), Some(Container::Wav));
    assert_eq!(Container::of_bytes(b"FORM....AIFF"), Some(Container::Aiff));
    assert_eq!(Container::of_bytes(b"OggS"), None);
    assert_eq!(Container::of_bytes(b"RIF"), None);
    assert_eq!(Container::of_path("song.AIF"), Some(Container::Aiff));
    assert_eq!(Container::of_path("song.flac"), None);
    assert_eq!(Container::parse(".Wav"), Some(Container::Wav));
}

#[test]
fn format_names_round_trip() {
    for format in SampleFormat::ALL {
        assert_eq!(SampleFormat::parse(format.name()).unwrap(), format);
        assert_eq!(format.bytes(), format.bits() as usize / 8);
    }
    assert!(SampleFormat::parse("mp3").is_err());
}

#[test]
fn something_that_is_not_a_flac_stream_is_refused() {
    let error = flac::decode(b"RIFF....WAVEfmt ").unwrap_err();
    assert!(matches!(error, Error::Format(_)), "{error:?}");
}

/// A ramp of small samples, on the grid of its format.
fn ramp(rate: u32, format: SampleFormat, channels: usize, frames: usize, offset: i64) -> Audio {
    let data = (0..channels)
        .map(|channel| {
            (0..frames)
                .map(|frame| {
                    let step = (frame * (channel + 1)) as i64 - offset;
                    match format {
                        SampleFormat::F32 => i64::from((step as f32 / 1024.0).to_bits()),
                        SampleFormat::F64 => (step as f64 / 1024.0).to_bits() as i64,
                        _ => step,
                    }
                })
                .collect()
        })
        .collect();
    Audio::from_channels(rate, format, data).unwrap()
}

#[test]
fn every_container_round_trips_through_the_dispatching_codecs() {
    let audio = Audio::from_channels(
        8_000,
        SampleFormat::PcmI16,
        vec![vec![code(0.5), code(-0.25), code(0.0), code(0.125)]],
    )
    .unwrap();
    for container in Container::ALL {
        let bytes = encode(&audio, container).unwrap();
        assert_eq!(Container::of_bytes(&bytes), Some(container));
        let read = decode(&bytes).unwrap();
        assert_eq!(read.channels(), audio.channels());
        assert_eq!(read.sample_rate(), audio.sample_rate());
    }
    assert!(decode(b"not audio at all").is_err());
}

#[test]
fn files_are_read_and_written_by_the_container_their_name_asks_for() {
    let audio =
        Audio::from_channels(8_000, SampleFormat::PcmI16, vec![vec![code(0.5), code(-0.5)]])
            .unwrap();
    for container in Container::ALL {
        let path = format!("/music/song.{}", container.extension());
        let bytes = encode_file(&audio, &path).unwrap();
        assert_eq!(decode_file(&bytes, &path).unwrap(), audio);
    }

    // An extension nobody writes is refused instead of guessed at.
    let error = encode_file(&audio, "song.flac").unwrap_err();
    assert_eq!(
        error.to_string(),
        "invalid argument: song.flac has no extension this build writes; expected .wav or .aiff"
    );

    // A file named wrongly is still read by what its bytes say.
    let misnamed = wav::encode(&audio).unwrap();
    assert_eq!(decode_file(&misnamed, "actually.aiff").unwrap(), audio);
    let error = decode_file(b"OggS", "song.ogg").unwrap_err();
    assert!(error.to_string().contains("song.ogg is not a container"));
}

#[test]
fn integer_quanta_are_powers_of_two() {
    for format in [
        SampleFormat::PcmU8,
        SampleFormat::PcmI16,
        SampleFormat::PcmI24,
        SampleFormat::PcmI32,
    ] {
        let (low, high) = format.code_range().unwrap();
        assert_eq!(value(format, low), -1.0);
        assert_eq!(value(format, high), 1.0 - quantum(format));
        assert!(format.code_range().is_some());
    }
    assert!(SampleFormat::F32.code_range().is_none());
    assert!(SampleFormat::F64.code_range().is_none());
}

#[test]
fn codes_round_trip_without_loss() {
    let format = SampleFormat::PcmI16;
    let samples: Vec<i64> = (-5..5).collect();
    let audio = Audio::from_mono(48_000, format, samples.clone()).unwrap();

    let codes = audio.codes().unwrap();
    assert_eq!(codes[0], (-5..5).collect::<Vec<i64>>());
    let restored = Audio::from_codes(48_000, format, codes).unwrap();

    assert_eq!(restored.channel(0), &samples);
}

#[test]
fn quantize_snaps_to_the_grid_and_clamps() {
    let format = SampleFormat::PcmI16;
    let mut audio =
        Audio::from_mono(8_000, format, vec![code(0.000_01), code(2.0), code(-2.0)]).unwrap();
    audio.quantize();

    assert_eq!(value(format, audio.channel(0)[0]), 0.0);
    assert_eq!(value(format, audio.channel(0)[1]), 32_767.0 / 32_768.0);
    assert_eq!(value(format, audio.channel(0)[2]), -1.0);
}

#[test]
fn sums_and_differences_agree_with_manual_math() {
    let format = SampleFormat::PcmI16;
    let a = Audio::from_channels(8_000, format, vec![vec![10, 20], vec![30, 40]]).unwrap();
    let b = Audio::from_channels(8_000, format, vec![vec![5, 5], vec![10, 10]]).unwrap();

    let difference = a.difference(&b).unwrap();
    assert_eq!(difference.channel(0), &vec![5, 15]);

    let mut sum = difference;
    sum.add_assign(&b).unwrap();
    assert_eq!(sum.channels(), a.channels());
}

#[test]
fn incompatible_buffers_are_rejected() {
    let a = Audio::silence(8_000, SampleFormat::PcmI16, 1, 4);
    let wrong_rate = Audio::silence(16_000, SampleFormat::PcmI16, 1, 4);
    let wrong_channels = Audio::silence(8_000, SampleFormat::PcmI16, 2, 4);
    let wrong_length = Audio::silence(8_000, SampleFormat::PcmI16, 1, 8);

    assert!(a.ensure_compatible(&wrong_rate).is_err());
    assert!(a.ensure_compatible(&wrong_channels).is_err());
    assert!(a.ensure_compatible(&wrong_length).is_err());
    assert!(a.ensure_compatible(&a).is_ok());
    assert_eq!(
        a.ensure_compatible(&wrong_rate).unwrap_err().to_string(),
        "mismatch: sample rate 8000 != 16000"
    );
}

#[test]
fn segment_zero_pads_past_the_end() {
    let audio = Audio::from_mono(8_000, SampleFormat::PcmI16, vec![1, 2, 3]).unwrap();
    let segment = audio.segment(2, 3);

    assert_eq!(segment.channel(0), &vec![3, 0, 0]);
    assert_eq!(segment.frames(), 3);
}

#[test]
fn construction_validates_its_inputs() {
    assert!(Audio::from_channels(0, SampleFormat::F32, vec![vec![0]]).is_err());
    assert!(Audio::from_channels(8_000, SampleFormat::F32, vec![]).is_err());
    assert!(Audio::from_channels(8_000, SampleFormat::F32, vec![vec![0], vec![0, 1]]).is_err());
    assert!(Audio::from_codes(8_000, SampleFormat::F32, vec![vec![1]]).is_err());
}

#[test]
fn exactness_in_a_format_is_reported_honestly() {
    let grid =
        Audio::from_mono(8_000, SampleFormat::PcmI16, vec![code(0.5), code(-0.25)]).unwrap();
    assert!(grid.is_exact_in_format());

    let clipping = Audio::from_mono(8_000, SampleFormat::PcmI16, vec![code(2.0)]).unwrap();
    assert!(!clipping.is_exact_in_format());
}

#[test]
fn the_narrowest_exact_format_is_preferred_over_reaching_for_double() {
    // Between two 16-bit grid points, but exactly on a 24-bit one: the double
    // would be four times the bytes for no extra fidelity.
    let finer = Audio::from_mono(8_000, SampleFormat::PcmI24, vec![1]).unwrap();
    assert!(!finer.is_exact_in(SampleFormat::PcmI16));
    assert_eq!(
        finer.narrowest_exact_format(SampleFormat::PcmI16),
        SampleFormat::PcmI24
    );
}

#[test]
fn a_value_past_full_scale_leaves_every_integer_grid() {
    // Integer quanta are tied to full scale, so widening never brings a sample
    // louder than full scale back onto the grid: only a float format can hold
    // it, and single precision is enough for a value this simple.
    let loud = Audio::from_mono(8_000, SampleFormat::PcmI16, vec![code(1.5)]).unwrap();
    assert_eq!(
        loud.narrowest_exact_format(SampleFormat::PcmU8),
        SampleFormat::F32
    );

    let awkward = Audio::from_mono(8_000, SampleFormat::PcmI32, vec![0x1_0000_0001]).unwrap();
    assert_eq!(
        awkward.narrowest_exact_format(SampleFormat::PcmU8),
        SampleFormat::F64
    );
}

#[test]
fn the_floor_keeps_a_derived_buffer_on_the_grid_it_came_from() {
    // Silence fits in 8 bits, but a correction for a 16-bit recording that
    // claimed to be 8-bit would quantize anything later mixed into it.
    let silence = Audio::silence(8_000, SampleFormat::PcmI16, 1, 8);
    assert_eq!(
        silence.narrowest_exact_format(SampleFormat::PcmU8),
        SampleFormat::PcmU8
    );
    assert_eq!(
        silence.narrowest_exact_format(SampleFormat::PcmI16),
        SampleFormat::PcmI16
    );
}

#[test]
fn a_buffer_keeps_its_samples_on_another_grid() {
    let mut audio = Audio::from_mono(8_000, SampleFormat::PcmI16, vec![256, -512, 0]).unwrap();
    audio.set_format(SampleFormat::PcmI24);
    assert_eq!(audio.channel(0), &vec![65_536, -131_072, 0]);
    assert_eq!(audio.format(), SampleFormat::PcmI24);
    audio.set_format(SampleFormat::PcmU8);
    assert_eq!(audio.channel(0), &vec![1, -2, 0]);
}

#[test]
fn every_format_round_trips_through_memory() {
    for format in SampleFormat::ALL {
        let audio = ramp(44_100, format, 2, 17, 8);
        let encoded = wav::encode(&audio).unwrap();
        let decoded = wav::decode(&encoded).unwrap();

        assert_eq!(decoded.format(), format, "format {format:?}");
        assert_eq!(decoded.sample_rate(), 44_100);
        assert_eq!(decoded.channels(), audio.channels(), "samples {format:?}");
        assert_eq!(wav::encode(&decoded).unwrap(), encoded, "bytes {format:?}");
    }
}

#[test]
fn header_matches_the_canonical_layout() {
    let audio = ramp(44_100, SampleFormat::PcmI16, 2, 4, 8);
    let bytes = wav::encode(&audio).unwrap();

    assert_eq!(&bytes[0..4], b"RIFF");
    assert_eq!(&bytes[8..12], b"WAVE");
    assert_eq!(&bytes[12..16], b"fmt ");
    assert_eq!(read_u32(&bytes, 16).unwrap(), 16);
    assert_eq!(read_u16(&bytes, 20).unwrap(), FORMAT_PCM);
    assert_eq!(read_u16(&bytes, 22).unwrap(), 2);
    assert_eq!(read_u32(&bytes, 24).unwrap(), 44_100);
    assert_eq!(read_u32(&bytes, 28).unwrap(), 44_100 * 4);
    assert_eq!(read_u16(&bytes, 32).unwrap(), 4);
    assert_eq!(read_u16(&bytes, 34).unwrap(), 16);
    assert_eq!(&bytes[36..40], b"data");
    assert_eq!(read_u32(&bytes, 40).unwrap() as usize, 4 * 4);
    assert_eq!(bytes.len(), 44 + 16);
    assert_eq!(read_u32(&bytes, 4).unwrap() as usize, bytes.len() - 8);
}

#[test]
fn float_files_carry_a_fact_chunk() {
    let bytes = wav::encode(&ramp(44_100, SampleFormat::F32, 1, 3, 8)).unwrap();

    assert_eq!(read_u16(&bytes, 20).unwrap(), FORMAT_IEEE_FLOAT);
    assert_eq!(read_u32(&bytes, 16).unwrap(), 18);
    assert_eq!(&bytes[38..42], b"fact");
    assert_eq!(read_u32(&bytes, 46).unwrap(), 3);
}

#[test]
fn unknown_chunks_and_pad_bytes_are_skipped() {
    let audio = ramp(44_100, SampleFormat::PcmU8, 1, 3, 8);
    let canonical = wav::encode(&audio).unwrap();

    // Rebuild the file with an odd-sized LIST chunk in front of `data`.
    let mut patched = Vec::new();
    patched.extend_from_slice(&canonical[0..36]);
    patched.extend_from_slice(b"LIST");
    patched.extend_from_slice(&3u32.to_le_bytes());
    patched.extend_from_slice(b"abc\0");
    patched.extend_from_slice(&canonical[36..]);
    let size = (patched.len() - 8) as u32;
    patched[4..8].copy_from_slice(&size.to_le_bytes());

    let decoded = wav::decode(&patched).unwrap();
    assert_eq!(decoded.channels(), audio.channels());
}

#[test]
fn extensible_headers_resolve_to_their_sub_format() {
    let mut body = vec![0u8; 40];
    body[0..2].copy_from_slice(&FORMAT_EXTENSIBLE.to_le_bytes());
    body[2..4].copy_from_slice(&1u16.to_le_bytes());
    body[4..8].copy_from_slice(&8_000u32.to_le_bytes());
    body[14..16].copy_from_slice(&16u16.to_le_bytes());
    body[24..26].copy_from_slice(&FORMAT_PCM.to_le_bytes());

    let format = parse_format(&body).unwrap();
    assert_eq!(format.tag, FORMAT_PCM);

    let audio = wav::decode_samples(&format, &[0x00, 0x40, 0x00, 0xC0]).unwrap();
    assert_eq!(audio.format(), SampleFormat::PcmI16);
    assert_eq!(audio.channel(0), &vec![code(0.5), code(-0.5)]);
}

#[test]
fn wav_malformed_files_are_rejected() {
    assert!(wav::decode(b"not a wav at all").is_err());

    let audio = ramp(44_100, SampleFormat::PcmI16, 1, 2, 8);
    let canonical = wav::encode(&audio).unwrap();

    let mut without_fmt = canonical.clone();
    without_fmt[12..16].copy_from_slice(b"junk");
    assert!(wav::decode(&without_fmt).is_err());

    let mut without_data = canonical.clone();
    without_data[36..40].copy_from_slice(b"junk");
    assert!(wav::decode(&without_data).is_err());

    let mut oversized = canonical;
    oversized[40..44].copy_from_slice(&9_999u32.to_le_bytes());
    assert!(wav::decode(&oversized).is_err());

    let mut short_fmt = vec![0u8; 8];
    short_fmt[0..2].copy_from_slice(&FORMAT_PCM.to_le_bytes());
    assert!(parse_format(&short_fmt).is_err());
}

#[test]
fn unsupported_encodings_report_their_tag() {
    let format = WaveFormat {
        tag: 0x0011,
        channels: 1,
        sample_rate: 8_000,
        bits: 4,
    };
    let error = wav::decode_samples(&format, &[0; 4]).unwrap_err();

    assert!(matches!(error, Error::Unsupported(_)));
    assert!(error.to_string().contains("17"));
}

#[test]
fn integer_formats_round_trip() {
    for format in [
        SampleFormat::PcmU8,
        SampleFormat::PcmI16,
        SampleFormat::PcmI24,
        SampleFormat::PcmI32,
    ] {
        let audio = ramp(48_000, format, 2, 11, 4);
        let encoded = aiff::encode(&audio).unwrap();
        let decoded = aiff::decode(&encoded).unwrap();

        assert_eq!(decoded.format(), format);
        assert_eq!(decoded.sample_rate(), 48_000);
        assert_eq!(decoded.channels(), audio.channels(), "{format:?}");
        assert_eq!(aiff::encode(&decoded).unwrap(), encoded);
    }
}

#[test]
fn header_matches_the_specification() {
    let bytes = aiff::encode(&ramp(48_000, SampleFormat::PcmI16, 1, 5, 4)).unwrap();

    assert_eq!(&bytes[0..4], b"FORM");
    assert_eq!(aiff::read_u32(&bytes, 4).unwrap() as usize, bytes.len() - 8);
    assert_eq!(&bytes[8..12], b"AIFF");
    assert_eq!(&bytes[12..16], b"COMM");
    assert_eq!(aiff::read_u32(&bytes, 16).unwrap(), 18);
    assert_eq!(aiff::read_u16(&bytes, 20).unwrap(), 1);
    assert_eq!(aiff::read_u32(&bytes, 22).unwrap(), 5);
    assert_eq!(aiff::read_u16(&bytes, 26).unwrap(), 16);
    assert_eq!(&bytes[38..42], b"SSND");
}

#[test]
fn extended_floats_survive_the_common_sample_rates() {
    for rate in [8_000, 22_050, 44_100, 48_000, 96_000, 192_000] {
        let encoded = encode_extended(i64::from(rate));
        assert_eq!(decode_extended(&encoded).unwrap(), rate);
    }
    assert!(decode_extended(&[0; 10]).is_err());
    assert!(decode_extended(&[0; 4]).is_err());
    assert_eq!(encode_extended(-1), vec![0; 10]);
}

#[test]
fn aiff_float_export_is_refused_with_a_pointer_to_wav() {
    let audio = Audio::silence(44_100, SampleFormat::F32, 1, 4);
    let error = aiff::encode(&audio).unwrap_err();

    assert!(matches!(error, Error::Unsupported(_)));
    assert!(error.to_string().contains("WAV"));
}

#[test]
fn aiff_malformed_files_are_rejected() {
    assert!(aiff::decode(b"not an aiff").is_err());

    let whole = aiff::encode(&ramp(48_000, SampleFormat::PcmI16, 1, 2, 4)).unwrap();

    let mut wrong_kind = whole.clone();
    wrong_kind[8..12].copy_from_slice(b"AIFX");
    assert!(aiff::decode(&wrong_kind).is_err());

    let mut missing_common = whole.clone();
    missing_common[12..16].copy_from_slice(b"JUNK");
    assert!(aiff::decode(&missing_common).is_err());

    let mut missing_sound = whole;
    missing_sound[38..42].copy_from_slice(b"JUNK");
    assert!(aiff::decode(&missing_sound).is_err());
}

#[test]
fn compressed_aifc_and_odd_depths_are_reported() {
    let mut body = vec![0u8; 22];
    body[0..2].copy_from_slice(&1u16.to_be_bytes());
    body[6..8].copy_from_slice(&16u16.to_be_bytes());
    body[8..18].copy_from_slice(&encode_extended(44_100));
    body[18..22].copy_from_slice(b"ima4");
    let error = parse_common(&body).unwrap_err();
    assert!(matches!(error, Error::Unsupported(_)));
    assert!(error.to_string().contains("ima4"), "{}", error.to_string());

    body[18..22].copy_from_slice(b"NONE");
    let common = parse_common(&body).unwrap();
    assert_eq!(common.sample_rate, 44_100);

    let odd = Common {
        channels: 1,
        frames: 1,
        bits: 12,
        sample_rate: 44_100,
    };
    assert!(matches!(
        aiff::decode_samples(&odd, &[0; 4]).unwrap_err(),
        Error::Unsupported(_)
    ));
}

/// A short buffer with something for every predictor to bite on.
fn fixture(format: SampleFormat, channels: usize, frames: usize) -> Audio {
    let (low, high) = format.code_range().unwrap();
    let planes = (0..channels)
        .map(|channel| {
            (0..frames)
                .map(|frame| {
                    let phase = frame as f64 / 32.0 + channel as f64;
                    let code = (phase.sin() * (high as f64 * 0.4)) as i64
                        + (frame as i64 % 7) * (1 + channel as i64);
                    code.clamp(low, high)
                })
                .collect()
        })
        .collect();
    Audio::from_channels(44_100, format, planes).unwrap()
}

/// Two predictors that were fitted to nothing in particular.
fn guesses(_: &Vec<i64>) -> Vec<Predictor> {
    vec![
        Predictor::Fitted {
            coefficients: vec![8_000, -4_000],
            shift: 12,
        },
        Predictor::Fitted {
            coefficients: vec![1],
            shift: 0,
        },
    ]
}

fn flac_encode(audio: &Audio) -> Result<Vec<u8>, Error> {
    flac::encode(audio, &|_: &Vec<i64>| Vec::new())
}

#[test]
fn a_stream_reads_back_as_the_audio_it_was_written_from() {
    for format in [
        SampleFormat::PcmU8,
        SampleFormat::PcmI16,
        SampleFormat::PcmI24,
        SampleFormat::PcmI32,
    ] {
        for channels in [1, 2, 3] {
            let audio = fixture(format, channels, 3_000);
            let encoded = flac_encode(&audio).unwrap();
            let decoded = flac::decode(&encoded).unwrap();
            assert_eq!(decoded.format(), format);
            assert_eq!(decoded.sample_rate(), audio.sample_rate());
            assert_eq!(
                decoded.channels(),
                audio.channels(),
                "{} channels of {}",
                channels,
                format.name()
            );
        }
    }
}

#[test]
fn predictors_change_the_bytes_and_never_the_audio() {
    for format in [SampleFormat::PcmI16, SampleFormat::PcmI24] {
        let audio = fixture(format, 2, 5_000);
        let encoded = flac::encode(&audio, &guesses).unwrap();
        assert_eq!(flac::decode(&encoded).unwrap().channels(), audio.channels());
    }
}

#[test]
fn compression_actually_makes_the_file_smaller() {
    // A predictable waveform is what the fixed predictors exist for. If a sine
    // costs as much as raw PCM, the encoder is not encoding anything.
    let audio = fixture(SampleFormat::PcmI16, 2, 20_000);
    let raw = audio.frames() * audio.channel_count() * 2;
    let encoded = flac_encode(&audio).unwrap();
    assert!(
        encoded.len() < raw / 2,
        "{} bytes for {raw} bytes of PCM",
        encoded.len()
    );
}

#[test]
fn silence_costs_almost_nothing() {
    let audio = Audio::silence(44_100, SampleFormat::PcmI16, 2, 100_000);
    let encoded = flac_encode(&audio).unwrap();
    assert!(encoded.len() < 2_000, "{} bytes of silence", encoded.len());
    assert_eq!(flac::decode(&encoded).unwrap().channels(), audio.channels());
}

#[test]
fn a_single_frame_and_an_odd_length_survive() {
    for frames in [1, 2, 17, 4_095, 4_096, 4_097] {
        let audio = fixture(SampleFormat::PcmI16, 2, frames);
        let decoded = flac::decode(&flac_encode(&audio).unwrap()).unwrap();
        assert_eq!(decoded.channels(), audio.channels(), "{frames} frames");
    }
}

#[test]
fn the_digest_is_written_and_checked() {
    let audio = fixture(SampleFormat::PcmI16, 2, 1_000);
    let mut encoded = flac_encode(&audio).unwrap();
    assert_ne!(&encoded[26..42], &[0u8; 16], "digest was left unset");

    // Corrupt a sample without touching the CRCs that guard the frame: the
    // digest is the only thing that can still notice.
    let digest_start = 26;
    encoded[digest_start] ^= 0xFF;
    let error = flac::decode(&encoded).unwrap_err();
    assert!(
        matches!(error, Error::Format(ref message) if message.contains("MD5")),
        "{error:?}"
    );
}

#[test]
fn mod_float_export_is_refused_with_a_pointer_to_wav() {
    let audio = Audio::silence(44_100, SampleFormat::F32, 1, 8);
    let error = flac_encode(&audio).unwrap_err();
    assert!(matches!(error, Error::Unsupported(_)), "{error:?}");
    assert!(error.to_string().contains("WAV"), "{error:?}");
}

#[test]
fn a_truncated_stream_is_reported_rather_than_panicking() {
    let audio = fixture(SampleFormat::PcmI16, 1, 5_000);
    let encoded = flac_encode(&audio).unwrap();
    for cut in [4, 20, 45, 100, encoded.len() - 1] {
        assert!(flac::decode(&encoded[..cut]).is_err(), "cut at {cut}");
    }
}

#[test]
fn corruption_is_caught_by_the_frame_checks() {
    let audio = fixture(SampleFormat::PcmI16, 1, 2_000);
    let mut encoded = flac_encode(&audio).unwrap();
    let last = encoded.len() - 8;
    encoded[last] ^= 0x01;
    assert!(flac::decode(&encoded).is_err());
}

#[test]
fn a_stream_without_a_digest_is_taken_at_its_word() {
    let audio = fixture(SampleFormat::PcmI16, 1, 100);
    let mut encoded = flac_encode(&audio).unwrap();
    encoded[26..42].fill(0);
    assert_eq!(flac::decode(&encoded).unwrap().channels(), audio.channels());
}

#[test]
fn a_frame_header_with_another_checksum_is_refused() {
    // Six bytes of header follow the opening of the stream: the sync code and
    // the codes, the frame number, and the block size of a short block.
    let audio = fixture(SampleFormat::PcmI16, 1, 100);
    let encoded = flac_encode(&audio).unwrap();
    let expected = encoded[48];
    for other in [0x00, 0x01, 0x80, 0xFF] {
        if other == expected {
            continue;
        }
        let mut damaged = encoded.clone();
        damaged[48] = other;
        let message = format!(
            "FLAC frame header fails its CRC-8 check: expected 0x{expected:02x}, found 0x{other:02x}"
        );
        match flac::decode(&damaged).unwrap_err() {
            Error::Format(text) => assert_eq!(text.to_lowercase(), message.to_lowercase()),
            error => panic!("{error:?}"),
        }
    }
}

#[test]
fn a_subframe_is_never_larger_than_its_samples() {
    let held = subframe(&vec![5; 100], 16, &vec![]);
    assert_eq!(held.len(), 8 + 16);

    // Full-scale noise cannot be predicted, and is stored as it is.
    let noise: Vec<i64> = (0..64_i64)
        .map(|index| (index * 0x9E37_79B9 + 0x7F4A) % 0x1_0000 - 0x8000)
        .collect();
    assert!(subframe(&noise, 16, &vec![]).len() <= 8 + 16 * 64);
    let loud: Vec<i64> = (0..16_i64).map(|index| (index % 2) * 0xFFFF - 0x8000).collect();
    assert!(subframe(&loud, 16, &vec![]).len() <= 8 + 16 * 16);
}

#[test]
fn residuals_are_coded_with_the_cheapest_parameter() {
    // The folded samples are 6, 5, 6 and 5. Two low bits each cost sixteen bits
    // in all, and so do three: the smaller parameter is taken.
    let coded = subframe(&vec![3, -3, 3, -3], 16, &vec![]);
    assert_eq!(coded.len(), 34);
    assert_eq!(coded.finish(), vec![0x10, 0x00, 0x99, 0x59, 0x40]);
}

#[test]
fn stereo_comes_back_however_it_is_laid_out() {
    // One pair for each way of laying two channels out: alike, left quiet, right
    // quiet, and both loud and close.
    let wave = |index: i64, scale: i64| (index * 37 % 101 - 50) * scale;
    let planes: Vec<(Vec<i64>, Vec<i64>)> = vec![
        (
            (0..200).map(|i| wave(i, 300)).collect(),
            (0..200).map(|i| wave(i, 300) + i % 3).collect(),
        ),
        (
            (0..200).map(|i| i % 2).collect(),
            (0..200).map(|i| wave(i, 600)).collect(),
        ),
        (
            (0..200).map(|i| wave(i, 600)).collect(),
            (0..200).map(|i| i % 2).collect(),
        ),
        (
            (0..200).map(|i| wave(i, 600)).collect(),
            (0..200).map(|i| -wave(i, 600) - i % 2).collect(),
        ),
    ];
    for (left, right) in planes {
        let audio =
            Audio::from_channels(44_100, SampleFormat::PcmI16, vec![left, right]).unwrap();
        let decoded = flac::decode(&flac_encode(&audio).unwrap()).unwrap();
        assert_eq!(decoded.channels(), audio.channels());
    }
}

#[test]
fn code_ranges_span_the_bits_of_their_format() {
    for format in SampleFormat::ALL {
        match format.code_range() {
            Some((low, high)) => {
                let half = 1_i64 << (u32::from(format.bits()) - 1);
                assert_eq!((low, high), (-half, half - 1));
            }
            None => assert!(format.is_float()),
        }
    }
}

#[test]
fn case_dots_and_blanks_do_not_matter_to_a_container_name() {
    for name in ["wav", "wave", "riff", "aif", "aiff", "aifc", "flac", "", "w av"] {
        let expected = Container::parse(name);
        assert_eq!(Container::parse(&name.to_ascii_uppercase()), expected, "{name}");
        assert_eq!(Container::parse(&format!(" .{name} ")), expected, "{name}");
        assert_eq!(Container::parse(&format!("\t{name}\n")), expected, "{name}");
    }
}
