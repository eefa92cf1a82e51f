//! The bit streams a FLAC file is made of.

use audio_decomposer::audio::flac::bits::{crc16, crc8, Reader, Writer};
use audio_decomposer::audio::flac::md5::{of_samples, Md5};

#[test]
fn bits_survive_a_round_trip() {
    let mut writer = Writer::new();
    writer.unsigned(0b101, 3);
    writer.signed(-3, 5);
    writer.unary(7);
    writer.unsigned(0xDEAD_BEEF, 32);
    writer.signed(i64::MIN, 64);
    let bytes = writer.finish();

    let mut reader = Reader::new(&bytes);
    assert_eq!(reader.unsigned(3).unwrap(), 0b101);
    assert_eq!(reader.signed(5).unwrap(), -3);
    assert_eq!(reader.unary().unwrap(), 7);
    assert_eq!(reader.unsigned(32).unwrap(), 0xDEAD_BEEF);
    assert_eq!(reader.signed(64).unwrap(), i64::MIN);
}

#[test]
fn frame_numbers_survive_the_whole_range() {
    for value in [
        0,
        1,
        0x7F,
        0x80,
        0x7FF,
        0x800,
        0xFFFF,
        0x10_0000,
        0xF_FFFF_FFFF,
    ] {
        let mut writer = Writer::new();
        writer.utf8_number(value);
        let bytes = writer.finish();
        let mut reader = Reader::new(&bytes);
        assert_eq!(reader.utf8_number().unwrap(), value, "at {value:#x}");
    }
}

#[test]
fn a_short_stream_is_reported_rather_than_panicking() {
    let mut reader = Reader::new(&[0x00]);
    assert!(reader.unsigned(9).is_err());
}

#[test]
fn a_reader_stays_where_it_failed() {
    let mut reader = Reader::new(&[0x00, 0x00]);
    assert!(reader.signed(17).is_err());
    assert_eq!(reader.position(), 0);
    assert!(reader.signed(40).is_err());
    assert_eq!(reader.position(), 8, "the high bits of a wide value were there");

    let mut reader = Reader::new(&[0x00, 0x00]);
    assert!(reader.unary().is_err());
    assert_eq!(reader.position(), 16);

    // A byte that continues nothing, a number cut short, and a malformed one.
    for (bytes, position) in [
        (vec![0x80], 8),
        (vec![0xC3], 8),
        (vec![0xE0, 0x80], 16),
        (vec![0xC3, 0x00], 16),
        (vec![], 0),
    ] {
        let mut reader = Reader::new(&bytes);
        assert!(reader.utf8_number().is_err(), "{bytes:?}");
        assert_eq!(reader.position(), position, "{bytes:?}");
    }
}

#[test]
fn the_crcs_match_the_values_the_specification_publishes() {
    // "123456789" is the standard check vector for both polynomials. FLAC
    // reflects neither, so the 16-bit value is BUYPASS's 0xFEE8 rather than
    // the 0xBB3D of the reflected ARC variant that shares the polynomial.
    assert_eq!(crc8(b"123456789"), 0xF4);
    assert_eq!(crc16(b"123456789"), 0xFEE8);
}

/// The digest of `bytes`, as hexadecimal.
fn hex(bytes: &[u8]) -> String {
    let mut hasher = Md5::new();
    hasher.update(bytes);
    render(&hasher.finish())
}

/// Sixteen bytes written out the way digests are usually quoted.
fn render(digest: &[u8; 16]) -> String {
    digest.iter().map(|byte| format!("{byte:02x}")).collect()
}

#[test]
fn the_digests_match_the_values_the_specification_publishes() {
    assert_eq!(hex(b""), "d41d8cd98f00b204e9800998ecf8427e");
    assert_eq!(hex(b"a"), "0cc175b9c0f1b6a831c399e269772661");
    assert_eq!(hex(b"abc"), "900150983cd24fb0d6963f7d28e17f72");
    assert_eq!(hex(b"message digest"), "f96b697d7cb7938d525a2f31aaf161d0");
    assert_eq!(
        hex(b"abcdefghijklmnopqrstuvwxyz"),
        "c3fcd3d76192e4007dfb496cca67e13b"
    );
    assert_eq!(
        hex(&b"1234567890".repeat(8)),
        "57edf4a22be3c955ac49da2e2107b67a"
    );
}

#[test]
fn input_is_hashed_the_same_however_it_is_split() {
    let whole = hex(&(0..=255u8).collect::<Vec<_>>());
    let mut hasher = Md5::new();
    for chunk in (0..=255u8).collect::<Vec<_>>().chunks(7) {
        hasher.update(chunk);
    }
    let split = render(&hasher.finish());
    assert_eq!(whole, split);
}

#[test]
fn samples_are_laid_out_interleaved_and_little_endian() {
    // Two channels of one frame, 16 bits: 0x0102 then -1.
    let codes = vec![vec![0x0102], vec![-1]];
    let mut expected = Md5::new();
    expected.update(&[0x02, 0x01, 0xFF, 0xFF]);
    assert_eq!(of_samples(&codes, 16), expected.finish());
}

#[test]
fn a_message_and_its_checksum_sum_to_zero() {
    for message in [b"".to_vec(), b"123456789".to_vec(), vec![0xFF; 40]] {
        let mut sealed = message.clone();
        sealed.extend(crc16(&message).to_be_bytes());
        assert_eq!(crc16(&sealed), 0, "{message:?}");
        let mut sealed = message.clone();
        sealed.push(crc8(&message));
        assert_eq!(crc8(&sealed), 0, "{message:?}");
    }
    let (first, second) = (b"audio", b"12345");
    let both: Vec<u8> = first.iter().zip(second).map(|(a, b)| a ^ b).collect();
    assert_eq!(crc16(&both), crc16(first) ^ crc16(second));
    assert_eq!(crc8(&both), crc8(first) ^ crc8(second));
}
