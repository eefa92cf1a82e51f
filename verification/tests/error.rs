//! What errors say.

use audio_decomposer::error::Error;
use std::io;

#[test]
fn display_covers_every_variant() {
    let cases = [
        Error::Io(io::Error::new(io::ErrorKind::NotFound, "missing")),
        Error::Format("bad riff".into()),
        Error::Unsupported("adpcm".into()),
        Error::Parse("bad lino".into()),
        Error::Mismatch("rate".into()),
        Error::InvalidArgument("window".into()),
        Error::Storage("link 7 does not exist".into()),
    ];

    for case in &cases {
        assert!(!case.to_string().is_empty());
    }
}

#[test]
fn io_errors_expose_their_source() {
    let error = Error::from(io::Error::other("boom"));

    assert!(error.source().is_some());
    assert!(Error::Format("x".into()).source().is_none());
}

#[test]
fn every_error_says_what_kind_it_is() {
    assert_eq!(
        Error::from(io::Error::other("boom")).to_string(),
        "io error: boom"
    );
    assert_eq!(Error::Format("x".into()).to_string(), "invalid format: x");
    assert_eq!(Error::Unsupported("x".into()).to_string(), "unsupported: x");
    assert_eq!(Error::Parse("x".into()).to_string(), "parse error: x");
    assert_eq!(Error::Mismatch("x".into()).to_string(), "mismatch: x");
    assert_eq!(
        Error::InvalidArgument("x".into()).to_string(),
        "invalid argument: x"
    );
    assert_eq!(Error::Storage("x".into()).to_string(), "storage error: x");
}
