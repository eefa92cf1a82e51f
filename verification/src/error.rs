//! Error type shared by every stage of the decomposer.

use std::io;
use vstd::prelude::*;

verus! {

/// The operating system's error, carried through without being looked into.
#[verifier::external_type_specification]
#[verifier::external_body]
pub struct ExIoError(std::io::Error);

/// Everything that can go wrong while decoding, decomposing, exporting or
/// recomposing audio.
#[derive(Debug)]
#[non_exhaustive]
pub enum Error {
    /// An underlying I/O failure.
    Io(io::Error),
    /// A container or chunk layout that does not match its specification.
    Format(String),
    /// A well-formed input that this build cannot process yet.
    Unsupported(String),
    /// A textual document that failed to parse.
    Parse(String),
    /// Two operands that must agree on rate, channel count or length do not.
    Mismatch(String),
    /// A configuration value outside its accepted range.
    InvalidArgument(String),
    /// A link store refused an operation.
    Storage(String),
}

/// What an [`Error`] says: its kind and its message.
pub enum Fault {
    Io,
    Format(Seq<char>),
    Unsupported(Seq<char>),
    Parse(Seq<char>),
    Mismatch(Seq<char>),
    InvalidArgument(Seq<char>),
    Storage(Seq<char>),
}

impl View for Error {
    type V = Fault;

    open spec fn view(&self) -> Fault {
        match self {
            Error::Io(_) => Fault::Io,
            Error::Format(message) => Fault::Format(message@),
            Error::Unsupported(message) => Fault::Unsupported(message@),
            Error::Parse(message) => Fault::Parse(message@),
            Error::Mismatch(message) => Fault::Mismatch(message@),
            Error::InvalidArgument(message) => Fault::InvalidArgument(message@),
            Error::Storage(message) => Fault::Storage(message@),
        }
    }
}

/// `std::io::Error`'s text, as its `Display` writes it. What it says is the
/// operating system's and is not stated.
#[verifier::external_body]
fn io_text(error: &io::Error) -> (text: String) {
    error.to_string()
}

impl Fault {
    /// What a fault is introduced with.
    pub open spec fn heading(self) -> Seq<char> {
        match self {
            Fault::Io => "io error: "@,
            Fault::Format(_) => "invalid format: "@,
            Fault::Unsupported(_) => "unsupported: "@,
            Fault::Parse(_) => "parse error: "@,
            Fault::Mismatch(_) => "mismatch: "@,
            Fault::InvalidArgument(_) => "invalid argument: "@,
            Fault::Storage(_) => "storage error: "@,
        }
    }

    /// The message of a fault, where it is the library's own.
    pub open spec fn message(self) -> Option<Seq<char>> {
        match self {
            Fault::Io => None,
            Fault::Format(message) => Some(message),
            Fault::Unsupported(message) => Some(message),
            Fault::Parse(message) => Some(message),
            Fault::Mismatch(message) => Some(message),
            Fault::InvalidArgument(message) => Some(message),
            Fault::Storage(message) => Some(message),
        }
    }
}

/// A heading and what it introduces.
fn headed(heading: &str, message: &str) -> (text: String)
    ensures
        text@ == heading@ + message@,
{
    let mut text = heading.to_string();
    text.append(message);
    text
}

impl Error {
    /// What the error says.
    pub fn to_string(&self) -> (text: String)
        ensures
            match self@.message() {
                Some(message) => text@ == self@.heading() + message,
                None => exists|message: Seq<char>| text@ == self@.heading() + message,
            },
    {
        match self {
            Error::Io(error) => {
                let message = io_text(error);
                let text = headed("io error: ", message.as_str());
                assert(text@ == self@.heading() + message@);
                text
            },
            Error::Format(message) => headed("invalid format: ", message.as_str()),
            Error::Unsupported(message) => headed("unsupported: ", message.as_str()),
            Error::Parse(message) => headed("parse error: ", message.as_str()),
            Error::Mismatch(message) => headed("mismatch: ", message.as_str()),
            Error::InvalidArgument(message) => headed("invalid argument: ", message.as_str()),
            Error::Storage(message) => headed("storage error: ", message.as_str()),
        }
    }

    /// The operating system's error beneath this one, if there is one.
    pub fn source(&self) -> (source: Option<&io::Error>)
        ensures
            match source {
                Some(error) => *self == Error::Io(*error),
                None => !(self is Io),
            },
    {
        match self {
            Error::Io(error) => Some(error),
            _ => None,
        }
    }
}

impl From<io::Error> for Error {
    fn from(error: io::Error) -> (wrapped: Self) {
        Error::Io(error)
    }
}

impl vstd::std_specs::convert::FromSpecImpl<io::Error> for Error {
    open spec fn obeys_from_spec() -> bool {
        true
    }

    open spec fn from_spec(error: io::Error) -> Self {
        Error::Io(error)
    }
}

/// Builds an [`Error::Format`] from a message.
pub fn format_error(message: &str) -> (error: Error)
    ensures
        error@ == Fault::Format(message@),
{
    Error::Format(message.to_string())
}

/// The kinds of faults are told apart by what they are introduced with.
pub proof fn law_headings_tell_faults_apart(first: Fault, second: Fault)
    requires
        first.heading() == second.heading(),
    ensures
        first is Io == second is Io,
        first is Format == second is Format,
        first is Unsupported == second is Unsupported,
        first is Parse == second is Parse,
        first is Mismatch == second is Mismatch,
        first is InvalidArgument == second is InvalidArgument,
        first is Storage == second is Storage,
{
    reveal_strlit("io error: ");
    reveal_strlit("invalid format: ");
    reveal_strlit("unsupported: ");
    reveal_strlit("parse error: ");
    reveal_strlit("mismatch: ");
    reveal_strlit("invalid argument: ");
    reveal_strlit("storage error: ");
    assert("io error: "@[0] == 'i' && "io error: "@.len() == 10);
    assert("mismatch: "@[0] == 'm');
    assert("unsupported: "@[0] == 'u');
    assert("parse error: "@[0] == 'p');
    assert("storage error: "@[0] == 's');
    assert("invalid format: "@[0] == 'i' && "invalid format: "@.len() == 16);
    assert("invalid argument: "@[0] == 'i' && "invalid argument: "@.len() == 18);
}

} // verus!
