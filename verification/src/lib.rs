//! Taking recordings apart into the pieces they are made of, and putting them
//! back together without losing a single sample.
//!
//! The library holds the exact half of the tool: the audio containers on their
//! integer grid, the associative network a decomposition is written in, the
//! manifest and its text form, and the rules that cut, align and reassemble a
//! timeline.

pub mod archive;
pub mod associative;
pub mod audio;
pub mod cli;
pub mod decompose;
pub mod dsp;
pub mod error;
pub mod number;
pub mod path;
pub mod report;
pub mod text;
