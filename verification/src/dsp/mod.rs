//! The exact half of the signal analysis: names, sizes, and what becomes of the
//! measurements.

pub mod fft;
pub mod hpss;
pub mod onset;
pub mod pitch;
pub mod polyphonic;
pub mod stft;
pub mod window;
