//! Monophonic melody transcription: raw little-endian PCM bytes are cut into
//! one-second frames, each frame is classified as silence or assigned the
//! frequency of its dominant spectral bin, frequencies are resolved to named
//! pitches of a fixed concert-tuning catalog, and consecutive frames with the
//! same pitch are merged into note events.
//!
//! Frequencies are carried in millihertz and times in milliseconds, so that
//! every comparison and every contract is exact integer arithmetic.

pub mod analysis;
pub mod notes;
pub mod seqdata;
pub mod tuning;
