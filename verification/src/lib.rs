//! Bit-exact rebuilding of a standard Ogg Vorbis stream from the stripped
//! Vorbis data that Wwise stores in a RIFF container.
//!
//! The crate works on byte slices and returns byte vectors; reading and
//! writing files is left to the caller.

pub mod errors;
pub mod bit_stream;
pub mod model;
pub mod progress;
pub mod codebook;
pub mod setup;
pub mod container;
pub mod laws;
pub mod wwriff;
