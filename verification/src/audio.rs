//! Audio file decoding: WAV and AIFF containers parsed from bytes into
//! integer PCM samples, and the choice of container from a file extension.

pub mod error;
pub mod bytes;
pub mod pcm;
pub mod messages;
pub mod wav;
pub mod aiff;
pub mod format;
