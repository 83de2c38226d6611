//! Errors of audio file decoding.

use vstd::prelude::*;

verus! {

/// `std::io::Error`, carried opaquely by [`AudioIoError::Io`].
#[verifier::external_type_specification]
#[verifier::external_body]
pub struct ExIoError(std::io::Error);

/// Errors that can occur during audio file I/O.
pub enum AudioIoError {
    /// Underlying I/O error.
    Io(std::io::Error),
    /// File extension not recognised as a supported format (the path, as displayed).
    UnrecognisedFormat(String),
    /// File uses an encoding we don't support (e.g. compressed AIFF, non-PCM WAV).
    UnsupportedEncoding(String),
    /// File is structurally invalid (missing required chunks, truncated, etc.).
    MalformedFile(String),
    /// File was parsed successfully but contains no sample data.
    NoSamples,
}

} // verus!
