//! Choice of container from a file extension, and decoding by container.

use vstd::prelude::*;
use vstd::string::StringSliceAdditionalSpecFns;
use crate::audio::aiff::{aiff_outcome, parse_aiff};
use crate::audio::error::AudioIoError;
use crate::audio::pcm::{PcmAudio, ParseOutcome, outcome_matches};
use crate::audio::wav::{wav_outcome, parse_wav};

verus! {

/// A supported audio container.
#[derive(Clone, Copy, Debug, PartialEq, Eq)]
pub enum AudioFormat {
    Aiff,
    Wav,
}

/// ASCII upper-case letters mapped to lower case; other bytes unchanged.
pub open spec fn ascii_lower(b: u8) -> u8 {
    if 65 <= b <= 90 {
        (b + 32) as u8
    } else {
        b
    }
}

/// `s`, with ASCII letters folded to lower case, equals `t`.
pub open spec fn lower_eq(s: Seq<u8>, t: Seq<u8>) -> bool {
    &&& s.len() == t.len()
    &&& forall|i: int| 0 <= i < s.len() ==> ascii_lower(#[trigger] s[i]) == t[i]
}

/// The container an extension names, ignoring ASCII case: `aiff` and `aif`
/// for AIFF, `wav` for WAV.
pub open spec fn extension_format(ext: Seq<u8>) -> Option<AudioFormat> {
    if lower_eq(ext, seq![0x61u8, 0x69, 0x66, 0x66]) || lower_eq(ext, seq![0x61u8, 0x69, 0x66]) {
        Some(AudioFormat::Aiff)
    } else if lower_eq(ext, seq![0x77u8, 0x61, 0x76]) {
        Some(AudioFormat::Wav)
    } else {
        None
    }
}

fn lower_matches(s: &[u8], t: &[u8]) -> (r: bool)
    ensures
        r == lower_eq(s@, t@),
{
    if s.len() != t.len() {
        return false;
    }
    let mut i: usize = 0;
    while i < s.len()
        invariant
            s@.len() == t@.len(),
            i <= s@.len(),
            forall|j: int| 0 <= j < i ==> ascii_lower(#[trigger] s@[j]) == t@[j],
        decreases s.len() - i,
    {
        let b = s[i];
        let lower = if 65 <= b && b <= 90 {
            b + 32
        } else {
            b
        };
        if lower != t[i] {
            return false;
        }
        i = i + 1;
    }
    true
}

/// The container named by a file extension (`None` when the path has none,
/// or none that is UTF-8).
pub fn format_for_extension(ext: Option<&str>) -> (r: Option<AudioFormat>)
    ensures
        r == (match ext {
            Some(e) => extension_format(e.spec_bytes()),
            None => None,
        }),
{
    match ext {
        None => None,
        Some(e) => {
            let b = e.as_bytes();
            let aiff: [u8; 4] = [0x61, 0x69, 0x66, 0x66];
            let aif: [u8; 3] = [0x61, 0x69, 0x66];
            let wav: [u8; 3] = [0x77, 0x61, 0x76];
            assert(aiff@ =~= seq![0x61u8, 0x69, 0x66, 0x66]);
            assert(aif@ =~= seq![0x61u8, 0x69, 0x66]);
            assert(wav@ =~= seq![0x77u8, 0x61, 0x76]);
            if lower_matches(b, aiff.as_slice()) || lower_matches(b, aif.as_slice()) {
                Some(AudioFormat::Aiff)
            } else if lower_matches(b, wav.as_slice()) {
                Some(AudioFormat::Wav)
            } else {
                None
            }
        },
    }
}

/// What decoding the bytes of a file in `format` yields.
pub open spec fn format_outcome(format: AudioFormat, d: Seq<u8>) -> ParseOutcome {
    match format {
        AudioFormat::Aiff => aiff_outcome(d),
        AudioFormat::Wav => wav_outcome(d),
    }
}

/// The outcome is decoded audio without a single sample: no channel, or an
/// empty first channel.
pub open spec fn lacks_samples(o: ParseOutcome) -> bool {
    o matches ParseOutcome::Parsed(m) && (m.channels.len() == 0 || m.channels[0].len() == 0)
}

/// Decode the bytes of a file in the given container, rejecting audio
/// without samples with [`AudioIoError::NoSamples`].
pub fn decode_audio(format: AudioFormat, data: &[u8]) -> (r: Result<PcmAudio, AudioIoError>)
    ensures
        lacks_samples(format_outcome(format, data@)) ==> r matches Err(AudioIoError::NoSamples),
        !lacks_samples(format_outcome(format, data@)) ==> outcome_matches(
            &r,
            format_outcome(format, data@),
        ),
{
    let pcm = match format {
        AudioFormat::Aiff => parse_aiff(data),
        AudioFormat::Wav => parse_wav(data),
    };
    match pcm {
        Ok(audio) => {
            if audio.channels.len() == 0 || audio.channels[0].len() == 0 {
                Err(AudioIoError::NoSamples)
            } else {
                Ok(audio)
            }
        },
        Err(e) => Err(e),
    }
}

} // verus!
