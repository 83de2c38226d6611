use patches::audio::error::AudioIoError;
use patches::audio::format::{decode_audio, format_for_extension, AudioFormat};

#[test]
fn extension_names_the_container() {
    assert_eq!(format_for_extension(Some("aiff")), Some(AudioFormat::Aiff));
    assert_eq!(format_for_extension(Some("AIF")), Some(AudioFormat::Aiff));
    assert_eq!(format_for_extension(Some("AiFf")), Some(AudioFormat::Aiff));
    assert_eq!(format_for_extension(Some("wav")), Some(AudioFormat::Wav));
    assert_eq!(format_for_extension(Some("WAV")), Some(AudioFormat::Wav));
    assert_eq!(format_for_extension(Some("mp3")), None);
    assert_eq!(format_for_extension(Some("wave")), None);
    assert_eq!(format_for_extension(Some("")), None);
    assert_eq!(format_for_extension(Some("wÄv")), None);
    assert_eq!(format_for_extension(None), None);
}

fn wav_with_data(data: &[u8]) -> Vec<u8> {
    let mut buf = Vec::new();
    buf.extend_from_slice(b"RIFF\0\0\0\0WAVE");
    buf.extend_from_slice(b"fmt ");
    buf.extend_from_slice(&16u32.to_le_bytes());
    buf.extend_from_slice(&1u16.to_le_bytes());
    buf.extend_from_slice(&1u16.to_le_bytes());
    buf.extend_from_slice(&8000u32.to_le_bytes());
    buf.extend_from_slice(&16000u32.to_le_bytes());
    buf.extend_from_slice(&2u16.to_le_bytes());
    buf.extend_from_slice(&16u16.to_le_bytes());
    buf.extend_from_slice(b"data");
    buf.extend_from_slice(&(data.len() as u32).to_le_bytes());
    buf.extend_from_slice(data);
    buf
}

#[test]
fn audio_without_samples_is_rejected() {
    match decode_audio(AudioFormat::Wav, &wav_with_data(&[])) {
        Err(AudioIoError::NoSamples) => {}
        _ => panic!("empty data chunk must give NoSamples"),
    }
    match decode_audio(AudioFormat::Wav, &wav_with_data(&[3, 0])) {
        Ok(a) => assert_eq!(a.channels, vec![vec![3]]),
        Err(_) => panic!("one sample decodes"),
    }
    match decode_audio(AudioFormat::Aiff, &wav_with_data(&[3, 0])) {
        Err(AudioIoError::MalformedFile(m)) => assert_eq!(m, "not a valid AIFF file"),
        _ => panic!("a WAV file is not AIFF"),
    }
}
