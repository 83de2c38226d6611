use patches::audio::error::AudioIoError;
use patches::audio::pcm::{PcmAudio, SampleRate};
use patches::audio::wav::parse_wav;

/// Samples normalised to [-1, 1] by the full scale of their bit depth.
fn normalised(a: &PcmAudio) -> Vec<Vec<f32>> {
    let full_scale = (1u32 << (a.bits_per_sample - 1)) as f64;
    a.channels
        .iter()
        .map(|ch| ch.iter().map(|&s| (s as f64 / full_scale) as f32).collect())
        .collect()
}

fn rate(a: &PcmAudio) -> f64 {
    match a.sample_rate {
        SampleRate::Hz(hz) => hz as f64,
        SampleRate::Extended(_) => panic!("WAV rates are whole hertz"),
    }
}

fn mix_to_mono(ch: &[Vec<f32>]) -> Vec<f32> {
    let n = ch.len() as f32;
    (0..ch[0].len()).map(|i| ch.iter().map(|c| c[i]).sum::<f32>() / n).collect()
}

/// Build a minimal valid WAV in memory (PCM).
fn make_wav(channels: u16, sample_rate: u32, bit_depth: u16, samples: &[u8]) -> Vec<u8> {
    let mut buf = Vec::new();
    let bytes_per_sample = bit_depth / 8;
    let block_align = channels * bytes_per_sample;
    let byte_rate = sample_rate * u32::from(block_align);
    buf.extend_from_slice(b"RIFF");
    buf.extend_from_slice(&[0; 4]);
    buf.extend_from_slice(b"WAVE");
    buf.extend_from_slice(b"fmt ");
    buf.extend_from_slice(&16u32.to_le_bytes());
    buf.extend_from_slice(&1u16.to_le_bytes());
    buf.extend_from_slice(&channels.to_le_bytes());
    buf.extend_from_slice(&sample_rate.to_le_bytes());
    buf.extend_from_slice(&byte_rate.to_le_bytes());
    buf.extend_from_slice(&block_align.to_le_bytes());
    buf.extend_from_slice(&bit_depth.to_le_bytes());
    buf.extend_from_slice(b"data");
    buf.extend_from_slice(&(samples.len() as u32).to_le_bytes());
    buf.extend_from_slice(samples);
    if samples.len() % 2 == 1 {
        buf.push(0);
    }
    let riff_size = (buf.len() - 8) as u32;
    buf[4..8].copy_from_slice(&riff_size.to_le_bytes());
    buf
}

#[test]
fn wav_read_mono_16bit() {
    let mut samples = Vec::new();
    samples.extend_from_slice(&16384i16.to_le_bytes());
    samples.extend_from_slice(&(-16384i16).to_le_bytes());
    let wav = make_wav(1, 44100, 16, &samples);
    let parsed = parse_wav(&wav).ok().unwrap();
    let ch = normalised(&parsed);
    assert_eq!(ch.len(), 1);
    assert_eq!(ch[0].len(), 2);
    assert!((ch[0][0] - 0.5).abs() < 0.001);
    assert!((ch[0][1] + 0.5).abs() < 0.001);
    assert!((rate(&parsed) - 44100.0).abs() < 0.01);
}

#[test]
fn stereo_16bit() {
    let mut samples = Vec::new();
    samples.extend_from_slice(&16384i16.to_le_bytes());
    samples.extend_from_slice(&(-16384i16).to_le_bytes());
    let wav = make_wav(2, 48000, 16, &samples);
    let parsed = parse_wav(&wav).ok().unwrap();
    let ch = normalised(&parsed);
    assert_eq!(ch.len(), 2);
    assert_eq!(ch[0].len(), 1);
    assert!((ch[0][0] - 0.5).abs() < 0.001);
    assert!((ch[1][0] + 0.5).abs() < 0.001);
    assert!((rate(&parsed) - 48000.0).abs() < 0.01);
}

#[test]
fn wav_read_mono_24bit() {
    let samples = vec![0x00, 0x00, 0x40];
    let wav = make_wav(1, 44100, 24, &samples);
    let parsed = parse_wav(&wav).ok().unwrap();
    assert!((normalised(&parsed)[0][0] - 0.5).abs() < 0.001);
}

#[test]
fn wav_read_negative_24bit() {
    let samples = vec![0x00, 0x00, 0xC0];
    let wav = make_wav(1, 44100, 24, &samples);
    let parsed = parse_wav(&wav).ok().unwrap();
    assert!((normalised(&parsed)[0][0] + 0.5).abs() < 0.001);
}

#[test]
fn sample_rate_preserved() {
    let samples = vec![0x00, 0x00];
    let wav = make_wav(1, 96000, 16, &samples);
    let parsed = parse_wav(&wav).ok().unwrap();
    assert!((rate(&parsed) - 96000.0).abs() < 0.01);
}

#[test]
fn not_wav() {
    assert!(parse_wav(b"NOT_A_WAV_FILE!!").is_err());
}

#[test]
fn missing_data_chunk() {
    let mut buf = Vec::new();
    buf.extend_from_slice(b"RIFF");
    buf.extend_from_slice(&100u32.to_le_bytes());
    buf.extend_from_slice(b"WAVE");
    buf.extend_from_slice(b"fmt ");
    buf.extend_from_slice(&16u32.to_le_bytes());
    buf.extend_from_slice(&1u16.to_le_bytes());
    buf.extend_from_slice(&1u16.to_le_bytes());
    buf.extend_from_slice(&44100u32.to_le_bytes());
    buf.extend_from_slice(&88200u32.to_le_bytes());
    buf.extend_from_slice(&2u16.to_le_bytes());
    buf.extend_from_slice(&16u16.to_le_bytes());
    assert!(parse_wav(&buf).is_err());
}

#[test]
fn truncated_mid_fmt_chunk_rejected() {
    let mut buf = Vec::new();
    buf.extend_from_slice(b"RIFF");
    buf.extend_from_slice(&100u32.to_le_bytes());
    buf.extend_from_slice(b"WAVE");
    buf.extend_from_slice(b"fmt ");
    buf.extend_from_slice(&16u32.to_le_bytes());
    buf.extend_from_slice(&1u16.to_le_bytes());
    buf.extend_from_slice(&1u16.to_le_bytes());
    assert!(parse_wav(&buf).is_err());
}

#[test]
fn non_pcm_format_code_rejected() {
    let mut samples = Vec::new();
    samples.extend_from_slice(&0i16.to_le_bytes());
    let mut buf = Vec::new();
    buf.extend_from_slice(b"RIFF");
    let total_size = 4 + (8 + 16) + (8 + samples.len());
    buf.extend_from_slice(&(total_size as u32).to_le_bytes());
    buf.extend_from_slice(b"WAVE");
    buf.extend_from_slice(b"fmt ");
    buf.extend_from_slice(&16u32.to_le_bytes());
    buf.extend_from_slice(&99u16.to_le_bytes());
    buf.extend_from_slice(&1u16.to_le_bytes());
    buf.extend_from_slice(&44100u32.to_le_bytes());
    buf.extend_from_slice(&88200u32.to_le_bytes());
    buf.extend_from_slice(&2u16.to_le_bytes());
    buf.extend_from_slice(&16u16.to_le_bytes());
    buf.extend_from_slice(b"data");
    buf.extend_from_slice(&(samples.len() as u32).to_le_bytes());
    buf.extend_from_slice(&samples);
    assert!(
        parse_wav(&buf).is_err(),
        "unsupported PCM format code 99 must be rejected, not silently accepted"
    );
}

#[test]
fn stereo_to_mono_via_audio_data() {
    let mut samples = Vec::new();
    samples.extend_from_slice(&32767i16.to_le_bytes());
    samples.extend_from_slice(&(-32768i16).to_le_bytes());
    let wav = make_wav(2, 44100, 16, &samples);
    let parsed = parse_wav(&wav).ok().unwrap();
    let mono = mix_to_mono(&normalised(&parsed));
    assert!(mono[0].abs() < 0.01);
}

// ---------------------------------------------------------------------------
// Exact values and messages
// ---------------------------------------------------------------------------

fn malformed_message(r: Result<PcmAudio, AudioIoError>) -> String {
    match r {
        Err(AudioIoError::MalformedFile(m)) => m,
        Err(_) => panic!("expected MalformedFile, got another error"),
        Ok(_) => panic!("expected MalformedFile, got audio"),
    }
}

fn unsupported_message(r: Result<PcmAudio, AudioIoError>) -> String {
    match r {
        Err(AudioIoError::UnsupportedEncoding(m)) => m,
        Err(_) => panic!("expected UnsupportedEncoding, got another error"),
        Ok(_) => panic!("expected UnsupportedEncoding, got audio"),
    }
}

#[test]
fn wav_samples_decode_exactly() {
    // 8-bit is unsigned around 128; 16 and 24 bits are two's complement.
    let p8 = parse_wav(&make_wav(1, 8000, 8, &[0, 128, 255])).ok().unwrap();
    assert_eq!(p8.channels, vec![vec![-128, 0, 127]]);
    assert_eq!(p8.bits_per_sample, 8);
    let p16 = parse_wav(&make_wav(1, 8000, 16, &[0x00, 0x80, 0xff, 0x7f, 0x01, 0x00])).ok().unwrap();
    assert_eq!(p16.channels, vec![vec![-32768, 32767, 1]]);
    let p24 = parse_wav(&make_wav(1, 8000, 24, &[0xff, 0xff, 0xff, 0x00, 0x00, 0x80])).ok().unwrap();
    assert_eq!(p24.channels, vec![vec![-1, -8388608]]);
    assert_eq!(p24.sample_rate, SampleRate::Hz(8000));
    assert_eq!(p24.num_channels(), 1);
    assert_eq!(p24.num_frames(), 2);
}

#[test]
fn wav_partial_frames_are_dropped() {
    // Stereo 16-bit: 6 bytes hold one whole frame and half of another.
    let p = parse_wav(&make_wav(2, 8000, 16, &[1, 0, 2, 0, 3, 0])).ok().unwrap();
    assert_eq!(p.channels, vec![vec![1], vec![2]]);
}

#[test]
fn wav_zero_channels_give_no_channels() {
    let p = parse_wav(&make_wav(0, 8000, 16, &[1, 2, 3, 4])).ok().unwrap();
    assert!(p.channels.is_empty());
}

#[test]
fn wav_error_messages() {
    assert_eq!(malformed_message(parse_wav(b"RIFF")), "not a valid WAV file");
    let mut no_fmt = Vec::new();
    no_fmt.extend_from_slice(b"RIFF\0\0\0\0WAVE");
    no_fmt.extend_from_slice(b"data");
    no_fmt.extend_from_slice(&2u32.to_le_bytes());
    no_fmt.extend_from_slice(&[0, 0]);
    assert_eq!(malformed_message(parse_wav(&no_fmt)), "WAV file missing fmt chunk");
    let mut truncated = Vec::new();
    truncated.extend_from_slice(b"RIFF\0\0\0\0WAVE");
    truncated.extend_from_slice(b"fmt ");
    truncated.extend_from_slice(&16u32.to_le_bytes());
    truncated.extend_from_slice(&[1, 0, 1, 0]);
    assert_eq!(
        malformed_message(parse_wav(&truncated)),
        "WAV chunk 'fmt ' declares size 16 but only 4 bytes remain"
    );
    let mut wav = make_wav(1, 8000, 16, &[0, 0]);
    wav[20] = 3; // format tag 3
    assert_eq!(unsupported_message(parse_wav(&wav)), "WAV format tag 3 (only PCM/1 supported)");
    let wav = make_wav(1, 8000, 32, &[0, 0, 0, 0]);
    assert_eq!(unsupported_message(parse_wav(&wav)), "unsupported WAV bit depth: 32");
}

#[test]
fn wav_later_chunks_override_earlier_ones() {
    // A second data chunk replaces the first; unknown chunks are skipped,
    // odd-sized ones with their pad byte.
    let mut wav = make_wav(1, 8000, 16, &[1, 0]);
    wav.extend_from_slice(b"junk");
    wav.extend_from_slice(&3u32.to_le_bytes());
    wav.extend_from_slice(&[9, 9, 9, 0]);
    wav.extend_from_slice(b"data");
    wav.extend_from_slice(&4u32.to_le_bytes());
    wav.extend_from_slice(&[5, 0, 6, 0]);
    let p = parse_wav(&wav).ok().unwrap();
    assert_eq!(p.channels, vec![vec![5, 6]]);
}

#[test]
fn wav_unknown_chunk_after_header_is_skipped() {
    let wav = make_wav(2, 22050, 16, &[1, 0, 2, 0, 3, 0, 4, 0]);
    let mut with_chunk = wav[..12].to_vec();
    with_chunk.extend_from_slice(b"LIST");
    with_chunk.extend_from_slice(&5u32.to_le_bytes());
    with_chunk.extend_from_slice(&[7, 7, 7, 7, 7, 0]);
    with_chunk.extend_from_slice(&wav[12..]);
    let a = parse_wav(&wav).ok().unwrap();
    let b = parse_wav(&with_chunk).ok().unwrap();
    assert_eq!(a.channels, b.channels);
    assert_eq!(a.channels, vec![vec![1, 3], vec![2, 4]]);
    assert_eq!(a.bits_per_sample, b.bits_per_sample);
    assert_eq!(a.sample_rate, b.sample_rate);
}
