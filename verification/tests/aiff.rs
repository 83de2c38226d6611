use patches::audio::aiff::{parse_aiff, read_extended};
use patches::audio::error::AudioIoError;
use patches::audio::pcm::{ExtendedFloat, PcmAudio, SampleRate};

fn normalised(a: &PcmAudio) -> Vec<Vec<f32>> {
    let full_scale = (1u32 << (a.bits_per_sample - 1)) as f64;
    a.channels
        .iter()
        .map(|ch| ch.iter().map(|&s| (s as f64 / full_scale) as f32).collect())
        .collect()
}

fn mix_to_mono(ch: &[Vec<f32>]) -> Vec<f32> {
    if ch.len() == 1 {
        return ch[0].clone();
    }
    let n = ch.len() as f32;
    (0..ch[0].len()).map(|i| ch.iter().map(|c| c[i]).sum::<f32>() / n).collect()
}

/// The value of an 80-bit extended float from its fields.
fn extended_value(e: ExtendedFloat) -> f64 {
    if e.exponent == 0 && e.mantissa == 0 {
        return 0.0;
    }
    let sign = if e.negative { -1.0 } else { 1.0 };
    let f_exp = e.exponent as i32 - 16383;
    sign * (e.mantissa as f64 / (1u64 << 63) as f64) * 2.0f64.powi(f_exp)
}

fn rate(a: &PcmAudio) -> f64 {
    match a.sample_rate {
        SampleRate::Extended(e) => extended_value(e),
        SampleRate::Hz(_) => panic!("AIFF rates are extended floats"),
    }
}

fn parse(data: &[u8]) -> Result<PcmAudio, AudioIoError> {
    parse_aiff(data)
}

/// Build a minimal valid AIFF in memory.
fn make_aiff(channels: u16, frames: u32, bit_depth: u16, samples: &[u8]) -> Vec<u8> {
    let mut buf = Vec::new();
    buf.extend_from_slice(b"FORM");
    buf.extend_from_slice(&[0; 4]);
    buf.extend_from_slice(b"AIFF");
    buf.extend_from_slice(b"COMM");
    buf.extend_from_slice(&18u32.to_be_bytes());
    buf.extend_from_slice(&channels.to_be_bytes());
    buf.extend_from_slice(&frames.to_be_bytes());
    buf.extend_from_slice(&bit_depth.to_be_bytes());
    buf.extend_from_slice(&[0x40, 0x0e, 0xac, 0x44, 0x00, 0x00, 0x00, 0x00, 0x00, 0x00]);
    let ssnd_size = 8 + samples.len();
    buf.extend_from_slice(b"SSND");
    buf.extend_from_slice(&(ssnd_size as u32).to_be_bytes());
    buf.extend_from_slice(&0u32.to_be_bytes());
    buf.extend_from_slice(&0u32.to_be_bytes());
    buf.extend_from_slice(samples);
    if samples.len() % 2 == 1 {
        buf.push(0);
    }
    let form_size = (buf.len() - 8) as u32;
    buf[4..8].copy_from_slice(&form_size.to_be_bytes());
    buf
}

#[test]
fn aiff_mono_16bit() {
    let mut samples = Vec::new();
    samples.extend_from_slice(&16384i16.to_be_bytes());
    samples.extend_from_slice(&(-16384i16).to_be_bytes());
    let aiff = make_aiff(1, 2, 16, &samples);
    let parsed = parse(&aiff).ok().unwrap();
    let mono = mix_to_mono(&normalised(&parsed));
    assert_eq!(mono.len(), 2);
    assert!((mono[0] - 0.5).abs() < 0.001);
    assert!((mono[1] + 0.5).abs() < 0.001);
}

#[test]
fn stereo_to_mono_16bit() {
    let mut samples = Vec::new();
    samples.extend_from_slice(&32767i16.to_be_bytes());
    samples.extend_from_slice(&(-32768i16).to_be_bytes());
    let aiff = make_aiff(2, 1, 16, &samples);
    let parsed = parse(&aiff).ok().unwrap();
    let mono = mix_to_mono(&normalised(&parsed));
    assert_eq!(mono.len(), 1);
    assert!(mono[0].abs() < 0.01);
}

#[test]
fn stereo_channels_preserved() {
    let mut samples = Vec::new();
    samples.extend_from_slice(&16384i16.to_be_bytes());
    samples.extend_from_slice(&(-16384i16).to_be_bytes());
    let aiff = make_aiff(2, 1, 16, &samples);
    let parsed = parse(&aiff).ok().unwrap();
    let ch = normalised(&parsed);
    assert_eq!(ch.len(), 2);
    assert!((ch[0][0] - 0.5).abs() < 0.001);
    assert!((ch[1][0] + 0.5).abs() < 0.001);
}

#[test]
fn sample_rate_parsed() {
    let samples = vec![0x00, 0x00];
    let aiff = make_aiff(1, 1, 16, &samples);
    let parsed = parse(&aiff).ok().unwrap();
    assert!((rate(&parsed) - 44100.0).abs() < 1.0);
}

#[test]
fn aiff_mono_24bit() {
    let samples = vec![0x40, 0x00, 0x00];
    let aiff = make_aiff(1, 1, 24, &samples);
    let parsed = parse(&aiff).ok().unwrap();
    let mono = mix_to_mono(&normalised(&parsed));
    assert!((mono[0] - 0.5).abs() < 0.001);
}

#[test]
fn aiff_negative_24bit() {
    let samples = vec![0xC0, 0x00, 0x00];
    let aiff = make_aiff(1, 1, 24, &samples);
    let parsed = parse(&aiff).ok().unwrap();
    let mono = mix_to_mono(&normalised(&parsed));
    assert!((mono[0] + 0.5).abs() < 0.001);
}

#[test]
fn not_aiff() {
    assert!(parse(b"NOT_AN_AIFF_FILE").is_err());
}

#[test]
fn missing_ssnd() {
    let mut buf = Vec::new();
    buf.extend_from_slice(b"FORM");
    buf.extend_from_slice(&100u32.to_be_bytes());
    buf.extend_from_slice(b"AIFF");
    buf.extend_from_slice(b"COMM");
    buf.extend_from_slice(&18u32.to_be_bytes());
    buf.extend_from_slice(&1u16.to_be_bytes());
    buf.extend_from_slice(&0u32.to_be_bytes());
    buf.extend_from_slice(&16u16.to_be_bytes());
    buf.extend_from_slice(&[0x40, 0x0e, 0xac, 0x44, 0x00, 0x00, 0x00, 0x00, 0x00, 0x00]);
    assert!(parse(&buf).is_err());
}

// ---------------------------------------------------------------------------
// Exact values, bounds and messages
// ---------------------------------------------------------------------------

fn error_message(r: Result<PcmAudio, AudioIoError>) -> (bool, String) {
    match r {
        Err(AudioIoError::MalformedFile(m)) => (true, m),
        Err(AudioIoError::UnsupportedEncoding(m)) => (false, m),
        Err(_) => panic!("unexpected error kind"),
        Ok(_) => panic!("expected an error"),
    }
}

#[test]
fn aiff_samples_decode_exactly() {
    let p8 = parse(&make_aiff(1, 3, 8, &[0x80, 0x00, 0x7f])).ok().unwrap();
    assert_eq!(p8.channels, vec![vec![-128, 0, 127]]);
    let p16 = parse(&make_aiff(2, 1, 16, &[0x80, 0x00, 0x00, 0x01])).ok().unwrap();
    assert_eq!(p16.channels, vec![vec![-32768], vec![1]]);
    let p24 = parse(&make_aiff(1, 2, 24, &[0xff, 0xff, 0xff, 0x7f, 0xff, 0xff])).ok().unwrap();
    assert_eq!(p24.channels, vec![vec![-1, 8388607]]);
    assert_eq!(
        p24.sample_rate,
        SampleRate::Extended(ExtendedFloat {
            negative: false,
            exponent: 0x400e,
            mantissa: 0xac44_0000_0000_0000
        })
    );
}

#[test]
fn aiff_frame_count_is_capped_by_the_data() {
    // COMM declares 5 frames but SSND holds 2; and fewer declared than held.
    let p = parse(&make_aiff(1, 5, 16, &[0, 1, 0, 2])).ok().unwrap();
    assert_eq!(p.channels, vec![vec![1, 2]]);
    let p = parse(&make_aiff(1, 1, 16, &[0, 1, 0, 2])).ok().unwrap();
    assert_eq!(p.channels, vec![vec![1]]);
}

#[test]
fn aiff_error_messages() {
    assert_eq!(error_message(parse(b"FORM")), (true, "not a valid AIFF file".to_string()));
    let mut no_comm = Vec::new();
    no_comm.extend_from_slice(b"FORM\0\0\0\0AIFF");
    assert_eq!(error_message(parse(&no_comm)), (true, "AIFF file missing COMM chunk".to_string()));
    let aiff = make_aiff(1, 1, 12, &[0, 0]);
    assert_eq!(error_message(parse(&aiff)), (false, "unsupported AIFF bit depth: 12".to_string()));
}

#[test]
fn aiff_cut_short_chunks_are_malformed() {
    let mut buf = Vec::new();
    buf.extend_from_slice(b"FORM");
    buf.extend_from_slice(&[0, 0, 0, 30]);
    buf.extend_from_slice(b"AIFF");
    buf.extend_from_slice(b"COMM");
    buf.extend_from_slice(&18u32.to_be_bytes());
    buf.extend_from_slice(&[0x00, 0x01]);
    assert_eq!(error_message(parse(&buf)), (true, "AIFF COMM chunk is truncated".to_string()));
    let mut ssnd = Vec::new();
    ssnd.extend_from_slice(b"FORM\0\0\0\0AIFF");
    ssnd.extend_from_slice(b"SSND");
    ssnd.extend_from_slice(&8u32.to_be_bytes());
    ssnd.extend_from_slice(&[0, 0]);
    assert_eq!(error_message(parse(&ssnd)), (true, "AIFF SSND chunk is truncated".to_string()));
}

#[test]
fn extended_float_fields() {
    let bytes = [0xc0, 0x0e, 0xac, 0x44, 0, 0, 0, 0, 0, 1];
    let e = read_extended(&bytes, 0);
    assert_eq!(e, ExtendedFloat { negative: true, exponent: 0x400e, mantissa: 0xac44_0000_0000_0001 });
    assert_eq!(extended_value(read_extended(&[0x40, 0x0e, 0xac, 0x44, 0, 0, 0, 0, 0, 0], 0)), 44100.0);
}

#[test]
fn ssnd_offset_skips_bytes() {
    let mut buf = make_aiff(1, 1, 16, &[]);
    // Rewrite SSND: size 8 + 2 + 2, offset 2, then two pad bytes and one sample.
    let ssnd_at = buf.len() - 16;
    buf.truncate(ssnd_at);
    buf.extend_from_slice(b"SSND");
    buf.extend_from_slice(&12u32.to_be_bytes());
    buf.extend_from_slice(&2u32.to_be_bytes());
    buf.extend_from_slice(&0u32.to_be_bytes());
    buf.extend_from_slice(&[0xee, 0xee, 0x00, 0x07]);
    let p = parse(&buf).ok().unwrap();
    assert_eq!(p.channels, vec![vec![7]]);
}

#[test]
fn aiff_unknown_chunk_after_header_is_skipped() {
    let aiff = make_aiff(2, 2, 16, &[0, 1, 0, 2, 0, 3, 0, 4]);
    let mut with_chunk = aiff[..12].to_vec();
    with_chunk.extend_from_slice(b"ANNO");
    with_chunk.extend_from_slice(&3u32.to_be_bytes());
    with_chunk.extend_from_slice(&[7, 7, 7, 0]);
    with_chunk.extend_from_slice(&aiff[12..]);
    let a = parse_aiff(&aiff).ok().unwrap();
    let b = parse_aiff(&with_chunk).ok().unwrap();
    assert_eq!(a.channels, vec![vec![1, 3], vec![2, 4]]);
    assert_eq!(a.channels, b.channels);
    assert_eq!(a.bits_per_sample, b.bits_per_sample);
    assert_eq!(a.sample_rate, b.sample_rate);
}
