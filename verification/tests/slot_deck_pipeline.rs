use patches::slot_deck::config::SlotDeckConfig;
use patches::slot_deck::filled_slot::FilledSlot;
use patches::slot_deck::overlap_buffer::OverlapBuffer;
use std::f32::consts::PI;

// ---------------------------------------------------------------------------
// Helpers: windows, a reference DFT low-pass, and the overlap-add output sum.
// ---------------------------------------------------------------------------

fn hann(n: f32) -> f32 {
    (PI * n).sin().powi(2)
}

fn window(size: usize, f: impl Fn(f32) -> f32) -> Vec<f32> {
    (0..size).map(|i| f(i as f32 / size as f32)).collect()
}

/// Pre-normalised WOLA synthesis window: `w[n] / Σ_k w[p + k·hop]²`.
fn normalised_wola(w: &[f32], hop_size: usize) -> Vec<f32> {
    let reciprocals: Vec<f32> = (0..hop_size)
        .map(|phase| {
            let mut sum = 0.0f32;
            let mut i = phase;
            while i < w.len() {
                sum += w[i] * w[i];
                i += hop_size;
            }
            if sum > 0.0 { 1.0 / sum } else { 0.0 }
        })
        .collect();
    w.iter().enumerate().map(|(i, &c)| c * reciprocals[i & (hop_size - 1)]).collect()
}

fn apply_into(w: &[f32], input: &[f32], output: &mut [f32]) {
    for ((o, &s), &c) in output.iter_mut().zip(input.iter()).zip(w.iter()) {
        *o = s * c;
    }
}

/// Keep DFT bins `0..=n/4` of a real frame and drop the rest (Nyquist included).
fn dft_half_nyquist_lowpass(frame: &mut [f32]) {
    let n = frame.len();
    let cutoff = n / 4;
    let tau = 2.0 * std::f64::consts::PI / n as f64;
    let mut re = vec![0.0f64; cutoff + 1];
    let mut im = vec![0.0f64; cutoff + 1];
    for k in 0..=cutoff {
        for (t, &x) in frame.iter().enumerate() {
            let a = tau * ((k * t) % n) as f64;
            re[k] += x as f64 * a.cos();
            im[k] -= x as f64 * a.sin();
        }
    }
    for (t, out) in frame.iter_mut().enumerate() {
        let mut acc = re[0];
        for k in 1..=cutoff {
            let a = tau * ((k * t) % n) as f64;
            acc += 2.0 * (re[k] * a.cos() - im[k] * a.sin());
        }
        *out = (acc / n as f64) as f32;
    }
}

/// The overlap-add output: the draining windows' samples, summed in order.
fn read_sum(buf: &mut OverlapBuffer<f32>) -> f32 {
    buf.read().iter().fold(0.0f32, |acc, &x| acc + x)
}

fn rms(signal: &[f32]) -> f32 {
    let sum_sq: f32 = signal.iter().map(|&x| x * x).sum();
    (sum_sq / signal.len() as f32).sqrt()
}

/// Plain OLA: constant-1 input, processor applies `w` once.
fn run_ola(cfg: SlotDeckConfig, w: &[f32]) -> Vec<f32> {
    let n_samples = cfg.total_latency() * 4;
    let (mut buf, mut handle) = OverlapBuffer::<f32>::new_unthreaded(cfg);
    let mut outputs = Vec::with_capacity(n_samples);
    for _ in 0..n_samples {
        buf.write(1.0_f32);
        while let Some(mut slot) = handle.pop() {
            let mut windowed = vec![0.0_f32; slot.data.len()];
            apply_into(w, &slot.data, &mut windowed);
            slot.data.copy_from_slice(&windowed);
            let _ = handle.push(slot);
        }
        outputs.push(read_sum(&mut buf));
    }
    outputs
}

/// WOLA: constant-1 input, analysis window then pre-normalised synthesis window.
fn run_wola(cfg: SlotDeckConfig, w: &[f32]) -> Vec<f32> {
    let synth = normalised_wola(w, cfg.hop_size());
    let n_samples = cfg.total_latency() * 4;
    let (mut buf, mut handle) = OverlapBuffer::<f32>::new_unthreaded(cfg);
    let mut outputs = Vec::with_capacity(n_samples);
    for _ in 0..n_samples {
        buf.write(1.0_f32);
        while let Some(mut slot) = handle.pop() {
            let mut analysis = vec![0.0_f32; slot.data.len()];
            apply_into(w, &slot.data, &mut analysis);
            slot.data.fill(0.0);
            apply_into(&synth, &analysis, &mut slot.data);
            let _ = handle.push(slot);
        }
        outputs.push(read_sum(&mut buf));
    }
    outputs
}

/// A brick-wall half-Nyquist low-pass through the WOLA pipeline; the output
/// has `extra` samples more than the input (zeros fed in after it).
fn run_fft_lowpass_with(input: &[f32], cfg: SlotDeckConfig, extra: usize) -> Vec<f32> {
    let window_size = cfg.window_size;
    let analysis = window(window_size, hann);
    let synth = normalised_wola(&analysis, cfg.hop_size());
    let n_samples = input.len() + extra;
    let (mut buf, mut handle) = OverlapBuffer::<f32>::new_unthreaded(cfg);
    let mut outputs = Vec::with_capacity(n_samples);
    for i in 0..n_samples {
        let sample = if i < input.len() { input[i] } else { 0.0 };
        buf.write(sample);
        while let Some(mut slot) = handle.pop() {
            let mut frame = vec![0.0f32; slot.data.len()];
            apply_into(&analysis, &slot.data, &mut frame);
            dft_half_nyquist_lowpass(&mut frame);
            slot.data.fill(0.0);
            apply_into(&synth, &frame, &mut slot.data);
            let _ = handle.push(slot);
        }
        outputs.push(read_sum(&mut buf));
    }
    outputs
}

fn run_fft_lowpass(input: &[f32], window_size: usize, overlap_factor: usize) -> Vec<f32> {
    let cfg = SlotDeckConfig::new(window_size, overlap_factor, window_size).unwrap();
    let extra = cfg.total_latency();
    run_fft_lowpass_with(input, cfg, extra)
}

// ---------------------------------------------------------------------------
// OLA / WOLA reconstruction
// ---------------------------------------------------------------------------

#[test]
fn ola_hann_overlap_2() {
    let cfg = SlotDeckConfig::new(32, 2, 16).unwrap();
    let latency = cfg.total_latency();
    let w = window(cfg.window_size, hann);
    let outputs = run_ola(cfg, &w);
    let check_from = latency + 32;
    for (i, &s) in outputs[check_from..].iter().enumerate() {
        assert!(
            (s - 1.0).abs() < 1e-5,
            "OLA Hann F=2 failed at sample {}: expected 1.0, got {}",
            check_from + i,
            s
        );
    }
}

#[test]
fn ola_hann_overlap_4() {
    let cfg = SlotDeckConfig::new(32, 4, 16).unwrap();
    let latency = cfg.total_latency();
    let w = window(cfg.window_size, hann);
    let outputs = run_ola(cfg, &w);
    let check_from = latency + 32;
    for (i, &s) in outputs[check_from..].iter().enumerate() {
        assert!(
            (s - 2.0).abs() < 1e-5,
            "OLA Hann F=4 failed at sample {}: expected 2.0, got {}",
            check_from + i,
            s
        );
    }
}

#[test]
fn wola_hann_overlap_2() {
    let cfg = SlotDeckConfig::new(32, 2, 16).unwrap();
    let latency = cfg.total_latency();
    let w = window(cfg.window_size, hann);
    let outputs = run_wola(cfg, &w);
    let check_from = latency + 32;
    for (i, &s) in outputs[check_from..].iter().enumerate() {
        assert!(
            (s - 1.0).abs() < 1e-5,
            "WOLA Hann F=2 failed at sample {}: expected 1.0, got {}",
            check_from + i,
            s
        );
    }
}

#[test]
fn wola_hann_overlap_4() {
    let cfg = SlotDeckConfig::new(32, 4, 16).unwrap();
    let latency = cfg.total_latency();
    let w = window(cfg.window_size, hann);
    let outputs = run_wola(cfg, &w);
    let check_from = latency + 32;
    for (i, &s) in outputs[check_from..].iter().enumerate() {
        assert!(
            (s - 1.0).abs() < 1e-5,
            "WOLA Hann F=4 failed at sample {}: expected 1.0, got {}",
            check_from + i,
            s
        );
    }
}

// ---------------------------------------------------------------------------
// FFT low-pass through the slot deck
// ---------------------------------------------------------------------------

#[test]
fn fft_lowpass_passes_low_frequency() {
    let window_size = 256;
    let n_input = window_size * 16;
    let freq_bin = 3.0;
    let input: Vec<f32> = (0..n_input)
        .map(|i| (2.0 * PI * freq_bin * i as f32 / window_size as f32).sin())
        .collect();
    let output = run_fft_lowpass(&input, window_size, 4);
    let skip = window_size * 3;
    let steady = &output[skip..skip + window_size * 8];
    let input_rms = rms(&input[skip..skip + window_size * 8]);
    let output_rms = rms(steady);
    assert!(
        output_rms > input_rms * 0.9,
        "low-freq signal should pass: input_rms={input_rms}, output_rms={output_rms}"
    );
}

#[test]
fn fft_lowpass_attenuates_high_frequency() {
    let window_size = 256;
    let n_input = window_size * 16;
    let freq_bin = 96.0;
    let input: Vec<f32> = (0..n_input)
        .map(|i| (2.0 * PI * freq_bin * i as f32 / window_size as f32).sin())
        .collect();
    let output = run_fft_lowpass(&input, window_size, 4);
    let skip = window_size * 3;
    let steady = &output[skip..skip + window_size * 8];
    let input_rms = rms(&input[skip..skip + window_size * 8]);
    let output_rms = rms(steady);
    assert!(
        output_rms < input_rms * 0.1,
        "high-freq signal should be attenuated: input_rms={input_rms}, output_rms={output_rms}"
    );
}

#[test]
fn fft_lowpass_mixed_signal_preserves_low_removes_high() {
    let window_size = 256;
    let n_input = window_size * 16;
    let lo_bin = 4.0;
    let hi_bin = 100.0;
    let input: Vec<f32> = (0..n_input)
        .map(|i| {
            let t = i as f32 / window_size as f32;
            let lo = (2.0 * PI * lo_bin * t).sin();
            let hi = (2.0 * PI * hi_bin * t).sin();
            lo + hi
        })
        .collect();
    let output = run_fft_lowpass(&input, window_size, 4);
    let skip = window_size * 3;
    let len = window_size * 8;
    let steady = &output[skip..skip + len];
    let expected_lo: Vec<f32> = (skip..skip + len)
        .map(|i| (2.0 * PI * lo_bin * i as f32 / window_size as f32).sin())
        .collect();
    let error_rms = rms(
        &steady.iter().zip(expected_lo.iter()).map(|(&a, &b)| a - b).collect::<Vec<_>>(),
    );
    let signal_rms = rms(&expected_lo);
    assert!(
        error_rms < signal_rms * 0.2,
        "filtered output should match low component: signal_rms={signal_rms}, error_rms={error_rms}"
    );
}

const TONE_WINDOW_SIZE: usize = 256;
const TONE_OVERLAP_FACTOR: usize = 4;
const TONE_PROCESSING_BUDGET: usize = 64;

fn make_sine(n_samples: usize, freq_bin: usize) -> Vec<f32> {
    (0..n_samples)
        .map(|i| (2.0 * PI * freq_bin as f32 * i as f32 / TONE_WINDOW_SIZE as f32).sin())
        .collect()
}

fn run_tone_lowpass(input: &[f32]) -> Vec<f32> {
    let cfg =
        SlotDeckConfig::new(TONE_WINDOW_SIZE, TONE_OVERLAP_FACTOR, TONE_PROCESSING_BUDGET).unwrap();
    run_fft_lowpass_with(input, cfg, 0)
}

#[test]
fn fft_lowpass_passes_low_frequency_tone() {
    let freq_bin = 16;
    let cfg =
        SlotDeckConfig::new(TONE_WINDOW_SIZE, TONE_OVERLAP_FACTOR, TONE_PROCESSING_BUDGET).unwrap();
    let latency = cfg.total_latency();
    let n_samples = latency + TONE_WINDOW_SIZE * 4;
    let input = make_sine(n_samples, freq_bin);
    let output = run_tone_lowpass(&input);
    let settle = latency + TONE_WINDOW_SIZE;
    let input_rms = rms(&input[settle..]);
    let output_rms = rms(&output[settle..]);
    assert!(
        output_rms > 0.99 * input_rms,
        "Low-frequency tone (bin {freq_bin}) not preserved: input_rms={input_rms:.5}, output_rms={output_rms:.5}"
    );
}

#[test]
fn fft_lowpass_attenuates_high_frequency_tone() {
    let freq_bin = 96;
    let cfg =
        SlotDeckConfig::new(TONE_WINDOW_SIZE, TONE_OVERLAP_FACTOR, TONE_PROCESSING_BUDGET).unwrap();
    let latency = cfg.total_latency();
    let n_samples = latency + TONE_WINDOW_SIZE * 4;
    let input = make_sine(n_samples, freq_bin);
    let output = run_tone_lowpass(&input);
    let settle = latency + TONE_WINDOW_SIZE;
    let output_rms = rms(&output[settle..]);
    assert!(
        output_rms < 1e-4,
        "High-frequency tone (bin {freq_bin}) not attenuated: output_rms={output_rms:.6}"
    );
}

#[test]
fn fft_lowpass_passes_dc() {
    let cfg =
        SlotDeckConfig::new(TONE_WINDOW_SIZE, TONE_OVERLAP_FACTOR, TONE_PROCESSING_BUDGET).unwrap();
    let latency = cfg.total_latency();
    let n_samples = latency + TONE_WINDOW_SIZE * 4;
    let input: Vec<f32> = vec![1.0; n_samples];
    let output = run_tone_lowpass(&input);
    let settle = latency + TONE_WINDOW_SIZE;
    for (i, &s) in output[settle..].iter().enumerate() {
        assert!(
            (s - 1.0).abs() < 1e-4,
            "DC pass failed at sample {}: expected 1.0, got {s:.6}",
            settle + i
        );
    }
}

// ---------------------------------------------------------------------------
// Overload, starvation and recycling
// ---------------------------------------------------------------------------

#[test]
fn write_overload_does_not_block() {
    let cfg = SlotDeckConfig::new(16, 2, 8).expect("valid config");
    let pool_size = cfg.pool_size();
    let window_size = cfg.window_size;
    let (mut buf, _handle) = OverlapBuffer::<f32>::new_unthreaded(cfg);
    for i in 0..(pool_size * window_size * 4) {
        buf.write((i as f32) * 0.001);
    }
}

#[test]
fn pool_starvation_degrades_gracefully() {
    let cfg = SlotDeckConfig::new(32, 2, 8).expect("valid config");
    let pool_size = cfg.pool_size();
    let window_size = cfg.window_size;
    let (mut buf, _handle_dropped) = OverlapBuffer::<f32>::new_unthreaded(cfg);
    for i in 0..(pool_size * window_size * 2) {
        buf.write((i as f32) * 0.001);
    }
}

#[test]
fn pool_starvation_recovery() {
    let cfg = SlotDeckConfig::new(32, 2, 8).expect("valid config");
    let latency = cfg.total_latency();
    let (mut buf, mut handle) = OverlapBuffer::<f32>::new_unthreaded(cfg);
    let starvation_samples = latency * 2;
    for i in 0..starvation_samples {
        buf.write((i as f32) * 0.001);
        let _ = read_sum(&mut buf);
    }
    let mut recovered_nonzero = false;
    let recovery_samples = latency * 4;
    for i in 0..recovery_samples {
        buf.write(1.0);
        while let Some(slot) = handle.pop() {
            let _ = handle.push(slot);
        }
        let v = read_sum(&mut buf);
        if v.abs() > 0.0 && i > latency {
            recovered_nonzero = true;
        }
    }
    assert!(recovered_nonzero, "output should become non-zero after recovery from pool starvation");
}

#[test]
fn slow_processor_degrades_gracefully() {
    let cfg = SlotDeckConfig::new(32, 2, 8).expect("valid config");
    let latency = cfg.total_latency();
    let (mut buf, mut handle) = OverlapBuffer::<f32>::new_unthreaded(cfg);
    let mut frame_count = 0usize;
    let n_samples = latency * 4;
    let mut all_finite = true;
    for _ in 0..n_samples {
        buf.write(1.0);
        while let Some(slot) = handle.pop() {
            frame_count += 1;
            if frame_count % 3 == 0 {
                let _ = handle.push(slot);
            }
        }
        let v = read_sum(&mut buf);
        if !v.is_finite() {
            all_finite = false;
        }
    }
    assert!(all_finite, "all output samples should be finite even with slow processor");
}

#[test]
fn return_channel_full_does_not_panic() {
    let cfg = SlotDeckConfig::new(32, 2, 8).expect("valid config");
    let pool_size = cfg.pool_size();
    let (mut buf, mut handle) = OverlapBuffer::<f32>::new_unthreaded(cfg);
    for _ in 0..pool_size * 2 {
        buf.write(1.0);
        while let Some(slot) = handle.pop() {
            let _ = handle.push(slot);
        }
    }
    for _ in 0..pool_size * 4 {
        buf.write(0.0);
        let _ = read_sum(&mut buf);
    }
}

#[test]
fn buffer_recycling_preserves_pool() {
    let cfg = SlotDeckConfig::new(32, 2, 8).expect("valid config");
    let latency = cfg.total_latency();
    let (mut buf, mut handle) = OverlapBuffer::<f32>::new_unthreaded(cfg);
    let n_samples = latency * 3;
    for i in 0..n_samples {
        buf.write((i as f32) * 0.001);
        while let Some(slot) = handle.pop() {
            let _ = handle.push(slot);
        }
        let _ = read_sum(&mut buf);
    }
    let mut saw_nonzero = false;
    for i in 0..n_samples {
        buf.write(1.0);
        while let Some(slot) = handle.pop() {
            let _ = handle.push(slot);
        }
        let v = read_sum(&mut buf);
        if v != 0.0 && i > latency {
            saw_nonzero = true;
        }
    }
    assert!(saw_nonzero, "after recycling, pipeline should continue producing non-zero output");
}

// ---------------------------------------------------------------------------
// Startup silence, round trips, late frames
// ---------------------------------------------------------------------------

#[test]
fn startup_silence() {
    let cfg = SlotDeckConfig::new(64, 2, 16).expect("valid config");
    let (mut buf, _handle) = OverlapBuffer::<f32>::new_unthreaded(cfg);
    for _ in 0..32 {
        buf.write(1.0);
        assert_eq!(read_sum(&mut buf), 0.0, "should be silent before pipeline fills");
    }
}

#[test]
fn round_trip_identity_inline() {
    let cfg = SlotDeckConfig::new(64, 2, 16).expect("valid config");
    let latency = cfg.total_latency();
    let (mut buf, mut handle) = OverlapBuffer::<f32>::new_unthreaded(cfg);
    let mut outputs = Vec::new();
    for i in 0..(latency * 2) {
        let input = (i as f32) * 0.001;
        buf.write(input);
        while let Some(slot) = handle.pop() {
            let _ = handle.push(slot);
        }
        outputs.push(read_sum(&mut buf));
    }
    assert!(outputs[latency..].iter().any(|&x| x != 0.0), "output should be non-zero after pipeline fills");
}

#[test]
fn late_frame_discarded() {
    let cfg = SlotDeckConfig::new(64, 2, 16).expect("valid config");
    let latency = cfg.total_latency();
    let (mut buf, mut handle) = OverlapBuffer::<f32>::new_unthreaded(cfg);
    for i in 0..(latency * 2) {
        buf.write((i as f32) * 0.001);
        let _ = read_sum(&mut buf);
    }
    let stale_data: Vec<f32> = vec![1.0f32; 64];
    let _ = handle.push(FilledSlot { start: 0, data: stale_data });
    let out = read_sum(&mut buf);
    assert!(out.abs() < 1.0, "stale frame should not contribute to output");
}

// ---------------------------------------------------------------------------
// Further cases of the library's contracts
// ---------------------------------------------------------------------------

#[test]
fn identity_round_trip_reproduces_input_after_latency() {
    // Rectangular analysis (identity processing) at overlap 1: each sample
    // comes back exactly total_latency samples later.
    let cfg = SlotDeckConfig::new(8, 1, 8).expect("valid config");
    let latency = cfg.total_latency();
    let (mut buf, mut handle) = OverlapBuffer::<f32>::new_unthreaded(cfg);
    let mut out = Vec::new();
    let n = latency * 4;
    for i in 0..n {
        buf.write(i as f32);
        while let Some(slot) = handle.pop() {
            handle.push(slot).ok().expect("return queue has room");
        }
        out.push(read_sum(&mut buf));
    }
    for i in latency..n {
        assert_eq!(out[i], (i - latency) as f32, "sample {i}");
    }
}

#[test]
fn dispatch_is_reported_once_per_window() {
    // Window 4, hop 2: after the first full window, one window completes
    // every hop.
    let cfg = SlotDeckConfig::new(4, 2, 4).expect("valid config");
    let (mut buf, mut handle) = OverlapBuffer::<f32>::new_unthreaded(cfg);
    let mut dispatched = Vec::new();
    for i in 0..12 {
        dispatched.push(buf.write(i as f32));
        while let Some(slot) = handle.pop() {
            assert_eq!(slot.data.len(), 4);
            let _ = handle.push(slot);
        }
        let _ = buf.read();
    }
    let count = dispatched.iter().filter(|&&d| d).count();
    assert!(count >= 4 && count <= 6, "dispatches: {dispatched:?}");
    // Two consecutive samples never both complete a window (hop 2).
    for pair in dispatched.windows(2) {
        assert!(!(pair[0] && pair[1]));
    }
}

#[test]
fn full_return_queue_hands_the_slot_back() {
    let cfg = SlotDeckConfig::new(4, 1, 4).expect("valid config");
    let pool_size = cfg.pool_size();
    let (_buf, mut handle) = OverlapBuffer::<f32>::new_unthreaded(cfg);
    for k in 0..pool_size {
        assert!(handle.push(FilledSlot { start: k as u64, data: vec![0.0; 4] }).is_ok());
    }
    match handle.push(FilledSlot { start: 77, data: vec![1.0, 2.0, 3.0, 4.0] }) {
        Ok(()) => panic!("queue of {pool_size} slots should be full"),
        Err(slot) => {
            assert_eq!(slot.start, 77);
            assert_eq!(slot.data, vec![1.0, 2.0, 3.0, 4.0]);
        }
    }
}

#[test]
fn short_returned_buffer_is_dropped() {
    let cfg = SlotDeckConfig::new(4, 1, 4).expect("valid config");
    let (mut buf, mut handle) = OverlapBuffer::<f32>::new_unthreaded(cfg);
    let _ = handle.push(FilledSlot { start: 0, data: vec![5.0; 2] });
    // Read head 0 would be covered by a window at 0; the short buffer is not used.
    assert_eq!(read_sum(&mut buf), 0.0);
}

#[test]
fn short_processed_slot_is_dropped() {
    // A processed slot shorter than a window cannot be overlap-added: it is
    // dropped, while a full one at the same start is heard.
    let cfg = SlotDeckConfig::new(4, 1, 4).expect("valid config");
    let (mut short, _h1) = OverlapBuffer::<f32>::new_unthreaded(cfg);
    short.accept_processed(FilledSlot { start: 0, data: vec![1.0f32; 2] });
    let cfg = SlotDeckConfig::new(4, 1, 4).expect("valid config");
    let (mut full, _h2) = OverlapBuffer::<f32>::new_unthreaded(cfg);
    full.accept_processed(FilledSlot { start: 0, data: vec![1.0f32; 4] });
    for _ in 0..4 {
        assert_eq!(read_sum(&mut short), 0.0);
        assert_eq!(read_sum(&mut full), 1.0);
    }
}
