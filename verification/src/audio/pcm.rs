//! Integer PCM audio as decoded from a container, before scaling to `[-1, 1]`.

use vstd::prelude::*;
use crate::audio::bytes::{le_u16, be_u16};

verus! {

/// An 80-bit IEEE 754 extended-precision number by its fields (AIFF stores its
/// sample rate so): sign, 15-bit biased exponent and 64-bit mantissa with an
/// explicit integer bit.
#[derive(Clone, Copy, Debug, PartialEq, Eq)]
pub struct ExtendedFloat {
    pub negative: bool,
    pub exponent: u16,
    pub mantissa: u64,
}

/// The sample rate as the container stores it.
#[derive(Clone, Copy, Debug, PartialEq, Eq)]
pub enum SampleRate {
    /// Whole hertz (WAV).
    Hz(u32),
    /// An extended-precision number of hertz (AIFF).
    Extended(ExtendedFloat),
}

/// Decoded audio: per-channel signed integer samples of `bits_per_sample`
/// bits each (full scale is `2^(bits_per_sample - 1)`), and the sample rate.
pub struct PcmAudio {
    pub channels: Vec<Vec<i32>>,
    pub bits_per_sample: u16,
    pub sample_rate: SampleRate,
}

/// The mathematical content of a [`PcmAudio`].
pub struct PcmModel {
    pub channels: Seq<Seq<i32>>,
    pub bits_per_sample: u16,
    pub sample_rate: SampleRate,
}

impl PcmAudio {
    pub open spec fn model(&self) -> PcmModel {
        PcmModel {
            channels: self.channels@.map_values(|c: Vec<i32>| c@),
            bits_per_sample: self.bits_per_sample,
            sample_rate: self.sample_rate,
        }
    }

    /// Number of sample frames (length of the first channel).
    pub fn num_frames(&self) -> (r: usize)
        ensures
            r == (if self.channels@.len() == 0 { 0 } else { self.channels@[0]@.len() as int }),
    {
        if self.channels.len() == 0 {
            0
        } else {
            self.channels[0].len()
        }
    }

    /// Number of channels.
    pub fn num_channels(&self) -> (r: usize)
        ensures
            r == self.channels@.len(),
    {
        self.channels.len()
    }
}

/// What parsing a container yields: the audio, or a rejection of the file as
/// malformed or as using an unsupported encoding, each with its message.
pub enum ParseOutcome {
    Parsed(PcmModel),
    Malformed(Seq<char>),
    Unsupported(Seq<char>),
}

/// Bytes per sample for a supported bit depth (8, 16 or 24), else `None`.
pub open spec fn bytes_per_sample(bits: u16) -> Option<int> {
    if bits == 8 {
        Some(1)
    } else if bits == 16 {
        Some(2)
    } else if bits == 24 {
        Some(3)
    } else {
        None
    }
}

/// `d[i + 2] d[i + 1] d[i]` as a two's-complement 24-bit number.
pub open spec fn signed24(b_low: u8, b_mid: u8, b_high: u8) -> int {
    let raw = b_low + 256 * b_mid + 65536 * b_high;
    if b_high >= 128 {
        raw - 16777216
    } else {
        raw
    }
}

/// The little-endian sample at `d[i..]`: 8-bit samples are unsigned with
/// their centre at 128, wider ones are two's complement.
pub open spec fn decode_le(d: Seq<u8>, i: int, bits: u16) -> int {
    if bits == 8 {
        d[i] - 128
    } else if bits == 16 {
        if d[i + 1] >= 128 {
            le_u16(d, i) - 65536
        } else {
            le_u16(d, i)
        }
    } else if bits == 24 {
        signed24(d[i], d[i + 1], d[i + 2])
    } else {
        0
    }
}

/// The big-endian two's-complement sample at `d[i..]`.
pub open spec fn decode_be(d: Seq<u8>, i: int, bits: u16) -> int {
    if bits == 8 {
        if d[i] >= 128 {
            d[i] - 256
        } else {
            d[i] as int
        }
    } else if bits == 16 {
        if d[i] >= 128 {
            be_u16(d, i) - 65536
        } else {
            be_u16(d, i)
        }
    } else if bits == 24 {
        signed24(d[i + 2], d[i + 1], d[i])
    } else {
        0
    }
}

/// Interleaved frames read from `d`: `n_ch` channels of `frames` samples,
/// sample `f` of channel `c` at `start + f * n_ch * bps + c * bps`.
pub open spec fn deinterleave(
    d: Seq<u8>,
    start: int,
    n_ch: int,
    frames: int,
    bps: int,
    bits: u16,
    big_endian: bool,
) -> Seq<Seq<i32>> {
    Seq::new(
        n_ch as nat,
        |c: int|
            Seq::new(
                frames as nat,
                |f: int|
                    {
                        let i = start + f * (n_ch * bps) + c * bps;
                        (if big_endian {
                            decode_be(d, i, bits)
                        } else {
                            decode_le(d, i, bits)
                        }) as i32
                    },
            ),
    )
}

/// Decode the little-endian sample of `bit_depth` bits at `data[i..]`
/// (zero for a bit depth other than 8, 16 and 24, which reads no byte).
pub fn decode_sample_le(data: &[u8], i: usize, bit_depth: u16) -> (r: i32)
    requires
        bytes_per_sample(bit_depth) is Some ==> i + bytes_per_sample(bit_depth)->0 <= data.len(),
    ensures
        r == decode_le(data@, i as int, bit_depth),
{
    if bit_depth == 8 {
        data[i] as i32 - 128
    } else if bit_depth == 16 {
        let raw = data[i] as i32 + (data[i + 1] as i32) * 256;
        if data[i + 1] >= 128 {
            raw - 65536
        } else {
            raw
        }
    } else if bit_depth == 24 {
        let raw = data[i] as i32 + (data[i + 1] as i32) * 256 + (data[i + 2] as i32) * 65536;
        if data[i + 2] >= 128 {
            raw - 16777216
        } else {
            raw
        }
    } else {
        0
    }
}

/// Decode the big-endian sample of `bit_depth` bits at `data[i..]`
/// (zero for a bit depth other than 8, 16 and 24, which reads no byte).
pub fn decode_sample_be(data: &[u8], i: usize, bit_depth: u16) -> (r: i32)
    requires
        bytes_per_sample(bit_depth) is Some ==> i + bytes_per_sample(bit_depth)->0 <= data.len(),
    ensures
        r == decode_be(data@, i as int, bit_depth),
{
    if bit_depth == 8 {
        let raw = data[i] as i32;
        if data[i] >= 128 {
            raw - 256
        } else {
            raw
        }
    } else if bit_depth == 16 {
        let raw = (data[i] as i32) * 256 + data[i + 1] as i32;
        if data[i] >= 128 {
            raw - 65536
        } else {
            raw
        }
    } else if bit_depth == 24 {
        let raw = (data[i] as i32) * 65536 + (data[i + 1] as i32) * 256 + data[i + 2] as i32;
        if data[i] >= 128 {
            raw - 16777216
        } else {
            raw
        }
    } else {
        0
    }
}

proof fn lemma_frame_index(f: int, c: int, frames: int, n_ch: int, bps: int, len: int)
    by (nonlinear_arith)
    requires
        0 <= f < frames,
        0 <= c < n_ch,
        1 <= bps,
        frames * (n_ch * bps) <= len,
    ensures
        0 <= f * (n_ch * bps) + c * bps,
        n_ch * bps <= len,
        f * (n_ch * bps) <= len,
        f * (n_ch * bps) + c * bps + bps <= len,
{
    assert(c * bps + bps <= n_ch * bps);
    assert((f + 1) * (n_ch * bps) <= frames * (n_ch * bps));
}

/// De-interleave `frames` frames of `n_ch` channels of `bps`-byte samples that
/// start at `data[start..]`.
pub(crate) fn read_frames(
    data: &[u8],
    start: usize,
    n_ch: usize,
    frames: usize,
    bps: usize,
    bits: u16,
    big_endian: bool,
) -> (r: Vec<Vec<i32>>)
    requires
        bytes_per_sample(bits) == Some(bps as int),
        start + frames * (n_ch * bps) <= data.len(),
    ensures
        r@.map_values(|c: Vec<i32>| c@) == deinterleave(
            data@,
            start as int,
            n_ch as int,
            frames as int,
            bps as int,
            bits,
            big_endian,
        ),
{
    let ghost spec_r = deinterleave(
        data@,
        start as int,
        n_ch as int,
        frames as int,
        bps as int,
        bits,
        big_endian,
    );
    let mut channels: Vec<Vec<i32>> = Vec::new();
    let mut c: usize = 0;
    while c < n_ch
        invariant
            c <= n_ch,
            bytes_per_sample(bits) == Some(bps as int),
            start + frames * (n_ch * bps) <= data.len(),
            spec_r == deinterleave(
                data@,
                start as int,
                n_ch as int,
                frames as int,
                bps as int,
                bits,
                big_endian,
            ),
            channels@.len() == c,
            forall|k: int| 0 <= k < c ==> (#[trigger] channels@[k])@ == spec_r[k],
        decreases n_ch - c,
    {
        let mut chan: Vec<i32> = Vec::new();
        let mut f: usize = 0;
        while f < frames
            invariant
                c < n_ch,
                f <= frames,
                bytes_per_sample(bits) == Some(bps as int),
                start + frames * (n_ch * bps) <= data.len(),
                spec_r == deinterleave(
                    data@,
                    start as int,
                    n_ch as int,
                    frames as int,
                    bps as int,
                    bits,
                    big_endian,
                ),
                chan@.len() == f,
                forall|j: int| 0 <= j < f ==> #[trigger] chan@[j] == spec_r[c as int][j],
            decreases frames - f,
        {
            proof {
                lemma_frame_index(
                    f as int,
                    c as int,
                    frames as int,
                    n_ch as int,
                    bps as int,
                    data.len() - start,
                );
            }
            let i = start + f * (n_ch * bps) + c * bps;
            let s = if big_endian {
                decode_sample_be(data, i, bits)
            } else {
                decode_sample_le(data, i, bits)
            };
            chan.push(s);
            f = f + 1;
        }
        assert(chan@ =~= spec_r[c as int]);
        channels.push(chan);
        c = c + 1;
    }
    assert(channels@.map_values(|v: Vec<i32>| v@) =~= spec_r);
    channels
}

} // verus!

verus! {

/// `r` is what parsing answers for the outcome `o`: the audio with the
/// model's content, or the error variant with the model's message.
pub open spec fn outcome_matches(r: &Result<PcmAudio, crate::audio::error::AudioIoError>, o: ParseOutcome) -> bool {
    match o {
        ParseOutcome::Parsed(m) => r matches Ok(a) && a.model() == m,
        ParseOutcome::Malformed(msg) => r matches Err(
            crate::audio::error::AudioIoError::MalformedFile(s),
        ) && s@ == msg,
        ParseOutcome::Unsupported(msg) => r matches Err(
            crate::audio::error::AudioIoError::UnsupportedEncoding(s),
        ) && s@ == msg,
    }
}

} // verus!

verus! {

/// `2^(bits - 1)`, the magnitude that full-scale samples of a supported bit
/// depth reach: dividing by it normalises a sample to `[-1, 1)`.
pub open spec fn full_scale(bits: u16) -> int {
    if bits == 8 {
        128
    } else if bits == 16 {
        32768
    } else {
        8388608
    }
}

/// Every sample of the audio lies in `[-full_scale, full_scale)` for its bit depth.
pub open spec fn within_full_scale(m: PcmModel) -> bool {
    forall|c: int, f: int|
        0 <= c < m.channels.len() && 0 <= f < m.channels[c].len() ==> -full_scale(
            m.bits_per_sample,
        ) <= #[trigger] m.channels[c][f] < full_scale(m.bits_per_sample)
}

/// A decoded sample of a supported bit depth lies in `[-2^(bits-1), 2^(bits-1))`.
pub proof fn lemma_sample_within_full_scale(d: Seq<u8>, i: int, bits: u16)
    requires
        bytes_per_sample(bits) is Some,
    ensures
        -full_scale(bits) <= decode_le(d, i, bits) < full_scale(bits),
        -full_scale(bits) <= decode_be(d, i, bits) < full_scale(bits),
{
}

/// De-interleaved samples of a supported bit depth lie within full scale:
/// normalised by `full_scale`, every sample is in `[-1, 1)`.
pub proof fn lemma_deinterleave_within_full_scale(
    d: Seq<u8>,
    start: int,
    n_ch: int,
    frames: int,
    bps: int,
    bits: u16,
    big_endian: bool,
)
    requires
        bytes_per_sample(bits) is Some,
    ensures
        within_full_scale(
            PcmModel {
                channels: deinterleave(d, start, n_ch, frames, bps, bits, big_endian),
                bits_per_sample: bits,
                sample_rate: SampleRate::Hz(0),
            },
        ),
{
    let ch = deinterleave(d, start, n_ch, frames, bps, bits, big_endian);
    assert forall|c: int, f: int| 0 <= c < ch.len() && 0 <= f < ch[c].len() implies -full_scale(
        bits,
    ) <= #[trigger] ch[c][f] < full_scale(bits) by {
        let i = start + f * (n_ch * bps) + c * bps;
        lemma_sample_within_full_scale(d, i, bits);
    }
}

/// The sample at frame `f`, channel `c` of interleaved frames lies within
/// the first `fit` whole frames of the sound data.
pub(crate) proof fn lemma_sample_in_sound(n_ch: int, frames: int, bps: int, fit: int, len: int, f: int, c: int)
    by (nonlinear_arith)
    requires
        0 <= f < frames,
        0 <= c < n_ch,
        1 <= bps,
        frames <= fit,
        fit * (n_ch * bps) <= len,
    ensures
        0 <= (f * n_ch + c) * bps,
        (f * n_ch + c) * bps + bps <= len,
        (f * n_ch + c) * bps == f * (n_ch * bps) + c * bps,
{
    assert((f * n_ch + c) * bps + bps <= (f + 1) * (n_ch * bps));
    assert((f + 1) * (n_ch * bps) <= fit * (n_ch * bps));
}

proof fn lemma_frame_within(start: int, n_ch: int, frames: int, bps: int, f: int, c: int)
    by (nonlinear_arith)
    requires
        0 <= f < frames,
        0 <= c < n_ch,
        1 <= bps,
    ensures
        start <= start + f * (n_ch * bps) + c * bps,
        start + f * (n_ch * bps) + c * bps + bps <= start + frames * (n_ch * bps),
{
    assert(f * (n_ch * bps) + c * bps + bps <= f * (n_ch * bps) + n_ch * bps);
    assert(f * (n_ch * bps) + n_ch * bps == (f + 1) * (n_ch * bps));
    assert((f + 1) * (n_ch * bps) <= frames * (n_ch * bps));
}

/// Frames read from bytes that were moved `l` on are the same frames.
pub(crate) proof fn lemma_deinterleave_shifted(
    d: Seq<u8>,
    d2: Seq<u8>,
    l: int,
    start: int,
    n_ch: int,
    frames: int,
    bits: u16,
    big_endian: bool,
)
    requires
        bytes_per_sample(bits) is Some,
        0 <= n_ch,
        0 <= frames,
        forall|j: int|
            start <= j < start + frames * (n_ch * bytes_per_sample(bits)->0) ==> #[trigger] d[j]
                == d2[j + l],
    ensures
        deinterleave(d2, start + l, n_ch, frames, bytes_per_sample(bits)->0, bits, big_endian)
            == deinterleave(d, start, n_ch, frames, bytes_per_sample(bits)->0, bits, big_endian),
{
    let bps = bytes_per_sample(bits)->0;
    let x = deinterleave(d2, start + l, n_ch, frames, bps, bits, big_endian);
    let y = deinterleave(d, start, n_ch, frames, bps, bits, big_endian);
    assert forall|c: int| 0 <= c < n_ch implies x[c] =~= y[c] by {
        assert forall|f: int| 0 <= f < frames implies x[c][f] == y[c][f] by {
            let i = start + f * (n_ch * bps) + c * bps;
            lemma_frame_within(start, n_ch, frames, bps, f, c);
            assert(start + l + f * (n_ch * bps) + c * bps == i + l);
            assert(d[i] == d2[i + l]);
            if bps >= 2 {
                assert(d[i + 1] == d2[i + 1 + l]);
            }
            if bps >= 3 {
                assert(d[i + 2] == d2[i + 2 + l]);
            }
            assert(decode_le(d2, i + l, bits) == decode_le(d, i, bits));
            assert(decode_be(d2, i + l, bits) == decode_be(d, i, bits));
        }
    }
    assert(x =~= y);
}

} // verus!
