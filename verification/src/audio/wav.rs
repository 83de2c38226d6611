//! WAV (RIFF/WAVE) container parsing: uncompressed PCM, 8, 16 and 24 bits.

use vstd::prelude::*;
use crate::audio::bytes::{le_u16, le_u32, tag_at, read_le_u16, read_le_u32, has_tag, chunk_bytes,
    chunks_bytes, with_chunk_after_header, shifted_range};
use crate::audio::error::AudioIoError;
use crate::audio::messages::{wav_truncated_chunk_text, wav_format_tag_text, wav_bit_depth_text,
    wav_truncated_chunk_message, wav_format_tag_message, wav_bit_depth_message};
use crate::audio::pcm::{PcmAudio, PcmModel, ParseOutcome, SampleRate, bytes_per_sample, decode_le, lemma_sample_in_sound, lemma_deinterleave_shifted,
    deinterleave, outcome_matches, read_frames, within_full_scale, lemma_deinterleave_within_full_scale};

verus! {

/// The fields of a WAV `fmt ` chunk that decoding uses.
#[derive(Clone, Copy, Debug, PartialEq, Eq)]
pub struct WavFmt {
    pub format_tag: u16,
    pub num_channels: u16,
    pub sample_rate: u32,
    pub bits_per_sample: u16,
}

/// The `fmt ` fields of the chunk whose body starts at `d[body..]`.
pub open spec fn wav_fmt_at(d: Seq<u8>, body: int) -> WavFmt {
    WavFmt {
        format_tag: le_u16(d, body) as u16,
        num_channels: le_u16(d, body + 2) as u16,
        sample_rate: le_u32(d, body + 4) as u32,
        bits_per_sample: le_u16(d, body + 14) as u16,
    }
}

/// The chunk at `pos` is a `fmt ` chunk large enough to read.
pub open spec fn is_fmt_chunk(d: Seq<u8>, pos: int, size: int) -> bool {
    tag_at(d, pos, 0x66, 0x6d, 0x74, 0x20) && size >= 16
}

/// The chunk at `pos` is a `data` chunk.
pub open spec fn is_data_chunk(d: Seq<u8>, pos: int) -> bool {
    tag_at(d, pos, 0x64, 0x61, 0x74, 0x61)
}

/// The end of a walk over RIFF chunks: the last `fmt ` fields and the last
/// `data` byte range seen, or the position and declared size of the first
/// chunk that runs past the end of the file.
pub enum WavWalk {
    Done(Option<WavFmt>, Option<(int, int)>),
    Truncated(int, int),
}

/// Walk the RIFF chunks from `pos` on. A chunk is an 8-byte header (tag,
/// little-endian body size) and a body padded to even length; the walk
/// ends when fewer than 8 bytes remain.
pub open spec fn wav_walk(d: Seq<u8>, pos: int, fmt: Option<WavFmt>, audio: Option<(int, int)>) -> WavWalk
    decreases d.len() + 1 - pos,
{
    if pos < 0 || pos + 8 > d.len() {
        WavWalk::Done(fmt, audio)
    } else {
        let size = le_u32(d, pos + 4);
        let body = pos + 8;
        if body + size > d.len() {
            WavWalk::Truncated(pos, size)
        } else {
            let f = is_fmt_chunk(d, pos, size);
            wav_walk(
                d,
                body + size + size % 2,
                if f {
                    Some(wav_fmt_at(d, body))
                } else {
                    fmt
                },
                if !f && is_data_chunk(d, pos) {
                    Some((body, body + size))
                } else {
                    audio
                },
            )
        }
    }
}

/// The file starts with a RIFF header of form type `WAVE`.
pub open spec fn has_wav_header(d: Seq<u8>) -> bool {
    d.len() >= 12 && tag_at(d, 0, 0x52, 0x49, 0x46, 0x46) && tag_at(d, 8, 0x57, 0x41, 0x56, 0x45)
}

/// What a WAV file decodes to. After the header and the chunk walk, the
/// checks in order: a `fmt ` chunk, format tag 1 (PCM), a `data` chunk, and a
/// bit depth of 8, 16 or 24. Then the data bytes hold as many whole frames
/// as fit, interleaved little-endian.
pub open spec fn wav_outcome(d: Seq<u8>) -> ParseOutcome {
    if !has_wav_header(d) {
        ParseOutcome::Malformed("not a valid WAV file"@)
    } else {
        match wav_walk(d, 12, None, None) {
            WavWalk::Truncated(pos, size) => ParseOutcome::Malformed(
                wav_truncated_chunk_text(
                    d.subrange(pos, pos + 4),
                    size as nat,
                    (d.len() - (pos + 8)) as nat,
                ),
            ),
            WavWalk::Done(fmt, audio) => {
                if fmt is None {
                    ParseOutcome::Malformed("WAV file missing fmt chunk"@)
                } else if fmt->0.format_tag != 1 {
                    ParseOutcome::Unsupported(wav_format_tag_text(fmt->0.format_tag))
                } else if audio is None {
                    ParseOutcome::Malformed("WAV file missing data chunk"@)
                } else if bytes_per_sample(fmt->0.bits_per_sample) is None {
                    ParseOutcome::Unsupported(wav_bit_depth_text(fmt->0.bits_per_sample))
                } else {
                    let bits = fmt->0.bits_per_sample;
                    let bps = bytes_per_sample(bits)->0;
                    let n_ch = fmt->0.num_channels as int;
                    let (start, end) = audio->0;
                    let frame_size = bps * n_ch;
                    let frames = if frame_size == 0 {
                        0
                    } else {
                        (end - start) / frame_size
                    };
                    ParseOutcome::Parsed(
                        PcmModel {
                            channels: deinterleave(d, start, n_ch, frames, bps, bits, false),
                            bits_per_sample: bits,
                            sample_rate: SampleRate::Hz(fmt->0.sample_rate),
                        },
                    )
                }
            },
        }
    }
}

spec fn range_view(r: Option<(usize, usize)>) -> Option<(int, int)> {
    match r {
        Some((a, b)) => Some((a as int, b as int)),
        None => None,
    }
}

fn read_wav_fmt(d: &[u8], body: usize) -> (r: WavFmt)
    requires
        body + 16 <= d.len(),
    ensures
        r == wav_fmt_at(d@, body as int),
{
    WavFmt {
        format_tag: read_le_u16(d, body),
        num_channels: read_le_u16(d, body + 2),
        sample_rate: read_le_u32(d, body + 4),
        bits_per_sample: read_le_u16(d, body + 14),
    }
}

/// Walk the chunks of a file with a valid header: the last `fmt ` fields and
/// `data` range, or the position and size of a truncated chunk.
fn walk_wav_chunks(data: &[u8]) -> (r: Result<(Option<WavFmt>, Option<(usize, usize)>), (usize, u32)>)
    requires
        data.len() >= 12,
    ensures
        match r {
            Ok((f, a)) => wav_walk(data@, 12, None, None) == WavWalk::Done(f, range_view(a)) && (
            forall|q: (usize, usize)| a == Some(q) ==> q.0 <= q.1 <= data.len()),
            Err((p, s)) => wav_walk(data@, 12, None, None) == WavWalk::Truncated(p as int, s as int)
                && p + 8 <= data.len(),
        },
{
    let mut fmt: Option<WavFmt> = None;
    let mut audio: Option<(usize, usize)> = None;
    let mut pos: usize = 12;
    while pos <= data.len() && data.len() - pos >= 8
        invariant
            pos <= data.len(),
            forall|q: (usize, usize)| audio == Some(q) ==> q.0 <= q.1 <= data.len(),
            wav_walk(data@, 12, None, None) == wav_walk(data@, pos as int, fmt, range_view(audio)),
        decreases data.len() - pos,
    {
        let ghost old_pos = pos as int;
        let ghost old_fmt = fmt;
        let ghost old_audio = range_view(audio);
        let chunk_size = read_le_u32(data, pos + 4);
        let chunk_body = pos + 8;
        let rest = data.len() - chunk_body;
        if chunk_size as usize > rest {
            return Err((pos, chunk_size));
        }
        let size = chunk_size as usize;
        let f = has_tag(data, pos, 0x66, 0x6d, 0x74, 0x20) && size >= 16;
        if f {
            fmt = Some(read_wav_fmt(data, chunk_body));
        } else if has_tag(data, pos, 0x64, 0x61, 0x74, 0x61) {
            audio = Some((chunk_body, chunk_body + size));
        }
        let padded = size + size % 2;
        let ghost next = chunk_body + padded;
        assert(wav_walk(data@, old_pos, old_fmt, old_audio) == wav_walk(
            data@,
            next,
            fmt,
            range_view(audio),
        ));
        if padded > rest {
            pos = data.len();
            assert(wav_walk(data@, next, fmt, range_view(audio)) == WavWalk::Done(
                fmt,
                range_view(audio),
            ));
        } else {
            pos = chunk_body + padded;
        }
    }
    Ok((fmt, audio))
}

proof fn lemma_whole_frames(len: int, frame_size: int)
    by (nonlinear_arith)
    requires
        0 <= len,
        0 < frame_size,
    ensures
        0 <= (len / frame_size) * frame_size <= len,
        len / frame_size <= len,
{
}

/// Parse WAV data from a byte slice.
pub fn parse_wav(data: &[u8]) -> (r: Result<PcmAudio, AudioIoError>)
    ensures
        outcome_matches(&r, wav_outcome(data@)),
{
    if data.len() < 12 || !has_tag(data, 0, 0x52, 0x49, 0x46, 0x46) || !has_tag(
        data,
        8,
        0x57,
        0x41,
        0x56,
        0x45,
    ) {
        return Err(AudioIoError::MalformedFile("not a valid WAV file".to_owned()));
    }
    let (fmt, audio) = match walk_wav_chunks(data) {
        Ok(found) => found,
        Err((pos, size)) => {
            let id = [data[pos], data[pos + 1], data[pos + 2], data[pos + 3]];
            assert(id@ =~= data@.subrange(pos as int, pos + 4));
            let remaining = data.len() - (pos + 8);
            return Err(
                AudioIoError::MalformedFile(
                    wav_truncated_chunk_message(id, size, remaining),
                ),
            );
        },
    };
    let fmt = match fmt {
        Some(f) => f,
        None => {
            return Err(AudioIoError::MalformedFile("WAV file missing fmt chunk".to_owned()));
        },
    };
    if fmt.format_tag != 1 {
        return Err(AudioIoError::UnsupportedEncoding(wav_format_tag_message(fmt.format_tag)));
    }
    let (start, end) = match audio {
        Some(range) => range,
        None => {
            return Err(AudioIoError::MalformedFile("WAV file missing data chunk".to_owned()));
        },
    };
    let bits = fmt.bits_per_sample;
    let bps: usize = if bits == 8 {
        1
    } else if bits == 16 {
        2
    } else if bits == 24 {
        3
    } else {
        return Err(AudioIoError::UnsupportedEncoding(wav_bit_depth_message(bits)));
    };
    let n_ch = fmt.num_channels as usize;
    assert(bps * n_ch <= 3 * 65535) by (nonlinear_arith)
        requires
            1 <= bps <= 3,
            n_ch <= 65535,
    ;
    let frame_size = bps * n_ch;
    let frames = if frame_size == 0 {
        0
    } else {
        proof {
            lemma_whole_frames((end - start) as int, frame_size as int);
        }
        assert((((end - start) as int) / (frame_size as int)) * frame_size <= end - start);
        (end - start) / frame_size
    };
    assert(frames * (n_ch * bps) <= end - start) by (nonlinear_arith)
        requires
            frame_size == bps * n_ch,
            frame_size == 0 ==> frames == 0,
            frame_size > 0 ==> frames * frame_size <= end - start,
            start <= end,
    ;
    let channels = read_frames(data, start, n_ch, frames, bps, bits, false);
    Ok(PcmAudio { channels, bits_per_sample: bits, sample_rate: SampleRate::Hz(fmt.sample_rate) })
}

} // verus!

verus! {

/// The samples a WAV file decodes to are normalised: each lies within the
/// full scale of the file's bit depth.
pub proof fn lemma_wav_samples_within_full_scale(d: Seq<u8>)
    ensures
        wav_outcome(d) matches ParseOutcome::Parsed(m) ==> within_full_scale(m),
{
    if let ParseOutcome::Parsed(m) = wav_outcome(d) {
        if let WavWalk::Done(fmt, audio) = wav_walk(d, 12, None, None) {
            let bits = fmt->0.bits_per_sample;
            let bps = bytes_per_sample(bits)->0;
            let n_ch = fmt->0.num_channels as int;
            let (start, end) = audio->0;
            let frame_size = bps * n_ch;
            let frames = if frame_size == 0 {
                0
            } else {
                (end - start) / frame_size
            };
            lemma_deinterleave_within_full_scale(d, start, n_ch, frames, bps, bits, false);
        }
    }
}

} // verus!

verus! {

/// The chunk walk stays inside the file: a `data` range it ends with lies
/// after the header and within the file, and a truncated chunk's header does.
proof fn lemma_walk_in_bounds(d: Seq<u8>, lo: int, p: int, f: Option<WavFmt>, a: Option<(int, int)>)
    requires
        0 <= lo <= p,
        a matches Some((s, e)) ==> lo <= s <= e <= d.len(),
    ensures
        match wav_walk(d, p, f, a) {
            WavWalk::Done(_, a1) => a1 matches Some((s, e)) ==> lo <= s <= e <= d.len(),
            WavWalk::Truncated(q, _) => lo <= q && q + 8 <= d.len(),
        },
    decreases d.len() + 1 - p,
{
    if p + 8 <= d.len() {
        let size = le_u32(d, p + 4);
        let body = p + 8;
        if body + size <= d.len() {
            let fm = is_fmt_chunk(d, p, size);
            lemma_walk_in_bounds(
                d,
                lo,
                body + size + size % 2,
                if fm {
                    Some(wav_fmt_at(d, body))
                } else {
                    f
                },
                if !fm && is_data_chunk(d, p) {
                    Some((body, body + size))
                } else {
                    a
                },
            );
        }
    }
}

/// Walking `d2`, which holds the bytes of `d` from `lo` on `l` bytes
/// further on, from `p + l` ends as walking `d` from `p` does, moved `l` on.
proof fn lemma_walk_shifted(
    d: Seq<u8>,
    d2: Seq<u8>,
    lo: int,
    l: int,
    p: int,
    f: Option<WavFmt>,
    a: Option<(int, int)>,
)
    requires
        l >= 0,
        12 <= lo <= p,
        d2.len() == d.len() + l,
        forall|j: int| lo <= j < d.len() ==> #[trigger] d[j] == d2[j + l],
    ensures
        match wav_walk(d, p, f, a) {
            WavWalk::Done(f1, a1) => wav_walk(d2, p + l, f, shifted_range(a, l)) == WavWalk::Done(
                f1,
                shifted_range(a1, l),
            ),
            WavWalk::Truncated(q, s) => wav_walk(d2, p + l, f, shifted_range(a, l))
                == WavWalk::Truncated(q + l, s),
        },
    decreases d.len() + 1 - p,
{
    if p + 8 <= d.len() {
        let size = le_u32(d, p + 4);
        let body = p + 8;
        assert(d[p] == d2[p + l] && d[p + 1] == d2[p + 1 + l] && d[p + 2] == d2[p + 2 + l] && d[p
            + 3] == d2[p + 3 + l]);
        assert(d[p + 4] == d2[p + 4 + l] && d[p + 5] == d2[p + 5 + l] && d[p + 6] == d2[p + 6 + l]
            && d[p + 7] == d2[p + 7 + l]);
        assert(le_u32(d2, p + l + 4) == size);
        if body + size <= d.len() {
            let fm = is_fmt_chunk(d, p, size);
            assert(fm == is_fmt_chunk(d2, p + l, size));
            assert(is_data_chunk(d, p) == is_data_chunk(d2, p + l));
            if fm {
                assert(d[body] == d2[body + l] && d[body + 1] == d2[body + 1 + l]);
                assert(d[body + 2] == d2[body + 2 + l] && d[body + 3] == d2[body + 3 + l]);
                assert(d[body + 4] == d2[body + 4 + l] && d[body + 5] == d2[body + 5 + l]);
                assert(d[body + 6] == d2[body + 6 + l] && d[body + 7] == d2[body + 7 + l]);
                assert(d[body + 14] == d2[body + 14 + l] && d[body + 15] == d2[body + 15 + l]);
                assert(wav_fmt_at(d2, body + l) == wav_fmt_at(d, body));
            }
            let f1 = if fm {
                Some(wav_fmt_at(d, body))
            } else {
                f
            };
            let a1 = if !fm && is_data_chunk(d, p) {
                Some((body, body + size))
            } else {
                a
            };
            lemma_walk_shifted(d, d2, lo, l, body + size + size % 2, f1, a1);
        }
    }
}

/// Chunks other than `fmt ` and `data` are skipped, each with the pad byte
/// after an odd-sized body: inserting such a chunk after the header of a
/// file (of at least 12 bytes) leaves what the file decodes to unchanged.
pub proof fn lemma_wav_skips_unknown_chunk(
    d: Seq<u8>,
    id: Seq<u8>,
    size: Seq<u8>,
    body: Seq<u8>,
    pad: u8,
)
    requires
        d.len() >= 12,
        id.len() == 4,
        size.len() == 4,
        body.len() == le_u32(size, 0),
        !tag_at(id, 0, 0x66, 0x6d, 0x74, 0x20),
        !tag_at(id, 0, 0x64, 0x61, 0x74, 0x61),
    ensures
        wav_outcome(with_chunk_after_header(d, chunk_bytes(id, size, body, pad))) == wav_outcome(d),
{
    let c = chunk_bytes(id, size, body, pad);
    let d2 = with_chunk_after_header(d, c);
    let n = body.len() as int;
    let l = c.len() as int;
    assert(l == 8 + n + n % 2);
    assert(d2.len() == d.len() + l);
    assert forall|j: int| 0 <= j < 12 implies d2[j] == d[j] by {}
    assert forall|k: int| 0 <= k < 4 implies d2[12 + k] == id[k] && d2[16 + k] == size[k] by {
        assert(c[k] == id[k]);
        assert(c[4 + k] == size[k]);
    }
    assert forall|j: int| 12 <= j < d.len() implies #[trigger] d[j] == d2[j + l] by {}
    assert(le_u32(d2, 16) == n);
    assert(!is_fmt_chunk(d2, 12, n));
    assert(!is_data_chunk(d2, 12));
    assert(wav_walk(d2, 12, None, None) == wav_walk(d2, 12 + l, None, None));
    assert(has_wav_header(d2) == has_wav_header(d));
    lemma_walk_shifted(d, d2, 12, l, 12, None, None);
    lemma_walk_in_bounds(d, 12, 12, None, None);
    if has_wav_header(d) {
        match wav_walk(d, 12, None, None) {
            WavWalk::Truncated(q, s) => {
                assert(d2.subrange(q + l, q + l + 4) =~= d.subrange(q, q + 4));
            },
            WavWalk::Done(fmt, audio) => {
                if fmt is Some && fmt->0.format_tag == 1 && audio is Some && bytes_per_sample(
                    fmt->0.bits_per_sample,
                ) is Some {
                    let bits = fmt->0.bits_per_sample;
                    let bps = bytes_per_sample(bits)->0;
                    let n_ch = fmt->0.num_channels as int;
                    let (start, end) = audio->0;
                    let frame_size = bps * n_ch;
                    let frames = if frame_size == 0 {
                        0
                    } else {
                        (end - start) / frame_size
                    };
                    assert(frames * (n_ch * bps) == frames * frame_size) by (nonlinear_arith)
                        requires
                            frame_size == bps * n_ch,
                    ;
                    if frame_size > 0 {
                        lemma_whole_frames(end - start, frame_size);
                    }
                    assert(frames >= 0 && frames * frame_size <= end - start);
                    lemma_deinterleave_shifted(d, d2, l, start, n_ch, frames, bits, false);
                }
            },
        }
    }
}

/// Decoded WAV audio is the last `fmt ` chunk's layout applied to the bytes
/// of the last `data` chunk: as many channels as `fmt ` declares, each with
/// as many whole frames as the data holds (a partial trailing frame is
/// dropped); sample `f` of channel `c` is the little-endian sample at byte
/// `(f * channels + c) * bytes_per_sample` of the data; the bit depth and
/// the sample rate in hertz are those `fmt ` gives.
pub proof fn lemma_wav_layout(d: Seq<u8>)
    ensures
        wav_outcome(d) matches ParseOutcome::Parsed(m) ==> wav_walk(d, 12, None, None) matches WavWalk::Done(
            Some(fmt),
            Some((start, end)),
        ) && ({
            let bits = fmt.bits_per_sample;
            let bps = bytes_per_sample(bits)->0;
            let n_ch = fmt.num_channels as int;
            let sound = d.subrange(start, end);
            &&& m.channels.len() == n_ch
            &&& m.bits_per_sample == bits
            &&& m.sample_rate == SampleRate::Hz(fmt.sample_rate)
            &&& forall|c: int|
                0 <= c < n_ch ==> (#[trigger] m.channels[c]).len() == (end - start) / (n_ch * bps)
            &&& forall|c: int, f: int|
                0 <= c < n_ch && 0 <= f < m.channels[c].len() ==> #[trigger] m.channels[c][f]
                    == decode_le(sound, (f * n_ch + c) * bps, bits) as i32
        }),
{
    if let ParseOutcome::Parsed(m) = wav_outcome(d) {
        lemma_walk_in_bounds(d, 12, 12, None, None);
        if let WavWalk::Done(fmt, audio) = wav_walk(d, 12, None, None) {
            let bits = fmt->0.bits_per_sample;
            let bps = bytes_per_sample(bits)->0;
            let n_ch = fmt->0.num_channels as int;
            let (start, end) = audio->0;
            let sound = d.subrange(start, end);
            let frame_size = bps * n_ch;
            assert(frame_size == n_ch * bps) by (nonlinear_arith)
                requires
                    frame_size == bps * n_ch,
            ;
            if n_ch > 0 {
                let frames = (end - start) / frame_size;
                assert(frame_size > 0) by (nonlinear_arith)
                    requires
                        frame_size == n_ch * bps,
                        n_ch > 0,
                        bps >= 1,
                ;
                assert(frames * (n_ch * bps) <= end - start) by (nonlinear_arith)
                    requires
                        frames == (end - start) / frame_size,
                        frame_size == n_ch * bps,
                        frame_size > 0,
                        start <= end,
                ;
                assert forall|c: int, f: int|
                    0 <= c < n_ch && 0 <= f < m.channels[c].len() implies #[trigger] m.channels[c][f]
                        == decode_le(sound, (f * n_ch + c) * bps, bits) as i32 by {
                    lemma_sample_in_sound(n_ch, frames, bps, frames, end - start, f, c);
                    let k = (f * n_ch + c) * bps;
                    assert(sound[k] == d[start + k]);
                    if bps >= 2 {
                        assert(sound[k + 1] == d[start + k + 1]);
                    }
                    if bps >= 3 {
                        assert(sound[k + 2] == d[start + k + 2]);
                    }
                    assert(decode_le(sound, k, bits) == decode_le(d, start + k, bits));
                }
            }
        }
    }
}

/// Two files whose first 12 bytes agree, and whose bytes from `lo` on are
/// the same but `l` further on in `d2`, decode alike when their chunk walks
/// reach `q` and `q + l` with the same `fmt ` fields and no `data` range.
proof fn lemma_outcome_after_shift(
    d: Seq<u8>,
    d2: Seq<u8>,
    lo: int,
    l: int,
    q: int,
    f: Option<WavFmt>,
)
    requires
        12 <= lo <= q,
        l >= 0,
        d.len() >= 12,
        d2.len() == d.len() + l,
        forall|j: int| 0 <= j < 12 ==> d2[j] == d[j],
        forall|j: int| lo <= j < d.len() ==> #[trigger] d[j] == d2[j + l],
        wav_walk(d, 12, None, None) == wav_walk(d, q, f, None),
        wav_walk(d2, 12, None, None) == wav_walk(d2, q + l, f, None),
    ensures
        wav_outcome(d2) == wav_outcome(d),
{
    assert(has_wav_header(d2) == has_wav_header(d)) by {
        assert(d2[0] == d[0] && d2[1] == d[1] && d2[2] == d[2] && d2[3] == d[3]);
        assert(d2[8] == d[8] && d2[9] == d[9] && d2[10] == d[10] && d2[11] == d[11]);
    }
    lemma_walk_shifted(d, d2, lo, l, q, f, None);
    lemma_walk_in_bounds(d, lo, q, f, None);
    if has_wav_header(d) {
        match wav_walk(d, 12, None, None) {
            WavWalk::Truncated(p, sz) => {
                assert(d2.subrange(p + l, p + l + 4) =~= d.subrange(p, p + 4));
            },
            WavWalk::Done(fmt, audio) => {
                if fmt is Some && fmt->0.format_tag == 1 && audio is Some && bytes_per_sample(
                    fmt->0.bits_per_sample,
                ) is Some {
                    let bits = fmt->0.bits_per_sample;
                    let bps = bytes_per_sample(bits)->0;
                    let n_ch = fmt->0.num_channels as int;
                    let (start, end) = audio->0;
                    let frame_size = bps * n_ch;
                    let frames = if frame_size == 0 {
                        0
                    } else {
                        (end - start) / frame_size
                    };
                    assert(frames * (n_ch * bps) == frames * frame_size) by (nonlinear_arith)
                        requires
                            frame_size == bps * n_ch,
                    ;
                    if frame_size > 0 {
                        lemma_whole_frames(end - start, frame_size);
                    }
                    assert(frames >= 0 && frames * frame_size <= end - start);
                    lemma_deinterleave_shifted(d, d2, l, start, n_ch, frames, bits, false);
                }
            },
        }
    }
}

/// A `fmt ` chunk is read whatever its declared size, as long as it holds
/// the 16 bytes of fields: a `fmt ` chunk that carries more bytes after its
/// fields (such as the `cbSize` of a WAVEFORMATEX), with its declared size
/// grown to match and a pad byte after an odd body, decodes as the same
/// file with a 16-byte `fmt ` chunk.
pub proof fn lemma_wav_fmt_extension(
    header: Seq<u8>,
    id: Seq<u8>,
    size16: Seq<u8>,
    fields: Seq<u8>,
    size: Seq<u8>,
    extra: Seq<u8>,
    pad: u8,
    rest: Seq<u8>,
)
    requires
        header.len() == 12,
        id.len() == 4,
        tag_at(id, 0, 0x66, 0x6d, 0x74, 0x20),
        size16.len() == 4,
        le_u32(size16, 0) == 16,
        fields.len() == 16,
        size.len() == 4,
        le_u32(size, 0) == 16 + extra.len(),
    ensures
        wav_outcome(header + chunk_bytes(id, size, fields + extra, pad) + rest) == wav_outcome(
            header + chunk_bytes(id, size16, fields, pad) + rest,
        ),
{
    let c0 = chunk_bytes(id, size16, fields, pad);
    let c1 = chunk_bytes(id, size, fields + extra, pad);
    let d = header + c0 + rest;
    let d2 = header + c1 + rest;
    let n = extra.len() as int;
    let l = n + n % 2;
    assert(c0.len() == 24);
    assert(c1.len() == 24 + l);
    assert forall|k: int| 0 <= k < 4 implies d[12 + k] == id[k] && d2[12 + k] == id[k] && d[16
        + k] == size16[k] && d2[16 + k] == size[k] by {
        assert(c0[k] == id[k] && c1[k] == id[k]);
        assert(c0[4 + k] == size16[k] && c1[4 + k] == size[k]);
    }
    assert forall|k: int| 0 <= k < 16 implies #[trigger] fields[k] == d[20 + k] && fields[k] == d2[20
        + k] by {
        assert(c0[8 + k] == fields[k]);
        assert((fields + extra)[k] == fields[k]);
        assert(c1[8 + k] == (fields + extra)[k]);
    }
    assert forall|j: int| 0 <= j < 12 implies d2[j] == d[j] by {}
    assert forall|j: int| 36 <= j < d.len() implies #[trigger] d[j] == d2[j + l] by {
        assert(d[j] == rest[j - 36]);
        assert(d2[j + l] == rest[j - 36]);
    }
    assert(le_u32(d, 16) == 16);
    assert(le_u32(d2, 16) == 16 + n);
    assert(is_fmt_chunk(d, 12, 16));
    assert(is_fmt_chunk(d2, 12, 16 + n));
    assert(fields[0] == d[20] && fields[1] == d[21] && fields[2] == d[22] && fields[3] == d[23]);
    assert(fields[4] == d[24] && fields[5] == d[25] && fields[6] == d[26] && fields[7] == d[27]);
    assert(fields[14] == d[34] && fields[15] == d[35]);
    let fmt = wav_fmt_at(d, 20);
    assert(wav_fmt_at(d2, 20) == fmt);
    assert(wav_walk(d, 12, None, None) == wav_walk(d, 36, Some(fmt), None));
    assert(wav_walk(d2, 12, None, None) == wav_walk(d2, 36 + l, Some(fmt), None));
    lemma_outcome_after_shift(d, d2, 36, l, 36, Some(fmt));
}

/// Every chunk of `cs` has a 4-byte tag, 4 size bytes and a body of the
/// size they declare, little-endian.
pub open spec fn whole_wav_chunks(cs: Seq<(Seq<u8>, Seq<u8>, Seq<u8>, u8)>) -> bool {
    forall|i: int|
        0 <= i < cs.len() ==> (#[trigger] cs[i]).0.len() == 4 && cs[i].1.len() == 4 && cs[i].2.len()
            == le_u32(cs[i].1, 0)
}

/// One step of the chunk walk over a whole chunk at `p`: it goes on after
/// the chunk and its pad byte, with the `fmt ` fields of its body if it is a
/// `fmt ` chunk of at least 16 bytes, or the range of its body if it is a
/// `data` chunk.
proof fn lemma_chunk_step(
    d: Seq<u8>,
    p: int,
    id: Seq<u8>,
    size: Seq<u8>,
    body: Seq<u8>,
    pad: u8,
    f: Option<WavFmt>,
    a: Option<(int, int)>,
)
    requires
        0 <= p,
        id.len() == 4,
        size.len() == 4,
        body.len() == le_u32(size, 0),
        p + chunk_bytes(id, size, body, pad).len() <= d.len(),
        forall|k: int|
            0 <= k < chunk_bytes(id, size, body, pad).len() ==> d[p + k] == #[trigger] chunk_bytes(
                id,
                size,
                body,
                pad,
            )[k],
    ensures
        ({
            let n = body.len() as int;
            let fm = is_fmt_chunk(id, 0, n);
            wav_walk(d, p, f, a) == wav_walk(
                d,
                p + chunk_bytes(id, size, body, pad).len(),
                if fm {
                    Some(wav_fmt_at(body, 0))
                } else {
                    f
                },
                if !fm && is_data_chunk(id, 0) {
                    Some((p + 8, p + 8 + n))
                } else {
                    a
                },
            )
        }),
{
    let c = chunk_bytes(id, size, body, pad);
    let n = body.len() as int;
    assert(c.len() == 8 + n + n % 2);
    assert forall|k: int| 0 <= k < 4 implies d[p + k] == id[k] && d[p + 4 + k] == size[k] by {
        assert(c[k] == id[k]);
        assert(c[4 + k] == size[k]);
    }
    assert forall|k: int| 0 <= k < n implies d[p + 8 + k] == #[trigger] body[k] by {
        assert(c[8 + k] == body[k]);
    }
    assert(le_u32(d, p + 4) == n);
    assert(is_fmt_chunk(d, p, n) == is_fmt_chunk(id, 0, n));
    assert(is_data_chunk(d, p) == is_data_chunk(id, 0));
    if is_fmt_chunk(id, 0, n) {
        assert(d[p + 8] == body[0] && d[p + 9] == body[1] && d[p + 10] == body[2] && d[p + 11]
            == body[3]);
        assert(d[p + 12] == body[4] && d[p + 13] == body[5] && d[p + 14] == body[6] && d[p + 15]
            == body[7]);
        assert(d[p + 22] == body[14] && d[p + 23] == body[15]);
        assert(wav_fmt_at(d, p + 8) == wav_fmt_at(body, 0));
    }
}

/// Walking whole chunks after `x` ends on their last byte, and whatever
/// follows them, the walk reaches the end of the chunks with what it found
/// in them.
proof fn lemma_walk_whole_chunks(
    x: Seq<u8>,
    cs: Seq<(Seq<u8>, Seq<u8>, Seq<u8>, u8)>,
    t: Seq<u8>,
    f: Option<WavFmt>,
    a: Option<(int, int)>,
)
    requires
        whole_wav_chunks(cs),
    ensures
        wav_walk(x + chunks_bytes(cs), x.len() as int, f, a) is Done,
        ({
            let pre = x + chunks_bytes(cs);
            match wav_walk(pre, x.len() as int, f, a) {
                WavWalk::Done(f1, a1) => wav_walk(pre + t, x.len() as int, f, a) == wav_walk(
                    pre + t,
                    pre.len() as int,
                    f1,
                    a1,
                ),
                WavWalk::Truncated(_, _) => true,
            }
        }),
    decreases cs.len(),
{
    let pre = x + chunks_bytes(cs);
    let d = pre + t;
    if cs.len() == 0 {
        assert(pre =~= x);
    } else {
        let (id, size, body, pad) = cs[0];
        let c = chunk_bytes(id, size, body, pad);
        let rest = cs.drop_first();
        assert(whole_wav_chunks(rest)) by {
            assert forall|i: int| 0 <= i < rest.len() implies (#[trigger] rest[i]).0.len() == 4
                && rest[i].1.len() == 4 && rest[i].2.len() == le_u32(rest[i].1, 0) by {
                assert(rest[i] == cs[i + 1]);
            }
        }
        assert(cs[0].0.len() == 4);
        let x1 = x + c;
        let r = chunks_bytes(rest);
        assert(pre =~= x1 + r);
        let p = x.len() as int;
        assert forall|k: int| 0 <= k < c.len() implies pre[p + k] == #[trigger] c[k] by {
            assert(x1[p + k] == c[k]);
        }
        assert forall|k: int| 0 <= k < c.len() implies d[p + k] == #[trigger] c[k] by {
            assert(pre[p + k] == c[k]);
        }
        lemma_chunk_step(pre, p, id, size, body, pad, f, a);
        lemma_chunk_step(d, p, id, size, body, pad, f, a);
        let n = body.len() as int;
        let fm = is_fmt_chunk(id, 0, n);
        let f1 = if fm {
            Some(wav_fmt_at(body, 0))
        } else {
            f
        };
        let a1 = if !fm && is_data_chunk(id, 0) {
            Some((p + 8, p + 8 + n))
        } else {
            a
        };
        lemma_walk_whole_chunks(x1, rest, t, f1, a1);
    }
}

/// Every chunk is followed by a pad byte when its body is odd, the `data`
/// chunk included: after a file made of a 12-byte header and whole chunks,
/// appending a chunk other than `fmt ` and `data` leaves what the file
/// decodes to unchanged.
pub proof fn lemma_wav_appended_chunk(
    header: Seq<u8>,
    cs: Seq<(Seq<u8>, Seq<u8>, Seq<u8>, u8)>,
    id: Seq<u8>,
    size: Seq<u8>,
    body: Seq<u8>,
    pad: u8,
)
    requires
        header.len() == 12,
        whole_wav_chunks(cs),
        id.len() == 4,
        size.len() == 4,
        body.len() == le_u32(size, 0),
        !tag_at(id, 0, 0x66, 0x6d, 0x74, 0x20),
        !tag_at(id, 0, 0x64, 0x61, 0x74, 0x61),
    ensures
        wav_outcome(header + chunks_bytes(cs) + chunk_bytes(id, size, body, pad)) == wav_outcome(
            header + chunks_bytes(cs),
        ),
{
    let pre = header + chunks_bytes(cs);
    let u = chunk_bytes(id, size, body, pad);
    let d = pre + u;
    lemma_walk_whole_chunks(header, cs, u, None, None);
    lemma_walk_in_bounds(pre, 12, 12, None, None);
    let p = pre.len() as int;
    let n = body.len() as int;
    assert(u.len() == 8 + n + n % 2);
    assert forall|k: int| 0 <= k < u.len() implies #[trigger] u[k] == d[p + k] by {}
    assert forall|k: int| 0 <= k < 4 implies id[k] == u[k] && size[k] == u[4 + k] by {}
    assert(le_u32(d, p + 4) == n);
    assert(!is_fmt_chunk(d, p, n));
    assert(!is_data_chunk(d, p));
    if let WavWalk::Done(f1, a1) = wav_walk(pre, 12, None, None) {
        assert(wav_walk(d, p, f1, a1) == wav_walk(d, d.len() as int, f1, a1));
        assert(wav_walk(d, 12, None, None) == wav_walk(pre, 12, None, None));
    }
    assert(has_wav_header(d) == has_wav_header(pre)) by {
        assert(d[0] == pre[0] && d[1] == pre[1] && d[2] == pre[2] && d[3] == pre[3]);
        assert(d[8] == pre[8] && d[9] == pre[9] && d[10] == pre[10] && d[11] == pre[11]);
    }
    if has_wav_header(pre) {
        if let WavWalk::Done(fmt, audio) = wav_walk(pre, 12, None, None) {
            if fmt is Some && fmt->0.format_tag == 1 && audio is Some && bytes_per_sample(
                fmt->0.bits_per_sample,
            ) is Some {
                let bits = fmt->0.bits_per_sample;
                let bps = bytes_per_sample(bits)->0;
                let n_ch = fmt->0.num_channels as int;
                let (start, end) = audio->0;
                let frame_size = bps * n_ch;
                let frames = if frame_size == 0 {
                    0
                } else {
                    (end - start) / frame_size
                };
                assert(frames * (n_ch * bps) == frames * frame_size) by (nonlinear_arith)
                    requires
                        frame_size == bps * n_ch,
                ;
                if frame_size > 0 {
                    lemma_whole_frames(end - start, frame_size);
                }
                assert(frames >= 0 && frames * frame_size <= end - start);
                assert forall|j: int| start <= j < end implies #[trigger] pre[j] == d[j + 0] by {}
                lemma_deinterleave_shifted(pre, d, 0, start, n_ch, frames, bits, false);
                assert(start + 0 == start);
            }
        }
    }
}

/// A WAV file made of its RIFF/WAVE header, a 16-byte `fmt ` chunk of PCM
/// (format tag 1) at 8, 16 or 24 bits, and a `data` chunk, decodes to the
/// samples of the data chunk's body: as many channels as `fmt ` declares,
/// each with as many whole frames as the body holds, sample `f` of channel
/// `c` the little-endian sample at byte `(f * channels + c) *
/// bytes_per_sample` of the body; the bit depth and the sample rate in hertz
/// are the fields of `fmt ` at bytes 14 and 4.
pub proof fn lemma_wav_canonical(
    header: Seq<u8>,
    fmt_id: Seq<u8>,
    size16: Seq<u8>,
    fields: Seq<u8>,
    data_id: Seq<u8>,
    size: Seq<u8>,
    body: Seq<u8>,
    pad: u8,
)
    requires
        header.len() == 12,
        tag_at(header, 0, 0x52, 0x49, 0x46, 0x46),
        tag_at(header, 8, 0x57, 0x41, 0x56, 0x45),
        fmt_id.len() == 4,
        tag_at(fmt_id, 0, 0x66, 0x6d, 0x74, 0x20),
        size16.len() == 4,
        le_u32(size16, 0) == 16,
        fields.len() == 16,
        le_u16(fields, 0) == 1,
        bytes_per_sample(le_u16(fields, 14) as u16) is Some,
        data_id.len() == 4,
        tag_at(data_id, 0, 0x64, 0x61, 0x74, 0x61),
        size.len() == 4,
        body.len() == le_u32(size, 0),
    ensures
        wav_outcome(
            header + chunk_bytes(fmt_id, size16, fields, pad) + chunk_bytes(data_id, size, body, pad),
        ) matches ParseOutcome::Parsed(m) && ({
            let bits = le_u16(fields, 14) as u16;
            let bps = bytes_per_sample(bits)->0;
            let n_ch = le_u16(fields, 2);
            &&& m.channels.len() == n_ch
            &&& m.bits_per_sample == bits
            &&& m.sample_rate == SampleRate::Hz(le_u32(fields, 4) as u32)
            &&& forall|c: int|
                0 <= c < n_ch ==> (#[trigger] m.channels[c]).len() == (body.len() as int) / (n_ch * bps)
            &&& forall|c: int, f: int|
                0 <= c < n_ch && 0 <= f < m.channels[c].len() ==> #[trigger] m.channels[c][f]
                    == decode_le(body, (f * n_ch + c) * bps, bits) as i32
        }),
{
    let c0 = chunk_bytes(fmt_id, size16, fields, pad);
    let c1 = chunk_bytes(data_id, size, body, pad);
    let d = header + c0 + c1;
    let n = body.len() as int;
    assert(c0.len() == 24);
    assert(c1.len() == 8 + n + n % 2);
    assert forall|k: int| 0 <= k < c0.len() implies d[12 + k] == #[trigger] c0[k] by {}
    assert forall|k: int| 0 <= k < c1.len() implies d[36 + k] == #[trigger] c1[k] by {}
    lemma_chunk_step(d, 12, fmt_id, size16, fields, pad, None, None);
    let fmt = wav_fmt_at(fields, 0);
    assert(is_fmt_chunk(fmt_id, 0, 16));
    lemma_chunk_step(d, 36, data_id, size, body, pad, Some(fmt), None);
    assert(!is_fmt_chunk(data_id, 0, n));
    assert(is_data_chunk(data_id, 0));
    assert(wav_walk(d, 12, None, None) == WavWalk::Done(Some(fmt), Some((44, 44 + n))));
    assert(has_wav_header(d)) by {
        assert(d[0] == header[0] && d[1] == header[1] && d[2] == header[2] && d[3] == header[3]);
        assert(d[8] == header[8] && d[9] == header[9] && d[10] == header[10] && d[11] == header[11]);
    }
    let bits = fmt.bits_per_sample;
    let bps = bytes_per_sample(bits)->0;
    let n_ch = fmt.num_channels as int;
    assert(n_ch == le_u16(fields, 2));
    assert(forall|k: int| 0 <= k < n ==> d[44 + k] == #[trigger] body[k]) by {
        assert forall|k: int| 0 <= k < n implies d[44 + k] == #[trigger] body[k] by {
            assert(c1[8 + k] == body[k]);
        }
    }
    if let ParseOutcome::Parsed(m) = wav_outcome(d) {
        let frame_size = bps * n_ch;
        assert(frame_size == n_ch * bps) by (nonlinear_arith)
            requires
                frame_size == bps * n_ch,
        ;
        if n_ch > 0 {
            let frames = n / frame_size;
            assert(frame_size > 0) by (nonlinear_arith)
                requires
                    frame_size == n_ch * bps,
                    n_ch > 0,
                    bps >= 1,
            ;
            assert(frames * (n_ch * bps) <= n) by (nonlinear_arith)
                requires
                    frames == n / frame_size,
                    frame_size == n_ch * bps,
                    frame_size > 0,
                    n >= 0,
            ;
            assert forall|c: int, f: int|
                0 <= c < n_ch && 0 <= f < m.channels[c].len() implies #[trigger] m.channels[c][f]
                    == decode_le(body, (f * n_ch + c) * bps, bits) as i32 by {
                lemma_sample_in_sound(n_ch, frames, bps, frames, n, f, c);
                let k = (f * n_ch + c) * bps;
                assert(body[k] == d[44 + k]);
                if bps >= 2 {
                    assert(body[k + 1] == d[44 + k + 1]);
                }
                if bps >= 3 {
                    assert(body[k + 2] == d[44 + k + 2]);
                }
                assert(decode_le(body, k, bits) == decode_le(d, 44 + k, bits));
            }
        }
    }
}

} // verus!
