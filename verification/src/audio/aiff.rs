//! AIFF (FORM/AIFF) container parsing: uncompressed PCM, 8, 16 and 24 bits.

use vstd::prelude::*;
use crate::audio::bytes::{be_u16, be_u32, be_u64, tag_at, read_be_u16, read_be_u32, read_be_u64,
    has_tag, chunk_bytes, chunks_bytes, with_chunk_after_header, shifted_range};
use crate::audio::error::AudioIoError;
use crate::audio::messages::{aiff_bit_depth_text, aiff_bit_depth_message};
use crate::audio::pcm::{PcmAudio, PcmModel, ParseOutcome, SampleRate, ExtendedFloat,
    bytes_per_sample, decode_be, lemma_sample_in_sound, lemma_deinterleave_shifted, deinterleave, outcome_matches, read_frames, within_full_scale,
    lemma_deinterleave_within_full_scale};

verus! {

/// The fields of an AIFF `COMM` chunk.
#[derive(Clone, Copy, Debug, PartialEq, Eq)]
pub struct AiffComm {
    pub num_channels: u16,
    pub num_frames: u32,
    pub sample_size: u16,
    pub sample_rate: ExtendedFloat,
}

/// The 80-bit extended float stored big-endian at `d[i..i + 10]`.
pub open spec fn extended_at(d: Seq<u8>, i: int) -> ExtendedFloat {
    ExtendedFloat {
        negative: d[i] >= 128,
        exponent: ((d[i] % 128) * 256 + d[i + 1]) as u16,
        mantissa: be_u64(d, i + 2) as u64,
    }
}

/// The `COMM` fields of the chunk whose body starts at `d[body..]`.
pub open spec fn aiff_comm_at(d: Seq<u8>, body: int) -> AiffComm {
    AiffComm {
        num_channels: be_u16(d, body) as u16,
        num_frames: be_u32(d, body + 2) as u32,
        sample_size: be_u16(d, body + 6) as u16,
        sample_rate: extended_at(d, body + 8),
    }
}

/// The chunk at `pos` is a `COMM` chunk declaring at least 18 bytes.
pub open spec fn is_comm_chunk(d: Seq<u8>, pos: int, size: int) -> bool {
    tag_at(d, pos, 0x43, 0x4f, 0x4d, 0x4d) && size >= 18
}

/// The chunk at `pos` is an `SSND` chunk declaring at least 8 bytes.
pub open spec fn is_ssnd_chunk(d: Seq<u8>, pos: int, size: int) -> bool {
    tag_at(d, pos, 0x53, 0x53, 0x4e, 0x44) && size >= 8
}

/// The sound data range an `SSND` chunk at `pos` of declared `size` gives:
/// from its body plus 8 plus the stored offset, to the end of the chunk or
/// of the file, when that range is not reversed.
pub open spec fn ssnd_range(d: Seq<u8>, pos: int, size: int) -> Option<(int, int)> {
    let body = pos + 8;
    let start = body + 8 + be_u32(d, body);
    let end = if body + size <= d.len() {
        body + size
    } else {
        d.len() as int
    };
    if start <= end {
        Some((start, end))
    } else {
        None
    }
}

/// The end of a walk over IFF chunks: the last `COMM` fields and the last
/// `SSND` sound range seen, or the message for a `COMM` or `SSND` chunk cut
/// short before the fields read from it.
pub enum AiffWalk {
    Done(Option<AiffComm>, Option<(int, int)>),
    Truncated(Seq<char>),
}

/// The message for a `COMM` chunk cut short before its 18 bytes of fields.
pub open spec fn comm_truncated_message() -> Seq<char> {
    "AIFF COMM chunk is truncated"@
}

/// The message for an `SSND` chunk cut short before its 4-byte offset.
pub open spec fn ssnd_truncated_message() -> Seq<char> {
    "AIFF SSND chunk is truncated"@
}

/// Walk the IFF chunks from `pos` on. A chunk is an 8-byte header (tag,
/// big-endian body size) and a body padded to even length; the walk ends
/// when fewer than 8 bytes remain. A `COMM` chunk whose 18 bytes of fields,
/// or an `SSND` chunk whose 4-byte offset, run past the end of the file ends
/// the walk as truncated.
pub open spec fn aiff_walk(d: Seq<u8>, pos: int, comm: Option<AiffComm>, ssnd: Option<(int, int)>) -> AiffWalk
    decreases d.len() + 1 - pos,
{
    if pos < 0 || pos + 8 > d.len() {
        AiffWalk::Done(comm, ssnd)
    } else {
        let size = be_u32(d, pos + 4);
        let body = pos + 8;
        let c = is_comm_chunk(d, pos, size);
        let sd = !c && is_ssnd_chunk(d, pos, size);
        if c && body + 18 > d.len() {
            AiffWalk::Truncated(comm_truncated_message())
        } else if sd && body + 4 > d.len() {
            AiffWalk::Truncated(ssnd_truncated_message())
        } else {
            let comm2 = if c {
                Some(aiff_comm_at(d, body))
            } else {
                comm
            };
            let ssnd2 = if sd && ssnd_range(d, pos, size) is Some {
                ssnd_range(d, pos, size)
            } else {
                ssnd
            };
            let next = body + size + size % 2;
            if next > d.len() {
                AiffWalk::Done(comm2, ssnd2)
            } else {
                aiff_walk(d, next, comm2, ssnd2)
            }
        }
    }
}

/// The file starts with a FORM header of form type `AIFF`.
pub open spec fn has_aiff_header(d: Seq<u8>) -> bool {
    d.len() >= 12 && tag_at(d, 0, 0x46, 0x4f, 0x52, 0x4d) && tag_at(d, 8, 0x41, 0x49, 0x46, 0x46)
}

/// What an AIFF file decodes to. After the header and the chunk walk (which
/// rejects a cut-short `COMM` or `SSND` chunk as malformed), the checks in
/// order: a `COMM` chunk, an `SSND` chunk, and a sample size of 8, 16 or 24
/// bits. Then the sound data holds the declared number of frames, or
/// as many whole frames as fit if fewer, interleaved big-endian.
pub open spec fn aiff_outcome(d: Seq<u8>) -> ParseOutcome {
    if !has_aiff_header(d) {
        ParseOutcome::Malformed("not a valid AIFF file"@)
    } else if let AiffWalk::Truncated(msg) = aiff_walk(d, 12, None, None) {
        ParseOutcome::Malformed(msg)
    } else {
        let (comm, ssnd) = match aiff_walk(d, 12, None, None) {
            AiffWalk::Done(c, s) => (c, s),
            AiffWalk::Truncated(_) => (None, None),
        };
        if comm is None {
            ParseOutcome::Malformed("AIFF file missing COMM chunk"@)
        } else if ssnd is None {
            ParseOutcome::Malformed("AIFF file missing SSND chunk"@)
        } else if bytes_per_sample(comm->0.sample_size) is None {
            ParseOutcome::Unsupported(aiff_bit_depth_text(comm->0.sample_size))
        } else {
            let bits = comm->0.sample_size;
            let bps = bytes_per_sample(bits)->0;
            let n_ch = comm->0.num_channels as int;
            let (start, end) = ssnd->0;
            let frame_size = bps * n_ch;
            let fit = if frame_size == 0 {
                0
            } else {
                (end - start) / frame_size
            };
            let frames = if comm->0.num_frames < fit {
                comm->0.num_frames as int
            } else {
                fit
            };
            ParseOutcome::Parsed(
                PcmModel {
                    channels: deinterleave(d, start, n_ch, frames, bps, bits, true),
                    bits_per_sample: bits,
                    sample_rate: SampleRate::Extended(comm->0.sample_rate),
                },
            )
        }
    }
}

spec fn range_view(r: Option<(usize, usize)>) -> Option<(int, int)> {
    match r {
        Some((a, b)) => Some((a as int, b as int)),
        None => None,
    }
}

/// Read the fields of an 80-bit extended float stored big-endian at `d[i..i + 10]`.
pub fn read_extended(d: &[u8], i: usize) -> (r: ExtendedFloat)
    requires
        i + 10 <= d.len(),
    ensures
        r == extended_at(d@, i as int),
{
    let b0 = d[i];
    ExtendedFloat {
        negative: b0 >= 128,
        exponent: ((b0 % 128) as u16) * 256 + d[i + 1] as u16,
        mantissa: read_be_u64(d, i + 2),
    }
}

fn read_aiff_comm(d: &[u8], body: usize) -> (r: AiffComm)
    requires
        body + 18 <= d.len(),
    ensures
        r == aiff_comm_at(d@, body as int),
{
    AiffComm {
        num_channels: read_be_u16(d, body),
        num_frames: read_be_u32(d, body + 2),
        sample_size: read_be_u16(d, body + 6),
        sample_rate: read_extended(d, body + 8),
    }
}

/// Walk the chunks of an AIFF file with a valid header: the last `COMM`
/// fields and `SSND` sound range, or whether a cut-short chunk was a `COMM`
/// (else an `SSND`) chunk.
fn walk_aiff_chunks(data: &[u8]) -> (r: Result<(Option<AiffComm>, Option<(usize, usize)>), bool>)
    requires
        has_aiff_header(data@),
    ensures
        match r {
            Ok((c, s)) => aiff_walk(data@, 12, None, None) == AiffWalk::Done(c, range_view(s))
                && forall|q: (usize, usize)| s == Some(q) ==> q.0 <= q.1 <= data.len(),
            Err(is_comm) => aiff_walk(data@, 12, None, None) == AiffWalk::Truncated(
                if is_comm {
                    comm_truncated_message()
                } else {
                    ssnd_truncated_message()
                },
            ),
        },
{
    let mut comm: Option<AiffComm> = None;
    let mut ssnd: Option<(usize, usize)> = None;
    let mut pos: usize = 12;
    while pos <= data.len() && data.len() - pos >= 8
        invariant
            pos <= data.len(),
            forall|q: (usize, usize)| ssnd == Some(q) ==> q.0 <= q.1 <= data.len(),
            aiff_walk(data@, 12, None, None) == aiff_walk(
                data@,
                pos as int,
                comm,
                range_view(ssnd),
            ),
        decreases data.len() - pos,
    {
        let ghost old_pos = pos as int;
        let ghost old_ssnd = range_view(ssnd);
        let chunk_size = read_be_u32(data, pos + 4);
        let size = chunk_size as usize;
        let chunk_body = pos + 8;
        let rest = data.len() - chunk_body;
        let c = has_tag(data, pos, 0x43, 0x4f, 0x4d, 0x4d) && size >= 18;
        let sd = !c && has_tag(data, pos, 0x53, 0x53, 0x4e, 0x44) && size >= 8;
        if c && rest < 18 {
            return Err(true);
        }
        if sd && rest < 4 {
            return Err(false);
        }
        if c {
            comm = Some(read_aiff_comm(data, chunk_body));
        } else if sd {
            let offset = read_be_u32(data, chunk_body) as usize;
            let audio_end = if size <= rest {
                chunk_body + size
            } else {
                data.len()
            };
            if audio_end - chunk_body >= 8 && offset <= audio_end - chunk_body - 8 {
                ssnd = Some((chunk_body + 8 + offset, audio_end));
            }
        }
        assert(range_view(ssnd) == (if sd && ssnd_range(data@, old_pos, size as int) is Some {
            ssnd_range(data@, old_pos, size as int)
        } else {
            old_ssnd
        }));
        if size > rest || size + size % 2 > rest {
            pos = data.len();
        } else {
            pos = chunk_body + size + size % 2;
        }
    }
    Ok((comm, ssnd))
}

/// Parse AIFF data from a byte slice.
pub fn parse_aiff(data: &[u8]) -> (r: Result<PcmAudio, AudioIoError>)
    ensures
        outcome_matches(&r, aiff_outcome(data@)),
{
    if data.len() < 12 || !has_tag(data, 0, 0x46, 0x4f, 0x52, 0x4d) || !has_tag(
        data,
        8,
        0x41,
        0x49,
        0x46,
        0x46,
    ) {
        return Err(AudioIoError::MalformedFile("not a valid AIFF file".to_owned()));
    }
    let (comm, ssnd) = match walk_aiff_chunks(data) {
        Ok(found) => found,
        Err(is_comm) => {
            let msg = if is_comm {
                "AIFF COMM chunk is truncated"
            } else {
                "AIFF SSND chunk is truncated"
            };
            return Err(AudioIoError::MalformedFile(msg.to_owned()));
        },
    };
    let comm = match comm {
        Some(c) => c,
        None => {
            return Err(AudioIoError::MalformedFile("AIFF file missing COMM chunk".to_owned()));
        },
    };
    let (start, end) = match ssnd {
        Some(range) => range,
        None => {
            return Err(AudioIoError::MalformedFile("AIFF file missing SSND chunk".to_owned()));
        },
    };
    let bits = comm.sample_size;
    let bps: usize = if bits == 8 {
        1
    } else if bits == 16 {
        2
    } else if bits == 24 {
        3
    } else {
        return Err(AudioIoError::UnsupportedEncoding(aiff_bit_depth_message(bits)));
    };
    let n_ch = comm.num_channels as usize;
    assert(bps * n_ch <= 3 * 65535) by (nonlinear_arith)
        requires
            1 <= bps <= 3,
            n_ch <= 65535,
    ;
    let frame_size = bps * n_ch;
    let fit = if frame_size == 0 {
        0
    } else {
        assert((((end - start) as int) / (frame_size as int)) * frame_size <= end - start)
            by (nonlinear_arith)
            requires
                frame_size > 0,
                start <= end,
        ;
        (end - start) / frame_size
    };
    let frames = if (comm.num_frames as usize) < fit {
        comm.num_frames as usize
    } else {
        fit
    };
    assert(frames * (n_ch * bps) <= end - start) by (nonlinear_arith)
        requires
            frame_size == bps * n_ch,
            frame_size == 0 ==> fit == 0,
            frame_size > 0 ==> fit * frame_size <= end - start,
            frames <= fit,
            start <= end,
    ;
    let channels = read_frames(data, start, n_ch, frames, bps, bits, true);
    Ok(
        PcmAudio {
            channels,
            bits_per_sample: bits,
            sample_rate: SampleRate::Extended(comm.sample_rate),
        },
    )
}

} // verus!

verus! {

/// The samples an AIFF file decodes to are normalised: each lies within the
/// full scale of the file's sample size.
pub proof fn lemma_aiff_samples_within_full_scale(d: Seq<u8>)
    ensures
        aiff_outcome(d) matches ParseOutcome::Parsed(m) ==> within_full_scale(m),
{
    if let ParseOutcome::Parsed(m) = aiff_outcome(d) {
        let (comm, ssnd) = match aiff_walk(d, 12, None, None) {
            AiffWalk::Done(c, s) => (c, s),
            AiffWalk::Truncated(_) => (None, None),
        };
        let bits = comm->0.sample_size;
        let bps = bytes_per_sample(bits)->0;
        let n_ch = comm->0.num_channels as int;
        let (start, end) = ssnd->0;
        let frame_size = bps * n_ch;
        let fit = if frame_size == 0 {
            0
        } else {
            (end - start) / frame_size
        };
        let frames = if comm->0.num_frames < fit {
            comm->0.num_frames as int
        } else {
            fit
        };
        lemma_deinterleave_within_full_scale(d, start, n_ch, frames, bps, bits, true);
    }
}

/// The sound range that an AIFF chunk walk ends with lies after the header
/// and within the file.
proof fn lemma_aiff_walk_in_bounds(
    d: Seq<u8>,
    lo: int,
    p: int,
    c: Option<AiffComm>,
    a: Option<(int, int)>,
)
    requires
        0 <= lo <= p,
        a matches Some((s, e)) ==> lo <= s <= e <= d.len(),
    ensures
        aiff_walk(d, p, c, a) matches AiffWalk::Done(_, Some((s, e))) ==> lo <= s <= e <= d.len(),
    decreases d.len() + 1 - p,
{
    if 0 <= p && p + 8 <= d.len() {
        let size = be_u32(d, p + 4);
        let body = p + 8;
        let cm = is_comm_chunk(d, p, size);
        let sd = !cm && is_ssnd_chunk(d, p, size);
        let comm2 = if cm {
            Some(aiff_comm_at(d, body))
        } else {
            c
        };
        let ssnd2 = if sd && ssnd_range(d, p, size) is Some {
            ssnd_range(d, p, size)
        } else {
            a
        };
        let next = body + size + size % 2;
        if next <= d.len() {
            lemma_aiff_walk_in_bounds(d, lo, next, comm2, ssnd2);
        }
    }
}

/// Decoded AIFF audio is the last `COMM` chunk's layout applied to the sound
/// data of the last `SSND` chunk: as many channels as `COMM` declares, each
/// with its declared number of frames, or as many whole frames as the sound
/// data holds if fewer (a partial trailing frame is dropped); sample `f` of
/// channel `c` is the big-endian sample at byte `(f * channels + c) *
/// bytes_per_sample` of the sound data; the sample size and the extended
/// float sample rate are those `COMM` gives.
pub proof fn lemma_aiff_layout(d: Seq<u8>)
    ensures
        aiff_outcome(d) matches ParseOutcome::Parsed(m) ==> aiff_walk(d, 12, None, None) matches AiffWalk::Done(
            Some(comm),
            Some((start, end)),
        ) && ({
            let bits = comm.sample_size;
            let bps = bytes_per_sample(bits)->0;
            let n_ch = comm.num_channels as int;
            let sound = d.subrange(start, end);
            let fit = (end - start) / (n_ch * bps);
            &&& m.channels.len() == n_ch
            &&& m.bits_per_sample == bits
            &&& m.sample_rate == SampleRate::Extended(comm.sample_rate)
            &&& forall|c: int|
                0 <= c < n_ch ==> (#[trigger] m.channels[c]).len() == if comm.num_frames < fit {
                    comm.num_frames as int
                } else {
                    fit
                }
            &&& forall|c: int, f: int|
                0 <= c < n_ch && 0 <= f < m.channels[c].len() ==> #[trigger] m.channels[c][f]
                    == decode_be(sound, (f * n_ch + c) * bps, bits) as i32
        }),
{
    if let ParseOutcome::Parsed(m) = aiff_outcome(d) {
        lemma_aiff_walk_in_bounds(d, 12, 12, None, None);
        let (comm, ssnd) = match aiff_walk(d, 12, None, None) {
            AiffWalk::Done(c, s) => (c, s),
            AiffWalk::Truncated(_) => (None, None),
        };
        let bits = comm->0.sample_size;
        let bps = bytes_per_sample(bits)->0;
        let n_ch = comm->0.num_channels as int;
        let (start, end) = ssnd->0;
        let sound = d.subrange(start, end);
        let frame_size = bps * n_ch;
        assert(frame_size == n_ch * bps) by (nonlinear_arith)
            requires
                frame_size == bps * n_ch,
        ;
        let fit = if frame_size == 0 {
            0
        } else {
            (end - start) / frame_size
        };
        let frames = if comm->0.num_frames < fit {
            comm->0.num_frames as int
        } else {
            fit
        };
        if n_ch > 0 {
            assert(frame_size > 0) by (nonlinear_arith)
                requires
                    frame_size == n_ch * bps,
                    n_ch > 0,
                    bps >= 1,
            ;
            assert(fit * (n_ch * bps) <= end - start) by (nonlinear_arith)
                requires
                    fit == (end - start) / frame_size,
                    frame_size == n_ch * bps,
                    frame_size > 0,
                    start <= end,
            ;
            assert forall|c: int, f: int|
                0 <= c < n_ch && 0 <= f < m.channels[c].len() implies #[trigger] m.channels[c][f]
                    == decode_be(sound, (f * n_ch + c) * bps, bits) as i32 by {
                lemma_sample_in_sound(n_ch, frames, bps, fit, end - start, f, c);
                let k = (f * n_ch + c) * bps;
                assert(sound[k] == d[start + k]);
                if bps >= 2 {
                    assert(sound[k + 1] == d[start + k + 1]);
                }
                if bps >= 3 {
                    assert(sound[k + 2] == d[start + k + 2]);
                }
                assert(decode_be(sound, k, bits) == decode_be(d, start + k, bits));
            }
        }
    }
}

/// Walking `d2`, which holds the bytes of `d` from `lo` on `l` bytes
/// further on, from `p + l` ends as walking `d` from `p` does, with the
/// sound range moved `l` on.
proof fn lemma_aiff_walk_shifted(
    d: Seq<u8>,
    d2: Seq<u8>,
    lo: int,
    l: int,
    p: int,
    c: Option<AiffComm>,
    a: Option<(int, int)>,
)
    requires
        l >= 0,
        12 <= lo <= p,
        d2.len() == d.len() + l,
        forall|j: int| lo <= j < d.len() ==> #[trigger] d[j] == d2[j + l],
    ensures
        match aiff_walk(d, p, c, a) {
            AiffWalk::Done(c1, a1) => aiff_walk(d2, p + l, c, shifted_range(a, l))
                == AiffWalk::Done(c1, shifted_range(a1, l)),
            AiffWalk::Truncated(m) => aiff_walk(d2, p + l, c, shifted_range(a, l))
                == AiffWalk::Truncated(m),
        },
    decreases d.len() + 1 - p,
{
    if p + 8 <= d.len() {
        let size = be_u32(d, p + 4);
        let body = p + 8;
        assert(d[p] == d2[p + l] && d[p + 1] == d2[p + 1 + l] && d[p + 2] == d2[p + 2 + l] && d[p
            + 3] == d2[p + 3 + l]);
        assert(d[p + 4] == d2[p + 4 + l] && d[p + 5] == d2[p + 5 + l] && d[p + 6] == d2[p + 6 + l]
            && d[p + 7] == d2[p + 7 + l]);
        assert(be_u32(d2, p + l + 4) == size);
        let cm = is_comm_chunk(d, p, size);
        let sd = !cm && is_ssnd_chunk(d, p, size);
        assert(cm == is_comm_chunk(d2, p + l, size));
        assert(is_ssnd_chunk(d, p, size) == is_ssnd_chunk(d2, p + l, size));
        if cm && body + 18 <= d.len() {
            assert(d[body] == d2[body + l]);
            assert(d[body + 1] == d2[body + 1 + l]);
            assert(d[body + 2] == d2[body + 2 + l]);
            assert(d[body + 3] == d2[body + 3 + l]);
            assert(d[body + 4] == d2[body + 4 + l]);
            assert(d[body + 5] == d2[body + 5 + l]);
            assert(d[body + 6] == d2[body + 6 + l]);
            assert(d[body + 7] == d2[body + 7 + l]);
            assert(d[body + 8] == d2[body + 8 + l]);
            assert(d[body + 9] == d2[body + 9 + l]);
            assert(d[body + 10] == d2[body + 10 + l]);
            assert(d[body + 11] == d2[body + 11 + l]);
            assert(d[body + 12] == d2[body + 12 + l]);
            assert(d[body + 13] == d2[body + 13 + l]);
            assert(d[body + 14] == d2[body + 14 + l]);
            assert(d[body + 15] == d2[body + 15 + l]);
            assert(d[body + 16] == d2[body + 16 + l]);
            assert(d[body + 17] == d2[body + 17 + l]);
            assert(aiff_comm_at(d2, body + l) == aiff_comm_at(d, body));
        }
        if sd && body + 4 <= d.len() {
            assert(d[body] == d2[body + l]);
            assert(d[body + 1] == d2[body + 1 + l]);
            assert(d[body + 2] == d2[body + 2 + l]);
            assert(d[body + 3] == d2[body + 3 + l]);
            assert(ssnd_range(d2, p + l, size) == shifted_range(ssnd_range(d, p, size), l));
        }
        if !(cm && body + 18 > d.len()) && !(sd && body + 4 > d.len()) {
            let comm2 = if cm {
                Some(aiff_comm_at(d, body))
            } else {
                c
            };
            let ssnd2 = if sd && ssnd_range(d, p, size) is Some {
                ssnd_range(d, p, size)
            } else {
                a
            };
            let next = body + size + size % 2;
            if next <= d.len() {
                lemma_aiff_walk_shifted(d, d2, lo, l, next, comm2, ssnd2);
            }
        }
    }
}

/// Chunks other than `COMM` and `SSND` are skipped, each with the pad byte
/// after an odd-sized body: inserting such a chunk after the header of a
/// file (of at least 12 bytes) leaves what the file decodes to unchanged.
pub proof fn lemma_aiff_skips_unknown_chunk(
    d: Seq<u8>,
    id: Seq<u8>,
    size: Seq<u8>,
    body: Seq<u8>,
    pad: u8,
)
    requires
        d.len() >= 12,
        id.len() == 4,
        size.len() == 4,
        body.len() == be_u32(size, 0),
        !tag_at(id, 0, 0x43, 0x4f, 0x4d, 0x4d),
        !tag_at(id, 0, 0x53, 0x53, 0x4e, 0x44),
    ensures
        aiff_outcome(with_chunk_after_header(d, chunk_bytes(id, size, body, pad))) == aiff_outcome(d),
{
    let c = chunk_bytes(id, size, body, pad);
    let d2 = with_chunk_after_header(d, c);
    let n = body.len() as int;
    let l = c.len() as int;
    assert(l == 8 + n + n % 2);
    assert(d2.len() == d.len() + l);
    assert forall|j: int| 0 <= j < 12 implies d2[j] == d[j] by {}
    assert forall|k: int| 0 <= k < 4 implies d2[12 + k] == id[k] && d2[16 + k] == size[k] by {
        assert(c[k] == id[k]);
        assert(c[4 + k] == size[k]);
    }
    assert forall|j: int| 12 <= j < d.len() implies #[trigger] d[j] == d2[j + l] by {}
    assert(be_u32(d2, 16) == n);
    assert(!is_comm_chunk(d2, 12, n));
    assert(!is_ssnd_chunk(d2, 12, n));
    assert(aiff_walk(d2, 12, None, None) == aiff_walk(d2, 12 + l, None, None));
    assert(has_aiff_header(d2) == has_aiff_header(d));
    lemma_aiff_walk_shifted(d, d2, 12, l, 12, None, None);
    lemma_aiff_walk_in_bounds(d, 12, 12, None, None);
    if has_aiff_header(d) {
        if let AiffWalk::Done(comm, ssnd) = aiff_walk(d, 12, None, None) {
            if comm is Some && ssnd is Some && bytes_per_sample(comm->0.sample_size) is Some {
                let bits = comm->0.sample_size;
                let bps = bytes_per_sample(bits)->0;
                let n_ch = comm->0.num_channels as int;
                let (start, end) = ssnd->0;
                let frame_size = bps * n_ch;
                let fit = if frame_size == 0 {
                    0
                } else {
                    (end - start) / frame_size
                };
                let frames = if comm->0.num_frames < fit {
                    comm->0.num_frames as int
                } else {
                    fit
                };
                assert(frame_size == n_ch * bps) by (nonlinear_arith)
                    requires
                        frame_size == bps * n_ch,
                ;
                if frame_size > 0 {
                    assert(0 <= fit && fit * (n_ch * bps) <= end - start) by (nonlinear_arith)
                        requires
                            fit == (end - start) / frame_size,
                            frame_size == n_ch * bps,
                            frame_size > 0,
                            start <= end,
                    ;
                }
                assert(frames * (n_ch * bps) <= end - start) by (nonlinear_arith)
                    requires
                        frame_size == n_ch * bps,
                        frame_size == 0 ==> fit == 0,
                        frame_size > 0 ==> fit * (n_ch * bps) <= end - start,
                        0 <= frames <= fit,
                        start <= end,
                ;
                lemma_deinterleave_shifted(d, d2, l, start, n_ch, frames, bits, true);
            }
        }
    }
}

/// Two files whose first 12 bytes agree decode alike when the chunk walk of
/// `d2` ends as that of `d` does with the sound range moved `l` on, and the
/// bytes of `d` from `lo` on, where that range lies, are those of `d2` `l`
/// further on.
proof fn lemma_aiff_outcome_from_walks(d: Seq<u8>, d2: Seq<u8>, lo: int, l: int)
    requires
        d.len() >= 12,
        d2.len() >= 12,
        l >= 0,
        forall|j: int| 0 <= j < 12 ==> d2[j] == d[j],
        forall|j: int| lo <= j < d.len() ==> #[trigger] d[j] == d2[j + l],
        aiff_walk(d2, 12, None, None) == match aiff_walk(d, 12, None, None) {
            AiffWalk::Done(c, a) => AiffWalk::Done(c, shifted_range(a, l)),
            AiffWalk::Truncated(m) => AiffWalk::Truncated(m),
        },
        aiff_walk(d, 12, None, None) matches AiffWalk::Done(_, Some((s, e))) ==> lo <= s <= e
            <= d.len(),
    ensures
        aiff_outcome(d2) == aiff_outcome(d),
{
    assert(has_aiff_header(d2) == has_aiff_header(d)) by {
        assert(d2[0] == d[0] && d2[1] == d[1] && d2[2] == d[2] && d2[3] == d[3]);
        assert(d2[8] == d[8] && d2[9] == d[9] && d2[10] == d[10] && d2[11] == d[11]);
    }
    if has_aiff_header(d) {
        if let AiffWalk::Done(comm, ssnd) = aiff_walk(d, 12, None, None) {
            if comm is Some && ssnd is Some && bytes_per_sample(comm->0.sample_size) is Some {
                let bits = comm->0.sample_size;
                let bps = bytes_per_sample(bits)->0;
                let n_ch = comm->0.num_channels as int;
                let (start, end) = ssnd->0;
                let frame_size = bps * n_ch;
                let fit = if frame_size == 0 {
                    0
                } else {
                    (end - start) / frame_size
                };
                let frames = if comm->0.num_frames < fit {
                    comm->0.num_frames as int
                } else {
                    fit
                };
                assert(frame_size == n_ch * bps) by (nonlinear_arith)
                    requires
                        frame_size == bps * n_ch,
                ;
                if frame_size > 0 {
                    assert(0 <= fit && fit * (n_ch * bps) <= end - start) by (nonlinear_arith)
                        requires
                            fit == (end - start) / frame_size,
                            frame_size == n_ch * bps,
                            frame_size > 0,
                            start <= end,
                    ;
                }
                assert(frames * (n_ch * bps) <= end - start) by (nonlinear_arith)
                    requires
                        frame_size == n_ch * bps,
                        frame_size == 0 ==> fit == 0,
                        frame_size > 0 ==> fit * (n_ch * bps) <= end - start,
                        0 <= frames <= fit,
                        start <= end,
                ;
                lemma_deinterleave_shifted(d, d2, l, start, n_ch, frames, bits, true);
            }
        }
    }
}

/// One step of the chunk walk over a whole chunk at `p`: it goes on after
/// the chunk and its pad byte, with the `COMM` fields of its body if it is a
/// `COMM` chunk of at least 18 bytes, or, if it is an `SSND` chunk of at
/// least 8 bytes, the sound range that starts past its 8 bytes of offset
/// and block size plus the offset and runs to the end of the chunk.
proof fn lemma_aiff_chunk_step(
    d: Seq<u8>,
    p: int,
    id: Seq<u8>,
    size: Seq<u8>,
    body: Seq<u8>,
    pad: u8,
    c: Option<AiffComm>,
    a: Option<(int, int)>,
)
    requires
        0 <= p,
        id.len() == 4,
        size.len() == 4,
        body.len() == be_u32(size, 0),
        p + chunk_bytes(id, size, body, pad).len() <= d.len(),
        forall|k: int|
            0 <= k < chunk_bytes(id, size, body, pad).len() ==> d[p + k] == #[trigger] chunk_bytes(
                id,
                size,
                body,
                pad,
            )[k],
    ensures
        ({
            let n = body.len() as int;
            let cm = is_comm_chunk(id, 0, n);
            let sd = !cm && is_ssnd_chunk(id, 0, n);
            let sound_start = p + 16 + be_u32(body, 0);
            aiff_walk(d, p, c, a) == aiff_walk(
                d,
                p + chunk_bytes(id, size, body, pad).len(),
                if cm {
                    Some(aiff_comm_at(body, 0))
                } else {
                    c
                },
                if sd && sound_start <= p + 8 + n {
                    Some((sound_start, p + 8 + n))
                } else {
                    a
                },
            )
        }),
{
    let ch = chunk_bytes(id, size, body, pad);
    let n = body.len() as int;
    assert(ch.len() == 8 + n + n % 2);
    assert forall|k: int| 0 <= k < 4 implies d[p + k] == id[k] && d[p + 4 + k] == size[k] by {
        assert(ch[k] == id[k]);
        assert(ch[4 + k] == size[k]);
    }
    assert forall|k: int| 0 <= k < n implies d[p + 8 + k] == #[trigger] body[k] by {
        assert(ch[8 + k] == body[k]);
    }
    assert(be_u32(d, p + 4) == n);
    let cm = is_comm_chunk(id, 0, n);
    assert(is_comm_chunk(d, p, n) == cm);
    assert(is_ssnd_chunk(d, p, n) == is_ssnd_chunk(id, 0, n));
    if cm {
        assert(d[p + 8] == body[0] && d[p + 9] == body[1] && d[p + 10] == body[2] && d[p + 11]
            == body[3]);
        assert(d[p + 12] == body[4] && d[p + 13] == body[5] && d[p + 14] == body[6] && d[p + 15]
            == body[7]);
        assert(d[p + 16] == body[8] && d[p + 17] == body[9] && d[p + 18] == body[10] && d[p + 19]
            == body[11]);
        assert(d[p + 20] == body[12] && d[p + 21] == body[13] && d[p + 22] == body[14] && d[p + 23]
            == body[15]);
        assert(d[p + 24] == body[16] && d[p + 25] == body[17]);
        assert(aiff_comm_at(d, p + 8) == aiff_comm_at(body, 0));
    }
    if !cm && is_ssnd_chunk(id, 0, n) {
        assert(d[p + 8] == body[0] && d[p + 9] == body[1] && d[p + 10] == body[2] && d[p + 11]
            == body[3]);
        assert(be_u32(d, p + 8) == be_u32(body, 0));
    }
}

/// Every chunk of `cs` has a 4-byte tag, 4 size bytes and a body of the
/// size they declare, big-endian.
pub open spec fn whole_aiff_chunks(cs: Seq<(Seq<u8>, Seq<u8>, Seq<u8>, u8)>) -> bool {
    forall|i: int|
        0 <= i < cs.len() ==> (#[trigger] cs[i]).0.len() == 4 && cs[i].1.len() == 4 && cs[i].2.len()
            == be_u32(cs[i].1, 0)
}

/// Walking whole chunks after `x` ends on their last byte, and whatever
/// follows them, the walk reaches the end of the chunks with what it found
/// in them.
proof fn lemma_aiff_walk_whole_chunks(
    x: Seq<u8>,
    cs: Seq<(Seq<u8>, Seq<u8>, Seq<u8>, u8)>,
    t: Seq<u8>,
    c: Option<AiffComm>,
    a: Option<(int, int)>,
)
    requires
        whole_aiff_chunks(cs),
    ensures
        aiff_walk(x + chunks_bytes(cs), x.len() as int, c, a) is Done,
        ({
            let pre = x + chunks_bytes(cs);
            match aiff_walk(pre, x.len() as int, c, a) {
                AiffWalk::Done(c1, a1) => aiff_walk(pre + t, x.len() as int, c, a) == aiff_walk(
                    pre + t,
                    pre.len() as int,
                    c1,
                    a1,
                ),
                AiffWalk::Truncated(_) => true,
            }
        }),
    decreases cs.len(),
{
    let pre = x + chunks_bytes(cs);
    let d = pre + t;
    if cs.len() == 0 {
        assert(pre =~= x);
    } else {
        let (id, size, body, pad) = cs[0];
        let ch = chunk_bytes(id, size, body, pad);
        let rest = cs.drop_first();
        assert(whole_aiff_chunks(rest)) by {
            assert forall|i: int| 0 <= i < rest.len() implies (#[trigger] rest[i]).0.len() == 4
                && rest[i].1.len() == 4 && rest[i].2.len() == be_u32(rest[i].1, 0) by {
                assert(rest[i] == cs[i + 1]);
            }
        }
        assert(cs[0].0.len() == 4);
        let x1 = x + ch;
        let r = chunks_bytes(rest);
        assert(pre =~= x1 + r);
        let p = x.len() as int;
        assert forall|k: int| 0 <= k < ch.len() implies pre[p + k] == #[trigger] ch[k] by {
            assert(x1[p + k] == ch[k]);
        }
        assert forall|k: int| 0 <= k < ch.len() implies d[p + k] == #[trigger] ch[k] by {
            assert(pre[p + k] == ch[k]);
        }
        lemma_aiff_chunk_step(pre, p, id, size, body, pad, c, a);
        lemma_aiff_chunk_step(d, p, id, size, body, pad, c, a);
        let n = body.len() as int;
        let cm = is_comm_chunk(id, 0, n);
        let sd = !cm && is_ssnd_chunk(id, 0, n);
        let sound_start = p + 16 + be_u32(body, 0);
        let c1 = if cm {
            Some(aiff_comm_at(body, 0))
        } else {
            c
        };
        let a1 = if sd && sound_start <= p + 8 + n {
            Some((sound_start, p + 8 + n))
        } else {
            a
        };
        lemma_aiff_walk_whole_chunks(x1, rest, t, c1, a1);
    }
}

/// Every chunk is followed by a pad byte when its body is odd, the `SSND`
/// chunk included: after a file made of a 12-byte header and whole chunks,
/// appending a chunk other than `COMM` and `SSND` leaves what the file
/// decodes to unchanged.
pub proof fn lemma_aiff_appended_chunk(
    header: Seq<u8>,
    cs: Seq<(Seq<u8>, Seq<u8>, Seq<u8>, u8)>,
    id: Seq<u8>,
    size: Seq<u8>,
    body: Seq<u8>,
    pad: u8,
)
    requires
        header.len() == 12,
        whole_aiff_chunks(cs),
        id.len() == 4,
        size.len() == 4,
        body.len() == be_u32(size, 0),
        !tag_at(id, 0, 0x43, 0x4f, 0x4d, 0x4d),
        !tag_at(id, 0, 0x53, 0x53, 0x4e, 0x44),
    ensures
        aiff_outcome(header + chunks_bytes(cs) + chunk_bytes(id, size, body, pad)) == aiff_outcome(
            header + chunks_bytes(cs),
        ),
{
    let pre = header + chunks_bytes(cs);
    let u = chunk_bytes(id, size, body, pad);
    let d = pre + u;
    lemma_aiff_walk_whole_chunks(header, cs, u, None, None);
    lemma_aiff_walk_in_bounds(pre, 12, 12, None, None);
    let p = pre.len() as int;
    assert forall|k: int| 0 <= k < u.len() implies d[p + k] == #[trigger] u[k] by {}
    if let AiffWalk::Done(c1, a1) = aiff_walk(pre, 12, None, None) {
        lemma_aiff_chunk_step(d, p, id, size, body, pad, c1, a1);
        assert(!is_comm_chunk(id, 0, body.len() as int));
        assert(!is_ssnd_chunk(id, 0, body.len() as int));
        assert(aiff_walk(d, d.len() as int, c1, a1) == AiffWalk::Done(c1, a1));
        assert(shifted_range(a1, 0) == a1);
    }
    assert forall|j: int| 12 <= j < pre.len() implies #[trigger] pre[j] == d[j + 0] by {}
    assert forall|j: int| 0 <= j < 12 implies d[j] == pre[j] by {}
    lemma_aiff_outcome_from_walks(pre, d, 12, 0);
}

/// A `COMM` chunk is read whatever its declared size, as long as it holds
/// the 18 bytes of fields: a `COMM` chunk that carries more bytes after its
/// fields, with its declared size grown to match and a pad byte after an
/// odd body, decodes as the same file with an 18-byte `COMM` chunk.
pub proof fn lemma_aiff_comm_extension(
    header: Seq<u8>,
    id: Seq<u8>,
    size18: Seq<u8>,
    fields: Seq<u8>,
    size: Seq<u8>,
    extra: Seq<u8>,
    pad: u8,
    rest: Seq<u8>,
)
    requires
        header.len() == 12,
        id.len() == 4,
        tag_at(id, 0, 0x43, 0x4f, 0x4d, 0x4d),
        size18.len() == 4,
        be_u32(size18, 0) == 18,
        fields.len() == 18,
        size.len() == 4,
        be_u32(size, 0) == 18 + extra.len(),
    ensures
        aiff_outcome(header + chunk_bytes(id, size, fields + extra, pad) + rest) == aiff_outcome(
            header + chunk_bytes(id, size18, fields, pad) + rest,
        ),
{
    let c0 = chunk_bytes(id, size18, fields, pad);
    let c1 = chunk_bytes(id, size, fields + extra, pad);
    let d = header + c0 + rest;
    let d2 = header + c1 + rest;
    let n = extra.len() as int;
    let l = n + n % 2;
    assert(c0.len() == 26);
    assert(c1.len() == 26 + l);
    assert forall|k: int| 0 <= k < c0.len() implies d[12 + k] == #[trigger] c0[k] by {}
    assert forall|k: int| 0 <= k < c1.len() implies d2[12 + k] == #[trigger] c1[k] by {}
    lemma_aiff_chunk_step(d, 12, id, size18, fields, pad, None, None);
    lemma_aiff_chunk_step(d2, 12, id, size, fields + extra, pad, None, None);
    assert forall|k: int| 0 <= k < 18 implies #[trigger] (fields + extra)[k] == fields[k] by {}
    assert((fields + extra)[0] == fields[0] && (fields + extra)[1] == fields[1]);
    assert((fields + extra)[2] == fields[2] && (fields + extra)[3] == fields[3]);
    assert((fields + extra)[4] == fields[4] && (fields + extra)[5] == fields[5]);
    assert((fields + extra)[6] == fields[6] && (fields + extra)[7] == fields[7]);
    assert((fields + extra)[8] == fields[8] && (fields + extra)[9] == fields[9]);
    assert((fields + extra)[10] == fields[10] && (fields + extra)[11] == fields[11]);
    assert((fields + extra)[12] == fields[12] && (fields + extra)[13] == fields[13]);
    assert((fields + extra)[14] == fields[14] && (fields + extra)[15] == fields[15]);
    assert((fields + extra)[16] == fields[16] && (fields + extra)[17] == fields[17]);
    let comm = aiff_comm_at(fields, 0);
    assert(aiff_comm_at(fields + extra, 0) == comm);
    assert(aiff_walk(d, 12, None, None) == aiff_walk(d, 38, Some(comm), None));
    assert(aiff_walk(d2, 12, None, None) == aiff_walk(d2, 38 + l, Some(comm), None));
    assert forall|j: int| 38 <= j < d.len() implies #[trigger] d[j] == d2[j + l] by {
        assert(d[j] == rest[j - 38]);
        assert(d2[j + l] == rest[j - 38]);
    }
    assert forall|j: int| 0 <= j < 12 implies d2[j] == d[j] by {}
    lemma_aiff_walk_shifted(d, d2, 38, l, 38, Some(comm), None);
    lemma_aiff_walk_in_bounds(d, 38, 38, Some(comm), None);
    assert(shifted_range(None, l) == None::<(int, int)>);
    lemma_aiff_outcome_from_walks(d, d2, 38, l);
}

/// An AIFF file made of its FORM/AIFF header, an 18-byte `COMM` chunk of
/// 8, 16 or 24-bit samples, and an `SSND` chunk decodes to the samples of
/// the sound data, the `SSND` body past its offset and block size fields and
/// the offset: as many channels as `COMM` declares, each with its declared
/// number of frames, or as many whole frames as the sound data holds if
/// fewer; sample `f` of channel `c` the big-endian sample at byte
/// `(f * channels + c) * bytes_per_sample` of the sound data; the sample
/// size and the extended float sample rate those of `COMM`.
pub proof fn lemma_aiff_canonical(
    header: Seq<u8>,
    comm_id: Seq<u8>,
    size18: Seq<u8>,
    fields: Seq<u8>,
    ssnd_id: Seq<u8>,
    size: Seq<u8>,
    body: Seq<u8>,
    pad: u8,
)
    requires
        header.len() == 12,
        tag_at(header, 0, 0x46, 0x4f, 0x52, 0x4d),
        tag_at(header, 8, 0x41, 0x49, 0x46, 0x46),
        comm_id.len() == 4,
        tag_at(comm_id, 0, 0x43, 0x4f, 0x4d, 0x4d),
        size18.len() == 4,
        be_u32(size18, 0) == 18,
        fields.len() == 18,
        bytes_per_sample(be_u16(fields, 6) as u16) is Some,
        ssnd_id.len() == 4,
        tag_at(ssnd_id, 0, 0x53, 0x53, 0x4e, 0x44),
        size.len() == 4,
        body.len() == be_u32(size, 0),
        8 + be_u32(body, 0) <= body.len(),
    ensures
        aiff_outcome(
            header + chunk_bytes(comm_id, size18, fields, pad) + chunk_bytes(ssnd_id, size, body, pad),
        ) matches ParseOutcome::Parsed(m) && ({
            let bits = be_u16(fields, 6) as u16;
            let bps = bytes_per_sample(bits)->0;
            let n_ch = be_u16(fields, 0);
            let declared = be_u32(fields, 2);
            let sound = body.subrange(8 + be_u32(body, 0), body.len() as int);
            let fit = (sound.len() as int) / (n_ch * bps);
            &&& m.channels.len() == n_ch
            &&& m.bits_per_sample == bits
            &&& m.sample_rate == SampleRate::Extended(extended_at(fields, 8))
            &&& forall|c: int|
                0 <= c < n_ch ==> (#[trigger] m.channels[c]).len() == if declared < fit {
                    declared
                } else {
                    fit
                }
            &&& forall|c: int, f: int|
                0 <= c < n_ch && 0 <= f < m.channels[c].len() ==> #[trigger] m.channels[c][f]
                    == decode_be(sound, (f * n_ch + c) * bps, bits) as i32
        }),
{
    let c0 = chunk_bytes(comm_id, size18, fields, pad);
    let c1 = chunk_bytes(ssnd_id, size, body, pad);
    let d = header + c0 + c1;
    let n = body.len() as int;
    let off = be_u32(body, 0);
    assert(c0.len() == 26);
    assert(c1.len() == 8 + n + n % 2);
    assert forall|k: int| 0 <= k < c0.len() implies d[12 + k] == #[trigger] c0[k] by {}
    assert forall|k: int| 0 <= k < c1.len() implies d[38 + k] == #[trigger] c1[k] by {}
    lemma_aiff_chunk_step(d, 12, comm_id, size18, fields, pad, None, None);
    let comm = aiff_comm_at(fields, 0);
    assert(is_comm_chunk(comm_id, 0, 18));
    lemma_aiff_chunk_step(d, 38, ssnd_id, size, body, pad, Some(comm), None);
    assert(!is_comm_chunk(ssnd_id, 0, n));
    assert(is_ssnd_chunk(ssnd_id, 0, n));
    let start = 54 + off;
    let end = 46 + n;
    assert(aiff_walk(d, d.len() as int, Some(comm), Some((start, end))) == AiffWalk::Done(
        Some(comm),
        Some((start, end)),
    ));
    assert(aiff_walk(d, 12, None, None) == AiffWalk::Done(Some(comm), Some((start, end))));
    assert(has_aiff_header(d)) by {
        assert(d[0] == header[0] && d[1] == header[1] && d[2] == header[2] && d[3] == header[3]);
        assert(d[8] == header[8] && d[9] == header[9] && d[10] == header[10] && d[11] == header[11]);
    }
    let sound = body.subrange(8 + off, n);
    assert forall|k: int| 0 <= k < sound.len() implies d[start + k] == #[trigger] sound[k] by {
        assert(c1[8 + 8 + off + k] == body[8 + off + k]);
    }
    let bits = comm.sample_size;
    let bps = bytes_per_sample(bits)->0;
    let n_ch = comm.num_channels as int;
    assert(n_ch == be_u16(fields, 0));
    assert(comm.num_frames == be_u32(fields, 2));
    if let ParseOutcome::Parsed(m) = aiff_outcome(d) {
        let frame_size = bps * n_ch;
        assert(frame_size == n_ch * bps) by (nonlinear_arith)
            requires
                frame_size == bps * n_ch,
        ;
        if n_ch > 0 {
            let fit = (end - start) / frame_size;
            let frames = if comm.num_frames < fit {
                comm.num_frames as int
            } else {
                fit
            };
            assert(frame_size > 0) by (nonlinear_arith)
                requires
                    frame_size == n_ch * bps,
                    n_ch > 0,
                    bps >= 1,
            ;
            assert(fit * (n_ch * bps) <= end - start) by (nonlinear_arith)
                requires
                    fit == (end - start) / frame_size,
                    frame_size == n_ch * bps,
                    frame_size > 0,
                    start <= end,
            ;
            assert forall|c: int, f: int|
                0 <= c < n_ch && 0 <= f < m.channels[c].len() implies #[trigger] m.channels[c][f]
                    == decode_be(sound, (f * n_ch + c) * bps, bits) as i32 by {
                lemma_sample_in_sound(n_ch, frames, bps, fit, end - start, f, c);
                let k = (f * n_ch + c) * bps;
                assert(sound[k] == d[start + k]);
                if bps >= 2 {
                    assert(sound[k + 1] == d[start + k + 1]);
                }
                if bps >= 3 {
                    assert(sound[k + 2] == d[start + k + 2]);
                }
                assert(decode_be(sound, k, bits) == decode_be(d, start + k, bits));
            }
        }
    }
}

} // verus!
