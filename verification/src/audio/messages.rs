//! Error messages that hold numbers or bytes of the file.

use vstd::prelude::*;
use vstd::string::StringExecFns;

verus! {

/// The character of the decimal digit `d` (`0 <= d < 10`).
pub open spec fn digit_char(d: int) -> char {
    (48 + d) as char
}

/// The decimal notation of `n`, without leading zeros.
pub open spec fn decimal(n: nat) -> Seq<char>
    decreases n,
{
    if n < 10 {
        seq![digit_char(n as int)]
    } else {
        decimal(n / 10).push(digit_char((n % 10) as int))
    }
}

/// The text of `bytes` decoded as UTF-8, each invalid sequence replaced by
/// U+FFFD (what `String::from_utf8_lossy` gives).
pub uninterp spec fn utf8_lossy_text(bytes: Seq<u8>) -> Seq<char>;

/// The message for a WAV chunk with tag `id` whose declared `size` exceeds
/// the `remaining` bytes.
pub open spec fn wav_truncated_chunk_text(id: Seq<u8>, size: nat, remaining: nat) -> Seq<char> {
    "WAV chunk '"@ + utf8_lossy_text(id) + "' declares size "@ + decimal(size) + " but only "@
        + decimal(remaining) + " bytes remain"@
}

/// The message for a WAV format tag other than PCM.
pub open spec fn wav_format_tag_text(format_tag: u16) -> Seq<char> {
    "WAV format tag "@ + decimal(format_tag as nat) + " (only PCM/1 supported)"@
}

/// The message for a WAV bit depth other than 8, 16 and 24.
pub open spec fn wav_bit_depth_text(bits: u16) -> Seq<char> {
    "unsupported WAV bit depth: "@ + decimal(bits as nat)
}

/// The message for an AIFF bit depth other than 8, 16 and 24.
pub open spec fn aiff_bit_depth_text(bits: u16) -> Seq<char> {
    "unsupported AIFF bit depth: "@ + decimal(bits as nat)
}

/// `String::from_utf8_lossy` of the bytes, as an owned `String`: the bytes
/// decoded as UTF-8 with each invalid sequence replaced by U+FFFD. The
/// contract names that text, and states that ASCII bytes come through as
/// their characters.
#[verifier::external_body]
fn utf8_lossy(bytes: [u8; 4]) -> (s: String)
    ensures
        s@ == utf8_lossy_text(bytes@),
        (forall|i: int| 0 <= i < 4 ==> #[trigger] bytes@[i] < 128) ==> s@ == bytes@.map_values(
            |b: u8| b as char,
        ),
{
    String::from_utf8_lossy(&bytes).into_owned()
}

/// The string of the decimal digit `d`.
fn digit_str(d: u64) -> (s: &'static str)
    requires
        d < 10,
    ensures
        s@ == seq![digit_char(d as int)],
{
    proof {
        reveal_strlit("0");
        reveal_strlit("1");
        reveal_strlit("2");
        reveal_strlit("3");
        reveal_strlit("4");
        reveal_strlit("5");
        reveal_strlit("6");
        reveal_strlit("7");
        reveal_strlit("8");
        reveal_strlit("9");
    }
    if d == 0 {
        "0"
    } else if d == 1 {
        "1"
    } else if d == 2 {
        "2"
    } else if d == 3 {
        "3"
    } else if d == 4 {
        "4"
    } else if d == 5 {
        "5"
    } else if d == 6 {
        "6"
    } else if d == 7 {
        "7"
    } else if d == 8 {
        "8"
    } else {
        "9"
    }
}

/// Append the decimal notation of `n`.
pub fn append_decimal(s: &mut String, n: u64)
    ensures
        final(s)@ == old(s)@ + decimal(n as nat),
    decreases n,
{
    if n >= 10 {
        append_decimal(s, n / 10);
    }
    s.append(digit_str(n % 10));
    assert(final(s)@ =~= old(s)@ + decimal(n as nat));
}

/// The message for a WAV chunk with tag `id` whose declared `size` exceeds
/// the `remaining` bytes.
pub(crate) fn wav_truncated_chunk_message(id: [u8; 4], size: u32, remaining: usize) -> (s: String)
    ensures
        s@ == wav_truncated_chunk_text(id@, size as nat, remaining as nat),
{
    let mut s = String::from_str("WAV chunk '");
    let tag = utf8_lossy(id);
    s.append(tag.as_str());
    s.append("' declares size ");
    append_decimal(&mut s, size as u64);
    s.append(" but only ");
    append_decimal(&mut s, remaining as u64);
    s.append(" bytes remain");
    s
}

/// The message for a WAV format tag other than PCM.
pub(crate) fn wav_format_tag_message(format_tag: u16) -> (s: String)
    ensures
        s@ == wav_format_tag_text(format_tag),
{
    let mut s = String::from_str("WAV format tag ");
    append_decimal(&mut s, format_tag as u64);
    s.append(" (only PCM/1 supported)");
    s
}

/// The message for a WAV bit depth other than 8, 16 and 24.
pub(crate) fn wav_bit_depth_message(bits: u16) -> (s: String)
    ensures
        s@ == wav_bit_depth_text(bits),
{
    let mut s = String::from_str("unsupported WAV bit depth: ");
    append_decimal(&mut s, bits as u64);
    s
}

/// The message for an AIFF bit depth other than 8, 16 and 24.
pub(crate) fn aiff_bit_depth_message(bits: u16) -> (s: String)
    ensures
        s@ == aiff_bit_depth_text(bits),
{
    let mut s = String::from_str("unsupported AIFF bit depth: ");
    append_decimal(&mut s, bits as u64);
    s
}

} // verus!
