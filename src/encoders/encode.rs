//! Choice of a content encoding by the size of its output.
use vstd::prelude::*;

use crate::encoders::base64::{base64_encode_mime, base64_of};
use crate::encoders::quoted_printable::{inline_quoted_printable_encode, q_encode, trailing_blank};
use crate::encoders::{push_bytes, within_limits};

verus! {

/// The encoding chosen for a run of bytes.
#[derive(Debug, Clone, Copy, PartialEq, Eq, Structural)]
pub enum EncodingType {
    Base64,
    /// Quoted-printable; the flag tells whether every byte is below 127, so
    /// that an encoded word may be labelled `us-ascii`.
    QuotedPrintable(bool),
    NoEncoding,
}

/// Whether the byte at `pos` makes the bytes unsafe to send unencoded: it is
/// not 7-bit, or it is a blank at the end of a line or of the input.
pub open spec fn unsafe_at(s: Seq<u8>, pos: int) -> bool {
    s[pos] >= 127 || trailing_blank(s, pos)
}

/// Whether the size estimate counts the byte at `pos` as a three-byte
/// escape: an unsafe byte, `=`, and inline also tab and `?` (encoded-word
/// syntax). The estimate is the same for bodies and attachments.
pub open spec fn escape_cost_at(s: Seq<u8>, pos: int, is_inline: bool, is_body: bool) -> bool {
    unsafe_at(s, pos) || s[pos] == 61 || (is_inline && (s[pos] == 9 || s[pos] == 63))
}

/// Estimated quoted-printable size of the first `n` bytes: three for an
/// escaped byte, one for any other.
pub open spec fn qp_cost(s: Seq<u8>, n: int, is_inline: bool, is_body: bool) -> int
    decreases n,
{
    if n <= 0 {
        0
    } else {
        qp_cost(s, n - 1, is_inline, is_body) + if escape_cost_at(s, n - 1, is_inline, is_body) {
            3int
        } else {
            1int
        }
    }
}

/// Estimated quoted-printable size, with one byte per 76 for soft line breaks
/// unless the text is inline.
pub open spec fn qp_estimate(s: Seq<u8>, is_inline: bool, is_body: bool) -> int {
    (if is_inline {
        0
    } else {
        s.len() / 76
    }) + qp_cost(s, s.len() as int, is_inline, is_body)
}

/// Exact base64 size (without line breaks).
pub open spec fn base64_size(n: int) -> int {
    (n + 2) / 3 * 4
}

/// Number of bytes after the last LF among the first `n`.
pub open spec fn line_run(s: Seq<u8>, n: int) -> int
    decreases n,
{
    if n <= 0 {
        0
    } else if s[n - 1] == 10 {
        0
    } else {
        line_run(s, n - 1) + 1
    }
}

/// Whether some line among the first `n` bytes is longer than 997 bytes.
pub open spec fn has_long_line(s: Seq<u8>, n: int) -> bool
    decreases n,
{
    n > 0 && (has_long_line(s, n - 1) || line_run(s, n) > 997)
}

/// Whether the bytes cannot go unencoded.
pub open spec fn needs_encoding(s: Seq<u8>, is_inline: bool) -> bool {
    (exists|i: int| 0 <= i < s.len() && #[trigger] unsafe_at(s, i)) || (!is_inline
        && has_long_line(s, s.len() as int))
}

/// Whether every byte is below 127.
pub open spec fn all_ascii(s: Seq<u8>) -> bool {
    forall|i: int| 0 <= i < s.len() ==> #[trigger] s[i] < 127
}

/// The encoding for `s`: none where none is needed, else the smaller of
/// quoted-printable and base64.
pub open spec fn encoding_type(s: Seq<u8>, is_inline: bool, is_body: bool) -> EncodingType {
    if !needs_encoding(s, is_inline) {
        EncodingType::NoEncoding
    } else if qp_estimate(s, is_inline, is_body) < base64_size(s.len() as int) {
        EncodingType::QuotedPrintable(all_ascii(s))
    } else {
        EncodingType::Base64
    }
}

proof fn lemma_qp_cost_bound(s: Seq<u8>, n: int, is_inline: bool, is_body: bool)
    requires
        0 <= n,
    ensures
        n <= qp_cost(s, n, is_inline, is_body) <= 3 * n,
    decreases n,
{
    if n > 0 {
        lemma_qp_cost_bound(s, n - 1, is_inline, is_body);
    }
}

proof fn lemma_line_run_bound(s: Seq<u8>, n: int)
    requires
        0 <= n,
    ensures
        0 <= line_run(s, n) <= n,
    decreases n,
{
    if n > 0 {
        lemma_line_run_bound(s, n - 1);
    }
}

/// Picks the encoding for `input`: `is_inline` when it goes into an encoded
/// word of a header, `is_body` when it is a body rather than an attachment
/// (the choice is the same for both; see `encoding_type`).
pub fn get_encoding_type(input: &[u8], is_inline: bool, is_body: bool) -> (r: EncodingType)
    requires
        within_limits(input@.len() as int),
    ensures
        r == encoding_type(input@, is_inline, is_body),
{
    let n = input.len();
    let ghost s = input@;
    let base64_len = (n + 2) / 3 * 4;
    let mut qp_len: usize = 0;
    let mut is_ascii = true;
    let mut is_unsafe = false;
    let mut long_line = false;
    let mut line_len: usize = 0;
    let mut pos: usize = 0;
    while pos < n
        invariant
            n == s.len(),
            s == input@,
            within_limits(n as int),
            pos <= n,
            qp_len == qp_cost(s, pos as int, is_inline, is_body),
            line_len == line_run(s, pos as int),
            long_line == has_long_line(s, pos as int),
            is_ascii == (forall|i: int| 0 <= i < pos ==> #[trigger] s[i] < 127),
            is_unsafe == (exists|i: int| 0 <= i < pos && #[trigger] unsafe_at(s, i)),
        decreases n - pos,
    {
        proof {
            lemma_qp_cost_bound(s, pos as int, is_inline, is_body);
            lemma_line_run_bound(s, pos as int);
        }
        let ch = input[pos];
        let blank_end = (ch == 32 || ch == 9) && (pos + 1 == n || input[pos + 1] == 10 || (pos + 2
            < n && input[pos + 1] == 13 && input[pos + 2] == 10));
        let unsafe_here = ch >= 127 || blank_end;
        let escaped = unsafe_here || ch == 61 || (is_inline && (ch == 9 || ch == 63));
        proof {
            assert(unsafe_here == unsafe_at(s, pos as int));
            assert(escaped == escape_cost_at(s, pos as int, is_inline, is_body));
        }
        if escaped {
            qp_len = qp_len + 3;
        } else {
            qp_len = qp_len + 1;
        }
        if ch == 10 {
            line_len = 0;
        } else {
            line_len = line_len + 1;
        }
        if line_len > 997 {
            long_line = true;
        }
        if unsafe_here {
            is_unsafe = true;
        }
        if ch >= 127 {
            is_ascii = false;
        }
        proof {
            if unsafe_here {
                assert(unsafe_at(s, pos as int));
            }
            if !is_ascii {
                if ch >= 127 {
                    assert(!(s[pos as int] < 127));
                }
            }
        }
        pos = pos + 1;
    }
    proof {
        lemma_qp_cost_bound(s, n as int, is_inline, is_body);
    }
    let needs = is_unsafe || (!is_inline && long_line);
    let estimate = if is_inline {
        qp_len
    } else {
        qp_len + n / 76
    };
    if !needs {
        EncodingType::NoEncoding
    } else if estimate < base64_len {
        EncodingType::QuotedPrintable(is_ascii)
    } else {
        EncodingType::Base64
    }
}

/// `=?utf-8?Q?`
pub open spec fn utf8_q_prefix() -> Seq<u8> {
    seq![61u8, 63, 117, 116, 102, 45, 56, 63, 81, 63]
}

/// `=?us-ascii?Q?`
pub open spec fn ascii_q_prefix() -> Seq<u8> {
    seq![61u8, 63, 117, 115, 45, 97, 115, 99, 105, 105, 63, 81, 63]
}

/// `=?utf-8?B?`
pub open spec fn utf8_b_prefix() -> Seq<u8> {
    seq![61u8, 63, 117, 116, 102, 45, 56, 63, 66, 63]
}

/// `?=`, the end of an encoded word.
pub open spec fn word_end() -> Seq<u8> {
    seq![63u8, 61]
}

/// The opening of a "Q" encoded word, by the charset the text needs.
pub open spec fn q_prefix(is_ascii: bool) -> Seq<u8> {
    if is_ascii {
        ascii_q_prefix()
    } else {
        utf8_q_prefix()
    }
}

/// A header value as RFC 2047 writes it: unchanged where no encoding is
/// needed, else one "Q" or "B" encoded word, whichever is shorter.
pub open spec fn rfc2047_of(s: Seq<u8>) -> Seq<u8> {
    match encoding_type(s, true, false) {
        EncodingType::NoEncoding => s,
        EncodingType::QuotedPrintable(is_ascii) => q_prefix(is_ascii) + q_encode(s) + word_end(),
        EncodingType::Base64 => utf8_b_prefix() + base64_of(s) + word_end(),
    }
}

/// Writes the opening of a "Q" encoded word.
pub fn push_q_prefix(output: &mut Vec<u8>, is_ascii: bool)
    ensures
        final(output)@ == old(output)@ + q_prefix(is_ascii),
{
    if is_ascii {
        push_bytes(output, &[61u8, 63, 117, 115, 45, 97, 115, 99, 105, 105, 63, 81, 63]);
    } else {
        push_bytes(output, &[61u8, 63, 117, 116, 102, 45, 56, 63, 81, 63]);
    }
}

proof fn lemma_q_encode_len(s: Seq<u8>)
    ensures
        s.len() <= q_encode(s).len() <= 3 * s.len(),
    decreases s.len(),
{
    if s.len() > 0 {
        lemma_q_encode_len(s.drop_last());
    }
}

/// Bounds on the length of an encoded value.
pub proof fn lemma_rfc2047_len(s: Seq<u8>)
    ensures
        rfc2047_of(s).len() <= 3 * s.len() + 15,
{
    lemma_q_encode_len(s);
    crate::encoders::base64::lemma_base64_len(s);
}

/// Writes `input` as RFC 2047 would (see `rfc2047_of`); returns the number
/// of bytes written.
pub fn rfc2047_encode(bytes: &[u8], output: &mut Vec<u8>) -> (r: usize)
    requires
        within_limits(bytes@.len() as int),
    ensures
        final(output)@ == old(output)@ + rfc2047_of(bytes@),
        r == rfc2047_of(bytes@).len(),
{
    proof {
        lemma_rfc2047_len(bytes@);
    }
    match get_encoding_type(bytes, true, false) {
        EncodingType::NoEncoding => {
            push_bytes(output, bytes);
            bytes.len()
        },
        EncodingType::QuotedPrintable(is_ascii) => {
            push_q_prefix(output, is_ascii);
            let n = inline_quoted_printable_encode(bytes, output);
            push_bytes(output, &[63u8, 61]);
            proof {
                assert(final(output)@ =~= old(output)@ + rfc2047_of(bytes@));
            }
            if is_ascii {
                n + 15
            } else {
                n + 12
            }
        },
        EncodingType::Base64 => {
            push_bytes(output, &[61u8, 63, 117, 116, 102, 45, 56, 63, 66, 63]);
            let n = base64_encode_mime(bytes, output, true);
            push_bytes(output, &[63u8, 61]);
            proof {
                assert(final(output)@ =~= old(output)@ + rfc2047_of(bytes@));
            }
            n + 12
        },
    }
}

} // verus!
