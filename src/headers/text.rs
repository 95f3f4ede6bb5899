//! Unstructured text header values, RFC 2047-encoded where needed.
use vstd::prelude::*;

use crate::encoders::base64::{base64_encode_mime, base64_of};
use crate::encoders::encode::{
    encoding_type, get_encoding_type, push_q_prefix, q_prefix, utf8_b_prefix, EncodingType,
};
use crate::encoders::quoted_printable::{q_byte, q_encode, quoted_printable_encode_byte};
use crate::encoders::{push_bytes, within_limits};
use crate::headers::raw::{blank_folded, write_folded_at_blanks};
use crate::headers::Header;
use vstd::utf8::encode_utf8;

verus! {

broadcast use vstd::seq_lib::group_seq_properties;

/// A UTF-8 continuation byte (`10xxxxxx`): no character starts there.
pub open spec fn is_continuation(b: u8) -> bool {
    128 <= b < 192
}

/// `?=` CRLF and a tab: the end of an encoded word and the fold after it.
pub open spec fn word_fold() -> Seq<u8> {
    seq![63u8, 61, 13, 10, 9]
}

/// `?=` CRLF: the end of the last encoded word.
pub open spec fn word_close() -> Seq<u8> {
    seq![63u8, 61, 13, 10]
}

/// The "Q" path cuts the text into chunks, one per encoded word. A new chunk
/// starts before a byte where the line has reached 76 columns, unless the
/// byte continues a character. Returns the chunks of the first `n` bytes and
/// the column after them; the line starts at column `col` with an opening
/// of `plen` bytes.
pub open spec fn q_chunk_run(s: Seq<u8>, n: int, plen: int, col: int) -> (Seq<Seq<u8>>, int)
    decreases n,
{
    if n <= 0 {
        (seq![seq![]], col + plen)
    } else {
        let prev = q_chunk_run(s, n - 1, plen, col);
        let ch = s[n - 1];
        if prev.1 >= 76 && (n == 1 || !is_continuation(ch)) {
            (prev.0.push(seq![ch]), 1 + plen + q_byte(ch).len())
        } else {
            (prev.0.drop_last().push(prev.0.last().push(ch)), prev.1 + q_byte(ch).len())
        }
    }
}

/// The "Q" encoded words of the chunks, each opened by `prefix`, joined by a
/// fold (without the end of the last word).
pub open spec fn q_words(chunks: Seq<Seq<u8>>, prefix: Seq<u8>) -> Seq<u8>
    decreases chunks.len(),
{
    if chunks.len() == 0 {
        seq![]
    } else if chunks.len() == 1 {
        prefix + q_encode(chunks[0])
    } else {
        q_words(chunks.drop_last(), prefix) + word_fold() + prefix + q_encode(chunks.last())
    }
}

/// The "B" path cuts the text into chunks of at least `k` bytes, each
/// ended at a character start.
pub open spec fn b_chunk_run(s: Seq<u8>, n: int, k: int) -> Seq<Seq<u8>>
    decreases n,
{
    if n <= 0 {
        seq![seq![]]
    } else {
        let prev = b_chunk_run(s, n - 1, k);
        let ch = s[n - 1];
        if prev.last().len() >= k && !is_continuation(ch) {
            prev.push(seq![ch])
        } else {
            prev.drop_last().push(prev.last().push(ch))
        }
    }
}

/// The "B" encoded words of the chunks, one per line, continuation lines
/// opened by a tab.
pub open spec fn b_words(chunks: Seq<Seq<u8>>) -> Seq<u8>
    decreases chunks.len(),
{
    if chunks.len() == 0 {
        seq![]
    } else {
        b_words(chunks.drop_last()) + (if chunks.len() > 1 {
            seq![9u8]
        } else {
            seq![]
        }) + utf8_b_prefix() + base64_of(chunks.last()) + word_close()
    }
}

/// Bytes of text per "B" word when the line starts at column `col`.
pub open spec fn b_chunk_len(col: int) -> int {
    if col < 75 {
        76 - col
    } else {
        1
    }
}

/// The bytes written for text `s` from column `col`: folded at blanks where
/// no encoding is needed, else "Q" or "B" encoded words.
pub open spec fn text_bytes(s: Seq<u8>, col: int) -> Seq<u8> {
    match encoding_type(s, true, false) {
        EncodingType::NoEncoding => blank_folded(s, col),
        EncodingType::QuotedPrintable(is_ascii) => q_words(
            q_chunk_run(s, s.len() as int, q_prefix(is_ascii).len() as int, col).0,
            q_prefix(is_ascii),
        ) + word_close(),
        EncodingType::Base64 => b_words(b_chunk_run(s, s.len() as int, b_chunk_len(col))),
    }
}

/// Whether the chunks cut `s` only where a character starts: they join up
/// to `s`, and each one after the first is non-empty and begins with a byte
/// that is not a continuation byte, or at the very start of `s` (the first
/// chunk being empty).
pub open spec fn splits_at_characters(chunks: Seq<Seq<u8>>, s: Seq<u8>) -> bool {
    &&& chunks.flatten() == s
    &&& forall|i: int|
        1 <= i < chunks.len() ==> (#[trigger] chunks[i]).len() > 0 && (!is_continuation(
            chunks[i][0],
        ) || (i == 1 && chunks[0].len() == 0))
}

proof fn lemma_flatten_replace_last(cs: Seq<Seq<u8>>, ch: u8)
    requires
        cs.len() > 0,
    ensures
        cs.drop_last().push(cs.last().push(ch)).flatten() == cs.flatten().push(ch),
{
    cs.drop_last().lemma_flatten_push(cs.last());
    cs.drop_last().lemma_flatten_push(cs.last().push(ch));
    assert(cs.drop_last().push(cs.last()) =~= cs);
    assert(cs.drop_last().flatten() + cs.last().push(ch) =~= (cs.drop_last().flatten()
        + cs.last()).push(ch));
}

/// The "Q" path of a text header never puts a fold inside a character:
/// its chunks join up to the text and each later one begins where a
/// character starts.
pub proof fn lemma_q_words_split_at_characters(s: Seq<u8>, n: int, plen: int, col: int)
    requires
        0 <= n <= s.len(),
    ensures
        q_chunk_run(s, n, plen, col).0.len() >= 1,
        splits_at_characters(q_chunk_run(s, n, plen, col).0, s.take(n)),
    decreases n,
{
    if n == 0 {
        assert(seq![Seq::<u8>::empty()].flatten() =~= Seq::<u8>::empty()) by {
            reveal_with_fuel(Seq::flatten, 2);
        }
        assert(s.take(0) =~= Seq::<u8>::empty());
    } else {
        lemma_q_words_split_at_characters(s, n - 1, plen, col);
        let prev = q_chunk_run(s, n - 1, plen, col);
        let ch = s[n - 1];
        assert(s.take(n) =~= s.take(n - 1).push(ch));
        if prev.1 >= 76 && (n == 1 || !is_continuation(ch)) {
            prev.0.lemma_flatten_push(seq![ch]);
            assert(s.take(n - 1) + seq![ch] =~= s.take(n));
            if n == 1 {
                assert(prev.0 =~= seq![Seq::<u8>::empty()]);
            }
        } else {
            lemma_flatten_replace_last(prev.0, ch);
            let cs = prev.0.drop_last().push(prev.0.last().push(ch));
            assert forall|i: int| 1 <= i < cs.len() implies (#[trigger] cs[i]).len() > 0
                && (!is_continuation(cs[i][0]) || (i == 1 && cs[0].len() == 0)) by {
                if i < cs.len() - 1 {
                    assert(cs[i] == prev.0[i]);
                } else {
                    assert(cs[i][0] == prev.0[i][0]);
                    if i == 1 {
                        assert(cs[0] == prev.0[0]);
                    }
                }
            }
        }
    }
}

/// The "B" path of a text header never puts a fold inside a character.
pub proof fn lemma_b_words_split_at_characters(s: Seq<u8>, n: int, k: int)
    requires
        0 <= n <= s.len(),
        k >= 1,
    ensures
        b_chunk_run(s, n, k).len() >= 1,
        splits_at_characters(b_chunk_run(s, n, k), s.take(n)),
    decreases n,
{
    if n == 0 {
        assert(seq![Seq::<u8>::empty()].flatten() =~= Seq::<u8>::empty()) by {
            reveal_with_fuel(Seq::flatten, 2);
        }
        assert(s.take(0) =~= Seq::<u8>::empty());
    } else {
        lemma_b_words_split_at_characters(s, n - 1, k);
        let prev = b_chunk_run(s, n - 1, k);
        let ch = s[n - 1];
        assert(s.take(n) =~= s.take(n - 1).push(ch));
        if prev.last().len() >= k && !is_continuation(ch) {
            prev.lemma_flatten_push(seq![ch]);
            assert(s.take(n - 1) + seq![ch] =~= s.take(n));
        } else {
            lemma_flatten_replace_last(prev, ch);
            let cs = prev.drop_last().push(prev.last().push(ch));
            assert forall|i: int| 1 <= i < cs.len() implies (#[trigger] cs[i]).len() > 0
                && (!is_continuation(cs[i][0]) || (i == 1 && cs[0].len() == 0)) by {
                if i < cs.len() - 1 {
                    assert(cs[i] == prev[i]);
                } else {
                    assert(cs[i][0] == prev[i][0]);
                    if i == 1 {
                        assert(cs[0] == prev[0]);
                    }
                }
            }
        }
    }
}

/// A text header value is folded into encoded words only where a character
/// starts: the chunks behind its "Q" or "B" words join up to the text and
/// each later one begins at a character start.
pub proof fn lemma_text_folds_at_characters(s: Seq<u8>, col: int)
    ensures
        match encoding_type(s, true, false) {
            EncodingType::QuotedPrintable(is_ascii) => splits_at_characters(
                q_chunk_run(s, s.len() as int, q_prefix(is_ascii).len() as int, col).0,
                s,
            ),
            EncodingType::Base64 => splits_at_characters(
                b_chunk_run(s, s.len() as int, b_chunk_len(col)),
                s,
            ),
            EncodingType::NoEncoding => true,
        },
{
    assert(s.take(s.len() as int) =~= s);
    match encoding_type(s, true, false) {
        EncodingType::QuotedPrintable(is_ascii) => {
            lemma_q_words_split_at_characters(s, s.len() as int, q_prefix(is_ascii).len() as int, col);
        },
        EncodingType::Base64 => {
            lemma_b_words_split_at_characters(s, s.len() as int, b_chunk_len(col));
        },
        EncodingType::NoEncoding => {},
    }
}

proof fn lemma_q_encode_push(c: Seq<u8>, ch: u8)
    ensures
        q_encode(c.push(ch)) == q_encode(c) + q_byte(ch),
{
    assert(c.push(ch).drop_last() =~= c);
}

proof fn lemma_q_words_new_chunk(cs: Seq<Seq<u8>>, prefix: Seq<u8>, ch: u8)
    requires
        cs.len() >= 1,
    ensures
        q_words(cs.push(seq![ch]), prefix) == q_words(cs, prefix) + word_fold() + prefix + q_byte(
            ch,
        ),
{
    assert(cs.push(seq![ch]).drop_last() =~= cs);
    lemma_q_encode_push(Seq::<u8>::empty(), ch);
    assert(Seq::<u8>::empty().push(ch) =~= seq![ch]);
    assert(q_encode(Seq::<u8>::empty()) =~= Seq::<u8>::empty());
    assert(Seq::<u8>::empty() + q_byte(ch) =~= q_byte(ch));
}

proof fn lemma_q_words_extend(cs: Seq<Seq<u8>>, prefix: Seq<u8>, ch: u8)
    requires
        cs.len() >= 1,
    ensures
        q_words(cs.drop_last().push(cs.last().push(ch)), prefix) == q_words(cs, prefix) + q_byte(
            ch,
        ),
{
    let ds = cs.drop_last().push(cs.last().push(ch));
    lemma_q_encode_push(cs.last(), ch);
    assert(ds.drop_last() =~= cs.drop_last());
    if cs.len() == 1 {
        assert(q_words(ds, prefix) =~= q_words(cs, prefix) + q_byte(ch));
    } else {
        assert(q_words(ds, prefix) =~= q_words(cs, prefix) + q_byte(ch));
    }
}

/// Writes `s` as "Q" encoded words from column `col`.
fn write_q_words(s: &[u8], output: &mut Vec<u8>, col: usize, is_ascii: bool)
    requires
        within_limits(s@.len() as int),
        within_limits(col as int),
    ensures
        final(output)@ == old(output)@ + q_words(
            q_chunk_run(s@, s@.len() as int, q_prefix(is_ascii).len() as int, col as int).0,
            q_prefix(is_ascii),
        ) + word_close(),
{
    let ghost start = output@;
    let ghost prefix = q_prefix(is_ascii);
    push_q_prefix(output, is_ascii);
    let plen: usize = if is_ascii {
        13
    } else {
        10
    };
    assert(prefix.len() == plen);
    let n = s.len();
    let mut c: usize = col + plen;
    let mut pos: usize = 0;
    proof {
        reveal_with_fuel(q_encode, 1);
        assert(output@ =~= start + q_words(q_chunk_run(s@, 0, plen as int, col as int).0, prefix));
    }
    while pos < n
        invariant
            n == s@.len(),
            within_limits(n as int),
            within_limits(col as int),
            prefix == q_prefix(is_ascii),
            prefix.len() == plen,
            plen <= 13,
            pos <= n,
            c <= col + plen + 3 * pos + 20,
            q_chunk_run(s@, pos as int, plen as int, col as int).0.len() >= 1,
            output@ == start + q_words(q_chunk_run(s@, pos as int, plen as int, col as int).0, prefix),
            c == q_chunk_run(s@, pos as int, plen as int, col as int).1,
        decreases n - pos,
    {
        let ch = s[pos];
        let ghost prev = q_chunk_run(s@, pos as int, plen as int, col as int);
        let ghost before = output@;
        if c >= 76 && (pos == 0 || ch < 128 || ch >= 192) {
            push_bytes(output, &[63u8, 61, 13, 10, 9]);
            push_q_prefix(output, is_ascii);
            c = 1 + plen;
            let w = quoted_printable_encode_byte(ch, output);
            c = c + w;
            proof {
                lemma_q_words_new_chunk(prev.0, prefix, ch);
                assert(output@ =~= start + q_words(prev.0.push(seq![ch]), prefix));
            }
        } else {
            let w = quoted_printable_encode_byte(ch, output);
            c = c + w;
            proof {
                lemma_q_words_extend(prev.0, prefix, ch);
                assert(output@ =~= start + q_words(
                    prev.0.drop_last().push(prev.0.last().push(ch)),
                    prefix,
                ));
            }
        }
        pos = pos + 1;
    }
    push_bytes(output, &[63u8, 61, 13, 10]);
}

/// Writes one "B" encoded word and its line end.
fn push_b_word(output: &mut Vec<u8>, chunk: &[u8], first: bool)
    requires
        within_limits(chunk@.len() as int),
    ensures
        final(output)@ == old(output)@ + (if !first {
            seq![9u8]
        } else {
            seq![]
        }) + utf8_b_prefix() + base64_of(chunk@) + word_close(),
{
    let ghost start = output@;
    if !first {
        output.push(9);
    }
    push_bytes(output, &[61u8, 63, 117, 116, 102, 45, 56, 63, 66, 63]);
    base64_encode_mime(chunk, output, true);
    push_bytes(output, &[63u8, 61, 13, 10]);
    proof {
        assert(final(output)@ =~= start + (if !first {
            seq![9u8]
        } else {
            seq![]
        }) + utf8_b_prefix() + base64_of(chunk@) + word_close());
    }
}

proof fn lemma_b_words_new_chunk(prev: Seq<Seq<u8>>, ch: u8)
    requires
        prev.len() >= 1,
    ensures
        prev.push(seq![ch]).drop_last() == prev,
        prev.push(seq![ch]).last() == seq![ch],
        b_words(prev) == b_words(prev.drop_last()) + (if prev.len() > 1 {
            seq![9u8]
        } else {
            seq![]
        }) + utf8_b_prefix() + base64_of(prev.last()) + word_close(),
{
    assert(prev.push(seq![ch]).drop_last() =~= prev);
}

proof fn lemma_b_words_extend(prev: Seq<Seq<u8>>, ch: u8)
    requires
        prev.len() >= 1,
    ensures
        prev.drop_last().push(prev.last().push(ch)).drop_last() == prev.drop_last(),
        prev.drop_last().push(prev.last().push(ch)).last() == prev.last().push(ch),
        prev.drop_last().push(prev.last().push(ch)).len() == prev.len(),
{
    assert(prev.drop_last().push(prev.last().push(ch)).drop_last() =~= prev.drop_last());
}

/// Writes `s` as "B" encoded words of at least `k` bytes each.
#[verifier::rlimit(30)]
fn write_b_words(s: &[u8], output: &mut Vec<u8>, k: usize)
    requires
        within_limits(s@.len() as int),
        k >= 1,
    ensures
        final(output)@ == old(output)@ + b_words(b_chunk_run(s@, s@.len() as int, k as int)),
{
    let ghost start = output@;
    let n = s.len();
    let mut chunk_start: usize = 0;
    let mut pos: usize = 0;
    proof {
        assert(s@.subrange(0, 0) =~= Seq::<u8>::empty());
        assert(start + Seq::<u8>::empty() =~= start);
    }
    while pos < n
        invariant
            n == s@.len(),
            within_limits(n as int),
            k >= 1,
            chunk_start <= pos <= n,
            b_chunk_run(s@, pos as int, k as int).len() >= 1,
            b_chunk_run(s@, pos as int, k as int).last() == s@.subrange(chunk_start as int, pos as int),
            chunk_start == 0 <==> b_chunk_run(s@, pos as int, k as int).len() == 1,
            output@ == start + b_words(b_chunk_run(s@, pos as int, k as int).drop_last()),
        decreases n - pos,
    {
        let ch = s[pos];
        let ghost prev = b_chunk_run(s@, pos as int, k as int);
        if pos - chunk_start >= k && !(128 <= ch && ch < 192) {
            let chunk = vstd::slice::slice_subrange(s, chunk_start, pos);
            push_b_word(output, chunk, chunk_start == 0);
            chunk_start = pos;
            proof {
                lemma_b_words_new_chunk(prev, ch);
                assert(s@.subrange(pos as int, pos + 1) =~= seq![ch]);
            }
        } else {
            proof {
                lemma_b_words_extend(prev, ch);
                assert(s@.subrange(chunk_start as int, pos + 1) =~= prev.last().push(ch));
            }
        }
        pos = pos + 1;
    }
    let chunk = vstd::slice::slice_subrange(s, chunk_start, n);
    push_b_word(output, chunk, chunk_start == 0);
    proof {
        let cs = b_chunk_run(s@, n as int, k as int);
        assert(cs.drop_last().push(cs.last()) =~= cs);
    }
}

/// Unstructured text header value.
pub struct Text {
    pub text: String,
}

impl Text {
    /// A text header value.
    pub fn new(text: &str) -> (r: Text)
        ensures
            r.text@ == text@,
    {
        Text { text: text.to_owned() }
    }
}

impl Header for Text {
    open spec fn writable(&self, col: int) -> bool {
        within_limits(col) && within_limits(encode_utf8(self.text@).len() as int)
    }

    open spec fn header_bytes(&self, col: int) -> Seq<u8> {
        text_bytes(encode_utf8(self.text@), col)
    }

    open spec fn header_col(&self, col: int) -> int {
        0
    }

    fn write_header(&self, output: &mut Vec<u8>, bytes_written: usize) -> (r: usize) {
        let s = self.text.as_str().as_bytes();
        match get_encoding_type(s, true, false) {
            EncodingType::NoEncoding => write_folded_at_blanks(s, output, bytes_written),
            EncodingType::QuotedPrintable(is_ascii) => write_q_words(
                s,
                output,
                bytes_written,
                is_ascii,
            ),
            EncodingType::Base64 => {
                let k: usize = if bytes_written < 75 {
                    76 - bytes_written
                } else {
                    1
                };
                write_b_words(s, output, k);
            },
        }
        0
    }
}

} // verus!
