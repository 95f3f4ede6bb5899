//! Quoted-printable: the RFC 2047 "Q" encoding of encoded words and the
//! RFC 2045 transfer encoding of bodies and attachments.
use vstd::prelude::*;

use crate::encoders::{
    clear_span, crlf, is_break, lemma_tail_bounds, lemma_tail_nonneg, tail_run, within_limits,
};

verus! {

/// Upper-case hexadecimal digit of a value below 16.
pub open spec fn hex_digit(v: int) -> u8 {
    if v < 10 {
        (48 + v) as u8
    } else {
        (55 + v) as u8
    }
}

/// `=XX`, the escape of a byte.
pub open spec fn hex_escape(ch: u8) -> Seq<u8> {
    seq![61u8, hex_digit(ch as int / 16), hex_digit(ch as int % 16)]
}

/// A soft line break: `=` followed by CRLF.
pub open spec fn soft_break() -> Seq<u8> {
    seq![61u8, 13u8, 10u8]
}

/// Whether the "Q" encoding escapes a byte.
pub open spec fn q_escapes(ch: u8) -> bool {
    ch == 61 || ch == 63 || ch == 95 || ch == 9 || ch == 13 || ch == 10 || ch >= 127
}

/// The "Q" encoding of one byte: an escape, `_` for a space, or the byte.
pub open spec fn q_byte(ch: u8) -> Seq<u8> {
    if q_escapes(ch) {
        hex_escape(ch)
    } else if ch == 32 {
        seq![95u8]
    } else {
        seq![ch]
    }
}

/// The "Q" encoding of a byte sequence: the encodings of its bytes in turn.
pub open spec fn q_encode(s: Seq<u8>) -> Seq<u8>
    decreases s.len(),
{
    if s.len() == 0 {
        seq![]
    } else {
        q_encode(s.drop_last()) + q_byte(s.last())
    }
}

/// A space or tab at `pos` that ends the input or stands before a line end.
pub open spec fn trailing_blank(s: Seq<u8>, pos: int) -> bool {
    (s[pos] == 32 || s[pos] == 9) && (pos == s.len() - 1 || s[pos + 1] == 10 || (pos + 2 < s.len()
        && s[pos + 1] == 13 && s[pos + 2] == 10))
}

/// Whether the transfer encoding escapes the byte at `pos`. In body mode a
/// trailing blank is escaped and line ends are kept; in attachment mode CR and
/// LF are escaped and only a blank at the very end.
pub open spec fn qp_escapes(s: Seq<u8>, pos: int, is_body: bool) -> bool {
    let ch = s[pos];
    ch == 61 || ch >= 127 || if is_body {
        trailing_blank(s, pos)
    } else {
        ch == 13 || ch == 10 || ((ch == 32 || ch == 9) && pos == s.len() - 1)
    }
}

/// What the transfer encoding writes for the byte at `pos` when the current
/// line holds `col` characters, and the column after it.
pub open spec fn qp_step(s: Seq<u8>, pos: int, col: int, is_body: bool) -> (Seq<u8>, int) {
    if qp_escapes(s, pos, is_body) {
        if col + 3 > 76 {
            (soft_break() + hex_escape(s[pos]), 3)
        } else {
            (hex_escape(s[pos]), col + 3)
        }
    } else if is_body && s[pos] == 10 {
        if pos > 0 && s[pos - 1] == 13 {
            (seq![10u8], 0)
        } else {
            (crlf(), 0)
        }
    } else {
        if col + 1 > 76 {
            (soft_break() + seq![s[pos]], 1)
        } else {
            (seq![s[pos]], col + 1)
        }
    }
}

/// Output and final column of the transfer encoding of the first `n` bytes.
pub open spec fn qp_run(s: Seq<u8>, n: int, is_body: bool) -> (Seq<u8>, int)
    decreases n,
{
    if n <= 0 {
        (seq![], 0)
    } else {
        let prev = qp_run(s, n - 1, is_body);
        let step = qp_step(s, n - 1, prev.1, is_body);
        (prev.0 + step.0, step.1)
    }
}

/// The quoted-printable transfer encoding of `s`.
pub open spec fn qp_encode(s: Seq<u8>, is_body: bool) -> Seq<u8> {
    qp_run(s, s.len() as int, is_body).0
}

/// `s` with every LF that does not follow a CR preceded by one.
pub open spec fn crlf_normalized(s: Seq<u8>) -> Seq<u8>
    decreases s.len(),
{
    if s.len() == 0 {
        seq![]
    } else {
        let pre = crlf_normalized(s.drop_last());
        if s.last() == 10 && (s.len() < 2 || s[s.len() - 2] != 13) {
            pre + seq![13u8, 10]
        } else {
            pre + seq![s.last()]
        }
    }
}

/// Value of an upper-case hexadecimal digit.
pub open spec fn hex_value(c: u8) -> int {
    if 48 <= c <= 57 {
        c - 48
    } else {
        c - 55
    }
}

/// Quoted-printable decoding: `=XX` gives the byte `XX`, a soft line break
/// (`=` CRLF) gives nothing, any other byte itself.
pub open spec fn qp_decode(s: Seq<u8>) -> Seq<u8>
    decreases s.len(),
{
    if s.len() == 0 {
        seq![]
    } else if s[0] == 61 && s.len() >= 3 {
        if s[1] == 13 && s[2] == 10 {
            qp_decode(s.skip(3))
        } else {
            seq![(hex_value(s[1]) * 16 + hex_value(s[2])) as u8] + qp_decode(s.skip(3))
        }
    } else {
        seq![s[0]] + qp_decode(s.skip(1))
    }
}

/// Whether `s` splits into whole tokens: three bytes from each `=`, one
/// byte otherwise.
pub open spec fn qp_tokens(s: Seq<u8>) -> bool
    decreases s.len(),
{
    if s.len() == 0 {
        true
    } else if s[0] == 61 {
        s.len() >= 3 && qp_tokens(s.skip(3))
    } else {
        qp_tokens(s.skip(1))
    }
}

proof fn lemma_qp_decode_append(a: Seq<u8>, b: Seq<u8>)
    requires
        qp_tokens(a),
    ensures
        qp_decode(a + b) == qp_decode(a) + qp_decode(b),
        qp_tokens(b) ==> qp_tokens(a + b),
    decreases a.len(),
{
    if a.len() == 0 {
        assert(a + b =~= b);
        assert(Seq::<u8>::empty() + qp_decode(b) =~= qp_decode(b));
    } else if a[0] == 61 {
        assert((a + b).skip(3) =~= a.skip(3) + b);
        assert((a + b)[1] == a[1] && (a + b)[2] == a[2]);
        lemma_qp_decode_append(a.skip(3), b);
        if a[1] == 13 && a[2] == 10 {
        } else {
            assert(seq![(hex_value(a[1]) * 16 + hex_value(a[2])) as u8] + (qp_decode(a.skip(3))
                + qp_decode(b)) =~= seq![(hex_value(a[1]) * 16 + hex_value(a[2])) as u8]
                + qp_decode(a.skip(3)) + qp_decode(b));
        }
    } else {
        assert((a + b).skip(1) =~= a.skip(1) + b);
        lemma_qp_decode_append(a.skip(1), b);
        assert(seq![a[0]] + (qp_decode(a.skip(1)) + qp_decode(b)) =~= seq![a[0]] + qp_decode(a.skip(1))
            + qp_decode(b));
    }
}

proof fn lemma_escape_decodes(ch: u8)
    ensures
        qp_tokens(hex_escape(ch)),
        qp_decode(hex_escape(ch)) == seq![ch],
        qp_tokens(soft_break() + hex_escape(ch)),
        qp_decode(soft_break() + hex_escape(ch)) == seq![ch],
        forall|k: int| 0 <= k < 3 ==> !is_break(#[trigger] hex_escape(ch)[k]),
{
    let e = hex_escape(ch);
    assert(e.skip(3) =~= Seq::<u8>::empty());
    assert(hex_value(hex_digit(ch as int / 16)) * 16 + hex_value(hex_digit(ch as int % 16)) == ch);
    reveal_with_fuel(qp_decode, 3);
    reveal_with_fuel(qp_tokens, 3);
    assert(qp_decode(e) =~= seq![ch]);
    let t = soft_break() + e;
    assert(t.skip(3) =~= e);
}

proof fn lemma_plain_decodes(ch: u8)
    requires
        ch != 61,
    ensures
        qp_tokens(seq![ch]),
        qp_decode(seq![ch]) == seq![ch],
        qp_tokens(soft_break() + seq![ch]),
        qp_decode(soft_break() + seq![ch]) == seq![ch],
        qp_tokens(crlf()),
        qp_decode(crlf()) == crlf(),
{
    assert(seq![ch].skip(1) =~= Seq::<u8>::empty());
    assert((soft_break() + seq![ch]).skip(3) =~= seq![ch]);
    assert(crlf().skip(1) =~= seq![10u8]);
    assert(seq![10u8].skip(1) =~= Seq::<u8>::empty());
    reveal_with_fuel(qp_decode, 3);
    reveal_with_fuel(qp_tokens, 3);
    assert(qp_decode(seq![ch]) =~= seq![ch]);
    assert(qp_decode(crlf()) =~= crlf());
}

/// What decoding gives back for the first `n` bytes: the bytes themselves,
/// with CRLF line ends in body mode.
pub open spec fn qp_decoded(s: Seq<u8>, n: int, is_body: bool) -> Seq<u8> {
    if is_body {
        crlf_normalized(s.take(n))
    } else {
        s.take(n)
    }
}

proof fn lemma_qp_run_decodes(s: Seq<u8>, n: int, is_body: bool)
    requires
        0 <= n <= s.len(),
    ensures
        qp_tokens(qp_run(s, n, is_body).0),
        qp_decode(qp_run(s, n, is_body).0) == qp_decoded(s, n, is_body),
    decreases n,
{
    if n == 0 {
        assert(s.take(0) =~= Seq::<u8>::empty());
    } else {
        lemma_qp_run_decodes(s, n - 1, is_body);
        let prev = qp_run(s, n - 1, is_body);
        let step = qp_step(s, n - 1, prev.1, is_body);
        let ch = s[n - 1];
        lemma_qp_decode_append(prev.0, step.0);
        lemma_escape_decodes(ch);
        if ch != 61 {
            lemma_plain_decodes(ch);
        }
        lemma_plain_decodes(10);
        let t = s.take(n);
        assert(t.drop_last() =~= s.take(n - 1));
        assert(t.last() == ch);
        if is_body && !qp_escapes(s, n - 1, is_body) && ch == 10 {
            assert(seq![10u8].skip(1) =~= Seq::<u8>::empty());
            reveal_with_fuel(qp_decode, 2);
            if n >= 2 {
                assert(t[t.len() - 2] == s[n - 2]);
            }
            assert(qp_decode(seq![10u8]) =~= seq![10u8]);
        }
        assert(qp_decode(prev.0 + step.0) =~= qp_decoded(s, n, is_body));
    }
}

/// Quoted-printable decoding undoes the encoder: in attachment mode it
/// gives the input back exactly; in body mode it gives the input with every
/// LF not after a CR turned into CRLF.
pub proof fn lemma_qp_round_trip(s: Seq<u8>)
    ensures
        qp_decode(qp_encode(s, false)) == s,
        qp_decode(qp_encode(s, true)) == crlf_normalized(s),
{
    lemma_qp_run_decodes(s, s.len() as int, false);
    lemma_qp_run_decodes(s, s.len() as int, true);
    assert(s.take(s.len() as int) =~= s);
}

/// Whether every run of bytes of `s` without CR or LF is at most 76 long,
/// or 77 when its last byte is the `=` of a soft line break.
pub open spec fn qp_lines_fit(s: Seq<u8>) -> bool {
    forall|i: int, j: int|
        0 <= i <= j <= s.len() && #[trigger] clear_span(s, i, j) ==> j - i <= 76 || (j - i == 77 && j
            + 1 < s.len() && s[j - 1] == 61 && s[j] == 13 && s[j + 1] == 10)
}

proof fn lemma_fit_push(a: Seq<u8>, c: u8)
    requires
        qp_lines_fit(a),
        !is_break(c) ==> tail_run(a) + 1 <= 76,
    ensures
        qp_lines_fit(a.push(c)),
        tail_run(a.push(c)) == if is_break(c) {
            0
        } else {
            tail_run(a) + 1
        },
{
    let b = a.push(c);
    assert(b.drop_last() =~= a);
    lemma_tail_nonneg(a);
    assert forall|i: int, j: int| 0 <= i <= j <= b.len() && #[trigger] clear_span(b, i, j) implies j - i
        <= 76 || (j - i == 77 && j + 1 < b.len() && b[j - 1] == 61 && b[j] == 13 && b[j + 1] == 10) by {
        if j <= a.len() {
            assert forall|k: int| i <= k < j implies !is_break(#[trigger] a[k]) by {
                assert(a[k] == b[k]);
            }
            assert(clear_span(a, i, j));
            if j - i > 76 {
                assert(b[j - 1] == a[j - 1] && b[j] == a[j] && b[j + 1] == a[j + 1]);
            }
        } else if i <= a.len() {
            assert(b[a.len() as int] == c);
            assert(!is_break(b[a.len() as int]));
            assert forall|k: int| i <= k < a.len() implies !is_break(#[trigger] a[k]) by {
                assert(a[k] == b[k]);
            }
            lemma_tail_bounds(a, i);
        }
    }
}

proof fn lemma_fit_soft_break(a: Seq<u8>)
    requires
        qp_lines_fit(a),
        tail_run(a) <= 76,
    ensures
        qp_lines_fit(a + soft_break()),
        tail_run(a + soft_break()) == 0,
{
    let b = a + soft_break();
    lemma_tail_nonneg(a);
    assert(b.drop_last().drop_last().drop_last() =~= a);
    assert(b.drop_last().drop_last() =~= a.push(61));
    assert forall|i: int, j: int| 0 <= i <= j <= b.len() && #[trigger] clear_span(b, i, j) implies j - i
        <= 76 || (j - i == 77 && j + 1 < b.len() && b[j - 1] == 61 && b[j] == 13 && b[j + 1] == 10) by {
        if j <= a.len() {
            assert forall|k: int| i <= k < j implies !is_break(#[trigger] a[k]) by {
                assert(a[k] == b[k]);
            }
            assert(clear_span(a, i, j));
            if j - i > 76 {
                assert(b[j - 1] == a[j - 1] && b[j] == a[j] && b[j + 1] == a[j + 1]);
            }
        } else if i <= a.len() + 1 && a.len() + 1 < j {
            assert(b[a.len() + 1int] == 13);
            assert(!is_break(b[a.len() + 1int]));
        } else if i <= a.len() + 2 && a.len() + 2 < j {
            assert(b[a.len() + 2int] == 10);
            assert(!is_break(b[a.len() + 2int]));
        } else if j == a.len() + 1 && i <= a.len() {
            assert forall|k: int| i <= k < a.len() implies !is_break(#[trigger] a[k]) by {
                assert(a[k] == b[k]);
            }
            lemma_tail_bounds(a, i);
            assert(b[a.len() as int] == 61 && b[a.len() + 1int] == 13 && b[a.len() + 2int] == 10);
        }
    }
    reveal_with_fuel(tail_run, 2);
}

proof fn lemma_fit_append(a: Seq<u8>, t: Seq<u8>)
    requires
        qp_lines_fit(a),
        forall|k: int| 0 <= k < t.len() ==> !is_break(#[trigger] t[k]),
        tail_run(a) + t.len() <= 76,
    ensures
        qp_lines_fit(a + t),
        tail_run(a + t) == tail_run(a) + t.len(),
    decreases t.len(),
{
    if t.len() == 0 {
        assert(a + t =~= a);
    } else {
        let u = t.drop_last();
        assert forall|k: int| 0 <= k < u.len() implies !is_break(#[trigger] u[k]) by {
            assert(u[k] == t[k]);
        }
        lemma_fit_append(a, u);
        assert(!is_break(t[t.len() - 1]));
        lemma_fit_push(a + u, t.last());
        assert((a + u).push(t.last()) =~= a + t);
    }
}

proof fn lemma_qp_run_fit(s: Seq<u8>, n: int, is_body: bool)
    requires
        0 <= n <= s.len(),
    ensures
        qp_lines_fit(qp_run(s, n, is_body).0),
        tail_run(qp_run(s, n, is_body).0) <= qp_run(s, n, is_body).1 <= 76,
    decreases n,
{
    if n == 0 {
        assert forall|i: int, j: int| 0 <= i <= j <= 0 && #[trigger] clear_span(Seq::<u8>::empty(), i, j) implies j - i <= 76 by {}
    } else {
        lemma_qp_run_fit(s, n - 1, is_body);
        lemma_qp_col(s, n - 1, is_body);
        let prev = qp_run(s, n - 1, is_body);
        let o = prev.0;
        let ch = s[n - 1];
        let e = hex_escape(ch);
        lemma_escape_decodes(ch);
        if qp_escapes(s, n - 1, is_body) {
            if prev.1 + 3 > 76 {
                lemma_fit_soft_break(o);
                lemma_fit_append(o + soft_break(), e);
                assert(o + soft_break() + e =~= o + (soft_break() + e));
            } else {
                lemma_fit_append(o, e);
            }
        } else if is_body && ch == 10 {
            if n - 1 > 0 && s[n - 2] == 13 {
                lemma_fit_push(o, 10);
                assert(o.push(10) =~= o + seq![10u8]);
            } else {
                lemma_fit_push(o, 13);
                lemma_fit_push(o.push(13), 10);
                assert(o.push(13).push(10) =~= o + crlf());
            }
        } else {
            if prev.1 + 1 > 76 {
                lemma_fit_soft_break(o);
                lemma_fit_push(o + soft_break(), ch);
                assert((o + soft_break()).push(ch) =~= o + (soft_break() + seq![ch]));
            } else {
                lemma_fit_push(o, ch);
                assert(o.push(ch) =~= o + seq![ch]);
            }
        }
    }
}

/// No line of quoted-printable output holds more than 76 characters, the
/// `=` of a soft line break aside.
pub proof fn lemma_qp_line_length(s: Seq<u8>, is_body: bool)
    ensures
        qp_lines_fit(qp_encode(s, is_body)),
{
    lemma_qp_run_fit(s, s.len() as int, is_body);
}

/// Whether every CR or LF of `w` belongs to a soft line break (`=` CRLF).
pub open spec fn breaks_only_soft(w: Seq<u8>) -> bool {
    forall|k: int|
        0 <= k < w.len() && #[trigger] is_break(w[k]) ==> (w[k] == 13 && 1 <= k && k + 1 < w.len()
            && w[k - 1] == 61 && w[k + 1] == 10) || (w[k] == 10 && 2 <= k && w[k - 1] == 13 && w[k
            - 2] == 61)
}

proof fn lemma_breaks_only_soft_append(a: Seq<u8>, t: Seq<u8>)
    requires
        breaks_only_soft(a),
        breaks_only_soft(t),
    ensures
        breaks_only_soft(a + t),
{
    let w = a + t;
    assert forall|k: int| 0 <= k < w.len() && #[trigger] is_break(w[k]) implies (w[k] == 13 && 1 <= k
        && k + 1 < w.len() && w[k - 1] == 61 && w[k + 1] == 10) || (w[k] == 10 && 2 <= k && w[k - 1]
        == 13 && w[k - 2] == 61) by {
        if k < a.len() {
            assert(w[k] == a[k]);
            assert(is_break(a[k]));
            if a[k] == 13 {
                assert(w[k - 1] == a[k - 1] && w[k + 1] == a[k + 1]);
            } else {
                assert(w[k - 1] == a[k - 1] && w[k - 2] == a[k - 2]);
            }
        } else {
            let j = k - a.len();
            assert(w[k] == t[j]);
            assert(is_break(t[j]));
            if t[j] == 13 {
                assert(w[k - 1] == t[j - 1] && w[k + 1] == t[j + 1]);
            } else {
                assert(w[k - 1] == t[j - 1] && w[k - 2] == t[j - 2]);
            }
        }
    }
}

proof fn lemma_attachment_piece(s: Seq<u8>, pos: int, col: int)
    requires
        0 <= pos < s.len(),
    ensures
        breaks_only_soft(qp_step(s, pos, col, false).0),
{
    let ch = s[pos];
    let e = hex_escape(ch);
    lemma_escape_decodes(ch);
    let step = qp_step(s, pos, col, false).0;
    if qp_escapes(s, pos, false) {
        if col + 3 > 76 {
            assert(step =~= seq![61u8, 13, 10, e[0], e[1], e[2]]);
        } else {
            assert(step =~= seq![e[0], e[1], e[2]]);
        }
    } else {
        assert(!is_break(ch));
        if col + 1 > 76 {
            assert(step =~= seq![61u8, 13, 10, ch]);
        } else {
            assert(step =~= seq![ch]);
        }
    }
}

proof fn lemma_attachment_run(s: Seq<u8>, n: int)
    requires
        0 <= n <= s.len(),
    ensures
        breaks_only_soft(qp_run(s, n, false).0),
    decreases n,
{
    if n > 0 {
        lemma_attachment_run(s, n - 1);
        let prev = qp_run(s, n - 1, false);
        lemma_attachment_piece(s, n - 1, prev.1);
        lemma_breaks_only_soft_append(prev.0, qp_step(s, n - 1, prev.1, false).0);
    }
}

/// In attachment mode the encoder writes CR and LF only in soft line
/// breaks; every CR and LF of the input is escaped.
pub proof fn lemma_attachment_breaks_only_soft(s: Seq<u8>)
    ensures
        breaks_only_soft(qp_encode(s, false)),
{
    lemma_attachment_run(s, s.len() as int);
}

proof fn lemma_qp_col(s: Seq<u8>, n: int, is_body: bool)
    ensures
        0 <= qp_run(s, n, is_body).1 <= 76,
    decreases n,
{
    if n > 0 {
        lemma_qp_col(s, n - 1, is_body);
    }
}

fn hex_digit_exec(v: u8) -> (d: u8)
    requires
        v < 16,
    ensures
        d == hex_digit(v as int),
{
    if v < 10 {
        48 + v
    } else {
        55 + v
    }
}

fn push_escape(ch: u8, output: &mut Vec<u8>)
    ensures
        final(output)@ == old(output)@ + hex_escape(ch),
{
    output.push(61);
    output.push(hex_digit_exec(ch / 16));
    output.push(hex_digit_exec(ch % 16));
    proof {
        assert(final(output)@ =~= old(output)@ + hex_escape(ch));
    }
}

fn push_soft_break(output: &mut Vec<u8>)
    ensures
        final(output)@ == old(output)@ + soft_break(),
{
    output.push(61);
    output.push(13);
    output.push(10);
    proof {
        assert(final(output)@ =~= old(output)@ + soft_break());
    }
}

/// Encodes a single byte with the "Q" encoding of RFC 2047 and returns the
/// number of bytes written.
pub fn quoted_printable_encode_byte(ch: u8, output: &mut Vec<u8>) -> (r: usize)
    ensures
        final(output)@ == old(output)@ + q_byte(ch),
        r == q_byte(ch).len(),
{
    if ch == 61 || ch == 63 || ch == 95 || ch == 9 || ch == 13 || ch == 10 || ch >= 127 {
        push_escape(ch, output);
        3
    } else if ch == 32 {
        output.push(95);
        proof {
            assert(final(output)@ =~= old(output)@ + q_byte(ch));
        }
        1
    } else {
        output.push(ch);
        proof {
            assert(final(output)@ =~= old(output)@ + q_byte(ch));
        }
        1
    }
}

/// Encodes `input` with the "Q" encoding of RFC 2047 (no line folding) and
/// returns the number of bytes written.
pub fn inline_quoted_printable_encode(input: &[u8], output: &mut Vec<u8>) -> (r: usize)
    requires
        within_limits(input@.len() as int),
    ensures
        final(output)@ == old(output)@ + q_encode(input@),
        r == q_encode(input@).len(),
{
    let ghost start = output@;
    let mut written: usize = 0;
    let mut i: usize = 0;
    proof {
        assert(input@.take(0) =~= Seq::<u8>::empty());
        assert(start + Seq::<u8>::empty() =~= start);
    }
    while i < input.len()
        invariant
            i <= input@.len(),
            within_limits(input@.len() as int),
            written <= 3 * i,
            output@ == start + q_encode(input@.take(i as int)),
            written == q_encode(input@.take(i as int)).len(),
        decreases input@.len() - i,
    {
        let ghost before = output@;
        written = written + quoted_printable_encode_byte(input[i], output);
        proof {
            assert(input@.take(i + 1).drop_last() =~= input@.take(i as int));
            assert(output@ =~= start + q_encode(input@.take(i + 1)));
        }
        i = i + 1;
    }
    proof {
        assert(input@.take(i as int) =~= input@);
    }
    written
}

/// Quoted-printable transfer encoding of `input` onto `output`, with soft
/// line breaks that keep every line at 76 characters or fewer. In body mode
/// (`is_body`) line ends are written as CRLF and blanks before them are
/// escaped; in attachment mode CR and LF are escaped. Returns the number of
/// characters on the last line.
pub fn quoted_printable_encode(input: &[u8], output: &mut Vec<u8>, is_body: bool) -> (r: usize)
    ensures
        final(output)@ == old(output)@ + qp_encode(input@, is_body),
        r == qp_run(input@, input@.len() as int, is_body).1,
{
    let ghost start = output@;
    let n = input.len();
    let mut col: usize = 0;
    let mut pos: usize = 0;
    proof {
        assert(start + Seq::<u8>::empty() =~= start);
    }
    while pos < n
        invariant
            n == input@.len(),
            pos <= n,
            output@ == start + qp_run(input@, pos as int, is_body).0,
            col == qp_run(input@, pos as int, is_body).1,
        decreases n - pos,
    {
        proof {
            lemma_qp_col(input@, pos as int, is_body);
        }
        let ch = input[pos];
        let escaped = if is_body {
            ch == 61 || ch >= 127 || ((ch == 32 || ch == 9) && (pos + 1 == n || input[pos + 1]
                == 10 || (pos + 2 < n && input[pos + 1] == 13 && input[pos + 2] == 10)))
        } else {
            ch == 61 || ch >= 127 || ch == 13 || ch == 10 || ((ch == 32 || ch == 9) && pos + 1
                == n)
        };
        let ghost before = output@;
        if escaped {
            if col + 3 > 76 {
                push_soft_break(output);
                col = 0;
            }
            push_escape(ch, output);
            col = col + 3;
        } else if is_body && ch == 10 {
            if pos > 0 && input[pos - 1] == 13 {
                output.push(10);
            } else {
                output.push(13);
                output.push(10);
            }
            col = 0;
        } else {
            if col + 1 > 76 {
                push_soft_break(output);
                col = 0;
            }
            output.push(ch);
            col = col + 1;
        }
        proof {
            let step = qp_step(input@, pos as int, qp_run(input@, pos as int, is_body).1, is_body);
            assert(escaped == qp_escapes(input@, pos as int, is_body));
            assert(output@ =~= before + step.0);
            assert(output@ =~= start + qp_run(input@, pos + 1, is_body).0);
        }
        pos = pos + 1;
    }
    col
}

} // verus!
