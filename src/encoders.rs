//! Byte encoders (base64, quoted-printable) and the encoding selector.
use vstd::prelude::*;

pub mod base64;
pub mod encode;
pub mod quoted_printable;

use crate::encoders::base64::{base64_encode_mime, base64_mime_of};
use crate::encoders::quoted_printable::{qp_encode, qp_run, quoted_printable_encode};

verus! {

/// The two bytes of a line break.
pub open spec fn crlf() -> Seq<u8> {
    seq![13u8, 10u8]
}

/// Whether a byte ends or starts a line (CR or LF).
pub open spec fn is_break(c: u8) -> bool {
    c == 13 || c == 10
}

/// Whether `s[i..j]` holds no CR or LF.
pub open spec fn clear_span(s: Seq<u8>, i: int, j: int) -> bool {
    forall|k: int| i <= k < j ==> !is_break(#[trigger] s[k])
}

/// Whether every run of bytes of `s` without CR or LF is at most `n` long.
pub open spec fn lines_at_most(s: Seq<u8>, n: int) -> bool {
    forall|i: int, j: int| 0 <= i <= j <= s.len() && #[trigger] clear_span(s, i, j) ==> j - i <= n
}

/// Number of bytes after the last CR or LF of `s`.
pub open spec fn tail_run(s: Seq<u8>) -> int
    decreases s.len(),
{
    if s.len() == 0 {
        0
    } else if is_break(s.last()) {
        0
    } else {
        tail_run(s.drop_last()) + 1
    }
}

/// `s` without its CR and LF bytes.
pub open spec fn drop_breaks(s: Seq<u8>) -> Seq<u8>
    decreases s.len(),
{
    if s.len() == 0 {
        seq![]
    } else if is_break(s.last()) {
        drop_breaks(s.drop_last())
    } else {
        drop_breaks(s.drop_last()).push(s.last())
    }
}

pub proof fn lemma_tail_nonneg(a: Seq<u8>)
    ensures
        0 <= tail_run(a) <= a.len(),
    decreases a.len(),
{
    if a.len() > 0 {
        lemma_tail_nonneg(a.drop_last());
    }
}

pub proof fn lemma_tail_bounds(a: Seq<u8>, i: int)
    requires
        0 <= i <= a.len(),
        forall|k: int| i <= k < a.len() ==> !is_break(#[trigger] a[k]),
    ensures
        a.len() - i <= tail_run(a),
    decreases a.len(),
{
    lemma_tail_nonneg(a);
    if i < a.len() {
        assert(!is_break(a[a.len() - 1]));
        assert(a.last() == a[a.len() - 1]);
        assert forall|k: int| i <= k < a.drop_last().len() implies !is_break(#[trigger] a.drop_last()[k]) by {
            assert(a.drop_last()[k] == a[k]);
        }
        lemma_tail_bounds(a.drop_last(), i);
    }
}

/// Appending one byte that is not a line break to `a` keeps its lines at
/// most `n` long where the last line had room.
pub proof fn lemma_push_byte(a: Seq<u8>, c: u8, n: int)
    requires
        n >= 0,
        lines_at_most(a, n),
        !is_break(c),
        tail_run(a) + 1 <= n,
    ensures
        lines_at_most(a.push(c), n),
        tail_run(a.push(c)) == tail_run(a) + 1,
{
    let b = a.push(c);
    assert(b.drop_last() =~= a);
    assert forall|i: int, j: int| 0 <= i <= j <= b.len() && #[trigger] clear_span(b, i, j) implies j - i
        <= n by {
        if j <= a.len() {
            assert forall|k: int| i <= k < j implies !is_break(#[trigger] a[k]) by {
                assert(a[k] == b[k]);
            }
            assert(clear_span(a, i, j));
        } else if i <= a.len() {
            assert forall|k: int| i <= k < a.len() implies !is_break(#[trigger] a[k]) by {
                assert(a[k] == b[k]);
            }
            lemma_tail_bounds(a, i);
        }
    }
}

/// Appending a line break keeps the lines of `a` and starts a new one.
pub proof fn lemma_push_break(a: Seq<u8>, c: u8, n: int)
    requires
        n >= 0,
        lines_at_most(a, n),
        is_break(c),
    ensures
        lines_at_most(a.push(c), n),
        tail_run(a.push(c)) == 0,
{
    let b = a.push(c);
    assert(b.drop_last() =~= a);
    assert forall|i: int, j: int| 0 <= i <= j <= b.len() && #[trigger] clear_span(b, i, j) implies j - i
        <= n by {
        if i <= a.len() && a.len() < j {
            assert(b[a.len() as int] == c);
            assert(!is_break(b[a.len() as int]));
        } else if j <= a.len() {
            assert forall|k: int| i <= k < j implies !is_break(#[trigger] a[k]) by {
                assert(a[k] == b[k]);
            }
            assert(clear_span(a, i, j));
        }
    }
}

/// Appending bytes without line breaks where the last line has room.
pub proof fn lemma_append_run(a: Seq<u8>, t: Seq<u8>, n: int)
    requires
        n >= 0,
        lines_at_most(a, n),
        forall|k: int| 0 <= k < t.len() ==> !is_break(#[trigger] t[k]),
        tail_run(a) + t.len() <= n,
    ensures
        lines_at_most(a + t, n),
        tail_run(a + t) == tail_run(a) + t.len(),
    decreases t.len(),
{
    if t.len() == 0 {
        assert(a + t =~= a);
    } else {
        let u = t.drop_last();
        assert forall|k: int| 0 <= k < u.len() implies !is_break(#[trigger] u[k]) by {
            assert(u[k] == t[k]);
        }
        lemma_append_run(a, u, n);
        assert(!is_break(t[t.len() - 1]));
        lemma_push_byte(a + u, t.last(), n);
        assert((a + u).push(t.last()) =~= a + t);
    }
}

/// Appending CRLF keeps the lines of `a` and leaves an empty last line.
pub proof fn lemma_append_crlf(a: Seq<u8>, n: int)
    requires
        n >= 0,
        lines_at_most(a, n),
    ensures
        lines_at_most(a + crlf(), n),
        tail_run(a + crlf()) == 0,
{
    lemma_push_break(a, 13, n);
    lemma_push_break(a.push(13), 10, n);
    assert(a.push(13).push(10) =~= a + crlf());
}

/// Dropping line breaks distributes over concatenation.
pub proof fn lemma_drop_breaks_append(a: Seq<u8>, b: Seq<u8>)
    ensures
        drop_breaks(a + b) == drop_breaks(a) + drop_breaks(b),
    decreases b.len(),
{
    if b.len() == 0 {
        assert(a + b =~= a);
        assert(drop_breaks(a) + seq![] =~= drop_breaks(a));
    } else {
        lemma_drop_breaks_append(a, b.drop_last());
        assert((a + b).drop_last() =~= a + b.drop_last());
        assert((a + b).last() == b.last());
        if is_break(b.last()) {
        } else {
            assert((drop_breaks(a) + drop_breaks(b.drop_last())).push(b.last()) =~= drop_breaks(a) + drop_breaks(b.drop_last()).push(b.last()));
        }
    }
}

/// Lengths that the encoders accept: small enough that every count they keep
/// (encoded sizes, line columns) fits in `usize`.
pub open spec fn within_limits(n: int) -> bool {
    0 <= n <= usize::MAX / 16
}

/// Appends `b` to `output`.
pub fn push_bytes(output: &mut Vec<u8>, b: &[u8])
    ensures
        final(output)@ == old(output)@ + b@,
{
    let ghost start = output@;
    let mut i: usize = 0;
    while i < b.len()
        invariant
            i <= b@.len(),
            output@ == start + b@.take(i as int),
        decreases b@.len() - i,
    {
        output.push(b[i]);
        i = i + 1;
        proof {
            assert(output@ =~= start + b@.take(i as int));
        }
    }
    proof {
        assert(b@.take(i as int) =~= b@);
    }
}

/// Base64 encoder; the flag is set for inline output (no line breaks).
pub struct Base64Encoder(pub bool);

/// Quoted-printable encoder; the flag is set for body mode (line ends kept
/// as CRLF) and clear for attachment mode.
pub struct QuotedPrintableEncoder(pub bool);

impl Base64Encoder {
    /// An inline encoder.
    pub fn new() -> (r: Self)
        ensures
            r.0,
    {
        Self(true)
    }

    /// The same encoder, breaking its output into 76-character lines.
    pub fn indent(self) -> (r: Self)
        ensures
            !r.0,
    {
        let mut s = self;
        s.0 = false;
        s
    }

    /// Encodes `input` into a new buffer.
    pub fn encode(&self, input: &[u8]) -> (r: Vec<u8>)
        requires
            within_limits(input@.len() as int),
        ensures
            r@ == base64_mime_of(input@, self.0),
    {
        let mut buf: Vec<u8> = Vec::new();
        base64_encode_mime(input, &mut buf, self.0);
        proof {
            assert(buf@ =~= base64_mime_of(input@, self.0));
        }
        buf
    }

    /// Encodes `input` onto `output`; returns the number of base64 characters.
    pub fn encode_to_writer(&self, input: &[u8], output: &mut Vec<u8>) -> (r: usize)
        requires
            within_limits(input@.len() as int),
        ensures
            final(output)@ == old(output)@ + base64_mime_of(input@, self.0),
            r == crate::encoders::base64::base64_of(input@).len(),
    {
        base64_encode_mime(input, output, self.0)
    }
}

impl QuotedPrintableEncoder {
    /// An encoder in attachment mode.
    pub fn new() -> (r: Self)
        ensures
            !r.0,
    {
        Self(false)
    }

    /// The same encoder in body mode.
    pub fn indent(self) -> (r: Self)
        ensures
            r.0,
    {
        let mut s = self;
        s.0 = true;
        s
    }

    /// Encodes `input` into a new buffer.
    pub fn encode(&self, input: &[u8]) -> (r: Vec<u8>)
        ensures
            r@ == qp_encode(input@, self.0),
    {
        let mut buf: Vec<u8> = Vec::new();
        quoted_printable_encode(input, &mut buf, self.0);
        proof {
            assert(buf@ =~= qp_encode(input@, self.0));
        }
        buf
    }

    /// Encodes `input` onto `output`; returns the length of the last line.
    pub fn encode_to_writer(&self, input: &[u8], output: &mut Vec<u8>) -> (r: usize)
        ensures
            final(output)@ == old(output)@ + qp_encode(input@, self.0),
            r == qp_run(input@, input@.len() as int, self.0).1,
    {
        quoted_printable_encode(input, output, self.0)
    }
}

impl Default for Base64Encoder {
    fn default() -> (r: Self)
        ensures
            r.0,
    {
        Self::new()
    }
}

impl Default for QuotedPrintableEncoder {
    fn default() -> (r: Self)
        ensures
            !r.0,
    {
        Self::new()
    }
}

} // verus!
