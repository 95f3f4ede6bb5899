//! Raw header values: never encoded, only folded at blanks.
use vstd::prelude::*;

use crate::encoders::{crlf, push_bytes, within_limits};
use crate::headers::{fold_break, push_fold, Header};
use vstd::utf8::encode_utf8;

verus! {

/// The bytes that `u8::is_ascii_whitespace` accepts.
pub open spec fn is_blank(b: u8) -> bool {
    b == 32 || b == 9 || b == 10 || b == 12 || b == 13
}

/// Output and column after the first `n` bytes of `s` written from column
/// `col`, with a fold before a blank (not the last byte) once the line holds
/// 76 bytes or more.
pub open spec fn blank_fold_run(s: Seq<u8>, n: int, col: int) -> (Seq<u8>, int)
    decreases n,
{
    if n <= 0 {
        (seq![], col)
    } else {
        let prev = blank_fold_run(s, n - 1, col);
        let ch = s[n - 1];
        if prev.1 >= 76 && is_blank(ch) && n < s.len() {
            (prev.0 + fold_break() + seq![ch], 2)
        } else {
            (prev.0 + seq![ch], prev.1 + 1)
        }
    }
}

/// `s` folded at blanks from column `col`, ended by CRLF.
pub open spec fn blank_folded(s: Seq<u8>, col: int) -> Seq<u8> {
    blank_fold_run(s, s.len() as int, col).0 + crlf()
}

/// Writes `s` folded at blanks from column `col`, then CRLF.
pub fn write_folded_at_blanks(s: &[u8], output: &mut Vec<u8>, col: usize)
    requires
        s@.len() <= usize::MAX / 4,
        within_limits(col as int),
    ensures
        final(output)@ == old(output)@ + blank_folded(s@, col as int),
{
    let ghost start = output@;
    let n = s.len();
    let mut c: usize = col;
    let mut pos: usize = 0;
    proof {
        assert(start + Seq::<u8>::empty() =~= start);
    }
    while pos < n
        invariant
            n == s@.len(),
            n <= usize::MAX / 4,
            within_limits(col as int),
            pos <= n,
            c <= col + pos + 2,
            output@ == start + blank_fold_run(s@, pos as int, col as int).0,
            c == blank_fold_run(s@, pos as int, col as int).1,
        decreases n - pos,
    {
        let ch = s[pos];
        let ghost before = output@;
        if c >= 76 && (ch == 32 || ch == 9 || ch == 10 || ch == 12 || ch == 13) && pos + 1 < n {
            push_fold(output);
            c = 1;
        }
        output.push(ch);
        c = c + 1;
        proof {
            assert(output@ =~= start + blank_fold_run(s@, pos + 1, col as int).0);
        }
        pos = pos + 1;
    }
    push_bytes(output, &[13u8, 10]);
    proof {
        assert(final(output)@ =~= start + blank_folded(s@, col as int));
    }
}

/// Raw header value: written as it is, only folded at blanks.
pub struct Raw {
    pub raw: String,
}

impl Raw {
    /// A raw header value.
    pub fn new(raw: &str) -> (r: Raw)
        ensures
            r.raw@ == raw@,
    {
        Raw { raw: raw.to_owned() }
    }
}

impl Header for Raw {
    open spec fn writable(&self, col: int) -> bool {
        within_limits(col) && within_limits(encode_utf8(self.raw@).len() as int)
    }

    open spec fn header_bytes(&self, col: int) -> Seq<u8> {
        blank_folded(encode_utf8(self.raw@), col)
    }

    open spec fn header_col(&self, col: int) -> int {
        0
    }

    fn write_header(&self, output: &mut Vec<u8>, bytes_written: usize) -> (r: usize) {
        write_folded_at_blanks(self.raw.as_str().as_bytes(), output, bytes_written);
        0
    }
}

} // verus!
