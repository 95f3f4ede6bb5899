//! Base64 (RFC 4648 alphabet, `=` padding), inline or folded into MIME lines.
use vstd::prelude::*;

use crate::encoders::{
    crlf, drop_breaks, is_break, lemma_append_crlf, lemma_append_run, lemma_drop_breaks_append,
    lines_at_most, tail_run, within_limits,
};

verus! {

/// The symbol of the base64 alphabet for a 6-bit value.
pub open spec fn b64_symbol(v: int) -> u8 {
    if v < 26 {
        (65 + v) as u8
    } else if v < 52 {
        (97 + (v - 26)) as u8
    } else if v < 62 {
        (48 + (v - 52)) as u8
    } else if v == 62 {
        43u8
    } else {
        47u8
    }
}

/// The four symbols for a group of one to three bytes, padded with `=`.
pub open spec fn b64_group(g: Seq<u8>) -> Seq<u8> {
    let b0 = g[0] as int;
    if g.len() >= 3 {
        let b1 = g[1] as int;
        let b2 = g[2] as int;
        seq![b64_symbol(b0 / 4), b64_symbol((b0 % 4) * 16 + b1 / 16),
             b64_symbol((b1 % 16) * 4 + b2 / 64), b64_symbol(b2 % 64)]
    } else if g.len() == 2 {
        let b1 = g[1] as int;
        seq![b64_symbol(b0 / 4), b64_symbol((b0 % 4) * 16 + b1 / 16),
             b64_symbol((b1 % 16) * 4), 61u8]
    } else {
        seq![b64_symbol(b0 / 4), b64_symbol((b0 % 4) * 16), 61u8, 61u8]
    }
}

/// Base64 of a byte sequence, without line breaks.
pub open spec fn base64_of(s: Seq<u8>) -> Seq<u8>
    decreases s.len(),
{
    if s.len() == 0 {
        seq![]
    } else if s.len() <= 3 {
        b64_group(s)
    } else {
        b64_group(s.take(3)) + base64_of(s.skip(3))
    }
}

/// `s` with a line break after every 76th byte.
pub open spec fn break_every_76(s: Seq<u8>) -> Seq<u8>
    decreases s.len(),
{
    if s.len() == 0 {
        seq![]
    } else {
        let pre = break_every_76(s.drop_last()) + seq![s.last()];
        if s.len() % 76 == 0 {
            pre + crlf()
        } else {
            pre
        }
    }
}

/// `s` cut into lines of 76 bytes, each line ended by a line break.
pub open spec fn mime_lines(s: Seq<u8>) -> Seq<u8> {
    if s.len() % 76 == 0 {
        break_every_76(s)
    } else {
        break_every_76(s) + crlf()
    }
}

/// What the MIME base64 encoder writes for `input`.
pub open spec fn base64_mime_of(input: Seq<u8>, is_inline: bool) -> Seq<u8> {
    if is_inline {
        base64_of(input)
    } else {
        mime_lines(base64_of(input))
    }
}

/// The 6-bit value of a base64 symbol.
pub open spec fn b64_value(c: u8) -> int {
    if 65 <= c <= 90 {
        c - 65
    } else if 97 <= c <= 122 {
        c - 97 + 26
    } else if 48 <= c <= 57 {
        c - 48 + 52
    } else if c == 43 {
        62
    } else {
        63
    }
}

/// The bytes of one group of four base64 symbols, padding ignored.
pub open spec fn b64_decode_group(q: Seq<u8>) -> Seq<u8> {
    let v0 = b64_value(q[0]);
    let v1 = b64_value(q[1]);
    let v2 = b64_value(q[2]);
    let v3 = b64_value(q[3]);
    if q[2] == 61 {
        seq![(v0 * 4 + v1 / 16) as u8]
    } else if q[3] == 61 {
        seq![(v0 * 4 + v1 / 16) as u8, ((v1 % 16) * 16 + v2 / 4) as u8]
    } else {
        seq![(v0 * 4 + v1 / 16) as u8, ((v1 % 16) * 16 + v2 / 4) as u8, ((v2 % 4) * 64 + v3) as u8]
    }
}

/// Base64 decoding of a text without line breaks.
pub open spec fn base64_decode(s: Seq<u8>) -> Seq<u8>
    decreases s.len(),
{
    if s.len() < 4 {
        seq![]
    } else {
        b64_decode_group(s.take(4)) + base64_decode(s.skip(4))
    }
}

proof fn lemma_symbol(v: int)
    requires
        0 <= v < 64,
    ensures
        b64_value(b64_symbol(v)) == v,
        b64_symbol(v) != 61,
        !is_break(b64_symbol(v)),
{
}

proof fn lemma_group_round_trip(g: Seq<u8>)
    requires
        1 <= g.len() <= 3,
    ensures
        b64_decode_group(b64_group(g)) == g,
        b64_group(g).len() == 4,
        forall|k: int| 0 <= k < 4 ==> !is_break(#[trigger] b64_group(g)[k]),
{
    let b0 = g[0] as int;
    lemma_symbol(b0 / 4);
    if g.len() == 1 {
        lemma_symbol((b0 % 4) * 16);
        assert(b0 == (b0 / 4) * 4 + ((b0 % 4) * 16) / 16) by (nonlinear_arith)
            requires 0 <= b0 < 256;
        assert(b64_decode_group(b64_group(g)) =~= g);
    } else {
        let b1 = g[1] as int;
        lemma_symbol((b0 % 4) * 16 + b1 / 16);
        assert(b0 == (b0 / 4) * 4 + ((b0 % 4) * 16 + b1 / 16) / 16) by (nonlinear_arith)
            requires 0 <= b0 < 256, 0 <= b1 < 256;
        if g.len() == 2 {
            lemma_symbol((b1 % 16) * 4);
            assert(b1 == (((b0 % 4) * 16 + b1 / 16) % 16) * 16 + ((b1 % 16) * 4) / 4) by (nonlinear_arith)
                requires 0 <= b0 < 256, 0 <= b1 < 256;
            assert(b64_decode_group(b64_group(g)) =~= g);
        } else {
            let b2 = g[2] as int;
            lemma_symbol((b1 % 16) * 4 + b2 / 64);
            lemma_symbol(b2 % 64);
            assert(b1 == (((b0 % 4) * 16 + b1 / 16) % 16) * 16 + ((b1 % 16) * 4 + b2 / 64) / 4) by (nonlinear_arith)
                requires 0 <= b0 < 256, 0 <= b1 < 256, 0 <= b2 < 256;
            assert(b2 == (((b1 % 16) * 4 + b2 / 64) % 4) * 64 + b2 % 64) by (nonlinear_arith)
                requires 0 <= b1 < 256, 0 <= b2 < 256;
            assert(b64_decode_group(b64_group(g)) =~= g);
        }
    }
}

proof fn lemma_base64_no_breaks(s: Seq<u8>)
    ensures
        forall|k: int| 0 <= k < base64_of(s).len() ==> !is_break(#[trigger] base64_of(s)[k]),
    decreases s.len(),
{
    if s.len() > 0 {
        if s.len() <= 3 {
            lemma_group_round_trip(s);
        } else {
            lemma_group_round_trip(s.take(3));
            lemma_base64_no_breaks(s.skip(3));
            let a = b64_group(s.take(3));
            let b = base64_of(s.skip(3));
            assert forall|k: int| 0 <= k < (a + b).len() implies !is_break(#[trigger] (a + b)[k]) by {
                if k >= a.len() {
                    assert((a + b)[k] == b[k - a.len()]);
                }
            }
        }
    }
}

/// Base64 decoding undoes the encoder: for every byte sequence, decoding
/// its base64 text gives it back, and so does decoding the MIME-folded text
/// once its line breaks are removed.
pub proof fn lemma_base64_round_trip(s: Seq<u8>)
    ensures
        base64_decode(base64_mime_of(s, true)) == s,
        base64_decode(drop_breaks(base64_mime_of(s, false))) == s,
    decreases s.len(),
{
    reveal_with_fuel(base64_decode, 2);
    if s.len() > 0 {
        if s.len() <= 3 {
            lemma_group_round_trip(s);
            let e = b64_group(s);
            assert(e.take(4) =~= e);
            assert(e.skip(4) =~= Seq::<u8>::empty());
            assert(b64_decode_group(e) + Seq::<u8>::empty() =~= s);
            assert(base64_decode(e) == b64_decode_group(e.take(4)) + base64_decode(e.skip(4)));
        } else {
            lemma_group_round_trip(s.take(3));
            lemma_base64_round_trip(s.skip(3));
            let a = b64_group(s.take(3));
            let b = base64_of(s.skip(3));
            assert((a + b).take(4) =~= a);
            assert((a + b).skip(4) =~= b);
            assert(s.take(3) + s.skip(3) =~= s);
            assert(base64_decode(a + b) == b64_decode_group((a + b).take(4)) + base64_decode((a + b).skip(4)));
        }
    }
    assert(base64_decode(base64_of(s)) == s);
    lemma_base64_no_breaks(s);
    lemma_drop_breaks_mime_lines(base64_of(s));
    assert(drop_breaks(base64_mime_of(s, false)) == base64_of(s));
}

proof fn lemma_drop_breaks_every_76(e: Seq<u8>)
    requires
        forall|k: int| 0 <= k < e.len() ==> !is_break(#[trigger] e[k]),
    ensures
        drop_breaks(break_every_76(e)) == e,
        lines_at_most(break_every_76(e), 76),
        tail_run(break_every_76(e)) == e.len() % 76,
    decreases e.len(),
{
    if e.len() == 0 {
        assert(lines_at_most(Seq::<u8>::empty(), 76));
    } else {
        let d = e.drop_last();
        assert forall|k: int| 0 <= k < d.len() implies !is_break(#[trigger] d[k]) by {
            assert(d[k] == e[k]);
        }
        lemma_drop_breaks_every_76(d);
        let pre = break_every_76(d);
        assert(!is_break(e[e.len() - 1]));
        lemma_append_run(pre, seq![e.last()], 76);
        lemma_drop_breaks_append(pre, seq![e.last()]);
        reveal_with_fuel(drop_breaks, 2);
        assert(drop_breaks(seq![e.last()]) =~= seq![e.last()]);
        assert(d + seq![e.last()] =~= e);
        if e.len() % 76 == 0 {
            lemma_append_crlf(pre + seq![e.last()], 76);
            lemma_drop_breaks_append(pre + seq![e.last()], crlf());
            reveal_with_fuel(drop_breaks, 3);
            assert(drop_breaks(crlf()) =~= Seq::<u8>::empty());
            assert(e + Seq::<u8>::empty() =~= e);
        }
    }
}

proof fn lemma_drop_breaks_mime_lines(e: Seq<u8>)
    requires
        forall|k: int| 0 <= k < e.len() ==> !is_break(#[trigger] e[k]),
    ensures
        drop_breaks(mime_lines(e)) == e,
        lines_at_most(mime_lines(e), 76),
{
    lemma_drop_breaks_every_76(e);
    if e.len() % 76 != 0 {
        lemma_append_crlf(break_every_76(e), 76);
        lemma_drop_breaks_append(break_every_76(e), crlf());
        reveal_with_fuel(drop_breaks, 3);
        assert(drop_breaks(crlf()) =~= Seq::<u8>::empty());
        assert(e + Seq::<u8>::empty() =~= e);
    }
}

/// No line of the MIME-folded base64 text is longer than 76 characters.
pub proof fn lemma_base64_line_length(s: Seq<u8>)
    ensures
        lines_at_most(base64_mime_of(s, false), 76),
{
    lemma_base64_no_breaks(s);
    lemma_drop_breaks_mime_lines(base64_of(s));
}

proof fn lemma_break_short(x: Seq<u8>)
    requires
        x.len() < 76,
    ensures
        break_every_76(x) == x,
    decreases x.len(),
{
    if x.len() > 0 {
        lemma_break_short(x.drop_last());
        assert(x.drop_last() + seq![x.last()] =~= x);
    }
}

proof fn lemma_break_concat(a: Seq<u8>, b: Seq<u8>)
    requires
        a.len() % 76 == 0,
    ensures
        break_every_76(a + b) == break_every_76(a) + break_every_76(b),
    decreases b.len(),
{
    if b.len() == 0 {
        assert(a + b =~= a);
        assert(break_every_76(a) + Seq::<u8>::empty() =~= break_every_76(a));
    } else {
        lemma_break_concat(a, b.drop_last());
        assert((a + b).drop_last() =~= a + b.drop_last());
        assert((a + b).last() == b.last());
        assert((a.len() + b.len()) % 76 == b.len() % 76) by {
            assert(a.len() == (a.len() / 76) * 76);
        }
        let x = break_every_76(a) + break_every_76(b.drop_last()) + seq![b.last()];
        assert(break_every_76(a) + (break_every_76(b.drop_last()) + seq![b.last()]) =~= x);
        assert(break_every_76(a) + (break_every_76(b.drop_last()) + seq![b.last()] + crlf()) =~= x + crlf());
    }
}

/// The shape of MIME-folded text: nothing for empty text; else lines of
/// exactly 76 characters, each ended by CRLF, then the last line of 1 to 76
/// characters ended by CRLF.
pub proof fn lemma_mime_lines_shape(e: Seq<u8>)
    ensures
        mime_lines(e) == if e.len() == 0 {
            seq![]
        } else if e.len() <= 76 {
            e + crlf()
        } else {
            e.take(76) + crlf() + mime_lines(e.skip(76))
        },
{
    if e.len() == 0 {
    } else if e.len() < 76 {
        lemma_break_short(e);
    } else {
        let x = e.take(76);
        lemma_break_short(x.drop_last());
        assert(x.drop_last() + seq![x.last()] =~= x);
        assert(break_every_76(x) == x + crlf());
        if e.len() == 76 {
            assert(e.take(76) =~= e);
        } else {
            lemma_break_concat(x, e.skip(76));
            assert(x + e.skip(76) =~= e);
            assert(e.skip(76).len() % 76 == e.len() % 76);
        }
    }
}

proof fn lemma_base64_append(a: Seq<u8>, b: Seq<u8>)
    requires
        a.len() % 3 == 0,
    ensures
        base64_of(a + b) == base64_of(a) + base64_of(b),
    decreases a.len(),
{
    if a.len() == 0 {
        assert(a + b =~= b);
    } else {
        assert((a + b).take(3) =~= a.take(3));
        assert((a + b).skip(3) =~= a.skip(3) + b);
        lemma_base64_append(a.skip(3), b);
        if a.len() == 3 {
            assert(a.skip(3) =~= Seq::<u8>::empty());
            assert(a.take(3) =~= a);
            assert(a.skip(3) + b =~= b);
        }
    }
}

pub proof fn lemma_base64_len(s: Seq<u8>)
    ensures
        base64_of(s).len() == (s.len() + 2) / 3 * 4,
    decreases s.len(),
{
    if s.len() > 3 {
        lemma_base64_len(s.skip(3));
    }
}

proof fn lemma_break_group(s: Seq<u8>, g: Seq<u8>)
    requires
        s.len() % 4 == 0,
        g.len() == 4,
    ensures
        break_every_76(s + g) == break_every_76(s) + g + (if (s.len() + 4) % 76 == 0 {
            crlf()
        } else {
            seq![]
        }),
{
    let t = s + g;
    assert(t.drop_last() =~= s + g.take(3));
    assert((s + g.take(3)).drop_last() =~= s + g.take(2));
    assert((s + g.take(2)).drop_last() =~= s + g.take(1));
    assert((s + g.take(1)).drop_last() =~= s);
    assert((s.len() + 1) % 76 != 0 && (s.len() + 2) % 76 != 0 && (s.len() + 3) % 76 != 0);
    reveal_with_fuel(break_every_76, 4);
    assert(break_every_76(s + g.take(1)) =~= break_every_76(s) + g.take(1));
    assert(break_every_76(s + g.take(2)) =~= break_every_76(s) + g.take(2));
    assert(break_every_76(s + g.take(3)) =~= break_every_76(s) + g.take(3));
    if (s.len() + 4) % 76 == 0 {
        assert(break_every_76(t) =~= break_every_76(s) + g + crlf());
    } else {
        assert(break_every_76(t) =~= break_every_76(s) + g + seq![]);
    }
}

fn b64_symbol_exec(v: u8) -> (c: u8)
    requires
        v < 64,
    ensures
        c == b64_symbol(v as int),
{
    if v < 26 {
        65 + v
    } else if v < 52 {
        97 + (v - 26)
    } else if v < 62 {
        48 + (v - 52)
    } else if v == 62 {
        43
    } else {
        47
    }
}

/// Appends one encoded group to `output` and keeps the MIME line length.
fn push_group(
    output: &mut Vec<u8>,
    g: [u8; 4],
    chars_written: usize,
    is_inline: bool,
)
    requires
        chars_written % 4 == 0,
    ensures
        final(output)@ == old(output)@ + g@ + (if !is_inline && (chars_written + 4) % 76 == 0 {
            crlf()
        } else {
            seq![]
        }),
{
    output.push(g[0]);
    output.push(g[1]);
    output.push(g[2]);
    output.push(g[3]);
    if !is_inline && (chars_written as u128 + 4) % 76 == 0 {
        output.push(13);
        output.push(10);
    }
    proof {
        assert(g@ =~= seq![g[0], g[1], g[2], g[3]]);
    }
}

/// Base64-encodes `input` (inline, without line breaks) into a new buffer.
pub fn base64_encode(input: &[u8]) -> (r: Vec<u8>)
    requires
        within_limits(input@.len() as int),
    ensures
        r@ == base64_of(input@),
{
    let mut buf: Vec<u8> = Vec::new();
    base64_encode_mime(input, &mut buf, true);
    proof {
        assert(Seq::<u8>::empty() + base64_of(input@) =~= base64_of(input@));
    }
    buf
}

/// Base64-encodes `input` onto `output`. Unless `is_inline`, the text is cut
/// into lines of 76 characters, each ended by CRLF (also the last, partial
/// one). Returns the number of base64 characters written.
pub fn base64_encode_mime(input: &[u8], output: &mut Vec<u8>, is_inline: bool) -> (r: usize)
    requires
        within_limits(input@.len() as int),
    ensures
        final(output)@ == old(output)@ + base64_mime_of(input@, is_inline),
        r == base64_of(input@).len(),
{
    let ghost start = output@;
    let n = input.len();
    let mut i: usize = 0;
    let mut written: usize = 0;
    proof {
        assert(input@.take(0) =~= Seq::<u8>::empty());
        assert(start + Seq::<u8>::empty() =~= start);
    }
    while i + 3 <= n
        invariant
            n == input@.len(),
            i % 3 == 0,
            i <= n,
            within_limits(n as int),
            written == i / 3 * 4,
            base64_of(input@.take(i as int)).len() == written,
            output@ == start + (if is_inline {
                base64_of(input@.take(i as int))
            } else {
                break_every_76(base64_of(input@.take(i as int)))
            }),
        decreases n - i,
    {
        let t1 = input[i];
        let t2 = input[i + 1];
        let t3 = input[i + 2];
        let g: [u8; 4] = [
            b64_symbol_exec(t1 / 4),
            b64_symbol_exec((t1 % 4) * 16 + t2 / 16),
            b64_symbol_exec((t2 % 16) * 4 + t3 / 64),
            b64_symbol_exec(t3 % 64),
        ];
        let ghost pre = input@.take(i as int);
        let ghost grp = input@.subrange(i as int, i + 3);
        proof {
            assert(input@.take(i + 3) =~= pre + grp);
            assert(grp.len() == 3 && grp[0] == t1 && grp[1] == t2 && grp[2] == t3);
            reveal_with_fuel(base64_of, 2);
            assert(g@ =~= b64_group(grp));
            assert(base64_of(grp) == b64_group(grp));
            lemma_base64_append(pre, grp);
            lemma_base64_len(input@.take(i + 3));
            if !is_inline {
                lemma_break_group(base64_of(pre), g@);
            }
        }
        push_group(output, g, written, is_inline);
        i = i + 3;
        written = written + 4;
    }
    let remaining = n - i;
    let ghost pre = input@.take(i as int);
    if remaining > 0 {
        let t1 = input[i];
        let g: [u8; 4] = if remaining == 1 {
            [b64_symbol_exec(t1 / 4), b64_symbol_exec((t1 % 4) * 16), 61, 61]
        } else {
            let t2 = input[i + 1];
            [
                b64_symbol_exec(t1 / 4),
                b64_symbol_exec((t1 % 4) * 16 + t2 / 16),
                b64_symbol_exec((t2 % 16) * 4),
                61,
            ]
        };
        let ghost rest = input@.skip(i as int);
        proof {
            assert(input@ =~= pre + rest);
            assert(g@ =~= b64_group(rest));
            assert(base64_of(rest) == b64_group(rest));
            lemma_base64_append(pre, rest);
            lemma_base64_len(input@);
            if !is_inline {
                lemma_break_group(base64_of(pre), g@);
            }
        }
        push_group(output, g, written, is_inline);
        written = written + 4;
    } else {
        proof {
            assert(input@.take(i as int) =~= input@);
        }
    }
    if !is_inline && written % 76 != 0 {
        output.push(13);
        output.push(10);
    }
    proof {
        lemma_base64_len(input@);
        if !is_inline {
            let e = base64_of(input@);
            if written % 76 != 0 {
                assert(output@ =~= start + mime_lines(e));
            } else {
                assert(output@ =~= start + mime_lines(e));
            }
        }
    }
    written
}

} // verus!
