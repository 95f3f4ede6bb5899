//! `Content-Type` and `Content-Disposition` values: a type and attributes.
use vstd::prelude::*;

use crate::encoders::encode::{lemma_rfc2047_len, rfc2047_encode, rfc2047_of};
use crate::encoders::{crlf, push_bytes, within_limits};
use crate::headers::{fold_break, push_fold, Header};
use vstd::utf8::encode_utf8;

verus! {

/// Output and column after the first `n` attributes, `key=value` with the
/// value RFC 2047-encoded, joined by `; `, with a fold before an attribute
/// that would bring the line to 76 bytes or more.
pub open spec fn attr_run(attrs: Seq<(Seq<u8>, Seq<u8>)>, n: int, col: int) -> (Seq<u8>, int)
    decreases n,
{
    if n <= 0 {
        (seq![], col)
    } else {
        let prev = attr_run(attrs, n - 1, col);
        let k = attrs[n - 1].0;
        let v = attrs[n - 1].1;
        let folded = prev.1 + k.len() + v.len() + 3 >= 76;
        let lead = if folded {
            fold_break()
        } else {
            seq![]
        };
        let c = if folded {
            1
        } else {
            prev.1
        };
        let sep = if n < attrs.len() {
            seq![59u8, 32]
        } else {
            seq![]
        };
        (
            prev.0 + lead + k + seq![61u8] + rfc2047_of(v) + sep,
            c + k.len() + 1 + rfc2047_of(v).len() + sep.len(),
        )
    }
}

/// The attributes as bytes.
pub open spec fn attr_bytes(attrs: Seq<(String, String)>) -> Seq<(Seq<u8>, Seq<u8>)> {
    attrs.map_values(|p: (String, String)| (encode_utf8(p.0@), encode_utf8(p.1@)))
}

/// Whether `s` begins with `p`.
pub open spec fn starts_with(s: Seq<u8>, p: Seq<u8>) -> bool {
    p.len() <= s.len() && s.take(p.len() as int) == p
}

/// `text/`
pub open spec fn text_slash() -> Seq<u8> {
    seq![116u8, 101, 120, 116, 47]
}

/// `attachment`
pub open spec fn attachment_word() -> Seq<u8> {
    seq![97u8, 116, 116, 97, 99, 104, 109, 101, 110, 116]
}

/// Whether `s` begins with `p`.
pub fn bytes_start_with(s: &[u8], p: &[u8]) -> (r: bool)
    ensures
        r == starts_with(s@, p@),
{
    if p.len() > s.len() {
        return false;
    }
    let mut i: usize = 0;
    while i < p.len()
        invariant
            p@.len() <= s@.len(),
            i <= p@.len(),
            forall|j: int| 0 <= j < i ==> s@[j] == p@[j],
        decreases p@.len() - i,
    {
        if s[i] != p[i] {
            proof {
                assert(s@.take(p@.len() as int)[i as int] != p@[i as int]);
            }
            return false;
        }
        i = i + 1;
    }
    proof {
        assert(s@.take(p@.len() as int) =~= p@);
    }
    true
}

/// Whether two byte sequences are equal.
pub fn bytes_equal(a: &[u8], b: &[u8]) -> (r: bool)
    ensures
        r == (a@ == b@),
{
    let r = a.len() == b.len() && bytes_start_with(a, b);
    proof {
        if a@.len() == b@.len() {
            assert(a@.take(b@.len() as int) =~= a@);
        }
    }
    r
}

/// MIME `Content-Type` or `Content-Disposition` value.
pub struct ContentType {
    pub c_type: String,
    pub attributes: Vec<(String, String)>,
}

impl ContentType {
    /// A value with no attributes.
    pub fn new(c_type: &str) -> (r: ContentType)
        ensures
            r.c_type@ == c_type@,
            r.attributes@.len() == 0,
    {
        ContentType { c_type: c_type.to_owned(), attributes: Vec::new() }
    }

    /// The same value with one more attribute at the end.
    pub fn attribute(self, key: &str, value: &str) -> (r: ContentType)
        ensures
            r.c_type@ == self.c_type@,
            r.attributes@.len() == self.attributes@.len() + 1,
            forall|i: int| 0 <= i < self.attributes@.len() ==> #[trigger] r.attributes@[i] == self.attributes@[i],
            r.attributes@.last().0@ == key@,
            r.attributes@.last().1@ == value@,
    {
        let mut s = self;
        s.attributes.push((key.to_owned(), value.to_owned()));
        s
    }

    /// Whether the type is `text/*`.
    pub fn is_text(&self) -> (r: bool)
        ensures
            r == starts_with(encode_utf8(self.c_type@), text_slash()),
    {
        bytes_start_with(self.c_type.as_str().as_bytes(), &[116u8, 101, 120, 116, 47])
    }

    /// Whether the value is `attachment` (a disposition).
    pub fn is_attachment(&self) -> (r: bool)
        ensures
            r == (encode_utf8(self.c_type@) == attachment_word()),
    {
        let b = self.c_type.as_str().as_bytes();
        let r = b.len() == 10 && bytes_start_with(b, &[97u8, 116, 116, 97, 99, 104, 109, 101, 110, 116]);
        proof {
            if b@.len() == 10 {
                assert(b@.take(10) =~= b@);
            }
        }
        r
    }
}

/// The attribute pairs held as byte slices.
pub open spec fn slice_pairs(v: Seq<(&[u8], &[u8])>) -> Seq<(Seq<u8>, Seq<u8>)> {
    v.map_values(|p: (&[u8], &[u8])| (p.0@, p.1@))
}

/// Whether a type and its attributes are within the encoders' limits.
pub open spec fn content_type_fits(t: Seq<u8>, attrs: Seq<(Seq<u8>, Seq<u8>)>) -> bool {
    within_limits(t.len() as int) && forall|i: int|
        0 <= i < attrs.len() ==> within_limits((#[trigger] attrs[i]).0.len() as int)
            && within_limits(attrs[i].1.len() as int)
}

/// A content type written from column `col`: the type, then `; ` and the
/// attributes if there are any, then CRLF.
pub open spec fn content_type_out(t: Seq<u8>, attrs: Seq<(Seq<u8>, Seq<u8>)>, col: int) -> Seq<
    u8,
> {
    t + (if attrs.len() > 0 {
        seq![59u8, 32] + attr_run(attrs, attrs.len() as int, col + t.len() + 2).0
    } else {
        seq![]
    }) + crlf()
}

/// Writes a content type and its attributes from column `col`.
pub fn write_content_type(t: &[u8], attrs: &Vec<(&[u8], &[u8])>, output: &mut Vec<u8>, col: usize)
    requires
        within_limits(col as int),
        content_type_fits(t@, slice_pairs(attrs@)),
    ensures
        final(output)@ == old(output)@ + content_type_out(t@, slice_pairs(attrs@), col as int),
{
    let ghost start = output@;
    let ghost pairs = slice_pairs(attrs@);
    push_bytes(output, t);
    let n = attrs.len();
    if n > 0 {
        push_bytes(output, &[59u8, 32]);
        let ghost mid = output@;
        let ghost col0 = col + t@.len() + 2;
        let mut c: usize = col + t.len() + 2;
        let mut pos: usize = 0;
        proof {
            assert(mid + Seq::<u8>::empty() =~= mid);
        }
        while pos < n
            invariant
                n == attrs@.len(),
                pairs == slice_pairs(attrs@),
                within_limits(col as int),
                content_type_fits(t@, pairs),
                pos <= n,
                col0 == col + t@.len() + 2,
                c <= usize::MAX / 2 + 100,
                output@ == mid + attr_run(pairs, pos as int, col0).0,
                c == attr_run(pairs, pos as int, col0).1,
            decreases n - pos,
        {
            let k = attrs[pos].0;
            let v = attrs[pos].1;
            assert(k@ == pairs[pos as int].0 && v@ == pairs[pos as int].1);
            assert(within_limits(pairs[pos as int].0.len() as int));
            proof {
                lemma_rfc2047_len(v@);
            }
            if c + k.len() + v.len() + 3 >= 76 {
                push_fold(output);
                c = 1;
            }
            push_bytes(output, k);
            output.push(61);
            let e = rfc2047_encode(v, output);
            c = c + k.len() + 1 + e;
            if pos + 1 < n {
                push_bytes(output, &[59u8, 32]);
                c = c + 2;
            }
            proof {
                assert(output@ =~= mid + attr_run(pairs, pos + 1, col0).0);
            }
            pos = pos + 1;
        }
    }
    push_bytes(output, &[13u8, 10]);
    proof {
        assert(final(output)@ =~= start + content_type_out(t@, pairs, col as int));
    }
}

/// The attributes of a content type as byte slices.
pub fn attribute_slices(attributes: &Vec<(String, String)>) -> (r: Vec<(&[u8], &[u8])>)
    ensures
        slice_pairs(r@) == attr_bytes(attributes@),
{
    let mut v: Vec<(&[u8], &[u8])> = Vec::new();
    let mut i: usize = 0;
    while i < attributes.len()
        invariant
            i <= attributes@.len(),
            v@.len() == i,
            slice_pairs(v@) =~= attr_bytes(attributes@.take(i as int)),
        decreases attributes@.len() - i,
    {
        let a = &attributes[i];
        let k = a.0.as_str().as_bytes();
        let val = a.1.as_str().as_bytes();
        let ghost old_v = v@;
        v.push((k, val));
        proof {
            let t = attributes@.take(i + 1);
            assert(t[i as int] == attributes@[i as int]);
            assert forall|j: int| 0 <= j < i + 1 implies #[trigger] slice_pairs(v@)[j] == attr_bytes(
                t,
            )[j] by {
                if j < i {
                    assert(v@[j] == old_v[j]);
                    assert(attributes@.take(i as int)[j] == t[j]);
                    assert(slice_pairs(old_v)[j] == attr_bytes(attributes@.take(i as int))[j]);
                } else {
                    assert(v@[j] == (k, val));
                    assert(k@ == encode_utf8(attributes@[i as int].0@));
                    assert(val@ == encode_utf8(attributes@[i as int].1@));
                }
            }
            assert(slice_pairs(v@) =~= attr_bytes(t));
        }
        i = i + 1;
    }
    proof {
        assert(attributes@.take(i as int) =~= attributes@);
    }
    v
}

impl Header for ContentType {
    open spec fn writable(&self, col: int) -> bool {
        within_limits(col) && content_type_fits(
            encode_utf8(self.c_type@),
            attr_bytes(self.attributes@),
        )
    }

    open spec fn header_bytes(&self, col: int) -> Seq<u8> {
        content_type_out(encode_utf8(self.c_type@), attr_bytes(self.attributes@), col)
    }

    open spec fn header_col(&self, col: int) -> int {
        0
    }

    fn write_header(&self, output: &mut Vec<u8>, bytes_written: usize) -> (r: usize) {
        let attrs = attribute_slices(&self.attributes);
        write_content_type(self.c_type.as_str().as_bytes(), &attrs, output, bytes_written);
        0
    }
}

} // verus!
