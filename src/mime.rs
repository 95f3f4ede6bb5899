//! MIME parts and the writer that lays a tree of them out as bytes.
use vstd::prelude::*;

use crate::encoders::base64::{base64_encode_mime, base64_of, mime_lines};
use crate::encoders::encode::{encoding_type, get_encoding_type, EncodingType};
use crate::encoders::quoted_printable::{crlf_normalized, qp_encode, quoted_printable_encode};
use crate::encoders::{crlf, push_bytes, within_limits};
use crate::headers::content_type::{
    attachment_word, attr_bytes, attribute_slices, bytes_equal, bytes_start_with,
    content_type_fits, content_type_out, slice_pairs, starts_with, text_slash, write_content_type,
    ContentType,
};
use crate::headers::message_id::MessageId;
use crate::headers::raw::{blank_folded, write_folded_at_blanks, Raw};
use crate::headers::text::Text;
use crate::headers::{Header, HeaderType};
use vstd::utf8::encode_utf8;

verus! {

/// A MIME part: its headers, in order, and its body.
pub struct MimePart {
    pub headers: Vec<(String, HeaderType)>,
    pub contents: BodyPart,
}

/// The body of a MIME part.
pub enum BodyPart {
    Text(String),
    Binary(Vec<u8>),
    Multipart(Vec<MimePart>),
}

/// `Content-Transfer-Encoding: `
pub open spec fn cte_name() -> Seq<u8> {
    seq![67u8, 111, 110, 116, 101, 110, 116, 45, 84, 114, 97, 110, 115, 102, 101, 114, 45, 69, 110, 99, 111, 100, 105, 110, 103, 58, 32]
}

/// `base64`
pub open spec fn base64_word() -> Seq<u8> {
    seq![98u8, 97, 115, 101, 54, 52]
}

/// `quoted-printable`
pub open spec fn qp_word() -> Seq<u8> {
    seq![113u8, 117, 111, 116, 101, 100, 45, 112, 114, 105, 110, 116, 97, 98, 108, 101]
}

/// `7bit`
pub open spec fn seven_bit_word() -> Seq<u8> {
    seq![55u8, 98, 105, 116]
}

/// The `Content-Transfer-Encoding` header and the blank line after it.
pub open spec fn cte_header(kind: Seq<u8>) -> Seq<u8> {
    cte_name() + kind + crlf() + crlf()
}

/// `Content-Type`
pub open spec fn content_type_name() -> Seq<u8> {
    seq![67u8, 111, 110, 116, 101, 110, 116, 45, 84, 121, 112, 101]
}

/// `Content-Disposition`
pub open spec fn content_disposition_name() -> Seq<u8> {
    seq![67u8, 111, 110, 116, 101, 110, 116, 45, 68, 105, 115, 112, 111, 115, 105, 116, 105, 111, 110]
}

/// `boundary`
pub open spec fn boundary_word() -> Seq<u8> {
    seq![98u8, 111, 117, 110, 100, 97, 114, 121]
}

/// `boundary="`
pub open spec fn boundary_quote() -> Seq<u8> {
    seq![98u8, 111, 117, 110, 100, 97, 114, 121, 61, 34]
}

/// `multipart/mixed`
pub open spec fn multipart_mixed() -> Seq<u8> {
    seq![109u8, 117, 108, 116, 105, 112, 97, 114, 116, 47, 109, 105, 120, 101, 100]
}

/// A body as written: its `Content-Transfer-Encoding` header, a blank line,
/// and the body in the encoding the selector picks (7-bit bodies get CRLF
/// line ends in body mode).
pub open spec fn body_out(s: Seq<u8>, is_body: bool) -> Seq<u8> {
    match encoding_type(s, false, is_body) {
        EncodingType::Base64 => cte_header(base64_word()) + mime_lines(base64_of(s)),
        EncodingType::QuotedPrintable(_) => cte_header(qp_word()) + qp_encode(s, is_body),
        EncodingType::NoEncoding => cte_header(seven_bit_word()) + if is_body {
            crlf_normalized(s)
        } else {
            s
        },
    }
}

/// The bytes of a header name.
pub open spec fn name_bytes(h: (String, HeaderType)) -> Seq<u8> {
    encode_utf8(h.0@)
}

/// A header line: the name, `: `, and the folded value.
pub open spec fn header_line(h: (String, HeaderType)) -> Seq<u8> {
    name_bytes(h) + seq![58u8, 32] + h.1.header_bytes(name_bytes(h).len() + 2int)
}

/// The header lines in order.
pub open spec fn headers_out(hs: Seq<(String, HeaderType)>) -> Seq<u8>
    decreases hs.len(),
{
    if hs.len() == 0 {
        seq![]
    } else {
        headers_out(hs.drop_last()) + header_line(hs.last())
    }
}

/// Whether a header can be written.
pub open spec fn header_writable(h: (String, HeaderType)) -> bool {
    within_limits(name_bytes(h).len() + 2int) && h.1.writable(name_bytes(h).len() + 2int)
}

/// Whether some `Content-Disposition` header says `attachment`.
pub open spec fn marks_attachment(hs: Seq<(String, HeaderType)>) -> bool {
    exists|i: int|
        0 <= i < hs.len() && name_bytes(#[trigger] hs[i]) == content_disposition_name() && match hs[i].1 {
            HeaderType::ContentType(ct) => encode_utf8(ct.c_type@) == attachment_word(),
            _ => false,
        }
}

/// Whether some `Content-Type` header gives a `text/*` type.
pub open spec fn marks_text(hs: Seq<(String, HeaderType)>) -> bool {
    exists|i: int|
        0 <= i < hs.len() && name_bytes(#[trigger] hs[i]) == content_type_name() && match hs[i].1 {
            HeaderType::ContentType(ct) => starts_with(encode_utf8(ct.c_type@), text_slash()),
            _ => false,
        }
}

/// `text/plain`
pub open spec fn text_plain() -> Seq<u8> {
    seq![116u8, 101, 120, 116, 47, 112, 108, 97, 105, 110]
}

/// `application/octet-stream`
pub open spec fn octet_stream() -> Seq<u8> {
    seq![97u8, 112, 112, 108, 105, 99, 97, 116, 105, 111, 110, 47, 111, 99, 116, 101, 116, 45, 115, 116, 114, 101, 97, 109]
}

/// The `Content-Type` line a text or binary part without one is given:
/// `text/plain; charset=utf-8` for text, `application/octet-stream` for
/// bytes.
pub open spec fn default_content_type(p: MimePart) -> Seq<u8> {
    content_type_name() + seq![58u8, 32] + match p.contents {
        BodyPart::Text(_) => content_type_out(
            text_plain(),
            seq![(seq![99u8, 104, 97, 114, 115, 101, 116], seq![117u8, 116, 102, 45, 56])],
            14,
        ),
        _ => content_type_out(octet_stream(), seq![], 14),
    }
}

/// The header lines of a text or binary part: a `Content-Type` made up
/// where it has none, then its own headers.
pub open spec fn leaf_headers_out(p: MimePart) -> Seq<u8> {
    (if content_type_count(p.headers@) == 0 {
        default_content_type(p)
    } else {
        seq![]
    }) + headers_out(p.headers@)
}

/// Number of `Content-Type` lines written for a text or binary part.
pub open spec fn leaf_content_type_lines(hs: Seq<(String, HeaderType)>) -> nat {
    content_type_count(hs) + if content_type_count(hs) == 0 {
        1nat
    } else {
        0nat
    }
}

/// A text or binary part is written with exactly one `Content-Type` header
/// when it has at most one of its own: the one it has, or one made up.
pub proof fn lemma_leaf_one_content_type(hs: Seq<(String, HeaderType)>)
    requires
        content_type_count(hs) <= 1,
    ensures
        leaf_content_type_lines(hs) == 1,
{
}

/// What a text or binary part writes: its header lines, then its body. A
/// binary body whose type is not `text/*` is always base64.
pub open spec fn leaf_out(p: MimePart) -> Seq<u8> {
    let hs = p.headers@;
    match p.contents {
        BodyPart::Text(t) => leaf_headers_out(p) + body_out(encode_utf8(t@), !marks_attachment(hs)),
        BodyPart::Binary(b) => leaf_headers_out(p) + if marks_text(hs) {
            body_out(b@, !marks_attachment(hs))
        } else {
            cte_header(base64_word()) + mime_lines(base64_of(b@))
        },
        BodyPart::Multipart(_) => seq![],
    }
}

/// ASCII lower case of a byte.
pub open spec fn ascii_lower(c: u8) -> u8 {
    if 65 <= c <= 90 {
        (c + 32) as u8
    } else {
        c
    }
}

/// Equality up to ASCII case.
pub open spec fn eq_ignore_case(a: Seq<u8>, b: Seq<u8>) -> bool {
    a.len() == b.len() && forall|i: int| 0 <= i < a.len() ==> ascii_lower(#[trigger] a[i]) == ascii_lower(b[i])
}

/// Index of the first attribute named `boundary` (any case) at or after
/// `i`, or the number of attributes.
pub open spec fn boundary_index(attrs: Seq<(Seq<u8>, Seq<u8>)>, i: int) -> int
    decreases attrs.len() - i,
{
    if i < 0 || i >= attrs.len() {
        attrs.len() as int
    } else if eq_ignore_case(attrs[i].0, boundary_word()) {
        i
    } else {
        boundary_index(attrs, i + 1)
    }
}

/// Decimal digits of `n`.
pub open spec fn decimal(n: nat) -> Seq<u8>
    decreases n,
{
    if n < 10 {
        seq![(48 + n) as u8]
    } else {
        decimal(n / 10) + seq![(48 + n % 10) as u8]
    }
}

/// The `k`-th boundary generated from `token`: the token, `_`, and `k`.
pub open spec fn boundary_of(token: Seq<u8>, k: nat) -> Seq<u8> {
    token + seq![95u8] + decimal(k)
}

/// First index at or after `i` where `pat` occurs in `s`, or `s.len()`.
pub open spec fn find_from(s: Seq<u8>, pat: Seq<u8>, i: int) -> int
    decreases s.len() - i,
{
    if i < 0 || i >= s.len() || i + pat.len() > s.len() {
        s.len() as int
    } else if s.subrange(i, i + pat.len() as int) == pat {
        i
    } else {
        find_from(s, pat, i + 1)
    }
}

/// First index at or after `i` of a `"` in `s`, or `s.len()`.
pub open spec fn quote_from(s: Seq<u8>, i: int) -> int
    decreases s.len() - i,
{
    if i < 0 || i >= s.len() {
        s.len() as int
    } else if s[i] == 34 {
        i
    } else {
        quote_from(s, i + 1)
    }
}

/// The boundary a raw `Content-Type` value carries after `boundary="`, up to
/// the next quote.
pub open spec fn raw_boundary(s: Seq<u8>) -> Option<Seq<u8>> {
    let p = find_from(s, boundary_quote(), 0);
    if p < s.len() {
        Some(s.subrange(p + 10, quote_from(s, p + 10)))
    } else {
        None
    }
}

/// The `Content-Type` of a multipart part, written from column 14, with the
/// boundary it uses and the count of generated boundaries after it: a
/// `boundary` attribute already there is used, a raw value's `boundary="…"`
/// too; else the `k`-th boundary is generated and added.
pub open spec fn multipart_type_out(v: HeaderType, token: Seq<u8>, k: nat) -> (Seq<u8>, Seq<u8>, nat) {
    match v {
        HeaderType::ContentType(ct) => {
            let t = encode_utf8(ct.c_type@);
            let attrs = attr_bytes(ct.attributes@);
            let i = boundary_index(attrs, 0);
            if i < attrs.len() {
                (content_type_out(t, attrs, 14), attrs[i].1, k)
            } else {
                let g = boundary_of(token, k);
                (content_type_out(t, attrs.push((boundary_word(), g)), 14), g, k + 1)
            }
        },
        HeaderType::Raw(r) => {
            let s = encode_utf8(r.raw@);
            match raw_boundary(s) {
                Some(b) => (blank_folded(s, 14), b, k),
                None => {
                    let g = boundary_of(token, k);
                    (blank_folded(s + seq![59u8, 32] + boundary_quote() + g + seq![34u8], 14), g, k + 1)
                },
            }
        },
        _ => (v.header_bytes(14), seq![], k),
    }
}

/// Output, whether a `Content-Type` was met, its boundary and the count of
/// generated boundaries, after the first `n` headers of a multipart part.
pub open spec fn multipart_headers_run(hs: Seq<(String, HeaderType)>, n: int, token: Seq<u8>, k: nat) -> (
    Seq<u8>,
    bool,
    Seq<u8>,
    nat,
)
    decreases n,
{
    if n <= 0 {
        (seq![], false, seq![], k)
    } else {
        let prev = multipart_headers_run(hs, n - 1, token, k);
        let h = hs[n - 1];
        if !prev.1 && eq_ignore_case(name_bytes(h), content_type_name()) {
            let t = multipart_type_out(h.1, token, prev.3);
            (prev.0 + name_bytes(h) + seq![58u8, 32] + t.0, true, t.1, t.2)
        } else {
            (prev.0 + header_line(h), prev.1, prev.2, prev.3)
        }
    }
}

/// The headers of a multipart part, its boundary and the count of generated
/// boundaries after it. Without a `Content-Type` one is added:
/// `multipart/mixed` with a generated boundary.
pub open spec fn multipart_head(hs: Seq<(String, HeaderType)>, token: Seq<u8>, k: nat) -> (
    Seq<u8>,
    Seq<u8>,
    nat,
) {
    let r = multipart_headers_run(hs, hs.len() as int, token, k);
    if r.1 {
        (r.0, r.2, r.3)
    } else {
        let g = boundary_of(token, r.3);
        (
            r.0 + content_type_name() + seq![58u8, 32] + content_type_out(
                multipart_mixed(),
                seq![(boundary_word(), g)],
                14,
            ),
            g,
            r.3 + 1,
        )
    }
}

/// `CRLF--boundary CRLF`, before each part of a multipart body.
pub open spec fn open_delimiter(b: Seq<u8>) -> Seq<u8> {
    seq![13u8, 10, 45, 45] + b + crlf()
}

/// `CRLF--boundary--CRLF`, after the last part of a multipart body.
pub open spec fn close_delimiter(b: Seq<u8>) -> Seq<u8> {
    seq![13u8, 10, 45, 45] + b + seq![45u8, 45, 13, 10]
}

/// What a part writes, from boundary count `k`, and the count after it.
pub open spec fn part_out(p: MimePart, token: Seq<u8>, k: nat) -> (Seq<u8>, nat)
    decreases p,
{
    match p.contents {
        BodyPart::Multipart(children) => {
            let h = multipart_head(p.headers@, token, k);
            let c = children_out(children@, h.1, token, h.2);
            (h.0 + crlf() + c.0, c.1)
        },
        _ => (leaf_out(p), k),
    }
}

/// What the parts of a multipart body write under boundary `b`: each after
/// an opening delimiter, then the closing delimiter.
pub open spec fn children_out(cs: Seq<MimePart>, b: Seq<u8>, token: Seq<u8>, k: nat) -> (Seq<u8>, nat)
    decreases cs,
{
    if cs.len() == 0 {
        (close_delimiter(b), k)
    } else {
        let first = part_out(cs[0], token, k);
        let rest = children_out(cs.subrange(1, cs.len() as int), b, token, first.1);
        (open_delimiter(b) + first.0 + rest.0, rest.1)
    }
}

/// Writes `s` with CRLF line ends: a CR before every LF that does not
/// follow one.
fn write_crlf_normalized(s: &[u8], output: &mut Vec<u8>)
    ensures
        final(output)@ == old(output)@ + crlf_normalized(s@),
{
    let ghost start = output@;
    let mut pos: usize = 0;
    proof {
        assert(s@.take(0) =~= Seq::<u8>::empty());
        assert(start + Seq::<u8>::empty() =~= start);
    }
    while pos < s.len()
        invariant
            pos <= s@.len(),
            output@ == start + crlf_normalized(s@.take(pos as int)),
        decreases s@.len() - pos,
    {
        let ch = s[pos];
        if ch == 10 && (pos == 0 || s[pos - 1] != 13) {
            output.push(13);
        }
        output.push(ch);
        proof {
            let t = s@.take(pos + 1);
            assert(t.drop_last() =~= s@.take(pos as int));
            assert(output@ =~= start + crlf_normalized(t));
        }
        pos = pos + 1;
    }
    proof {
        assert(s@.take(pos as int) =~= s@);
    }
}

/// Writes the `Content-Transfer-Encoding` header line and the blank line.
fn write_cte(output: &mut Vec<u8>, kind: &[u8])
    ensures
        final(output)@ == old(output)@ + cte_header(kind@),
{
    let ghost start = output@;
    push_bytes(output, &[67u8, 111, 110, 116, 101, 110, 116, 45, 84, 114, 97, 110, 115, 102, 101, 114, 45, 69, 110, 99, 111, 100, 105, 110, 103, 58, 32]);
    push_bytes(output, kind);
    push_bytes(output, &[13u8, 10, 13, 10]);
    proof {
        assert(final(output)@ =~= start + cte_header(kind@));
    }
}

/// Writes a body with the transfer encoding the selector picks for it.
pub fn detect_encoding(input: &[u8], output: &mut Vec<u8>, is_body: bool)
    requires
        within_limits(input@.len() as int),
    ensures
        final(output)@ == old(output)@ + body_out(input@, is_body),
{
    let ghost start = output@;
    match get_encoding_type(input, false, is_body) {
        EncodingType::Base64 => {
            write_cte(output, &[98u8, 97, 115, 101, 54, 52]);
            base64_encode_mime(input, output, false);
        },
        EncodingType::QuotedPrintable(_) => {
            write_cte(output, &[113u8, 117, 111, 116, 101, 100, 45, 112, 114, 105, 110, 116, 97, 98, 108, 101]);
            quoted_printable_encode(input, output, is_body);
        },
        EncodingType::NoEncoding => {
            write_cte(output, &[55u8, 98, 105, 116]);
            if is_body {
                write_crlf_normalized(input, output);
            } else {
                push_bytes(output, input);
            }
        },
    }
    proof {
        assert(final(output)@ =~= start + body_out(input@, is_body));
    }
}

/// Writes one header line.
fn write_header_line(h: &(String, HeaderType), output: &mut Vec<u8>)
    requires
        header_writable(*h),
    ensures
        final(output)@ == old(output)@ + header_line(*h),
{
    let ghost start = output@;
    let name = h.0.as_str().as_bytes();
    push_bytes(output, name);
    push_bytes(output, &[58u8, 32]);
    h.1.write_header(output, name.len() + 2);
    proof {
        assert(final(output)@ =~= start + header_line(*h));
    }
}

/// Writes the header lines of a text or binary part; returns whether a
/// `Content-Disposition` says `attachment` and whether a `Content-Type` is
/// `text/*`.
fn write_leaf_headers(hs: &Vec<(String, HeaderType)>, output: &mut Vec<u8>) -> (r: (bool, bool))
    requires
        forall|i: int| 0 <= i < hs@.len() ==> header_writable(#[trigger] hs@[i]),
    ensures
        final(output)@ == old(output)@ + headers_out(hs@),
        r.0 == marks_attachment(hs@),
        r.1 == marks_text(hs@),
{
    let ghost start = output@;
    let mut is_attachment = false;
    let mut is_text = false;
    let mut i: usize = 0;
    proof {
        assert(hs@.take(0) =~= Seq::<(String, HeaderType)>::empty());
        assert(start + Seq::<u8>::empty() =~= start);
    }
    while i < hs.len()
        invariant
            i <= hs@.len(),
            forall|j: int| 0 <= j < hs@.len() ==> header_writable(#[trigger] hs@[j]),
            output@ == start + headers_out(hs@.take(i as int)),
            is_attachment == marks_attachment(hs@.take(i as int)),
            is_text == marks_text(hs@.take(i as int)),
        decreases hs@.len() - i,
    {
        let h = &hs[i];
        assert(header_writable(hs@[i as int]));
        let name = h.0.as_str().as_bytes();
        let is_disposition = bytes_equal(
            name,
            &[67u8, 111, 110, 116, 101, 110, 116, 45, 68, 105, 115, 112, 111, 115, 105, 116, 105, 111, 110],
        );
        let is_type = bytes_equal(name, &[67u8, 111, 110, 116, 101, 110, 116, 45, 84, 121, 112, 101]);
        let (att_here, text_here) = match h.1.as_content_type() {
            Some(ct) => (is_disposition && ct.is_attachment(), is_type && ct.is_text()),
            None => (false, false),
        };
        if att_here {
            is_attachment = true;
        }
        if text_here {
            is_text = true;
        }
        write_header_line(h, output);
        proof {
            let t = hs@.take(i + 1);
            assert(t.drop_last() =~= hs@.take(i as int));
            assert(t.last() == hs@[i as int]);
            assert(output@ =~= start + headers_out(t));
            assert forall|j: int| 0 <= j < i + 1 implies #[trigger] t[j] == hs@[j] by {}
            if att_here {
                assert(name_bytes(t[i as int]) == content_disposition_name());
            }
            if text_here {
                assert(name_bytes(t[i as int]) == content_type_name());
            }
            if marks_attachment(t) && !att_here {
                let j = choose|j: int|
                    0 <= j < t.len() && name_bytes(#[trigger] t[j]) == content_disposition_name()
                        && match t[j].1 {
                        HeaderType::ContentType(ct) => encode_utf8(ct.c_type@) == attachment_word(),
                        _ => false,
                    };
                assert(j < i);
                assert(hs@.take(i as int)[j] == t[j]);
            }
            if marks_text(t) && !text_here {
                let j = choose|j: int|
                    0 <= j < t.len() && name_bytes(#[trigger] t[j]) == content_type_name() && match t[j].1 {
                        HeaderType::ContentType(ct) => starts_with(encode_utf8(ct.c_type@), text_slash()),
                        _ => false,
                    };
                assert(j < i);
                assert(hs@.take(i as int)[j] == t[j]);
            }
            if is_attachment && !att_here {
                let j = choose|j: int|
                    0 <= j < i && name_bytes(#[trigger] hs@.take(i as int)[j]) == content_disposition_name()
                        && match hs@.take(i as int)[j].1 {
                        HeaderType::ContentType(ct) => encode_utf8(ct.c_type@) == attachment_word(),
                        _ => false,
                    };
                assert(hs@.take(i as int)[j] == t[j]);
            }
            if is_text && !text_here {
                let j = choose|j: int|
                    0 <= j < i && name_bytes(#[trigger] hs@.take(i as int)[j]) == content_type_name()
                        && match hs@.take(i as int)[j].1 {
                        HeaderType::ContentType(ct) => starts_with(encode_utf8(ct.c_type@), text_slash()),
                        _ => false,
                    };
                assert(hs@.take(i as int)[j] == t[j]);
            }
        }
        i = i + 1;
    }
    proof {
        assert(hs@.take(i as int) =~= hs@);
    }
    (is_attachment, is_text)
}

/// Whether a text or binary part can be written.
pub open spec fn leaf_wf(p: MimePart) -> bool {
    &&& forall|i: int| 0 <= i < p.headers@.len() ==> header_writable(#[trigger] p.headers@[i])
    &&& match p.contents {
        BodyPart::Text(t) => within_limits(encode_utf8(t@).len() as int),
        BodyPart::Binary(b) => within_limits(b@.len() as int),
        BodyPart::Multipart(_) => false,
    }
}

/// Whether some header is named `Content-Type`, in any case.
fn has_content_type(hs: &Vec<(String, HeaderType)>) -> (r: bool)
    ensures
        r == (content_type_count(hs@) > 0),
{
    let mut i: usize = 0;
    let mut found = false;
    proof {
        assert(hs@.take(0) =~= Seq::<(String, HeaderType)>::empty());
    }
    while i < hs.len()
        invariant
            i <= hs@.len(),
            found == (content_type_count(hs@.take(i as int)) > 0),
        decreases hs@.len() - i,
    {
        if eq_ignore_ascii_case(hs[i].0.as_str().as_bytes(), &[67u8, 111, 110, 116, 101, 110, 116, 45, 84, 121, 112, 101]) {
            found = true;
        }
        proof {
            let t = hs@.take(i + 1);
            assert(t.drop_last() =~= hs@.take(i as int));
            assert(t.last() == hs@[i as int]);
        }
        i = i + 1;
    }
    proof {
        assert(hs@.take(i as int) =~= hs@);
    }
    found
}

/// Writes the `Content-Type` line a text or binary part without one gets.
fn write_default_content_type(p: &MimePart, output: &mut Vec<u8>)
    ensures
        final(output)@ == old(output)@ + default_content_type(*p),
{
    let ghost start = output@;
    push_bytes(output, &[67u8, 111, 110, 116, 101, 110, 116, 45, 84, 121, 112, 101, 58, 32]);
    let mut attrs: Vec<(&[u8], &[u8])> = Vec::new();
    match &p.contents {
        BodyPart::Text(_) => {
            let k: &[u8] = &[99u8, 104, 97, 114, 115, 101, 116];
            let v: &[u8] = &[117u8, 116, 102, 45, 56];
            attrs.push((k, v));
            proof {
                assert(slice_pairs(attrs@) =~= seq![(seq![99u8, 104, 97, 114, 115, 101, 116], seq![117u8, 116, 102, 45, 56])]);
            }
            write_content_type(&[116u8, 101, 120, 116, 47, 112, 108, 97, 105, 110], &attrs, output, 14);
        },
        _ => {
            proof {
                assert(slice_pairs(attrs@) =~= Seq::<(Seq<u8>, Seq<u8>)>::empty());
            }
            write_content_type(
                &[97u8, 112, 112, 108, 105, 99, 97, 116, 105, 111, 110, 47, 111, 99, 116, 101, 116, 45, 115, 116, 114, 101, 97, 109],
                &attrs,
                output,
                14,
            );
        },
    }
    proof {
        assert(final(output)@ =~= start + default_content_type(*p));
    }
}

/// Writes a text or binary part.
fn write_leaf(p: &MimePart, output: &mut Vec<u8>)
    requires
        leaf_wf(*p),
    ensures
        final(output)@ == old(output)@ + leaf_out(*p),
{
    let ghost start = output@;
    if !has_content_type(&p.headers) {
        write_default_content_type(p, output);
    }
    let (is_attachment, is_text) = write_leaf_headers(&p.headers, output);
    match &p.contents {
        BodyPart::Text(t) => {
            detect_encoding(t.as_str().as_bytes(), output, !is_attachment);
        },
        BodyPart::Binary(b) => {
            if is_text {
                detect_encoding(b.as_slice(), output, !is_attachment);
            } else {
                write_cte(output, &[98u8, 97, 115, 101, 54, 52]);
                base64_encode_mime(b.as_slice(), output, false);
            }
        },
        BodyPart::Multipart(_) => {},
    }
    proof {
        assert(final(output)@ =~= start + leaf_out(*p));
    }
}

/// ASCII case-insensitive equality of two byte sequences.
pub fn eq_ignore_ascii_case(a: &[u8], b: &[u8]) -> (r: bool)
    ensures
        r == eq_ignore_case(a@, b@),
{
    if a.len() != b.len() {
        return false;
    }
    let mut i: usize = 0;
    while i < a.len()
        invariant
            a@.len() == b@.len(),
            i <= a@.len(),
            forall|j: int| 0 <= j < i ==> ascii_lower(#[trigger] a@[j]) == ascii_lower(b@[j]),
        decreases a@.len() - i,
    {
        let x = if 65 <= a[i] && a[i] <= 90 {
            a[i] + 32
        } else {
            a[i]
        };
        let y = if 65 <= b[i] && b[i] <= 90 {
            b[i] + 32
        } else {
            b[i]
        };
        if x != y {
            return false;
        }
        i = i + 1;
    }
    true
}

/// Index of the first attribute named `boundary`, in any case.
fn find_boundary_attribute(attrs: &Vec<(&[u8], &[u8])>) -> (r: usize)
    ensures
        r == boundary_index(slice_pairs(attrs@), 0),
{
    let ghost pairs = slice_pairs(attrs@);
    let mut i: usize = 0;
    while i < attrs.len()
        invariant
            pairs == slice_pairs(attrs@),
            i <= attrs@.len(),
            boundary_index(pairs, 0) == boundary_index(pairs, i as int),
        decreases attrs@.len() - i,
    {
        assert(attrs@[i as int].0@ == pairs[i as int].0);
        if eq_ignore_ascii_case(attrs[i].0, &[98u8, 111, 117, 110, 100, 97, 114, 121]) {
            return i;
        }
        i = i + 1;
    }
    i
}

proof fn lemma_find_from(s: Seq<u8>, pat: Seq<u8>, i: int)
    requires
        0 <= i,
    ensures
        i <= find_from(s, pat, i) <= s.len() || find_from(s, pat, i) == s.len(),
        find_from(s, pat, i) < s.len() ==> find_from(s, pat, i) + pat.len() <= s.len()
            && s.subrange(find_from(s, pat, i), find_from(s, pat, i) + pat.len()) == pat,
    decreases s.len() - i,
{
    if !(i >= s.len() || i + pat.len() > s.len()) && s.subrange(i, i + pat.len() as int) != pat {
        lemma_find_from(s, pat, i + 1);
    }
}

proof fn lemma_quote_from(s: Seq<u8>, i: int)
    requires
        0 <= i,
    ensures
        i <= quote_from(s, i) <= s.len() || quote_from(s, i) == s.len(),
        quote_from(s, i) <= s.len(),
    decreases s.len() - i,
{
    if !(i >= s.len()) && s[i] != 34 {
        lemma_quote_from(s, i + 1);
    }
}

/// First index at or after `i` where `pat` occurs in `s`, or `s.len()`.
fn find_pattern(s: &[u8], pat: &[u8], i: usize) -> (r: usize)
    ensures
        r == find_from(s@, pat@, i as int),
{
    let mut j = i;
    while j < s.len() && pat.len() <= s.len() - j
        invariant
            i <= j,
            find_from(s@, pat@, i as int) == find_from(s@, pat@, j as int),
        decreases s@.len() - j,
    {
        if bytes_equal(vstd::slice::slice_subrange(s, j, j + pat.len()), pat) {
            return j;
        }
        j = j + 1;
    }
    s.len()
}

/// First index at or after `i` of a `"` in `s`, or `s.len()`.
fn find_quote(s: &[u8], i: usize) -> (r: usize)
    ensures
        r == quote_from(s@, i as int),
{
    let mut j = i;
    while j < s.len()
        invariant
            i <= j,
            quote_from(s@, i as int) == quote_from(s@, j as int),
        decreases s@.len() - j,
    {
        if s[j] == 34 {
            return j;
        }
        j = j + 1;
    }
    s.len()
}

/// `10` to the power `d`.
pub open spec fn pow10(d: nat) -> nat
    decreases d,
{
    if d == 0 {
        1
    } else {
        10 * pow10((d - 1) as nat)
    }
}

proof fn lemma_decimal_len(n: nat, d: nat)
    requires
        n < pow10(d),
        d >= 1,
    ensures
        1 <= decimal(n).len() <= d,
    decreases n,
{
    if n >= 10 {
        assert(d >= 2) by {
            if d == 1 {
                reveal_with_fuel(pow10, 2);
            }
        }
        let p = pow10((d - 1) as nat);
        assert(n / 10 < p) by (nonlinear_arith)
            requires
                n < 10 * p,
        ;
        lemma_decimal_len(n / 10, (d - 1) as nat);
    }
}

proof fn lemma_generated_len(token: Seq<u8>, k: nat)
    requires
        k <= usize::MAX,
    ensures
        boundary_of(token, k).len() <= token.len() + 21,
{
    reveal_with_fuel(pow10, 21);
    assert(pow10(20) == 100000000000000000000nat);
    lemma_decimal_len(k, 20);
}

/// Appends the decimal digits of `n`.
fn push_decimal(n: usize, output: &mut Vec<u8>)
    ensures
        final(output)@ == old(output)@ + decimal(n as nat),
    decreases n,
{
    if n >= 10 {
        push_decimal(n / 10, output);
    }
    output.push(48 + (n % 10) as u8);
    proof {
        assert(final(output)@ =~= old(output)@ + decimal(n as nat));
    }
}

/// The `k`-th boundary generated from `token`.
fn generated_boundary(token: &[u8], k: usize) -> (r: Vec<u8>)
    ensures
        r@ == boundary_of(token@, k as nat),
{
    let mut b: Vec<u8> = Vec::new();
    push_bytes(&mut b, token);
    b.push(95);
    push_decimal(k, &mut b);
    proof {
        assert(b@ =~= boundary_of(token@, k as nat));
    }
    b
}

/// Whether a token is short enough for the boundaries made from it.
pub open spec fn token_fits(token: Seq<u8>) -> bool {
    within_limits(token.len() + 21int)
}

/// Writes the `Content-Type` value of a multipart part; returns its boundary
/// and the count of generated boundaries after it.
fn write_multipart_type(v: &HeaderType, output: &mut Vec<u8>, token: &[u8], k: usize) -> (r: (
    Vec<u8>,
    usize,
))
    requires
        v is ContentType || v is Raw,
        v.writable(14),
        token_fits(token@),
        k < usize::MAX,
    ensures
        final(output)@ == old(output)@ + multipart_type_out(*v, token@, k as nat).0,
        r.0@ == multipart_type_out(*v, token@, k as nat).1,
        r.1 == multipart_type_out(*v, token@, k as nat).2,
{
    let ghost start = output@;
    match v {
        HeaderType::ContentType(ct) => {
            let t = ct.c_type.as_str().as_bytes();
            let mut attrs = attribute_slices(&ct.attributes);
            let idx = find_boundary_attribute(&attrs);
            if idx < attrs.len() {
                write_content_type(t, &attrs, output, 14);
                let b = vstd::slice::slice_to_vec(attrs[idx].1);
                (b, k)
            } else {
                let g = generated_boundary(token, k);
                proof {
                    lemma_generated_len(token@, k as nat);
                }
                let bw: &[u8] = &[98u8, 111, 117, 110, 100, 97, 114, 121];
                let ghost before = slice_pairs(attrs@);
                attrs.push((bw, g.as_slice()));
                proof {
                    assert(slice_pairs(attrs@) =~= before.push((boundary_word(), g@)));
                }
                write_content_type(t, &attrs, output, 14);
                (g, k + 1)
            }
        },
        HeaderType::Raw(raw) => {
            let s = raw.raw.as_str().as_bytes();
            let p = find_pattern(s, &[98u8, 111, 117, 110, 100, 97, 114, 121, 61, 34], 0);
            proof {
                lemma_find_from(s@, boundary_quote(), 0);
            }
            if p < s.len() {
                let q = find_quote(s, p + 10);
                proof {
                    lemma_quote_from(s@, p + 10);
                }
                let b = vstd::slice::slice_to_vec(vstd::slice::slice_subrange(s, p + 10, q));
                write_folded_at_blanks(s, output, 14);
                (b, k)
            } else {
                let g = generated_boundary(token, k);
                proof {
                    lemma_generated_len(token@, k as nat);
                }
                let mut line: Vec<u8> = Vec::new();
                push_bytes(&mut line, s);
                push_bytes(&mut line, &[59u8, 32, 98, 111, 117, 110, 100, 97, 114, 121, 61, 34]);
                push_bytes(&mut line, g.as_slice());
                line.push(34);
                proof {
                    assert(line@ =~= s@ + seq![59u8, 32] + boundary_quote() + g@ + seq![34u8]);
                }
                write_folded_at_blanks(line.as_slice(), output, 14);
                (g, k + 1)
            }
        },
        _ => {
            proof {
                assert(false);
            }
            (Vec::new(), k)
        },
    }
}

/// Whether the headers of a multipart part can be written: each is
/// writable, and the first named `Content-Type` (in any case) holds a
/// content type or a raw value, where a boundary can be found or added.
pub open spec fn multipart_headers_wf(hs: Seq<(String, HeaderType)>) -> bool {
    &&& forall|i: int| 0 <= i < hs.len() ==> header_writable(#[trigger] hs[i])
    &&& forall|i: int|
        0 <= i < hs.len() && eq_ignore_case(name_bytes(#[trigger] hs[i]), content_type_name())
            && (forall|j: int| 0 <= j < i ==> !eq_ignore_case(name_bytes(#[trigger] hs[j]), content_type_name()))
            ==> (hs[i].1 is ContentType || hs[i].1 is Raw)
}

/// Writes the `Content-Type` header line of a multipart part.
fn write_multipart_type_header(h: &(String, HeaderType), output: &mut Vec<u8>, token: &[u8], k: usize) -> (r: (
    Vec<u8>,
    usize,
))
    requires
        h.1 is ContentType || h.1 is Raw,
        header_writable(*h),
        eq_ignore_case(name_bytes(*h), content_type_name()),
        token_fits(token@),
        k < usize::MAX,
    ensures
        final(output)@ == old(output)@ + name_bytes(*h) + seq![58u8, 32] + multipart_type_out(h.1, token@, k as nat).0,
        r.0@ == multipart_type_out(h.1, token@, k as nat).1,
        r.1 == multipart_type_out(h.1, token@, k as nat).2,
{
    let ghost start = output@;
    let name = h.0.as_str().as_bytes();
    push_bytes(output, name);
    push_bytes(output, &[58u8, 32]);
    let r = write_multipart_type(&h.1, output, token, k);
    proof {
        assert(final(output)@ =~= start + name_bytes(*h) + seq![58u8, 32] + multipart_type_out(h.1, token@, k as nat).0);
    }
    r
}

/// Writes the headers of a multipart part as they stand (see
/// `multipart_headers_run`).
fn write_multipart_headers(hs: &Vec<(String, HeaderType)>, output: &mut Vec<u8>, token: &[u8], k: usize) -> (r: (
    bool,
    Vec<u8>,
    usize,
))
    requires
        multipart_headers_wf(hs@),
        token_fits(token@),
        k < usize::MAX,
    ensures
        final(output)@ == old(output)@ + multipart_headers_run(hs@, hs@.len() as int, token@, k as nat).0,
        r.0 == multipart_headers_run(hs@, hs@.len() as int, token@, k as nat).1,
        r.1@ == multipart_headers_run(hs@, hs@.len() as int, token@, k as nat).2,
        r.2 == multipart_headers_run(hs@, hs@.len() as int, token@, k as nat).3,
        !r.0 ==> r.2 == k,
        r.2 <= k + 1,
{
    let ghost start = output@;
    let mut found = false;
    let mut boundary: Vec<u8> = Vec::new();
    let mut kk: usize = k;
    let mut i: usize = 0;
    proof {
        assert(start + Seq::<u8>::empty() =~= start);
    }
    while i < hs.len()
        invariant
            i <= hs@.len(),
            multipart_headers_wf(hs@),
            token_fits(token@),
            k < usize::MAX,
            kk <= k + 1,
            !found ==> kk == k,
            !found ==> forall|j: int| 0 <= j < i ==> !eq_ignore_case(name_bytes(#[trigger] hs@[j]), content_type_name()),
            output@ == start + multipart_headers_run(hs@, i as int, token@, k as nat).0,
            found == multipart_headers_run(hs@, i as int, token@, k as nat).1,
            boundary@ == multipart_headers_run(hs@, i as int, token@, k as nat).2,
            kk == multipart_headers_run(hs@, i as int, token@, k as nat).3,
        decreases hs@.len() - i,
    {
        let h = &hs[i];
        assert(header_writable(hs@[i as int]));
        let name = h.0.as_str().as_bytes();
        if !found && eq_ignore_ascii_case(name, &[67u8, 111, 110, 116, 101, 110, 116, 45, 84, 121, 112, 101]) {
            let (b, k2) = write_multipart_type_header(h, output, token, kk);
            boundary = b;
            kk = k2;
            found = true;
        } else {
            write_header_line(h, output);
        }
        i = i + 1;
    }
    (found, boundary, kk)
}

/// Writes the headers of a multipart part (see `multipart_head`); returns its
/// boundary and the count of generated boundaries after it.
fn write_multipart_head(hs: &Vec<(String, HeaderType)>, output: &mut Vec<u8>, token: &[u8], k: usize) -> (r: (
    Vec<u8>,
    usize,
))
    requires
        multipart_headers_wf(hs@),
        token_fits(token@),
        k + 1 < usize::MAX,
    ensures
        final(output)@ == old(output)@ + multipart_head(hs@, token@, k as nat).0,
        r.0@ == multipart_head(hs@, token@, k as nat).1,
        r.1 == multipart_head(hs@, token@, k as nat).2,
        r.1 <= k + 1,
{
    let ghost start = output@;
    let (found, boundary, kk) = write_multipart_headers(hs, output, token, k);
    if !found {
        let g = generated_boundary(token, kk);
        proof {
            lemma_generated_len(token@, kk as nat);
        }
        let ghost mid = output@;
        push_bytes(output, &[67u8, 111, 110, 116, 101, 110, 116, 45, 84, 121, 112, 101, 58, 32]);
        let bw: &[u8] = &[98u8, 111, 117, 110, 100, 97, 114, 121];
        let mut attrs: Vec<(&[u8], &[u8])> = Vec::new();
        attrs.push((bw, g.as_slice()));
        proof {
            assert(slice_pairs(attrs@) =~= seq![(boundary_word(), g@)]);
        }
        write_content_type(&[109u8, 117, 108, 116, 105, 112, 97, 114, 116, 47, 109, 105, 120, 101, 100], &attrs, output, 14);
        proof {
            assert(output@ =~= start + multipart_head(hs@, token@, k as nat).0);
        }
        (g, kk + 1)
    } else {
        (boundary, kk)
    }
}

/// Number of parts in a tree.
pub open spec fn part_size(p: MimePart) -> nat
    decreases p,
{
    match p.contents {
        BodyPart::Multipart(children) => 1 + forest_size(children@),
        _ => 1,
    }
}

/// Number of parts in a sequence of trees.
pub open spec fn forest_size(cs: Seq<MimePart>) -> nat
    decreases cs,
{
    if cs.len() == 0 {
        0
    } else {
        part_size(cs[0]) + forest_size(cs.subrange(1, cs.len() as int))
    }
}

/// Whether a tree of parts can be written: every header is writable, every
/// body within limits, and every multipart part has a usable `Content-Type`
/// (or none).
pub open spec fn part_wf(p: MimePart) -> bool
    decreases p,
{
    match p.contents {
        BodyPart::Multipart(children) => multipart_headers_wf(p.headers@) && forest_wf(children@),
        _ => leaf_wf(p),
    }
}

/// Whether every tree of a sequence can be written.
pub open spec fn forest_wf(cs: Seq<MimePart>) -> bool
    decreases cs,
{
    cs.len() == 0 || (part_wf(cs[0]) && forest_wf(cs.subrange(1, cs.len() as int)))
}

/// A frame of the walk: sibling parts, the index of the next one to write,
/// and the boundary in force among them.
pub type Frame<'a> = (&'a Vec<MimePart>, usize, Vec<u8>);

/// The walk's frames as mathematical values.
pub open spec fn frames_view(st: Seq<Frame>) -> Seq<(Seq<MimePart>, int, Seq<u8>)> {
    st.map_values(|f: Frame| (f.0@, f.1 as int, f.2@))
}

/// The siblings of a frame still to be written.
pub open spec fn remaining(f: (Seq<MimePart>, int, Seq<u8>)) -> Seq<MimePart> {
    f.0.subrange(f.1, f.0.len() as int)
}

/// What is left to write for a stack of frames, innermost last, from
/// boundary count `k`.
pub open spec fn stack_rest(fs: Seq<(Seq<MimePart>, int, Seq<u8>)>, token: Seq<u8>, k: nat) -> (
    Seq<u8>,
    nat,
)
    decreases fs.len(),
{
    if fs.len() == 0 {
        (seq![], k)
    } else {
        let c = children_out(remaining(fs.last()), fs.last().2, token, k);
        let r = stack_rest(fs.drop_last(), token, c.1);
        (c.0 + r.0, r.1)
    }
}

/// How much work a stack of frames holds: twice the parts still to write,
/// plus one per frame.
pub open spec fn stack_measure(fs: Seq<(Seq<MimePart>, int, Seq<u8>)>) -> nat
    decreases fs.len(),
{
    if fs.len() == 0 {
        0
    } else {
        stack_measure(fs.drop_last()) + 2 * forest_size(remaining(fs.last())) + 1
    }
}

/// Whether each frame's index is in range and its remaining parts writable.
pub open spec fn frames_ok(fs: Seq<(Seq<MimePart>, int, Seq<u8>)>) -> bool {
    forall|i: int|
        0 <= i < fs.len() ==> 0 <= (#[trigger] fs[i]).1 <= fs[i].0.len() && forest_wf(remaining(fs[i]))
}

proof fn lemma_headers_count(hs: Seq<(String, HeaderType)>, n: int, token: Seq<u8>, k: nat)
    ensures
        k <= multipart_headers_run(hs, n, token, k).3 <= k + 1,
        !multipart_headers_run(hs, n, token, k).1 ==> multipart_headers_run(hs, n, token, k).3 == k,
    decreases n,
{
    if n > 0 {
        lemma_headers_count(hs, n - 1, token, k);
    }
}

proof fn lemma_head_count(hs: Seq<(String, HeaderType)>, token: Seq<u8>, k: nat)
    ensures
        k <= multipart_head(hs, token, k).2 <= k + 1,
{
    lemma_headers_count(hs, hs.len() as int, token, k);
}

proof fn lemma_frames_push(st: Seq<Frame>, f: Frame)
    ensures
        frames_view(st.push(f)) == frames_view(st).push((f.0@, f.1 as int, f.2@)),
{
    assert(frames_view(st.push(f)) =~= frames_view(st).push((f.0@, f.1 as int, f.2@)));
}

proof fn lemma_frames_pop(st: Seq<Frame>)
    requires
        st.len() > 0,
    ensures
        frames_view(st.drop_last()) == frames_view(st).drop_last(),
        frames_view(st) == frames_view(st.drop_last()).push(
            (st.last().0@, st.last().1 as int, st.last().2@),
        ),
{
    assert(frames_view(st.drop_last()) =~= frames_view(st).drop_last());
    assert(frames_view(st) =~= frames_view(st.drop_last()).push(
        (st.last().0@, st.last().1 as int, st.last().2@),
    ));
}

proof fn lemma_frames_ok_push(fs: Seq<(Seq<MimePart>, int, Seq<u8>)>, f: (Seq<MimePart>, int, Seq<u8>))
    requires
        frames_ok(fs),
        0 <= f.1 <= f.0.len(),
        forest_wf(remaining(f)),
    ensures
        frames_ok(fs.push(f)),
{
    assert forall|i: int| 0 <= i < fs.push(f).len() implies 0 <= (#[trigger] fs.push(f)[i]).1
        <= fs.push(f)[i].0.len() && forest_wf(remaining(fs.push(f)[i])) by {
        if i < fs.len() {
            assert(fs.push(f)[i] == fs[i]);
        }
    }
}

proof fn lemma_frames_ok_pop(fs: Seq<(Seq<MimePart>, int, Seq<u8>)>)
    requires
        frames_ok(fs),
        fs.len() > 0,
    ensures
        frames_ok(fs.drop_last()),
        0 <= fs.last().1 <= fs.last().0.len(),
        forest_wf(remaining(fs.last())),
{
    assert forall|i: int| 0 <= i < fs.drop_last().len() implies 0 <= (#[trigger] fs.drop_last()[i]).1
        <= fs.drop_last()[i].0.len() && forest_wf(remaining(fs.drop_last()[i])) by {
        assert(fs.drop_last()[i] == fs[i]);
    }
    assert(fs[fs.len() - 1] == fs.last());
}

proof fn lemma_decimal_nonempty(n: nat)
    ensures
        decimal(n).len() >= 1,
    decreases n,
{
    if n >= 10 {
        lemma_decimal_nonempty(n / 10);
    }
}

proof fn lemma_decimal_injective(a: nat, b: nat)
    requires
        decimal(a) == decimal(b),
    ensures
        a == b,
    decreases a,
{
    if a >= 10 {
        lemma_decimal_nonempty(a / 10);
    }
    if b >= 10 {
        lemma_decimal_nonempty(b / 10);
    }
    let da = decimal(a);
    assert(da.last() == decimal(b).last());
    if a >= 10 && b >= 10 {
        assert(da.drop_last() =~= decimal(a / 10));
        assert(decimal(b).drop_last() =~= decimal(b / 10));
        lemma_decimal_injective(a / 10, b / 10);
    }
}

/// The boundaries one pass generates are pairwise distinct: the boundary
/// made from `token` with count `a` differs from the one with count `b`.
pub proof fn lemma_generated_boundaries_distinct(token: Seq<u8>, a: nat, b: nat)
    requires
        a != b,
    ensures
        boundary_of(token, a) != boundary_of(token, b),
{
    if boundary_of(token, a) == boundary_of(token, b) {
        let n = token.len() + 1;
        assert(boundary_of(token, a).skip(n as int) =~= decimal(a));
        assert(boundary_of(token, b).skip(n as int) =~= decimal(b));
        lemma_decimal_injective(a, b);
    }
}

/// Number of headers whose name is `Content-Type`, in any case.
pub open spec fn content_type_count(hs: Seq<(String, HeaderType)>) -> nat
    decreases hs.len(),
{
    if hs.len() == 0 {
        0
    } else {
        content_type_count(hs.drop_last()) + if eq_ignore_case(name_bytes(hs.last()), content_type_name()) {
            1nat
        } else {
            0nat
        }
    }
}

/// Number of `Content-Type` lines in the head of a multipart part: its own,
/// plus the one added when it has none.
pub open spec fn head_content_type_lines(hs: Seq<(String, HeaderType)>, token: Seq<u8>, k: nat) -> nat {
    content_type_count(hs) + if multipart_headers_run(hs, hs.len() as int, token, k).1 {
        0nat
    } else {
        1nat
    }
}

proof fn lemma_found_iff_count(hs: Seq<(String, HeaderType)>, n: int, token: Seq<u8>, k: nat)
    requires
        0 <= n <= hs.len(),
    ensures
        multipart_headers_run(hs, n, token, k).1 <==> content_type_count(hs.take(n)) > 0,
    decreases n,
{
    if n > 0 {
        lemma_found_iff_count(hs, n - 1, token, k);
        let t = hs.take(n);
        assert(t.drop_last() =~= hs.take(n - 1));
        assert(t.last() == hs[n - 1]);
    }
}

/// A multipart part is written with exactly one `Content-Type` header when
/// it has at most one of its own: the one it has, or one added.
pub proof fn lemma_one_content_type(hs: Seq<(String, HeaderType)>, token: Seq<u8>, k: nat)
    requires
        content_type_count(hs) <= 1,
    ensures
        head_content_type_lines(hs, token, k) == 1,
{
    lemma_found_iff_count(hs, hs.len() as int, token, k);
    assert(hs.take(hs.len() as int) =~= hs);
}

/// The boundaries in force for the multipart parts of a tree, in the order
/// the parts are written.
pub open spec fn boundaries_used(p: MimePart, token: Seq<u8>, k: nat) -> Seq<Seq<u8>>
    decreases p,
{
    match p.contents {
        BodyPart::Multipart(children) => {
            let h = multipart_head(p.headers@, token, k);
            seq![h.1] + children_boundaries(children@, token, h.2)
        },
        _ => seq![],
    }
}

/// The boundaries in force for the multipart parts of a sequence of trees.
pub open spec fn children_boundaries(cs: Seq<MimePart>, token: Seq<u8>, k: nat) -> Seq<Seq<u8>>
    decreases cs,
{
    if cs.len() == 0 {
        seq![]
    } else {
        boundaries_used(cs[0], token, k) + children_boundaries(
            cs.subrange(1, cs.len() as int),
            token,
            part_out(cs[0], token, k).1,
        )
    }
}

/// Whether every multipart part of a tree has its boundary generated (none
/// is given by its headers).
pub open spec fn all_generated(p: MimePart, token: Seq<u8>) -> bool
    decreases p,
{
    match p.contents {
        BodyPart::Multipart(children) => (forall|k: nat| #[trigger] multipart_head(p.headers@, token, k).2 == k + 1)
            && forest_all_generated(children@, token),
        _ => true,
    }
}

/// Whether every multipart part of a sequence of trees has its boundary
/// generated.
pub open spec fn forest_all_generated(cs: Seq<MimePart>, token: Seq<u8>) -> bool
    decreases cs,
{
    cs.len() == 0 || (all_generated(cs[0], token) && forest_all_generated(
        cs.subrange(1, cs.len() as int),
        token,
    ))
}

proof fn lemma_headers_generated(hs: Seq<(String, HeaderType)>, n: int, token: Seq<u8>, k: nat)
    ensures
        multipart_headers_run(hs, n, token, k).3 == k + 1 ==> multipart_headers_run(hs, n, token, k).2
            == boundary_of(token, k),
    decreases n,
{
    if n > 0 {
        lemma_headers_generated(hs, n - 1, token, k);
        lemma_headers_count(hs, n - 1, token, k);
    }
}

proof fn lemma_head_generated(hs: Seq<(String, HeaderType)>, token: Seq<u8>, k: nat)
    requires
        multipart_head(hs, token, k).2 == k + 1,
    ensures
        multipart_head(hs, token, k).1 == boundary_of(token, k),
{
    lemma_headers_generated(hs, hs.len() as int, token, k);
    lemma_headers_count(hs, hs.len() as int, token, k);
}

proof fn lemma_children_count_any_boundary(cs: Seq<MimePart>, b: Seq<u8>, token: Seq<u8>, k: nat)
    ensures
        children_out(cs, b, token, k).1 == children_out(cs, seq![], token, k).1,
    decreases cs,
{
    if cs.len() > 0 {
        lemma_children_count_any_boundary(cs.subrange(1, cs.len() as int), b, token, part_out(cs[0], token, k).1);
    }
}

/// The `n` boundaries generated from count `k` on.
pub open spec fn generated_run(token: Seq<u8>, k: nat, n: int) -> Seq<Seq<u8>> {
    Seq::new(n as nat, |j: int| boundary_of(token, (k + j) as nat))
}

proof fn lemma_run_concat(token: Seq<u8>, k: nat, a: int, b: int)
    requires
        0 <= a,
        0 <= b,
    ensures
        generated_run(token, k, a) + generated_run(token, (k + a) as nat, b) == generated_run(token, k, a + b),
{
    assert(generated_run(token, k, a) + generated_run(token, (k + a) as nat, b) =~= generated_run(token, k, a + b));
}

proof fn lemma_boundaries_consecutive(p: MimePart, token: Seq<u8>, k: nat)
    requires
        all_generated(p, token),
    ensures
        boundaries_used(p, token, k) == generated_run(token, k, part_out(p, token, k).1 - k),
    decreases p,
{
    lemma_counts_grow(p, token, k);
    match p.contents {
        BodyPart::Multipart(children) => {
            let h = multipart_head(p.headers@, token, k);
            assert(h.2 == k + 1);
            lemma_head_generated(p.headers@, token, k);
            lemma_children_consecutive(children@, token, h.2);
            lemma_children_count_any_boundary(children@, h.1, token, h.2);
            let m = children_out(children@, seq![], token, h.2).1;
            lemma_children_counts_grow(children@, seq![], token, h.2);
            assert(seq![h.1] =~= generated_run(token, k, 1));
            lemma_run_concat(token, k, 1, m - (k + 1));
            assert(part_out(p, token, k).1 == m);
        },
        _ => {
            assert(boundaries_used(p, token, k) =~= generated_run(token, k, 0));
        },
    }
}

proof fn lemma_children_consecutive(cs: Seq<MimePart>, token: Seq<u8>, k: nat)
    requires
        forest_all_generated(cs, token),
    ensures
        children_boundaries(cs, token, k) == generated_run(
            token,
            k,
            children_out(cs, seq![], token, k).1 - k,
        ),
    decreases cs,
{
    lemma_children_counts_grow(cs, seq![], token, k);
    if cs.len() == 0 {
        assert(children_boundaries(cs, token, k) =~= generated_run(token, k, 0));
    } else {
        let f = part_out(cs[0], token, k);
        let tail = cs.subrange(1, cs.len() as int);
        lemma_boundaries_consecutive(cs[0], token, k);
        lemma_children_consecutive(tail, token, f.1);
        lemma_counts_grow(cs[0], token, k);
        lemma_children_counts_grow(tail, seq![], token, f.1);
        lemma_run_concat(token, k, f.1 - k, children_out(tail, seq![], token, f.1).1 - f.1);
        assert(children_out(cs, seq![], token, k).1 == children_out(tail, seq![], token, f.1).1);
    }
}

/// When every multipart part of a tree has its boundary generated, the
/// boundaries of one pass are pairwise distinct, and every part's children
/// stand between the delimiters of its own boundary (see `children_out`).
pub proof fn lemma_pass_boundaries_distinct(p: MimePart, token: Seq<u8>)
    requires
        all_generated(p, token),
    ensures
        forall|i: int, j: int|
            0 <= i < j < boundaries_used(p, token, 0).len() ==> #[trigger] boundaries_used(p, token, 0)[i]
                != #[trigger] boundaries_used(p, token, 0)[j],
{
    lemma_boundaries_consecutive(p, token, 0);
    assert forall|i: int, j: int|
        0 <= i < j < boundaries_used(p, token, 0).len() implies #[trigger] boundaries_used(p, token, 0)[i]
        != #[trigger] boundaries_used(p, token, 0)[j] by {
        lemma_generated_boundaries_distinct(token, i as nat, j as nat);
    }
}

/// Writing a part uses the generated boundaries counted from `k` on, in
/// increasing order: the count only grows, by at most one per part.
pub proof fn lemma_counts_grow(p: MimePart, token: Seq<u8>, k: nat)
    ensures
        k <= part_out(p, token, k).1 <= k + part_size(p),
    decreases p,
{
    match p.contents {
        BodyPart::Multipart(children) => {
            let h = multipart_head(p.headers@, token, k);
            lemma_head_count(p.headers@, token, k);
            lemma_children_counts_grow(children@, h.1, token, h.2);
        },
        _ => {},
    }
}

proof fn lemma_children_counts_grow(cs: Seq<MimePart>, b: Seq<u8>, token: Seq<u8>, k: nat)
    ensures
        k <= children_out(cs, b, token, k).1 <= k + forest_size(cs),
    decreases cs,
{
    if cs.len() > 0 {
        lemma_counts_grow(cs[0], token, k);
        let first = part_out(cs[0], token, k);
        lemma_children_counts_grow(cs.subrange(1, cs.len() as int), b, token, first.1);
    }
}

proof fn lemma_stack_counts_grow(fs: Seq<(Seq<MimePart>, int, Seq<u8>)>, token: Seq<u8>, k: nat)
    ensures
        k <= stack_rest(fs, token, k).1,
    decreases fs.len(),
{
    if fs.len() > 0 {
        lemma_children_counts_grow(remaining(fs.last()), fs.last().2, token, k);
        let c = children_out(remaining(fs.last()), fs.last().2, token, k);
        lemma_stack_counts_grow(fs.drop_last(), token, c.1);
    }
}

proof fn lemma_next_sibling(
    fs: Seq<(Seq<MimePart>, int, Seq<u8>)>,
    parts: Seq<MimePart>,
    next: int,
    b: Seq<u8>,
    token: Seq<u8>,
    k: nat,
)
    requires
        0 <= next < parts.len(),
        forest_wf(parts.subrange(next, parts.len() as int)),
    ensures
        ({
            let child = part_out(parts[next], token, k);
            let after = stack_rest(fs.push((parts, next + 1, b)), token, child.1);
            stack_rest(fs.push((parts, next, b)), token, k) == (open_delimiter(b) + child.0 + after.0, after.1)
        }),
        stack_measure(fs.push((parts, next, b))) == stack_measure(fs.push((parts, next + 1, b))) + 2
            * part_size(parts[next]),
        part_wf(parts[next]),
        forest_wf(parts.subrange(next + 1, parts.len() as int)),
{
    let r = parts.subrange(next, parts.len() as int);
    assert(r[0] == parts[next]);
    assert(r.subrange(1, r.len() as int) =~= parts.subrange(next + 1, parts.len() as int));
    let f0 = fs.push((parts, next, b));
    let f1 = fs.push((parts, next + 1, b));
    assert(f0.drop_last() =~= fs);
    assert(f1.drop_last() =~= fs);
    assert(remaining(f0.last()) == r);
    assert(remaining(f1.last()) == parts.subrange(next + 1, parts.len() as int));
    let child = part_out(parts[next], token, k);
    let c1 = children_out(remaining(f1.last()), b, token, child.1);
    let r1 = stack_rest(fs, token, c1.1);
    assert(stack_rest(f0, token, k).0 =~= open_delimiter(b) + child.0 + (c1.0 + r1.0));
}

proof fn lemma_enter_children(
    fs: Seq<(Seq<MimePart>, int, Seq<u8>)>,
    children: Seq<MimePart>,
    b: Seq<u8>,
    token: Seq<u8>,
    k: nat,
)
    ensures
        ({
            let c = children_out(children, b, token, k);
            let r = stack_rest(fs, token, c.1);
            stack_rest(fs.push((children, 0, b)), token, k) == (c.0 + r.0, r.1)
        }),
        stack_measure(fs.push((children, 0, b))) == stack_measure(fs) + 2 * forest_size(children) + 1,
{
    let f = fs.push((children, 0, b));
    assert(f.drop_last() =~= fs);
    assert(remaining(f.last()) =~= children);
}

proof fn lemma_leave_children(fs: Seq<(Seq<MimePart>, int, Seq<u8>)>, parts: Seq<MimePart>, b: Seq<u8>, token: Seq<u8>, k: nat)
    ensures
        ({
            let r = stack_rest(fs, token, k);
            stack_rest(fs.push((parts, parts.len() as int, b)), token, k) == (close_delimiter(b) + r.0, r.1)
        }),
        stack_measure(fs.push((parts, parts.len() as int, b))) == stack_measure(fs) + 1,
{
    let f = fs.push((parts, parts.len() as int, b));
    assert(f.drop_last() =~= fs);
    assert(remaining(f.last()) =~= Seq::<MimePart>::empty());
}

/// Writes a `CRLF--boundary CRLF` delimiter, or with `closing` the
/// `CRLF--boundary--CRLF` one.
fn write_delimiter(b: &[u8], closing: bool, output: &mut Vec<u8>)
    ensures
        final(output)@ == old(output)@ + if closing {
            close_delimiter(b@)
        } else {
            open_delimiter(b@)
        },
{
    let ghost start = output@;
    push_bytes(output, &[13u8, 10, 45, 45]);
    push_bytes(output, b);
    if closing {
        push_bytes(output, &[45u8, 45, 13, 10]);
    } else {
        push_bytes(output, &[13u8, 10]);
    }
    proof {
        assert(final(output)@ =~= start + if closing {
            close_delimiter(b@)
        } else {
            open_delimiter(b@)
        });
    }
}

/// A header whose name and value are given.
fn named(name: &str, value: HeaderType) -> (r: (String, HeaderType))
    ensures
        r.0@ == name@,
        r.1 == value,
{
    (name.to_owned(), value)
}

impl MimePart {
    /// A part with the given content type and body.
    pub fn new(content_type: ContentType, contents: BodyPart) -> (r: MimePart)
        ensures
            r.headers@.len() == 1,
            r.headers@[0].0@ == "Content-Type"@,
            r.headers@[0].1 == HeaderType::ContentType(content_type),
            r.contents == contents,
    {
        let mut headers: Vec<(String, HeaderType)> = Vec::new();
        headers.push(named("Content-Type", HeaderType::ContentType(content_type)));
        MimePart { headers, contents }
    }

    /// A `multipart/*` part with the given type and parts.
    pub fn new_multipart(content_type: &str, contents: Vec<MimePart>) -> (r: MimePart)
        ensures
            r.headers@.len() == 1,
            r.headers@[0].0@ == "Content-Type"@,
            r.headers@[0].1 matches HeaderType::ContentType(ct) && ct.c_type@ == content_type@
                && ct.attributes@.len() == 0,
            r.contents == BodyPart::Multipart(contents),
    {
        MimePart::new(ContentType::new(content_type), BodyPart::Multipart(contents))
    }

    /// A `text/plain` part in UTF-8.
    pub fn new_text(contents: &str) -> (r: MimePart)
        ensures
            r.headers@.len() == 1,
            r.headers@[0].0@ == "Content-Type"@,
            r.headers@[0].1 matches HeaderType::ContentType(ct) && ct.c_type@ == "text/plain"@
                && ct.attributes@.len() == 1 && ct.attributes@[0].0@ == "charset"@
                && ct.attributes@[0].1@ == "utf-8"@,
            r.contents matches BodyPart::Text(t) && t@ == contents@,
    {
        MimePart::new_text_other("text/plain", contents)
    }

    /// A `text/*` part of the given type, in UTF-8.
    pub fn new_text_other(content_type: &str, contents: &str) -> (r: MimePart)
        ensures
            r.headers@.len() == 1,
            r.headers@[0].0@ == "Content-Type"@,
            r.headers@[0].1 matches HeaderType::ContentType(ct) && ct.c_type@ == content_type@
                && ct.attributes@.len() == 1 && ct.attributes@[0].0@ == "charset"@
                && ct.attributes@[0].1@ == "utf-8"@,
            r.contents matches BodyPart::Text(t) && t@ == contents@,
    {
        let ct = ContentType::new(content_type).attribute("charset", "utf-8");
        MimePart::new(ct, BodyPart::Text(contents.to_owned()))
    }

    /// A `text/html` part in UTF-8.
    pub fn new_html(contents: &str) -> (r: MimePart)
        ensures
            r.headers@.len() == 1,
            r.headers@[0].0@ == "Content-Type"@,
            r.headers@[0].1 matches HeaderType::ContentType(ct) && ct.c_type@ == "text/html"@
                && ct.attributes@.len() == 1 && ct.attributes@[0].0@ == "charset"@
                && ct.attributes@[0].1@ == "utf-8"@,
            r.contents matches BodyPart::Text(t) && t@ == contents@,
    {
        MimePart::new_text_other("text/html", contents)
    }

    /// A binary part of the given type.
    pub fn new_binary(c_type: &str, contents: &[u8]) -> (r: MimePart)
        ensures
            r.headers@.len() == 1,
            r.headers@[0].0@ == "Content-Type"@,
            r.headers@[0].1 matches HeaderType::ContentType(ct) && ct.c_type@ == c_type@
                && ct.attributes@.len() == 0,
            r.contents matches BodyPart::Binary(b) && b@ == contents@,
    {
        MimePart::new(ContentType::new(c_type), BodyPart::Binary(vstd::slice::slice_to_vec(contents)))
    }

    /// The same part with one more header at the end.
    pub fn header(self, name: &str, value: HeaderType) -> (r: MimePart)
        ensures
            r.headers@.len() == self.headers@.len() + 1,
            r.headers@.drop_last() == self.headers@,
            r.headers@.last().0@ == name@,
            r.headers@.last().1 == value,
            r.contents == self.contents,
    {
        let mut part = self;
        part.headers.push(named(name, value));
        proof {
            assert(part.headers@.drop_last() =~= self.headers@);
        }
        part
    }

    /// The same part as an attachment with the given file name.
    pub fn attachment(self, filename: &str) -> (r: MimePart)
        ensures
            r.headers@.len() == self.headers@.len() + 1,
            r.headers@.drop_last() == self.headers@,
            r.headers@.last().0@ == "Content-Disposition"@,
            r.headers@.last().1 matches HeaderType::ContentType(ct) && ct.c_type@ == "attachment"@
                && ct.attributes@.len() == 1 && ct.attributes@[0].0@ == "filename"@
                && ct.attributes@[0].1@ == filename@,
            r.contents == self.contents,
    {
        let ct = ContentType::new("attachment").attribute("filename", filename);
        self.header("Content-Disposition", HeaderType::ContentType(ct))
    }

    /// The same part, shown inline.
    pub fn inline(self) -> (r: MimePart)
        ensures
            r.headers@.len() == self.headers@.len() + 1,
            r.headers@.drop_last() == self.headers@,
            r.headers@.last().0@ == "Content-Disposition"@,
            r.headers@.last().1 matches HeaderType::ContentType(ct) && ct.c_type@ == "inline"@
                && ct.attributes@.len() == 0,
            r.contents == self.contents,
    {
        self.header("Content-Disposition", HeaderType::ContentType(ContentType::new("inline")))
    }

    /// The same part with a `Content-Language` header.
    pub fn language(self, value: &str) -> (r: MimePart)
        ensures
            r.headers@.len() == self.headers@.len() + 1,
            r.headers@.drop_last() == self.headers@,
            r.headers@.last().0@ == "Content-Language"@,
            r.headers@.last().1 matches HeaderType::Text(t) && t.text@ == value@,
            r.contents == self.contents,
    {
        self.header("Content-Language", HeaderType::Text(Text::new(value)))
    }

    /// The same part with a `Content-ID` header.
    pub fn cid(self, value: &str) -> (r: MimePart)
        ensures
            r.headers@.len() == self.headers@.len() + 1,
            r.headers@.drop_last() == self.headers@,
            r.headers@.last().0@ == "Content-ID"@,
            r.headers@.last().1 matches HeaderType::MessageId(m) && m.id@.len() == 1
                && m.id@[0]@ == value@,
            r.contents == self.contents,
    {
        self.header("Content-ID", HeaderType::MessageId(MessageId::new(value)))
    }

    /// The same part with a `Content-Location` header.
    pub fn location(self, value: &str) -> (r: MimePart)
        ensures
            r.headers@.len() == self.headers@.len() + 1,
            r.headers@.drop_last() == self.headers@,
            r.headers@.last().0@ == "Content-Location"@,
            r.headers@.last().1 matches HeaderType::Raw(v) && v.raw@ == value@,
            r.contents == self.contents,
    {
        self.header("Content-Location", HeaderType::Raw(Raw::new(value)))
    }

    /// Adds a part at the end of a multipart body; other bodies are left as
    /// they are.
    pub fn add_part(&mut self, part: MimePart)
        ensures
            final(self).headers == old(self).headers,
            match old(self).contents {
                BodyPart::Multipart(v) => final(self).contents matches BodyPart::Multipart(w)
                    && w@ == v@.push(part),
                _ => final(self).contents == old(self).contents,
            },
    {
        if let BodyPart::Multipart(parts) = &mut self.contents {
            parts.push(part);
        }
    }

    /// Writes the part and every part within it onto `output`, walking the
    /// tree with an explicit stack of frames rather than by recursion. The
    /// boundaries the tree does not give are made from `token`: the `n`-th
    /// is `token_n`. Returns how many were made.
    #[verifier::rlimit(60)]
    pub fn write_part(&self, output: &mut Vec<u8>, token: &str) -> (r: usize)
        requires
            part_wf(*self),
            token_fits(encode_utf8(token@)),
            part_size(*self) + 2 < usize::MAX,
        ensures
            final(output)@ == old(output)@ + part_out(*self, encode_utf8(token@), 0).0,
            r == part_out(*self, encode_utf8(token@), 0).1,
    {
        let ghost start = output@;
        let tok = token.as_bytes();
        let ghost total = part_out(*self, tok@, 0);
        proof {
            lemma_counts_grow(*self, tok@, 0);
        }
        match &self.contents {
            BodyPart::Multipart(children) => {
                let (b, k0) = write_multipart_head(&self.headers, output, tok, 0);
                push_bytes(output, &[13u8, 10]);
                let mut k: usize = k0;
                let mut stack: Vec<Frame> = Vec::new();
                stack.push((children, 0, b));
                proof {
                    lemma_enter_children(Seq::empty(), children@, b@, tok@, k as nat);
                    assert(frames_view(stack@) =~= Seq::empty().push((children@, 0int, b@)));
                    assert(children@.subrange(0, children@.len() as int) =~= children@);
                    assert(output@ + stack_rest(frames_view(stack@), tok@, k as nat).0 =~= start + total.0);
                    lemma_stack_counts_grow(frames_view(stack@), tok@, k as nat);
                }
                while stack.len() > 0
                    invariant
                        token_fits(tok@),
                        total.1 <= part_size(*self),
                        part_size(*self) + 2 < usize::MAX,
                        frames_ok(frames_view(stack@)),
                        k <= stack_rest(frames_view(stack@), tok@, k as nat).1,
                        stack_rest(frames_view(stack@), tok@, k as nat).1 == total.1,
                        output@ + stack_rest(frames_view(stack@), tok@, k as nat).0 == start + total.0,
                    decreases stack_measure(frames_view(stack@)),
                {
                    let ghost fs = frames_view(stack@);
                    let ghost st = stack@;
                    proof {
                        lemma_frames_ok_pop(fs);
                        lemma_frames_pop(st);
                    }
                    let (parts, next, b) = stack.pop().unwrap();
                    let ghost rest = frames_view(stack@);
                    proof {
                        assert(stack@ == st.drop_last());
                    }
                    if next < parts.len() {
                        proof {
                            lemma_next_sibling(rest, parts@, next as int, b@, tok@, k as nat);
                        }
                        write_delimiter(b.as_slice(), false, output);
                        let child = &parts[next];
                        match &child.contents {
                            BodyPart::Multipart(grand) => {
                                proof {
                                    lemma_counts_grow(*child, tok@, k as nat);
                                }
                                let (b2, k2) = write_multipart_head(&child.headers, output, tok, k);
                                push_bytes(output, &[13u8, 10]);
                                let ghost st1 = stack@;
                                stack.push((parts, next + 1, b));
                                let ghost st2 = stack@;
                                stack.push((grand, 0, b2));
                                proof {
                                    let mid = rest.push((parts@, next + 1, b@));
                                    lemma_frames_push(st1, st2.last());
                                    assert(st2 == st1.push(st2.last()));
                                    lemma_frames_push(st2, stack@.last());
                                    assert(stack@ == st2.push(stack@.last()));
                                    lemma_enter_children(mid, grand@, b2@, tok@, k2 as nat);
                                    assert(grand@.subrange(0, grand@.len() as int) =~= grand@);
                                    lemma_frames_ok_push(rest, (parts@, next + 1, b@));
                                    lemma_frames_ok_push(mid, (grand@, 0int, b2@));
                                    lemma_stack_counts_grow(frames_view(stack@), tok@, k2 as nat);
                                }
                                k = k2;
                            },
                            _ => {
                                write_leaf(child, output);
                                let ghost st1 = stack@;
                                stack.push((parts, next + 1, b));
                                proof {
                                    lemma_frames_push(st1, stack@.last());
                                    assert(stack@ == st1.push(stack@.last()));
                                    lemma_frames_ok_push(rest, (parts@, next + 1, b@));
                                }
                            },
                        }
                    } else {
                        write_delimiter(b.as_slice(), true, output);
                        proof {
                            lemma_leave_children(rest, parts@, b@, tok@, k as nat);
                        }
                    }
                }
                proof {
                    assert(frames_view(stack@) =~= Seq::empty());
                }
                k
            },
            _ => {
                write_leaf(self, output);
                0
            },
        }
    }
}

} // verus!
