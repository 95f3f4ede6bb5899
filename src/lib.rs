//! Construction and serialisation of Internet e-mail messages: RFC 5322
//! headers, RFC 2047 encoded words and RFC 2045 MIME bodies.
use vstd::prelude::*;

pub mod encoders;
pub mod headers;
pub mod mime;

use crate::encoders::{push_bytes, within_limits};
use crate::headers::address::Address;
use crate::headers::content_type::bytes_equal;
use crate::headers::date::{is_line_text, local_now_rfc2822, Date};
use crate::headers::message_id::MessageId;
use crate::headers::text::Text;
use crate::headers::{Header, HeaderType};
use crate::mime::{part_out, part_size, part_wf, token_fits, BodyPart, MimePart};
use vstd::utf8::encode_utf8;

verus! {

/// A message being put together: its headers by name, in the order the names
/// were first used, and its body parts.
pub struct MessageBuilder {
    pub headers: Vec<(String, Vec<HeaderType>)>,
    pub html_body: Option<MimePart>,
    pub text_body: Option<MimePart>,
    pub attachments: Option<Vec<MimePart>>,
    pub body: Option<MimePart>,
}

/// Index of the first entry named `name` at or after `i`, or the number of
/// entries.
pub open spec fn entry_index(hs: Seq<(String, Vec<HeaderType>)>, name: Seq<u8>, i: int) -> int
    decreases hs.len() - i,
{
    if i < 0 || i >= hs.len() {
        hs.len() as int
    } else if encode_utf8(hs[i].0@) == name {
        i
    } else {
        entry_index(hs, name, i + 1)
    }
}

/// `new` is `old` with `value` added under `name`: at the end of the first
/// entry of that name, or in a new entry at the end.
pub open spec fn header_added(
    old: Seq<(String, Vec<HeaderType>)>,
    new: Seq<(String, Vec<HeaderType>)>,
    name: Seq<char>,
    value: HeaderType,
) -> bool {
    let i = entry_index(old, encode_utf8(name), 0);
    if i < old.len() {
        new.len() == old.len() && forall|j: int|
            0 <= j < old.len() ==> (#[trigger] new[j]).0 == old[j].0 && if j == i {
                new[j].1@ == old[j].1@.push(value)
            } else {
                new[j].1 == old[j].1
            }
    } else {
        new.len() == old.len() + 1 && new.drop_last() == old && new.last().0@ == name
            && new.last().1@ == seq![value]
    }
}

/// Number of attachments.
pub open spec fn attachment_count(a: Option<Vec<MimePart>>) -> int {
    match a {
        Some(v) => v@.len() as int,
        None => 0,
    }
}

/// Whether `p` is a text part of type `ctype` in UTF-8 with body `body`,
/// as `MimePart::new_text_other` makes it.
pub open spec fn is_text_part(p: MimePart, ctype: Seq<char>, body: Seq<char>) -> bool {
    &&& p.headers@.len() == 1
    &&& p.headers@[0].0@ == "Content-Type"@
    &&& p.headers@[0].1 matches HeaderType::ContentType(ct) && ct.c_type@ == ctype
        && ct.attributes@.len() == 1 && ct.attributes@[0].0@ == "charset"@
        && ct.attributes@[0].1@ == "utf-8"@
    &&& p.contents matches BodyPart::Text(t) && t@ == body
}

/// Whether the first header of `p` is a `Content-Type` of `ctype` with no
/// attributes, and its body the bytes `bytes`.
pub open spec fn is_binary_part(p: MimePart, ctype: Seq<char>, bytes: Seq<u8>) -> bool {
    &&& p.headers@.len() >= 1
    &&& p.headers@[0].0@ == "Content-Type"@
    &&& p.headers@[0].1 matches HeaderType::ContentType(ct) && ct.c_type@ == ctype
        && ct.attributes@.len() == 0
    &&& p.contents matches BodyPart::Binary(b) && b@ == bytes
}

/// Whether `p` is the attachment that `MessageBuilder::attachment` adds: a
/// binary part and a `Content-Disposition: attachment; filename=…`.
pub open spec fn is_attachment_part(p: MimePart, ctype: Seq<char>, filename: Seq<char>, bytes: Seq<u8>) -> bool {
    &&& is_binary_part(p, ctype, bytes)
    &&& p.headers@.len() == 2
    &&& p.headers@[1].0@ == "Content-Disposition"@
    &&& p.headers@[1].1 matches HeaderType::ContentType(ct) && ct.c_type@ == "attachment"@
        && ct.attributes@.len() == 1 && ct.attributes@[0].0@ == "filename"@
        && ct.attributes@[0].1@ == filename
}

/// Whether `p` is the part that `MessageBuilder::inline_binary` adds: a
/// binary part, `Content-Disposition: inline` and a `Content-ID`.
pub open spec fn is_inline_part(p: MimePart, ctype: Seq<char>, cid: Seq<char>, bytes: Seq<u8>) -> bool {
    &&& is_binary_part(p, ctype, bytes)
    &&& p.headers@.len() == 3
    &&& p.headers@[1].0@ == "Content-Disposition"@
    &&& p.headers@[1].1 matches HeaderType::ContentType(ct) && ct.c_type@ == "inline"@
        && ct.attributes@.len() == 0
    &&& p.headers@[2].0@ == "Content-ID"@
    &&& p.headers@[2].1 matches HeaderType::MessageId(m) && m.id@.len() == 1 && m.id@[0]@ == cid
}

/// The attachments as a sequence.
pub open spec fn attachment_list(a: Option<Vec<MimePart>>) -> Seq<MimePart> {
    match a {
        Some(v) => v@,
        None => Seq::empty(),
    }
}

/// Whether a part is `new_multipart(content_type, children)`.
pub open spec fn is_multipart_of(p: MimePart, content_type: Seq<char>, children: Seq<MimePart>) -> bool {
    &&& p.headers@.len() == 1
    &&& p.headers@[0].0@ == "Content-Type"@
    &&& p.headers@[0].1 matches HeaderType::ContentType(ct) && ct.c_type@ == content_type
        && ct.attributes@.len() == 0
    &&& p.contents matches BodyPart::Multipart(v) && v@ == children
}

/// The body a message is written with: the part set with `body`, else the
/// text and HTML bodies (as `multipart/alternative` when both are there)
/// followed by the attachments (all in `multipart/mixed` when there are
/// any), else an empty line of text.
pub open spec fn message_body(
    text: Option<MimePart>,
    html: Option<MimePart>,
    attachments: Option<Vec<MimePart>>,
    body: Option<MimePart>,
    p: MimePart,
) -> bool {
    match body {
        Some(b) => p == b,
        None => match (text, html, attachments) {
            (Some(t), Some(h), Some(a)) => p.contents matches BodyPart::Multipart(v) && v@.len()
                >= 1 && is_multipart_of(p, "multipart/mixed"@, v@) && is_multipart_of(
                v@[0],
                "multipart/alternative"@,
                seq![t, h],
            ) && v@.skip(1) == a@,
            (Some(t), Some(h), None) => is_multipart_of(p, "multipart/alternative"@, seq![t, h]),
            (Some(t), None, Some(a)) => is_multipart_of(p, "multipart/mixed"@, seq![t] + a@),
            (Some(t), None, None) => p == t,
            (None, Some(h), Some(a)) => is_multipart_of(p, "multipart/mixed"@, seq![h] + a@),
            (None, Some(h), None) => p == h,
            (None, None, Some(a)) => is_multipart_of(p, "multipart/mixed"@, a@),
            (None, None, None) => p.contents matches BodyPart::Text(t) && t@ == "\n"@
                && p.headers@.len() == 1 && p.headers@[0].0@ == "Content-Type"@,
        },
    }
}

/// The lines of the values of one header entry.
pub open spec fn entry_lines(name: Seq<u8>, values: Seq<HeaderType>) -> Seq<u8>
    decreases values.len(),
{
    if values.len() == 0 {
        seq![]
    } else {
        entry_lines(name, values.drop_last()) + name + seq![58u8, 32] + values.last().header_bytes(
            name.len() + 2int,
        )
    }
}

/// The lines of all header entries, in order.
pub open spec fn entries_out(hs: Seq<(String, Vec<HeaderType>)>) -> Seq<u8>
    decreases hs.len(),
{
    if hs.len() == 0 {
        seq![]
    } else {
        entries_out(hs.drop_last()) + entry_lines(encode_utf8(hs.last().0@), hs.last().1@)
    }
}

/// `Message-ID`
pub open spec fn message_id_name() -> Seq<u8> {
    seq![77u8, 101, 115, 115, 97, 103, 101, 45, 73, 68]
}

/// `Date`
pub open spec fn date_name() -> Seq<u8> {
    seq![68u8, 97, 116, 101]
}

/// Whether some entry has the name and holds a value.
pub open spec fn has_entry(hs: Seq<(String, Vec<HeaderType>)>, name: Seq<u8>) -> bool {
    exists|i: int| 0 <= i < hs.len() && encode_utf8((#[trigger] hs[i]).0@) == name && hs[i].1@.len() > 0
}

/// The message headers: the entries, then a `Message-ID` of `<token>` and a
/// `Date` of `now` where the entries have none.
pub open spec fn message_headers_out(hs: Seq<(String, Vec<HeaderType>)>, token: Seq<u8>, now: Seq<u8>) -> Seq<u8> {
    entries_out(hs) + (if has_entry(hs, message_id_name()) {
        seq![]
    } else {
        message_id_name() + seq![58u8, 32, 60] + token + seq![62u8, 13, 10]
    }) + (if has_entry(hs, date_name()) {
        seq![]
    } else {
        date_name() + seq![58u8, 32] + now + seq![13u8, 10]
    })
}

/// Whether every header value can be written after its name.
pub open spec fn entries_writable(hs: Seq<(String, Vec<HeaderType>)>) -> bool {
    forall|i: int, j: int|
        0 <= i < hs.len() && 0 <= j < hs[i].1@.len() ==> within_limits(
            encode_utf8(hs[i].0@).len() + 2int,
        ) && (#[trigger] hs[i].1@[j]).writable(encode_utf8(hs[i].0@).len() + 2int)
}

/// Writes the values of one header entry.
fn write_entry(name: &[u8], values: &Vec<HeaderType>, output: &mut Vec<u8>)
    requires
        within_limits(name@.len() + 2int),
        forall|j: int| 0 <= j < values@.len() ==> (#[trigger] values@[j]).writable(name@.len() + 2int),
    ensures
        final(output)@ == old(output)@ + entry_lines(name@, values@),
{
    let ghost start = output@;
    let mut j: usize = 0;
    proof {
        assert(values@.take(0) =~= Seq::<HeaderType>::empty());
        assert(start + Seq::<u8>::empty() =~= start);
    }
    while j < values.len()
        invariant
            j <= values@.len(),
            within_limits(name@.len() + 2int),
            forall|i: int| 0 <= i < values@.len() ==> (#[trigger] values@[i]).writable(name@.len() + 2int),
            output@ == start + entry_lines(name@, values@.take(j as int)),
        decreases values@.len() - j,
    {
        assert(values@[j as int].writable(name@.len() + 2int));
        push_bytes(output, name);
        push_bytes(output, &[58u8, 32]);
        values[j].write_header(output, name.len() + 2);
        proof {
            let t = values@.take(j + 1);
            assert(t.drop_last() =~= values@.take(j as int));
            assert(output@ =~= start + entry_lines(name@, t));
        }
        j = j + 1;
    }
    proof {
        assert(values@.take(j as int) =~= values@);
    }
}

/// Writes the message headers (see `message_headers_out`).
fn write_message_headers(hs: &Vec<(String, Vec<HeaderType>)>, output: &mut Vec<u8>, token: &[u8], now: &[u8])
    requires
        entries_writable(hs@),
    ensures
        final(output)@ == old(output)@ + message_headers_out(hs@, token@, now@),
{
    let ghost start = output@;
    let mut has_date = false;
    let mut has_message_id = false;
    let mut i: usize = 0;
    proof {
        assert(hs@.take(0) =~= Seq::<(String, Vec<HeaderType>)>::empty());
        assert(start + Seq::<u8>::empty() =~= start);
    }
    while i < hs.len()
        invariant
            i <= hs@.len(),
            entries_writable(hs@),
            output@ == start + entries_out(hs@.take(i as int)),
            has_date == has_entry(hs@.take(i as int), date_name()),
            has_message_id == has_entry(hs@.take(i as int), message_id_name()),
        decreases hs@.len() - i,
    {
        let name = hs[i].0.as_str().as_bytes();
        let filled = hs[i].1.len() > 0;
        if filled && bytes_equal(name, &[68u8, 97, 116, 101]) {
            has_date = true;
        }
        if filled && bytes_equal(name, &[77u8, 101, 115, 115, 97, 103, 101, 45, 73, 68]) {
            has_message_id = true;
        }
        proof {
            assert forall|j: int| 0 <= j < hs@[i as int].1@.len() implies (#[trigger] hs@[i as int].1@[j]).writable(
                name@.len() + 2int,
            ) by {}
        }
        if hs[i].1.len() > 0 {
            assert(hs@[i as int].1@[0].writable(name@.len() + 2int));
            write_entry(name, &hs[i].1, output);
        } else {
            proof {
                assert(entry_lines(name@, hs@[i as int].1@) =~= Seq::<u8>::empty());
                assert(output@ =~= output@ + entry_lines(name@, hs@[i as int].1@));
            }
        }
        proof {
            let t = hs@.take(i + 1);
            assert(t.drop_last() =~= hs@.take(i as int));
            assert(t.last() == hs@[i as int]);
            assert(output@ =~= start + entries_out(t));
            assert forall|j: int| 0 <= j < i implies #[trigger] hs@.take(i as int)[j] == t[j] by {}
            let here_filled = hs@[i as int].1@.len() > 0;
            if has_entry(t, date_name()) && !(encode_utf8(hs@[i as int].0@) == date_name() && here_filled) {
                let j = choose|j: int| 0 <= j < t.len() && encode_utf8((#[trigger] t[j]).0@) == date_name() && t[j].1@.len() > 0;
                assert(hs@.take(i as int)[j] == t[j]);
            }
            if has_entry(t, message_id_name()) && !(encode_utf8(hs@[i as int].0@) == message_id_name() && here_filled) {
                let j = choose|j: int| 0 <= j < t.len() && encode_utf8((#[trigger] t[j]).0@) == message_id_name() && t[j].1@.len() > 0;
                assert(hs@.take(i as int)[j] == t[j]);
            }
            if has_date {
                if !(encode_utf8(hs@[i as int].0@) == date_name() && here_filled) {
                    let j = choose|j: int| 0 <= j < i && encode_utf8((#[trigger] hs@.take(i as int)[j]).0@) == date_name() && hs@.take(i as int)[j].1@.len() > 0;
                    assert(hs@.take(i as int)[j] == t[j]);
                } else {
                    assert(encode_utf8(t[i as int].0@) == date_name() && t[i as int].1@.len() > 0);
                }
            }
            if has_message_id {
                if !(encode_utf8(hs@[i as int].0@) == message_id_name() && here_filled) {
                    let j = choose|j: int| 0 <= j < i && encode_utf8((#[trigger] hs@.take(i as int)[j]).0@) == message_id_name() && hs@.take(i as int)[j].1@.len() > 0;
                    assert(hs@.take(i as int)[j] == t[j]);
                } else {
                    assert(encode_utf8(t[i as int].0@) == message_id_name() && t[i as int].1@.len() > 0);
                }
            }
        }
        i = i + 1;
    }
    proof {
        assert(hs@.take(i as int) =~= hs@);
    }
    if !has_message_id {
        push_bytes(output, &[77u8, 101, 115, 115, 97, 103, 101, 45, 73, 68, 58, 32, 60]);
        push_bytes(output, token);
        push_bytes(output, &[62u8, 13, 10]);
    }
    if !has_date {
        push_bytes(output, &[68u8, 97, 116, 101, 58, 32]);
        push_bytes(output, now);
        push_bytes(output, &[13u8, 10]);
    }
    proof {
        assert(output@ =~= start + message_headers_out(hs@, token@, now@));
    }
}

/// The parts `first` and then `rest`.
fn parts_with(first: MimePart, rest: Vec<MimePart>) -> (r: Vec<MimePart>)
    ensures
        r@ == seq![first] + rest@,
{
    let ghost tail = rest@;
    let mut parts: Vec<MimePart> = Vec::new();
    parts.push(first);
    let mut rest = rest;
    parts.append(&mut rest);
    proof {
        assert(parts@ =~= seq![first] + tail);
    }
    parts
}

/// The two parts in order.
fn two_parts(a: MimePart, b: MimePart) -> (r: Vec<MimePart>)
    ensures
        r@ == seq![a, b],
{
    let mut parts: Vec<MimePart> = Vec::new();
    parts.push(a);
    parts.push(b);
    proof {
        assert(parts@ =~= seq![a, b]);
    }
    parts
}

impl MessageBuilder {
    /// A message with no headers and no body.
    pub fn new() -> (r: MessageBuilder)
        ensures
            r.headers@.len() == 0,
            r.html_body is None,
            r.text_body is None,
            r.attachments is None,
            r.body is None,
    {
        MessageBuilder {
            headers: Vec::new(),
            html_body: None,
            text_body: None,
            attachments: None,
            body: None,
        }
    }

    /// Adds `value` under the header `name`.
    pub fn header(&mut self, name: &str, value: HeaderType)
        ensures
            header_added(old(self).headers@, final(self).headers@, name@, value),
            final(self).html_body == old(self).html_body,
            final(self).text_body == old(self).text_body,
            final(self).attachments == old(self).attachments,
            final(self).body == old(self).body,
    {
        let ghost hs = self.headers@;
        let ghost s0 = *self;
        let ghost nb = encode_utf8(name@);
        let n = name.as_bytes();
        let mut i: usize = 0;
        while i < self.headers.len()
            invariant
                self.headers@ == hs,
                s0 == *old(self),
                hs == old(self).headers@,
                self.html_body == s0.html_body,
                self.text_body == s0.text_body,
                self.attachments == s0.attachments,
                self.body == s0.body,
                n@ == nb,
                nb == encode_utf8(name@),
                i <= hs.len(),
                entry_index(hs, nb, 0) == entry_index(hs, nb, i as int),
            decreases hs.len() - i,
        {
            if bytes_equal(self.headers[i].0.as_str().as_bytes(), n) {
                proof {
                    assert(encode_utf8(hs[i as int].0@) == nb);
                    assert(entry_index(hs, nb, i as int) == i);
                }
                let mut entry = self.headers.remove(i);
                entry.1.push(value);
                self.headers.insert(i, entry);
                proof {
                    assert(self.headers@.len() == hs.len());
                    assert(self.html_body == s0.html_body);
                    assert forall|j: int| 0 <= j < hs.len() implies (#[trigger] self.headers@[j]).0 == hs[j].0
                        && if j == i {
                        self.headers@[j].1@ == hs[j].1@.push(value)
                    } else {
                        self.headers@[j].1 == hs[j].1
                    } by {
                        if j < i {
                            assert(self.headers@[j] == hs[j]);
                        } else if j > i {
                            assert(self.headers@[j] == hs[j]);
                        }
                    }
                    assert(entry_index(hs, encode_utf8(name@), 0) == i);
                    assert(header_added(hs, self.headers@, name@, value));
                }
                return;
            }
            i = i + 1;
        }
        let mut values: Vec<HeaderType> = Vec::new();
        values.push(value);
        self.headers.push((name.to_owned(), values));
        proof {
            assert(self.headers@.drop_last() =~= hs);
            assert(values@ =~= seq![value]);
        }
    }

    /// Adds a `Message-ID` header.
    pub fn message_id(&mut self, value: MessageId)
        ensures
            header_added(old(self).headers@, final(self).headers@, "Message-ID"@, HeaderType::MessageId(value)),
            final(self).text_body == old(self).text_body,
            final(self).html_body == old(self).html_body,
            final(self).attachments == old(self).attachments,
            final(self).body == old(self).body,
    {
        self.header("Message-ID", HeaderType::MessageId(value));
    }

    /// Adds an `In-Reply-To` header.
    pub fn in_reply_to(&mut self, value: MessageId)
        ensures
            header_added(old(self).headers@, final(self).headers@, "In-Reply-To"@, HeaderType::MessageId(value)),
            final(self).text_body == old(self).text_body,
            final(self).html_body == old(self).html_body,
            final(self).attachments == old(self).attachments,
            final(self).body == old(self).body,
    {
        self.header("In-Reply-To", HeaderType::MessageId(value));
    }

    /// Adds a `References` header.
    pub fn references(&mut self, value: MessageId)
        ensures
            header_added(old(self).headers@, final(self).headers@, "References"@, HeaderType::MessageId(value)),
            final(self).text_body == old(self).text_body,
            final(self).html_body == old(self).html_body,
            final(self).attachments == old(self).attachments,
            final(self).body == old(self).body,
    {
        self.header("References", HeaderType::MessageId(value));
    }

    /// Adds a `Sender` header.
    pub fn sender(&mut self, value: Address)
        ensures
            header_added(old(self).headers@, final(self).headers@, "Sender"@, HeaderType::Address(value)),
            final(self).text_body == old(self).text_body,
            final(self).html_body == old(self).html_body,
            final(self).attachments == old(self).attachments,
            final(self).body == old(self).body,
    {
        self.header("Sender", HeaderType::Address(value));
    }

    /// Adds a `From` header.
    pub fn from(&mut self, value: Address)
        ensures
            header_added(old(self).headers@, final(self).headers@, "From"@, HeaderType::Address(value)),
            final(self).text_body == old(self).text_body,
            final(self).html_body == old(self).html_body,
            final(self).attachments == old(self).attachments,
            final(self).body == old(self).body,
    {
        self.header("From", HeaderType::Address(value));
    }

    /// Adds a `To` header.
    pub fn to(&mut self, value: Address)
        ensures
            header_added(old(self).headers@, final(self).headers@, "To"@, HeaderType::Address(value)),
            final(self).text_body == old(self).text_body,
            final(self).html_body == old(self).html_body,
            final(self).attachments == old(self).attachments,
            final(self).body == old(self).body,
    {
        self.header("To", HeaderType::Address(value));
    }

    /// Adds a `Cc` header.
    pub fn cc(&mut self, value: Address)
        ensures
            header_added(old(self).headers@, final(self).headers@, "Cc"@, HeaderType::Address(value)),
            final(self).text_body == old(self).text_body,
            final(self).html_body == old(self).html_body,
            final(self).attachments == old(self).attachments,
            final(self).body == old(self).body,
    {
        self.header("Cc", HeaderType::Address(value));
    }

    /// Adds a `Bcc` header.
    pub fn bcc(&mut self, value: Address)
        ensures
            header_added(old(self).headers@, final(self).headers@, "Bcc"@, HeaderType::Address(value)),
            final(self).text_body == old(self).text_body,
            final(self).html_body == old(self).html_body,
            final(self).attachments == old(self).attachments,
            final(self).body == old(self).body,
    {
        self.header("Bcc", HeaderType::Address(value));
    }

    /// Adds a `Reply-To` header.
    pub fn reply_to(&mut self, value: Address)
        ensures
            header_added(old(self).headers@, final(self).headers@, "Reply-To"@, HeaderType::Address(value)),
            final(self).text_body == old(self).text_body,
            final(self).html_body == old(self).html_body,
            final(self).attachments == old(self).attachments,
            final(self).body == old(self).body,
    {
        self.header("Reply-To", HeaderType::Address(value));
    }

    /// Adds a `Subject` header.
    pub fn subject(&mut self, value: &str)
        ensures
            exists|t: Text| t.text@ == value@ && header_added(old(self).headers@, final(self).headers@, "Subject"@, HeaderType::Text(t)),
            final(self).text_body == old(self).text_body,
            final(self).html_body == old(self).html_body,
            final(self).attachments == old(self).attachments,
            final(self).body == old(self).body,
    {
        let t = Text::new(value);
        let ghost tt = t;
        self.header("Subject", HeaderType::Text(t));
        proof {
            assert(tt.text@ == value@);
        }
    }

    /// Adds a `Date` header.
    pub fn date(&mut self, value: Date)
        ensures
            header_added(old(self).headers@, final(self).headers@, "Date"@, HeaderType::Date(value)),
            final(self).text_body == old(self).text_body,
            final(self).html_body == old(self).html_body,
            final(self).attachments == old(self).attachments,
            final(self).body == old(self).body,
    {
        self.header("Date", HeaderType::Date(value));
    }

    /// Sets the plain-text body.
    pub fn text_body(&mut self, value: &str)
        ensures
            final(self).text_body matches Some(p) && is_text_part(p, "text/plain"@, value@),
            final(self).headers == old(self).headers,
            final(self).html_body == old(self).html_body,
            final(self).attachments == old(self).attachments,
            final(self).body == old(self).body,
    {
        self.text_body = Some(MimePart::new_text(value));
    }

    /// Sets the HTML body.
    pub fn html_body(&mut self, value: &str)
        ensures
            final(self).html_body matches Some(p) && is_text_part(p, "text/html"@, value@),
            final(self).headers == old(self).headers,
            final(self).text_body == old(self).text_body,
            final(self).attachments == old(self).attachments,
            final(self).body == old(self).body,
    {
        self.html_body = Some(MimePart::new_html(value));
    }

    /// Adds a part to the attachments.
    fn push_attachment(&mut self, part: MimePart)
        ensures
            final(self).attachments matches Some(a) && a@ == attachment_list(old(self).attachments).push(part),
            final(self).headers == old(self).headers,
            final(self).text_body == old(self).text_body,
            final(self).html_body == old(self).html_body,
            final(self).body == old(self).body,
    {
        let mut list = match self.attachments.take() {
            Some(v) => v,
            None => Vec::new(),
        };
        list.push(part);
        self.attachments = Some(list);
    }

    /// Adds an attachment with the given type and file name.
    pub fn attachment(&mut self, content_type: &str, filename: &str, value: &[u8])
        ensures
            final(self).attachments matches Some(a) && a@.drop_last() == attachment_list(old(self).attachments)
                && a@.len() == attachment_list(old(self).attachments).len() + 1
                && is_attachment_part(a@.last(), content_type@, filename@, value@),
            final(self).headers == old(self).headers,
            final(self).text_body == old(self).text_body,
            final(self).html_body == old(self).html_body,
            final(self).body == old(self).body,
    {
        let part = MimePart::new_binary(content_type, value).attachment(filename);
        proof {
            assert(part.headers@[0] == part.headers@.drop_last()[0]);
        }
        self.push_attachment(part);
        proof {
            let a = self.attachments->Some_0@;
            assert(a.drop_last() =~= attachment_list(old(self).attachments));
        }
    }

    /// Adds an inline binary part with the given type and content ID.
    pub fn inline_binary(&mut self, content_type: &str, cid: &str, value: &[u8])
        ensures
            final(self).attachments matches Some(a) && a@.drop_last() == attachment_list(old(self).attachments)
                && a@.len() == attachment_list(old(self).attachments).len() + 1
                && is_inline_part(a@.last(), content_type@, cid@, value@),
            final(self).headers == old(self).headers,
            final(self).text_body == old(self).text_body,
            final(self).html_body == old(self).html_body,
            final(self).body == old(self).body,
    {
        let p1 = MimePart::new_binary(content_type, value).inline();
        proof {
            assert(p1.headers@[0] == p1.headers@.drop_last()[0]);
        }
        let part = p1.cid(cid);
        proof {
            assert(part.headers@[0] == part.headers@.drop_last()[0]);
            assert(part.headers@[1] == part.headers@.drop_last()[1]);
        }
        self.push_attachment(part);
        proof {
            let a = self.attachments->Some_0@;
            assert(a.drop_last() =~= attachment_list(old(self).attachments));
        }
    }

    /// Sets the whole body, in place of the text, HTML and attachments.
    pub fn body(&mut self, value: MimePart)
        ensures
            final(self).body == Some(value),
            final(self).headers == old(self).headers,
    {
        self.body = Some(value);
    }

    /// The body part the message is written with (see `message_body`).
    fn into_body(self) -> (r: MimePart)
        ensures
            message_body(self.text_body, self.html_body, self.attachments, self.body, r),
    {
        match self.body {
            Some(b) => b,
            None => match (self.text_body, self.html_body, self.attachments) {
                (Some(text), Some(html), Some(attachments)) => {
                    let alt = MimePart::new_multipart("multipart/alternative", two_parts(text, html));
                    let parts = parts_with(alt, attachments);
                    let r = MimePart::new_multipart("multipart/mixed", parts);
                    proof {
                        assert(parts@.skip(1) =~= attachments@);
                    }
                    r
                },
                (Some(text), Some(html), None) => MimePart::new_multipart(
                    "multipart/alternative",
                    two_parts(text, html),
                ),
                (Some(text), None, Some(attachments)) => MimePart::new_multipart(
                    "multipart/mixed",
                    parts_with(text, attachments),
                ),
                (Some(text), None, None) => text,
                (None, Some(html), Some(attachments)) => MimePart::new_multipart(
                    "multipart/mixed",
                    parts_with(html, attachments),
                ),
                (None, Some(html), None) => html,
                (None, None, Some(attachments)) => MimePart::new_multipart("multipart/mixed", attachments),
                (None, None, None) => MimePart::new_text("\n"),
            },
        }
    }

    /// Writes the message: its headers, a `Message-ID` of `<token>` and a
    /// `Date` of `now` where it has none, then its body, with boundaries
    /// made from `token`.
    pub fn write_message(self, output: &mut Vec<u8>, token: &str, now: &str)
        requires
            entries_writable(self.headers@),
            token_fits(encode_utf8(token@)),
            forall|p: MimePart|
                message_body(self.text_body, self.html_body, self.attachments, self.body, p)
                    ==> part_wf(p) && part_size(p) + 2 < usize::MAX,
        ensures
            exists|p: MimePart|
                message_body(self.text_body, self.html_body, self.attachments, self.body, p)
                    && final(output)@ == old(output)@ + message_headers_out(
                    self.headers@,
                    encode_utf8(token@),
                    encode_utf8(now@),
                ) + part_out(p, encode_utf8(token@), 0).0,
    {
        let ghost start = output@;
        write_message_headers(&self.headers, output, token.as_bytes(), now.as_bytes());
        let ghost mid = output@;
        let ghost hs = self.headers@;
        let ghost tb = self.text_body;
        let ghost hb = self.html_body;
        let ghost at = self.attachments;
        let ghost bd = self.body;
        let part = self.into_body();
        part.write_part(output, token);
        proof {
            assert(message_body(tb, hb, at, bd, part));
            assert(output@ =~= start + message_headers_out(hs, encode_utf8(token@), encode_utf8(now@))
                + part_out(part, encode_utf8(token@), 0).0);
        }
    }

    /// Writes the message (see `write_message`), dated now in local time.
    pub fn write_to(self, output: &mut Vec<u8>, token: &str)
        requires
            entries_writable(self.headers@),
            token_fits(encode_utf8(token@)),
            forall|p: MimePart|
                message_body(self.text_body, self.html_body, self.attachments, self.body, p)
                    ==> part_wf(p) && part_size(p) + 2 < usize::MAX,
        ensures
            exists|now: Seq<char>, p: MimePart|
                is_line_text(now) && message_body(self.text_body, self.html_body, self.attachments, self.body, p)
                    && final(output)@ == old(output)@ + message_headers_out(
                    self.headers@,
                    encode_utf8(token@),
                    encode_utf8(now),
                ) + part_out(p, encode_utf8(token@), 0).0,
    {
        let ghost hs = self.headers@;
        let ghost tb = self.text_body;
        let ghost hb = self.html_body;
        let ghost at = self.attachments;
        let ghost bd = self.body;
        let now = local_now_rfc2822();
        let ghost nowv = now@;
        self.write_message(output, token, now.as_str());
        proof {
            let p = choose|p: MimePart|
                message_body(tb, hb, at, bd, p) && final(output)@ == old(output)@
                    + message_headers_out(hs, encode_utf8(token@), encode_utf8(nowv)) + part_out(
                    p,
                    encode_utf8(token@),
                    0,
                ).0;
            assert(message_body(tb, hb, at, bd, p));
            assert(is_line_text(nowv));
        }
    }
}

} // verus!
