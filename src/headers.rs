//! Header values and how each is written as a folded header line.
use vstd::prelude::*;

pub mod address;
pub mod content_type;
pub mod date;
pub mod message_id;
pub mod raw;
pub mod text;
pub mod url;

use crate::headers::address::Address;
use crate::headers::content_type::ContentType;
use crate::headers::date::Date;
use crate::headers::message_id::MessageId;
use crate::headers::raw::Raw;
use crate::headers::text::Text;
use crate::headers::url::URL;

verus! {

/// `CRLF` and a tab: the break before a continuation line.
pub open spec fn fold_break() -> Seq<u8> {
    seq![13u8, 10, 9]
}

/// Writes the break before a continuation line.
pub fn push_fold(output: &mut Vec<u8>)
    ensures
        final(output)@ == old(output)@ + fold_break(),
{
    crate::encoders::push_bytes(output, &[13u8, 10, 9]);
}

/// A header value that can be written as a folded header line.
pub trait Header {
    /// Whether the value can be written from column `col` (its sizes are
    /// within the encoders' limits).
    spec fn writable(&self, col: int) -> bool;

    /// The bytes written for the value when the line already holds `col`
    /// bytes (the header name and `: `).
    spec fn header_bytes(&self, col: int) -> Seq<u8>;

    /// What `write_header` returns.
    spec fn header_col(&self, col: int) -> int;

    /// Writes the value, folding lines, and ends it with CRLF.
    fn write_header(&self, output: &mut Vec<u8>, bytes_written: usize) -> (r: usize)
        requires
            self.writable(bytes_written as int),
        ensures
            final(output)@ == old(output)@ + self.header_bytes(bytes_written as int),
            r as int == self.header_col(bytes_written as int),
    ;
}

/// A header value of any kind.
pub enum HeaderType {
    Address(Address),
    Date(Date),
    MessageId(MessageId),
    Raw(Raw),
    Text(Text),
    URL(URL),
    ContentType(ContentType),
}

impl From<Address> for HeaderType {
    fn from(value: Address) -> (r: Self)
        ensures
            r == HeaderType::Address(value),
    {
        HeaderType::Address(value)
    }
}

impl vstd::std_specs::convert::FromSpecImpl<Address> for HeaderType {
    open spec fn obeys_from_spec() -> bool {
        true
    }

    open spec fn from_spec(value: Address) -> Self {
        HeaderType::Address(value)
    }
}

impl From<Date> for HeaderType {
    fn from(value: Date) -> (r: Self)
        ensures
            r == HeaderType::Date(value),
    {
        HeaderType::Date(value)
    }
}

impl vstd::std_specs::convert::FromSpecImpl<Date> for HeaderType {
    open spec fn obeys_from_spec() -> bool {
        true
    }

    open spec fn from_spec(value: Date) -> Self {
        HeaderType::Date(value)
    }
}

impl From<MessageId> for HeaderType {
    fn from(value: MessageId) -> (r: Self)
        ensures
            r == HeaderType::MessageId(value),
    {
        HeaderType::MessageId(value)
    }
}

impl vstd::std_specs::convert::FromSpecImpl<MessageId> for HeaderType {
    open spec fn obeys_from_spec() -> bool {
        true
    }

    open spec fn from_spec(value: MessageId) -> Self {
        HeaderType::MessageId(value)
    }
}

impl From<Raw> for HeaderType {
    fn from(value: Raw) -> (r: Self)
        ensures
            r == HeaderType::Raw(value),
    {
        HeaderType::Raw(value)
    }
}

impl vstd::std_specs::convert::FromSpecImpl<Raw> for HeaderType {
    open spec fn obeys_from_spec() -> bool {
        true
    }

    open spec fn from_spec(value: Raw) -> Self {
        HeaderType::Raw(value)
    }
}

impl From<Text> for HeaderType {
    fn from(value: Text) -> (r: Self)
        ensures
            r == HeaderType::Text(value),
    {
        HeaderType::Text(value)
    }
}

impl vstd::std_specs::convert::FromSpecImpl<Text> for HeaderType {
    open spec fn obeys_from_spec() -> bool {
        true
    }

    open spec fn from_spec(value: Text) -> Self {
        HeaderType::Text(value)
    }
}

impl From<URL> for HeaderType {
    fn from(value: URL) -> (r: Self)
        ensures
            r == HeaderType::URL(value),
    {
        HeaderType::URL(value)
    }
}

impl vstd::std_specs::convert::FromSpecImpl<URL> for HeaderType {
    open spec fn obeys_from_spec() -> bool {
        true
    }

    open spec fn from_spec(value: URL) -> Self {
        HeaderType::URL(value)
    }
}

impl From<ContentType> for HeaderType {
    fn from(value: ContentType) -> (r: Self)
        ensures
            r == HeaderType::ContentType(value),
    {
        HeaderType::ContentType(value)
    }
}

impl vstd::std_specs::convert::FromSpecImpl<ContentType> for HeaderType {
    open spec fn obeys_from_spec() -> bool {
        true
    }

    open spec fn from_spec(value: ContentType) -> Self {
        HeaderType::ContentType(value)
    }
}

impl HeaderType {
    /// The value, where it is a content type.
    pub fn as_content_type(&self) -> (r: Option<&ContentType>)
        ensures
            match *self {
                HeaderType::ContentType(ct) => r == Some(&ct),
                _ => r is None,
            },
    {
        match self {
            HeaderType::ContentType(value) => Some(value),
            _ => None,
        }
    }
}

impl Header for HeaderType {
    open spec fn writable(&self, col: int) -> bool {
        match *self {
            HeaderType::Address(v) => v.writable(col),
            HeaderType::Date(v) => v.writable(col),
            HeaderType::MessageId(v) => v.writable(col),
            HeaderType::Raw(v) => v.writable(col),
            HeaderType::Text(v) => v.writable(col),
            HeaderType::URL(v) => v.writable(col),
            HeaderType::ContentType(v) => v.writable(col),
        }
    }

    open spec fn header_bytes(&self, col: int) -> Seq<u8> {
        match *self {
            HeaderType::Address(v) => v.header_bytes(col),
            HeaderType::Date(v) => v.header_bytes(col),
            HeaderType::MessageId(v) => v.header_bytes(col),
            HeaderType::Raw(v) => v.header_bytes(col),
            HeaderType::Text(v) => v.header_bytes(col),
            HeaderType::URL(v) => v.header_bytes(col),
            HeaderType::ContentType(v) => v.header_bytes(col),
        }
    }

    open spec fn header_col(&self, col: int) -> int {
        match *self {
            HeaderType::Address(v) => v.header_col(col),
            HeaderType::Date(v) => v.header_col(col),
            HeaderType::MessageId(v) => v.header_col(col),
            HeaderType::Raw(v) => v.header_col(col),
            HeaderType::Text(v) => v.header_col(col),
            HeaderType::URL(v) => v.header_col(col),
            HeaderType::ContentType(v) => v.header_col(col),
        }
    }

    fn write_header(&self, output: &mut Vec<u8>, bytes_written: usize) -> (r: usize) {
        match self {
            HeaderType::Address(value) => value.write_header(output, bytes_written),
            HeaderType::Date(value) => value.write_header(output, bytes_written),
            HeaderType::MessageId(value) => value.write_header(output, bytes_written),
            HeaderType::Raw(value) => value.write_header(output, bytes_written),
            HeaderType::Text(value) => value.write_header(output, bytes_written),
            HeaderType::URL(value) => value.write_header(output, bytes_written),
            HeaderType::ContentType(value) => value.write_header(output, bytes_written),
        }
    }
}

} // verus!
