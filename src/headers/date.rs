//! The `Date` header value (RFC 5322 date syntax).
use vstd::prelude::*;

use crate::encoders::{crlf, push_bytes};
use crate::headers::Header;
use vstd::utf8::encode_utf8;

verus! {

/// First second of the year 0 (proleptic Gregorian), as a Unix timestamp.
pub const FIRST_RFC2822_SECOND: i64 = -62167219200;

/// Last second of the year 9999, as a Unix timestamp.
pub const LAST_RFC2822_SECOND: i64 = 253402300799;

/// RFC 2822 date syntax covers the years 0 through 9999.
pub open spec fn in_rfc2822_range(ts: int) -> bool {
    FIRST_RFC2822_SECOND <= ts <= LAST_RFC2822_SECOND
}

/// The RFC 2822 form (`Tue, 1 Jul 2003 10:52:37 +0000`) of a Unix timestamp
/// in UTC.
pub uninterp spec fn rfc2822_utc(timestamp: int) -> Seq<char>;

/// Relies on chrono: `Utc.timestamp_opt(t, 0)` is `Single` for every
/// timestamp of the years 0 to 9999, and `DateTime::to_rfc2822` formats it
/// (it panics outside those years). The text depends on the timestamp alone.
#[verifier::external_body]
fn format_rfc2822_utc(timestamp: i64) -> (r: String)
    requires
        in_rfc2822_range(timestamp as int),
    ensures
        r@ == rfc2822_utc(timestamp as int),
{
    match chrono::TimeZone::timestamp_opt(&chrono::Utc, timestamp, 0) {
        chrono::LocalResult::Single(dt) => dt.to_rfc2822(),
        _ => String::new(),
    }
}

/// Relies on chrono's `Utc::now` for the current Unix time (it panics if the
/// system clock is before 1970).
#[verifier::external_body]
fn unix_time_now() -> i64 {
    chrono::Utc::now().timestamp()
}

/// Whether a text can stand on a header line: non-empty ASCII without CR
/// or LF.
pub open spec fn is_line_text(s: Seq<char>) -> bool {
    s.len() > 0 && forall|i: int|
        0 <= i < s.len() ==> (#[trigger] s[i] as u32) < 128 && s[i] != '\r' && s[i] != '\n'
}

/// Relies on chrono's `Local::now` and `DateTime::to_rfc2822`: the current
/// local time in RFC 2822 form (`Tue, 1 Jul 2003 10:52:37 +0200`), a
/// non-empty ASCII line.
#[verifier::external_body]
pub(crate) fn local_now_rfc2822() -> (r: String)
    ensures
        is_line_text(r@),
{
    chrono::Local::now().to_rfc2822()
}

/// RFC 5322 `Date` header value: a Unix timestamp.
pub struct Date {
    pub date: i64,
}

impl Date {
    /// A date from a Unix timestamp.
    pub fn new(date: i64) -> (r: Date)
        ensures
            r.date == date,
    {
        Date { date }
    }

    /// The current time.
    pub fn now() -> Date {
        Date { date: unix_time_now() }
    }
}

impl Header for Date {
    open spec fn writable(&self, col: int) -> bool {
        true
    }

    /// The date, or nothing outside the years RFC 2822 covers, then CRLF.
    open spec fn header_bytes(&self, col: int) -> Seq<u8> {
        (if in_rfc2822_range(self.date as int) {
            encode_utf8(rfc2822_utc(self.date as int))
        } else {
            seq![]
        }) + crlf()
    }

    open spec fn header_col(&self, col: int) -> int {
        0
    }

    fn write_header(&self, output: &mut Vec<u8>, bytes_written: usize) -> (r: usize) {
        let ghost start = output@;
        if FIRST_RFC2822_SECOND <= self.date && self.date <= LAST_RFC2822_SECOND {
            let text = format_rfc2822_utc(self.date);
            push_bytes(output, text.as_str().as_bytes());
        }
        push_bytes(output, &[13u8, 10]);
        proof {
            assert(final(output)@ =~= start + self.header_bytes(bytes_written as int));
        }
        0
    }
}

} // verus!
