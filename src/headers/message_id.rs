//! Message-ID lists (`Message-ID`, `In-Reply-To`, `References`).
use vstd::prelude::*;

use crate::encoders::{crlf, push_bytes, within_limits};
use crate::headers::{fold_break, push_fold, Header};
use vstd::utf8::encode_utf8;

verus! {

/// `<id>`
pub open spec fn bracketed(id: Seq<u8>) -> Seq<u8> {
    seq![60u8] + id + seq![62u8]
}

/// Output and column after the first `n` identifiers, each bracketed, with a
/// fold after one that brings the line to 76 bytes or more (not the last).
pub open spec fn id_run(ids: Seq<Seq<u8>>, n: int, col: int) -> (Seq<u8>, int)
    decreases n,
{
    if n <= 0 {
        (seq![], col)
    } else {
        let prev = id_run(ids, n - 1, col);
        let c = prev.1 + ids[n - 1].len() + 2;
        if c >= 76 && n < ids.len() {
            (prev.0 + bracketed(ids[n - 1]) + fold_break(), 0)
        } else {
            (prev.0 + bracketed(ids[n - 1]), c)
        }
    }
}

/// The identifiers as bytes.
pub open spec fn id_bytes(ids: Seq<String>) -> Seq<Seq<u8>> {
    ids.map_values(|s: String| encode_utf8(s@))
}

/// Message ID header value: one or more identifiers.
pub struct MessageId {
    pub id: Vec<String>,
}

impl MessageId {
    /// A single message ID.
    pub fn new(id: &str) -> (r: MessageId)
        ensures
            r.id@.len() == 1,
            r.id@[0]@ == id@,
    {
        let mut v: Vec<String> = Vec::new();
        v.push(id.to_owned());
        MessageId { id: v }
    }

    /// A list of message IDs, in order.
    pub fn new_list(ids: &[&str]) -> (r: MessageId)
        ensures
            r.id@.len() == ids@.len(),
            forall|i: int| 0 <= i < ids@.len() ==> #[trigger] r.id@[i]@ == ids@[i]@,
    {
        let mut v: Vec<String> = Vec::new();
        let mut i: usize = 0;
        while i < ids.len()
            invariant
                i <= ids@.len(),
                v@.len() == i,
                forall|j: int| 0 <= j < i ==> #[trigger] v@[j]@ == ids@[j]@,
            decreases ids@.len() - i,
        {
            v.push(ids[i].to_owned());
            i = i + 1;
        }
        MessageId { id: v }
    }
}

impl Header for MessageId {
    open spec fn writable(&self, col: int) -> bool {
        within_limits(col) && forall|i: int|
            0 <= i < self.id@.len() ==> within_limits(#[trigger] encode_utf8(self.id@[i]@).len() as int)
    }

    open spec fn header_bytes(&self, col: int) -> Seq<u8> {
        let run = id_run(id_bytes(self.id@), self.id@.len() as int, col);
        run.0 + if run.1 > 0 {
            crlf()
        } else {
            seq![]
        }
    }

    open spec fn header_col(&self, col: int) -> int {
        0
    }

    fn write_header(&self, output: &mut Vec<u8>, bytes_written: usize) -> (r: usize) {
        let ghost start = output@;
        let ghost ids = id_bytes(self.id@);
        let n = self.id.len();
        let mut col: usize = bytes_written;
        let mut pos: usize = 0;
        proof {
            assert(start + Seq::<u8>::empty() =~= start);
        }
        while pos < n
            invariant
                n == self.id@.len(),
                ids == id_bytes(self.id@),
                self.writable(bytes_written as int),
                pos <= n,
                col < 76 || col == bytes_written || pos == n,
                col <= bytes_written + usize::MAX / 8 + 80,
                output@ == start + id_run(ids, pos as int, bytes_written as int).0,
                col == id_run(ids, pos as int, bytes_written as int).1,
            decreases n - pos,
        {
            let id = self.id[pos].as_str().as_bytes();
            assert(within_limits(encode_utf8(self.id@[pos as int]@).len() as int));
            assert(id@ == ids[pos as int]);
            output.push(60);
            push_bytes(output, id);
            output.push(62);
            col = col + id.len() + 2;
            if col >= 76 && pos + 1 < n {
                push_fold(output);
                col = 0;
            }
            proof {
                assert(output@ =~= start + id_run(ids, pos + 1, bytes_written as int).0);
            }
            pos = pos + 1;
        }
        if col > 0 {
            push_bytes(output, &[13u8, 10]);
        }
        proof {
            assert(final(output)@ =~= start + self.header_bytes(bytes_written as int));
        }
        0
    }
}

} // verus!
