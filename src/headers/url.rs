//! URL lists, used mostly by the `List-*` headers.
use vstd::prelude::*;

use crate::encoders::{crlf, push_bytes, within_limits};
use crate::headers::message_id::id_bytes;
use crate::headers::{fold_break, push_fold, Header};
use vstd::utf8::encode_utf8;

verus! {

/// Output and column after the first `n` URLs: each bracketed, joined by
/// `,`; before each but the first a space, or a fold where the URL would
/// bring the line to 76 bytes or more.
pub open spec fn url_run(urls: Seq<Seq<u8>>, n: int, col: int) -> (Seq<u8>, int)
    decreases n,
{
    if n <= 0 {
        (seq![], col)
    } else {
        let prev = url_run(urls, n - 1, col);
        let u = urls[n - 1];
        let (lead, c) = if n == 1 {
            (seq![], prev.1)
        } else if prev.1 + u.len() + 2 >= 76 {
            (fold_break(), 1)
        } else {
            (seq![32u8], prev.1 + 1)
        };
        if n < urls.len() {
            (prev.0 + lead + seq![60u8] + u + seq![62u8, 44], c + u.len() + 3)
        } else {
            (prev.0 + lead + seq![60u8] + u + seq![62u8], c + u.len() + 2)
        }
    }
}

/// URL header value: one or more URLs.
pub struct URL {
    pub url: Vec<String>,
}

impl URL {
    /// A single URL.
    pub fn new(url: &str) -> (r: URL)
        ensures
            r.url@.len() == 1,
            r.url@[0]@ == url@,
    {
        let mut v: Vec<String> = Vec::new();
        v.push(url.to_owned());
        URL { url: v }
    }

    /// A list of URLs, in order.
    pub fn new_list(urls: &[&str]) -> (r: URL)
        ensures
            r.url@.len() == urls@.len(),
            forall|i: int| 0 <= i < urls@.len() ==> #[trigger] r.url@[i]@ == urls@[i]@,
    {
        let mut v: Vec<String> = Vec::new();
        let mut i: usize = 0;
        while i < urls.len()
            invariant
                i <= urls@.len(),
                v@.len() == i,
                forall|j: int| 0 <= j < i ==> #[trigger] v@[j]@ == urls@[j]@,
            decreases urls@.len() - i,
        {
            v.push(urls[i].to_owned());
            i = i + 1;
        }
        URL { url: v }
    }
}

impl Header for URL {
    open spec fn writable(&self, col: int) -> bool {
        within_limits(col) && forall|i: int|
            0 <= i < self.url@.len() ==> within_limits(
                #[trigger] encode_utf8(self.url@[i]@).len() as int,
            )
    }

    open spec fn header_bytes(&self, col: int) -> Seq<u8> {
        let run = url_run(id_bytes(self.url@), self.url@.len() as int, col);
        run.0 + if run.1 > 0 {
            crlf()
        } else {
            seq![]
        }
    }

    open spec fn header_col(&self, col: int) -> int {
        0
    }

    fn write_header(&self, output: &mut Vec<u8>, bytes_written: usize) -> (r: usize) {
        let ghost start = output@;
        let ghost urls = id_bytes(self.url@);
        let n = self.url.len();
        let mut col: usize = bytes_written;
        let mut pos: usize = 0;
        proof {
            assert(start + Seq::<u8>::empty() =~= start);
        }
        while pos < n
            invariant
                n == self.url@.len(),
                urls == id_bytes(self.url@),
                self.writable(bytes_written as int),
                pos <= n,
                col <= bytes_written + usize::MAX / 8 + 80,
                output@ == start + url_run(urls, pos as int, bytes_written as int).0,
                col == url_run(urls, pos as int, bytes_written as int).1,
            decreases n - pos,
        {
            let u = self.url[pos].as_str().as_bytes();
            assert(within_limits(encode_utf8(self.url@[pos as int]@).len() as int));
            assert(u@ == urls[pos as int]);
            let ghost before = output@;
            if pos > 0 {
                if col + u.len() + 2 >= 76 {
                    push_fold(output);
                    col = 1;
                } else {
                    output.push(32);
                    col = col + 1;
                }
            }
            output.push(60);
            push_bytes(output, u);
            if pos + 1 < n {
                push_bytes(output, &[62u8, 44]);
                col = col + u.len() + 3;
            } else {
                output.push(62);
                col = col + u.len() + 2;
            }
            proof {
                assert(output@ =~= start + url_run(urls, pos + 1, bytes_written as int).0);
            }
            pos = pos + 1;
        }
        if col > 0 {
            push_bytes(output, &[13u8, 10]);
        }
        proof {
            assert(final(output)@ =~= start + self.header_bytes(bytes_written as int));
        }
        0
    }
}

} // verus!
