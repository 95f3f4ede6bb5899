//! RFC 5322 addresses: mailboxes, groups and lists of them.
use vstd::prelude::*;

use crate::encoders::encode::{lemma_rfc2047_len, rfc2047_encode, rfc2047_of};
use crate::encoders::{crlf, push_bytes, within_limits};
use crate::headers::{fold_break, push_fold, Header};
use vstd::utf8::encode_utf8;

verus! {

/// RFC 5322 mailbox: an optional display name and an address.
pub struct EmailAddress {
    pub name: Option<String>,
    pub email: String,
}

/// RFC 5322 group: an optional name and its member mailboxes.
pub struct GroupedAddresses {
    pub name: Option<String>,
    pub addresses: Vec<Address>,
}

/// RFC 5322 address: a mailbox, a group, or a list of mailboxes and groups.
pub enum Address {
    Address(EmailAddress),
    Group(GroupedAddresses),
    List(Vec<Address>),
}

/// Byte length of a string.
pub open spec fn blen(s: String) -> int {
    encode_utf8(s@).len() as int
}

/// Byte length of an optional name plus `extra`, or 0 without a name.
pub open spec fn name_len(name: Option<String>, extra: int) -> int {
    match name {
        Some(n) => blen(n) + extra,
        None => 0,
    }
}

/// Room a mailbox is expected to take on a line (its name unencoded).
pub open spec fn mailbox_room(e: EmailAddress) -> int {
    blen(e.email) + name_len(e.name, 3) + 2
}

/// Whether the strings of a mailbox are within the encoders' limits.
pub open spec fn mailbox_fits(e: EmailAddress) -> bool {
    within_limits(blen(e.email)) && match e.name {
        Some(n) => within_limits(blen(n)),
        None => true,
    }
}

/// A mailbox written from column `col`, never folded inside: the encoded
/// name and a space, then the address in angle brackets; with the column
/// after it.
pub open spec fn mailbox_out(e: EmailAddress, col: int) -> (Seq<u8>, int) {
    let addr = seq![60u8] + encode_utf8(e.email@) + seq![62u8];
    match e.name {
        Some(n) => {
            let r = rfc2047_of(encode_utf8(n@));
            (r + seq![32u8] + addr, col + r.len() + 1 + blen(e.email) + 2)
        },
        None => (addr, col + blen(e.email) + 2),
    }
}

/// Output and column after the first `n` members of a group, joined by
/// `, `, with a fold before one that would bring the line to 76 bytes or
/// more. Members that are not mailboxes are skipped.
pub open spec fn member_run(members: Seq<Address>, n: int, col: int) -> (Seq<u8>, int)
    decreases n,
{
    if n <= 0 {
        (seq![], col)
    } else {
        let prev = member_run(members, n - 1, col);
        match members[n - 1] {
            Address::Address(e) => {
                let folded = prev.1 + mailbox_room(e) >= 76;
                let m = mailbox_out(e, if folded { 1 } else { prev.1 });
                let sep = if n < members.len() {
                    seq![44u8, 32]
                } else {
                    seq![]
                };
                (
                    prev.0 + (if folded {
                        fold_break()
                    } else {
                        seq![]
                    }) + m.0 + sep,
                    m.1 + sep.len(),
                )
            },
            _ => prev,
        }
    }
}

/// A group written from column `col`: its encoded name and `: `, then its
/// members; with the column after it.
pub open spec fn group_out(g: GroupedAddresses, col: int) -> (Seq<u8>, int) {
    match g.name {
        Some(n) => {
            let r = rfc2047_of(encode_utf8(n@));
            let run = member_run(g.addresses@, g.addresses@.len() as int, col + r.len() + 2);
            (r + seq![58u8, 32] + run.0, run.1)
        },
        None => member_run(g.addresses@, g.addresses@.len() as int, col),
    }
}

/// Whether a group can be written: its members are mailboxes, with strings
/// within the encoders' limits.
pub open spec fn group_fits(g: GroupedAddresses) -> bool {
    (match g.name {
        Some(n) => within_limits(blen(n)),
        None => true,
    }) && forall|i: int|
        0 <= i < g.addresses@.len() ==> match #[trigger] g.addresses@[i] {
            Address::Address(e) => mailbox_fits(e),
            _ => false,
        }
}

/// One item of an address list written from column `col`: a fold first
/// where it would bring the line to 76 bytes or more, then the item and,
/// unless it is the `last`, `, ` after a mailbox or `; ` after a group.
/// Nested lists write nothing.
pub open spec fn list_item_out(item: Address, last: bool, col: int) -> (Seq<u8>, int) {
    match item {
        Address::Address(e) => {
            let folded = col + mailbox_room(e) >= 76;
            let m = mailbox_out(e, if folded { 1 } else { col });
            let sep = if !last {
                seq![44u8, 32]
            } else {
                seq![]
            };
            (
                (if folded {
                    fold_break()
                } else {
                    seq![]
                }) + m.0 + sep,
                m.1 + sep.len(),
            )
        },
        Address::Group(g) => {
            let folded = col + name_len(g.name, 2) >= 76;
            let m = group_out(g, if folded { 1 } else { col });
            let sep = if !last {
                seq![59u8, 32]
            } else {
                seq![]
            };
            (
                (if folded {
                    fold_break()
                } else {
                    seq![]
                }) + m.0 + sep,
                m.1 + sep.len(),
            )
        },
        Address::List(_) => (seq![], col),
    }
}

/// Output and column after the first `n` items of an address list.
pub open spec fn list_run(items: Seq<Address>, n: int, col: int) -> (Seq<u8>, int)
    decreases n,
{
    if n <= 0 {
        (seq![], col)
    } else {
        let prev = list_run(items, n - 1, col);
        let step = list_item_out(items[n - 1], n >= items.len(), prev.1);
        (prev.0 + step.0, step.1)
    }
}

/// Whether an item of an address list can be written: a mailbox or a group
/// within limits, not a nested list (`Address::new_list` flattens those).
pub open spec fn item_fits(a: Address) -> bool {
    match a {
        Address::Address(e) => mailbox_fits(e),
        Address::Group(g) => group_fits(g),
        Address::List(_) => false,
    }
}

/// The items with every nested list replaced by its own items, in order, at
/// any depth.
pub open spec fn flat_items(items: Seq<Address>) -> Seq<Address>
    decreases items,
{
    if items.len() == 0 {
        seq![]
    } else {
        let rest = flat_items(items.subrange(1, items.len() as int));
        match items[0] {
            Address::List(v) => flat_items(v@) + rest,
            _ => seq![items[0]] + rest,
        }
    }
}

/// Number of addresses, groups and lists in a sequence, nested ones too.
pub open spec fn items_size(items: Seq<Address>) -> nat
    decreases items,
{
    if items.len() == 0 {
        0
    } else {
        let rest = items_size(items.subrange(1, items.len() as int));
        match items[0] {
            Address::List(v) => 1 + items_size(v@) + rest,
            _ => 1 + rest,
        }
    }
}

proof fn lemma_flat_items_no_list(items: Seq<Address>)
    ensures
        forall|i: int| 0 <= i < flat_items(items).len() ==> !(#[trigger] flat_items(items)[i] is List),
    decreases items,
{
    if items.len() > 0 {
        let rest = items.subrange(1, items.len() as int);
        lemma_flat_items_no_list(rest);
        match items[0] {
            Address::List(v) => {
                lemma_flat_items_no_list(v@);
                let a = flat_items(v@);
                let b = flat_items(rest);
                assert forall|i: int| 0 <= i < (a + b).len() implies !(#[trigger] (a + b)[i] is List) by {
                    if i >= a.len() {
                        assert((a + b)[i] == b[i - a.len()]);
                    }
                }
            },
            _ => {
                let b = flat_items(rest);
                assert forall|i: int| 0 <= i < (seq![items[0]] + b).len() implies !(#[trigger] (seq![items[0]] + b)[i] is List) by {
                    if i >= 1 {
                        assert((seq![items[0]] + b)[i] == b[i - 1]);
                    }
                }
            },
        }
    }
}

/// Appends the items to `out`, nested lists flattened.
fn flatten_into(items: Vec<Address>, out: &mut Vec<Address>)
    ensures
        final(out)@ == old(out)@ + flat_items(items@),
    decreases items_size(items@),
{
    let ghost start = out@;
    let ghost size0 = items_size(items@);
    let mut rest = items;
    proof {
        assert(start + Seq::<Address>::empty() =~= start);
        assert(flat_items(rest@) == flat_items(rest@));
    }
    while rest.len() > 0
        invariant
            items_size(rest@) <= size0,
            size0 == items_size(items@),
            start + flat_items(items@) == out@ + flat_items(rest@),
        decreases rest@.len(),
    {
        let ghost before = rest@;
        let first = rest.remove(0);
        proof {
            assert(rest@ =~= before.subrange(1, before.len() as int));
        }
        match first {
            Address::List(v) => {
                proof {
                    assert(items_size(v@) < size0);
                }
                flatten_into(v, out);
            },
            other => {
                out.push(other);
            },
        }
        proof {
            assert(out@ + flat_items(rest@) =~= start + flat_items(items@));
        }
    }
    proof {
        assert(flat_items(rest@) =~= Seq::<Address>::empty());
    }
}

/// Whether the strings of an address are within the encoders' limits.
pub open spec fn address_fits(a: Address) -> bool {
    match a {
        Address::Address(e) => mailbox_fits(e),
        Address::Group(g) => group_fits(g),
        Address::List(items) => forall|i: int|
            0 <= i < items@.len() ==> item_fits(#[trigger] items@[i]),
    }
}

proof fn lemma_mailbox_bounds(e: EmailAddress, col: int)
    requires
        mailbox_fits(e),
        0 <= col,
    ensures
        mailbox_out(e, col).1 <= col + 4 * (usize::MAX / 16) + 20,
        mailbox_out(e, col).1 >= 0,
{
    if let Some(n) = e.name {
        lemma_rfc2047_len(encode_utf8(n@));
    }
}

proof fn lemma_member_run_bound(members: Seq<Address>, n: int, col: int)
    requires
        0 <= col,
        n <= members.len(),
        forall|i: int|
            0 <= i < members.len() ==> match #[trigger] members[i] {
                Address::Address(e) => mailbox_fits(e),
                _ => true,
            },
    ensures
        0 <= member_run(members, n, col).1 <= col + 4 * (usize::MAX / 16) + 120,
    decreases n,
{
    if n > 0 {
        lemma_member_run_bound(members, n - 1, col);
        let prev = member_run(members, n - 1, col);
        match members[n - 1] {
            Address::Address(e) => {
                assert(mailbox_fits(e));
                let folded = prev.1 + mailbox_room(e) >= 76;
                lemma_mailbox_bounds(e, if folded { 1 } else { prev.1 });
            },
            _ => {},
        }
    }
}

proof fn lemma_group_bound(g: GroupedAddresses, col: int)
    requires
        0 <= col,
        group_fits(g),
    ensures
        0 <= group_out(g, col).1 <= col + 7 * (usize::MAX / 16) + 140,
{
    match g.name {
        Some(n) => {
            lemma_rfc2047_len(encode_utf8(n@));
            let r = rfc2047_of(encode_utf8(n@));
            lemma_member_run_bound(g.addresses@, g.addresses@.len() as int, col + r.len() + 2);
        },
        None => {
            lemma_member_run_bound(g.addresses@, g.addresses@.len() as int, col);
        },
    }
}

impl Address {
    /// A mailbox.
    pub fn new_address(name: Option<&str>, email: &str) -> (r: Address)
        ensures
            r matches Address::Address(e) && e.email@ == email@ && (match name {
                Some(n) => e.name matches Some(m) && m@ == n@,
                None => e.name is None,
            }),
    {
        let name = match name {
            Some(n) => Some(n.to_owned()),
            None => None,
        };
        Address::Address(EmailAddress { name, email: email.to_owned() })
    }

    /// A group of addresses.
    pub fn new_group(name: Option<&str>, addresses: Vec<Address>) -> (r: Address)
        ensures
            r matches Address::Group(g) && g.addresses == addresses && (match name {
                Some(n) => g.name matches Some(m) && m@ == n@,
                None => g.name is None,
            }),
    {
        let name = match name {
            Some(n) => Some(n.to_owned()),
            None => None,
        };
        Address::Group(GroupedAddresses { name, addresses })
    }

    /// A list of addresses; lists inside it are replaced by their items, in
    /// order, so that no item is itself a list.
    pub fn new_list(items: Vec<Address>) -> (r: Address)
        ensures
            r matches Address::List(v) && v@ == flat_items(items@) && forall|i: int|
                0 <= i < v@.len() ==> !(#[trigger] v@[i] is List),
    {
        let mut v: Vec<Address> = Vec::new();
        flatten_into(items, &mut v);
        proof {
            lemma_flat_items_no_list(items@);
            assert(v@ =~= flat_items(items@));
        }
        Address::List(v)
    }

    /// The mailbox of an `Address::Address`.
    pub fn unwrap_address(&self) -> (r: &EmailAddress)
        requires
            self is Address,
        ensures
            *r == self->Address_0,
    {
        match self {
            Address::Address(address) => address,
            _ => {
                proof {
                    assert(false);
                }
                unreached()
            },
        }
    }
}

impl Header for EmailAddress {
    open spec fn writable(&self, col: int) -> bool {
        within_limits(col) && mailbox_fits(*self)
    }

    open spec fn header_bytes(&self, col: int) -> Seq<u8> {
        mailbox_out(*self, col).0
    }

    /// The column after the address.
    open spec fn header_col(&self, col: int) -> int {
        mailbox_out(*self, col).1
    }

    fn write_header(&self, output: &mut Vec<u8>, bytes_written: usize) -> (r: usize) {
        let ghost start = output@;
        let email = self.email.as_str().as_bytes();
        let mut col = bytes_written;
        match &self.name {
            Some(name) => {
                proof {
                    lemma_rfc2047_len(encode_utf8(name@));
                }
                let w = rfc2047_encode(name.as_str().as_bytes(), output);
                output.push(32);
                col = col + w + 1;
            },
            None => {},
        }
        output.push(60);
        push_bytes(output, email);
        output.push(62);
        proof {
            assert(final(output)@ =~= start + mailbox_out(*self, bytes_written as int).0);
        }
        col + email.len() + 2
    }
}

/// Writes the members of a group from column `col`.
fn write_members(members: &Vec<Address>, output: &mut Vec<u8>, col: usize) -> (r: usize)
    requires
        col <= 5 * (usize::MAX / 16),
        forall|i: int|
            0 <= i < members@.len() ==> match #[trigger] members@[i] {
                Address::Address(e) => mailbox_fits(e),
                _ => true,
            },
    ensures
        final(output)@ == old(output)@ + member_run(members@, members@.len() as int, col as int).0,
        r == member_run(members@, members@.len() as int, col as int).1,
        r <= col + 4 * (usize::MAX / 16) + 120,
{
    let ghost start = output@;
    let n = members.len();
    let mut c: usize = col;
    let mut pos: usize = 0;
    proof {
        assert(start + Seq::<u8>::empty() =~= start);
    }
    while pos < n
        invariant
            n == members@.len(),
            col <= 5 * (usize::MAX / 16),
            forall|i: int|
                0 <= i < members@.len() ==> match #[trigger] members@[i] {
                    Address::Address(e) => mailbox_fits(e),
                    _ => true,
                },
            pos <= n,
            c <= col + 4 * (usize::MAX / 16) + 120,
            output@ == start + member_run(members@, pos as int, col as int).0,
            c == member_run(members@, pos as int, col as int).1,
        decreases n - pos,
    {
        let ghost before = output@;
        match &members[pos] {
            Address::Address(e) => {
                assert(mailbox_fits(*e));
                let room = e.email.as_str().len() + match &e.name {
                    Some(nm) => nm.as_str().len() + 3,
                    None => 0,
                } + 2;
                let folded = c + room >= 76;
                if folded {
                    push_fold(output);
                    c = 1;
                }
                proof {
                    lemma_mailbox_bounds(*e, c as int);
                }
                c = e.write_header(output, c);
                if pos + 1 < n {
                    push_bytes(output, &[44u8, 32]);
                    c = c + 2;
                }
                proof {
                    assert(output@ =~= start + member_run(members@, pos + 1, col as int).0);
                }
            },
            _ => {},
        }
        pos = pos + 1;
    }
    c
}

impl Header for GroupedAddresses {
    open spec fn writable(&self, col: int) -> bool {
        within_limits(col) && group_fits(*self)
    }

    open spec fn header_bytes(&self, col: int) -> Seq<u8> {
        group_out(*self, col).0
    }

    /// The column after the group.
    open spec fn header_col(&self, col: int) -> int {
        group_out(*self, col).1
    }

    fn write_header(&self, output: &mut Vec<u8>, bytes_written: usize) -> (r: usize) {
        let ghost start = output@;
        let mut col = bytes_written;
        match &self.name {
            Some(name) => {
                proof {
                    lemma_rfc2047_len(encode_utf8(name@));
                }
                let w = rfc2047_encode(name.as_str().as_bytes(), output);
                push_bytes(output, &[58u8, 32]);
                col = col + w + 2;
            },
            None => {},
        }
        let r = write_members(&self.addresses, output, col);
        proof {
            assert(final(output)@ =~= start + group_out(*self, bytes_written as int).0);
        }
        r
    }
}

proof fn lemma_list_item_bound(item: Address, last: bool, col: int)
    requires
        0 <= col <= 8 * (usize::MAX / 16) + 300,
        item_fits(item),
    ensures
        0 <= list_item_out(item, last, col).1 <= 8 * (usize::MAX / 16) + 300,
{
    match item {
        Address::Address(e) => {
            let folded = col + mailbox_room(e) >= 76;
            lemma_mailbox_bounds(e, if folded { 1 } else { col });
        },
        Address::Group(g) => {
            let folded = col + name_len(g.name, 2) >= 76;
            lemma_group_bound(g, if folded { 1 } else { col });
        },
        Address::List(_) => {},
    }
}

/// Writes one item of an address list from column `col`.
fn write_list_item(item: &Address, last: bool, output: &mut Vec<u8>, col: usize) -> (r: usize)
    requires
        col <= 8 * (usize::MAX / 16) + 300,
        item_fits(*item),
    ensures
        final(output)@ == old(output)@ + list_item_out(*item, last, col as int).0,
        r == list_item_out(*item, last, col as int).1,
        r <= 8 * (usize::MAX / 16) + 300,
{
    proof {
        lemma_list_item_bound(*item, last, col as int);
    }
    let ghost start = output@;
    let mut c = col;
    match item {
        Address::Address(e) => {
            let room = e.email.as_str().len() + match &e.name {
                Some(nm) => nm.as_str().len() + 3,
                None => 0,
            } + 2;
            if c + room >= 76 {
                push_fold(output);
                c = 1;
            }
            c = e.write_header(output, c);
            if !last {
                push_bytes(output, &[44u8, 32]);
                c = c + 2;
            }
        },
        Address::Group(g) => {
            let room = match &g.name {
                Some(nm) => nm.as_str().len() + 2,
                None => 0,
            };
            if c + room >= 76 {
                push_fold(output);
                c = 1;
            }
            c = g.write_header(output, c);
            if !last {
                push_bytes(output, &[59u8, 32]);
                c = c + 2;
            }
        },
        Address::List(_) => {},
    }
    proof {
        assert(final(output)@ =~= start + list_item_out(*item, last, col as int).0);
    }
    c
}

/// Writes the items of an address list from column `col`.
fn write_list(items: &Vec<Address>, output: &mut Vec<u8>, col: usize)
    requires
        within_limits(col as int),
        forall|i: int| 0 <= i < items@.len() ==> item_fits(#[trigger] items@[i]),
    ensures
        final(output)@ == old(output)@ + list_run(items@, items@.len() as int, col as int).0,
{
    let ghost start = output@;
    let n = items.len();
    let mut c: usize = col;
    let mut pos: usize = 0;
    proof {
        assert(start + Seq::<u8>::empty() =~= start);
    }
    while pos < n
        invariant
            n == items@.len(),
            forall|i: int| 0 <= i < items@.len() ==> item_fits(#[trigger] items@[i]),
            pos <= n,
            c <= 8 * (usize::MAX / 16) + 300,
            output@ == start + list_run(items@, pos as int, col as int).0,
            c == list_run(items@, pos as int, col as int).1,
        decreases n - pos,
    {
        assert(item_fits(items@[pos as int]));
        c = write_list_item(&items[pos], pos + 1 >= n, output, c);
        proof {
            assert(output@ =~= start + list_run(items@, pos + 1, col as int).0);
        }
        pos = pos + 1;
    }
}

impl Header for Address {
    open spec fn writable(&self, col: int) -> bool {
        within_limits(col) && address_fits(*self)
    }

    open spec fn header_bytes(&self, col: int) -> Seq<u8> {
        (match *self {
            Address::Address(e) => mailbox_out(e, col).0,
            Address::Group(g) => group_out(g, col).0,
            Address::List(items) => list_run(items@, items@.len() as int, col).0,
        }) + crlf()
    }

    open spec fn header_col(&self, col: int) -> int {
        0
    }

    fn write_header(&self, output: &mut Vec<u8>, bytes_written: usize) -> (r: usize) {
        let ghost start = output@;
        match self {
            Address::Address(e) => {
                e.write_header(output, bytes_written);
            },
            Address::Group(g) => {
                g.write_header(output, bytes_written);
            },
            Address::List(items) => {
                write_list(items, output, bytes_written);
            },
        }
        push_bytes(output, &[13u8, 10]);
        proof {
            assert(final(output)@ =~= start + self.header_bytes(bytes_written as int));
        }
        0
    }
}

} // verus!
