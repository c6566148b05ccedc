//! Pax extensions: lines of the form `<length> <key>=<value>` that describe an entry.
use crate::bytes::{find_byte, first_index, lemma_first_index, same_bytes};
use crate::error::{other, plain_error, Error, ErrorKind};
use vstd::prelude::*;
use vstd::slice::slice_subrange;

verus! {

/// The end of a line.
pub const NEWLINE: u8 = 0x0a;

/// What stands between the length of a record and its key.
pub const SPACE: u8 = 0x20;

/// What stands between a key and its value.
pub const EQUALS: u8 = 0x3d;

/// The sign that a length may begin with.
pub const PLUS: u8 = 0x2b;

/// Whether the byte is a decimal figure.
pub open spec fn is_digit(b: u8) -> bool {
    0x30 <= b <= 0x39
}

/// The number that a row of decimal figures stands for.
pub open spec fn digits_value(s: Seq<u8>) -> nat
    decreases s.len(),
{
    if s.len() == 0 {
        0
    } else {
        digits_value(s.drop_last()) * 10 + (s.last() - 0x30) as nat
    }
}

/// Whether there is at least one byte, and every byte is a decimal figure.
pub open spec fn is_number(s: Seq<u8>) -> bool {
    s.len() != 0 && forall|j: int| 0 <= j < s.len() ==> is_digit(#[trigger] s[j])
}

/// What follows the sign of a numeral.
pub open spec fn unsigned_part(s: Seq<u8>) -> Seq<u8> {
    if s.len() != 0 && s[0] == PLUS {
        s.skip(1)
    } else {
        s
    }
}

/// The number that a decimal numeral stands for: at least one figure, after an optional `+`.
pub open spec fn decimal(s: Seq<u8>) -> Option<nat> {
    if is_number(unsigned_part(s)) {
        Some(digits_value(unsigned_part(s)))
    } else {
        None
    }
}

proof fn lemma_digits_grow(s: Seq<u8>, k: int)
    requires
        0 <= k <= s.len(),
        forall|j: int| 0 <= j < s.len() ==> is_digit(#[trigger] s[j]),
    ensures
        digits_value(s.take(k)) <= digits_value(s),
    decreases s.len() - k,
{
    if k < s.len() {
        lemma_digits_grow(s, k + 1);
        assert(s.take(k + 1).drop_last() =~= s.take(k));
    } else {
        assert(s.take(k) =~= s);
    }
}

/// Reads a decimal numeral.
fn read_decimal(s: &[u8]) -> (r: Option<usize>)
    ensures
        r is Some <==> decimal(s@) is Some && decimal(s@)->0 <= usize::MAX,
        r matches Some(n) ==> decimal(s@) == Some(n as nat),
{
    let t: &[u8] = if s.len() > 0 && s[0] == PLUS {
        slice_subrange(s, 1, s.len())
    } else {
        s
    };
    assert(t@ =~= unsigned_part(s@));
    if t.len() == 0 {
        return None;
    }
    let mut n: usize = 0;
    let mut i: usize = 0;
    while i < t.len()
        invariant
            0 <= i <= t@.len(),
            t@.len() != 0,
            forall|j: int| 0 <= j < i ==> is_digit(#[trigger] t@[j]),
            n == digits_value(t@.take(i as int)),
            t@ == unsigned_part(s@),
        decreases t@.len() - i,
    {
        let b: u8 = t[i];
        if b < 0x30 || b > 0x39 {
            assert(!is_digit(t@[i as int]));
            return None;
        }
        let d: usize = (b - 0x30) as usize;
        assert(t@.take(i + 1).drop_last() =~= t@.take(i as int));
        proof {
            if decimal(s@) is Some {
                lemma_digits_grow(t@, i + 1);
            }
        }
        if n > (usize::MAX - d) / 10 {
            assert(n * 10 + d > usize::MAX);
            return None;
        }
        n = n * 10 + d;
        i = i + 1;
    }
    assert(t@.take(i as int) =~= t@);
    Some(n)
}

/// The first line of `s`, without its end.
pub open spec fn line_of(s: Seq<u8>) -> Seq<u8> {
    s.take(first_index(s, NEWLINE))
}

/// What follows the first line of `s`.
pub open spec fn after_line(s: Seq<u8>) -> Seq<u8> {
    let i = first_index(s, NEWLINE);
    if i < s.len() {
        s.skip(i + 1)
    } else {
        Seq::empty()
    }
}

/// The key and the value of a line, where it is well-formed: it begins with its own length, end
/// included, and a space, and the key ends at the first `=`. A length always fits a `usize`.
pub open spec fn record_of(line: Seq<u8>) -> Option<(Seq<u8>, Seq<u8>)> {
    let i = first_index(line, SPACE);
    let pair = line.skip(i + 1);
    let e = first_index(pair, EQUALS);
    if i < line.len() < usize::MAX && decimal(line.take(i)) == Some((line.len() + 1) as nat) && e
        < pair.len() {
        Some((pair.take(e), pair.skip(e + 1)))
    } else {
        None
    }
}

/// The lines of `s` up to the first empty one, each with its record or with `None` where it is
/// malformed.
pub open spec fn records_of(s: Seq<u8>) -> Seq<Option<(Seq<u8>, Seq<u8>)>>
    decreases s.len(),
{
    if s.len() == 0 || line_of(s).len() == 0 {
        Seq::empty()
    } else {
        proof {
            lemma_first_index(s, NEWLINE);
        }
        seq![record_of(line_of(s))] + records_of(after_line(s))
    }
}

/// The value of the first well-formed record with the given key.
pub open spec fn first_value(
    records: Seq<Option<(Seq<u8>, Seq<u8>)>>,
    key: Seq<u8>,
) -> Option<Seq<u8>>
    decreases records.len(),
{
    if records.len() == 0 {
        None
    } else {
        match records[0] {
            Some((k, v)) if k == key => Some(v),
            _ => first_value(records.skip(1), key),
        }
    }
}

/// One extension: a key and its value.
#[derive(Debug, PartialEq, Eq)]
pub struct PaxExtension<'a> {
    key: &'a [u8],
    value: &'a [u8],
}

impl<'a> PaxExtension<'a> {
    /// The key and the value.
    pub closed spec fn record(self) -> (Seq<u8>, Seq<u8>) {
        (self.key@, self.value@)
    }

    /// The key.
    pub fn key_bytes(&self) -> (r: &'a [u8])
        ensures
            r@ == self.record().0,
    {
        self.key
    }

    /// The value.
    pub fn value_bytes(&self) -> (r: &'a [u8])
        ensures
            r@ == self.record().1,
    {
        self.value
    }
}

/// The extensions in a block of pax data, handed out one after the other.
#[derive(Debug)]
pub struct PaxExtensions<'a> {
    rest: &'a [u8],
}

impl<'a> PaxExtensions<'a> {
    /// The data not yet handed out.
    pub closed spec fn remaining(self) -> Seq<u8> {
        self.rest@
    }

    /// Starts at the beginning of `data`.
    pub fn new(data: &'a [u8]) -> (r: PaxExtensions<'a>)
        ensures
            r.remaining() == data@,
    {
        PaxExtensions { rest: data }
    }

    /// Hands out the next line: its record, or an error where it is malformed. There is none
    /// at an empty line or at the end of the data.
    pub fn next(&mut self) -> (r: Option<Result<PaxExtension<'a>, Error>>)
        ensures
            final(self).remaining() == after_line(old(self).remaining()),
            r is None <==> line_of(old(self).remaining()).len() == 0,
            r matches Some(Ok(x)) ==> record_of(line_of(old(self).remaining())) == Some(x.record()),
            r matches Some(Err(e)) ==> {
                &&& record_of(line_of(old(self).remaining())) is None
                &&& e@ == plain_error(ErrorKind::Other, "malformed pax extension"@)
            },
    {
        let all: &'a [u8] = self.rest;
        let n: usize = find_byte(all, NEWLINE);
        let line: &'a [u8] = slice_subrange(all, 0, n);
        assert(line@ =~= line_of(all@));
        if n < all.len() {
            self.rest = slice_subrange(all, n + 1, all.len());
            assert(self.rest@ =~= after_line(all@));
        } else {
            self.rest = slice_subrange(all, n, n);
            assert(self.rest@ =~= after_line(all@));
        }
        if n == 0 {
            return None;
        }
        match read_record(line) {
            Some(x) => Some(Ok(x)),
            None => Some(Err(other("malformed pax extension".to_owned()))),
        }
    }
}

/// Reads the record on a line.
fn read_record<'a>(line: &'a [u8]) -> (r: Option<PaxExtension<'a>>)
    ensures
        r is Some <==> record_of(line@) is Some,
        r matches Some(x) ==> record_of(line@) == Some(x.record()),
{
    let n: usize = line.len();
    let i: usize = find_byte(line, SPACE);
    if i == n {
        return None;
    }
    let length: &[u8] = slice_subrange(line, 0, i);
    assert(length@ =~= line@.take(i as int));
    match read_decimal(length) {
        Some(reported) => {
            if reported == 0 || reported - 1 != n {
                return None;
            }
        },
        None => {
            return None;
        },
    }
    let pair: &'a [u8] = slice_subrange(line, i + 1, n);
    assert(pair@ =~= line@.skip(i + 1));
    let e: usize = find_byte(pair, EQUALS);
    if e == pair.len() {
        return None;
    }
    let x: PaxExtension<'a> = PaxExtension {
        key: slice_subrange(pair, 0, e),
        value: slice_subrange(pair, e + 1, pair.len()),
    };
    assert(x.key@ =~= pair@.take(e as int));
    assert(x.value@ =~= pair@.skip(e + 1));
    Some(x)
}

/// Finds the value of the first well-formed record in `data` with the given key.
pub fn find_value<'a>(data: &'a [u8], key: &[u8]) -> (r: Option<&'a [u8]>)
    ensures
        r is Some <==> first_value(records_of(data@), key@) is Some,
        r matches Some(v) ==> first_value(records_of(data@), key@) == Some(v@),
{
    let mut all: PaxExtensions<'a> = PaxExtensions::new(data);
    loop
        invariant
            first_value(records_of(data@), key@) == first_value(
                records_of(all.remaining()),
                key@,
            ),
        decreases all.remaining().len(),
    {
        let ghost s = all.remaining();
        proof {
            lemma_first_index(s, NEWLINE);
        }
        match all.next() {
            None => {
                return None;
            },
            Some(item) => {
                let ghost records = records_of(s);
                assert(records.skip(1) =~= records_of(after_line(s)));
                if let Ok(x) = item {
                    if same_bytes(x.key_bytes(), key) {
                        return Some(x.value_bytes());
                    }
                }
            },
        }
    }
}

/// What the keys of extended attributes begin with: `SCHILY.xattr.`.
pub open spec fn xattr_prefix() -> Seq<u8> {
    seq![
        0x53u8, 0x43u8, 0x48u8, 0x49u8, 0x4cu8, 0x59u8, 0x2eu8,
        0x78u8, 0x61u8, 0x74u8, 0x74u8, 0x72u8, 0x2eu8,
    ]
}

/// The extended attributes among the records, in their order: the names, without what the keys
/// begin with, and the values.
pub open spec fn xattrs_in(records: Seq<Option<(Seq<u8>, Seq<u8>)>>) -> Seq<(Seq<u8>, Seq<u8>)>
    decreases records.len(),
{
    if records.len() == 0 {
        Seq::empty()
    } else {
        match records[0] {
            Some((k, v)) if xattr_prefix().is_prefix_of(k) => seq![
                (k.skip(xattr_prefix().len() as int), v),
            ] + xattrs_in(records.skip(1)),
            _ => xattrs_in(records.skip(1)),
        }
    }
}

/// The name of an extended attribute, where the key is that of one.
fn strip_xattr_prefix<'a>(key: &'a [u8]) -> (r: Option<&'a [u8]>)
    ensures
        r is Some <==> xattr_prefix().is_prefix_of(key@),
        r matches Some(name) ==> name@ == key@.skip(xattr_prefix().len() as int),
{
    let prefix: [u8; 13] = [
        0x53, 0x43, 0x48, 0x49, 0x4c, 0x59, 0x2e, 0x78, 0x61, 0x74, 0x74, 0x72, 0x2e,
    ];
    assert(prefix@ =~= xattr_prefix());
    if key.len() < 13 {
        return None;
    }
    let start: &[u8] = slice_subrange(key, 0, 13);
    if same_bytes(start, prefix.as_slice()) {
        assert(key@.take(13) =~= start@);
        let name: &'a [u8] = slice_subrange(key, 13, key.len());
        assert(name@ =~= key@.skip(13));
        Some(name)
    } else {
        assert(!xattr_prefix().is_prefix_of(key@)) by {
            if xattr_prefix().is_prefix_of(key@) {
                assert(start@ =~= xattr_prefix());
            }
        }
        None
    }
}

/// The first extended attribute in a block of pax data: its name, its value, and the data that
/// follows it.
pub open spec fn next_xattr(s: Seq<u8>) -> Option<(Seq<u8>, Seq<u8>, Seq<u8>)>
    decreases s.len(),
{
    if s.len() == 0 || line_of(s).len() == 0 {
        None
    } else {
        proof {
            lemma_first_index(s, NEWLINE);
        }
        match record_of(line_of(s)) {
            Some((k, v)) if xattr_prefix().is_prefix_of(k) => Some(
                (k.skip(xattr_prefix().len() as int), v, after_line(s)),
            ),
            _ => next_xattr(after_line(s)),
        }
    }
}

/// Asking for the next extended attribute again and again gives them all, in their order.
pub proof fn law_next_xattr(s: Seq<u8>)
    ensures
        match next_xattr(s) {
            None => xattrs_in(records_of(s)).len() == 0,
            Some((k, v, rest)) => {
                &&& xattrs_in(records_of(s)) == seq![(k, v)] + xattrs_in(records_of(rest))
                &&& rest.len() < s.len()
            },
        },
    decreases s.len(),
{
    if s.len() != 0 && line_of(s).len() != 0 {
        lemma_first_index(s, NEWLINE);
        assert(records_of(s).skip(1) =~= records_of(after_line(s)));
        law_next_xattr(after_line(s));
    }
}

/// Finds the first extended attribute in a block of pax data.
pub fn find_xattr<'a>(data: &'a [u8]) -> (r: Option<(&'a [u8], &'a [u8], &'a [u8])>)
    ensures
        r is Some <==> next_xattr(data@) is Some,
        r matches Some((k, v, rest)) ==> next_xattr(data@) == Some((k@, v@, rest@)),
{
    let mut all: PaxExtensions<'a> = PaxExtensions::new(data);
    loop
        invariant
            next_xattr(data@) == next_xattr(all.remaining()),
        decreases all.remaining().len(),
    {
        proof {
            lemma_first_index(all.remaining(), NEWLINE);
        }
        match all.next() {
            None => {
                return None;
            },
            Some(item) => {
                if let Ok(x) = item {
                    if let Some(name) = strip_xattr_prefix(x.key_bytes()) {
                        return Some((name, x.value_bytes(), all.rest));
                    }
                }
            },
        }
    }
}

} // verus!
