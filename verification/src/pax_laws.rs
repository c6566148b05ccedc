//! What holds of pax extensions and of the names that they give, said of their bytes.
use crate::bytes::{first_index, lemma_first_index, lemma_first_index_is};
use crate::entry::{linkpath_key, path_key, without_nul, EntryFields, PaxAccess};
use crate::header::EntryType;
use crate::host::{path_on, Host};
use crate::pax::{
    after_line, decimal, digits_value, first_value, is_digit, line_of, record_of, records_of,
    unsigned_part, xattr_prefix, xattrs_in,
};
use vstd::prelude::*;

verus! {

/// A record: a key and its value, or none where a line is malformed.
pub type Record = Option<(Seq<u8>, Seq<u8>)>;

/// What follows a `+`, where there is one.
pub open spec fn behind_plus(s: Seq<u8>) -> Seq<u8> {
    if s.len() > 0 && s[0] == 0x2b {
        s.skip(1)
    } else {
        s
    }
}

/// Whether there are one or more figures, and nothing else.
pub open spec fn are_figures(s: Seq<u8>) -> bool {
    s.len() > 0 && forall|i: int| 0 <= i < s.len() ==> 0x30 <= #[trigger] s[i] <= 0x39
}

/// A numeral is one or more figures, perhaps after a `+`, and nothing else is one.
pub proof fn law_numerals(s: Seq<u8>)
    ensures
        decimal(s) is Some <==> are_figures(behind_plus(s)),
        s.len() > 0 && s[0] != 0x2b ==> decimal(seq![0x2bu8] + s) == decimal(s),
{
    let digits = unsigned_part(s);
    assert(digits =~= behind_plus(s));
    if decimal(s) is Some {
        assert forall|i: int| 0 <= i < digits.len() implies 0x30 <= #[trigger] digits[i] <= 0x39 by {
            assert(is_digit(digits[i]));
        }
    }
    if are_figures(digits) {
        assert forall|i: int| 0 <= i < digits.len() implies is_digit(
            #[trigger] digits[i],
        ) by {}
    }
    if s.len() > 0 && s[0] != 0x2b {
        assert((seq![0x2bu8] + s).skip(1) =~= s);
    }
}

/// A figure stands for its number, and a figure behind a numeral for that much more than ten times
/// what the numeral stands for, however long it is.
pub proof fn law_numeral_value(s: Seq<u8>, figure: u8)
    requires
        0x30 <= figure <= 0x39,
    ensures
        decimal(seq![figure]) == Some((figure - 0x30) as nat),
        decimal(s) matches Some(n) ==> decimal(s.push(figure)) == Some(
            (10 * n + (figure - 0x30)) as nat,
        ),
{
    let one = seq![figure];
    assert(one.drop_last() =~= Seq::empty());
    assert(unsigned_part(one) =~= one);
    reveal_with_fuel(digits_value, 2);
    assert(decimal(one) == Some((figure - 0x30) as nat));
    if decimal(s) is Some {
        let digits = unsigned_part(s);
        let longer = unsigned_part(s.push(figure));
        assert(longer =~= digits.push(figure));
        assert(longer.drop_last() =~= digits);
        assert forall|j: int| 0 <= j < longer.len() implies is_digit(
            #[trigger] longer[j],
        ) by {
            if j < digits.len() {
                assert(longer[j] == digits[j]);
            }
        }
    }
}

/// The line of a record: its length, its key and its value.
pub open spec fn line_with(numeral: Seq<u8>, key: Seq<u8>, value: Seq<u8>) -> Seq<u8> {
    numeral + seq![0x20u8] + key + seq![0x3du8] + value
}

/// A line that says its own length gives its key and its value, however long they are and whatever
/// they hold, but for a `=` in the key.
pub proof fn law_record_read(numeral: Seq<u8>, key: Seq<u8>, value: Seq<u8>)
    requires
        line_with(numeral, key, value).len() < usize::MAX,
        decimal(numeral) == Some((line_with(numeral, key, value).len() + 1) as nat),
        forall|i: int| 0 <= i < key.len() ==> #[trigger] key[i] != 0x3d,
    ensures
        record_of(line_with(numeral, key, value)) == Some((key, value)),
{
    let line = line_with(numeral, key, value);
    let i = numeral.len() as int;
    law_numerals(numeral);
    assert(forall|j: int| 0 <= j < i ==> line[j] == numeral[j]);
    assert forall|j: int| 0 <= j < i implies line[j] != 0x20 by {
        if j > 0 || numeral[0] != 0x2b {
            let digits = unsigned_part(numeral);
            if numeral[0] == 0x2b {
                assert(digits[j - 1] == numeral[j]);
            } else {
                assert(digits[j] == numeral[j]);
            }
        }
    }
    lemma_first_index_is(line, 0x20, i);
    assert(line.take(i) =~= numeral);
    let pair = line.skip(i + 1);
    assert(pair =~= key + seq![0x3du8] + value);
    lemma_first_index_is(pair, 0x3d, key.len() as int);
    assert(pair.take(key.len() as int) =~= key);
    assert(pair.skip(key.len() as int + 1) =~= value);
}

/// A line gives a key and a value only where it is made of its own length, these, and what stands
/// between them.
pub proof fn law_record_is(line: Seq<u8>)
    ensures
        record_of(line) matches Some((key, value)) ==> exists|numeral: Seq<u8>|
            {
                &&& line == #[trigger] line_with(numeral, key, value)
                &&& decimal(numeral) == Some((line.len() + 1) as nat)
                &&& forall|i: int| 0 <= i < key.len() ==> #[trigger] key[i] != 0x3d
            },
{
    if let Some((key, value)) = record_of(line) {
        let i = first_index(line, 0x20);
        lemma_first_index(line, 0x20);
        let pair = line.skip(i + 1);
        let e = first_index(pair, 0x3d);
        lemma_first_index(pair, 0x3d);
        let numeral = line.take(i);
        assert(line =~= line_with(numeral, key, value));
    }
}

/// Lines are read one after the other, up to their ends; an empty one ends the data, and the last
/// one needs no end.
pub proof fn law_lines(line: Seq<u8>, rest: Seq<u8>)
    requires
        forall|i: int| 0 <= i < line.len() ==> #[trigger] line[i] != 0x0a,
    ensures
        line_of(line + seq![0x0au8] + rest) == line,
        after_line(line + seq![0x0au8] + rest) == rest,
        line_of(line) == line,
        after_line(line).len() == 0,
        line.len() > 0 ==> records_of(line + seq![0x0au8] + rest) == seq![record_of(line)]
            + records_of(rest),
        line.len() > 0 ==> records_of(line) == seq![record_of(line)],
        line.len() == 0 ==> records_of(line + seq![0x0au8] + rest).len() == 0,
        line.len() == 0 ==> records_of(line).len() == 0,
{
    let all = line + seq![0x0au8] + rest;
    let n = line.len() as int;
    assert(forall|j: int| 0 <= j < n ==> all[j] == line[j]);
    assert(all[n] == 0x0a);
    lemma_first_index_is(all, 0x0a, n);
    lemma_first_index_is(line, 0x0a, n);
    assert(all.take(n) =~= line);
    assert(all.skip(n + 1) =~= rest);
    assert(line.take(n) =~= line);
    assert(records_of(Seq::empty()) =~= Seq::empty());
    if n > 0 {
        assert(records_of(line) =~= seq![record_of(line)]);
    }
}

/// Lines with their ends, one after the other.
pub open spec fn text_of(lines: Seq<Seq<u8>>) -> Seq<u8>
    decreases lines.len(),
{
    if lines.len() == 0 {
        Seq::empty()
    } else {
        lines[0] + seq![0x0au8] + text_of(lines.skip(1))
    }
}

/// The records of a row of lines are those of each line, in their order and however many there are.
pub proof fn law_records(lines: Seq<Seq<u8>>)
    requires
        forall|i: int| 0 <= i < lines.len() ==> (#[trigger] lines[i]).len() > 0,
        forall|i: int, j: int|
            0 <= i < lines.len() && 0 <= j < lines[i].len() ==> #[trigger] lines[i][j] != 0x0a,
    ensures
        records_of(text_of(lines)) == lines.map_values(|line: Seq<u8>| record_of(line)),
    decreases lines.len(),
{
    let f = |line: Seq<u8>| record_of(line);
    if lines.len() == 0 {
        assert(records_of(Seq::empty()) =~= Seq::empty());
        assert(lines.map_values(f) =~= Seq::empty());
    } else {
        let rest = lines.skip(1);
        assert forall|i: int| 0 <= i < rest.len() implies (#[trigger] rest[i]).len() > 0 by {
            assert(rest[i] == lines[i + 1]);
        }
        assert forall|i: int, j: int|
            0 <= i < rest.len() && 0 <= j < rest[i].len() implies #[trigger] rest[i][j] != 0x0a by {
            assert(lines[i + 1][j] != 0x0a);
        }
        assert forall|i: int| 0 <= i < lines[0].len() implies #[trigger] lines[0][i] != 0x0a by {}
        law_records(rest);
        law_lines(lines[0], text_of(rest));
        assert(lines[0].len() > 0);
        assert(records_of(text_of(lines)) =~= lines.map_values(f));
    }
}

/// The value that counts for a key is that of the first record with exactly this key, and there is
/// none only where no record has it.
pub proof fn law_first_value(records: Seq<Record>, key: Seq<u8>)
    ensures
        match first_value(records, key) {
            Some(v) => exists|i: int|
                {
                    &&& 0 <= i < records.len()
                    &&& #[trigger] records[i] == Some((key, v))
                    &&& forall|j: int|
                        0 <= j < i ==> (#[trigger] records[j] matches Some((k, _)) ==> k != key)
                },
            None => forall|j: int|
                0 <= j < records.len() ==> (#[trigger] records[j] matches Some((k, _)) ==> k
                    != key),
        },
    decreases records.len(),
{
    if records.len() > 0 {
        let rest = records.skip(1);
        let here = match records[0] {
            Some((k, _)) => k == key,
            None => false,
        };
        if !here {
            law_first_value(rest, key);
            match first_value(rest, key) {
                Some(v) => {
                    let i = choose|i: int|
                        {
                            &&& 0 <= i < rest.len()
                            &&& #[trigger] rest[i] == Some((key, v))
                            &&& forall|j: int|
                                0 <= j < i ==> (#[trigger] rest[j] matches Some((k, _)) ==> k
                                    != key)
                        };
                    assert(records[i + 1] == Some((key, v)));
                    assert forall|j: int| 0 <= j < i + 1 implies (
                    #[trigger] records[j] matches Some((k, _)) ==> k != key) by {
                        if j > 0 {
                            assert(rest[j - 1] == records[j]);
                        }
                    }
                },
                None => {
                    assert forall|j: int| 0 <= j < records.len() implies (
                    #[trigger] records[j] matches Some((k, _)) ==> k != key) by {
                        if j > 0 {
                            assert(rest[j - 1] == records[j]);
                        }
                    }
                },
            }
        }
    }
}

/// The bytes `SCHILY.xattr.`, with which the keys of extended attributes begin.
pub open spec fn attribute_mark() -> Seq<u8> {
    seq![0x53u8, 0x43, 0x48, 0x49, 0x4c, 0x59, 0x2e, 0x78, 0x61, 0x74, 0x74, 0x72, 0x2e]
}

/// The extended attribute that a record gives.
pub open spec fn attribute_in(record: Record) -> Option<(Seq<u8>, Seq<u8>)> {
    match record {
        Some((k, v)) => if attribute_mark().is_prefix_of(k) {
            Some((k.skip(13), v))
        } else {
            None
        },
        None => None,
    }
}

/// The extended attributes among records are those of each record that gives one, in their order.
pub proof fn law_attributes(records: Seq<Record>)
    ensures
        xattrs_in(records) == records.filter_map(|record: Record| attribute_in(record)),
    decreases records.len(),
{
    let f = |record: Record| attribute_in(record);
    assert(xattr_prefix() =~= attribute_mark());
    if records.len() == 0 {
        assert(records.filter_map(f) =~= Seq::empty());
    } else {
        let first = seq![records[0]];
        let rest = records.skip(1);
        law_attributes(rest);
        lemma_filter_map_split(first, rest);
        assert(records =~= first + rest);
        assert(first.drop_last() =~= Seq::empty());
        assert(first.drop_last().filter_map(f) =~= Seq::empty());
        match attribute_in(records[0]) {
            Some(x) => {
                assert(first.filter_map(f) =~= seq![x]);
            },
            None => {
                assert(first.filter_map(f) =~= Seq::empty());
            },
        }
        assert(xattrs_in(records) =~= records.filter_map(f));
    }
}

proof fn lemma_filter_map_split(a: Seq<Record>, b: Seq<Record>)
    ensures
        (a + b).filter_map(|record: Record| attribute_in(record)) == a.filter_map(
            |record: Record| attribute_in(record),
        ) + b.filter_map(|record: Record| attribute_in(record)),
    decreases b.len(),
{
    let f = |record: Record| attribute_in(record);
    if b.len() == 0 {
        assert(a + b =~= a);
        assert(b.filter_map(f) =~= Seq::empty());
        assert(a.filter_map(f) + b.filter_map(f) =~= a.filter_map(f));
    } else {
        lemma_filter_map_split(a, b.drop_last());
        assert((a + b).drop_last() =~= a + b.drop_last());
        assert((a + b).last() == b.last());
        assert((a + b).filter_map(f) =~= a.filter_map(f) + b.filter_map(f));
    }
}

/// A name, without one zero byte at its end.
pub open spec fn trimmed(name: Seq<u8>) -> Seq<u8> {
    if name.len() > 0 && name[name.len() - 1] == 0 {
        name.take(name.len() - 1)
    } else {
        name
    }
}

/// The path of an entry is the long name given for it, whatever else there is; else the first `path`
/// of its pax extensions, whatever the header says; and that of the header only where neither is
/// there.
pub proof fn law_path_sources(entry: EntryFields)
    ensures
        match (entry.long_pathname, entry.pax_extensions) {
            (Some(name), _) => entry.listed_path() == trimmed(name@),
            (None, Some(pax)) => match first_value(
                records_of(pax@),
                seq![0x70u8, 0x61, 0x74, 0x68],
            ) {
                Some(name) => entry.listed_path() == name,
                None => entry.listed_path() == entry.header.path@,
            },
            (None, None) => entry.listed_path() == entry.header.path@,
        },
{
    assert(path_key() =~= seq![0x70u8, 0x61, 0x74, 0x68]);
    if let Some(name) = entry.long_pathname {
        assert(without_nul(name@) =~= trimmed(name@));
    }
}

/// The link target of an entry is the long one given for it, whatever else there is; else the first
/// `linkpath` of its pax extensions, whatever the header says; and that of the header, if it has
/// one, only where neither is there.
pub proof fn law_link_sources(entry: EntryFields)
    ensures
        ({
            let header = match entry.header.link_name {
                Some(name) => Some(name@),
                None => None,
            };
            match (entry.long_linkname, entry.pax_extensions) {
                (Some(name), _) => entry.listed_link() == Some(trimmed(name@)),
                (None, Some(pax)) => match first_value(
                    records_of(pax@),
                    seq![0x6cu8, 0x69, 0x6e, 0x6b, 0x70, 0x61, 0x74, 0x68],
                ) {
                    Some(name) => entry.listed_link() == Some(name),
                    None => entry.listed_link() == header,
                },
                (None, None) => entry.listed_link() == header,
            }
        }),
{
    assert(linkpath_key() =~= seq![
        0x6cu8,
        0x69,
        0x6e,
        0x6b,
        0x70,
        0x61,
        0x74,
        0x68,
    ]);
    if let Some(name) = entry.long_linkname {
        assert(without_nul(name@) =~= trimmed(name@));
    }
}

/// The target of a link is there exactly where one is listed, and is what the listed name stands for
/// as a path.
pub proof fn law_link_path(entry: EntryFields, host: Host)
    ensures
        match entry.listed_link() {
            None => entry.link_path(host) matches Ok(target) && target is None,
            Some(name) => match path_on(name, host) {
                Ok(path) => entry.link_path(host) matches Ok(target) && target == Some(path),
                Err(e) => entry.link_path(host) matches Err(same) && same == e,
            },
        },
{
}

/// Pax extensions are at hand where they were given or kept; else they are to be read where the
/// entry holds them, local or global; and else there are none.
pub proof fn law_pax_access(entry: EntryFields)
    ensures
        match entry.pax_extensions {
            Some(pax) => entry.pax_access() == PaxAccess::Known(pax@),
            None => match entry.header.entry_type {
                EntryType::XHeader | EntryType::XGlobalHeader => entry.pax_access() is Unread,
                _ => entry.pax_access() is Absent,
            },
        },
{
}

} // verus!
