use tar_entry::entry::{Entry, EntryFields, EntryIo, PaxAccess};
use tar_entry::error::{other, Error, ErrorKind};
use tar_entry::header::{EntryType, Header};
use tar_entry::host::Host;
use tar_entry::reading::{preallocated, Polled};

const UNIX: Host = Host::Unix { xattrs: true };

fn header(entry_type: EntryType, path: &str) -> Header {
    Header {
        bytes: b"head".to_vec(),
        path: path.as_bytes().to_vec(),
        link_name: None,
        entry_type,
        ustar: true,
        uid: Ok(1),
        gid: Ok(2),
        mode: Ok(0o644),
        mtime: Ok(3),
    }
}

fn fields(header: Header) -> EntryFields {
    EntryFields {
        long_pathname: None,
        long_linkname: None,
        pax_extensions: None,
        header,
        size: 0,
        header_pos: 0,
        file_pos: 0,
        data: vec![],
        unpack_xattrs: false,
        preserve_permissions: false,
        preserve_ownerships: false,
        preserve_mtime: true,
        overwrite: true,
    }
}

fn regular(path: &str) -> EntryFields {
    fields(header(EntryType::Regular, path))
}

fn with_pax(pax: &str) -> EntryFields {
    let mut f = regular("head\\er");
    f.pax_extensions = Some(pax.as_bytes().to_vec());
    f
}

#[test]
fn path_comes_from_long_name_then_pax_then_header() {
    let mut f = with_pax("9 path=p\n");
    f.long_pathname = Some(b"long\0".to_vec());
    assert_eq!(f.path_bytes(), b"long");
    f.long_pathname = Some(b"lo\0ng\0\0".to_vec());
    assert_eq!(f.path_bytes(), b"lo\0ng\0");
    f.long_pathname = Some(b"".to_vec());
    assert_eq!(f.path_bytes(), b"");
    f.long_pathname = None;
    assert_eq!(f.path_bytes(), b"p");
    f.pax_extensions = Some(b"9 rath=p\n".to_vec());
    assert_eq!(f.path_bytes(), b"head\\er");
    f.pax_extensions = None;
    assert_eq!(f.path_bytes(), b"head\\er");
}

#[test]
fn link_name_comes_from_long_name_then_pax_then_header() {
    let mut f = with_pax("14 linkpath=p\\q\n");
    assert_eq!(f.link_name_bytes(), None);
    f.pax_extensions = Some(b"16 linkpath=p\\q\n".to_vec());
    assert_eq!(f.link_name_bytes(), Some(&b"p\\q"[..]));
    assert_eq!(f.link_name(UNIX), Ok(Some(b"p/q".to_vec())));
    f.long_linkname = Some(b"l\0".to_vec());
    assert_eq!(f.link_name_bytes(), Some(&b"l"[..]));
    f.long_linkname = None;
    f.pax_extensions = None;
    assert_eq!(f.link_name_bytes(), None);
    assert_eq!(f.link_name(UNIX), Ok(None));
    f.header.link_name = Some(b"h\xff".to_vec());
    assert_eq!(f.link_name(UNIX), Ok(Some(b"h\xff".to_vec())));
    assert_eq!(f.link_name(Host::Windows).unwrap_err().kind, ErrorKind::Other);
}

#[test]
fn path_of_an_entry_has_its_backslashes_replaced() {
    let entry: Entry = regular("a\\b").into_entry();
    assert_eq!(entry.path(UNIX), Ok(b"a/b".to_vec()));
    assert_eq!(entry.path_bytes(), b"a/b".to_vec());
    assert_eq!(EntryFields::from(entry).path_bytes(), b"a\\b");
}

#[test]
fn path_as_text_replaces_what_is_not_unicode() {
    let mut f = regular("");
    f.header.path = b"a\xffb".to_vec();
    assert_eq!(f.path_lossy(), "a\u{fffd}b");
    assert_eq!(
        f.path(Host::Windows).unwrap_err().text,
        "only Unicode paths are supported on Windows: a\u{fffd}b"
    );
}

#[test]
fn getters_give_the_fields() {
    let mut f = regular("x");
    f.size = 7;
    f.header_pos = 512;
    f.file_pos = 1024;
    let mut entry = f.into_entry();
    assert_eq!(entry.size(), 7);
    assert_eq!(entry.raw_header_position(), 512);
    assert_eq!(entry.raw_file_position(), 1024);
    assert_eq!(entry.header().path_bytes(), b"x");
    assert_eq!(entry.header().as_bytes(), b"head");
    assert_eq!(entry.header().mtime(), Ok(3));
    assert_eq!(entry.link_name_bytes(), None);
    assert_eq!(entry.link_name(UNIX), Ok(None));
    entry.set_unpack_xattrs(true);
    entry.set_preserve_permissions(true);
    entry.set_preserve_mtime(false);
    let f = entry.fields_mut();
    assert!(f.unpack_xattrs && f.preserve_permissions && !f.preserve_mtime);
    assert!(f.overwrite && !f.preserve_ownerships);
}

#[test]
fn pax_extensions_are_read_where_the_entry_holds_them() {
    assert!(matches!(regular("x").into_entry().pax_extensions(), PaxAccess::Absent));
    assert!(matches!(with_pax("").into_entry().pax_extensions(), PaxAccess::Known(_)));
    for kind in [EntryType::XHeader, EntryType::XGlobalHeader] {
        let mut entry = fields(header(kind, "x")).into_entry();
        assert!(matches!(entry.pax_extensions(), PaxAccess::Unread));
        let lost: Error = other("lost".to_string());
        assert_eq!(entry.fields_mut().keep_pax_extensions(Err(lost.duplicate())), Err(lost));
        assert!(matches!(entry.pax_extensions(), PaxAccess::Unread));
        assert_eq!(entry.fields_mut().keep_pax_extensions(Ok(b"9 path=p\n".to_vec())), Ok(()));
        match entry.pax_extensions() {
            PaxAccess::Known(mut all) => {
                assert_eq!(all.next().unwrap().unwrap().key_bytes(), b"path");
                assert!(all.next().is_none());
            }
            _ => panic!("not kept"),
        }
    }
}

#[test]
fn reading_goes_through_the_stretches() {
    let mut f = regular("x");
    f.data = vec![EntryIo::Data(5), EntryIo::Pad { byte: 0, limit: 2 }];
    assert_eq!(f.reading(), Some(EntryIo::Data(5)));
    assert!(!f.polled(Polled::Pending));
    assert!(!f.polled(Polled::Failed));
    assert_eq!(f.data, vec![EntryIo::Data(5), EntryIo::Pad { byte: 0, limit: 2 }]);
    assert!(!f.polled(Polled::Read(3)));
    assert_eq!(f.reading(), Some(EntryIo::Data(2)));
    assert!(!f.polled(Polled::Read(2)));
    assert_eq!(f.reading().unwrap().limit(), 0);
    assert!(f.polled(Polled::Read(0)));
    assert_eq!(f.reading(), Some(EntryIo::Pad { byte: 0, limit: 2 }));
    assert!(!f.polled(Polled::Read(1)));
    assert!(f.polled(Polled::Read(0)));
    assert_eq!(f.reading(), None);
}

#[test]
fn reading_in_full_hands_out_all_bytes() {
    let mut f = regular("x");
    f.data = vec![EntryIo::Data(3), EntryIo::Pad { byte: 0, limit: 0 }, EntryIo::Data(4)];
    let mut count: u64 = 0;
    while let Some(piece) = f.reading() {
        let n: u64 = if piece.limit() > 2 { 2 } else { piece.limit() };
        count += n;
        assert_eq!(f.polled(Polled::Read(n)), n == 0);
    }
    assert_eq!(count, 7);
}

#[test]
fn reading_as_a_whole_puts_the_chunks_together() {
    let mut f = regular("x");
    f.size = 5;
    f.data = vec![EntryIo::Data(3), EntryIo::Pad { byte: 0, limit: 2 }];
    let mut all = f.read_all();
    for chunk in [&b"ab"[..], &b"c"[..], &b""[..], &b"\0\0"[..], &b""[..]] {
        assert!(!all.is_over());
        all = all.step(&mut f, Ok(chunk.to_vec()));
    }
    assert!(all.is_over());
    assert_eq!(all.outcome(), Some(Ok(b"abc\0\0".to_vec())));
    assert!(regular("x").read_all().is_over());
}

#[test]
fn reading_goes_on_where_a_stretch_ends_early() {
    let mut f = regular("x");
    f.data = vec![EntryIo::Data(3), EntryIo::Pad { byte: 7, limit: 1 }];
    let mut all = f.read_all();
    for chunk in [&b"a"[..], &b""[..], &b"\x07"[..], &b""[..]] {
        all = all.step(&mut f, Ok(chunk.to_vec()));
    }
    assert_eq!(all.outcome(), Some(Ok(b"a\x07".to_vec())));
}

#[test]
fn holes_keep_the_byte_that_they_read_as() {
    let mut f = regular("x");
    f.data = vec![EntryIo::Pad { byte: 7, limit: 5 }];
    f.polled(Polled::Read(2));
    assert_eq!(f.reading(), Some(EntryIo::Pad { byte: 7, limit: 3 }));
}

#[test]
fn content_in_one_piece_is_what_stands_at_its_position() {
    let archive: &[u8] = b"HEADERcontentREST";
    let mut f = regular("x");
    f.header.bytes = b"HEADER".to_vec();
    f.header_pos = 0;
    f.file_pos = 6;
    f.size = 7;
    f.data = vec![EntryIo::Data(7)];
    let mut at = f.file_pos as usize;
    let mut all = f.read_all();
    while let Some(piece) = f.reading() {
        let n = piece.limit().min(3) as usize;
        all = all.step(&mut f, Ok(archive[at..at + n].to_vec()));
        at += n;
    }
    assert_eq!(all.outcome(), Some(Ok(b"content".to_vec())));
    let entry = f.into_entry();
    let start = entry.raw_file_position() as usize;
    assert_eq!(&archive[start..start + entry.size() as usize], b"content");
    assert!(archive[entry.raw_header_position() as usize..].starts_with(b"HEADER"));
}

#[test]
fn reading_as_a_whole_ends_with_the_first_failure() {
    let mut f = regular("x");
    f.data = vec![EntryIo::Data(3)];
    let all = f.read_all().step(&mut f, Ok(b"a".to_vec()));
    assert!(!all.is_over());
    let all = all.step(&mut f, Err(other("lost".to_string())));
    assert_eq!(f.data, vec![EntryIo::Data(2)]);
    assert_eq!(all.outcome(), Some(Err(other("lost".to_string()))));
}

#[test]
fn no_more_is_set_aside_than_the_bound() {
    assert_eq!(preallocated(0), 0);
    assert_eq!(preallocated(128 * 1024), 128 * 1024);
    assert_eq!(preallocated(128 * 1024 + 1), 128 * 1024);
    assert_eq!(preallocated(u64::MAX), 128 * 1024);
}
