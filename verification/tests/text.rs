use tar_entry::error::{other, Error, ErrorKind};
use tar_entry::text::{concat2, concat3, concat5, number};

#[test]
fn numbers_are_written_without_leading_zeros() {
    assert_eq!(number(0, 10), "0");
    assert_eq!(number(1234567890, 10), "1234567890");
    assert_eq!(number(u64::MAX, 10), u64::MAX.to_string());
    assert_eq!(number(0o100644, 8), "100644");
}

#[test]
fn pieces_are_put_together() {
    assert_eq!(concat2("a", "b"), "ab");
    assert_eq!(concat3("a", "", "c"), "ac");
    assert_eq!(concat5("a", "b", "c", "d", "e"), "abcde");
}

#[test]
fn errors_keep_the_kind_of_their_cause() {
    let first = Error::new(ErrorKind::NotFound, "gone".to_string());
    let second = Error::from_cause("inner".to_string(), first);
    let third = Error::from_cause("outer".to_string(), second);
    assert_eq!(third.kind, ErrorKind::NotFound);
    assert_eq!(third.text, "outer");
    assert_eq!(third.causes, vec!["inner".to_string(), "gone".to_string()]);
    assert_eq!(third.duplicate(), third);
    assert_eq!(other("x".to_string()).kind, ErrorKind::Other);
}

#[test]
fn kinds_of_files_and_devices_are_told_apart() {
    for kind in [ErrorKind::IsADirectory, ErrorKind::NotADirectory, ErrorKind::StorageFull] {
        let e = Error::from_cause("x".to_string(), Error::new(kind, "y".to_string()));
        assert_eq!(e.kind, kind);
        assert_ne!(e.kind, ErrorKind::Uncategorized);
    }
}
