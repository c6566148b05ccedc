use tar_entry::error::{Error, ErrorKind};
use tar_entry::pax::{find_value, find_xattr, PaxExtensions};

#[test]
fn records_come_one_after_the_other() {
    let mut all = PaxExtensions::new(b"9 path=a\n12 uid=+a=b\n\nnever");
    let first = all.next().unwrap().unwrap();
    assert_eq!(first.key_bytes(), b"path");
    assert_eq!(first.value_bytes(), b"a");
    let second = all.next().unwrap();
    assert!(second.is_ok());
    assert_eq!(second.unwrap().value_bytes(), b"+a=b");
    assert!(all.next().is_none());
}

#[test]
fn malformed_lines_are_errors() {
    let expected = Error::new(ErrorKind::Other, "malformed pax extension".to_string());
    for line in ["8 path=a\n", "path=a\n", "x path=a\n", "7 path\n", " a=b\n", "-9 path=a\n"] {
        let mut all = PaxExtensions::new(line.as_bytes());
        assert_eq!(all.next().unwrap().unwrap_err(), expected, "{:?}", line);
        assert!(all.next().is_none());
    }
}

#[test]
fn lengths_may_have_a_sign_and_zeros() {
    let mut all = PaxExtensions::new(b"+10 path=a\n010 path=b\n");
    assert_eq!(all.next().unwrap().unwrap_err().text, "malformed pax extension");
    assert!(all.next().unwrap().is_err());
    let mut all = PaxExtensions::new(b"+11 path=a\n011 path=b\n");
    assert_eq!(all.next().unwrap().unwrap().value_bytes(), b"a");
    assert_eq!(all.next().unwrap().unwrap().value_bytes(), b"b");
}

#[test]
fn lengths_beyond_the_machine_are_malformed() {
    let line = b"99999999999999999999999999999999 path=a\n";
    assert!(PaxExtensions::new(line).next().unwrap().is_err());
}

#[test]
fn first_well_formed_value_counts() {
    let data = b"1 path=x\n9 path=a\n9 path=b\n";
    assert_eq!(find_value(data, b"path"), Some(&b"a"[..]));
    assert_eq!(find_value(data, b"linkpath"), None);
    assert_eq!(find_value(b"", b"path"), None);
}

#[test]
fn xattrs_come_in_their_order() {
    let data = b"9 path=a\n23 SCHILY.xattr.user=v\nbad\n24 SCHILY.xattr.other=w\n";
    let (key, value, rest) = find_xattr(data).unwrap();
    assert_eq!((key, value), (&b"user"[..], &b"v"[..]));
    let (key, value, rest) = find_xattr(rest).unwrap();
    assert_eq!((key, value), (&b"other"[..], &b"w"[..]));
    assert!(rest.is_empty());
    assert!(find_xattr(rest).is_none());
    assert!(find_xattr(b"22 SCHILY.xattruser=v\n").is_none());
}
