use tar_entry::error::{Error, ErrorKind};
use tar_entry::host::{bytes2path, convert_separators, Host};

#[test]
fn backslashes_become_separators() {
    assert_eq!(convert_separators(b"a\\b/c\\"), b"a/b/c/".to_vec());
    assert_eq!(bytes2path(b"x\\y", Host::Unix { xattrs: true }), Ok(b"x/y".to_vec()));
}

#[test]
fn names_must_be_unicode_on_windows_only() {
    let name = b"a\xff";
    assert_eq!(bytes2path(name, Host::Unix { xattrs: false }), Ok(name.to_vec()));
    assert_eq!(bytes2path(name, Host::Wasm), Ok(name.to_vec()));
    assert_eq!(
        bytes2path(name, Host::Windows),
        Err(Error::new(
            ErrorKind::Other,
            "only Unicode paths are supported on Windows: a\u{fffd}".to_string()
        ))
    );
    assert_eq!(bytes2path("\u{e9}\\x".as_bytes(), Host::Windows), Ok("\u{e9}/x".as_bytes().to_vec()));
}

#[test]
fn verbatim_marks_are_kept_on_windows() {
    assert_eq!(bytes2path(b"\\\\?\\C:\\a", Host::Windows), Ok(b"\\\\?\\C:/a".to_vec()));
    assert_eq!(bytes2path(b"\\\\?\\C:\\a", Host::Wasm), Ok(b"//?/C:/a".to_vec()));
    assert_eq!(bytes2path(b"//?\\C:\\a", Host::Windows), Ok(b"//?/C:/a".to_vec()));
}
