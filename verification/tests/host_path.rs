use tar_entry::host::Host;
use tar_entry::host_path::{
    find_components, find_parent, find_prefix, look_up, same_path, starts_with,
};
use tar_entry::path::Component;

const UNIX: Host = Host::Unix { xattrs: true };

fn prefix(path: &str) -> &str {
    &path[..find_prefix(path.as_bytes(), Host::Windows)]
}

#[test]
fn prefixes_are_found_on_windows_only() {
    assert_eq!(prefix("C:/a"), "C:");
    assert_eq!(prefix("c:a"), "c:");
    assert_eq!(prefix("1:a"), "");
    assert_eq!(prefix("//server/share/a"), "//server/share");
    assert_eq!(prefix("//server/share"), "//server/share");
    assert_eq!(prefix("//server"), "");
    assert_eq!(prefix("//server//a"), "");
    assert_eq!(prefix("///a"), "");
    assert_eq!(prefix("/a"), "");
    assert_eq!(prefix(""), "");
    assert_eq!(prefix("//./COM1/a"), "//./COM1");
    assert_eq!(prefix(r"\\?\UNC/server/share/a"), r"\\?\UNC/server/share");
    assert_eq!(prefix(r"\\?\UNC/server"), r"\\?\UNC/server");
    assert_eq!(prefix(r"\\?\UNC/server//a"), r"\\?\UNC/server");
    assert_eq!(prefix(r"\\?\C:/a"), r"\\?\C:");
    assert_eq!(prefix(r"\\?\"), r"\\?\");
    assert_eq!(prefix("//?/UNC/server/share/a"), "//?/UNC");
    assert_eq!(find_prefix(b"C:/a", UNIX), 0);
}

#[test]
fn components_begin_with_the_prefix() {
    let normal = |name: &str| Component::Normal(name.as_bytes().to_vec());
    let head = |name: &str| Component::Prefix(name.as_bytes().to_vec());
    let split = |path: &str| find_components(path.as_bytes(), Host::Windows);
    assert_eq!(split("C:a"), vec![head("C:"), normal("a")]);
    assert_eq!(split("C:/a"), vec![head("C:"), Component::RootDir, normal("a")]);
    assert_eq!(split("C:./a/.."), vec![head("C:"), normal("a"), Component::ParentDir]);
    assert_eq!(split("//s/t"), vec![head("//s/t"), Component::RootDir]);
    assert_eq!(split("//s/t/a"), vec![head("//s/t"), Component::RootDir, normal("a")]);
    assert_eq!(split("./a"), vec![Component::CurDir, normal("a")]);
    assert_eq!(find_components(b"C:a", UNIX), vec![normal("C:a")]);
}

#[test]
fn parents_are_cut_behind_the_prefix() {
    let above = |path: &'static str| {
        find_parent(path.as_bytes(), Host::Windows).map(|p| std::str::from_utf8(p).unwrap())
    };
    assert_eq!(above("C:a"), Some("C:"));
    assert_eq!(above("C:/a"), Some("C:/"));
    assert_eq!(above("C:/a/b"), Some("C:/a"));
    assert_eq!(above("C:"), None);
    assert_eq!(above("C:."), None);
    assert_eq!(above("C:/"), None);
    assert_eq!(above("//s/t/a"), Some("//s/t/"));
    assert_eq!(above("//s/t"), None);
    assert_eq!(above("a"), Some(""));
    assert_eq!(find_parent(b"C:", UNIX), Some(&b""[..]));
}

#[test]
fn prefixes_count_when_paths_are_compared() {
    assert!(starts_with(b"C:a", b"C:", Host::Windows));
    assert!(!starts_with(b"C:/a", b"C:a", Host::Windows));
    assert!(!starts_with(b"C:a", b"C:/", Host::Windows));
    assert!(!starts_with(b"C:a", b"C:", UNIX));
    assert!(same_path(b"C:/a//b/", b"C:/a/./b", Host::Windows));
    assert!(!same_path(b"C:a", b"C:/a", Host::Windows));
}

#[test]
fn targets_are_looked_up_by_the_prefix_on_windows() {
    let at = |base: &str, tail: &str| {
        String::from_utf8(look_up(base.as_bytes(), tail.as_bytes(), Host::Windows)).unwrap()
    };
    assert_eq!(at("D:/b", "a"), "D:/b/a");
    assert_eq!(at("D:/b", "C:/a"), "C:/a");
    assert_eq!(at("D:/b", "C:a"), "C:a");
    assert_eq!(at("D:/b", "//server/share/a"), "//server/share/a");
    assert_eq!(at("D:/b", "/a"), "D:/a");
    assert_eq!(at("//server/share/b", "/a"), "//server/share/a");
    assert_eq!(at("D:", "a"), "D:a");
    assert_eq!(at("b", "/a"), "/a");
    assert_eq!(at(r"\\?\D:/b", "a/./c"), r"\\?\D:/b/a/c");
    assert_eq!(at(r"\\?\D:/b", "../../../a"), r"\\?\D:/a");
    assert_eq!(at(r"\\?\D:/b/c", "/a/.."), r"\\?\D:/");
    assert_eq!(at(r"\\?\UNC/s/t/b", "../a"), r"\\?\UNC/s/t/a");
    assert_eq!(look_up(b"/b", b"C:/a", Host::Wasm), b"/b/C:/a".to_vec());
    assert_eq!(look_up(b"/b", b"/a", UNIX), b"/a".to_vec());
}
