use tar_entry::host::Host;
use tar_entry::host_path::starts_with;
use tar_entry::path::{components, join, parent, Component};

const UNIX: Host = Host::Unix { xattrs: false };

fn normal(name: &str) -> Component<Vec<u8>> {
    Component::Normal(name.as_bytes().to_vec())
}

#[test]
fn components_leave_out_empty_and_dot_pieces() {
    assert_eq!(components(b"a//b/./c/"), vec![normal("a"), normal("b"), normal("c")]);
    assert_eq!(components(b"///test"), vec![Component::RootDir, normal("test")]);
    assert_eq!(components(b"./a"), vec![Component::CurDir, normal("a")]);
    assert_eq!(components(b"."), vec![Component::CurDir]);
    assert_eq!(components(b".a/.."), vec![normal(".a"), Component::ParentDir]);
    assert_eq!(components(b"..."), vec![normal("...")]);
    assert_eq!(components(b"/"), vec![Component::RootDir]);
    assert_eq!(components(b"/."), vec![Component::RootDir]);
    assert_eq!(components(b""), vec![]);
}

#[test]
fn components_match_the_standard_library() {
    let samples = [
        "", "/", "//", ".", "./", "..", "a", "a/b", "a//b", "/a/./b/", "./a/..", "../a", "a/.",
        "a/./", "/..", "././a", ".a", "a.", "...", "/.", "a/../b//",
    ];
    for sample in samples {
        let path = std::path::Path::new(sample);
        let expected: Vec<Component<Vec<u8>>> = path
            .components()
            .map(|c| match c {
                std::path::Component::RootDir => Component::RootDir,
                std::path::Component::CurDir => Component::CurDir,
                std::path::Component::ParentDir => Component::ParentDir,
                std::path::Component::Normal(n) => normal(n.to_str().unwrap()),
                std::path::Component::Prefix(_) => unreachable!(),
            })
            .collect();
        assert_eq!(components(sample.as_bytes()), expected, "{:?}", sample);
        let above = path.parent().map(|p| p.to_str().unwrap().as_bytes());
        assert_eq!(parent(sample.as_bytes()), above, "{:?}", sample);
        for tail in samples {
            let both = path.join(tail);
            assert_eq!(
                join(sample.as_bytes(), tail.as_bytes()),
                both.to_str().unwrap().as_bytes().to_vec(),
                "{:?} {:?}",
                sample,
                tail
            );
            assert_eq!(
                starts_with(sample.as_bytes(), tail.as_bytes(), UNIX),
                path.starts_with(tail),
                "{:?} {:?}",
                sample,
                tail
            );
        }
    }
}

#[test]
fn join_puts_one_separator_between() {
    assert_eq!(join(b"a", b"b"), b"a/b".to_vec());
    assert_eq!(join(b"a/", b"b"), b"a/b".to_vec());
    assert_eq!(join(b"", b"b"), b"b".to_vec());
    assert_eq!(join(b"a", b"/b"), b"/b".to_vec());
}

#[test]
fn joined_components_follow_those_of_the_base() {
    assert_eq!(
        components(&join(b"/x/./y", b"./z")),
        vec![Component::RootDir, normal("x"), normal("y"), normal("z")]
    );
    assert_eq!(components(&join(b"x", b"/z")), vec![Component::RootDir, normal("z")]);
}

#[test]
fn joined_name_is_one_step_down() {
    assert_eq!(components(&join(b"/x/", b"n")), vec![Component::RootDir, normal("x"), normal("n")]);
}

#[test]
fn only_the_empty_path_has_no_components() {
    assert!(components(b"").is_empty());
    assert!(!components(b"/").is_empty());
    assert!(!components(b".").is_empty());
}

#[test]
fn names_are_proper_ones() {
    for c in components(b"/a//../b/./..c") {
        if let Component::Normal(n) = c {
            assert!(!n.is_empty() && n != b"." && n != b".." && !n.contains(&b'/'));
        }
    }
}

#[test]
fn separators_in_a_row_and_at_the_end_count_once_or_not() {
    assert_eq!(components(b"a//b"), components(b"a/b"));
    assert_eq!(components(b"a/b/"), components(b"a/b"));
    assert_eq!(components(b"a/./b"), components(b"a/b"));
}

#[test]
fn parent_drops_the_last_component() {
    assert_eq!(parent(b"/a/b//"), Some(&b"/a"[..]));
    assert_eq!(parent(b"a"), Some(&b""[..]));
    assert_eq!(parent(b"/a"), Some(&b"/"[..]));
    assert_eq!(parent(b"."), Some(&b""[..]));
    assert_eq!(parent(b"/"), None);
    assert_eq!(parent(b""), None);
}

#[test]
fn starts_with_goes_by_whole_components() {
    assert!(starts_with(b"/a/b", b"/a", UNIX));
    assert!(starts_with(b"/a", b"/a/", UNIX));
    assert!(!starts_with(b"/ab", b"/a", UNIX));
    assert!(!starts_with(b"/a", b"/a/b", UNIX));
    assert!(!starts_with(b"a", b"/a", UNIX));
}
