use tar_entry::action::{Action, FileReply, Reply};
use tar_entry::entry::{EntryFields, EntryIo};
use tar_entry::error::{other, Error, ErrorKind};
use tar_entry::header::{EntryType, Header};
use tar_entry::host::Host;
use tar_entry::unpack_in::{find_target, UnpackIn};

const UNIX: Host = Host::Unix { xattrs: false };

fn fields(path: &[u8]) -> EntryFields {
    EntryFields {
        long_pathname: None,
        long_linkname: None,
        pax_extensions: None,
        header: Header {
            bytes: vec![],
            path: path.to_vec(),
            link_name: None,
            entry_type: EntryType::Regular,
            ustar: true,
            uid: Ok(0),
            gid: Ok(0),
            mode: Err(other("mode".to_string())),
            mtime: Ok(5),
        },
        size: 3,
        header_pos: 0,
        file_pos: 512,
        data: vec![EntryIo::Data(3)],
        unpack_xattrs: false,
        preserve_permissions: false,
        preserve_ownerships: false,
        preserve_mtime: false,
        overwrite: false,
    }
}

fn p(path: &str) -> Vec<u8> {
    path.as_bytes().to_vec()
}

fn fail() -> FileReply {
    Reply::Failed(Error::new(ErrorKind::PermissionDenied, "boom".to_string()))
}

fn run(
    f: &mut EntryFields,
    dst: &str,
    script: Vec<(Action<Vec<u8>>, FileReply)>,
) -> Result<Result<bool, Error>, Action<Vec<u8>>> {
    let mut u = UnpackIn::start(f, dst.as_bytes(), UNIX);
    for (action, reply) in script {
        assert_eq!(u.action(), Some(action));
        u = u.step(f, reply);
    }
    match u.action() {
        Some(action) => Err(action),
        None => Ok(u.outcome().unwrap()),
    }
}

fn resolve(path: &str, to: &str) -> (Action<Vec<u8>>, FileReply) {
    (Action::Canonicalize(p(path)), Reply::Path(p(to)))
}

fn probe(path: &str, found: bool) -> (Action<Vec<u8>>, FileReply) {
    (Action::Exists(p(path)), Reply::Answer(found))
}

#[test]
fn targets_lie_below_the_destination() {
    assert_eq!(find_target(b"/d", b"a/b", UNIX), Some(p("/d/a/b")));
    assert_eq!(find_target(b"/d", b"/a//./b/", UNIX), Some(p("/d/a/b")));
    assert_eq!(find_target(b"", b"./a", UNIX), Some(p("a")));
    assert_eq!(find_target(b"/d", b"./", UNIX), Some(p("/d")));
    assert_eq!(find_target(b"/d", b"a/../b", UNIX), None);
    assert_eq!(find_target(b"/d", b"..", UNIX), None);
}

#[test]
fn separators_make_no_difference_to_the_target() {
    assert_eq!(find_target(b"/d", b"///test", UNIX), find_target(b"/d", b"test", UNIX));
    assert_eq!(find_target(b"/d", b"a//b", UNIX), find_target(b"/d", b"a/b", UNIX));
    assert_eq!(find_target(b"/d", b"./a/./b/", UNIX), find_target(b"/d", b"a/b", UNIX));
}

#[test]
fn entry_is_unpacked_into_an_existing_directory() {
    let mut f = fields(b"a\\b");
    let script = vec![
        probe("/d/a", true),
        resolve("/d/a", "/real/d/a"),
        resolve("/d", "/real/d"),
        (Action::OpenNew(p("/d/a/b")), Reply::Done),
        (Action::CopyData(3), Reply::Count(3)),
    ];
    assert_eq!(run(&mut f, "/d", script), Ok(Ok(true)));
    assert!(f.data.is_empty());
}

#[test]
fn missing_directories_are_made_from_the_top() {
    let mut f = fields(b"a/b/c");
    let script = vec![
        probe("/d/a/b", false),
        probe("/d/a", false),
        probe("/d", true),
        resolve("/d", "/d"),
        resolve("/d", "/d"),
        (Action::CreateDirAll(p("/d/a")), Reply::Done),
        resolve("/d/a", "/d/a"),
        resolve("/d", "/d"),
        (Action::CreateDirAll(p("/d/a/b")), Reply::Done),
        resolve("/d/a/b", "/d/a/b"),
        resolve("/d", "/d"),
    ];
    assert_eq!(run(&mut f, "/d", script), Err(Action::OpenNew(p("/d/a/b/c"))));
}

#[test]
fn directories_without_a_parent_are_made_unchecked() {
    let mut f = fields(b"a/c");
    let script = vec![
        probe("a", false),
        probe("", false),
        (Action::CreateDirAll(p("")), Reply::Done),
        resolve("", "/here"),
        resolve("", "/here"),
    ];
    assert_eq!(run(&mut f, "", script), Err(Action::CreateDirAll(p("a"))));
}

#[test]
fn parent_directories_skip_the_entry() {
    for path in ["..", "a/../b", "/../x", "x\\..\\y"] {
        assert_eq!(run(&mut fields(path.as_bytes()), "/d", vec![]), Ok(Ok(false)));
    }
}

#[test]
fn empty_names_are_done_with() {
    for path in ["", "/", "./", "//.//"] {
        assert_eq!(run(&mut fields(path.as_bytes()), "/d", vec![]), Ok(Ok(true)));
    }
}

#[test]
fn names_that_are_no_paths_are_reported() {
    let f = fields(b"\xff");
    let u = UnpackIn::start(&f, b"/d", Host::Windows);
    assert_eq!(
        u.outcome(),
        Some(Err(Error::from_cause(
            "invalid path in entry header: \u{fffd}".to_string(),
            other("only Unicode paths are supported on Windows: \u{fffd}".to_string())
        )))
    );
}

#[test]
fn links_that_lead_out_are_not_followed() {
    let outside = |target: &str| {
        Error::from_cause(
            format!("trying to unpack outside of destination path: {}", target),
            other("Invalid argument".to_string()),
        )
    };
    let script =
        vec![probe("/d/a", true), resolve("/d/a", "/etc"), resolve("/d", "/real")];
    assert_eq!(run(&mut fields(b"a/b"), "/d", script), Ok(Err(outside("/real"))));
    let script = vec![
        probe("/d/a/b", false),
        probe("/d/a", true),
        resolve("/d/a", "/etc"),
        resolve("/d", "/real"),
    ];
    assert_eq!(
        run(&mut fields(b"a/b/c"), "/d", script),
        Ok(Err(Error::from_cause("failed to create `/d/a/b`".to_string(), outside("/real"))))
    );
}

#[test]
fn failures_above_the_entry_are_reported() {
    let kind = ErrorKind::PermissionDenied;
    let text = |t: &str| Error::new(kind, t.to_string());
    let made = |cause: Error| Error::from_cause("failed to create `/d/a`".to_string(), cause);
    let f = || fields(b"a/b");
    let missing = || vec![probe("/d/a", false), probe("/d", true)];

    let mut script = missing();
    script.push((Action::Canonicalize(p("/d")), fail()));
    assert_eq!(
        run(&mut f(), "/d", script),
        Ok(Err(made(text("boom while canonicalizing /d"))))
    );

    let mut script = missing();
    script.push(resolve("/d", "/d"));
    script.push((Action::Canonicalize(p("/d")), fail()));
    assert_eq!(
        run(&mut f(), "/d", script),
        Ok(Err(made(text("boom while canonicalizing /d"))))
    );

    let mut script = missing();
    script.push(resolve("/d", "/d"));
    script.push(resolve("/d", "/d"));
    script.push((Action::CreateDirAll(p("/d/a")), fail()));
    assert_eq!(run(&mut f(), "/d", script), Ok(Err(made(text("boom")))));

    let script = vec![probe("/d/a", true), (Action::Canonicalize(p("/d/a")), fail())];
    assert_eq!(
        run(&mut f(), "/d", script),
        Ok(Err(text("boom while canonicalizing /d/a")))
    );

    let script = vec![
        probe("/d/a", true),
        resolve("/d/a", "/d/a"),
        (Action::Canonicalize(p("/d")), fail()),
    ];
    assert_eq!(
        run(&mut f(), "/d", script),
        Ok(Err(text("boom while canonicalizing /d")))
    );
}

#[test]
fn failures_of_the_entry_are_reported() {
    let script = vec![
        probe("/d/a", true),
        resolve("/d/a", "/d/a"),
        resolve("/d", "/d"),
        (Action::OpenNew(p("/d/a/b")), fail()),
    ];
    let cause = Error::new(ErrorKind::PermissionDenied, "boom".to_string());
    let inner = Error::from_cause("failed to unpack `a/b` into `/d/a/b`".to_string(), cause);
    assert_eq!(
        run(&mut fields(b"a/b"), "/d", script),
        Ok(Err(Error::from_cause("failed to unpack `/d/a/b`".to_string(), inner)))
    );
}

#[test]
fn hard_links_are_looked_up_from_the_resolved_destination() {
    let mut f = fields(b"l");
    f.header.entry_type = EntryType::Link;
    f.header.link_name = Some(b"t".to_vec());
    let script = vec![
        probe("/d", true),
        resolve("/d", "/real"),
        resolve("/d", "/real"),
        resolve("/real/t", "/real/t"),
        resolve("/real", "/real"),
    ];
    assert_eq!(
        run(&mut f, "/d", script),
        Err(Action::HardLink { source: p("/real/t"), link: p("/d/l") })
    );
}

#[test]
fn directories_that_lead_out_are_left_alone() {
    let mut f = fields(b"x");
    f.header.entry_type = EntryType::Directory;
    f.header.mode = Ok(0o700);
    let exists = Error::new(ErrorKind::AlreadyExists, "there".to_string());
    let script = vec![
        probe("/d", true),
        resolve("/d", "/real"),
        resolve("/d", "/real"),
        (Action::CreateDir(p("/d/x")), Reply::Failed(exists)),
        (Action::IsDir(p("/d/x")), Reply::Answer(true)),
        resolve("/d/x", "/etc"),
    ];
    let cause = Error::from_cause(
        "trying to unpack outside of destination path: /real".to_string(),
        other("Invalid argument".to_string()),
    );
    assert_eq!(
        run(&mut f, "/d", script),
        Ok(Err(Error::from_cause("failed to unpack `/d/x`".to_string(), cause)))
    );
}

#[test]
fn directories_made_once_are_not_made_again() {
    let script = vec![
        probe("/d/a", false),
        probe("/d", true),
        resolve("/d", "/d"),
        resolve("/d", "/d"),
    ];
    assert_eq!(run(&mut fields(b"a/b"), "/d", script), Err(Action::CreateDirAll(p("/d/a"))));
    let script = vec![probe("/d/a", true)];
    assert_eq!(run(&mut fields(b"a/b"), "/d", script), Err(Action::Canonicalize(p("/d/a"))));
}

#[test]
fn extension_entries_need_no_operation_of_their_own() {
    let mut f = fields(b"x");
    f.header.entry_type = EntryType::XHeader;
    let script = vec![probe("/d", true), resolve("/d", "/d"), resolve("/d", "/d")];
    assert_eq!(run(&mut f, "/d", script), Ok(Ok(true)));
}

#[test]
fn misfitting_replies_leave_all_as_it_is() {
    let mut f = fields(b"a/b");
    let u = UnpackIn::start(&f, b"/d", UNIX);
    let u = u.step(&mut f, Reply::Done).step(&mut f, Reply::Count(1)).step(&mut f, fail());
    assert_eq!(u.action(), Some(Action::Exists(p("/d/a"))));
    assert_eq!(u.outcome(), None);
}

#[test]
fn drives_are_left_out_of_the_target() {
    let f = fields(b"C:\\a\\b");
    let u = UnpackIn::start(&f, b"/d", Host::Windows);
    assert_eq!(u.action(), Some(Action::Exists(p("/d/a"))));
    let u = UnpackIn::start(&f, b"/d", UNIX);
    assert_eq!(u.action(), Some(Action::Exists(p("/d/C:/a"))));
    assert_eq!(UnpackIn::start(&fields(b"C:.."), b"/d", Host::Windows).outcome(), Some(Ok(false)));
}

#[test]
fn unpacking_in_ends_when_nothing_is_there() {
    let mut f = fields(b"a/b/c");
    let mut u = UnpackIn::start(&f, b"/d/e", UNIX);
    let mut steps: usize = 0;
    while let Some(action) = u.action() {
        let reply = match action {
            Action::Exists(_) => Reply::Answer(false),
            Action::Canonicalize(path) => Reply::Path(path),
            Action::CopyData(n) => Reply::Count(n),
            Action::CreateDirAll(path) => {
                assert!(b"/d/e/a/b".starts_with(&path));
                Reply::Done
            }
            _ => Reply::Done,
        };
        u = u.step(&mut f, reply);
        steps += 1;
        assert!(steps < 40);
    }
    assert!(u.outcome().is_some());
}

#[test]
fn bare_drives_are_not_left() {
    let at = |dst: &str, path: &str| {
        find_target(dst.as_bytes(), path.as_bytes(), Host::Windows)
            .map(|p| String::from_utf8(p).unwrap())
    };
    assert_eq!(at("C:", "a").unwrap(), "C:a");
    assert_eq!(at("C:", "a/b").unwrap(), "C:a/b");
    assert_eq!(at("C:/", "a").unwrap(), "C:/a");
    assert_eq!(at("C:/d", "D:/a").unwrap(), "C:/d/a");
    assert_eq!(at("/d", "//?/UNC/server/share/x").unwrap(), "/d/server/share/x");
    assert_eq!(at("/d", r"\\?\UNC/server/share/x").unwrap(), "/d/x");

    let mut f = fields(b"a");
    let u = UnpackIn::start(&f, b"C:", Host::Windows);
    assert_eq!(u.action(), Some(Action::Exists(p("C:"))));
    let u = u.step(&mut f, Reply::Answer(true));
    assert_eq!(u.action(), Some(Action::Canonicalize(p("C:"))));
    let u = u.step(&mut f, Reply::Path(br"\\?\C:/here".to_vec()));
    let u = u.step(&mut f, Reply::Path(br"\\?\C:/here".to_vec()));
    assert_eq!(u.action(), Some(Action::OpenNew(p("C:a"))));
}

#[test]
fn verbatim_names_are_told_from_others() {
    let f = fields(br"\\?\UNC\server\share\a\b");
    let u = UnpackIn::start(&f, b"/d", Host::Windows);
    assert_eq!(u.action(), Some(Action::Exists(p("/d/a"))));
    let f = fields(b"//?/UNC/server/share/a");
    let u = UnpackIn::start(&f, b"/d", Host::Windows);
    assert_eq!(u.action(), Some(Action::Exists(p("/d/server/share"))));
}

#[test]
fn entries_with_the_same_names_are_unpacked_alike() {
    for path in ["a/b", "./a//b", "/a/./b", "a/b/."] {
        let mut f = fields(b"");
        f.long_pathname = Some(path.as_bytes().to_vec());
        let script = vec![
            probe("/d/a", true),
            resolve("/d/a", "/d/a"),
            resolve("/d", "/d"),
            (Action::OpenNew(p("/d/a/b")), Reply::Done),
            (Action::CopyData(3), Reply::Count(3)),
        ];
        assert_eq!(run(&mut f, "/d", script), Ok(Ok(true)));
    }
}
