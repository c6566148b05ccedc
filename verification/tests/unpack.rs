use filetime::FileTime;
use tar_entry::action::{Action, FileReply, Reply};
use tar_entry::entry::{EntryFields, EntryIo, Unpacked};
use tar_entry::error::{other, Error, ErrorKind};
use tar_entry::header::{EntryType, Header};
use tar_entry::host::Host;
use tar_entry::unpack::{get_mtime, validate_inside_dst, Unpack};

const UNIX: Host = Host::Unix { xattrs: true };

fn fields(entry_type: EntryType) -> EntryFields {
    EntryFields {
        long_pathname: None,
        long_linkname: None,
        pax_extensions: None,
        header: Header {
            bytes: b"HEAD".to_vec(),
            path: b"name".to_vec(),
            link_name: None,
            entry_type,
            ustar: true,
            uid: Ok(1000),
            gid: Ok(100),
            mode: Ok(0o4755),
            mtime: Ok(0),
        },
        size: 0,
        header_pos: 0,
        file_pos: 512,
        data: vec![],
        unpack_xattrs: false,
        preserve_permissions: false,
        preserve_ownerships: false,
        preserve_mtime: true,
        overwrite: true,
    }
}

fn link(entry_type: EntryType, target: &str) -> EntryFields {
    let mut f = fields(entry_type);
    f.header.link_name = Some(target.as_bytes().to_vec());
    f
}

fn untimed(entry_type: EntryType) -> EntryFields {
    let mut f = fields(entry_type);
    f.preserve_mtime = false;
    f
}

fn dst() -> Vec<u8> {
    b"/d/f".to_vec()
}

fn fail(kind: ErrorKind) -> FileReply {
    Reply::Failed(Error::new(kind, "boom".to_string()))
}

fn text(kind: ErrorKind, text: &str) -> Error {
    Error::new(kind, text.to_string())
}

fn wrapped(message: &str, kind: ErrorKind) -> Error {
    Error::from_cause(message.to_string(), Error::new(kind, "boom".to_string()))
}

fn start(f: &EntryFields, host: Host) -> Unpack {
    Unpack::start(f, None, b"/d/f", host)
}

/// Runs through the operations with their replies, and gives what is left to do.
fn run(
    f: &mut EntryFields,
    host: Host,
    script: Vec<(Action<Vec<u8>>, FileReply)>,
) -> Result<Result<Unpacked, Error>, Action<Vec<u8>>> {
    let mut u = start(f, host);
    for (action, reply) in script {
        assert_eq!(u.action(), Some(action));
        u = u.step(f, reply);
    }
    match u.action() {
        Some(action) => Err(action),
        None => {
            assert!(u.is_finished());
            Ok(u.outcome().unwrap())
        }
    }
}

fn stamp() -> Action<Vec<u8>> {
    Action::SetFileTimes { path: dst(), time: FileTime::from_unix_time(1, 0) }
}

fn set_mode(open: bool, mode: u32) -> Action<Vec<u8>> {
    Action::SetMode { path: dst(), open, mode }
}

fn done<T>(action: T) -> (T, FileReply) {
    (action, Reply::Done)
}

#[test]
fn file_is_written_stamped_and_permitted() {
    let mut f = fields(EntryType::Regular);
    f.data = vec![EntryIo::Data(5), EntryIo::Pad { byte: 0, limit: 7 }, EntryIo::Data(2)];
    let script = vec![
        done(Action::OpenNew(dst())),
        (Action::CopyData(5), Reply::Count(5)),
        (Action::SeekBy(7), Reply::Count(12)),
        done(Action::SetLen(12)),
        (Action::CopyData(2), Reply::Count(2)),
        done(stamp()),
        done(set_mode(true, 0o755)),
    ];
    assert_eq!(run(&mut f, UNIX, script), Ok(Ok(Unpacked::File)));
    assert!(f.data.is_empty());
}

#[test]
fn owner_comes_before_permissions() {
    let mut f = fields(EntryType::Other(b'?'));
    f.preserve_mtime = false;
    f.preserve_ownerships = true;
    f.preserve_permissions = true;
    let script = vec![
        done(Action::OpenNew(dst())),
        done(Action::ChangeOwner { path: dst(), open: true, uid: 1000, gid: 100 }),
        done(set_mode(true, 0o4755)),
    ];
    assert_eq!(run(&mut f, UNIX, script), Ok(Ok(Unpacked::File)));
}

#[test]
fn special_bits_are_left_out_unless_kept() {
    let mut f = fields(EntryType::Regular);
    f.preserve_mtime = false;
    assert_eq!(run(&mut f, UNIX, vec![done(Action::OpenNew(dst()))]), Err(set_mode(true, 0o755)));
    f.preserve_permissions = true;
    assert_eq!(run(&mut f, UNIX, vec![done(Action::OpenNew(dst()))]), Err(set_mode(true, 0o4755)));
}

#[test]
fn unreadable_fields_stop_or_are_passed_over() {
    let mut f = untimed(EntryType::Directory);
    f.header.mode = Err(other("mode".to_string()));
    f.header.mtime = Err(other("mtime".to_string()));
    let made = vec![done(Action::CreateDir(dst()))];
    assert_eq!(run(&mut f, UNIX, made), Ok(Ok(Unpacked::__Nonexhaustive)));
    f.preserve_ownerships = true;
    f.header.uid = Err(other("uid".to_string()));
    f.header.gid = Err(other("gid".to_string()));
    let made = vec![done(Action::CreateDir(dst()))];
    assert_eq!(run(&mut f, Host::Windows, made), Ok(Err(other("uid".to_string()))));
    f.header.uid = Ok(0);
    let made = vec![done(Action::CreateDir(dst()))];
    assert_eq!(run(&mut f, UNIX, made), Ok(Err(other("gid".to_string()))));
}

#[test]
fn owners_that_do_not_fit_are_refused() {
    let mut f = untimed(EntryType::Directory);
    f.preserve_ownerships = true;
    f.header.uid = Ok(4294967296);
    f.header.gid = Ok(4294967297);
    let made = vec![done(Action::CreateDir(dst()))];
    assert_eq!(
        run(&mut f, UNIX, made),
        Ok(Err(Error::from_cause(
            "failed to set ownerships to uid=4294967296, gid=4294967297 for `/d/f`".to_string(),
            other("UID 4294967296 is too large!".to_string())
        )))
    );
    f.header.uid = Ok(4294967295);
    let made = vec![done(Action::CreateDir(dst()))];
    assert_eq!(
        run(&mut f, UNIX, made).unwrap().unwrap_err().causes,
        vec!["GID 4294967297 is too large!".to_string()]
    );
    let made = vec![done(Action::CreateDir(dst()))];
    assert_eq!(run(&mut f, Host::Windows, made), Ok(Ok(Unpacked::__Nonexhaustive)));
}

#[test]
fn owner_failure_is_reported() {
    let mut f = untimed(EntryType::Directory);
    f.preserve_ownerships = true;
    let script = vec![
        done(Action::CreateDir(dst())),
        (
            Action::ChangeOwner { path: dst(), open: false, uid: 1000, gid: 100 },
            fail(ErrorKind::PermissionDenied),
        ),
    ];
    assert_eq!(
        run(&mut f, UNIX, script),
        Ok(Err(wrapped(
            "failed to set ownerships to uid=1000, gid=100 for `/d/f`",
            ErrorKind::PermissionDenied
        )))
    );
}

#[test]
fn permission_failure_is_reported_in_octal() {
    let mut f = untimed(EntryType::Directory);
    let script = vec![
        done(Action::CreateDir(dst())),
        (set_mode(false, 0o755), fail(ErrorKind::PermissionDenied)),
    ];
    assert_eq!(
        run(&mut f, UNIX, script),
        Ok(Err(wrapped(
            "failed to set permissions to 4755 for `/d/f`",
            ErrorKind::PermissionDenied
        )))
    );
}

#[test]
fn windows_only_forbids_writing() {
    let mut f = untimed(EntryType::Directory);
    let made = vec![done(Action::CreateDir(dst()))];
    assert_eq!(run(&mut f, Host::Windows, made), Ok(Ok(Unpacked::__Nonexhaustive)));
    f.header.mode = Ok(0o555);
    let readonly = Action::SetReadonly { path: dst(), open: false };
    let script = vec![done(Action::CreateDir(dst())), done(readonly)];
    assert_eq!(run(&mut f, Host::Windows, script), Ok(Ok(Unpacked::__Nonexhaustive)));
    let readonly = Action::SetReadonly { path: dst(), open: false };
    let script = vec![done(Action::CreateDir(dst())), (readonly, fail(ErrorKind::Other))];
    assert_eq!(
        run(&mut f, Host::Windows, script),
        Ok(Err(wrapped("failed to set permissions to 555 for `/d/f`", ErrorKind::Other)))
    );
}

#[test]
fn wasm_has_neither_permissions_nor_links() {
    let mut f = untimed(EntryType::Directory);
    let made = vec![done(Action::CreateDir(dst()))];
    assert_eq!(
        run(&mut f, Host::Wasm, made),
        Ok(Err(Error::from_cause(
            "failed to set permissions to 4755 for `/d/f`".to_string(),
            other("Not implemented".to_string())
        )))
    );
    let mut f = link(EntryType::Symlink, "t");
    assert_eq!(
        run(&mut f, Host::Wasm, vec![]),
        Ok(Err(other("Not implemented when symlinking t to /d/f".to_string())))
    );
}

#[test]
fn existing_directory_is_let_slide() {
    let mut f = untimed(EntryType::Directory);
    f.header.mode = Err(other("mode".to_string()));
    let script = vec![
        (Action::CreateDir(dst()), fail(ErrorKind::AlreadyExists)),
        (Action::IsDir(dst()), Reply::Answer(true)),
    ];
    assert_eq!(run(&mut f, UNIX, script), Ok(Ok(Unpacked::__Nonexhaustive)));
    let script = vec![
        (Action::CreateDir(dst()), fail(ErrorKind::AlreadyExists)),
        (Action::IsDir(dst()), Reply::Answer(false)),
    ];
    assert_eq!(
        run(&mut f, UNIX, script),
        Ok(Err(text(ErrorKind::AlreadyExists, "boom when creating dir /d/f")))
    );
    let script = vec![(Action::CreateDir(dst()), fail(ErrorKind::PermissionDenied))];
    assert_eq!(
        run(&mut f, UNIX, script),
        Ok(Err(text(ErrorKind::PermissionDenied, "boom when creating dir /d/f")))
    );
}

#[test]
fn old_formats_end_directories_in_a_separator() {
    let mut f = fields(EntryType::Regular);
    f.header.path = b"dir/".to_vec();
    assert_eq!(start(&f, UNIX).action(), Some(Action::OpenNew(dst())));
    f.header.ustar = false;
    assert_eq!(start(&f, UNIX).action(), Some(Action::CreateDir(dst())));
    f.header.path = b"dir\\".to_vec();
    assert_eq!(start(&f, UNIX).action(), Some(Action::CreateDir(dst())));
    f.header.path = b"".to_vec();
    assert_eq!(start(&f, UNIX).action(), Some(Action::OpenNew(dst())));
}

#[test]
fn extension_entries_are_not_unpacked() {
    for kind in [
        EntryType::XHeader,
        EntryType::XGlobalHeader,
        EntryType::GNULongName,
        EntryType::GNULongLink,
    ] {
        assert_eq!(run(&mut fields(kind), UNIX, vec![]), Ok(Ok(Unpacked::__Nonexhaustive)));
    }
}

#[test]
fn links_need_a_target() {
    for kind in [EntryType::Link, EntryType::Symlink] {
        assert_eq!(
            run(&mut fields(kind), UNIX, vec![]),
            Ok(Err(other("hard link listed for HEAD but no link name found".to_string())))
        );
        assert_eq!(
            run(&mut link(kind, ""), UNIX, vec![]),
            Ok(Err(other("symlink destination for HEAD is empty".to_string())))
        );
        let mut f = link(kind, "");
        f.header.link_name = Some(b"\xff".to_vec());
        assert_eq!(
            run(&mut f, Host::Windows, vec![]),
            Ok(Err(other("only Unicode paths are supported on Windows: \u{fffd}".to_string())))
        );
    }
}

#[test]
fn header_bytes_are_shown_lossily() {
    let mut f = fields(EntryType::Symlink);
    f.header.bytes = b"a\xffb".to_vec();
    assert_eq!(
        run(&mut f, UNIX, vec![]),
        Ok(Err(other("hard link listed for a\u{fffd}b but no link name found".to_string())))
    );
}

fn hard_link() -> EntryFields {
    let mut f = link(EntryType::Link, "a");
    f.preserve_mtime = false;
    f.header.mode = Err(other("mode".to_string()));
    f
}

#[test]
fn hard_link_is_made() {
    let mut f = hard_link();
    f.header.link_name = Some(b"a\\b".to_vec());
    let make = || Action::HardLink { source: b"a/b".to_vec(), link: dst() };
    assert_eq!(run(&mut f, UNIX, vec![done(make())]), Ok(Ok(Unpacked::__Nonexhaustive)));
    assert_eq!(
        run(&mut f, UNIX, vec![(make(), fail(ErrorKind::NotFound))]),
        Ok(Err(text(ErrorKind::NotFound, "boom when hard linking a/b to /d/f")))
    );
}

#[test]
fn hard_link_takes_times_and_permissions() {
    let mut f = link(EntryType::Link, "a");
    f.preserve_ownerships = true;
    let script = vec![
        done(Action::HardLink { source: b"a".to_vec(), link: dst() }),
        done(stamp()),
        done(Action::ChangeOwner { path: dst(), open: false, uid: 1000, gid: 100 }),
        done(set_mode(false, 0o755)),
    ];
    assert_eq!(run(&mut f, UNIX, script), Ok(Ok(Unpacked::__Nonexhaustive)));
}

#[test]
fn hard_link_replaces_what_is_in_its_way() {
    let mut f = hard_link();
    let make = || Action::HardLink { source: b"a".to_vec(), link: dst() };
    let exists = || (make(), fail(ErrorKind::AlreadyExists));
    let source = || resolve("a", "/x/a");
    let place = || resolve("/d/f", "/d/f");
    let remove = || Action::RemoveFile(dst());
    assert_eq!(
        run(&mut f, UNIX, vec![exists(), source(), place(), done(remove()), done(make())]),
        Ok(Ok(Unpacked::__Nonexhaustive))
    );
    assert_eq!(
        run(&mut f, UNIX, vec![exists(), source(), unresolved("/d/f"), done(remove())]),
        Err(make())
    );
    let refused = text(ErrorKind::AlreadyExists, "boom when hard linking a to /d/f");
    assert_eq!(
        run(&mut f, UNIX, vec![exists(), source(), place(), done(remove()), exists()]),
        Ok(Err(refused.duplicate()))
    );
    let denied = (remove(), fail(ErrorKind::PermissionDenied));
    assert_eq!(
        run(&mut f, UNIX, vec![exists(), source(), place(), denied]),
        Ok(Err(text(ErrorKind::PermissionDenied, "boom when hard linking a to /d/f")))
    );
    f.overwrite = false;
    assert_eq!(run(&mut f, UNIX, vec![exists()]), Ok(Err(refused)));
}

#[test]
fn hard_link_does_not_replace_its_own_source() {
    let mut f = hard_link();
    let make = || Action::HardLink { source: b"a".to_vec(), link: dst() };
    let exists = || (make(), fail(ErrorKind::AlreadyExists));
    let refused = text(ErrorKind::AlreadyExists, "boom when hard linking a to /d/f");
    assert_eq!(
        run(&mut f, UNIX, vec![exists(), resolve("a", "/d/f"), resolve("/d/f", "/d/f")]),
        Ok(Err(refused.duplicate()))
    );
    assert_eq!(run(&mut f, UNIX, vec![exists(), unresolved("a")]), Ok(Err(refused)));
}

fn outside(dir: &str) -> Error {
    Error::from_cause(
        format!("trying to unpack outside of destination path: {}", dir),
        other("Invalid argument".to_string()),
    )
}

/// Runs through the operations with their replies, under the directory `/real`.
fn run_under(
    f: &mut EntryFields,
    script: Vec<(Action<Vec<u8>>, FileReply)>,
) -> Result<Result<Unpacked, Error>, Action<Vec<u8>>> {
    let mut u = Unpack::start(f, Some(b"/real"), b"/d/f", UNIX);
    for (action, reply) in script {
        assert_eq!(u.action(), Some(action));
        u = u.step(f, reply);
    }
    match u.action() {
        Some(action) => Err(action),
        None => Ok(u.outcome().unwrap()),
    }
}

fn resolve(path: &str, to: &str) -> (Action<Vec<u8>>, FileReply) {
    (Action::Canonicalize(path.as_bytes().to_vec()), Reply::Path(to.as_bytes().to_vec()))
}

fn unresolved(path: &str) -> (Action<Vec<u8>>, FileReply) {
    (Action::Canonicalize(path.as_bytes().to_vec()), fail(ErrorKind::NotFound))
}

#[test]
fn hard_link_under_a_directory_must_stay_there() {
    let make = || Action::HardLink { source: b"/real/a".to_vec(), link: dst() };
    let found = || vec![resolve("/real/a", "/real/x"), resolve("/real", "/real")];
    assert_eq!(run_under(&mut hard_link(), found()), Err(make()));
    assert_eq!(
        run_under(&mut hard_link(), vec![resolve("/real/a", "/etc/a"), resolve("/real", "/real")]),
        Ok(Err(outside("/real")))
    );
    assert_eq!(
        run_under(&mut hard_link(), vec![unresolved("/real/a")]),
        Ok(Err(text(ErrorKind::NotFound, "boom while canonicalizing /real/a")))
    );
    assert_eq!(
        run_under(&mut hard_link(), vec![resolve("/real/a", "/real/x"), unresolved("/real")]),
        Ok(Err(text(ErrorKind::NotFound, "boom while canonicalizing /real")))
    );

    let mut script = found();
    script.push(done(make()));
    assert_eq!(run_under(&mut hard_link(), script), Ok(Ok(Unpacked::__Nonexhaustive)));
    let timed = || link(EntryType::Link, "a");
    let mut script = found();
    script.push(done(make()));
    script.push(resolve("/d/f", "/real/f"));
    assert_eq!(run_under(&mut timed(), script), Err(stamp()));
    let mut script = found();
    script.push(done(make()));
    script.push(resolve("/d/f", "/etc"));
    assert_eq!(run_under(&mut timed(), script), Ok(Err(outside("/real"))));
}

#[test]
fn directory_is_stamped_and_permitted() {
    let mut f = fields(EntryType::Directory);
    let script =
        vec![done(Action::CreateDir(dst())), done(stamp()), done(set_mode(false, 0o755))];
    assert_eq!(run(&mut f, UNIX, script), Ok(Ok(Unpacked::__Nonexhaustive)));
    let script = vec![
        (Action::CreateDir(dst()), fail(ErrorKind::AlreadyExists)),
        (Action::IsDir(dst()), Reply::Answer(true)),
        (stamp(), fail(ErrorKind::PermissionDenied)),
    ];
    assert_eq!(
        run(&mut f, UNIX, script),
        Ok(Err(wrapped("failed to set mtime for `/d/f`", ErrorKind::PermissionDenied)))
    );
}

#[test]
fn nothing_is_set_on_a_directory_that_lies_elsewhere() {
    let present = || {
        vec![
            (Action::CreateDir(dst()), fail(ErrorKind::AlreadyExists)),
            (Action::IsDir(dst()), Reply::Answer(true)),
        ]
    };
    let f = || fields(EntryType::Directory);
    let mut script = present();
    script.push(resolve("/d/f", "/etc"));
    assert_eq!(run_under(&mut f(), script), Ok(Err(outside("/real"))));
    let mut script = present();
    script.push(unresolved("/d/f"));
    assert_eq!(
        run_under(&mut f(), script),
        Ok(Err(text(ErrorKind::NotFound, "boom while canonicalizing /d/f")))
    );
    let mut script = present();
    script.push(resolve("/d/f", "/real/g"));
    script.push(done(stamp()));
    script.push(done(set_mode(false, 0o755)));
    assert_eq!(run_under(&mut f(), script), Ok(Ok(Unpacked::__Nonexhaustive)));
    let script = vec![done(Action::CreateDir(dst()))];
    assert_eq!(run_under(&mut f(), script), Err(stamp()));
}

#[test]
fn places_are_resolved_only_where_something_is_set() {
    let mut f = untimed(EntryType::Directory);
    f.header.mode = Err(other("mode".to_string()));
    let script = vec![
        (Action::CreateDir(dst()), fail(ErrorKind::AlreadyExists)),
        (Action::IsDir(dst()), Reply::Answer(true)),
    ];
    assert_eq!(run_under(&mut f, script), Ok(Ok(Unpacked::__Nonexhaustive)));
}

#[test]
fn link_targets_are_looked_up_as_the_host_does() {
    let mut f = hard_link();
    f.header.link_name = Some(b"C:\\x".to_vec());
    let first = |f: &EntryFields, host: Host| {
        Unpack::start(f, Some(b"\\\\?\\D:/r"), b"/d/f", host).action()
    };
    assert_eq!(first(&f, Host::Windows), Some(Action::Canonicalize(b"C:/x".to_vec())));
    assert_eq!(first(&f, UNIX), Some(Action::Canonicalize(b"\\\\?\\D:/r/C:/x".to_vec())));
    f.header.link_name = Some(b"./y/../z".to_vec());
    assert_eq!(first(&f, Host::Windows), Some(Action::Canonicalize(b"\\\\?\\D:/r/z".to_vec())));
}

#[test]
fn symlink_is_made_and_stamped() {
    let mut f = link(EntryType::Symlink, "t");
    let make = || Action::Symlink { source: b"t".to_vec(), link: dst() };
    let times = || Action::SetLinkTimes { path: dst(), time: FileTime::from_unix_time(9, 0) };
    f.header.mtime = Ok(9);
    assert_eq!(
        run(&mut f, UNIX, vec![done(make()), done(times())]),
        Ok(Ok(Unpacked::__Nonexhaustive))
    );
    assert_eq!(
        run(&mut f, UNIX, vec![done(make()), (times(), fail(ErrorKind::Other))]),
        Ok(Err(wrapped("failed to set mtime for `/d/f`", ErrorKind::Other)))
    );
    f.preserve_mtime = false;
    assert_eq!(run(&mut f, UNIX, vec![done(make())]), Ok(Ok(Unpacked::__Nonexhaustive)));
}

#[test]
fn symlink_replaces_what_is_in_its_way() {
    let mut f = link(EntryType::Symlink, "t");
    f.preserve_mtime = false;
    let make = || Action::Symlink { source: b"t".to_vec(), link: dst() };
    let exists = || (make(), fail(ErrorKind::AlreadyExists));
    let remove = || Action::RemoveFile(dst());
    assert_eq!(
        run(&mut f, UNIX, vec![exists(), done(remove()), done(make())]),
        Ok(Ok(Unpacked::__Nonexhaustive))
    );
    let refused = text(ErrorKind::AlreadyExists, "boom when symlinking t to /d/f");
    assert_eq!(
        run(&mut f, UNIX, vec![exists(), done(remove()), exists()]),
        Ok(Err(refused.duplicate()))
    );
    assert_eq!(
        run(&mut f, UNIX, vec![exists(), (remove(), fail(ErrorKind::NotFound))]),
        Ok(Err(text(ErrorKind::NotFound, "boom when symlinking t to /d/f")))
    );
    f.overwrite = false;
    assert_eq!(run(&mut f, UNIX, vec![exists()]), Ok(Err(refused)));
}

#[test]
fn file_replaces_what_is_in_its_way() {
    let mut f = fields(EntryType::Regular);
    f.preserve_mtime = false;
    f.header.mode = Err(other("mode".to_string()));
    let exists = || (Action::OpenNew(dst()), fail(ErrorKind::AlreadyExists));
    let open = || done(Action::OpenNew(dst()));
    let remove = || Action::RemoveFile(dst());
    assert_eq!(run(&mut f, UNIX, vec![exists(), done(remove()), open()]), Ok(Ok(Unpacked::File)));
    let gone = (remove(), fail(ErrorKind::NotFound));
    assert_eq!(run(&mut f, UNIX, vec![exists(), gone, open()]), Ok(Ok(Unpacked::File)));
    let message = "failed to unpack `name` into `/d/f`";
    let denied = (remove(), fail(ErrorKind::PermissionDenied));
    assert_eq!(
        run(&mut f, UNIX, vec![exists(), denied]),
        Ok(Err(wrapped(message, ErrorKind::PermissionDenied)))
    );
    assert_eq!(
        run(&mut f, UNIX, vec![exists(), done(remove()), exists()]),
        Ok(Err(wrapped(message, ErrorKind::AlreadyExists)))
    );
}

#[test]
fn nothing_is_removed_without_leave() {
    let mut f = fields(EntryType::Regular);
    f.overwrite = false;
    f.data = vec![EntryIo::Data(1)];
    let exists = (Action::OpenNew(dst()), fail(ErrorKind::AlreadyExists));
    assert_eq!(
        run(&mut f, UNIX, vec![exists]),
        Ok(Err(wrapped("failed to unpack `name` into `/d/f`", ErrorKind::AlreadyExists)))
    );
    assert_eq!(f.data, vec![EntryIo::Data(1)]);
}

#[test]
fn content_failures_are_reported() {
    let message = "failed to unpack `name` into `/d/f`";
    let with = |data: Vec<EntryIo>| {
        let mut f = fields(EntryType::Regular);
        f.data = data;
        f
    };
    let open = || done(Action::OpenNew(dst()));
    assert_eq!(
        run(&mut with(vec![EntryIo::Data(5)]), UNIX, vec![
            open(),
            (Action::CopyData(5), Reply::Count(4)),
        ]),
        Ok(Err(Error::from_cause(
            message.to_string(),
            other("failed to write entire file".to_string())
        )))
    );
    assert_eq!(
        run(&mut with(vec![EntryIo::Data(5)]), UNIX, vec![
            open(),
            (Action::CopyData(5), fail(ErrorKind::WriteZero)),
        ]),
        Ok(Err(wrapped(message, ErrorKind::WriteZero)))
    );
    assert_eq!(
        run(&mut with(vec![EntryIo::Pad { byte: 0, limit: 5 }]), UNIX, vec![
            open(),
            (Action::SeekBy(5), fail(ErrorKind::InvalidInput)),
        ]),
        Ok(Err(wrapped(message, ErrorKind::InvalidInput)))
    );
    assert_eq!(
        run(&mut with(vec![EntryIo::Pad { byte: 0, limit: 5 }]), UNIX, vec![
            open(),
            (Action::SeekBy(5), Reply::Count(5)),
            (Action::SetLen(5), fail(ErrorKind::Other)),
        ]),
        Ok(Err(wrapped(message, ErrorKind::Other)))
    );
}

#[test]
fn holes_beyond_the_signed_range_wrap() {
    let mut f = fields(EntryType::Regular);
    f.data = vec![EntryIo::Pad { byte: 0, limit: u64::MAX }];
    assert_eq!(
        run(&mut f, UNIX, vec![done(Action::OpenNew(dst()))]),
        Err(Action::SeekBy(-1))
    );
}

#[test]
fn file_times_failure_is_reported() {
    let mut f = fields(EntryType::Regular);
    let script = vec![done(Action::OpenNew(dst())), (stamp(), fail(ErrorKind::PermissionDenied))];
    assert_eq!(
        run(&mut f, UNIX, script),
        Ok(Err(wrapped("failed to set mtime for `/d/f`", ErrorKind::PermissionDenied)))
    );
}

#[test]
fn time_zero_is_never_set() {
    let mut f = fields(EntryType::Regular);
    assert_eq!(get_mtime(&f.header, UNIX), Some(FileTime::from_unix_time(1, 0)));
    f.header.mtime = Ok(1);
    assert_eq!(get_mtime(&f.header, UNIX), Some(FileTime::from_unix_time(1, 0)));
    f.header.mtime = Ok(1234567890);
    assert_eq!(get_mtime(&f.header, UNIX), Some(FileTime::from_unix_time(1234567890, 0)));
    f.header.mtime = Ok(u64::MAX);
    assert_eq!(get_mtime(&f.header, UNIX), Some(FileTime::from_unix_time(-1, 0)));
    f.header.mtime = Err(other("mtime".to_string()));
    assert_eq!(get_mtime(&f.header, UNIX), None);
}

#[test]
fn times_that_windows_cannot_keep_are_passed_over_there() {
    let last: u64 = 9223372025210302207;
    let mut f = fields(EntryType::Regular);
    f.header.mtime = Ok(last);
    assert!(get_mtime(&f.header, Host::Windows).is_some());
    f.header.mtime = Ok(last + 1);
    assert_eq!(get_mtime(&f.header, Host::Windows), None);
    f.header.mtime = Ok(u64::MAX);
    assert_eq!(get_mtime(&f.header, Host::Windows), Some(FileTime::from_unix_time(-1, 0)));
}

fn tagged() -> EntryFields {
    let mut f = fields(EntryType::Regular);
    f.preserve_mtime = false;
    f.header.mode = Err(other("mode".to_string()));
    f.unpack_xattrs = true;
    f.pax_extensions =
        Some(b"9 path=p\n23 SCHILY.xattr.a=\"b\xff\"\nbad\n21 SCHILY.xattr.c=dd\n".to_vec());
    f
}

#[test]
fn xattrs_are_set_in_their_order() {
    let tag = |key: &[u8], value: &[u8]| Action::SetXattr {
        path: dst(),
        key: key.to_vec(),
        value: value.to_vec(),
    };
    let script = vec![
        done(Action::OpenNew(dst())),
        done(tag(b"a", b"\"b\xff\"")),
        done(tag(b"c", b"dd")),
    ];
    assert_eq!(run(&mut tagged(), UNIX, script), Ok(Ok(Unpacked::File)));
    let script = vec![
        done(Action::OpenNew(dst())),
        (
            tag(b"a", b"\"b\xff\""),
            Reply::Unset(text(ErrorKind::Unsupported, "boom"), "\"a\"".to_string()),
        ),
    ];
    assert_eq!(
        run(&mut tagged(), UNIX, script),
        Ok(Err(wrapped(
            "failed to set extended attributes to /d/f. Xattrs: key=\"a\", \
             value=\"\\\"b\u{fffd}\\\"\".",
            ErrorKind::Unsupported
        )))
    );
}

#[test]
fn xattrs_are_set_only_where_asked_for_and_offered() {
    let open = || vec![done(Action::OpenNew(dst()))];
    let mut f = tagged();
    assert_eq!(run(&mut f, Host::Unix { xattrs: false }, open()), Ok(Ok(Unpacked::File)));
    assert_eq!(run(&mut f, Host::Windows, open()), Ok(Ok(Unpacked::File)));
    f.unpack_xattrs = false;
    assert_eq!(run(&mut f, UNIX, open()), Ok(Ok(Unpacked::File)));
    f.unpack_xattrs = true;
    f.pax_extensions = None;
    assert_eq!(run(&mut f, UNIX, open()), Ok(Ok(Unpacked::File)));
}

#[test]
fn replies_that_do_not_fit_change_nothing() {
    let mut f = fields(EntryType::Regular);
    f.data = vec![EntryIo::Data(1)];
    let u = start(&f, UNIX);
    for reply in [Reply::Answer(true), Reply::Count(3), Reply::Path(dst())] {
        let v = start(&f, UNIX).step(&mut f, reply);
        assert_eq!(v.action(), u.action());
    }
    assert_eq!(f.data, vec![EntryIo::Data(1)]);
    assert!(!u.is_finished());
    assert_eq!(u.outcome(), None);
    let over = start(&fields(EntryType::XHeader), UNIX).step(&mut f, Reply::Done);
    assert_eq!(over.outcome(), Some(Ok(Unpacked::__Nonexhaustive)));
}

#[test]
fn resolved_paths_are_held_against_the_destination() {
    assert_eq!(validate_inside_dst(b"/a/b", b"/a".to_vec(), UNIX), Ok(b"/a".to_vec()));
    assert_eq!(validate_inside_dst(b"/a", b"/a".to_vec(), UNIX), Ok(b"/a".to_vec()));
    assert_eq!(
        validate_inside_dst(b"/ab", b"/a".to_vec(), UNIX),
        Err(Error::from_cause(
            "trying to unpack outside of destination path: /a".to_string(),
            other("Invalid argument".to_string())
        ))
    );
}

/// A reply that the operation can have, picked by `n`.
fn some_reply(action: &Action<Vec<u8>>, n: usize) -> FileReply {
    let failed = match n % 3 {
        0 => fail(ErrorKind::AlreadyExists),
        1 => fail(ErrorKind::NotFound),
        _ => Reply::Done,
    };
    match action {
        Action::IsDir(_) | Action::Exists(_) => Reply::Answer(n % 2 == 0),
        Action::Canonicalize(path) => Reply::Path(path.clone()),
        Action::CopyData(k) => Reply::Count(*k),
        Action::SeekBy(k) => Reply::Count(*k as u64),
        Action::SetXattr { .. } => Reply::Done,
        _ => failed,
    }
}

#[test]
fn unpacking_ends_and_opens_the_file_once() {
    for kind in [EntryType::Regular, EntryType::Directory, EntryType::Symlink, EntryType::Link] {
        for seed in 0..9 {
            let mut f = link(kind, "t");
            f.unpack_xattrs = true;
            f.preserve_ownerships = true;
            f.pax_extensions = tagged().pax_extensions;
            f.data = vec![EntryIo::Data(1), EntryIo::Pad { byte: 0, limit: 2 }, EntryIo::Data(3)];
            let mut u = start(&f, UNIX);
            let mut steps: usize = 0;
            let mut opened = false;
            while let Some(action) = u.action() {
                let reply = some_reply(&action, seed / (steps % 3 + 1));
                if let Action::OpenNew(_) = action {
                    assert!(!opened);
                    opened = reply == Reply::Done;
                }
                u = u.step(&mut f, reply);
                steps += 1;
            }
            // At most eleven for any entry, two for each stretch, one for each attribute.
            assert!(steps <= 11 + 2 * 3 + 2);
        }
    }
}

#[test]
fn only_the_destination_is_changed() {
    let mut f = fields(EntryType::Regular);
    f.preserve_ownerships = true;
    let mut u = start(&f, UNIX);
    while let Some(action) = u.action() {
        match &action {
            Action::OpenNew(path)
            | Action::SetFileTimes { path, .. }
            | Action::ChangeOwner { path, .. }
            | Action::SetMode { path, .. } => assert_eq!(*path, dst()),
            other => panic!("{:?}", other),
        }
        u = u.step(&mut f, Reply::Done);
    }
    assert_eq!(u.outcome(), Some(Ok(Unpacked::File)));
}

#[test]
fn failures_keep_their_kind() {
    for kind in [ErrorKind::TimedOut, ErrorKind::OutOfMemory, ErrorKind::Uncategorized] {
        let script = vec![(Action::OpenNew(dst()), fail(kind))];
        let e = run(&mut fields(EntryType::Regular), UNIX, script).unwrap().unwrap_err();
        assert_eq!(e.kind, kind);
    }
}
