//! Unpacking one entry: which file operations are asked for, and when.
//!
//! An [`Unpack`] says which operation comes next. Whoever runs it performs the operation and
//! hands back what came of it, until there is an outcome.
use crate::action::{
    file_time, from_unix_time, keeps_time, Action, FileReply, Reply, ReplyView,
    LAST_WINDOWS_SECOND,
};
use crate::bytes::copy_bytes;
use crate::entry::{EntryFields, EntryIo, Unpacked};
use crate::error::{Error, ErrorKind, ErrorView};
use crate::header::{field_view, EntryType, Header};
use crate::host::{path_view, Host, BACKSLASH};
use crate::host_path::{components_on, is_inside, look_up, looked_up, same_path, starts_with};
use crate::messages::{
    canonicalize_failed, canonicalize_failed_error, content_failed, content_failed_error,
    create_dir_failed, create_dir_failed_error, empty_link_name, empty_link_name_error,
    hard_link_failed, hard_link_failed_error, id_too_large, id_too_large_error, missing_link_name,
    missing_link_name_error, mtime_failed, mtime_failed_error, not_implemented,
    not_implemented_error, outside_destination, outside_destination_error, ownership_failed,
    ownership_failed_error, permissions_failed, permissions_failed_error, short_copy,
    short_copy_error, symlink_failed, symlink_failed_error, xattr_failed, xattr_failed_error,
};
use crate::path::SEPARATOR;
use crate::pax::{find_xattr, next_xattr};
use filetime::FileTime;
use vstd::prelude::*;

verus! {

/// Where the unpacking of an entry stands. `B` stands for bytes and `E` for errors.
#[derive(Debug)]
pub enum State<B, E> {
    /// The directory is being made.
    MakeDir,
    /// Something is in the way of the directory; the failure to make it is kept.
    ProbeDir(E),
    /// The source of a hard link is being resolved.
    ResolveSource { base: B, source: B },
    /// The directory that the source must lie in is being resolved.
    ResolveBase { base: B, source: B, resolved: B },
    /// The hard link is being made, perhaps for the second time.
    HardLink { source: B, again: bool },
    /// The source of the hard link is being resolved, since something is in the way; the failure to
    /// make the link is kept.
    CompareSource { source: B, cause: E },
    /// What is in the way of the hard link is being resolved, so that the source itself is not
    /// removed.
    ComparePlace { source: B, cause: E, resolved: B },
    /// What is in the way of the hard link is being removed.
    ClearHardLink { source: B },
    /// What stands at the destination already, or is linked there, is being resolved, before
    /// anything is set on it.
    ResolvePlace,
    /// The symbolic link is being made, perhaps for the second time.
    Symlink { source: B, again: bool },
    /// What is in the way of the symbolic link is being removed.
    ClearLink { source: B },
    /// The times of the symbolic link are being set.
    StampLink(FileTime),
    /// The file is being opened, perhaps for the second time.
    Open { again: bool },
    /// What is in the way of the file is being removed.
    ClearFile,
    /// A stretch of the archive is being copied to the file.
    Copy(u64),
    /// A hole is being skipped in the file.
    Skip(u64),
    /// The file is being lengthened up to the end of a hole.
    Lengthen(u64),
    /// The times of the file, the directory or the hard link are being set.
    Stamp { open: bool, time: FileTime },
    /// Owner and group are being set.
    Own { open: bool, uid: u32, gid: u32 },
    /// Permission bits are being set: those in `bits`, out of `mode`.
    Permit { open: bool, mode: u32, bits: u32 },
    /// Writing is being forbidden.
    Forbid { open: bool, mode: u32 },
    /// An extended attribute is being set; `rest` is the pax data that follows it.
    Tag { key: B, value: B, rest: B },
    /// It is over.
    Finished(Result<Unpacked, E>),
}

/// A state in specifications.
pub type StateView = State<Seq<u8>, ErrorView>;

impl View for State<Vec<u8>, Error> {
    type V = StateView;

    open spec fn view(&self) -> StateView {
        match *self {
            State::MakeDir => State::MakeDir,
            State::ProbeDir(e) => State::ProbeDir(e@),
            State::ResolveSource { base, source } => State::ResolveSource {
                base: base@,
                source: source@,
            },
            State::ResolveBase { base, source, resolved } => State::ResolveBase {
                base: base@,
                source: source@,
                resolved: resolved@,
            },
            State::HardLink { source, again } => State::HardLink { source: source@, again },
            State::CompareSource { source, cause } => State::CompareSource {
                source: source@,
                cause: cause@,
            },
            State::ComparePlace { source, cause, resolved } => State::ComparePlace {
                source: source@,
                cause: cause@,
                resolved: resolved@,
            },
            State::ClearHardLink { source } => State::ClearHardLink { source: source@ },
            State::ResolvePlace => State::ResolvePlace,
            State::Symlink { source, again } => State::Symlink { source: source@, again },
            State::ClearLink { source } => State::ClearLink { source: source@ },
            State::StampLink(time) => State::StampLink(time),
            State::Open { again } => State::Open { again },
            State::ClearFile => State::ClearFile,
            State::Copy(n) => State::Copy(n),
            State::Skip(n) => State::Skip(n),
            State::Lengthen(n) => State::Lengthen(n),
            State::Stamp { open, time } => State::Stamp { open, time },
            State::Own { open, uid, gid } => State::Own { open, uid, gid },
            State::Permit { open, mode, bits } => State::Permit { open, mode, bits },
            State::Forbid { open, mode } => State::Forbid { open, mode },
            State::Tag { key, value, rest } => State::Tag {
                key: key@,
                value: value@,
                rest: rest@,
            },
            State::Finished(Ok(u)) => State::Finished(Ok(u)),
            State::Finished(Err(e)) => State::Finished(Err(e@)),
        }
    }
}

/// The unpacking of an entry, in specifications.
pub struct UnpackView {
    /// The resolved directory that the entry must not leave, where there is one.
    pub base: Option<Seq<u8>>,
    /// Where the entry goes.
    pub dst: Seq<u8>,
    /// The host.
    pub host: Host,
    /// The stretches of the content that follow the present one.
    pub pieces: Seq<EntryIo>,
    /// Where it stands.
    pub state: StateView,
}

/// The time that a header gives its entry, in seconds since the epoch. A time of zero is taken as
/// one second later, since some tools reject it.
pub open spec fn mtime_seconds(mtime: u64) -> i64 {
    if mtime == 0 {
        1
    } else {
        mtime as i64
    }
}

/// The time to stamp an entry with, where its header gives one that the host can keep.
pub open spec fn mtime_of(header: Header, host: Host) -> Option<FileTime> {
    match header.mtime {
        Ok(mtime) => if keeps_time(mtime_seconds(mtime), host) {
            Some(file_time(mtime_seconds(mtime), 0))
        } else {
            None
        },
        Err(_) => None,
    }
}

/// The permission bits for reading, writing and executing.
pub const ACCESS_BITS: u32 = 0x1ff;

/// The permission bit that lets the owner write.
pub const OWNER_WRITE: u32 = 0x80;

/// The end of a success that is not a file.
pub open spec fn done() -> StateView {
    State::Finished(Ok(Unpacked::__Nonexhaustive))
}

/// The end with an error.
pub open spec fn failed(e: ErrorView) -> StateView {
    State::Finished(Err(e))
}

/// Setting the extended attributes that are left in `pax`.
pub open spec fn tagging(pax: Seq<u8>) -> StateView {
    match next_xattr(pax) {
        Some((key, value, rest)) => State::Tag { key, value, rest },
        None => State::Finished(Ok(Unpacked::File)),
    }
}

/// What follows once the permissions are set: for an open file its extended attributes, where
/// they are asked for, known, and offered by the host.
pub open spec fn concluding(entry: EntryFields, host: Host, open: bool) -> StateView {
    if !open {
        done()
    } else {
        match (entry.unpack_xattrs, host, entry.pax_extensions) {
            (true, Host::Unix { xattrs: true }, Some(pax)) => tagging(pax@),
            _ => State::Finished(Ok(Unpacked::File)),
        }
    }
}

/// Setting the permissions that the header gives, as far as the host has them.
pub open spec fn permitting(entry: EntryFields, dst: Seq<u8>, host: Host, open: bool) -> StateView {
    match (entry.header.mode, host) {
        (Err(_), _) => concluding(entry, host, open),
        (Ok(mode), Host::Unix { .. }) => State::Permit {
            open,
            mode,
            bits: if entry.preserve_permissions {
                mode
            } else {
                mode & ACCESS_BITS
            },
        },
        (Ok(mode), Host::Windows) => if mode & OWNER_WRITE == OWNER_WRITE {
            concluding(entry, host, open)
        } else {
            State::Forbid { open, mode }
        },
        (Ok(mode), Host::Wasm) => failed(permissions_failed(not_implemented(), mode, dst)),
    }
}

/// Setting owner and group, where they are kept, and the permissions after them: setting an owner
/// can take permission bits away.
pub open spec fn owning(entry: EntryFields, dst: Seq<u8>, host: Host, open: bool) -> StateView {
    if !entry.preserve_ownerships {
        permitting(entry, dst, host, open)
    } else {
        match (field_view(entry.header.uid), field_view(entry.header.gid)) {
            (Err(e), _) => failed(e),
            (Ok(_), Err(e)) => failed(e),
            (Ok(uid), Ok(gid)) => if !(host is Unix) {
                permitting(entry, dst, host, open)
            } else if uid > u32::MAX {
                failed(ownership_failed(id_too_large("UID "@, uid), uid, gid, dst))
            } else if gid > u32::MAX {
                failed(ownership_failed(id_too_large("GID "@, gid), uid, gid, dst))
            } else {
                State::Own { open, uid: uid as u32, gid: gid as u32 }
            },
        }
    }
}

/// Setting the times of a file, a directory or a hard link, where they are kept and known, and what
/// follows that.
pub open spec fn stamping(entry: EntryFields, dst: Seq<u8>, host: Host, open: bool) -> StateView {
    match (entry.preserve_mtime, mtime_of(entry.header, host)) {
        (true, Some(time)) => State::Stamp { open, time },
        _ => owning(entry, dst, host, open),
    }
}

/// What follows when the entry has a place that may be a link to another. Where there is a directory
/// that must not be left, and something is to be set on the place, it is resolved first.
pub open spec fn settling(
    entry: EntryFields,
    base: Option<Seq<u8>>,
    dst: Seq<u8>,
    host: Host,
) -> StateView {
    let next = stamping(entry, dst, host, false);
    if base is Some && !(next is Finished) {
        State::ResolvePlace
    } else {
        next
    }
}

/// Setting the times of a symbolic link, where they are kept and known.
pub open spec fn stamping_link(entry: EntryFields, host: Host) -> StateView {
    match (entry.preserve_mtime, mtime_of(entry.header, host)) {
        (true, Some(time)) => State::StampLink(time),
        _ => done(),
    }
}

/// Writing the stretches of the content that are left.
pub open spec fn writing(
    entry: EntryFields,
    dst: Seq<u8>,
    host: Host,
    pieces: Seq<EntryIo>,
) -> StateView {
    if pieces.len() == 0 {
        stamping(entry, dst, host, true)
    } else {
        match pieces[0] {
            EntryIo::Data(n) => State::Copy(n),
            EntryIo::Pad { limit, .. } => State::Skip(limit),
        }
    }
}

/// The stretches that follow the first one.
pub open spec fn following(pieces: Seq<EntryIo>) -> Seq<EntryIo> {
    if pieces.len() == 0 {
        pieces
    } else {
        pieces.skip(1)
    }
}

/// Making a link. Its target must be given and must not be empty. A hard link that is made under
/// a directory is looked up from there, and must lie there.
pub open spec fn linking(
    entry: EntryFields,
    base: Option<Seq<u8>>,
    dst: Seq<u8>,
    host: Host,
) -> StateView {
    match entry.link_path(host) {
        Err(e) => failed(e),
        Ok(None) => failed(missing_link_name(entry.header.bytes@)),
        Ok(Some(source)) => if source.len() == 0 {
            failed(empty_link_name(entry.header.bytes@))
        } else if entry.header.entry_type is Link {
            match base {
                Some(dir) => State::ResolveSource {
                    base: dir,
                    source: looked_up(dir, source, host),
                },
                None => State::HardLink { source, again: false },
            }
        } else if host is Wasm {
            failed(symlink_failed(not_implemented(), source, dst))
        } else {
            State::Symlink { source, again: false }
        },
    }
}

/// How the unpacking of an entry begins. Extension entries describe others and are not unpacked;
/// in old formats a name that ends in a separator is that of a directory; and any type that is
/// not known is that of a regular file.
pub open spec fn beginning(
    entry: EntryFields,
    base: Option<Seq<u8>>,
    dst: Seq<u8>,
    host: Host,
) -> StateView {
    match entry.header.entry_type {
        EntryType::Directory => State::MakeDir,
        EntryType::Link | EntryType::Symlink => linking(entry, base, dst, host),
        EntryType::XGlobalHeader | EntryType::XHeader | EntryType::GNULongName
        | EntryType::GNULongLink => done(),
        EntryType::Regular | EntryType::Other(_) => {
            let name = entry.listed_path();
            if !entry.header.ustar && name.len() != 0 && (name.last() == SEPARATOR || name.last()
                == BACKSLASH) {
                State::MakeDir
            } else {
                State::Open { again: false }
            }
        },
    }
}

/// The unpacking of an entry as it begins.
pub open spec fn starting(
    entry: EntryFields,
    base: Option<Seq<u8>>,
    dst: Seq<u8>,
    host: Host,
) -> UnpackView {
    UnpackView {
        base,
        dst,
        host,
        pieces: Seq::empty(),
        state: beginning(entry, base, dst, host),
    }
}

/// A directory that must not be left, by its bytes.
pub open spec fn base_view(base: Option<Vec<u8>>) -> Option<Seq<u8>> {
    match base {
        Some(dir) => Some(dir@),
        None => None,
    }
}

/// The operation that a state waits for; none at the end.
pub open spec fn action_in(m: UnpackView) -> Option<Action<Seq<u8>>> {
    match m.state {
        State::MakeDir => Some(Action::CreateDir(m.dst)),
        State::ProbeDir(_) => Some(Action::IsDir(m.dst)),
        State::ResolveSource { source, .. } => Some(Action::Canonicalize(source)),
        State::ResolveBase { base, .. } => Some(Action::Canonicalize(base)),
        State::HardLink { source, .. } => Some(Action::HardLink { source, link: m.dst }),
        State::CompareSource { source, .. } => Some(Action::Canonicalize(source)),
        State::ComparePlace { .. } => Some(Action::Canonicalize(m.dst)),
        State::ClearHardLink { .. } => Some(Action::RemoveFile(m.dst)),
        State::ResolvePlace => Some(Action::Canonicalize(m.dst)),
        State::Symlink { source, .. } => Some(Action::Symlink { source, link: m.dst }),
        State::ClearLink { .. } => Some(Action::RemoveFile(m.dst)),
        State::StampLink(time) => Some(Action::SetLinkTimes { path: m.dst, time }),
        State::Open { .. } => Some(Action::OpenNew(m.dst)),
        State::ClearFile => Some(Action::RemoveFile(m.dst)),
        State::Copy(n) => Some(Action::CopyData(n)),
        State::Skip(n) => Some(Action::SeekBy(n as i64)),
        State::Lengthen(n) => Some(Action::SetLen(n)),
        State::Stamp { time, .. } => Some(Action::SetFileTimes { path: m.dst, time }),
        State::Own { open, uid, gid } => Some(
            Action::ChangeOwner { path: m.dst, open, uid, gid },
        ),
        State::Permit { open, bits, .. } => Some(
            Action::SetMode { path: m.dst, open, mode: bits },
        ),
        State::Forbid { open, .. } => Some(Action::SetReadonly { path: m.dst, open }),
        State::Tag { key, value, .. } => Some(Action::SetXattr { path: m.dst, key, value }),
        State::Finished(_) => None,
    }
}

/// What follows a reply while a directory or a link is made.
pub open spec fn node_after(
    state: StateView,
    entry: EntryFields,
    base: Option<Seq<u8>>,
    dst: Seq<u8>,
    host: Host,
    reply: ReplyView,
) -> StateView {
    match (state, reply) {
        (State::MakeDir, Reply::Done) => stamping(entry, dst, host, false),
        (State::MakeDir, Reply::Failed(e)) => if e.kind is AlreadyExists {
            State::ProbeDir(e)
        } else {
            failed(create_dir_failed(e, dst))
        },
        (State::ProbeDir(e), Reply::Answer(is_dir)) => if is_dir {
            settling(entry, base, dst, host)
        } else {
            failed(create_dir_failed(e, dst))
        },
        (State::ResolveSource { base: dir, source }, Reply::Path(resolved)) => State::ResolveBase {
            base: dir,
            source,
            resolved,
        },
        (State::ResolveSource { source, .. }, Reply::Failed(e)) => failed(
            canonicalize_failed(e, source),
        ),
        (State::ResolveBase { source, resolved, .. }, Reply::Path(target)) => match validated(
            resolved,
            target,
            host,
        ) {
            Ok(_) => State::HardLink { source, again: false },
            Err(e) => failed(e),
        },
        (State::ResolveBase { base: dir, .. }, Reply::Failed(e)) => failed(
            canonicalize_failed(e, dir),
        ),
        (State::HardLink { .. }, Reply::Done) => settling(entry, base, dst, host),
        (State::HardLink { source, again }, Reply::Failed(e)) => if !again
            && e.kind is AlreadyExists && entry.overwrite {
            State::CompareSource { source, cause: e }
        } else {
            failed(hard_link_failed(e, source, dst))
        },
        (State::CompareSource { source, cause }, Reply::Path(resolved)) => State::ComparePlace {
            source,
            cause,
            resolved,
        },
        (State::CompareSource { source, cause }, Reply::Failed(_)) => failed(
            hard_link_failed(cause, source, dst),
        ),
        (State::ComparePlace { source, cause, resolved }, Reply::Path(place)) => if components_on(
            resolved,
            host,
        ) == components_on(place, host) {
            failed(hard_link_failed(cause, source, dst))
        } else {
            State::ClearHardLink { source }
        },
        (State::ComparePlace { source, .. }, Reply::Failed(_)) => State::ClearHardLink { source },
        (State::ClearHardLink { source }, Reply::Done) => State::HardLink { source, again: true },
        (State::ClearHardLink { source }, Reply::Failed(e)) => failed(
            hard_link_failed(e, source, dst),
        ),
        (State::ResolvePlace, Reply::Path(resolved)) => match base {
            Some(dir) => match validated(resolved, dir, host) {
                Ok(_) => stamping(entry, dst, host, false),
                Err(e) => failed(e),
            },
            None => stamping(entry, dst, host, false),
        },
        (State::ResolvePlace, Reply::Failed(e)) => failed(canonicalize_failed(e, dst)),
        (State::Symlink { .. }, Reply::Done) => stamping_link(entry, host),
        (State::Symlink { source, again }, Reply::Failed(e)) => if !again && e.kind is AlreadyExists
            && entry.overwrite {
            State::ClearLink { source }
        } else {
            failed(symlink_failed(e, source, dst))
        },
        (State::ClearLink { source }, Reply::Done) => State::Symlink { source, again: true },
        (State::ClearLink { source }, Reply::Failed(e)) => failed(symlink_failed(e, source, dst)),
        (State::StampLink(_), Reply::Done) => done(),
        (State::StampLink(_), Reply::Failed(e)) => failed(mtime_failed(e, dst)),
        (state, _) => state,
    }
}

/// What follows a reply while a file is opened and its content is written; `pieces` are the
/// stretches that follow the present one.
pub open spec fn content_after(
    state: StateView,
    entry: EntryFields,
    dst: Seq<u8>,
    host: Host,
    pieces: Seq<EntryIo>,
    reply: ReplyView,
) -> StateView {
    match (state, reply) {
        (State::Open { .. }, Reply::Done) => writing(entry, dst, host, entry.data@),
        (State::Open { again }, Reply::Failed(e)) => if !again && e.kind is AlreadyExists
            && entry.overwrite {
            State::ClearFile
        } else {
            failed(content_failed(e, entry.header.path@, dst))
        },
        (State::ClearFile, Reply::Done) => State::Open { again: true },
        (State::ClearFile, Reply::Failed(e)) => if e.kind is NotFound {
            State::Open { again: true }
        } else {
            failed(content_failed(e, entry.header.path@, dst))
        },
        (State::Copy(expected), Reply::Count(copied)) => if copied == expected {
            writing(entry, dst, host, pieces)
        } else {
            failed(content_failed(short_copy(), entry.header.path@, dst))
        },
        (State::Skip(_), Reply::Count(end)) => State::Lengthen(end),
        (State::Lengthen(_), Reply::Done) => writing(entry, dst, host, pieces),
        (State::Copy(_), Reply::Failed(e)) | (State::Skip(_), Reply::Failed(e)) | (
            State::Lengthen(_),
            Reply::Failed(e),
        ) => failed(content_failed(e, entry.header.path@, dst)),
        (state, _) => state,
    }
}

/// What follows a reply while times, owner, permissions and attributes of a file or a directory are
/// set.
pub open spec fn settings_after(
    state: StateView,
    entry: EntryFields,
    dst: Seq<u8>,
    host: Host,
    reply: ReplyView,
) -> StateView {
    match (state, reply) {
        (State::Stamp { open, .. }, Reply::Done) => owning(entry, dst, host, open),
        (State::Stamp { .. }, Reply::Failed(e)) => failed(mtime_failed(e, dst)),
        (State::Own { open, .. }, Reply::Done) => permitting(entry, dst, host, open),
        (State::Own { uid, gid, .. }, Reply::Failed(e)) => failed(
            ownership_failed(e, uid as u64, gid as u64, dst),
        ),
        (State::Permit { open, .. }, Reply::Done) => concluding(entry, host, open),
        (State::Permit { mode, .. }, Reply::Failed(e)) => failed(permissions_failed(e, mode, dst)),
        (State::Forbid { open, .. }, Reply::Done) => concluding(entry, host, open),
        (State::Forbid { mode, .. }, Reply::Failed(e)) => failed(permissions_failed(e, mode, dst)),
        (State::Tag { rest, .. }, Reply::Done) => tagging(rest),
        (State::Tag { value, .. }, Reply::Unset(e, key)) => failed(xattr_failed(e, dst, key, value)),
        (state, _) => state,
    }
}

/// Whether a directory or a link is being made.
pub open spec fn makes_node(state: StateView) -> bool {
    state is MakeDir || state is ProbeDir || state is ResolveSource || state is ResolveBase
        || state is HardLink || state is CompareSource || state is ComparePlace
        || state is ClearHardLink || state is ResolvePlace || state is Symlink
        || state is ClearLink || state is StampLink
}

/// Whether a file is being opened or its content is being written.
pub open spec fn writes_content(state: StateView) -> bool {
    state is Open || state is ClearFile || state is Copy || state is Skip || state is Lengthen
}

/// What follows a reply. A reply that cannot come from the operation changes nothing.
pub open spec fn state_after(m: UnpackView, entry: EntryFields, reply: ReplyView) -> StateView {
    if makes_node(m.state) {
        node_after(m.state, entry, m.base, m.dst, m.host, reply)
    } else if writes_content(m.state) {
        content_after(m.state, entry, m.dst, m.host, m.pieces, reply)
    } else {
        settings_after(m.state, entry, m.dst, m.host, reply)
    }
}

/// The stretches that are left after a reply. Opening the file takes over all that the entry has.
pub open spec fn pieces_left(
    state: StateView,
    entry: EntryFields,
    pieces: Seq<EntryIo>,
    reply: ReplyView,
) -> Seq<EntryIo> {
    match (state, reply) {
        (State::Open { .. }, Reply::Done) => following(entry.data@),
        (State::Copy(expected), Reply::Count(copied)) if copied == expected => following(pieces),
        (State::Lengthen(_), Reply::Done) => following(pieces),
        _ => pieces,
    }
}

/// The unpacking after a reply.
pub open spec fn after(m: UnpackView, entry: EntryFields, reply: ReplyView) -> UnpackView {
    UnpackView {
        base: m.base,
        dst: m.dst,
        host: m.host,
        pieces: pieces_left(m.state, entry, m.pieces, reply),
        state: state_after(m, entry, reply),
    }
}

/// What comes of holding a resolved path against the resolved directory that it must lie in: that
/// directory, or an error.
pub open spec fn validated(
    resolved: Seq<u8>,
    target: Seq<u8>,
    host: Host,
) -> Result<Seq<u8>, ErrorView> {
    if is_inside(resolved, target, host) {
        Ok(target)
    } else {
        Err(outside_destination(target))
    }
}

/// Holds a resolved path against the resolved directory that it must lie in.
pub fn validate_inside_dst(
    resolved: &[u8],
    target: Vec<u8>,
    host: Host,
) -> (r: Result<Vec<u8>, Error>)
    ensures
        path_view(r) == validated(resolved@, target@, host),
{
    if starts_with(resolved, target.as_slice(), host) {
        Ok(target)
    } else {
        Err(outside_destination_error(target.as_slice()))
    }
}

/// Whether two entries differ at most in the stretches of content that are left.
pub open spec fn same_but_data(a: EntryFields, b: EntryFields) -> bool {
    a == EntryFields { data: a.data, ..b }
}

/// The time to stamp an entry with, where its header gives one that the host can keep. The host must
/// be the one that the program is built for.
pub fn get_mtime(header: &Header, host: Host) -> (r: Option<FileTime>)
    ensures
        r == mtime_of(*header, host),
{
    match &header.mtime {
        Ok(mtime) => {
            let seconds: i64 = if *mtime == 0 { 1 } else { *mtime as i64 };
            if matches!(host, Host::Windows) && seconds > LAST_WINDOWS_SECOND {
                return None;
            }
            Some(from_unix_time(seconds, 0, host))
        },
        Err(_) => None,
    }
}

type FileState = State<Vec<u8>, Error>;

fn tag_next(pax: &[u8]) -> (r: FileState)
    ensures
        r@ == tagging(pax@),
{
    match find_xattr(pax) {
        Some((key, value, rest)) => State::Tag {
            key: copy_bytes(key),
            value: copy_bytes(value),
            rest: copy_bytes(rest),
        },
        None => State::Finished(Ok(Unpacked::File)),
    }
}

fn conclude(entry: &EntryFields, host: Host, open: bool) -> (r: FileState)
    ensures
        r@ == concluding(*entry, host, open),
{
    if !open {
        return State::Finished(Ok(Unpacked::__Nonexhaustive));
    }
    match (entry.unpack_xattrs, host, &entry.pax_extensions) {
        (true, Host::Unix { xattrs: true }, Some(pax)) => tag_next(pax.as_slice()),
        _ => State::Finished(Ok(Unpacked::File)),
    }
}

fn set_perms(entry: &EntryFields, dst: &[u8], host: Host, open: bool) -> (r: FileState)
    ensures
        r@ == permitting(*entry, dst@, host, open),
{
    match entry.header.mode() {
        Err(_) => conclude(entry, host, open),
        Ok(mode) => match host {
            Host::Unix { .. } => {
                let bits: u32 = if entry.preserve_permissions { mode } else { mode & ACCESS_BITS };
                State::Permit { open, mode, bits }
            },
            Host::Windows => {
                if mode & OWNER_WRITE == OWNER_WRITE {
                    conclude(entry, host, open)
                } else {
                    State::Forbid { open, mode }
                }
            },
            Host::Wasm => State::Finished(
                Err(permissions_failed_error(not_implemented_error(), mode, dst)),
            ),
        },
    }
}

fn set_perms_ownerships(entry: &EntryFields, dst: &[u8], host: Host, open: bool) -> (r: FileState)
    ensures
        r@ == owning(*entry, dst@, host, open),
{
    if !entry.preserve_ownerships {
        return set_perms(entry, dst, host, open);
    }
    let uid: u64 = match entry.header.uid() {
        Ok(uid) => uid,
        Err(e) => {
            return State::Finished(Err(e));
        },
    };
    let gid: u64 = match entry.header.gid() {
        Ok(gid) => gid,
        Err(e) => {
            return State::Finished(Err(e));
        },
    };
    if !matches!(host, Host::Unix { .. }) {
        return set_perms(entry, dst, host, open);
    }
    if uid > u32::MAX as u64 {
        let cause: Error = id_too_large_error("UID ", uid);
        return State::Finished(Err(ownership_failed_error(cause, uid, gid, dst)));
    }
    if gid > u32::MAX as u64 {
        let cause: Error = id_too_large_error("GID ", gid);
        return State::Finished(Err(ownership_failed_error(cause, uid, gid, dst)));
    }
    State::Own { open, uid: uid as u32, gid: gid as u32 }
}

fn stamp(entry: &EntryFields, dst: &[u8], host: Host, open: bool) -> (r: FileState)
    ensures
        r@ == stamping(*entry, dst@, host, open),
{
    if entry.preserve_mtime {
        if let Some(time) = get_mtime(&entry.header, host) {
            return State::Stamp { open, time };
        }
    }
    set_perms_ownerships(entry, dst, host, open)
}

fn settle(entry: &EntryFields, base: &Option<Vec<u8>>, dst: &[u8], host: Host) -> (r: FileState)
    ensures
        r@ == settling(*entry, base_view(*base), dst@, host),
{
    let next: FileState = stamp(entry, dst, host, false);
    if base.is_some() && !matches!(next, State::Finished(_)) {
        State::ResolvePlace
    } else {
        next
    }
}

fn settle_inside(
    entry: &EntryFields,
    base: &Option<Vec<u8>>,
    dst: &[u8],
    host: Host,
    resolved: &[u8],
) -> (r: FileState)
    ensures
        r@ == node_after(
            State::ResolvePlace,
            *entry,
            base_view(*base),
            dst@,
            host,
            Reply::Path(resolved@),
        ),
{
    if let Some(dir) = base {
        if let Err(e) = validate_inside_dst(resolved, copy_bytes(dir.as_slice()), host) {
            return State::Finished(Err(e));
        }
    }
    stamp(entry, dst, host, false)
}

fn stamp_link(entry: &EntryFields, host: Host) -> (r: FileState)
    ensures
        r@ == stamping_link(*entry, host),
{
    if entry.preserve_mtime {
        if let Some(time) = get_mtime(&entry.header, host) {
            return State::StampLink(time);
        }
    }
    State::Finished(Ok(Unpacked::__Nonexhaustive))
}

fn write_next(
    entry: &EntryFields,
    dst: &[u8],
    host: Host,
    pieces: Vec<EntryIo>,
) -> (r: (FileState, Vec<EntryIo>))
    ensures
        r.0@ == writing(*entry, dst@, host, pieces@),
        r.1@ == following(pieces@),
{
    let mut rest: Vec<EntryIo> = pieces;
    if rest.len() == 0 {
        return (stamp(entry, dst, host, true), rest);
    }
    let piece: EntryIo = rest.remove(0);
    assert(rest@ =~= pieces@.skip(1));
    match piece {
        EntryIo::Data(n) => (State::Copy(n), rest),
        EntryIo::Pad { limit, .. } => (State::Skip(limit), rest),
    }
}

fn make_link(entry: &EntryFields, base: Option<&[u8]>, dst: &[u8], host: Host) -> (r: FileState)
    ensures
        r@ == linking(
            *entry,
            match base {
                Some(dir) => Some(dir@),
                None => None,
            },
            dst@,
            host,
        ),
{
    let source: Vec<u8> = match entry.link_name(host) {
        Err(e) => {
            return State::Finished(Err(e));
        },
        Ok(None) => {
            return State::Finished(Err(missing_link_name_error(entry.header.as_bytes())));
        },
        Ok(Some(source)) => source,
    };
    if source.len() == 0 {
        return State::Finished(Err(empty_link_name_error(entry.header.as_bytes())));
    }
    if entry.header.entry_type().is_hard_link() {
        match base {
            Some(dir) => State::ResolveSource {
                base: copy_bytes(dir),
                source: look_up(dir, source.as_slice(), host),
            },
            None => State::HardLink { source, again: false },
        }
    } else if matches!(host, Host::Wasm) {
        State::Finished(
            Err(symlink_failed_error(&not_implemented_error(), source.as_slice(), dst)),
        )
    } else {
        State::Symlink { source, again: false }
    }
}

fn begin(entry: &EntryFields, base: Option<&[u8]>, dst: &[u8], host: Host) -> (r: FileState)
    ensures
        r@ == beginning(
            *entry,
            match base {
                Some(dir) => Some(dir@),
                None => None,
            },
            dst@,
            host,
        ),
{
    let kind: EntryType = entry.header.entry_type();
    if kind.is_dir() {
        return State::MakeDir;
    }
    if kind.is_hard_link() || kind.is_symlink() {
        return make_link(entry, base, dst, host);
    }
    if kind.is_pax_global_extensions() || kind.is_pax_local_extensions() || kind.is_gnu_longname()
        || kind.is_gnu_longlink() {
        return State::Finished(Ok(Unpacked::__Nonexhaustive));
    }
    let name: &[u8] = entry.path_bytes();
    let n: usize = name.len();
    if !entry.header.is_ustar() && n > 0 && (name[n - 1] == SEPARATOR || name[n - 1] == BACKSLASH) {
        State::MakeDir
    } else {
        State::Open { again: false }
    }
}

fn step_node(
    state: FileState,
    entry: &EntryFields,
    base: &Option<Vec<u8>>,
    to: &[u8],
    host: Host,
    reply: FileReply,
) -> (r: FileState)
    ensures
        r@ == node_after(state@, *entry, base_view(*base), to@, host, reply@),
{
    match (state, reply) {
        (State::MakeDir, Reply::Done) => stamp(entry, to, host, false),
        (State::MakeDir, Reply::Failed(e)) => {
            if matches!(e.kind, ErrorKind::AlreadyExists) {
                State::ProbeDir(e)
            } else {
                State::Finished(Err(create_dir_failed_error(&e, to)))
            }
        },
        (State::ProbeDir(e), Reply::Answer(is_dir)) => {
            if is_dir {
                settle(entry, base, to, host)
            } else {
                State::Finished(Err(create_dir_failed_error(&e, to)))
            }
        },
        (State::ResolveSource { base: dir, source }, Reply::Path(resolved)) => State::ResolveBase {
            base: dir,
            source,
            resolved,
        },
        (State::ResolveSource { source, .. }, Reply::Failed(e)) => State::Finished(
            Err(canonicalize_failed_error(&e, source.as_slice())),
        ),
        (State::ResolveBase { source, resolved, .. }, Reply::Path(target)) => {
            match validate_inside_dst(resolved.as_slice(), target, host) {
                Ok(_) => State::HardLink { source, again: false },
                Err(e) => State::Finished(Err(e)),
            }
        },
        (State::ResolveBase { base: dir, .. }, Reply::Failed(e)) => State::Finished(
            Err(canonicalize_failed_error(&e, dir.as_slice())),
        ),
        (State::HardLink { .. }, Reply::Done) => settle(entry, base, to, host),
        (State::HardLink { source, again }, Reply::Failed(e)) => {
            if !again && matches!(e.kind, ErrorKind::AlreadyExists) && entry.overwrite {
                State::CompareSource { source, cause: e }
            } else {
                State::Finished(Err(hard_link_failed_error(&e, source.as_slice(), to)))
            }
        },
        (State::CompareSource { source, cause }, Reply::Path(resolved)) => State::ComparePlace {
            source,
            cause,
            resolved,
        },
        (State::CompareSource { source, cause }, Reply::Failed(_)) => State::Finished(
            Err(hard_link_failed_error(&cause, source.as_slice(), to)),
        ),
        (State::ComparePlace { source, cause, resolved }, Reply::Path(place)) => {
            if same_path(resolved.as_slice(), place.as_slice(), host) {
                State::Finished(Err(hard_link_failed_error(&cause, source.as_slice(), to)))
            } else {
                State::ClearHardLink { source }
            }
        },
        (State::ComparePlace { source, .. }, Reply::Failed(_)) => State::ClearHardLink { source },
        (State::ClearHardLink { source }, Reply::Done) => State::HardLink { source, again: true },
        (State::ClearHardLink { source }, Reply::Failed(e)) => State::Finished(
            Err(hard_link_failed_error(&e, source.as_slice(), to)),
        ),
        (State::ResolvePlace, Reply::Path(resolved)) => {
            settle_inside(entry, base, to, host, resolved.as_slice())
        },
        (State::ResolvePlace, Reply::Failed(e)) => State::Finished(
            Err(canonicalize_failed_error(&e, to)),
        ),
        (State::Symlink { .. }, Reply::Done) => stamp_link(entry, host),
        (State::Symlink { source, again }, Reply::Failed(e)) => {
            if !again && matches!(e.kind, ErrorKind::AlreadyExists) && entry.overwrite {
                State::ClearLink { source }
            } else {
                State::Finished(Err(symlink_failed_error(&e, source.as_slice(), to)))
            }
        },
        (State::ClearLink { source }, Reply::Done) => State::Symlink { source, again: true },
        (State::ClearLink { source }, Reply::Failed(e)) => State::Finished(
            Err(symlink_failed_error(&e, source.as_slice(), to)),
        ),
        (State::StampLink(_), Reply::Done) => State::Finished(Ok(Unpacked::__Nonexhaustive)),
        (State::StampLink(_), Reply::Failed(e)) => State::Finished(Err(mtime_failed_error(e, to))),
        (state, _) => state,
    }
}

fn content_failure(e: Error, entry: &EntryFields, to: &[u8]) -> (r: FileState)
    ensures
        r@ == failed(content_failed(e@, entry.header.path@, to@)),
{
    State::Finished(Err(content_failed_error(e, entry.header.path_bytes(), to)))
}

fn step_content(
    state: FileState,
    entry: &mut EntryFields,
    to: &[u8],
    host: Host,
    pieces: Vec<EntryIo>,
    reply: FileReply,
) -> (r: (FileState, Vec<EntryIo>))
    ensures
        r.0@ == content_after(state@, *old(entry), to@, host, pieces@, reply@),
        r.1@ == pieces_left(state@, *old(entry), pieces@, reply@),
        same_but_data(*final(entry), *old(entry)),
        final(entry).data@ == if state is Open && reply is Done {
            Seq::empty()
        } else {
            old(entry).data@
        },
{
    match (state, reply) {
        (State::Open { .. }, Reply::Done) => {
            let mut taken: Vec<EntryIo> = Vec::new();
            taken.append(&mut entry.data);
            assert(taken@ =~= old(entry).data@);
            write_next(entry, to, host, taken)
        },
        (State::Open { again }, Reply::Failed(e)) => {
            if !again && matches!(e.kind, ErrorKind::AlreadyExists) && entry.overwrite {
                (State::ClearFile, pieces)
            } else {
                (content_failure(e, entry, to), pieces)
            }
        },
        (State::ClearFile, Reply::Done) => (State::Open { again: true }, pieces),
        (State::ClearFile, Reply::Failed(e)) => {
            if matches!(e.kind, ErrorKind::NotFound) {
                (State::Open { again: true }, pieces)
            } else {
                (content_failure(e, entry, to), pieces)
            }
        },
        (State::Copy(expected), Reply::Count(copied)) => {
            if copied == expected {
                write_next(entry, to, host, pieces)
            } else {
                (content_failure(short_copy_error(), entry, to), pieces)
            }
        },
        (State::Skip(_), Reply::Count(end)) => (State::Lengthen(end), pieces),
        (State::Lengthen(_), Reply::Done) => write_next(entry, to, host, pieces),
        (State::Copy(_), Reply::Failed(e)) | (State::Skip(_), Reply::Failed(e)) | (
            State::Lengthen(_),
            Reply::Failed(e),
        ) => (content_failure(e, entry, to), pieces),
        (state, _) => (state, pieces),
    }
}

fn step_settings(
    state: FileState,
    entry: &EntryFields,
    to: &[u8],
    host: Host,
    reply: FileReply,
) -> (r: FileState)
    ensures
        r@ == settings_after(state@, *entry, to@, host, reply@),
{
    match (state, reply) {
        (State::Stamp { open, .. }, Reply::Done) => set_perms_ownerships(entry, to, host, open),
        (State::Stamp { .. }, Reply::Failed(e)) => State::Finished(Err(mtime_failed_error(e, to))),
        (State::Own { open, .. }, Reply::Done) => set_perms(entry, to, host, open),
        (State::Own { uid, gid, .. }, Reply::Failed(e)) => State::Finished(
            Err(ownership_failed_error(e, uid as u64, gid as u64, to)),
        ),
        (State::Permit { open, .. }, Reply::Done) => conclude(entry, host, open),
        (State::Forbid { open, .. }, Reply::Done) => conclude(entry, host, open),
        (State::Permit { mode, .. }, Reply::Failed(e)) => State::Finished(
            Err(permissions_failed_error(e, mode, to)),
        ),
        (State::Forbid { mode, .. }, Reply::Failed(e)) => State::Finished(
            Err(permissions_failed_error(e, mode, to)),
        ),
        (State::Tag { rest, .. }, Reply::Done) => tag_next(rest.as_slice()),
        (State::Tag { value, .. }, Reply::Unset(e, key)) => State::Finished(
            Err(xattr_failed_error(e, to, key.as_str(), value.as_slice())),
        ),
        (state, _) => state,
    }
}

/// The unpacking of an entry.
#[derive(Debug)]
pub struct Unpack {
    base: Option<Vec<u8>>,
    dst: Vec<u8>,
    host: Host,
    pieces: Vec<EntryIo>,
    state: State<Vec<u8>, Error>,
}

impl View for Unpack {
    type V = UnpackView;

    closed spec fn view(&self) -> UnpackView {
        UnpackView {
            base: base_view(self.base),
            dst: self.dst@,
            host: self.host,
            pieces: self.pieces@,
            state: self.state@,
        }
    }
}

impl Unpack {
    /// Begins to unpack `entry` to `dst`. Where `base` is given, it is a resolved directory that must
    /// not be left: the sources of hard links must lie in it, and so must whatever stands at `dst`
    /// already when something is set on it. The host must be the one that the program is built for.
    pub fn start(entry: &EntryFields, base: Option<&[u8]>, dst: &[u8], host: Host) -> (r: Unpack)
        ensures
            r@ == starting(
                *entry,
                match base {
                    Some(dir) => Some(dir@),
                    None => None,
                },
                dst@,
                host,
            ),
    {
        Unpack {
            base: match base {
                Some(dir) => Some(copy_bytes(dir)),
                None => None,
            },
            dst: copy_bytes(dst),
            host,
            pieces: Vec::new(),
            state: begin(entry, base, dst, host),
        }
    }

    /// The operation that comes next; none when it is over.
    pub fn action(&self) -> (r: Option<Action<Vec<u8>>>)
        ensures
            r is Some <==> action_in(self@) is Some,
            r matches Some(a) ==> action_in(self@) == Some(a@),
    {
        let dst: &[u8] = self.dst.as_slice();
        let a: Action<Vec<u8>> = match &self.state {
            State::MakeDir => Action::CreateDir(copy_bytes(dst)),
            State::ProbeDir(_) => Action::IsDir(copy_bytes(dst)),
            State::ResolveSource { source, .. } => Action::Canonicalize(
                copy_bytes(source.as_slice()),
            ),
            State::ResolveBase { base, .. } => Action::Canonicalize(copy_bytes(base.as_slice())),
            State::CompareSource { source, .. } => Action::Canonicalize(
                copy_bytes(source.as_slice()),
            ),
            State::ComparePlace { .. } => Action::Canonicalize(copy_bytes(dst)),
            State::ClearHardLink { .. } => Action::RemoveFile(copy_bytes(dst)),
            State::ResolvePlace => Action::Canonicalize(copy_bytes(dst)),
            State::HardLink { source, .. } => Action::HardLink {
                source: copy_bytes(source.as_slice()),
                link: copy_bytes(dst),
            },
            State::Symlink { source, .. } => Action::Symlink {
                source: copy_bytes(source.as_slice()),
                link: copy_bytes(dst),
            },
            State::ClearLink { .. } => Action::RemoveFile(copy_bytes(dst)),
            State::StampLink(time) => Action::SetLinkTimes { path: copy_bytes(dst), time: *time },
            State::Open { .. } => Action::OpenNew(copy_bytes(dst)),
            State::ClearFile => Action::RemoveFile(copy_bytes(dst)),
            State::Copy(n) => Action::CopyData(*n),
            State::Skip(n) => Action::SeekBy(*n as i64),
            State::Lengthen(n) => Action::SetLen(*n),
            State::Stamp { time, .. } => Action::SetFileTimes { path: copy_bytes(dst), time: *time },
            State::Own { open, uid, gid } => Action::ChangeOwner {
                path: copy_bytes(dst),
                open: *open,
                uid: *uid,
                gid: *gid,
            },
            State::Permit { open, bits, .. } => Action::SetMode {
                path: copy_bytes(dst),
                open: *open,
                mode: *bits,
            },
            State::Forbid { open, .. } => Action::SetReadonly {
                path: copy_bytes(dst),
                open: *open,
            },
            State::Tag { key, value, .. } => Action::SetXattr {
                path: copy_bytes(dst),
                key: copy_bytes(key.as_slice()),
                value: copy_bytes(value.as_slice()),
            },
            State::Finished(_) => {
                return None;
            },
        };
        Some(a)
    }

    /// Goes on with what came of the operation. When the file is open, the content that the entry
    /// has left is taken from it.
    pub fn step(self, entry: &mut EntryFields, reply: FileReply) -> (r: Unpack)
        ensures
            r@ == after(self@, *old(entry), reply@),
            same_but_data(*final(entry), *old(entry)),
            final(entry).data@ == if self@.state is Open && reply is Done {
                Seq::empty()
            } else {
                old(entry).data@
            },
    {
        let Unpack { base, dst, host, pieces, state } = self;
        let to: &[u8] = dst.as_slice();
        let (state, pieces): (FileState, Vec<EntryIo>) = match state {
            State::MakeDir
            | State::ProbeDir(_)
            | State::ResolveSource { .. }
            | State::ResolveBase { .. }
            | State::HardLink { .. }
            | State::CompareSource { .. }
            | State::ComparePlace { .. }
            | State::ClearHardLink { .. }
            | State::ResolvePlace
            | State::Symlink { .. }
            | State::ClearLink { .. }
            | State::StampLink(_) => (
                step_node(state, entry, &base, to, host, reply),
                pieces,
            ),
            State::Open { .. }
            | State::ClearFile
            | State::Copy(_)
            | State::Skip(_)
            | State::Lengthen(_) => step_content(state, entry, to, host, pieces, reply),
            _ => (step_settings(state, entry, to, host, reply), pieces),
        };
        Unpack { base, dst, host, pieces, state }
    }

    /// Whether it is over.
    pub fn is_finished(&self) -> (r: bool)
        ensures
            r == (self@.state is Finished),
    {
        matches!(self.state, State::Finished(_))
    }

    /// What became of the entry, when it is over.
    pub fn outcome(self) -> (r: Option<Result<Unpacked, Error>>)
        ensures
            r is Some <==> self@.state is Finished,
            r matches Some(o) ==> self@.state == StateView::Finished(field_view(o)),
    {
        match self.state {
            State::Finished(o) => Some(o),
            _ => None,
        }
    }
}

} // verus!
