//! The file operations that unpacking asks for, and what comes of them.
use crate::error::{Error, ErrorView};
use crate::host::Host;
use filetime::FileTime;
use vstd::prelude::*;

verus! {

/// An instant as the `filetime` crate keeps it.
#[verifier::external_type_specification]
#[verifier::external_body]
pub struct ExFileTime(FileTime);

/// The instant that lies the given time after the epoch, as the `filetime` crate keeps it.
pub uninterp spec fn file_time(seconds: i64, nanos: u32) -> FileTime;

/// The last second after the epoch that the `filetime` crate can keep on Windows, where it counts
/// from an epoch that lies 11644473600 seconds earlier.
pub const LAST_WINDOWS_SECOND: i64 = 0x7fff_ffff_ffff_ffff - 11644473600;

/// Whether the host can keep an instant that lies so many seconds after the epoch.
pub open spec fn keeps_time(seconds: i64, host: Host) -> bool {
    host is Windows ==> seconds <= LAST_WINDOWS_SECOND
}

/// Calls `FileTime::from_unix_time`, which makes an instant out of its two arguments alone. `host` is
/// the one that the program is built for: on Windows the call also shifts the seconds to an earlier
/// epoch, and the last of them would not fit.
#[verifier::external_body]
pub(crate) fn from_unix_time(seconds: i64, nanos: u32, host: Host) -> (r: FileTime)
    requires
        keeps_time(seconds, host),
    ensures
        r == file_time(seconds, nanos),
{
    FileTime::from_unix_time(seconds, nanos)
}

/// An operation on files. `B` is `Vec<u8>` in programs and `Seq<u8>` in specifications.
#[derive(Debug, PartialEq, Eq)]
pub enum Action<B> {
    /// Make a directory; `Done` or `Failed`.
    CreateDir(B),
    /// Say whether something is a directory, following links; `Answer`.
    IsDir(B),
    /// Say whether something is there, not following links; `Answer`.
    Exists(B),
    /// Make a directory and all that are missing above it; `Done` or `Failed`.
    CreateDirAll(B),
    /// Resolve a path; `Path` or `Failed`.
    Canonicalize(B),
    /// Make a hard link to `source`; `Done` or `Failed`.
    HardLink { source: B, link: B },
    /// Make a symbolic link to `source`; `Done` or `Failed`.
    Symlink { source: B, link: B },
    /// Remove a file; `Done` or `Failed`.
    RemoveFile(B),
    /// Set both times of a link itself; `Done` or `Failed`.
    SetLinkTimes { path: B, time: FileTime },
    /// Make a file that was not there before, and open it for writing; `Done` or `Failed`.
    OpenNew(B),
    /// Copy up to so many bytes of the archive to the open file; `Count` of those copied, or
    /// `Failed`.
    CopyData(u64),
    /// Move in the open file from where it stands; `Count` from its beginning, or `Failed`.
    SeekBy(i64),
    /// Set the length of the open file; `Done` or `Failed`.
    SetLen(u64),
    /// Set both times of a file; `Done` or `Failed`.
    SetFileTimes { path: B, time: FileTime },
    /// Set owner and group, of the open file or else of the path itself; `Done` or `Failed`.
    ChangeOwner { path: B, open: bool, uid: u32, gid: u32 },
    /// Set the permission bits, of the open file or else of the path; `Done` or `Failed`.
    SetMode { path: B, open: bool, mode: u32 },
    /// Forbid writing, to the open file or else to the path; `Done` or `Failed`.
    SetReadonly { path: B, open: bool },
    /// Set an extended attribute; `Done` or `Unset`.
    SetXattr { path: B, key: B, value: B },
}

impl View for Action<Vec<u8>> {
    type V = Action<Seq<u8>>;

    open spec fn view(&self) -> Action<Seq<u8>> {
        match *self {
            Action::CreateDir(p) => Action::CreateDir(p@),
            Action::IsDir(p) => Action::IsDir(p@),
            Action::Exists(p) => Action::Exists(p@),
            Action::CreateDirAll(p) => Action::CreateDirAll(p@),
            Action::Canonicalize(p) => Action::Canonicalize(p@),
            Action::HardLink { source, link } => Action::HardLink {
                source: source@,
                link: link@,
            },
            Action::Symlink { source, link } => Action::Symlink { source: source@, link: link@ },
            Action::RemoveFile(p) => Action::RemoveFile(p@),
            Action::SetLinkTimes { path, time } => Action::SetLinkTimes { path: path@, time },
            Action::OpenNew(p) => Action::OpenNew(p@),
            Action::CopyData(n) => Action::CopyData(n),
            Action::SeekBy(n) => Action::SeekBy(n),
            Action::SetLen(n) => Action::SetLen(n),
            Action::SetFileTimes { path, time } => Action::SetFileTimes { path: path@, time },
            Action::ChangeOwner { path, open, uid, gid } => Action::ChangeOwner {
                path: path@,
                open,
                uid,
                gid,
            },
            Action::SetMode { path, open, mode } => Action::SetMode { path: path@, open, mode },
            Action::SetReadonly { path, open } => Action::SetReadonly { path: path@, open },
            Action::SetXattr { path, key, value } => Action::SetXattr {
                path: path@,
                key: key@,
                value: value@,
            },
        }
    }
}

/// What came of an operation. `B` stands for bytes, `T` for text and `E` for errors.
#[derive(Debug, PartialEq, Eq)]
pub enum Reply<B, T, E> {
    /// It was done.
    Done,
    /// It failed.
    Failed(E),
    /// Yes or no.
    Answer(bool),
    /// A resolved path.
    Path(B),
    /// A number of bytes.
    Count(u64),
    /// An extended attribute could not be set; with the attribute's name as the host quotes it.
    Unset(E, T),
}

/// What came of an operation, in programs.
pub type FileReply = Reply<Vec<u8>, String, Error>;

/// What came of an operation, in specifications.
pub type ReplyView = Reply<Seq<u8>, Seq<char>, ErrorView>;

impl View for Reply<Vec<u8>, String, Error> {
    type V = ReplyView;

    open spec fn view(&self) -> ReplyView {
        match *self {
            Reply::Done => Reply::Done,
            Reply::Failed(e) => Reply::Failed(e@),
            Reply::Answer(b) => Reply::Answer(b),
            Reply::Path(p) => Reply::Path(p@),
            Reply::Count(n) => Reply::Count(n),
            Reply::Unset(e, key) => Reply::Unset(e@, key@),
        }
    }
}

/// Whether a reply can come from an operation.
pub open spec fn answers(action: Action<Seq<u8>>, reply: ReplyView) -> bool {
    match action {
        Action::IsDir(_) | Action::Exists(_) => reply is Answer,
        Action::Canonicalize(_) => reply is Path || reply is Failed,
        Action::CopyData(_) | Action::SeekBy(_) => reply is Count || reply is Failed,
        Action::SetXattr { .. } => reply is Done || reply is Unset,
        _ => reply is Done || reply is Failed,
    }
}

} // verus!
