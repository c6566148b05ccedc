//! What stands for a value in specifications stands for all of it: nothing is left out, and nothing
//! is taken for something else.
use crate::action::{Action, FileReply, ReplyView};
use crate::entry::{link_view, EntryFields};
use crate::error::{Error, ErrorView};
use crate::header::field_view;
use crate::host::path_view;
use crate::path::{component_views, Component};
use crate::unpack::same_but_data;
use crate::unpack_in::path_views;
use filetime::FileTime;
use vstd::prelude::*;

verus! {

/// An error stands for its kind, its text, and the text of each of its causes.
pub proof fn law_error_view(e: Error)
    ensures
        e@.kind == e.kind,
        e@.text == e.text@,
        e@.causes.len() == e.causes@.len(),
        forall|i: int| 0 <= i < e.causes@.len() ==> #[trigger] e@.causes[i] == e.causes@[i]@,
{
}

/// A result stands for what it holds, or for its error.
pub proof fn law_result_views<T>(p: Vec<u8>, x: T, e: Error)
    ensures
        path_view(Ok(p)) == Ok::<Seq<u8>, ErrorView>(p@),
        path_view(Err(e)) == Err::<Seq<u8>, ErrorView>(e@),
        link_view(Ok(Some(p))) == Ok::<Option<Seq<u8>>, ErrorView>(Some(p@)),
        link_view(Ok(None)) == Ok::<Option<Seq<u8>>, ErrorView>(None),
        link_view(Err(e)) == Err::<Option<Seq<u8>>, ErrorView>(e@),
        field_view(Ok::<T, Error>(x)) == Ok::<T, ErrorView>(x),
        field_view(Err::<T, Error>(e)) == Err::<T, ErrorView>(e@),
{
}

/// A list of components stands for each of them, in their order; and so does a list of paths.
pub proof fn law_list_views(comps: Seq<Component<Vec<u8>>>, paths: Seq<Vec<u8>>)
    ensures
        component_views(comps).len() == comps.len(),
        forall|i: int|
            0 <= i < comps.len() ==> #[trigger] component_views(comps)[i] == (match comps[i] {
                Component::Prefix(name) => Component::Prefix(name@),
                Component::RootDir => Component::RootDir,
                Component::CurDir => Component::CurDir,
                Component::ParentDir => Component::ParentDir,
                Component::Normal(name) => Component::Normal(name@),
            }),
        path_views(paths).len() == paths.len(),
        forall|i: int| 0 <= i < paths.len() ==> #[trigger] path_views(paths)[i] == paths[i]@,
{
}

/// An operation on one path stands for that operation on that path.
pub proof fn law_path_action_views(p: Vec<u8>)
    ensures
        Action::CreateDir(p)@ == Action::CreateDir(p@),
        Action::IsDir(p)@ == Action::IsDir(p@),
        Action::Exists(p)@ == Action::Exists(p@),
        Action::CreateDirAll(p)@ == Action::CreateDirAll(p@),
        Action::Canonicalize(p)@ == Action::Canonicalize(p@),
        Action::RemoveFile(p)@ == Action::RemoveFile(p@),
        Action::OpenNew(p)@ == Action::OpenNew(p@),
{
}

/// Any other operation stands for itself, with all that it is about.
pub proof fn law_action_views(
    path: Vec<u8>,
    source: Vec<u8>,
    key: Vec<u8>,
    time: FileTime,
    n: u64,
    by: i64,
    open: bool,
    uid: u32,
    gid: u32,
)
    ensures
        (Action::HardLink { source, link: path })@ == (Action::HardLink {
            source: source@,
            link: path@,
        }),
        (Action::Symlink { source, link: path })@ == (Action::Symlink {
            source: source@,
            link: path@,
        }),
        (Action::SetLinkTimes { path, time })@ == (Action::SetLinkTimes { path: path@, time }),
        (Action::SetFileTimes { path, time })@ == (Action::SetFileTimes { path: path@, time }),
        Action::<Vec<u8>>::CopyData(n)@ == Action::<Seq<u8>>::CopyData(n),
        Action::<Vec<u8>>::SeekBy(by)@ == Action::<Seq<u8>>::SeekBy(by),
        Action::<Vec<u8>>::SetLen(n)@ == Action::<Seq<u8>>::SetLen(n),
        (Action::ChangeOwner { path, open, uid, gid })@ == (Action::ChangeOwner {
            path: path@,
            open,
            uid,
            gid,
        }),
        (Action::SetMode { path, open, mode: uid })@ == (Action::SetMode {
            path: path@,
            open,
            mode: uid,
        }),
        (Action::SetReadonly { path, open })@ == (Action::SetReadonly { path: path@, open }),
        (Action::SetXattr { path, key, value: source })@ == (Action::SetXattr {
            path: path@,
            key: key@,
            value: source@,
        }),
{
}

/// A reply stands for itself.
pub proof fn law_reply_views(p: Vec<u8>, e: Error, yes: bool, n: u64, key: String)
    ensures
        (FileReply::Done)@ == ReplyView::Done,
        (FileReply::Failed(e))@ == ReplyView::Failed(e@),
        (FileReply::Answer(yes))@ == ReplyView::Answer(yes),
        (FileReply::Path(p))@ == ReplyView::Path(p@),
        (FileReply::Count(n))@ == ReplyView::Count(n),
        (FileReply::Unset(e, key))@ == ReplyView::Unset(e@, key@),
{
}

/// Entries that differ at most in what is left of their content are alike in all else.
pub proof fn law_all_but_data(a: EntryFields, b: EntryFields)
    ensures
        same_but_data(a, b) <==> {
            &&& a.long_pathname == b.long_pathname
            &&& a.long_linkname == b.long_linkname
            &&& a.pax_extensions == b.pax_extensions
            &&& a.header == b.header
            &&& a.size == b.size
            &&& a.header_pos == b.header_pos
            &&& a.file_pos == b.file_pos
            &&& a.unpack_xattrs == b.unpack_xattrs
            &&& a.preserve_permissions == b.preserve_permissions
            &&& a.preserve_ownerships == b.preserve_ownerships
            &&& a.preserve_mtime == b.preserve_mtime
            &&& a.overwrite == b.overwrite
        },
{
}

} // verus!
