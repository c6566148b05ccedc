//! What holds of every unpacking, whatever the operations come to.
use crate::action::{answers, Action, Reply, ReplyView};
use crate::entry::{EntryFields, EntryIo, Unpacked};
use crate::error::ErrorView;
use crate::header::EntryType;
use crate::host::Host;
use crate::host_path::{components_on, is_inside};
use crate::messages::hard_link_failed;
use crate::pax::{law_next_xattr, records_of, xattrs_in};
use crate::unpack::{
    action_in, after, mtime_of, mtime_seconds, same_but_data, starting, State, StateView,
    UnpackView, ACCESS_BITS,
};
use filetime::FileTime;
use vstd::prelude::*;

verus! {

/// The unpacking after a row of replies.
pub open spec fn run(m: UnpackView, entry: EntryFields, replies: Seq<ReplyView>) -> UnpackView
    decreases replies.len(),
{
    if replies.len() == 0 {
        m
    } else {
        run(after(m, entry, replies[0]), entry, replies.skip(1))
    }
}

/// The content that an entry has left counts until the file is open, and not after: whether or not
/// it is taken away from the entry then, all goes on as before.
pub proof fn law_content_taken_once(
    m: UnpackView,
    before: EntryFields,
    now: EntryFields,
    replies: Seq<ReplyView>,
)
    requires
        same_but_data(now, before),
        !(m.state is Open) && !(m.state is ClearFile),
    ensures
        run(m, now, replies) == run(m, before, replies),
    decreases replies.len(),
{
    if replies.len() != 0 {
        let next = after(m, before, replies[0]);
        assert(next == after(m, now, replies[0]));
        law_content_taken_once(next, before, now, replies.skip(1));
    }
}

/// Opening the file is never asked for again once it is open.
pub proof fn law_opened_once(m: UnpackView, entry: EntryFields, replies: Seq<ReplyView>)
    requires
        !(m.state is Open) && !(m.state is ClearFile),
    ensures
        !(run(m, entry, replies).state is Open),
        !(run(m, entry, replies).state is ClearFile),
    decreases replies.len(),
{
    if replies.len() != 0 {
        law_opened_once(after(m, entry, replies[0]), entry, replies.skip(1));
    }
}

/// The path that an operation makes, removes or changes something at. The operations on the open
/// file alone have none, and neither have those that only look.
pub open spec fn changed_path(action: Action<Seq<u8>>) -> Option<Seq<u8>> {
    match action {
        Action::CreateDir(path)
        | Action::CreateDirAll(path)
        | Action::RemoveFile(path)
        | Action::OpenNew(path)
        | Action::HardLink { link: path, .. }
        | Action::Symlink { link: path, .. }
        | Action::SetLinkTimes { path, .. }
        | Action::SetFileTimes { path, .. }
        | Action::ChangeOwner { path, .. }
        | Action::SetMode { path, .. }
        | Action::SetReadonly { path, .. }
        | Action::SetXattr { path, .. } => Some(path),
        Action::IsDir(_)
        | Action::Exists(_)
        | Action::Canonicalize(_)
        | Action::CopyData(_)
        | Action::SeekBy(_)
        | Action::SetLen(_) => None,
    }
}

/// Every path that an unpacking makes, removes or changes something at is that of its destination,
/// as it is written. What it leads to is the concern of [`law_settings_stay_inside`].
pub proof fn law_only_destination_changed(
    m: UnpackView,
    entry: EntryFields,
    replies: Seq<ReplyView>,
)
    ensures
        run(m, entry, replies).dst == m.dst,
        action_in(run(m, entry, replies)) matches Some(a) ==> match changed_path(a) {
            Some(path) => path == m.dst,
            None => true,
        },
    decreases replies.len(),
{
    if replies.len() != 0 {
        law_only_destination_changed(after(m, entry, replies[0]), entry, replies.skip(1));
    }
}

/// Unless all permission bits are kept, only those for reading, writing and executing are ever
/// set.
pub proof fn law_no_special_bits(m: UnpackView, entry: EntryFields, replies: Seq<ReplyView>)
    requires
        !entry.preserve_permissions,
        m.state matches State::Permit { bits, .. } ==> bits <= ACCESS_BITS,
    ensures
        run(m, entry, replies).state matches State::Permit { bits, .. } ==> bits <= ACCESS_BITS,
    decreases replies.len(),
{
    if replies.len() != 0 {
        if let Ok(mode) = entry.header.mode {
            assert(mode & 0x1ff <= 0x1ff) by (bit_vector);
        }
        law_no_special_bits(after(m, entry, replies[0]), entry, replies.skip(1));
    }
}

/// A time of modification of zero is never set.
pub proof fn law_mtime_not_zero(mtime: u64)
    ensures
        mtime_seconds(mtime) != 0,
{
    assert(mtime != 0 ==> mtime as i64 != 0) by (bit_vector);
}

/// Whether an unpacking is about to remove something.
pub open spec fn removes(m: UnpackView) -> bool {
    action_in(m) matches Some(a) && a is RemoveFile
}

/// Whether an unpacking is about to remove something, or looks whether it may.
pub open spec fn clears(m: UnpackView) -> bool {
    removes(m) || m.state is CompareSource || m.state is ComparePlace
}

/// Without leave to overwrite, nothing is ever removed.
#[verifier::rlimit(60)]
pub proof fn law_no_removal_without_overwrite(
    m: UnpackView,
    entry: EntryFields,
    replies: Seq<ReplyView>,
)
    requires
        !entry.overwrite,
        !clears(m),
    ensures
        !clears(run(m, entry, replies)),
        !removes(run(m, entry, replies)),
    decreases replies.len(),
{
    if replies.len() != 0 {
        law_no_removal_without_overwrite(after(m, entry, replies[0]), entry, replies.skip(1));
    }
}

/// No unpacking begins by removing something.
pub proof fn law_begins_without_removal(
    entry: EntryFields,
    base: Option<Seq<u8>>,
    dst: Seq<u8>,
    host: Host,
)
    ensures
        !clears(starting(entry, base, dst, host)),
{
}

/// When something is removed, it stood in the way: the attempt to make a link or a file failed
/// because of it.
#[verifier::rlimit(40)]
pub proof fn law_removal_has_a_cause(m: UnpackView, entry: EntryFields, reply: ReplyView)
    ensures
        !clears(m) && clears(after(m, entry, reply)) ==> {
            &&& m.state is Open || m.state is Symlink || m.state is HardLink
            &&& reply matches Reply::Failed(e) && e.kind is AlreadyExists
            &&& entry.overwrite
        },
        !removes(m) && removes(after(m, entry, reply)) ==> !(m.state is HardLink),
{
}

/// The source of a hard link is not removed to make way for the link: where what is in the way
/// resolves to the same place, or the source to none, the link is given up, and nothing is removed.
pub proof fn law_source_not_removed(m: UnpackView, entry: EntryFields, reply: ReplyView)
    requires
        m.state is CompareSource || m.state is ComparePlace,
    ensures
        match (m.state, reply) {
            (State::CompareSource { source, cause }, Reply::Failed(_)) => after(
                m,
                entry,
                reply,
            ).state == StateView::Finished(Err(hard_link_failed(cause, source, m.dst))),
            (State::ComparePlace { source, cause, resolved }, Reply::Path(place)) => components_on(
                resolved,
                m.host,
            ) == components_on(place, m.host) ==> after(m, entry, reply).state
                == StateView::Finished(Err(hard_link_failed(cause, source, m.dst))),
            _ => true,
        },
{
}

/// Whether owner and group can no longer be set.
pub open spec fn past_owning(m: UnpackView) -> bool {
    m.state is Permit || m.state is Forbid || m.state is Tag || m.state is Finished
}

/// Once permissions are set, owner and group are not: setting them would take bits such as those
/// for running as the owner away again.
pub proof fn law_owner_before_permissions(
    m: UnpackView,
    entry: EntryFields,
    replies: Seq<ReplyView>,
)
    requires
        past_owning(m),
    ensures
        past_owning(run(m, entry, replies)),
    decreases replies.len(),
{
    if replies.len() != 0 {
        law_owner_before_permissions(after(m, entry, replies[0]), entry, replies.skip(1));
    }
}

/// Whether a hard link is being made.
pub open spec fn links(m: UnpackView) -> bool {
    m.state is HardLink || m.state is CompareSource || m.state is ComparePlace
        || m.state is ClearHardLink
}

/// A hard link made under a directory is not made at once, and only when both resolve: its source
/// to a path in what the directory resolves to.
pub proof fn law_hard_link_stays_inside(
    m: UnpackView,
    entry: EntryFields,
    base: Seq<u8>,
    reply: ReplyView,
)
    ensures
        !links(starting(entry, Some(base), m.dst, m.host)),
        !links(m) && links(after(m, entry, reply)) ==> {
            &&& m.state matches State::ResolveBase { resolved, source, .. }
            &&& reply matches Reply::Path(target)
            &&& is_inside(resolved, target, m.host)
            &&& after(m, entry, reply).state == StateView::HardLink { source, again: false }
        },
{
}

/// What stands in the way of a file or a symbolic link is removed, where that is allowed, and the
/// same operation is asked for again.
pub proof fn law_overwritten(m: UnpackView, entry: EntryFields, cause: ErrorView)
    requires
        entry.overwrite,
        cause.kind is AlreadyExists,
        match m.state {
            State::Open { again } => !again,
            State::Symlink { again, .. } => !again,
            _ => false,
        },
    ensures
        ({
            let blocked = after(m, entry, Reply::Failed(cause));
            let cleared = after(blocked, entry, Reply::Done);
            &&& action_in(blocked) == Some(Action::RemoveFile(m.dst))
            &&& action_in(cleared) == action_in(m)
            &&& after(cleared, entry, Reply::Done) == after(m, entry, Reply::Done)
        }),
{
}

/// What stands in the way of a hard link is removed, where that is allowed and it is not the source
/// itself, and the link is asked for again.
pub proof fn law_hard_link_overwritten(
    m: UnpackView,
    entry: EntryFields,
    source: Seq<u8>,
    cause: ErrorView,
    resolved: Seq<u8>,
    place: ReplyView,
)
    requires
        entry.overwrite,
        cause.kind is AlreadyExists,
        m.state == (StateView::HardLink { source, again: false }),
        match place {
            Reply::Path(p) => components_on(resolved, m.host) != components_on(p, m.host),
            Reply::Failed(_) => true,
            _ => false,
        },
    ensures
        ({
            let blocked = after(m, entry, Reply::Failed(cause));
            let compared = after(blocked, entry, Reply::Path(resolved));
            let different = after(compared, entry, place);
            let cleared = after(different, entry, Reply::Done);
            &&& action_in(blocked) == Some(Action::Canonicalize(source))
            &&& action_in(compared) == Some(Action::Canonicalize(m.dst))
            &&& action_in(different) == Some(Action::RemoveFile(m.dst))
            &&& action_in(cleared) == action_in(m)
            &&& after(cleared, entry, Reply::Done) == after(m, entry, Reply::Done)
        }),
{
}

/// The last reply comes last.
proof fn lemma_run_last(m: UnpackView, entry: EntryFields, replies: Seq<ReplyView>)
    requires
        replies.len() != 0,
    ensures
        run(m, entry, replies) == after(
            run(m, entry, replies.drop_last()),
            entry,
            replies.last(),
        ),
    decreases replies.len(),
{
    let rest = replies.skip(1);
    if rest.len() != 0 {
        lemma_run_last(after(m, entry, replies[0]), entry, rest);
        assert(rest.drop_last() =~= replies.drop_last().skip(1));
    } else {
        assert(replies.drop_last() =~= Seq::empty());
        assert(run(after(m, entry, replies[0]), entry, rest) == after(m, entry, replies[0]));
    }
}

/// Whether an operation was asked for in a run, and done.
pub open spec fn was_done(
    m: UnpackView,
    entry: EntryFields,
    replies: Seq<ReplyView>,
    action: Action<Seq<u8>>,
) -> bool {
    exists|i: int|
        0 <= i < replies.len() && action_in(#[trigger] run(m, entry, replies.take(i))) == Some(
            action,
        ) && replies[i] is Done
}

/// What was done before the last reply was done.
proof fn lemma_done_before(
    m: UnpackView,
    entry: EntryFields,
    replies: Seq<ReplyView>,
    action: Action<Seq<u8>>,
)
    requires
        replies.len() != 0,
        was_done(m, entry, replies.drop_last(), action) || action_in(
            run(m, entry, replies.drop_last()),
        ) == Some(action) && replies.last() is Done,
    ensures
        was_done(m, entry, replies, action),
{
    let before = replies.drop_last();
    if was_done(m, entry, before, action) {
        let i = choose|i: int|
            0 <= i < before.len() && action_in(#[trigger] run(m, entry, before.take(i))) == Some(
                action,
            ) && before[i] is Done;
        assert(before.take(i) =~= replies.take(i));
    } else {
        let i = replies.len() - 1;
        assert(before =~= replies.take(i));
    }
}

/// Whether the entry is a file, a directory or a hard link.
pub open spec fn takes_metadata(kind: EntryType) -> bool {
    kind is Regular || kind is Other || kind is Directory || kind is Link
}

/// The operation that gives the entry its time.
pub open spec fn timing(m: UnpackView, time: FileTime) -> Action<Seq<u8>> {
    Action::SetFileTimes { path: m.dst, time }
}

/// Whether permission bits were set in a run, and which.
pub open spec fn was_permitted(
    m: UnpackView,
    entry: EntryFields,
    replies: Seq<ReplyView>,
    mode: u32,
) -> bool {
    exists|open: bool|
        #[trigger] was_done(
            m,
            entry,
            replies,
            Action::SetMode { path: m.dst, open, mode },
        )
}

/// Whether owner and group were set in a run, and which.
pub open spec fn was_owned(
    m: UnpackView,
    entry: EntryFields,
    replies: Seq<ReplyView>,
    uid: u64,
    gid: u64,
) -> bool {
    exists|open: bool|
        #[trigger] was_done(
            m,
            entry,
            replies,
            Action::ChangeOwner { path: m.dst, open, uid: uid as u32, gid: gid as u32 },
        )
}

/// The permission bits that an entry is given.
pub open spec fn bits_of(entry: EntryFields, mode: u32) -> u32 {
    if entry.preserve_permissions {
        mode
    } else {
        mode & ACCESS_BITS
    }
}

/// When a file, a directory or a hard link has been unpacked on Unix, its metadata has been set at
/// its place: the time that its header gives, where times are kept; the owner and the group that its
/// header gives, where they are kept; and the permission bits that its header gives.
pub proof fn law_metadata_propagated(
    entry: EntryFields,
    base: Option<Seq<u8>>,
    dst: Seq<u8>,
    host: Host,
    replies: Seq<ReplyView>,
)
    requires
        host is Unix,
        takes_metadata(entry.header.entry_type),
    ensures
        ({
            let m = starting(entry, base, dst, host);
            run(m, entry, replies).state matches State::Finished(Ok(_)) ==> {
                &&& entry.preserve_mtime ==> (mtime_of(entry.header, host) matches Some(time)
                    ==> was_done(m, entry, replies, timing(m, time)))
                &&& entry.preserve_ownerships ==> {
                    &&& entry.header.uid matches Ok(uid) && uid <= u32::MAX
                    &&& entry.header.gid matches Ok(gid) && gid <= u32::MAX
                    &&& was_owned(m, entry, replies, entry.header.uid->Ok_0, entry.header.gid->Ok_0)
                }
                &&& entry.header.mode matches Ok(mode) ==> was_permitted(
                    m,
                    entry,
                    replies,
                    bits_of(entry, mode),
                )
            }
        }),
{
    lemma_metadata(starting(entry, base, dst, host), entry, replies);
}

/// Whether the time has been set, if it ever is.
spec fn past_timing(state: StateView) -> bool {
    state is Own || past_permitting(state) || state is Permit
}

/// Whether the owner has been set, if it ever is.
spec fn past_own(state: StateView) -> bool {
    past_permitting(state) || state is Permit
}

/// Whether the header gives an owner and a group that the host can keep.
spec fn has_owner(entry: EntryFields) -> bool {
    &&& entry.header.uid matches Ok(uid) && uid <= u32::MAX
    &&& entry.header.gid matches Ok(gid) && gid <= u32::MAX
}

/// Setting the owner and the group that the header gives.
spec fn ownership(m: UnpackView, entry: EntryFields, open: bool) -> Action<Seq<u8>> {
    Action::ChangeOwner {
        path: m.dst,
        open,
        uid: entry.header.uid->Ok_0 as u32,
        gid: entry.header.gid->Ok_0 as u32,
    }
}

/// Whether the permission bits have been set, if they ever are.
spec fn past_permitting(state: StateView) -> bool {
    state is Tag || (state matches State::Finished(Ok(_)))
}

/// Whether a state is one on the way of a file, a directory or a hard link on Unix, and what it sets
/// is what the header gives.
spec fn sets_metadata(m: UnpackView, entry: EntryFields) -> bool {
    match m.state {
        State::Forbid { .. }
        | State::Symlink { .. }
        | State::ClearLink { .. }
        | State::StampLink(_) => false,
        State::Stamp { time, .. } => mtime_of(entry.header, m.host) == Some(time),
        State::Own { open, .. } => has_owner(entry) && action_in(m) == Some(
            ownership(m, entry, open),
        ),
        State::Permit { bits, .. } => entry.header.mode matches Ok(mode) && bits == bits_of(
            entry,
            mode,
        ),
        _ => true,
    }
}

#[verifier::rlimit(60)]
proof fn lemma_metadata_step(m: UnpackView, entry: EntryFields, reply: ReplyView)
    requires
        m.host is Unix,
        sets_metadata(m, entry),
    ensures
        ({
            let now = after(m, entry, reply);
            &&& now.dst == m.dst && now.host == m.host
            &&& sets_metadata(now, entry)
            &&& past_timing(now.state) ==> {
                ||| past_timing(m.state)
                ||| m.state is Stamp && reply is Done
                ||| !entry.preserve_mtime || mtime_of(entry.header, m.host) is None
            }
            &&& past_own(now.state) ==> {
                ||| past_own(m.state)
                ||| m.state is Own && reply is Done
                ||| !entry.preserve_ownerships
            }
            &&& past_permitting(now.state) ==> {
                ||| past_permitting(m.state)
                ||| m.state is Permit && reply is Done
                ||| entry.header.mode is Err
            }
        }),
{
}

proof fn lemma_metadata(m: UnpackView, entry: EntryFields, replies: Seq<ReplyView>)
    requires
        m.host is Unix,
        !past_timing(m.state),
        sets_metadata(m, entry),
    ensures
        ({
            let now = run(m, entry, replies);
            &&& now.dst == m.dst && now.host == m.host
            &&& sets_metadata(now, entry)
            &&& past_timing(now.state) && entry.preserve_mtime ==> (mtime_of(
                entry.header,
                m.host,
            ) matches Some(time) ==> was_done(m, entry, replies, timing(m, time)))
            &&& past_own(now.state) && entry.preserve_ownerships ==> has_owner(entry) && was_owned(
                m,
                entry,
                replies,
                entry.header.uid->Ok_0,
                entry.header.gid->Ok_0,
            )
            &&& past_permitting(now.state) ==> (entry.header.mode matches Ok(mode)
                ==> was_permitted(m, entry, replies, bits_of(entry, mode)))
        }),
    decreases replies.len(),
{
    if replies.len() != 0 {
        let before = replies.drop_last();
        let then = run(m, entry, before);
        let now = run(m, entry, replies);
        lemma_metadata(m, entry, before);
        lemma_run_last(m, entry, replies);
        lemma_metadata_step(then, entry, replies.last());
        if let Some(time) = mtime_of(entry.header, m.host) {
            if entry.preserve_mtime && past_timing(now.state) {
                lemma_done_before(m, entry, replies, timing(m, time));
            }
        }
        if past_own(now.state) && entry.preserve_ownerships {
            if then.state is Own {
                let open = then.state->Own_open;
                assert(ownership(then, entry, open) == ownership(m, entry, open));
            }
            lemma_owned_before(m, entry, replies);
        }
        if let Ok(mode) = entry.header.mode {
            if past_permitting(now.state) {
                lemma_permitted_before(m, entry, replies, bits_of(entry, mode));
            }
        }
    }
}

proof fn lemma_owned_before(m: UnpackView, entry: EntryFields, replies: Seq<ReplyView>)
    requires
        replies.len() != 0,
        was_owned(
            m,
            entry,
            replies.drop_last(),
            entry.header.uid->Ok_0,
            entry.header.gid->Ok_0,
        ) || replies.last() is Done && exists|open: bool|
            action_in(run(m, entry, replies.drop_last())) == Some(
                #[trigger] ownership(m, entry, open),
            ),
    ensures
        was_owned(m, entry, replies, entry.header.uid->Ok_0, entry.header.gid->Ok_0),
{
    let before = replies.drop_last();
    let uid = entry.header.uid->Ok_0;
    let gid = entry.header.gid->Ok_0;
    let open = if was_owned(m, entry, before, uid, gid) {
        choose|open: bool|
            #[trigger] was_done(
                m,
                entry,
                before,
                Action::ChangeOwner { path: m.dst, open, uid: uid as u32, gid: gid as u32 },
            )
    } else {
        choose|open: bool|
            action_in(run(m, entry, before)) == Some(#[trigger] ownership(m, entry, open))
    };
    lemma_done_before(m, entry, replies, ownership(m, entry, open));
}

proof fn lemma_permitted_before(
    m: UnpackView,
    entry: EntryFields,
    replies: Seq<ReplyView>,
    bits: u32,
)
    requires
        replies.len() != 0,
        ({
            let then = run(m, entry, replies.drop_last());
            ||| was_permitted(m, entry, replies.drop_last(), bits)
            ||| replies.last() is Done && then.dst == m.dst && (then.state matches State::Permit {
                bits: same,
                ..
            } && same == bits)
        }),
    ensures
        was_permitted(m, entry, replies, bits),
{
    let before = replies.drop_last();
    let open = if was_permitted(m, entry, before, bits) {
        choose|open: bool|
            #[trigger] was_done(m, entry, before, Action::SetMode { path: m.dst, open, mode: bits })
    } else {
        run(m, entry, before).state->Permit_open
    };
    lemma_done_before(m, entry, replies, Action::SetMode { path: m.dst, open, mode: bits });
}

/// Whether the next operation sets something on whatever the destination leads to, and not on a
/// file that is held open or that was made just before.
pub open spec fn sets_by_path(m: UnpackView) -> bool {
    match m.state {
        State::Stamp { open, .. } => !open,
        State::Own { open, .. } => !open,
        State::Permit { open, .. } => !open,
        State::Forbid { open, .. } => !open,
        _ => false,
    }
}

/// Whether the next operation works on the file that was opened, by itself or at its path.
pub open spec fn works_on_file(m: UnpackView) -> bool {
    match m.state {
        State::Copy(_) | State::Skip(_) | State::Lengthen(_) | State::Tag { .. } => true,
        State::Stamp { open, .. } => open,
        State::Own { open, .. } => open,
        State::Permit { open, .. } => open,
        State::Forbid { open, .. } => open,
        _ => false,
    }
}

/// Whether a step leads on because the destination is known to lie inside: either it is a directory
/// that was made just now, or it was resolved to a place in `base`.
pub open spec fn is_placed(m: UnpackView, reply: ReplyView, base: Seq<u8>) -> bool {
    match (m.state, reply) {
        (State::MakeDir, Reply::Done) => true,
        (State::ResolvePlace, Reply::Path(resolved)) => is_inside(resolved, base, m.host),
        _ => false,
    }
}

#[verifier::rlimit(40)]
proof fn lemma_placed_before(m: UnpackView, entry: EntryFields, reply: ReplyView, base: Seq<u8>)
    requires
        m.base == Some(base),
        sets_by_path(after(m, entry, reply)),
    ensures
        sets_by_path(m) || is_placed(m, reply, base),
{
}

/// Where there is a directory that must not be left, nothing is set on what the destination leads to
/// unless that is a directory made just before, or has been resolved to a place in that directory.
pub proof fn law_settings_stay_inside(
    m: UnpackView,
    entry: EntryFields,
    base: Seq<u8>,
    replies: Seq<ReplyView>,
)
    requires
        m.base == Some(base),
        !sets_by_path(m),
    ensures
        run(m, entry, replies).base == m.base,
        sets_by_path(run(m, entry, replies)) ==> exists|i: int|
            0 <= i < replies.len() && is_placed(
                #[trigger] run(m, entry, replies.take(i)),
                replies[i],
                base,
            ),
    decreases replies.len(),
{
    if replies.len() != 0 {
        let before = replies.drop_last();
        let then = run(m, entry, before);
        lemma_run_last(m, entry, replies);
        law_settings_stay_inside(m, entry, base, before);
        if sets_by_path(run(m, entry, replies)) {
            if sets_by_path(then) {
                let i = choose|i: int|
                    0 <= i < before.len() && is_placed(
                        #[trigger] run(m, entry, before.take(i)),
                        before[i],
                        base,
                    );
                assert(before.take(i) =~= replies.take(i));
                assert(replies[i] == before[i]);
            } else {
                let i = replies.len() - 1;
                assert(before =~= replies.take(i));
                lemma_placed_before(then, entry, replies[i], base);
                assert(is_placed(run(m, entry, replies.take(i)), replies[i], base));
            }
        }
    }
}

/// When it is over, nothing changes any more.
pub proof fn law_over_is_over(m: UnpackView, entry: EntryFields, replies: Seq<ReplyView>)
    requires
        m.state is Finished,
    ensures
        run(m, entry, replies) == m,
    decreases replies.len(),
{
    if replies.len() != 0 {
        law_over_is_over(after(m, entry, replies[0]), entry, replies.skip(1));
    }
}

/// What a stretch leaves in a file: a hole leaves zeros, whatever it reads as.
pub open spec fn shape_of(piece: EntryIo) -> EntryIo {
    match piece {
        EntryIo::Pad { limit, .. } => EntryIo::Pad { byte: 0, limit },
        EntryIo::Data(_) => piece,
    }
}

/// What stretches leave in a file.
pub open spec fn shapes_of(pieces: Seq<EntryIo>) -> Seq<EntryIo> {
    pieces.map_values(|piece: EntryIo| shape_of(piece))
}

/// What is written in a run: the stretches that were copied in full, and the holes that were
/// skipped. A hole that is longer than one can move forwards in a file is not.
pub open spec fn written(m: UnpackView, entry: EntryFields, replies: Seq<ReplyView>) -> Seq<EntryIo>
    decreases replies.len(),
{
    if replies.len() == 0 {
        Seq::empty()
    } else {
        let now = match (m.state, replies[0]) {
            (State::Copy(n), Reply::Count(copied)) if copied == n => seq![EntryIo::Data(n)],
            (State::Skip(n), Reply::Count(_)) if n <= i64::MAX => seq![
                EntryIo::Pad { byte: 0, limit: n },
            ],
            _ => Seq::empty(),
        };
        now + written(after(m, entry, replies[0]), entry, replies.skip(1))
    }
}

/// What an unpacking still has to write.
pub open spec fn unwritten(m: UnpackView, entry: EntryFields) -> Seq<EntryIo> {
    match m.state {
        State::Open { .. } | State::ClearFile => shapes_of(entry.data@),
        State::Copy(n) => seq![EntryIo::Data(n)] + shapes_of(m.pieces),
        State::Skip(n) => seq![EntryIo::Pad { byte: 0, limit: n }] + shapes_of(m.pieces),
        State::Lengthen(_) => shapes_of(m.pieces),
        _ => Seq::empty(),
    }
}

/// Whether every hole is short enough to be skipped by moving forwards in a file.
pub open spec fn can_be_skipped(pieces: Seq<EntryIo>) -> bool {
    forall|i: int|
        0 <= i < pieces.len() ==> match #[trigger] pieces[i] {
            EntryIo::Pad { limit, .. } => limit <= i64::MAX,
            EntryIo::Data(_) => true,
        }
}

/// When a file has been unpacked, all of its content has been written, in its order and once, unless
/// it has a hole that is too long to be skipped.
#[verifier::rlimit(60)]
pub proof fn law_all_content_written(m: UnpackView, entry: EntryFields, replies: Seq<ReplyView>)
    requires
        run(m, entry, replies).state == StateView::Finished(Ok(Unpacked::File)),
        can_be_skipped(unwritten(m, entry)),
    ensures
        written(m, entry, replies) == unwritten(m, entry),
    decreases replies.len(),
{
    if replies.len() != 0 {
        let next = after(m, entry, replies[0]);
        let todo = unwritten(m, entry);
        if next.state is Finished {
            law_over_is_over(next, entry, replies.skip(1));
        }
        lemma_shapes_split(entry.data@);
        lemma_shapes_split(m.pieces);
        assert(shapes_of(Seq::empty()) =~= Seq::empty());
        let left = unwritten(next, entry);
        let skipped = todo.len() - left.len();
        assert(!(next.state is Finished) ==> 0 <= skipped && left =~= todo.skip(skipped));
        assert forall|i: int| 0 <= i < left.len() implies match #[trigger] left[i] {
            EntryIo::Pad { limit, .. } => limit <= i64::MAX,
            EntryIo::Data(_) => true,
        } by {
            assert(left[i] == todo[i + skipped]);
        }
        if m.state is Skip {
            assert(todo[0] == (EntryIo::Pad { byte: 0, limit: m.state->Skip_0 }));
        }
        law_all_content_written(next, entry, replies.skip(1));
        assert(written(m, entry, replies) =~= unwritten(m, entry));
    }
}

proof fn lemma_shapes_split(pieces: Seq<EntryIo>)
    ensures
        pieces.len() != 0 ==> shapes_of(pieces) == seq![shape_of(pieces[0])] + shapes_of(
            pieces.skip(1),
        ),
        pieces.len() == 0 ==> shapes_of(pieces).len() == 0,
{
    if pieces.len() != 0 {
        assert(shapes_of(pieces) =~= seq![shape_of(pieces[0])] + shapes_of(pieces.skip(1)));
    }
}

/// The extended attributes that were set in a run, in their order.
pub open spec fn tags_set(
    m: UnpackView,
    entry: EntryFields,
    replies: Seq<ReplyView>,
) -> Seq<(Seq<u8>, Seq<u8>)>
    decreases replies.len(),
{
    if replies.len() == 0 {
        Seq::empty()
    } else {
        let now = match (m.state, replies[0]) {
            (State::Tag { key, value, .. }, Reply::Done) => seq![(key, value)],
            _ => Seq::empty(),
        };
        now + tags_set(after(m, entry, replies[0]), entry, replies.skip(1))
    }
}

/// The extended attributes that an entry is to be given: those that its pax extensions list, where
/// they are asked for and the host has them.
pub open spec fn tags_of(entry: EntryFields, host: Host) -> Seq<(Seq<u8>, Seq<u8>)> {
    match (entry.unpack_xattrs, host, entry.pax_extensions) {
        (true, Host::Unix { xattrs: true }, Some(pax)) => xattrs_in(records_of(pax@)),
        _ => Seq::empty(),
    }
}

/// The extended attributes that an unpacking still has to set.
pub open spec fn tags_left(m: UnpackView, entry: EntryFields) -> Seq<(Seq<u8>, Seq<u8>)> {
    match m.state {
        State::Tag { key, value, rest } => seq![(key, value)] + xattrs_in(records_of(rest)),
        State::Finished(_) => Seq::empty(),
        _ => tags_of(entry, m.host),
    }
}

/// When a file has been unpacked, its extended attributes have been set, all and in their order.
pub proof fn law_all_tags_set(m: UnpackView, entry: EntryFields, replies: Seq<ReplyView>)
    requires
        run(m, entry, replies).state == StateView::Finished(Ok(Unpacked::File)),
    ensures
        tags_set(m, entry, replies) == tags_left(m, entry),
    decreases replies.len(),
{
    if replies.len() != 0 {
        let next = after(m, entry, replies[0]);
        if next.state is Finished {
            law_over_is_over(next, entry, replies.skip(1));
        }
        if let Some(pax) = entry.pax_extensions {
            law_next_xattr(pax@);
        }
        if let State::Tag { rest, .. } = m.state {
            law_next_xattr(rest);
        }
        law_all_tags_set(next, entry, replies.skip(1));
        assert(tags_set(m, entry, replies) =~= tags_left(m, entry));
    }
}

/// Where a failed operation ends an unpacking, the error is of the kind that the operation failed
/// with. Where the source of a hard link cannot be resolved, it is that of the failure before.
pub proof fn law_failure_keeps_kind(
    m: UnpackView,
    entry: EntryFields,
    cause: ErrorView,
    key: Seq<char>,
)
    requires
        !(m.state is Finished),
    ensures
        m.state matches State::CompareSource { cause: first, .. } ==> (after(
            m,
            entry,
            Reply::Failed(cause),
        ).state matches State::Finished(r) ==> (r matches Err(e) && e.kind == first.kind)),
        !(m.state is CompareSource) ==> (after(m, entry, Reply::Failed(cause)).state
            matches State::Finished(r) ==> (r matches Err(e) && e.kind == cause.kind)),
        after(m, entry, Reply::Unset(cause, key)).state matches State::Finished(r) ==> {
            r matches Err(e) && e.kind == cause.kind
        },
{
}

/// How many extended attributes an entry lists.
pub open spec fn xattr_count(entry: EntryFields) -> nat {
    match entry.pax_extensions {
        Some(pax) => xattrs_in(records_of(pax@)).len(),
        None => 0,
    }
}

/// How many operations an unpacking can still ask for at most.
pub open spec fn operations_left(m: UnpackView, entry: EntryFields) -> nat {
    let tags = xattr_count(entry);
    match m.state {
        State::Finished(_) => 0,
        State::Tag { rest, .. } => 1 + xattrs_in(records_of(rest)).len(),
        State::Permit { .. } | State::Forbid { .. } => 1 + tags,
        State::Own { .. } => 2 + tags,
        State::Stamp { .. } => 3 + tags,
        State::Copy(_) => 4 + tags + 2 * m.pieces.len(),
        State::Lengthen(_) => 4 + tags + 2 * m.pieces.len(),
        State::Skip(_) => 5 + tags + 2 * m.pieces.len(),
        State::Open { again } => (if again { 4nat } else { 6 }) + tags + 2 * entry.data@.len(),
        State::ClearFile => 5 + tags + 2 * entry.data@.len(),
        State::ResolvePlace => 4 + tags,
        State::ProbeDir(_) => 5 + tags,
        State::MakeDir => 6 + tags,
        State::HardLink { again, .. } => (if again { 5nat } else { 9 }) + tags,
        State::ClearHardLink { .. } => 6 + tags,
        State::ComparePlace { .. } => 7 + tags,
        State::CompareSource { .. } => 8 + tags,
        State::ResolveBase { .. } => 10 + tags,
        State::ResolveSource { .. } => 11 + tags,
        State::Symlink { again, .. } => if again { 2 } else { 4 },
        State::ClearLink { .. } => 3,
        State::StampLink(_) => 1,
    }
}

/// Unpacking comes to an end: whatever an operation comes to, fewer are left after it.
#[verifier::rlimit(60)]
pub proof fn law_unpacking_ends(m: UnpackView, entry: EntryFields, reply: ReplyView)
    requires
        action_in(m) matches Some(a) && answers(a, reply),
    ensures
        operations_left(after(m, entry, reply), entry) < operations_left(m, entry),
{
    if let Some(pax) = entry.pax_extensions {
        law_next_xattr(pax@);
    }
    if let State::Tag { rest, .. } = m.state {
        law_next_xattr(rest);
    }
}

} // verus!
