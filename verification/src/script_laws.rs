//! Which operations unpack an entry, from the first to the last, when each of them goes well; and
//! what is reported when one does not.
use crate::action::{answers, file_time, Action, Reply, ReplyView};
use crate::entry::{EntryFields, EntryIo, Unpacked};
use crate::error::ErrorView;
use crate::header::{EntryType, Header};
use crate::host::Host;
use crate::host_path::{is_inside, looked_up};
use crate::messages::{create_dir_failed, id_too_large, not_implemented, short_copy};
use crate::pax::{law_next_xattr, next_xattr, records_of, xattrs_in};
use crate::text::{figures, utf8_lossy};
use crate::text_laws::{
    comes_of, law_paths_told, law_values_told, lemma_mentions, mentions,
};
use crate::unpack::{
    action_in, after, concluding, mtime_of, owning, permitting, settling, stamping, starting,
    tagging, writing, State, StateView, UnpackView,
};
use crate::unpack_laws::run;
use vstd::prelude::*;

verus! {

/// The operations that are asked for in a run, in their order.
pub open spec fn operations(
    m: UnpackView,
    entry: EntryFields,
    replies: Seq<ReplyView>,
) -> Seq<Action<Seq<u8>>>
    decreases replies.len(),
{
    if replies.len() == 0 {
        Seq::empty()
    } else {
        let first = match action_in(m) {
            Some(a) => seq![a],
            None => Seq::empty(),
        };
        first + operations(after(m, entry, replies[0]), entry, replies.skip(1))
    }
}

/// As many times "done".
pub open spec fn all_done(n: nat) -> Seq<ReplyView> {
    Seq::new(n, |i: int| ReplyView::Done)
}

/// A run that is followed by another is one run.
proof fn lemma_runs(m: UnpackView, entry: EntryFields, a: Seq<ReplyView>, b: Seq<ReplyView>)
    ensures
        run(m, entry, a + b) == run(run(m, entry, a), entry, b),
        operations(m, entry, a + b) == operations(m, entry, a) + operations(
            run(m, entry, a),
            entry,
            b,
        ),
    decreases a.len(),
{
    if a.len() == 0 {
        assert(a + b =~= b);
        assert(operations(m, entry, a) + operations(m, entry, b) =~= operations(m, entry, b));
    } else {
        let next = after(m, entry, a[0]);
        assert((a + b).skip(1) =~= a.skip(1) + b);
        lemma_runs(next, entry, a.skip(1), b);
        assert(operations(m, entry, a + b) =~= operations(m, entry, a) + operations(
            run(m, entry, a),
            entry,
            b,
        ));
    }
}

proof fn lemma_one(m: UnpackView, entry: EntryFields, reply: ReplyView)
    ensures
        run(m, entry, seq![reply]) == after(m, entry, reply),
        operations(m, entry, seq![reply]) == match action_in(m) {
            Some(a) => seq![a],
            None => Seq::empty(),
        },
{
    let rest = seq![reply].skip(1);
    assert(rest =~= Seq::empty());
    let next = after(m, entry, reply);
    assert(run(next, entry, rest) == next);
    assert(operations(next, entry, rest) =~= Seq::empty());
    assert(operations(m, entry, seq![reply]) =~= match action_in(m) {
        Some(a) => seq![a],
        None => Seq::empty(),
    });
}

proof fn lemma_done_more(n: nat)
    requires
        n > 0,
    ensures
        all_done(n) == seq![ReplyView::Done] + all_done((n - 1) as nat),
{
    assert(all_done(n) =~= seq![ReplyView::Done] + all_done((n - 1) as nat));
}

/// Setting the time that the header gives, where times are kept: zero counts as one. On Windows a
/// time that does not fit is passed over.
pub open spec fn time_ops(entry: EntryFields, dst: Seq<u8>, host: Host) -> Seq<Action<Seq<u8>>> {
    match (entry.preserve_mtime, entry.header.mtime) {
        (true, Ok(mtime)) => {
            let seconds: i64 = if mtime == 0 {
                1
            } else {
                mtime as i64
            };
            if host is Windows && seconds + 11644473600 > i64::MAX {
                Seq::empty()
            } else {
                seq![Action::SetFileTimes { path: dst, time: file_time(seconds, 0) }]
            }
        },
        _ => Seq::empty(),
    }
}

/// Setting the time of a symbolic link itself.
pub open spec fn link_time_ops(
    entry: EntryFields,
    dst: Seq<u8>,
    host: Host,
) -> Seq<Action<Seq<u8>>> {
    match (entry.preserve_mtime, entry.header.mtime) {
        (true, Ok(mtime)) => {
            let seconds: i64 = if mtime == 0 {
                1
            } else {
                mtime as i64
            };
            if host is Windows && seconds + 11644473600 > i64::MAX {
                Seq::empty()
            } else {
                seq![Action::SetLinkTimes { path: dst, time: file_time(seconds, 0) }]
            }
        },
        _ => Seq::empty(),
    }
}

/// Setting owner and group to those that the header gives, where they are kept and the host has
/// them.
pub open spec fn owner_ops(
    entry: EntryFields,
    dst: Seq<u8>,
    host: Host,
    open: bool,
) -> Seq<Action<Seq<u8>>> {
    match (entry.header.uid, entry.header.gid) {
        (Ok(uid), Ok(gid)) => if entry.preserve_ownerships && host is Unix {
            seq![Action::ChangeOwner { path: dst, open, uid: uid as u32, gid: gid as u32 }]
        } else {
            Seq::empty()
        },
        _ => Seq::empty(),
    }
}

/// Setting the permissions that the header gives: on Unix all bits or the last nine, on Windows
/// whether the owner may write.
pub open spec fn mode_ops(
    entry: EntryFields,
    dst: Seq<u8>,
    host: Host,
    open: bool,
) -> Seq<Action<Seq<u8>>> {
    match (entry.header.mode, host) {
        (Ok(mode), Host::Unix { .. }) => seq![
            Action::SetMode {
                path: dst,
                open,
                mode: if entry.preserve_permissions {
                    mode
                } else {
                    mode & 0x1ffu32
                },
            },
        ],
        (Ok(mode), Host::Windows) => if mode & 0x80u32 == 0x80u32 {
            Seq::empty()
        } else {
            seq![Action::SetReadonly { path: dst, open }]
        },
        _ => Seq::empty(),
    }
}

/// Setting extended attributes, one after the other.
pub open spec fn set_each(dst: Seq<u8>, tags: Seq<(Seq<u8>, Seq<u8>)>) -> Seq<Action<Seq<u8>>> {
    tags.map_values(
        |tag: (Seq<u8>, Seq<u8>)| Action::SetXattr { path: dst, key: tag.0, value: tag.1 },
    )
}

/// Setting the extended attributes of a file, where they are asked for and the host has them.
pub open spec fn tag_ops(entry: EntryFields, dst: Seq<u8>, host: Host) -> Seq<Action<Seq<u8>>> {
    match entry.pax_extensions {
        Some(pax) => if entry.unpack_xattrs && host == (Host::Unix { xattrs: true }) {
            set_each(dst, xattrs_in(records_of(pax@)))
        } else {
            Seq::empty()
        },
        None => Seq::empty(),
    }
}

/// Setting all that is known of an entry: its time, its owner, its permissions and, for an open
/// file, its extended attributes.
pub open spec fn setting_ops(
    entry: EntryFields,
    dst: Seq<u8>,
    host: Host,
    open: bool,
) -> Seq<Action<Seq<u8>>> {
    time_ops(entry, dst, host) + owner_ops(entry, dst, host, open) + mode_ops(
        entry,
        dst,
        host,
        open,
    ) + (if open {
        tag_ops(entry, dst, host)
    } else {
        Seq::empty()
    })
}

/// Whether the metadata of an entry can be set: an owner that is kept must be known and fit the host,
/// and a host without permissions must not be given any.
pub open spec fn can_be_set(entry: EntryFields, host: Host) -> bool {
    &&& entry.preserve_ownerships ==> entry.header.uid is Ok && entry.header.gid is Ok
    &&& entry.preserve_ownerships && host is Unix ==> {
        &&& entry.header.uid->Ok_0 <= 0xffff_ffff
        &&& entry.header.gid->Ok_0 <= 0xffff_ffff
    }
    &&& host is Wasm ==> entry.header.mode is Err
}

/// How an unpacking ends well.
pub open spec fn good_end(open: bool) -> StateView {
    if open {
        State::Finished(Ok(Unpacked::File))
    } else {
        State::Finished(Ok(Unpacked::__Nonexhaustive))
    }
}

proof fn lemma_tags(m: UnpackView, entry: EntryFields, pax: Seq<u8>)
    requires
        m.state == tagging(pax),
    ensures
        ({
            let tags = xattrs_in(records_of(pax));
            &&& run(m, entry, all_done(tags.len())).state == good_end(true)
            &&& operations(m, entry, all_done(tags.len())) == set_each(m.dst, tags)
        }),
    decreases pax.len(),
{
    let tags = xattrs_in(records_of(pax));
    law_next_xattr(pax);
    match next_xattr(pax) {
        None => {
            assert(all_done(0) =~= Seq::empty());
            assert(set_each(m.dst, tags) =~= Seq::empty());
        },
        Some((key, value, rest)) => {
            let next = after(m, entry, ReplyView::Done);
            let others = xattrs_in(records_of(rest));
            lemma_tags(next, entry, rest);
            lemma_done_more(tags.len());
            lemma_one(m, entry, ReplyView::Done);
            lemma_runs(m, entry, seq![ReplyView::Done], all_done(others.len()));
            assert(set_each(m.dst, tags) =~= seq![
                Action::SetXattr { path: m.dst, key, value },
            ] + set_each(m.dst, others));
        },
    }
}

/// What follows once permissions are set.
spec fn last_ops(entry: EntryFields, m: UnpackView, open: bool) -> Seq<Action<Seq<u8>>> {
    if open {
        tag_ops(entry, m.dst, m.host)
    } else {
        Seq::empty()
    }
}

proof fn lemma_concluding(m: UnpackView, entry: EntryFields, open: bool)
    requires
        m.state == concluding(entry, m.host, open),
    ensures
        ({
            let ops = last_ops(entry, m, open);
            &&& run(m, entry, all_done(ops.len())).state == good_end(open)
            &&& operations(m, entry, all_done(ops.len())) == ops
        }),
{
    let ops = last_ops(entry, m, open);
    assert(all_done(0) =~= Seq::empty());
    match entry.pax_extensions {
        Some(pax) if open && entry.unpack_xattrs && m.host == (Host::Unix { xattrs: true }) => {
            lemma_tags(m, entry, pax@);
        },
        _ => {
            assert(ops =~= Seq::empty());
            assert(operations(m, entry, all_done(0)) =~= ops);
        },
    }
}

/// One more operation in front, and all goes on from there.
proof fn lemma_in_front(
    m: UnpackView,
    entry: EntryFields,
    action: Action<Seq<u8>>,
    ops: Seq<Action<Seq<u8>>>,
    end: StateView,
)
    requires
        action_in(m) == Some(action),
        run(after(m, entry, ReplyView::Done), entry, all_done(ops.len())).state == end,
        operations(after(m, entry, ReplyView::Done), entry, all_done(ops.len())) == ops,
    ensures
        run(m, entry, all_done((seq![action] + ops).len())).state == end,
        operations(m, entry, all_done((seq![action] + ops).len())) == seq![action] + ops,
{
    lemma_done_more((seq![action] + ops).len());
    lemma_one(m, entry, ReplyView::Done);
    lemma_runs(m, entry, seq![ReplyView::Done], all_done(ops.len()));
}

proof fn lemma_permitting(m: UnpackView, entry: EntryFields, open: bool)
    requires
        m.state == permitting(entry, m.dst, m.host, open),
        can_be_set(entry, m.host),
    ensures
        ({
            let ops = mode_ops(entry, m.dst, m.host, open) + last_ops(entry, m, open);
            &&& run(m, entry, all_done(ops.len())).state == good_end(open)
            &&& operations(m, entry, all_done(ops.len())) == ops
        }),
{
    let first = mode_ops(entry, m.dst, m.host, open);
    let rest = last_ops(entry, m, open);
    if first.len() == 0 {
        assert(first + rest =~= rest);
        lemma_concluding(m, entry, open);
    } else {
        assert(first =~= seq![first[0]]);
        lemma_concluding(after(m, entry, ReplyView::Done), entry, open);
        lemma_in_front(m, entry, first[0], rest, good_end(open));
    }
}

proof fn lemma_owning(m: UnpackView, entry: EntryFields, open: bool)
    requires
        m.state == owning(entry, m.dst, m.host, open),
        can_be_set(entry, m.host),
    ensures
        ({
            let ops = owner_ops(entry, m.dst, m.host, open) + (mode_ops(
                entry,
                m.dst,
                m.host,
                open,
            ) + last_ops(entry, m, open));
            &&& run(m, entry, all_done(ops.len())).state == good_end(open)
            &&& operations(m, entry, all_done(ops.len())) == ops
        }),
{
    let first = owner_ops(entry, m.dst, m.host, open);
    let rest = mode_ops(entry, m.dst, m.host, open) + last_ops(entry, m, open);
    if first.len() == 0 {
        assert(first + rest =~= rest);
        lemma_permitting(m, entry, open);
    } else {
        assert(first =~= seq![first[0]]);
        lemma_permitting(after(m, entry, ReplyView::Done), entry, open);
        lemma_in_front(m, entry, first[0], rest, good_end(open));
    }
}

proof fn lemma_stamping(m: UnpackView, entry: EntryFields, open: bool)
    requires
        m.state == stamping(entry, m.dst, m.host, open),
        can_be_set(entry, m.host),
    ensures
        ({
            let ops = setting_ops(entry, m.dst, m.host, open);
            &&& run(m, entry, all_done(ops.len())).state == good_end(open)
            &&& operations(m, entry, all_done(ops.len())) == ops
        }),
{
    let first = time_ops(entry, m.dst, m.host);
    let rest = owner_ops(entry, m.dst, m.host, open) + (mode_ops(entry, m.dst, m.host, open)
        + last_ops(entry, m, open));
    assert(setting_ops(entry, m.dst, m.host, open) =~= first + rest);
    if first.len() == 0 {
        assert(first + rest =~= rest);
        lemma_owning(m, entry, open);
    } else {
        assert(first =~= seq![first[0]]);
        lemma_owning(after(m, entry, ReplyView::Done), entry, open);
        lemma_in_front(m, entry, first[0], rest, good_end(open));
    }
}

/// Writing the stretches: bytes are copied, as many as there are, and a hole is skipped by its
/// length, after which the file is made as long as it then stands.
pub open spec fn content_ops(data: Seq<EntryIo>, ends: Seq<u64>) -> Seq<Action<Seq<u8>>>
    decreases data.len(),
{
    if data.len() == 0 {
        Seq::empty()
    } else {
        (match data[0] {
            EntryIo::Data(n) => seq![Action::CopyData(n)],
            EntryIo::Pad { limit, .. } => seq![
                Action::SeekBy(limit as i64),
                Action::SetLen(ends[0]),
            ],
        }) + content_ops(data.skip(1), ends.skip(1))
    }
}

/// What comes of that when it goes well; `ends` says where the file stands after each stretch.
pub open spec fn content_replies(data: Seq<EntryIo>, ends: Seq<u64>) -> Seq<ReplyView>
    decreases data.len(),
{
    if data.len() == 0 {
        Seq::empty()
    } else {
        (match data[0] {
            EntryIo::Data(n) => seq![ReplyView::Count(n)],
            EntryIo::Pad { .. } => seq![ReplyView::Count(ends[0]), ReplyView::Done],
        }) + content_replies(data.skip(1), ends.skip(1))
    }
}

/// Whether an unpacking is about to write these stretches.
spec fn is_writing(m: UnpackView, entry: EntryFields, data: Seq<EntryIo>) -> bool {
    &&& m.state == writing(entry, m.dst, m.host, data)
    &&& data.len() > 0 ==> m.pieces == data.skip(1)
}

proof fn lemma_copied(m: UnpackView, entry: EntryFields, data: Seq<EntryIo>, n: u64)
    requires
        is_writing(m, entry, data),
        data.len() > 0,
        data[0] == EntryIo::Data(n),
    ensures
        action_in(m) == Some(Action::<Seq<u8>>::CopyData(n)),
        ({
            let next = after(m, entry, ReplyView::Count(n));
            next.dst == m.dst && next.host == m.host && is_writing(next, entry, data.skip(1))
        }),
{
}

proof fn lemma_skipped(
    m: UnpackView,
    entry: EntryFields,
    data: Seq<EntryIo>,
    byte: u8,
    limit: u64,
    end: u64,
)
    requires
        is_writing(m, entry, data),
        data.len() > 0,
        data[0] == (EntryIo::Pad { byte, limit }),
    ensures
        action_in(m) == Some(Action::<Seq<u8>>::SeekBy(limit as i64)),
        ({
            let between = after(m, entry, ReplyView::Count(end));
            let next = after(between, entry, ReplyView::Done);
            &&& action_in(between) == Some(Action::<Seq<u8>>::SetLen(end))
            &&& next.dst == m.dst && next.host == m.host
            &&& is_writing(next, entry, data.skip(1))
        }),
{
}

/// One more operation in front, whatever comes of it, and all goes on from there.
proof fn lemma_before(
    m: UnpackView,
    entry: EntryFields,
    action: Action<Seq<u8>>,
    reply: ReplyView,
    replies: Seq<ReplyView>,
)
    requires
        action_in(m) == Some(action),
    ensures
        run(m, entry, seq![reply] + replies) == run(after(m, entry, reply), entry, replies),
        operations(m, entry, seq![reply] + replies) == seq![action] + operations(
            after(m, entry, reply),
            entry,
            replies,
        ),
{
    lemma_one(m, entry, reply);
    lemma_runs(m, entry, seq![reply], replies);
}

proof fn lemma_content(m: UnpackView, entry: EntryFields, data: Seq<EntryIo>, ends: Seq<u64>)
    requires
        is_writing(m, entry, data),
        can_be_set(entry, m.host),
    ensures
        ({
            let ops = setting_ops(entry, m.dst, m.host, true);
            let replies = content_replies(data, ends) + all_done(ops.len());
            &&& run(m, entry, replies).state == good_end(true)
            &&& operations(m, entry, replies) == content_ops(data, ends) + ops
        }),
    decreases data.len(),
{
    let ops = setting_ops(entry, m.dst, m.host, true);
    let dones = all_done(ops.len());
    if data.len() == 0 {
        lemma_stamping(m, entry, true);
        assert(content_replies(data, ends) + dones =~= dones);
        assert(content_ops(data, ends) + ops =~= ops);
    } else {
        lemma_content_more(m, entry, data, ends, ops);
        let rest = data.skip(1);
        match data[0] {
            EntryIo::Data(n) => {
                lemma_copied(m, entry, data, n);
                lemma_content(after(m, entry, ReplyView::Count(n)), entry, rest, ends.skip(1));
            },
            EntryIo::Pad { byte, limit } => {
                lemma_skipped(m, entry, data, byte, limit, ends[0]);
                let between = after(m, entry, ReplyView::Count(ends[0]));
                lemma_content(after(between, entry, ReplyView::Done), entry, rest, ends.skip(1));
            },
        }
    }
}

/// The first stretch is written, and then the others.
proof fn lemma_content_more(
    m: UnpackView,
    entry: EntryFields,
    data: Seq<EntryIo>,
    ends: Seq<u64>,
    ops: Seq<Action<Seq<u8>>>,
)
    requires
        is_writing(m, entry, data),
        data.len() > 0,
    ensures
        ({
            let last = content_replies(data.skip(1), ends.skip(1)) + all_done(ops.len());
            let last_ops = content_ops(data.skip(1), ends.skip(1)) + ops;
            let next = match data[0] {
                EntryIo::Data(n) => after(m, entry, ReplyView::Count(n)),
                EntryIo::Pad { .. } => after(
                    after(m, entry, ReplyView::Count(ends[0])),
                    entry,
                    ReplyView::Done,
                ),
            };
            let replies = content_replies(data, ends) + all_done(ops.len());
            &&& run(m, entry, replies) == run(next, entry, last)
            &&& operations(next, entry, last) == last_ops ==> operations(m, entry, replies)
                == content_ops(data, ends) + ops
        }),
{
    let rest = data.skip(1);
    let others = ends.skip(1);
    let dones = all_done(ops.len());
    let last = content_replies(rest, others) + dones;
    let last_ops = content_ops(rest, others) + ops;
    match data[0] {
        EntryIo::Data(n) => {
            let a = ReplyView::Count(n);
            lemma_copied(m, entry, data, n);
            lemma_before(m, entry, Action::CopyData(n), a, last);
            assert(content_replies(data, ends) + dones =~= seq![a] + last);
            assert(content_ops(data, ends) + ops =~= seq![Action::CopyData(n)] + last_ops);
        },
        EntryIo::Pad { byte, limit } => {
            let end = ends[0];
            let a = ReplyView::Count(end);
            let b = ReplyView::Done;
            let seek = Action::<Seq<u8>>::SeekBy(limit as i64);
            let set_len = Action::<Seq<u8>>::SetLen(end);
            lemma_skipped(m, entry, data, byte, limit, end);
            lemma_before(after(m, entry, a), entry, set_len, b, last);
            lemma_before(m, entry, seek, a, seq![b] + last);
            assert(content_replies(data, ends) + dones =~= seq![a] + (seq![b] + last));
            assert(content_ops(data, ends) + ops =~= seq![seek] + (seq![set_len] + last_ops));
        },
    }
}

/// The time that an entry is stamped with is that of its header, to the second; only zero is taken
/// for one. It is there wherever the header gives one that the host can keep.
pub proof fn law_time(header: Header, host: Host)
    ensures
        match header.mtime {
            Ok(mtime) => if mtime == 0 {
                mtime_of(header, host) == Some(file_time(1, 0))
            } else if mtime <= i64::MAX && (host is Windows ==> mtime + 11644473600 <= i64::MAX) {
                exists|seconds: i64|
                    seconds == mtime && mtime_of(header, host) == Some(
                        #[trigger] file_time(seconds, 0),
                    )
            } else {
                host is Windows && mtime <= i64::MAX ==> mtime_of(header, host) is None
            },
            Err(_) => mtime_of(header, host) is None,
        },
{
    if let Ok(mtime) = header.mtime {
        if mtime <= i64::MAX {
            assert(mtime as i64 == mtime);
        }
    }
}

/// The permission bits that are set on Unix: all of those in the header where they are kept, and
/// otherwise exactly the last nine of them.
pub proof fn law_bits(entry: EntryFields, dst: Seq<u8>, host: Host, open: bool, mode: u32)
    requires
        host is Unix,
        entry.header.mode matches Ok(m) && m == mode,
    ensures
        permitting(entry, dst, host, open) matches State::Permit { open: same, mode: shown, bits }
            && same == open && shown == mode && (if entry.preserve_permissions {
            bits == mode
        } else {
            bits <= 511 && mode % 512 == bits
        }),
{
    assert(mode & 0x1ff <= 511 && mode % 512 == mode & 0x1ff) by (bit_vector);
}

/// Whether an entry is a directory: by its type, or in the old formats as a file whose name ends in a
/// separator.
pub open spec fn is_directory(entry: EntryFields) -> bool {
    match entry.header.entry_type {
        EntryType::Directory => true,
        EntryType::Regular | EntryType::Other(_) => {
            let name = entry.listed_path();
            !entry.header.ustar && name.len() > 0 && (name[name.len() - 1] == 0x2f
                || name[name.len() - 1] == 0x5c)
        },
        _ => false,
    }
}

/// Whether an entry is a file: of the type, or of one that is not known, unless it is a directory.
pub open spec fn is_file(entry: EntryFields) -> bool {
    (entry.header.entry_type is Regular || entry.header.entry_type is Other) && !is_directory(entry)
}

/// What an entry begins with, by what it is: a directory is made, a file opened, a link looked up or
/// made, and an entry that describes others is passed over.
pub proof fn law_first_operation(
    entry: EntryFields,
    base: Option<Seq<u8>>,
    dst: Seq<u8>,
    host: Host,
)
    ensures
        ({
            let first = action_in(starting(entry, base, dst, host));
            &&& is_file(entry) <==> first == Some(Action::OpenNew(dst))
            &&& is_directory(entry) <==> first == Some(Action::CreateDir(dst))
            &&& match entry.header.entry_type {
                EntryType::XGlobalHeader
                | EntryType::XHeader
                | EntryType::GNULongName
                | EntryType::GNULongLink => starting(entry, base, dst, host).state == good_end(
                    false,
                ),
                EntryType::Regular | EntryType::Other(_) => is_file(entry) || is_directory(entry),
                _ => true,
            }
        }),
{
}

/// A file is unpacked by opening it anew at its place, writing its stretches in their order, and
/// setting what is known of it; then it is reported as a file.
pub proof fn law_file_unpacked(
    entry: EntryFields,
    base: Option<Seq<u8>>,
    dst: Seq<u8>,
    host: Host,
    ends: Seq<u64>,
)
    requires
        is_file(entry),
        can_be_set(entry, host),
    ensures
        ({
            let m = starting(entry, base, dst, host);
            let settings = setting_ops(entry, dst, host, true);
            let replies = seq![ReplyView::Done] + (content_replies(entry.data@, ends) + all_done(
                settings.len(),
            ));
            &&& run(m, entry, replies).state == good_end(true)
            &&& operations(m, entry, replies) == seq![Action::OpenNew(dst)] + (content_ops(
                entry.data@,
                ends,
            ) + settings)
        }),
{
    let m = starting(entry, base, dst, host);
    let next = after(m, entry, ReplyView::Done);
    let settings = setting_ops(entry, dst, host, true);
    lemma_content(next, entry, entry.data@, ends);
    lemma_one(m, entry, ReplyView::Done);
    lemma_runs(
        m,
        entry,
        seq![ReplyView::Done],
        content_replies(entry.data@, ends) + all_done(settings.len()),
    );
}

/// A directory is unpacked by making it and setting what is known of it.
pub proof fn law_directory_unpacked(
    entry: EntryFields,
    base: Option<Seq<u8>>,
    dst: Seq<u8>,
    host: Host,
)
    requires
        is_directory(entry),
        can_be_set(entry, host),
    ensures
        ({
            let m = starting(entry, base, dst, host);
            let ops = seq![Action::CreateDir(dst)] + setting_ops(entry, dst, host, false);
            &&& run(m, entry, all_done(ops.len())).state == good_end(false)
            &&& operations(m, entry, all_done(ops.len())) == ops
        }),
{
    let m = starting(entry, base, dst, host);
    lemma_stamping(after(m, entry, ReplyView::Done), entry, false);
    lemma_in_front(
        m,
        entry,
        Action::CreateDir(dst),
        setting_ops(entry, dst, host, false),
        good_end(false),
    );
}

/// Where there is a directory that must not be left and something to set, the place is resolved
/// first.
pub open spec fn place_ops(
    base: Option<Seq<u8>>,
    dst: Seq<u8>,
    settings: Seq<Action<Seq<u8>>>,
) -> Seq<Action<Seq<u8>>> {
    if base is Some && settings.len() > 0 {
        seq![Action::Canonicalize(dst)]
    } else {
        Seq::empty()
    }
}

/// What comes of that.
pub open spec fn place_replies(
    base: Option<Seq<u8>>,
    settings: Seq<Action<Seq<u8>>>,
    resolved: Seq<u8>,
) -> Seq<ReplyView> {
    if base is Some && settings.len() > 0 {
        seq![ReplyView::Path(resolved)]
    } else {
        Seq::empty()
    }
}

/// A place that may lead elsewhere is settled.
proof fn lemma_settling(m: UnpackView, entry: EntryFields, resolved: Seq<u8>)
    requires
        m.state == settling(entry, m.base, m.dst, m.host),
        m.base matches Some(dir) ==> is_inside(resolved, dir, m.host),
        can_be_set(entry, m.host),
    ensures
        ({
            let settings = setting_ops(entry, m.dst, m.host, false);
            let replies = place_replies(m.base, settings, resolved) + all_done(settings.len());
            &&& run(m, entry, replies).state == good_end(false)
            &&& operations(m, entry, replies) == place_ops(m.base, m.dst, settings) + settings
        }),
{
    let settings = setting_ops(entry, m.dst, m.host, false);
    let dones = all_done(settings.len());
    let stamped = UnpackView { state: stamping(entry, m.dst, m.host, false), ..m };
    lemma_stamping(stamped, entry, false);
    if settings.len() == 0 {
        assert(dones =~= Seq::empty());
        assert(run(stamped, entry, dones) == stamped);
        assert(stamped.state is Finished);
    } else if stamped.state is Finished {
        lemma_nothing_asked(stamped, entry, dones);
        assert(operations(stamped, entry, dones).len() == settings.len());
    }
    if m.base is Some && settings.len() > 0 {
        let reply = ReplyView::Path(resolved);
        lemma_one(m, entry, reply);
        assert(after(m, entry, reply) == stamped);
        lemma_runs(m, entry, seq![reply], dones);
    } else {
        assert(m == stamped);
        assert(place_replies(m.base, settings, resolved) + dones =~= dones);
        assert(place_ops(m.base, m.dst, settings) + settings =~= settings);
    }
}

/// When it is over, nothing more is asked for.
proof fn lemma_nothing_asked(m: UnpackView, entry: EntryFields, replies: Seq<ReplyView>)
    requires
        m.state is Finished,
    ensures
        operations(m, entry, replies).len() == 0,
    decreases replies.len(),
{
    if replies.len() > 0 {
        lemma_nothing_asked(after(m, entry, replies[0]), entry, replies.skip(1));
    }
}

/// A directory that is there already is unpacked by setting what is known of it.
pub proof fn law_existing_directory_unpacked(
    entry: EntryFields,
    base: Option<Seq<u8>>,
    dst: Seq<u8>,
    host: Host,
    cause: ErrorView,
    resolved: Seq<u8>,
)
    requires
        is_directory(entry),
        can_be_set(entry, host),
        cause.kind is AlreadyExists,
        base matches Some(dir) ==> is_inside(resolved, dir, host),
    ensures
        ({
            let m = starting(entry, base, dst, host);
            let settings = setting_ops(entry, dst, host, false);
            let replies = seq![ReplyView::Failed(cause), ReplyView::Answer(true)] + (place_replies(
                base,
                settings,
                resolved,
            ) + all_done(settings.len()));
            &&& run(m, entry, replies).state == good_end(false)
            &&& operations(m, entry, replies) == seq![
                Action::CreateDir(dst),
                Action::IsDir(dst),
            ] + (place_ops(base, dst, settings) + settings)
        }),
{
    let m = starting(entry, base, dst, host);
    let settings = setting_ops(entry, dst, host, false);
    let failed = ReplyView::Failed(cause);
    let there = ReplyView::Answer(true);
    let probed = after(m, entry, failed);
    let settled = after(probed, entry, there);
    let last = place_replies(base, settings, resolved) + all_done(settings.len());
    lemma_one(m, entry, failed);
    lemma_one(probed, entry, there);
    lemma_settling(settled, entry, resolved);
    lemma_runs(probed, entry, seq![there], last);
    lemma_runs(m, entry, seq![failed], seq![there] + last);
    assert(seq![failed, there] + last =~= seq![failed] + (seq![there] + last));
    assert(seq![Action::CreateDir(dst), Action::IsDir(dst)] + (place_ops(base, dst, settings)
        + settings) =~= seq![Action::CreateDir(dst)] + (seq![Action::IsDir(dst)] + (place_ops(
        base,
        dst,
        settings,
    ) + settings)));
}

/// A symbolic link is unpacked by making it to the listed target, as that is, and setting its time,
/// with or without a directory that must not be left.
pub proof fn law_symlink_unpacked(
    entry: EntryFields,
    base: Option<Seq<u8>>,
    dst: Seq<u8>,
    host: Host,
    target: Seq<u8>,
)
    requires
        entry.header.entry_type is Symlink,
        entry.link_path(host) matches Ok(listed) && listed == Some(target),
        target.len() > 0,
        !(host is Wasm),
    ensures
        ({
            let m = starting(entry, base, dst, host);
            let ops = seq![Action::Symlink { source: target, link: dst }] + link_time_ops(
                entry,
                dst,
                host,
            );
            &&& run(m, entry, all_done(ops.len())).state == good_end(false)
            &&& operations(m, entry, all_done(ops.len())) == ops
        }),
{
    let m = starting(entry, base, dst, host);
    let made = after(m, entry, ReplyView::Done);
    let rest = link_time_ops(entry, dst, host);
    assert(all_done(0) =~= Seq::empty());
    if rest.len() == 0 {
        assert(rest =~= Seq::empty());
        assert(operations(made, entry, all_done(0)) =~= rest);
    } else {
        let stamped = after(made, entry, ReplyView::Done);
        assert(operations(stamped, entry, all_done(0)) =~= Seq::empty());
        assert(rest =~= seq![rest[0]] + Seq::empty());
        lemma_in_front(made, entry, rest[0], Seq::empty(), good_end(false));
    }
    lemma_in_front(
        m,
        entry,
        Action::Symlink { source: target, link: dst },
        rest,
        good_end(false),
    );
}

/// Where a hard link leads: to the listed target, looked up from the directory that must not be left
/// where there is one.
pub open spec fn hard_link_source(target: Seq<u8>, base: Option<Seq<u8>>, host: Host) -> Seq<u8> {
    match base {
        Some(dir) => looked_up(dir, target, host),
        None => target,
    }
}

/// A hard link is unpacked by making it to where it leads, after that has been found to lie in the
/// directory that must not be left, and setting what is known of the entry.
#[verifier::rlimit(60)]
pub proof fn law_hard_link_unpacked(
    entry: EntryFields,
    base: Option<Seq<u8>>,
    dst: Seq<u8>,
    host: Host,
    target: Seq<u8>,
    found: Seq<u8>,
    root: Seq<u8>,
    resolved: Seq<u8>,
)
    requires
        entry.header.entry_type is Link,
        entry.link_path(host) matches Ok(listed) && listed == Some(target),
        target.len() > 0,
        can_be_set(entry, host),
        is_inside(found, root, host),
        base matches Some(dir) ==> is_inside(resolved, dir, host),
    ensures
        ({
            let m = starting(entry, base, dst, host);
            let source = hard_link_source(target, base, host);
            let settings = setting_ops(entry, dst, host, false);
            let looked: Seq<ReplyView> = if base is Some {
                seq![ReplyView::Path(found), ReplyView::Path(root)]
            } else {
                Seq::empty()
            };
            let looks: Seq<Action<Seq<u8>>> = match base {
                Some(dir) => seq![Action::Canonicalize(source), Action::Canonicalize(dir)],
                None => Seq::empty(),
            };
            let replies = looked + (seq![ReplyView::Done] + (place_replies(
                base,
                settings,
                resolved,
            ) + all_done(settings.len())));
            &&& run(m, entry, replies).state == good_end(false)
            &&& operations(m, entry, replies) == looks + (seq![
                Action::HardLink { source, link: dst },
            ] + (place_ops(base, dst, settings) + settings))
        }),
{
    let m = starting(entry, base, dst, host);
    let source = hard_link_source(target, base, host);
    let settings = setting_ops(entry, dst, host, false);
    let last = place_replies(base, settings, resolved) + all_done(settings.len());
    let last_ops = place_ops(base, dst, settings) + settings;
    let done = seq![ReplyView::Done];
    let made = seq![Action::HardLink { source, link: dst }];
    let ready = UnpackView { state: State::HardLink { source, again: false }, ..m };
    lemma_one(ready, entry, ReplyView::Done);
    lemma_settling(after(ready, entry, ReplyView::Done), entry, resolved);
    lemma_runs(ready, entry, done, last);
    match base {
        Some(dir) => {
            let a = ReplyView::Path(found);
            let b = ReplyView::Path(root);
            let second = after(m, entry, a);
            lemma_one(m, entry, a);
            lemma_one(second, entry, b);
            assert(after(second, entry, b) == ready);
            lemma_runs(second, entry, seq![b], done + last);
            lemma_runs(m, entry, seq![a], seq![b] + (done + last));
            assert(seq![a, b] + (done + last) =~= seq![a] + (seq![b] + (done + last)));
            assert(seq![Action::Canonicalize(source), Action::Canonicalize(dir)] + (made
                + last_ops) =~= seq![Action::Canonicalize(source)] + (seq![
                Action::Canonicalize(dir),
            ] + (made + last_ops)));
        },
        None => {
            assert(m == ready);
            assert(Seq::<ReplyView>::empty() + (done + last) =~= done + last);
            assert(Seq::<Action<Seq<u8>>>::empty() + (made + last_ops) =~= made + last_ops);
        },
    }
}

/// A link without a target, or to an empty one, or to one that is no path, is not made: the entry is
/// refused at once.
pub proof fn law_bad_links(
    entry: EntryFields,
    base: Option<Seq<u8>>,
    dst: Seq<u8>,
    host: Host,
)
    requires
        entry.header.entry_type is Link || entry.header.entry_type is Symlink,
    ensures
        ({
            let state = starting(entry, base, dst, host).state;
            match entry.link_path(host) {
                Err(e) => state == StateView::Finished(Err(e)),
                Ok(None) => state matches State::Finished(r) && r matches Err(e) && e.kind is Other
                    && mentions(e.text, utf8_lossy(entry.header.bytes@)),
                Ok(Some(target)) => if target.len() == 0 {
                    state matches State::Finished(r) && r matches Err(e) && e.kind is Other
                        && mentions(e.text, utf8_lossy(entry.header.bytes@))
                } else if host is Wasm && entry.header.entry_type is Symlink {
                    state matches State::Finished(r) && r matches Err(e) && e.kind is Other
                        && mentions(e.text, utf8_lossy(target)) && mentions(e.text, utf8_lossy(dst))
                } else {
                    !(state is Finished)
                },
            }
        }),
{
    law_paths_told(not_implemented(), entry.header.bytes@, dst);
    if let Ok(Some(target)) = entry.link_path(host) {
        law_paths_told(not_implemented(), target, dst);
    }
}

/// In every run each symbolic link that is asked for is one to the listed target, as that is, at the
/// destination; and each hard link one to where the listed target leads.
pub proof fn law_links_asked_for(
    entry: EntryFields,
    base: Option<Seq<u8>>,
    dst: Seq<u8>,
    host: Host,
    replies: Seq<ReplyView>,
)
    ensures
        ({
            let asked = action_in(run(starting(entry, base, dst, host), entry, replies));
            &&& asked matches Some(Action::Symlink { source, link }) ==> {
                &&& entry.header.entry_type is Symlink
                &&& entry.link_path(host) matches Ok(target) && target == Some(source)
                &&& link == dst
            }
            &&& asked matches Some(Action::HardLink { source, link }) ==> {
                &&& entry.header.entry_type is Link
                &&& entry.link_path(host) matches Ok(target) && target matches Some(path) && source
                    == hard_link_source(path, base, host)
                &&& link == dst
            }
        }),
{
    lemma_links(starting(entry, base, dst, host), entry, replies);
}

/// Whether what a state links to is what the entry lists.
spec fn links_right(m: UnpackView, entry: EntryFields) -> bool {
    match m.state {
        State::Symlink { source, .. } | State::ClearLink { source } => {
            &&& entry.header.entry_type is Symlink
            &&& entry.link_path(m.host) matches Ok(target) && target == Some(source)
        },
        State::ResolveSource { source, .. }
        | State::ResolveBase { source, .. }
        | State::HardLink { source, .. }
        | State::CompareSource { source, .. }
        | State::ComparePlace { source, .. }
        | State::ClearHardLink { source } => {
            &&& entry.header.entry_type is Link
            &&& entry.link_path(m.host) matches Ok(target) && target matches Some(path) && source
                == hard_link_source(path, m.base, m.host)
        },
        _ => true,
    }
}

proof fn lemma_links(m: UnpackView, entry: EntryFields, replies: Seq<ReplyView>)
    requires
        links_right(m, entry),
    ensures
        links_right(run(m, entry, replies), entry),
        run(m, entry, replies).dst == m.dst,
        run(m, entry, replies).host == m.host,
        run(m, entry, replies).base == m.base,
    decreases replies.len(),
{
    if replies.len() > 0 {
        lemma_links_step(m, entry, replies[0]);
        lemma_links(after(m, entry, replies[0]), entry, replies.skip(1));
    }
}

#[verifier::rlimit(60)]
proof fn lemma_links_step(m: UnpackView, entry: EntryFields, reply: ReplyView)
    requires
        links_right(m, entry),
    ensures
        links_right(after(m, entry, reply), entry),
{
}

/// Whether there is another way when an operation fails: a directory may be there already, what is in
/// the way may be removed, what was to be removed may be gone, and what is in the way of a hard link
/// need not lead anywhere.
pub open spec fn has_a_way(m: UnpackView, entry: EntryFields, cause: ErrorView) -> bool {
    match m.state {
        State::MakeDir => cause.kind is AlreadyExists,
        State::Open { again } => !again && entry.overwrite && cause.kind is AlreadyExists,
        State::Symlink { again, .. } => !again && entry.overwrite && cause.kind is AlreadyExists,
        State::HardLink { again, .. } => !again && entry.overwrite && cause.kind is AlreadyExists,
        State::ClearFile => cause.kind is NotFound,
        State::ComparePlace { .. } => true,
        _ => false,
    }
}

/// An operation that fails ends the unpacking with an error that comes of that, unless there is
/// another way. Where the source of a hard link does not resolve, it comes of the failure before.
pub proof fn law_failure_reported(m: UnpackView, entry: EntryFields, cause: ErrorView)
    requires
        !(m.state is Finished) && !(m.state is ProbeDir) && !(m.state is Tag),
    ensures
        ({
            let state = after(m, entry, ReplyView::Failed(cause)).state;
            if has_a_way(m, entry, cause) {
                !(state is Finished)
            } else {
                state matches State::Finished(r) && r matches Err(e) && match m.state {
                    State::CompareSource { cause: first, .. } => comes_of(e, first),
                    _ => comes_of(e, cause),
                }
            }
        }),
{
    if !has_a_way(m, entry, cause) {
        lemma_failure_text(m, entry, cause);
    }
}

#[verifier::rlimit(60)]
proof fn lemma_failure_text(m: UnpackView, entry: EntryFields, cause: ErrorView)
    requires
        !(m.state is Finished) && !(m.state is ProbeDir) && !(m.state is Tag),
        !has_a_way(m, entry, cause),
    ensures
        after(m, entry, ReplyView::Failed(cause)).state matches State::Finished(r)
            && r matches Err(e) && match m.state {
            State::CompareSource { cause: first, .. } => comes_of(e, first),
            _ => comes_of(e, cause),
        },
{
    let state = after(m, entry, ReplyView::Failed(cause)).state;
    if let State::Finished(Err(e)) = state {
        let first = match m.state {
            State::CompareSource { cause: first, .. } => first,
            _ => cause,
        };
        if e.causes.len() == 0 {
            lemma_mentions(
                e.text,
                Seq::empty(),
                first.text,
                e.text.skip(first.text.len() as int),
            );
        }
    }
}

/// What else ends an unpacking with an error: something other than a directory where one is to be
/// made, fewer or more bytes than there should be, an attribute that cannot be set, and a path that
/// leads out of the directory that must not be left.
pub proof fn law_refusals(m: UnpackView, entry: EntryFields, reply: ReplyView)
    ensures
        ({
            let state = after(m, entry, reply).state;
            match (m.state, reply) {
                (State::ProbeDir(cause), Reply::Answer(false)) => state matches State::Finished(r)
                    && r matches Err(e) && comes_of(e, cause),
                (State::Copy(n), Reply::Count(copied)) => copied != n ==> (
                state matches State::Finished(r) && r matches Err(e) && e.kind is Other && mentions(
                    e.text,
                    utf8_lossy(m.dst),
                )),
                (State::Tag { .. }, Reply::Unset(cause, key)) => state matches State::Finished(r)
                    && r matches Err(e) && comes_of(e, cause) && mentions(e.text, key),
                (State::ResolveBase { resolved, source, .. }, Reply::Path(root)) => if is_inside(
                    resolved,
                    root,
                    m.host,
                ) {
                    state == StateView::HardLink { source, again: false }
                } else {
                    state matches State::Finished(r) && r matches Err(e) && e.kind is Other
                        && mentions(e.text, utf8_lossy(root))
                },
                (State::ResolvePlace, Reply::Path(resolved)) => match m.base {
                    Some(dir) => !is_inside(resolved, dir, m.host) ==> (
                    state matches State::Finished(r) && r matches Err(e) && e.kind is Other
                        && mentions(e.text, utf8_lossy(dir))),
                    None => true,
                },
                _ => true,
            }
        }),
{
    match (m.state, reply) {
        (State::ProbeDir(cause), Reply::Answer(false)) => {
            let e = create_dir_failed(cause, m.dst);
            lemma_mentions(
                e.text,
                Seq::empty(),
                cause.text,
                e.text.skip(cause.text.len() as int),
            );
        },
        (State::Tag { value, .. }, Reply::Unset(cause, key)) => {
            law_values_told(cause, 0, 0, 0, m.dst, key, value, key);
        },
        (State::ResolveBase { .. }, Reply::Path(root)) => {
            law_paths_told(not_implemented(), root, root);
        },
        (State::ResolvePlace, Reply::Path(_)) => {
            if let Some(dir) = m.base {
                law_paths_told(not_implemented(), dir, dir);
            }
        },
        (State::Copy(_), _) => {
            law_paths_told(short_copy(), entry.header.path@, m.dst);
        },
        _ => {},
    }
}

/// Whether an error says why metadata cannot be set: that an owner cannot be read, that one is too
/// large, or that the host has no permissions to set.
pub open spec fn says_why_not_set(
    e: ErrorView,
    entry: EntryFields,
    dst: Seq<u8>,
    host: Host,
) -> bool {
    if entry.preserve_ownerships && entry.header.uid is Err {
        e == entry.header.uid->Err_0@
    } else if entry.preserve_ownerships && entry.header.gid is Err {
        e == entry.header.gid->Err_0@
    } else {
        &&& e.kind is Other
        &&& e.causes.len() == 1
        &&& mentions(e.text, utf8_lossy(dst))
        &&& host is Unix ==> {
            let uid = entry.header.uid->Ok_0;
            let gid = entry.header.gid->Ok_0;
            &&& mentions(e.text, figures(uid as nat, 10))
            &&& mentions(e.text, figures(gid as nat, 10))
            &&& mentions(
                e.causes[0],
                figures(
                    if uid > 0xffff_ffff {
                        uid as nat
                    } else {
                        gid as nat
                    },
                    10,
                ),
            )
        }
        &&& !(host is Unix) ==> mentions(e.text, figures(entry.header.mode->Ok_0 as nat, 8))
    }
}

/// Metadata that cannot be set is an error that says why.
proof fn lemma_why_not_set(entry: EntryFields, dst: Seq<u8>, host: Host, open: bool)
    requires
        !can_be_set(entry, host),
    ensures
        owning(entry, dst, host, open) matches State::Finished(r) && r matches Err(e)
            && says_why_not_set(e, entry, dst, host),
{
    let none = Seq::<char>::empty();
    match (entry.header.uid, entry.header.gid) {
        (Ok(uid), Ok(gid)) if entry.preserve_ownerships && host is Unix => {
            let label = if uid > 0xffff_ffff {
                "UID "@
            } else {
                "GID "@
            };
            let id = if uid > 0xffff_ffff {
                uid
            } else {
                gid
            };
            let cause = id_too_large(label, id);
            law_values_told(cause, uid, gid, 0, dst, none, dst, none);
            law_values_told(cause, id, 0, 0, dst, none, dst, label);
        },
        _ => {
            if let Ok(mode) = entry.header.mode {
                law_values_told(not_implemented(), 0, 0, mode, dst, none, dst, none);
            }
        },
    }
}

proof fn lemma_not_set(m: UnpackView, entry: EntryFields, open: bool)
    requires
        m.state == stamping(entry, m.dst, m.host, open),
        !can_be_set(entry, m.host),
    ensures
        ({
            let ops = time_ops(entry, m.dst, m.host);
            &&& run(m, entry, all_done(ops.len())).state == owning(entry, m.dst, m.host, open)
            &&& operations(m, entry, all_done(ops.len())) == ops
            &&& owning(entry, m.dst, m.host, open) matches State::Finished(r) && r matches Err(e)
                && says_why_not_set(e, entry, m.dst, m.host)
        }),
{
    let ops = time_ops(entry, m.dst, m.host);
    let bad = owning(entry, m.dst, m.host, open);
    lemma_why_not_set(entry, m.dst, m.host, open);
    assert(all_done(0) =~= Seq::empty());
    if ops.len() == 0 {
        assert(ops =~= Seq::empty());
        assert(operations(m, entry, all_done(0)) =~= ops);
    } else {
        let stamped = after(m, entry, ReplyView::Done);
        assert(operations(stamped, entry, all_done(0)) =~= Seq::empty());
        assert(ops =~= seq![ops[0]] + Seq::empty());
        lemma_in_front(m, entry, ops[0], Seq::empty(), bad);
    }
}

proof fn lemma_not_set_on_file(m: UnpackView, entry: EntryFields, data: Seq<EntryIo>, ends: Seq<u64>)
    requires
        is_writing(m, entry, data),
        !can_be_set(entry, m.host),
    ensures
        ({
            let ops = time_ops(entry, m.dst, m.host);
            let replies = content_replies(data, ends) + all_done(ops.len());
            &&& run(m, entry, replies).state == owning(entry, m.dst, m.host, true)
            &&& operations(m, entry, replies) == content_ops(data, ends) + ops
            &&& owning(entry, m.dst, m.host, true) matches State::Finished(r) && r matches Err(e)
                && says_why_not_set(e, entry, m.dst, m.host)
        }),
    decreases data.len(),
{
    let ops = time_ops(entry, m.dst, m.host);
    let dones = all_done(ops.len());
    if data.len() == 0 {
        lemma_not_set(m, entry, true);
        assert(content_replies(data, ends) + dones =~= dones);
        assert(content_ops(data, ends) + ops =~= ops);
    } else {
        lemma_content_more(m, entry, data, ends, ops);
        let rest = data.skip(1);
        match data[0] {
            EntryIo::Data(n) => {
                lemma_copied(m, entry, data, n);
                lemma_not_set_on_file(
                    after(m, entry, ReplyView::Count(n)),
                    entry,
                    rest,
                    ends.skip(1),
                );
            },
            EntryIo::Pad { byte, limit } => {
                lemma_skipped(m, entry, data, byte, limit, ends[0]);
                let between = after(m, entry, ReplyView::Count(ends[0]));
                lemma_not_set_on_file(
                    after(between, entry, ReplyView::Done),
                    entry,
                    rest,
                    ends.skip(1),
                );
            },
        }
    }
}

/// Metadata that cannot be set ends the unpacking of a directory with an error, once its time is
/// set; an owner that cannot be read with the error that says so.
pub proof fn law_bad_metadata(
    entry: EntryFields,
    base: Option<Seq<u8>>,
    dst: Seq<u8>,
    host: Host,
)
    requires
        is_directory(entry),
        !can_be_set(entry, host),
    ensures
        ({
            let m = starting(entry, base, dst, host);
            let ops = seq![Action::CreateDir(dst)] + time_ops(entry, dst, host);
            let now = run(m, entry, all_done(ops.len()));
            &&& operations(m, entry, all_done(ops.len())) == ops
            &&& now.state matches State::Finished(r) && r matches Err(e) && says_why_not_set(
                e,
                entry,
                dst,
                host,
            )
        }),
{
    let m = starting(entry, base, dst, host);
    lemma_not_set(after(m, entry, ReplyView::Done), entry, false);
    lemma_in_front(
        m,
        entry,
        Action::CreateDir(dst),
        time_ops(entry, dst, host),
        owning(entry, dst, host, false),
    );
}

/// Metadata that cannot be set ends the unpacking of a file with an error, too, once its content is
/// written and its time is set.
pub proof fn law_bad_metadata_of_file(
    entry: EntryFields,
    base: Option<Seq<u8>>,
    dst: Seq<u8>,
    host: Host,
    ends: Seq<u64>,
)
    requires
        is_file(entry),
        !can_be_set(entry, host),
    ensures
        ({
            let m = starting(entry, base, dst, host);
            let times = time_ops(entry, dst, host);
            let replies = seq![ReplyView::Done] + (content_replies(entry.data@, ends) + all_done(
                times.len(),
            ));
            &&& operations(m, entry, replies) == seq![Action::OpenNew(dst)] + (content_ops(
                entry.data@,
                ends,
            ) + times)
            &&& run(m, entry, replies).state matches State::Finished(r) && r matches Err(e)
                && says_why_not_set(e, entry, m.dst, m.host)
        }),
{
    let m = starting(entry, base, dst, host);
    let times = time_ops(entry, dst, host);
    lemma_not_set_on_file(after(m, entry, ReplyView::Done), entry, entry.data@, ends);
    lemma_before(
        m,
        entry,
        Action::OpenNew(dst),
        ReplyView::Done,
        content_replies(entry.data@, ends) + all_done(times.len()),
    );
}

/// Where metadata cannot be set on what is there already, or on a hard link, that is an error at
/// once; or else the time is set first, and where a directory must not be left the place is resolved
/// before that.
pub proof fn law_bad_metadata_of_place(m: UnpackView, entry: EntryFields, reply: ReplyView)
    requires
        m.state is ProbeDir && reply == ReplyView::Answer(true) || m.state is HardLink && reply
            is Done,
        !can_be_set(entry, m.host),
    ensures
        ({
            let now = after(m, entry, reply);
            let times = time_ops(entry, m.dst, m.host);
            if times.len() == 0 {
                now.state matches State::Finished(r) && r matches Err(e) && says_why_not_set(
                    e,
                    entry,
                    m.dst,
                    m.host,
                )
            } else {
                action_in(now) == Some(
                    if m.base is Some {
                        Action::Canonicalize(m.dst)
                    } else {
                        times[0]
                    },
                )
            }
        }),
{
    lemma_why_not_set(entry, m.dst, m.host, false);
}

/// What was to be removed and is gone needs no removal: the file is opened as though it had been
/// removed.
pub proof fn law_nothing_to_remove(m: UnpackView, entry: EntryFields, cause: ErrorView)
    requires
        m.state is ClearFile,
        cause.kind is NotFound,
    ensures
        after(m, entry, ReplyView::Failed(cause)) == after(m, entry, ReplyView::Done),
        action_in(after(m, entry, ReplyView::Done)) == Some(Action::OpenNew(m.dst)),
{
}

/// The path that a failure is about: where the entry goes, or else what was to be resolved for it.
pub open spec fn troubled_path(m: UnpackView) -> Seq<u8> {
    match m.state {
        State::ResolveSource { source, .. } => source,
        State::ResolveBase { base, .. } => base,
        _ => m.dst,
    }
}

/// What else a failure is about: the other end of a link, the name that the entry has in the archive,
/// or what was to be set.
pub open spec fn tells_values(text: Seq<char>, m: UnpackView, entry: EntryFields) -> bool {
    match m.state {
        State::HardLink { source, .. }
        | State::CompareSource { source, .. }
        | State::ClearHardLink { source }
        | State::Symlink { source, .. }
        | State::ClearLink { source } => mentions(text, utf8_lossy(source)),
        State::Open { .. }
        | State::ClearFile
        | State::Copy(_)
        | State::Skip(_)
        | State::Lengthen(_) => mentions(text, utf8_lossy(entry.header.path@)),
        State::Own { uid, gid, .. } => mentions(text, figures(uid as nat, 10)) && mentions(
            text,
            figures(gid as nat, 10),
        ),
        State::Permit { mode, .. } | State::Forbid { mode, .. } => mentions(
            text,
            figures(mode as nat, 8),
        ),
        _ => true,
    }
}

/// The error of an operation that fails tells which path that was about, and what else it was about.
pub proof fn law_failure_tells_path(m: UnpackView, entry: EntryFields, cause: ErrorView)
    requires
        !(m.state is Finished) && !(m.state is ProbeDir) && !(m.state is Tag),
        !has_a_way(m, entry, cause),
    ensures
        after(m, entry, ReplyView::Failed(cause)).state matches State::Finished(r)
            && r matches Err(e) && mentions(e.text, utf8_lossy(troubled_path(m))) && tells_values(
            e.text,
            m,
            entry,
        ),
{
    let header = entry.header.path@;
    match m.state {
        State::MakeDir | State::ResolvePlace | State::StampLink(_) | State::Stamp { .. } => {
            law_paths_told(cause, m.dst, header);
        },
        State::ResolveSource { source, .. }
        | State::HardLink { source, .. }
        | State::ClearHardLink { source }
        | State::Symlink { source, .. }
        | State::ClearLink { source } => {
            law_paths_told(cause, source, m.dst);
        },
        State::CompareSource { source, cause: first } => {
            law_paths_told(first, source, m.dst);
        },
        State::ResolveBase { base, .. } => {
            law_paths_told(cause, base, m.dst);
        },
        State::Own { uid, gid, .. } => {
            law_values_told(
                cause,
                uid as u64,
                gid as u64,
                0,
                m.dst,
                Seq::empty(),
                header,
                Seq::empty(),
            );
        },
        State::Permit { mode, .. } | State::Forbid { mode, .. } => {
            law_values_told(cause, 0, 0, mode, m.dst, Seq::empty(), header, Seq::empty());
        },
        _ => {
            law_paths_told(cause, header, m.dst);
        },
    }
}

/// A reply that cannot come from the operation that was asked for changes nothing.
pub proof fn law_stray_reply(m: UnpackView, entry: EntryFields, reply: ReplyView)
    requires
        action_in(m) matches Some(a) && !answers(a, reply),
    ensures
        after(m, entry, reply) == m,
{
}

} // verus!
