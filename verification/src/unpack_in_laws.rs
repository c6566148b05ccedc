//! What holds of every unpacking under a directory, whatever the operations come to.
use crate::action::{answers, Action, Reply, ReplyView};
use crate::entry::EntryFields;
use crate::host::{path_on, Host};
use crate::host_path::{
    components_on, head_len, is_inside, is_settled, law_looked_up_name, law_names_on,
    law_parent_on, parent_on,
};
use crate::path::{
    components_of, is_name, law_dot_piece, law_doubled_separator, lemma_steps_split, steps,
    Component, DOT, SEPARATOR,
};
use crate::unpack::{action_in, after, beginning, State, StateView, UnpackView};
use crate::unpack_in::{
    action_in_dir, after_in, beginning_in, descended, making, names_in, target_in, InState,
    InStateView, UnpackInView,
};
use crate::unpack_laws::{
    changed_path, is_placed, law_unpacking_ends, operations_left, sets_by_path, works_on_file,
    xattr_count,
};
use vstd::prelude::*;

verus! {

/// The unpacking after a row of replies.
pub open spec fn run_in(m: UnpackInView, entry: EntryFields, replies: Seq<ReplyView>) -> UnpackInView
    decreases replies.len(),
{
    if replies.len() == 0 {
        m
    } else {
        run_in(after_in(m, entry, replies[0]), entry, replies.skip(1))
    }
}

/// The names as components.
pub open spec fn as_components(names: Seq<Seq<u8>>) -> Seq<Component<Seq<u8>>> {
    names.map_values(|n: Seq<u8>| Component::Normal(n))
}

/// The names in a path are proper ones.
proof fn lemma_names_in(p: Seq<u8>, host: Host, k: int)
    requires
        0 <= k <= components_on(p, host).len(),
    ensures
        forall|i: int|
            0 <= i < names_in(components_on(p, host).take(k)).len() ==> is_name(
                #[trigger] names_in(components_on(p, host).take(k))[i],
            ),
    decreases k,
{
    let all = components_on(p, host);
    if k > 0 {
        lemma_names_in(p, host, k - 1);
        assert(all.take(k).drop_last() =~= all.take(k - 1));
        assert(all.take(k).last() == all[k - 1]);
        if all[k - 1] is Normal {
            law_names_on(p, host, k - 1);
        }
        let before = names_in(all.take(k - 1));
        let names = names_in(all.take(k));
        assert forall|i: int| 0 <= i < names.len() implies is_name(#[trigger] names[i]) by {
            if i < before.len() {
                assert(names[i] == before[i]);
            }
        }
    }
}

/// Whether names are no more than names to the host. On Windows one that begins with a drive leads
/// away from where it is looked up.
pub open spec fn are_plain(names: Seq<Seq<u8>>, host: Host) -> bool {
    forall|i: int| 0 <= i < names.len() ==> head_len(#[trigger] names[i], host) == 0
}

/// Whether the names in `path` lead down from `dst`. This is always so but on Windows.
pub open spec fn leads_down(dst: Seq<u8>, path: Seq<u8>, host: Host) -> bool {
    is_settled(dst, host) && are_plain(names_in(components_on(path, host)), host)
}

proof fn lemma_descended(dst: Seq<u8>, names: Seq<Seq<u8>>, host: Host)
    requires
        forall|i: int| 0 <= i < names.len() ==> is_name(#[trigger] names[i]),
        are_plain(names, host),
        is_settled(dst, host),
    ensures
        components_on(descended(dst, names, host), host) == components_on(dst, host)
            + as_components(names),
        is_settled(descended(dst, names, host), host),
    decreases names.len(),
{
    if names.len() == 0 {
        assert(as_components(names) =~= Seq::empty());
    } else {
        let front = names.drop_last();
        assert forall|i: int| 0 <= i < front.len() implies head_len(#[trigger] front[i], host)
            == 0 by {
            assert(front[i] == names[i]);
        }
        assert(head_len(names[names.len() - 1], host) == 0);
        lemma_descended(dst, front, host);
        law_looked_up_name(descended(dst, front, host), names.last(), host);
        assert(as_components(names) =~= as_components(front).push(
            Component::Normal(names.last()),
        ));
    }
}

/// The place of an entry under `dst` is reached from there by the names in its path, each of them
/// one step down.
pub proof fn law_target_below(dst: Seq<u8>, path: Seq<u8>, host: Host)
    requires
        leads_down(dst, path, host),
    ensures
        target_in(dst, path, host) matches Some(file) ==> {
            let names = names_in(components_on(path, host));
            &&& forall|i: int| 0 <= i < names.len() ==> is_name(#[trigger] names[i])
            &&& components_on(file, host) == components_on(dst, host) + as_components(names)
            &&& is_inside(file, dst, host)
        },
{
    let all = components_on(path, host);
    lemma_names_in(path, host, all.len() as int);
    assert(all.take(all.len() as int) =~= all);
    lemma_descended(dst, names_in(all), host);
}

/// Two paths with the same names and without a `..` lead an entry to the same place, whatever else
/// is in them: roots, prefixes, `.` parts or further separators.
pub proof fn law_same_names(dst: Seq<u8>, p: Seq<u8>, q: Seq<u8>, host: Host)
    requires
        names_in(components_on(p, host)) == names_in(components_on(q, host)),
        !components_on(p, host).contains(Component::ParentDir),
        !components_on(q, host).contains(Component::ParentDir),
    ensures
        target_in(dst, p, host) == target_in(dst, q, host),
        target_in(dst, p, host) is Some,
{
}

/// Two entries that differ only in the long names given for them, and whose paths have the same
/// names and no `..`, are unpacked alike under a directory, whatever the operations come to. In old
/// formats a name that ends in a separator means more than its parts, so this speaks of ustar.
pub proof fn law_unpacked_alike(
    a: EntryFields,
    b: EntryFields,
    dst: Seq<u8>,
    host: Host,
    p: Seq<u8>,
    q: Seq<u8>,
    replies: Seq<ReplyView>,
)
    requires
        b == (EntryFields { long_pathname: b.long_pathname, ..a }),
        a.header.ustar,
        path_on(a.listed_path(), host) matches Ok(x) && x == p,
        path_on(b.listed_path(), host) matches Ok(x) && x == q,
        names_in(components_on(p, host)) == names_in(components_on(q, host)),
        !components_on(p, host).contains(Component::ParentDir),
        !components_on(q, host).contains(Component::ParentDir),
    ensures
        run_in(beginning_in(a, dst, host), a, replies) == run_in(
            beginning_in(b, dst, host),
            b,
            replies,
        ),
{
    law_same_names(dst, p, q, host);
    assert(beginning_in(a, dst, host) == beginning_in(b, dst, host));
    lemma_run_alike(beginning_in(a, dst, host), a, b, replies);
}

proof fn lemma_run_alike(
    m: UnpackInView,
    a: EntryFields,
    b: EntryFields,
    replies: Seq<ReplyView>,
)
    requires
        b == (EntryFields { long_pathname: b.long_pathname, ..a }),
        a.header.ustar,
    ensures
        run_in(m, a, replies) == run_in(m, b, replies),
    decreases replies.len(),
{
    if replies.len() != 0 {
        lemma_step_alike(m, a, b, replies[0]);
        lemma_run_alike(after_in(m, a, replies[0]), a, b, replies.skip(1));
    }
}

proof fn lemma_step_alike(m: UnpackInView, a: EntryFields, b: EntryFields, reply: ReplyView)
    requires
        b == (EntryFields { long_pathname: b.long_pathname, ..a }),
        a.header.ustar,
    ensures
        after_in(m, a, reply) == after_in(m, b, reply),
{
    match (m.state, reply) {
        (InState::ResolveDst { .. }, Reply::Path(target)) => {
            assert(a.listed_link() == b.listed_link());
            assert(beginning(a, Some(target), m.file, m.host) == beginning(
                b,
                Some(target),
                m.file,
                m.host,
            ));
        },
        (InState::Unpacking(u), _) => {
            lemma_unpack_alike(u, a, b, reply);
        },
        _ => {},
    }
}

#[verifier::rlimit(40)]
proof fn lemma_unpack_alike(u: UnpackView, a: EntryFields, b: EntryFields, reply: ReplyView)
    requires
        b == (EntryFields { long_pathname: b.long_pathname, ..a }),
    ensures
        after(u, a, reply) == after(u, b, reply),
{
}

/// A leading separator makes no difference to where an entry goes, unless it makes a prefix.
pub proof fn law_leading_separator(dst: Seq<u8>, path: Seq<u8>, host: Host)
    requires
        head_len(path, host) == 0,
        head_len(seq![SEPARATOR] + path, host) == 0,
    ensures
        target_in(dst, seq![SEPARATOR] + path, host) == target_in(dst, path, host),
{
    let none = Seq::<u8>::empty();
    let p = none + seq![SEPARATOR] + path;
    assert(p =~= seq![SEPARATOR] + path);
    lemma_steps_split(none, path);
    assert(steps(none) =~= Seq::empty());
    assert(steps(p) =~= steps(path));
    lemma_lead_ignored(p);
    lemma_lead_ignored(path);
}

/// Two separators in a row, or a `.` between two, lead an entry to the same place as one separator,
/// unless they make a prefix.
pub proof fn law_same_target(dst: Seq<u8>, a: Seq<u8>, b: Seq<u8>, host: Host)
    requires
        head_len(a + seq![SEPARATOR] + b, host) == 0,
    ensures
        head_len(a + seq![SEPARATOR, SEPARATOR] + b, host) == 0 ==> target_in(
            dst,
            a + seq![SEPARATOR, SEPARATOR] + b,
            host,
        ) == target_in(dst, a + seq![SEPARATOR] + b, host),
        head_len(a + seq![SEPARATOR, DOT, SEPARATOR] + b, host) == 0 ==> target_in(
            dst,
            a + seq![SEPARATOR, DOT, SEPARATOR] + b,
            host,
        ) == target_in(dst, a + seq![SEPARATOR] + b, host),
{
    law_doubled_separator(a, b);
    law_dot_piece(a, b);
}

/// What the beginning of a path says counts neither as a name nor as a `..`.
proof fn lemma_lead_ignored(p: Seq<u8>)
    ensures
        names_in(components_of(p)) == names_in(steps(p)),
        components_of(p).contains(Component::ParentDir) == steps(p).contains(Component::ParentDir),
{
    let all = components_of(p);
    let k = all.len() - steps(p).len();
    assert forall|i: int| 0 <= i < steps(p).len() implies all[i + k] == steps(p)[i] by {}
    if steps(p).contains(Component::ParentDir) {
        let i = choose|i: int| 0 <= i < steps(p).len() && steps(p)[i] == Component::<Seq<u8>>::ParentDir;
        assert(all[i + k] is ParentDir);
    }
    if all.contains(Component::ParentDir) {
        let i = choose|i: int| 0 <= i < all.len() && all[i] == Component::<Seq<u8>>::ParentDir;
        assert(steps(p)[i - k] is ParentDir);
    }
    lemma_names_after(all, k);
    assert(all.skip(k) =~= steps(p));
}

proof fn lemma_names_after(comps: Seq<Component<Seq<u8>>>, k: int)
    requires
        0 <= k <= comps.len(),
        forall|i: int| 0 <= i < k ==> !(#[trigger] comps[i] is Normal),
    ensures
        names_in(comps) == names_in(comps.skip(k)),
    decreases comps.len(),
{
    if comps.len() > k {
        lemma_names_after(comps.drop_last(), k);
        assert(comps.skip(k).drop_last() =~= comps.drop_last().skip(k));
        assert(comps.skip(k).last() == comps.last());
    } else if comps.len() > 0 {
        lemma_names_after(comps.drop_last(), k - 1);
        assert(comps.skip(k) =~= comps.drop_last().skip(k - 1));
    }
}

/// How an entry is unpacked under a directory when its path can be used: one with a `..` in its
/// path is skipped; one without a name in its path is the directory itself, and done with; and any
/// other goes to a place below the directory, in a directory that is it or lies below it.
pub proof fn law_beginning_in(entry: EntryFields, dst: Seq<u8>, host: Host, path: Seq<u8>)
    requires
        path_on(entry.listed_path(), host) matches Ok(p) && p == path,
        leads_down(dst, path, host),
    ensures
        ({
            let m = beginning_in(entry, dst, host);
            let all = components_on(path, host);
            if all.contains(Component::ParentDir) {
                m.state == InStateView::Finished(Ok(false))
            } else if names_in(all).len() == 0 {
                m.state == InStateView::Finished(Ok(true))
            } else {
                &&& target_in(dst, path, host) == Some(m.file)
                &&& parent_on(m.file, host) == Some(m.parent)
                &&& is_inside(m.parent, dst, host)
                &&& m.state == InStateView::Probe { at: m.parent, missing: Seq::empty() }
            }
        }),
{
    let all = components_on(path, host);
    let names = names_in(all);
    if !all.contains(Component::ParentDir) {
        law_target_below(dst, path, host);
        let file = descended(dst, names, host);
        let comps = components_on(file, host);
        if names.len() == 0 {
            assert(comps =~= components_on(dst, host));
        } else {
            assert(comps.len() > components_on(dst, host).len());
            assert(comps.last() == as_components(names).last());
            assert(comps.last() is Normal);
            law_parent_on(file, host);
            let above = parent_on(file, host)->0;
            assert(components_on(above, host) =~= comps.drop_last());
            assert(components_on(dst, host).is_prefix_of(components_on(above, host)));
        }
    }
}

/// Whether `dir` is `p` or lies above it.
pub open spec fn is_above(dir: Seq<u8>, p: Seq<u8>, host: Host) -> bool {
    is_inside(p, dir, host)
}

/// Whether an unpacking under a directory is within bounds: the entry goes to a place below the
/// directory, and the directories that may be made are those above it.
pub open spec fn within(m: UnpackInView) -> bool {
    let all_above = |missing: Seq<Seq<u8>>|
        forall|i: int| 0 <= i < missing.len() ==> is_above(#[trigger] missing[i], m.parent, m.host);
    &&& is_inside(m.file, m.dst, m.host)
    &&& match m.state {
        InState::Probe { at, missing } => is_above(at, m.parent, m.host) && all_above(missing),
        InState::ResolveAbove { above, dir, missing } => is_above(dir, m.parent, m.host) && parent_on(
            dir,
            m.host,
        ) == Some(above) && all_above(missing),
        InState::ResolveRoot { dir, missing, .. } => is_above(dir, m.parent, m.host) && all_above(missing),
        InState::MakeDirs { dir, missing } => is_above(dir, m.parent, m.host) && all_above(missing),
        InState::Unpacking(u) => u.dst == m.file,
        InState::ResolveParent | InState::ResolveDst { .. } | InState::Finished(_) => true,
    }
}

/// An unpacking under a directory begins within bounds.
pub proof fn law_begins_within(entry: EntryFields, dst: Seq<u8>, host: Host)
    requires
        path_on(entry.listed_path(), host) matches Ok(path) ==> leads_down(dst, path, host),
    ensures
        within(beginning_in(entry, dst, host)),
        beginning_in(entry, dst, host).dst == dst,
{
    match path_on(entry.listed_path(), host) {
        Ok(path) => {
            law_beginning_in(entry, dst, host, path);
            law_target_below(dst, path, host);
        },
        Err(_) => {},
    }
}

proof fn lemma_parent_above(dir: Seq<u8>, p: Seq<u8>, host: Host)
    requires
        is_above(dir, p, host),
    ensures
        parent_on(dir, host) matches Some(q) ==> is_above(q, p, host),
{
    law_parent_on(dir, host);
}

/// An unpacking under a directory stays within bounds, going by the paths as they are written: the
/// place of the entry does not change, and whatever an operation makes, removes or changes is at
/// that place or is a directory above it. What these lead to is the concern of
/// [`law_stays_inside`].
pub proof fn law_stays_within(m: UnpackInView, entry: EntryFields, replies: Seq<ReplyView>)
    requires
        within(m),
    ensures
        ({
            let now = run_in(m, entry, replies);
            &&& within(now)
            &&& now.dst == m.dst && now.file == m.file && now.parent == m.parent && now.host == m.host
            &&& action_in_dir(now) matches Some(a) ==> match changed_path(a) {
                Some(path) => path == m.file || a is CreateDirAll && is_above(path, m.parent, m.host),
                None => true,
            }
        }),
    decreases replies.len(),
{
    if replies.len() != 0 {
        let next = after_in(m, entry, replies[0]);
        match m.state {
            InState::Probe { at, missing } => {
                lemma_parent_above(at, m.parent, m.host);
                let longer = missing.push(at);
                assert forall|i: int| 0 <= i < longer.len() implies is_above(
                    #[trigger] longer[i],
                    m.parent,
                    m.host,
                ) by {
                    if i < missing.len() {
                        assert(longer[i] == missing[i]);
                    }
                }
                lemma_making_within(m, missing);
                lemma_making_within(m, longer);
            },
            InState::MakeDirs { missing, .. } => {
                lemma_making_within(m, missing);
            },
            _ => {},
        }
        assert(within(next));
        law_stays_within(next, entry, replies.skip(1));
    }
}

proof fn lemma_making_within(m: UnpackInView, missing: Seq<Seq<u8>>)
    requires
        is_inside(m.file, m.dst, m.host),
        forall|i: int| 0 <= i < missing.len() ==> is_above(#[trigger] missing[i], m.parent, m.host),
    ensures
        within(UnpackInView { state: making(missing, m.host), ..m }),
{
    if missing.len() != 0 {
        let rest = missing.drop_last();
        assert forall|i: int| 0 <= i < rest.len() implies is_above(
            #[trigger] rest[i],
            m.parent,
            m.host,
        ) by {
            assert(rest[i] == missing[i]);
        }
        assert(is_above(missing[missing.len() - 1], m.parent, m.host));
    }
}

/// The last reply comes last.
proof fn lemma_run_in_last(m: UnpackInView, entry: EntryFields, replies: Seq<ReplyView>)
    requires
        replies.len() != 0,
    ensures
        run_in(m, entry, replies) == after_in(
            run_in(m, entry, replies.drop_last()),
            entry,
            replies.last(),
        ),
    decreases replies.len(),
{
    let rest = replies.skip(1);
    if rest.len() != 0 {
        lemma_run_in_last(after_in(m, entry, replies[0]), entry, rest);
        assert(rest.drop_last() =~= replies.drop_last().skip(1));
    } else {
        assert(replies.drop_last() =~= Seq::empty());
        assert(run_in(after_in(m, entry, replies[0]), entry, rest) == after_in(
            m,
            entry,
            replies[0],
        ));
    }
}

/// Whether an operation was asked for in a run, and came to `reply`.
pub open spec fn came_to(
    m: UnpackInView,
    entry: EntryFields,
    replies: Seq<ReplyView>,
    action: Action<Seq<u8>>,
    reply: ReplyView,
) -> bool {
    exists|i: int|
        0 <= i < replies.len() && action_in_dir(#[trigger] run_in(m, entry, replies.take(i)))
            == Some(action) && replies[i] == reply
}

/// Whether a path was resolved in a run, and to what.
pub open spec fn was_resolved(
    m: UnpackInView,
    entry: EntryFields,
    replies: Seq<ReplyView>,
    path: Seq<u8>,
    resolved: Seq<u8>,
) -> bool {
    came_to(m, entry, replies, Action::Canonicalize(path), Reply::Path(resolved))
}

/// Whether a path was found to lie in a directory, when both were resolved in a run.
pub open spec fn lies_inside(
    m: UnpackInView,
    entry: EntryFields,
    replies: Seq<ReplyView>,
    path: Seq<u8>,
    dir: Seq<u8>,
) -> bool {
    exists|resolved: Seq<u8>, target: Seq<u8>|
        #[trigger] was_resolved(m, entry, replies, path, resolved) && #[trigger] was_resolved(
            m,
            entry,
            replies,
            dir,
            target,
        ) && is_inside(resolved, target, m.host)
}

proof fn lemma_came_before(
    m: UnpackInView,
    entry: EntryFields,
    replies: Seq<ReplyView>,
    action: Action<Seq<u8>>,
    reply: ReplyView,
)
    requires
        replies.len() != 0,
        came_to(m, entry, replies.drop_last(), action, reply) || action_in_dir(
            run_in(m, entry, replies.drop_last()),
        ) == Some(action) && replies.last() == reply,
    ensures
        came_to(m, entry, replies, action, reply),
{
    let before = replies.drop_last();
    if came_to(m, entry, before, action, reply) {
        let i = choose|i: int|
            0 <= i < before.len() && action_in_dir(#[trigger] run_in(m, entry, before.take(i)))
                == Some(action) && before[i] == reply;
        assert(before.take(i) =~= replies.take(i));
    } else {
        let i = replies.len() - 1;
        assert(before =~= replies.take(i));
    }
}

/// What has come of operations stays so.
proof fn lemma_still(m: UnpackInView, entry: EntryFields, replies: Seq<ReplyView>)
    requires
        replies.len() != 0,
    ensures
        forall|action: Action<Seq<u8>>, reply: ReplyView|
            came_to(m, entry, replies.drop_last(), action, reply) ==> #[trigger] came_to(
                m,
                entry,
                replies,
                action,
                reply,
            ),
        forall|path: Seq<u8>, dir: Seq<u8>|
            lies_inside(m, entry, replies.drop_last(), path, dir) ==> #[trigger] lies_inside(
                m,
                entry,
                replies,
                path,
                dir,
            ),
{
    let before = replies.drop_last();
    assert forall|action: Action<Seq<u8>>, reply: ReplyView|
        came_to(m, entry, before, action, reply) implies #[trigger] came_to(
        m,
        entry,
        replies,
        action,
        reply,
    ) by {
        lemma_came_before(m, entry, replies, action, reply);
    }
    assert forall|path: Seq<u8>, dir: Seq<u8>|
        lies_inside(m, entry, before, path, dir) implies #[trigger] lies_inside(
        m,
        entry,
        replies,
        path,
        dir,
    ) by {
        let (resolved, target) = choose|resolved: Seq<u8>, target: Seq<u8>|
            #[trigger] was_resolved(m, entry, before, path, resolved) && #[trigger] was_resolved(
                m,
                entry,
                before,
                dir,
                target,
            ) && is_inside(resolved, target, m.host);
        assert(was_resolved(m, entry, replies, path, resolved));
        assert(was_resolved(m, entry, replies, dir, target));
    }
}

/// Whether all that the operations of a run have shown allows the next one: a directory may be made
/// when what lies above it lies in the destination, an entry unpacked when the directory that it goes
/// into does, a hard link made when its source does, and something set on what stands at the place
/// of the entry when that does, or is a directory or a file that was made there before.
pub open spec fn is_allowed(
    m: UnpackInView,
    entry: EntryFields,
    replies: Seq<ReplyView>,
    state: InStateView,
) -> bool {
    match state {
        InState::MakeDirs { dir, .. } => match parent_on(dir, m.host) {
            Some(above) => lies_inside(m, entry, replies, above, m.dst),
            None => true,
        },
        InState::Unpacking(u) => {
            &&& u.dst == m.file && u.host == m.host
            &&& lies_inside(m, entry, replies, m.parent, m.dst)
            &&& u.base matches Some(base) && was_resolved(m, entry, replies, m.dst, base)
            &&& match u.state {
                State::HardLink { source, .. }
                | State::CompareSource { source, .. }
                | State::ComparePlace { source, .. }
                | State::ClearHardLink { source } => lies_inside(
                    m,
                    entry,
                    replies,
                    source,
                    u.base->0,
                ),
                _ => true,
            }
            &&& sets_by_path(u) ==> lies_inside(m, entry, replies, m.file, m.dst) || came_to(
                m,
                entry,
                replies,
                Action::CreateDir(m.file),
                Reply::Done,
            )
            &&& works_on_file(u) ==> came_to(
                m,
                entry,
                replies,
                Action::OpenNew(m.file),
                Reply::Done,
            )
        },
        _ => true,
    }
}

/// What is known on the way to that.
spec fn is_underway(
    m: UnpackInView,
    entry: EntryFields,
    replies: Seq<ReplyView>,
    state: InStateView,
) -> bool {
    match state {
        InState::ResolveAbove { above, dir, .. } => parent_on(dir, m.host) == Some(above),
        InState::ResolveRoot { resolved, dir, .. } => parent_on(dir, m.host) matches Some(above)
            && was_resolved(m, entry, replies, above, resolved),
        InState::ResolveDst { resolved } => was_resolved(m, entry, replies, m.parent, resolved),
        InState::Unpacking(u) => match u.state {
            State::ResolveSource { base, .. } => u.base == Some(base),
            State::ResolveBase { base, source, resolved } => u.base == Some(base) && was_resolved(
                m,
                entry,
                replies,
                source,
                resolved,
            ),
            _ => true,
        },
        _ => true,
    }
}

/// An unpacking under a directory does not leave it, going by what the paths resolve to: whatever
/// the operations come to, the next one is allowed by what they have shown. The directory that
/// counts for the entry is the parent of its place.
pub proof fn law_stays_inside(
    entry: EntryFields,
    dst: Seq<u8>,
    host: Host,
    replies: Seq<ReplyView>,
)
    ensures
        ({
            let m = beginning_in(entry, dst, host);
            &&& is_allowed(m, entry, replies, run_in(m, entry, replies).state)
            &&& m.state is Probe ==> parent_on(m.file, host) == Some(m.parent)
        }),
{
    lemma_stays_inside(beginning_in(entry, dst, host), entry, replies);
}

#[verifier::rlimit(60)]
proof fn lemma_stays_inside(m: UnpackInView, entry: EntryFields, replies: Seq<ReplyView>)
    requires
        m.state is Probe || m.state is Finished,
    ensures
        ({
            let now = run_in(m, entry, replies);
            &&& now.dst == m.dst && now.file == m.file && now.parent == m.parent
            &&& now.host == m.host
            &&& is_allowed(m, entry, replies, now.state)
            &&& is_underway(m, entry, replies, now.state)
        }),
    decreases replies.len(),
{
    if replies.len() != 0 {
        let before = replies.drop_last();
        let then = run_in(m, entry, before);
        let reply = replies.last();
        lemma_stays_inside(m, entry, before);
        lemma_run_in_last(m, entry, replies);
        lemma_still(m, entry, replies);
        if let Some(action) = action_in_dir(then) {
            lemma_came_before(m, entry, replies, action, reply);
        }
        match (then.state, reply) {
            (InState::ResolveRoot { resolved, dir, .. }, Reply::Path(target)) => {
                assert(was_resolved(m, entry, replies, parent_on(dir, m.host)->0, resolved));
                assert(was_resolved(m, entry, replies, m.dst, target));
            },
            (InState::ResolveDst { resolved }, Reply::Path(target)) => {
                assert(was_resolved(m, entry, replies, m.parent, resolved));
                assert(was_resolved(m, entry, replies, m.dst, target));
            },
            (InState::Unpacking(u), _) => {
                assert(was_resolved(m, entry, before, m.dst, u.base->0));
                assert(was_resolved(m, entry, replies, m.dst, u.base->0));
                lemma_unpacking_inside(m, entry, replies, u);
            },
            _ => {},
        }
    }
}

/// How the states that [`is_allowed`] speaks of are reached.
#[verifier::rlimit(60)]
proof fn lemma_one_step(u: UnpackView, entry: EntryFields, reply: ReplyView, base: Seq<u8>)
    requires
        u.base == Some(base),
    ensures
        ({
            let v = after(u, entry, reply);
            &&& v.base == u.base && v.dst == u.dst && v.host == u.host
            &&& match v.state {
                State::HardLink { source, .. }
                | State::CompareSource { source, .. }
                | State::ComparePlace { source, .. }
                | State::ClearHardLink { source } => match u.state {
                    State::HardLink { source: same, .. } => source == same,
                    State::CompareSource { source: same, .. } => source == same,
                    State::ComparePlace { source: same, .. } => source == same,
                    State::ClearHardLink { source: same } => source == same,
                    State::ResolveBase { source: same, resolved, .. } => source == same && (
                    reply matches Reply::Path(target) && is_inside(resolved, target, u.host)),
                    _ => false,
                },
                State::ResolveSource { .. } => u.state == v.state,
                State::ResolveBase { base: dir, source, resolved } => u.state == v.state || (u.state
                    == (StateView::ResolveSource { base: dir, source }) && reply
                    == ReplyView::Path(resolved)),
                _ => true,
            }
            &&& sets_by_path(v) ==> sets_by_path(u) || is_placed(u, reply, base)
            &&& works_on_file(v) ==> works_on_file(u) || u.state is Open && reply is Done
        }),
{
}

proof fn lemma_unpacking_inside(
    m: UnpackInView,
    entry: EntryFields,
    replies: Seq<ReplyView>,
    u: UnpackView,
)
    requires
        replies.len() != 0,
        run_in(m, entry, replies.drop_last()).state == InStateView::Unpacking(u),
        is_allowed(m, entry, replies, InState::Unpacking(u)),
        is_underway(m, entry, replies, InState::Unpacking(u)),
        action_in(u) matches Some(action) ==> came_to(m, entry, replies, action, replies.last()),
    ensures
        is_allowed(m, entry, replies, InState::Unpacking(after(u, entry, replies.last()))),
        is_underway(m, entry, replies, InState::Unpacking(after(u, entry, replies.last()))),
{
    let reply = replies.last();
    let v = after(u, entry, reply);
    let base = u.base->0;
    lemma_one_step(u, entry, reply, base);
    if let Reply::Path(path) = reply {
        match u.state {
            State::ResolveSource { source, .. } => {
                assert(was_resolved(m, entry, replies, source, path));
            },
            State::ResolveBase { source, resolved, .. } => {
                assert(was_resolved(m, entry, replies, source, resolved));
                assert(was_resolved(m, entry, replies, base, path));
            },
            State::ResolvePlace => {
                assert(was_resolved(m, entry, replies, m.file, path));
                assert(was_resolved(m, entry, replies, m.dst, base));
            },
            _ => {},
        }
    }
}

/// The directories that were made in a run, in their order.
pub open spec fn directories_made(
    m: UnpackInView,
    entry: EntryFields,
    replies: Seq<ReplyView>,
) -> Seq<Seq<u8>>
    decreases replies.len(),
{
    if replies.len() == 0 {
        Seq::empty()
    } else {
        let first = match (m.state, replies[0]) {
            (InState::MakeDirs { dir, .. }, Reply::Done) => seq![dir],
            _ => Seq::empty(),
        };
        first + directories_made(after_in(m, entry, replies[0]), entry, replies.skip(1))
    }
}

/// Of `dir` and the directories above it, the lowest first, those below the first that is there.
pub open spec fn missing_from(
    dir: Seq<u8>,
    host: Host,
    there: spec_fn(Seq<u8>) -> bool,
) -> Seq<Seq<u8>>
    decreases dir.len(),
{
    if there(dir) {
        Seq::empty()
    } else {
        match parent_on(dir, host) {
            Some(above) if above.len() < dir.len() => seq![dir] + missing_from(above, host, there),
            _ => seq![dir],
        }
    }
}

/// Whether the question for a directory was answered by whether it is there, each time in a run.
pub open spec fn tells_truth(
    m: UnpackInView,
    entry: EntryFields,
    replies: Seq<ReplyView>,
    there: spec_fn(Seq<u8>) -> bool,
) -> bool
    decreases replies.len(),
{
    replies.len() == 0 || {
        &&& match (m.state, replies[0]) {
            (InState::Probe { at, .. }, Reply::Answer(found)) => found == there(at),
            _ => true,
        }
        &&& tells_truth(after_in(m, entry, replies[0]), entry, replies.skip(1), there)
    }
}

/// Whether the directories above the entry are all in place.
pub open spec fn has_directories(state: InStateView) -> bool {
    match state {
        InState::ResolveParent | InState::ResolveDst { .. } | InState::Unpacking(_) => true,
        InState::Finished(outcome) => outcome is Ok,
        _ => false,
    }
}

/// The directories above an entry are made exactly as far as they are missing, the highest first:
/// once they are all in place, those that were made are the ones that were asked for in vain. Where
/// the lowest is there from the start, none is made.
pub proof fn law_missing_directories_made(
    m: UnpackInView,
    entry: EntryFields,
    dir: Seq<u8>,
    there: spec_fn(Seq<u8>) -> bool,
    replies: Seq<ReplyView>,
)
    requires
        m.state == (InStateView::Probe { at: dir, missing: Seq::empty() }),
        tells_truth(m, entry, replies, there),
    ensures
        has_directories(run_in(m, entry, replies).state) ==> directories_made(m, entry, replies)
            == missing_from(dir, m.host, there).reverse(),
        replies.len() != 0 && there(dir) ==> directories_made(m, entry, replies).len() == 0,
{
    lemma_probed(m, entry, there, replies);
    assert(Seq::empty() + missing_from(dir, m.host, there) =~= missing_from(dir, m.host, there));
    if replies.len() != 0 && there(dir) {
        lemma_nothing_to_make(m, entry, dir, there, replies);
    }
}

/// The directories that are still to be made.
spec fn to_make(state: InStateView) -> Seq<Seq<u8>> {
    match state {
        InState::ResolveAbove { dir, missing, .. } => seq![dir] + missing.reverse(),
        InState::ResolveRoot { dir, missing, .. } => seq![dir] + missing.reverse(),
        InState::MakeDirs { dir, missing } => seq![dir] + missing.reverse(),
        _ => Seq::empty(),
    }
}

proof fn lemma_to_make(missing: Seq<Seq<u8>>, host: Host)
    ensures
        to_make(making(missing, host)) == missing.reverse(),
{
    if missing.len() != 0 {
        assert(seq![missing.last()] + missing.drop_last().reverse() =~= missing.reverse());
    } else {
        assert(missing.reverse() =~= Seq::empty());
    }
}

proof fn lemma_all_made(m: UnpackInView, entry: EntryFields, replies: Seq<ReplyView>)
    requires
        !(m.state is Probe),
    ensures
        m.state is Finished ==> run_in(m, entry, replies).state == m.state,
        has_directories(run_in(m, entry, replies).state) ==> directories_made(m, entry, replies)
            == to_make(m.state),
        to_make(m.state).len() == 0 ==> directories_made(m, entry, replies).len() == 0,
    decreases replies.len(),
{
    if replies.len() != 0 {
        let next = after_in(m, entry, replies[0]);
        let rest = replies.skip(1);
        if let InState::MakeDirs { dir, missing } = m.state {
            lemma_to_make(missing, m.host);
        }
        lemma_all_made(next, entry, rest);
        if has_directories(run_in(m, entry, replies).state) {
            assert(directories_made(m, entry, replies) =~= to_make(m.state));
        }
    }
}

proof fn lemma_probed(
    m: UnpackInView,
    entry: EntryFields,
    there: spec_fn(Seq<u8>) -> bool,
    replies: Seq<ReplyView>,
)
    requires
        m.state is Probe,
        tells_truth(m, entry, replies, there),
    ensures
        m.state matches InState::Probe { at, missing } && (has_directories(
            run_in(m, entry, replies).state,
        ) ==> directories_made(m, entry, replies) == (missing + missing_from(
            at,
            m.host,
            there,
        )).reverse()),
    decreases replies.len(),
{
    if let InState::Probe { at, missing } = m.state {
        if replies.len() != 0 {
            let next = after_in(m, entry, replies[0]);
            let rest = replies.skip(1);
            law_parent_on(at, m.host);
            if next.state is Probe {
                lemma_probed(next, entry, there, rest);
                if let Some(above) = parent_on(at, m.host) {
                    assert(missing.push(at) + missing_from(above, m.host, there) =~= missing + (seq![at]
                        + missing_from(above, m.host, there)));
                }
            } else {
                lemma_all_made(next, entry, rest);
                lemma_to_make(missing, m.host);
                lemma_to_make(missing.push(at), m.host);
                assert(missing.push(at) =~= missing + seq![at]);
                assert(missing + Seq::empty() =~= missing);
            }
            assert(directories_made(m, entry, replies) =~= directories_made(next, entry, rest));
        }
    }
}

proof fn lemma_nothing_to_make(
    m: UnpackInView,
    entry: EntryFields,
    dir: Seq<u8>,
    there: spec_fn(Seq<u8>) -> bool,
    replies: Seq<ReplyView>,
)
    requires
        m.state == (InStateView::Probe { at: dir, missing: Seq::empty() }),
        tells_truth(m, entry, replies, there),
        there(dir),
    ensures
        directories_made(m, entry, replies).len() == 0,
    decreases replies.len(),
{
    if replies.len() != 0 {
        let next = after_in(m, entry, replies[0]);
        if next.state is Probe {
            lemma_nothing_to_make(next, entry, dir, there, replies.skip(1));
        } else {
            lemma_all_made(next, entry, replies.skip(1));
        }
    }
}

/// `dir` and all directories above it, the lowest first.
pub open spec fn chain(dir: Seq<u8>, host: Host) -> Seq<Seq<u8>> {
    missing_from(dir, host, |p: Seq<u8>| false)
}

/// Whether the directory above each one that is there is there, too.
pub open spec fn is_closed(there: spec_fn(Seq<u8>) -> bool, host: Host) -> bool {
    forall|p: Seq<u8>| #[trigger] there(p) ==> match parent_on(p, host) {
        Some(above) => there(above),
        None => true,
    }
}

/// The missing ones are exactly those of `dir` and the directories above it that are not there.
pub proof fn law_missing_are_all(
    dir: Seq<u8>,
    host: Host,
    there: spec_fn(Seq<u8>) -> bool,
    p: Seq<u8>,
)
    requires
        is_closed(there, host),
    ensures
        missing_from(dir, host, there).contains(p) <==> chain(dir, host).contains(p) && !there(p),
    decreases dir.len(),
{
    law_parent_on(dir, host);
    let all = chain(dir, host);
    let missing = missing_from(dir, host, there);
    if let Some(above) = parent_on(dir, host) {
        law_missing_are_all(above, host, there, p);
        assert(all =~= seq![dir] + chain(above, host));
        lemma_contains_first(dir, chain(above, host), p);
        if there(dir) {
            assert(there(above));
            assert(missing_from(above, host, there) =~= Seq::empty());
        } else {
            lemma_contains_first(dir, missing_from(above, host, there), p);
        }
    } else {
        assert(all =~= seq![dir]);
        lemma_contains_first(dir, Seq::empty(), p);
        assert(seq![dir] + Seq::<Seq<u8>>::empty() =~= seq![dir]);
    }
}

proof fn lemma_contains_first(first: Seq<u8>, rest: Seq<Seq<u8>>, p: Seq<u8>)
    ensures
        (seq![first] + rest).contains(p) <==> p == first || rest.contains(p),
{
    let all = seq![first] + rest;
    assert(all[0] == first);
    if rest.contains(p) {
        let i = choose|i: int| 0 <= i < rest.len() && rest[i] == p;
        assert(all[i + 1] == p);
    }
    if all.contains(p) && p != first {
        let i = choose|i: int| 0 <= i < all.len() && all[i] == p;
        assert(rest[i - 1] == p);
    }
}

/// When the missing directories have been made and nothing was taken away, none is missing: to make
/// them a second time makes none.
pub proof fn law_made_once(
    dir: Seq<u8>,
    host: Host,
    there: spec_fn(Seq<u8>) -> bool,
    now_there: spec_fn(Seq<u8>) -> bool,
)
    requires
        forall|p: Seq<u8>|
            missing_from(dir, host, there).contains(p) || there(p) ==> #[trigger] now_there(p),
    ensures
        missing_from(dir, host, now_there).len() == 0,
{
    if !there(dir) {
        assert(missing_from(dir, host, there)[0] == dir);
    }
    assert(now_there(dir));
}

/// An entry with a `..` in its path is reported as out of bounds; and where the names of a path lead
/// down, no other is.
pub proof fn law_skipped(
    entry: EntryFields,
    dst: Seq<u8>,
    host: Host,
    replies: Seq<ReplyView>,
)
    ensures
        ({
            let skipped = run_in(beginning_in(entry, dst, host), entry, replies).state
                == InStateView::Finished(Ok(false));
            match path_on(entry.listed_path(), host) {
                Ok(path) => {
                    let up = components_on(path, host).contains(Component::ParentDir);
                    &&& up ==> skipped
                    &&& leads_down(dst, path, host) && skipped ==> up
                },
                Err(_) => !skipped,
            }
        }),
{
    let m = beginning_in(entry, dst, host);
    if let Ok(path) = path_on(entry.listed_path(), host) {
        if leads_down(dst, path, host) {
            law_beginning_in(entry, dst, host, path);
        }
    }
    lemma_skipped_at_once(m, entry, replies);
}

proof fn lemma_skipped_at_once(m: UnpackInView, entry: EntryFields, replies: Seq<ReplyView>)
    ensures
        run_in(m, entry, replies).state == InStateView::Finished(Ok(false)) <==> m.state
            == InStateView::Finished(Ok(false)),
    decreases replies.len(),
{
    if replies.len() != 0 {
        lemma_skipped_at_once(after_in(m, entry, replies[0]), entry, replies.skip(1));
    }
}

/// An entry with a name in its path is reported as unpacked only when its own unpacking has ended
/// well.
pub proof fn law_reported_when_unpacked(m: UnpackInView, entry: EntryFields, reply: ReplyView)
    requires
        !(m.state is Finished),
    ensures
        after_in(m, entry, reply).state == InStateView::Finished(Ok(true)) ==> match m.state {
            InState::Unpacking(u) => after(u, entry, reply).state matches State::Finished(Ok(_)),
            InState::ResolveDst { .. } => {
                &&& reply matches Reply::Path(target)
                &&& beginning(entry, Some(target), m.file, m.host) matches State::Finished(Ok(_))
            },
            _ => false,
        },
{
}

/// How many operations an unpacking under a directory can still ask for at most.
pub open spec fn operations_left_in(m: UnpackInView, entry: EntryFields) -> nat {
    let entry_itself = 12 + xattr_count(entry) + 2 * entry.data@.len();
    match m.state {
        InState::Finished(_) => 0,
        InState::Unpacking(u) => operations_left(u, entry),
        InState::ResolveDst { .. } => 1 + entry_itself,
        InState::ResolveParent => 2 + entry_itself,
        InState::MakeDirs { missing, .. } => 3 * missing.len() + 3 + entry_itself,
        InState::ResolveRoot { missing, .. } => 3 * missing.len() + 4 + entry_itself,
        InState::ResolveAbove { missing, .. } => 3 * missing.len() + 5 + entry_itself,
        InState::Probe { at, missing } => 4 * at.len() + 3 * missing.len() + 6 + entry_itself,
    }
}

/// Unpacking under a directory comes to an end: whatever an operation comes to, fewer are left
/// after it.
pub proof fn law_unpacking_in_ends(m: UnpackInView, entry: EntryFields, reply: ReplyView)
    requires
        action_in_dir(m) matches Some(a) && answers(a, reply),
    ensures
        operations_left_in(after_in(m, entry, reply), entry) < operations_left_in(m, entry),
{
    match m.state {
        InState::Unpacking(u) => {
            law_unpacking_ends(u, entry, reply);
        },
        InState::Probe { at, .. } => {
            law_parent_on(at, m.host);
        },
        _ => {},
    }
}

} // verus!
