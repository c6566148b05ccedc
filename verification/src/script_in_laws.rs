//! Where an entry goes under a directory, and which operations unpack it there, from the first to the
//! last.
use crate::action::{answers, Action, Reply, ReplyView};
use crate::entry::EntryFields;
use crate::error::ErrorView;
use crate::host::{path_on, Host};
use crate::host_path::{components_on, is_inside, parent_on};
use crate::path::{is_name, Component};
use crate::path_laws::row;
use crate::script_laws::{law_stray_reply, operations};
use crate::text_laws::{comes_of, lemma_mentions, mentions};
use crate::unpack::{after, starting, State, UnpackView};
use crate::unpack_in::{
    action_in_dir, after_in, beginning_in, descended, making, names_in, target_in, unpacking,
    InState, InStateView, UnpackInView,
};
use crate::unpack_in_laws::{as_components, law_target_below, leads_down, run_in};
use crate::unpack_laws::run;
use vstd::prelude::*;

verus! {

/// The name that a component is, if it is one.
pub open spec fn name_of(c: Component<Seq<u8>>) -> Option<Seq<u8>> {
    match c {
        Component::Normal(name) => Some(name),
        _ => None,
    }
}

/// The names in a path are all of its components that are names, each once, in their order, and
/// whatever they begin with.
pub proof fn law_all_names(comps: Seq<Component<Seq<u8>>>)
    ensures
        names_in(comps) == comps.filter_map(|c: Component<Seq<u8>>| name_of(c)),
        as_components(names_in(comps)) == comps.filter(|c: Component<Seq<u8>>| c is Normal),
    decreases comps.len(),
{
    reveal(Seq::filter);
    let f = |c: Component<Seq<u8>>| name_of(c);
    let p = |c: Component<Seq<u8>>| c is Normal;
    if comps.len() == 0 {
        assert(as_components(names_in(comps)) =~= comps.filter(p));
    } else {
        law_all_names(comps.drop_last());
        let before = names_in(comps.drop_last());
        if let Component::Normal(name) = comps.last() {
            assert(as_components(before.push(name)) =~= as_components(before).push(
                Component::Normal(name),
            ));
        }
        assert(names_in(comps) =~= comps.filter_map(f));
        assert(as_components(names_in(comps)) =~= comps.filter(p));
    }
}

/// An entry goes to where its path leads from the directory: the components of its place are those of
/// the directory and then all the names in its path. A path with a `..` leads nowhere, and any other
/// somewhere.
pub proof fn law_place(dst: Seq<u8>, path: Seq<u8>, host: Host)
    requires
        leads_down(dst, path, host),
    ensures
        match target_in(dst, path, host) {
            Some(place) => {
                &&& !components_on(path, host).contains(Component::ParentDir)
                &&& components_on(place, host) == components_on(dst, host) + components_on(
                    path,
                    host,
                ).filter(|c: Component<Seq<u8>>| c is Normal)
            },
            None => components_on(path, host).contains(Component::ParentDir),
        },
{
    law_target_below(dst, path, host);
    law_all_names(components_on(path, host));
}

/// A path that is made of names alone leads on from the directory by all of them.
pub proof fn law_place_of_names(dst: Seq<u8>, path: Seq<u8>, host: Host)
    requires
        leads_down(dst, path, host),
        forall|i: int|
            0 <= i < components_on(path, host).len() ==> #[trigger] components_on(
                path,
                host,
            )[i] is Normal,
    ensures
        target_in(dst, path, host) matches Some(place) && components_on(place, host)
            == components_on(dst, host) + components_on(path, host),
{
    let all = components_on(path, host);
    law_place(dst, path, host);
    lemma_filter_all(all);
    if all.contains(Component::ParentDir) {
        let i = choose|i: int| 0 <= i < all.len() && all[i] == Component::<Seq<u8>>::ParentDir;
        assert(all[i] is Normal);
    }
}

proof fn lemma_filter_all(comps: Seq<Component<Seq<u8>>>)
    requires
        forall|i: int| 0 <= i < comps.len() ==> #[trigger] comps[i] is Normal,
    ensures
        comps.filter(|c: Component<Seq<u8>>| c is Normal) == comps,
    decreases comps.len(),
{
    reveal(Seq::filter);
    if comps.len() > 0 {
        let front = comps.drop_last();
        assert forall|i: int| 0 <= i < front.len() implies #[trigger] front[i] is Normal by {
            assert(front[i] == comps[i]);
        }
        lemma_filter_all(front);
        assert(comps[comps.len() - 1] is Normal);
        assert(front.push(comps.last()) =~= comps);
    }
}

/// The place of an entry, byte for byte, elsewhere than on Windows: the directory and then the names,
/// with a separator between each two.
pub proof fn law_place_text(dst: Seq<u8>, path: Seq<u8>, host: Host)
    requires
        !(host is Windows),
        !components_on(path, host).contains(Component::ParentDir),
    ensures
        ({
            let names = components_on(path, host).filter_map(
                |c: Component<Seq<u8>>| name_of(c),
            );
            target_in(dst, path, host) == Some(
                if names.len() == 0 {
                    dst
                } else if dst.len() > 0 && dst[dst.len() - 1] != 0x2f {
                    dst + seq![0x2fu8] + row(names)
                } else {
                    dst + row(names)
                },
            )
        }),
{
    let all = components_on(path, host);
    law_all_names(all);
    law_target_below(dst, path, host);
    lemma_descended_text(dst, names_in(all), host);
}

proof fn lemma_descended_text(dst: Seq<u8>, names: Seq<Seq<u8>>, host: Host)
    requires
        !(host is Windows),
        forall|i: int| 0 <= i < names.len() ==> is_name(#[trigger] names[i]),
    ensures
        descended(dst, names, host) == if names.len() == 0 {
            dst
        } else if dst.len() > 0 && dst[dst.len() - 1] != 0x2f {
            dst + seq![0x2fu8] + row(names)
        } else {
            dst + row(names)
        },
        names.len() > 0 ==> row(names).len() > 0 && row(names).last() != 0x2f,
    decreases names.len(),
{
    if names.len() > 0 {
        let front = names.drop_last();
        let last = names.last();
        assert(is_name(names[names.len() - 1]));
        assert(last[last.len() - 1] != 0x2f);
        assert(last[0] != 0x2f);
        assert forall|i: int| 0 <= i < front.len() implies is_name(#[trigger] front[i]) by {
            assert(front[i] == names[i]);
        }
        lemma_descended_text(dst, front, host);
        let before = descended(dst, front, host);
        if front.len() == 0 {
            assert(row(names) == last);
            assert(descended(dst, names, host) =~= if dst.len() > 0 && dst[dst.len() - 1] != 0x2f {
                dst + seq![0x2fu8] + last
            } else {
                dst + last
            });
        } else {
            assert(before.last() == row(front).last());
            assert(descended(dst, names, host) =~= before + seq![0x2fu8] + last);
            if dst.len() > 0 && dst[dst.len() - 1] != 0x2f {
                assert(before + seq![0x2fu8] + last =~= dst + seq![0x2fu8] + row(names));
            } else {
                assert(before + seq![0x2fu8] + last =~= dst + row(names));
            }
        }
    }
}

/// How an entry with a name in its path begins: its place is where its path leads, the directory that
/// counts is the one above that, and this is looked for first. A path that cannot be used is
/// reported.
pub proof fn law_begins_at_place(entry: EntryFields, dst: Seq<u8>, host: Host)
    ensures
        ({
            let m = beginning_in(entry, dst, host);
            match path_on(entry.listed_path(), host) {
                Err(cause) => m.state matches InState::Finished(r) && r matches Err(e) && comes_of(
                    e,
                    cause,
                ),
                Ok(path) => if components_on(path, host).contains(Component::ParentDir) {
                    m.state == InStateView::Finished(Ok(false))
                } else {
                    let place = target_in(dst, path, host)->0;
                    if components_on(place, host) == components_on(dst, host) {
                        m.state == InStateView::Finished(Ok(true))
                    } else {
                        match parent_on(place, host) {
                            Some(above) => {
                                &&& m.dst == dst && m.file == place && m.parent == above
                                &&& m.host == host
                                &&& action_in_dir(m) == Some(Action::Exists(above))
                            },
                            None => m.state == InStateView::Finished(Ok(false)),
                        }
                    }
                },
            }
        }),
{
}

/// The operations that are asked for in a run, in their order.
pub open spec fn operations_in(
    m: UnpackInView,
    entry: EntryFields,
    replies: Seq<ReplyView>,
) -> Seq<Action<Seq<u8>>>
    decreases replies.len(),
{
    if replies.len() == 0 {
        Seq::empty()
    } else {
        let first = match action_in_dir(m) {
            Some(a) => seq![a],
            None => Seq::empty(),
        };
        first + operations_in(after_in(m, entry, replies[0]), entry, replies.skip(1))
    }
}

/// One more operation in front, and all goes on from there.
proof fn lemma_before_in(
    m: UnpackInView,
    entry: EntryFields,
    action: Action<Seq<u8>>,
    reply: ReplyView,
    replies: Seq<ReplyView>,
)
    requires
        action_in_dir(m) == Some(action),
    ensures
        run_in(m, entry, seq![reply] + replies) == run_in(
            after_in(m, entry, reply),
            entry,
            replies,
        ),
        operations_in(m, entry, seq![reply] + replies) == seq![action] + operations_in(
            after_in(m, entry, reply),
            entry,
            replies,
        ),
{
    assert((seq![reply] + replies).skip(1) =~= replies);
}

/// Looking for the directories from the lowest up, and then making those that are not there from the
/// highest down, each after the one above it and the destination have been resolved.
pub open spec fn probe_ops(dirs: Seq<Seq<u8>>) -> Seq<Action<Seq<u8>>> {
    dirs.map_values(|dir: Seq<u8>| Action::Exists(dir))
}

/// Making the first `k` directories, the highest first.
pub open spec fn make_ops(dirs: Seq<Seq<u8>>, k: int, dst: Seq<u8>) -> Seq<Action<Seq<u8>>>
    decreases k,
{
    if k <= 0 {
        Seq::empty()
    } else {
        seq![
            Action::Canonicalize(dirs[k]),
            Action::Canonicalize(dst),
            Action::CreateDirAll(dirs[k - 1]),
        ] + make_ops(dirs, k - 1, dst)
    }
}

/// What comes of that when it goes well.
pub open spec fn make_replies(
    resolved: Seq<Seq<u8>>,
    roots: Seq<Seq<u8>>,
    k: int,
) -> Seq<ReplyView>
    decreases k,
{
    if k <= 0 {
        Seq::empty()
    } else {
        seq![
            ReplyView::Path(resolved[k - 1]),
            ReplyView::Path(roots[k - 1]),
            ReplyView::Done,
        ] + make_replies(resolved, roots, k - 1)
    }
}

/// What comes of looking: so many are not there, and the next one is.
pub open spec fn probe_replies(k: int) -> Seq<ReplyView>
    decreases k,
{
    if k <= 0 {
        seq![ReplyView::Answer(true)]
    } else {
        seq![ReplyView::Answer(false)] + probe_replies(k - 1)
    }
}

/// Whether each directory is the one above the one before it.
pub open spec fn is_chain(dirs: Seq<Seq<u8>>, host: Host) -> bool {
    forall|i: int|
        0 <= i < dirs.len() - 1 ==> parent_on(#[trigger] dirs[i], host) == Some(dirs[i + 1])
}

/// One directory is made, and then the others.
proof fn lemma_make_one(
    m: UnpackInView,
    entry: EntryFields,
    missing: Seq<Seq<u8>>,
    above: Seq<u8>,
    resolved: Seq<u8>,
    root: Seq<u8>,
)
    requires
        missing.len() > 0,
        m.state == making(missing, m.host),
        parent_on(missing.last(), m.host) == Some(above),
        is_inside(resolved, root, m.host),
    ensures
        ({
            let m1 = after_in(m, entry, ReplyView::Path(resolved));
            let m2 = after_in(m1, entry, ReplyView::Path(root));
            &&& action_in_dir(m) == Some(Action::Canonicalize(above))
            &&& action_in_dir(m1) == Some(Action::Canonicalize(m.dst))
            &&& action_in_dir(m2) == Some(Action::CreateDirAll(missing.last()))
            &&& after_in(m2, entry, ReplyView::Done) == (UnpackInView {
                state: making(missing.drop_last(), m.host),
                ..m
            })
        }),
{
}

/// The replies and the operations for the highest directory, before those for the others.
proof fn lemma_make_rows(
    dirs: Seq<Seq<u8>>,
    resolved: Seq<Seq<u8>>,
    roots: Seq<Seq<u8>>,
    k: int,
    dst: Seq<u8>,
    more: Seq<ReplyView>,
    ops: Seq<Action<Seq<u8>>>,
)
    requires
        0 < k < dirs.len(),
    ensures
        make_replies(resolved, roots, k) + more == seq![ReplyView::Path(resolved[k - 1])] + (seq![
            ReplyView::Path(roots[k - 1]),
        ] + (seq![ReplyView::Done] + (make_replies(resolved, roots, k - 1) + more))),
        make_ops(dirs, k, dst) + ops == seq![Action::Canonicalize(dirs[k])] + (seq![
            Action::Canonicalize(dst),
        ] + (seq![Action::CreateDirAll(dirs[k - 1])] + (make_ops(dirs, k - 1, dst) + ops))),
{
    assert(make_replies(resolved, roots, k) + more =~= seq![ReplyView::Path(resolved[k - 1])] + (
    seq![ReplyView::Path(roots[k - 1])] + (seq![ReplyView::Done] + (make_replies(
        resolved,
        roots,
        k - 1,
    ) + more))));
    assert(make_ops(dirs, k, dst) + ops =~= seq![Action::Canonicalize(dirs[k])] + (seq![
        Action::Canonicalize(dst),
    ] + (seq![Action::CreateDirAll(dirs[k - 1])] + (make_ops(dirs, k - 1, dst) + ops))));
}

/// One directory is made, whatever replies follow.
proof fn lemma_make_one_of(
    m: UnpackInView,
    entry: EntryFields,
    missing: Seq<Seq<u8>>,
    above: Seq<u8>,
    resolved: Seq<u8>,
    root: Seq<u8>,
    last: Seq<ReplyView>,
)
    requires
        missing.len() > 0,
        m.state == making(missing, m.host),
        parent_on(missing.last(), m.host) == Some(above),
        is_inside(resolved, root, m.host),
    ensures
        ({
            let next = UnpackInView { state: making(missing.drop_last(), m.host), ..m };
            let all = seq![ReplyView::Path(resolved)] + (seq![ReplyView::Path(root)] + (seq![
                ReplyView::Done,
            ] + last));
            &&& run_in(m, entry, all) == run_in(next, entry, last)
            &&& operations_in(m, entry, all) == seq![Action::Canonicalize(above)] + (seq![
                Action::Canonicalize(m.dst),
            ] + (seq![Action::CreateDirAll(missing.last())] + operations_in(next, entry, last)))
        }),
{
    let a = ReplyView::Path(resolved);
    let b = ReplyView::Path(root);
    let c = ReplyView::Done;
    lemma_make_one(m, entry, missing, above, resolved, root);
    let m1 = after_in(m, entry, a);
    let m2 = after_in(m1, entry, b);
    lemma_before_in(m2, entry, Action::CreateDirAll(missing.last()), c, last);
    lemma_before_in(m1, entry, Action::Canonicalize(m.dst), b, seq![c] + last);
    lemma_before_in(m, entry, Action::Canonicalize(above), a, seq![b] + (seq![c] + last));
}

#[verifier::spinoff_prover]
#[verifier::rlimit(40)]
proof fn lemma_made(
    m: UnpackInView,
    entry: EntryFields,
    dirs: Seq<Seq<u8>>,
    resolved: Seq<Seq<u8>>,
    roots: Seq<Seq<u8>>,
    k: int,
    more: Seq<ReplyView>,
)
    requires
        0 <= k < dirs.len(),
        is_chain(dirs, m.host),
        m.state == making(dirs.take(k), m.host),
        forall|i: int| 0 <= i < k ==> is_inside(#[trigger] resolved[i], roots[i], m.host),
    ensures
        ({
            let ready = UnpackInView { state: InState::ResolveParent, ..m };
            let replies = make_replies(resolved, roots, k) + more;
            &&& run_in(m, entry, replies) == run_in(ready, entry, more)
            &&& operations_in(m, entry, replies) == make_ops(dirs, k, m.dst) + operations_in(
                ready,
                entry,
                more,
            )
        }),
    decreases k,
{
    let ready = UnpackInView { state: InState::ResolveParent, ..m };
    let ops = operations_in(ready, entry, more);
    if k == 0 {
        assert(make_replies(resolved, roots, k) + more =~= more);
        assert(make_ops(dirs, k, m.dst) + ops =~= ops);
        assert(m == ready);
    } else {
        let missing = dirs.take(k);
        let last = make_replies(resolved, roots, k - 1) + more;
        let next = UnpackInView { state: making(dirs.take(k - 1), m.host), ..m };
        assert(missing.last() == dirs[k - 1]);
        assert(missing.drop_last() =~= dirs.take(k - 1));
        assert(parent_on(dirs[k - 1], m.host) == Some(dirs[k]));
        assert(is_inside(resolved[k - 1], roots[k - 1], m.host));
        lemma_make_one_of(m, entry, missing, dirs[k], resolved[k - 1], roots[k - 1], last);
        lemma_made(next, entry, dirs, resolved, roots, k - 1, more);
        lemma_make_rows(dirs, resolved, roots, k, m.dst, more, ops);
    }
}

/// The reply and the operation for the lowest directory, before those for the others.
proof fn lemma_probe_rows(
    dirs: Seq<Seq<u8>>,
    j: int,
    more: Seq<ReplyView>,
    ops: Seq<Action<Seq<u8>>>,
)
    requires
        0 <= j < dirs.len(),
    ensures
        ({
            let k = dirs.len() - 1;
            let first = seq![Action::Exists(dirs[j])];
            if j == k {
                &&& probe_replies(k - j) + more == seq![ReplyView::Answer(true)] + more
                &&& probe_ops(dirs.skip(j)) + ops == first + ops
            } else {
                &&& probe_replies(k - j) + more == seq![ReplyView::Answer(false)] + (probe_replies(
                    k - j - 1,
                ) + more)
                &&& probe_ops(dirs.skip(j)) + ops == first + (probe_ops(dirs.skip(j + 1)) + ops)
            }
        }),
{
    let k = dirs.len() - 1;
    let first = seq![Action::Exists(dirs[j])];
    if j == k {
        assert(probe_replies(k - j) + more =~= seq![ReplyView::Answer(true)] + more);
        assert(probe_ops(dirs.skip(j)) + ops =~= first + ops);
    } else {
        assert(probe_replies(k - j) + more =~= seq![ReplyView::Answer(false)] + (probe_replies(
            k - j - 1,
        ) + more));
        assert(probe_ops(dirs.skip(j)) + ops =~= first + (probe_ops(dirs.skip(j + 1)) + ops));
    }
}

/// One directory is looked for, whatever replies follow.
proof fn lemma_probe_one(
    m: UnpackInView,
    entry: EntryFields,
    at: Seq<u8>,
    missing: Seq<Seq<u8>>,
    above: Seq<u8>,
    last: Seq<ReplyView>,
)
    requires
        m.state == (InStateView::Probe { at, missing }),
    ensures
        ({
            let found = UnpackInView { state: making(missing, m.host), ..m };
            let all = seq![ReplyView::Answer(true)] + last;
            &&& run_in(m, entry, all) == run_in(found, entry, last)
            &&& operations_in(m, entry, all) == seq![Action::Exists(at)] + operations_in(
                found,
                entry,
                last,
            )
        }),
        parent_on(at, m.host) == Some(above) ==> {
            let higher = UnpackInView {
                state: InState::Probe { at: above, missing: missing.push(at) },
                ..m
            };
            let all = seq![ReplyView::Answer(false)] + last;
            &&& run_in(m, entry, all) == run_in(higher, entry, last)
            &&& operations_in(m, entry, all) == seq![Action::Exists(at)] + operations_in(
                higher,
                entry,
                last,
            )
        },
{
    lemma_before_in(m, entry, Action::Exists(at), ReplyView::Answer(true), last);
    lemma_before_in(m, entry, Action::Exists(at), ReplyView::Answer(false), last);
}

#[verifier::spinoff_prover]
#[verifier::rlimit(40)]
proof fn lemma_probed_up(
    m: UnpackInView,
    entry: EntryFields,
    dirs: Seq<Seq<u8>>,
    j: int,
    more: Seq<ReplyView>,
)
    requires
        0 <= j < dirs.len(),
        is_chain(dirs, m.host),
        m.state == (InStateView::Probe { at: dirs[j], missing: dirs.take(j) }),
    ensures
        ({
            let k = dirs.len() - 1;
            let found = UnpackInView { state: making(dirs.take(k), m.host), ..m };
            let replies = probe_replies(k - j) + more;
            &&& run_in(m, entry, replies) == run_in(found, entry, more)
            &&& operations_in(m, entry, replies) == probe_ops(dirs.skip(j)) + operations_in(
                found,
                entry,
                more,
            )
        }),
    decreases dirs.len() - j,
{
    let k = dirs.len() - 1;
    let found = UnpackInView { state: making(dirs.take(k), m.host), ..m };
    lemma_probe_rows(dirs, j, more, operations_in(found, entry, more));
    if j == k {
        lemma_probe_one(m, entry, dirs[j], dirs.take(j), dirs[j], more);
    } else {
        let last = probe_replies(k - j - 1) + more;
        let next = UnpackInView {
            state: InState::Probe { at: dirs[j + 1], missing: dirs.take(j + 1) },
            ..m
        };
        assert(parent_on(dirs[j], m.host) == Some(dirs[j + 1]));
        assert(dirs.take(j).push(dirs[j]) =~= dirs.take(j + 1));
        lemma_probe_one(m, entry, dirs[j], dirs.take(j), dirs[j + 1], last);
        lemma_probed_up(next, entry, dirs, j + 1, more);
    }
}

/// The unpacking of an entry goes on as it does alone, and its end is the end.
proof fn lemma_unpacks_on(
    m: UnpackInView,
    entry: EntryFields,
    u: UnpackView,
    replies: Seq<ReplyView>,
)
    requires
        m.state == unpacking(m.file, u),
    ensures
        operations_in(m, entry, replies) == operations(u, entry, replies),
        run_in(m, entry, replies).state == unpacking(
            m.file,
            run(u, entry, replies),
        ),
    decreases replies.len(),
{
    if replies.len() > 0 {
        let next = after(u, entry, replies[0]);
        if u.state is Finished {
            assert(next == u);
            assert(after_in(m, entry, replies[0]) == m);
            lemma_unpacks_on(m, entry, u, replies.skip(1));
        } else {
            lemma_unpacks_on(after_in(m, entry, replies[0]), entry, next, replies.skip(1));
        }
        assert(operations_in(m, entry, replies) =~= operations(u, entry, replies));
    }
}

/// Whether the end of the unpacking of an entry is the end of all.
pub open spec fn ends_as(state: InStateView, u: UnpackView) -> bool {
    match u.state {
        State::Finished(Ok(_)) => state == InStateView::Finished(Ok(true)),
        State::Finished(Err(cause)) => state matches InState::Finished(r) && r matches Err(e)
            && comes_of(e, cause),
        _ => state == InStateView::Unpacking(u),
    }
}

#[verifier::rlimit(60)]
proof fn lemma_from_parent(
    m: UnpackInView,
    entry: EntryFields,
    above: Seq<u8>,
    root: Seq<u8>,
    replies: Seq<ReplyView>,
)
    requires
        m.state is ResolveParent,
        is_inside(above, root, m.host),
    ensures
        ({
            let u = starting(entry, Some(root), m.file, m.host);
            let all = seq![ReplyView::Path(above), ReplyView::Path(root)] + replies;
            &&& operations_in(m, entry, all) == seq![
                Action::Canonicalize(m.parent),
                Action::Canonicalize(m.dst),
            ] + operations(u, entry, replies)
            &&& ends_as(run_in(m, entry, all).state, run(u, entry, replies))
        }),
{
    let u = starting(entry, Some(root), m.file, m.host);
    let a = ReplyView::Path(above);
    let b = ReplyView::Path(root);
    let r1 = after_in(m, entry, a);
    let r2 = after_in(r1, entry, b);
    lemma_before_in(r1, entry, Action::Canonicalize(m.dst), b, replies);
    lemma_before_in(m, entry, Action::Canonicalize(m.parent), a, seq![b] + replies);
    assert(seq![a, b] + replies =~= seq![a] + (seq![b] + replies));
    lemma_unpacks_on(r2, entry, u, replies);
    let ops = operations(u, entry, replies);
    assert(seq![Action::Canonicalize(m.parent), Action::Canonicalize(m.dst)] + ops =~= seq![
        Action::Canonicalize(m.parent),
    ] + (seq![Action::Canonicalize(m.dst)] + ops));
}

/// An entry is unpacked under a directory by looking for the directories above its place from the
/// lowest up; making those that are not there, however many, from the highest down; resolving the
/// directory that it goes into and the destination; and then unpacking it at its place with the
/// destination as the directory that must not be left. How that ends is how all of it ends.
pub proof fn law_unpacked_at_place(
    m: UnpackInView,
    entry: EntryFields,
    dirs: Seq<Seq<u8>>,
    resolved: Seq<Seq<u8>>,
    roots: Seq<Seq<u8>>,
    above: Seq<u8>,
    root: Seq<u8>,
    replies: Seq<ReplyView>,
)
    requires
        m.state == (InStateView::Probe { at: dirs[0], missing: Seq::empty() }),
        dirs.len() > 0,
        is_chain(dirs, m.host),
        forall|i: int|
            0 <= i < dirs.len() - 1 ==> is_inside(#[trigger] resolved[i], roots[i], m.host),
        is_inside(above, root, m.host),
    ensures
        ({
            let k = dirs.len() - 1;
            let u = starting(entry, Some(root), m.file, m.host);
            let all = probe_replies(k) + (make_replies(resolved, roots, k) + (seq![
                ReplyView::Path(above),
                ReplyView::Path(root),
            ] + replies));
            let now = run_in(m, entry, all);
            &&& operations_in(m, entry, all) == probe_ops(dirs) + (make_ops(dirs, k, m.dst) + (seq![
                Action::Canonicalize(m.parent),
                Action::Canonicalize(m.dst),
            ] + operations(u, entry, replies)))
            &&& ends_as(now.state, run(u, entry, replies))
        }),
{
    let k = dirs.len() - 1;
    let more = seq![ReplyView::Path(above), ReplyView::Path(root)] + replies;
    let found = UnpackInView { state: making(dirs.take(k), m.host), ..m };
    let ready = UnpackInView { state: InState::ResolveParent, ..m };
    assert(dirs.take(0) =~= Seq::empty());
    assert(dirs.skip(0) =~= dirs);
    lemma_probed_up(m, entry, dirs, 0, make_replies(resolved, roots, k) + more);
    lemma_made(found, entry, dirs, resolved, roots, k, more);
    lemma_from_parent(ready, entry, above, root, replies);
}

/// Whether an error holds the text of a cause, in its own or in that of its first cause.
pub open spec fn holds_text(e: ErrorView, text: Seq<char>) -> bool {
    mentions(e.text, text) || e.causes.len() > 0 && mentions(e.causes[0], text)
}

/// An operation that fails on the way to the place of an entry ends the unpacking with an error that
/// holds its text and keeps its kind; and a path that leads out of the destination does end it, too.
/// Only after the destination resolves and holds the place is the entry itself unpacked.
pub proof fn law_failure_on_the_way(m: UnpackInView, entry: EntryFields, reply: ReplyView)
    requires
        !(m.state is Finished) && !(m.state is Unpacking) && !(m.state is Probe),
    ensures
        ({
            let state = after_in(m, entry, reply).state;
            match (m.state, reply) {
                (_, Reply::Failed(cause)) => state matches InState::Finished(r) && r matches Err(e)
                    && e.kind == cause.kind && holds_text(e, cause.text),
                (InState::ResolveRoot { resolved, .. }, Reply::Path(root)) => !is_inside(
                    resolved,
                    root,
                    m.host,
                ) ==> (state matches InState::Finished(r) && r matches Err(e) && e.kind is Other),
                (InState::ResolveDst { resolved }, Reply::Path(root)) => !is_inside(
                    resolved,
                    root,
                    m.host,
                ) ==> (state matches InState::Finished(r) && r matches Err(e) && e.kind is Other),
                _ => !(state is Finished) && !(state is Unpacking),
            }
        }),
{
    if let Reply::Failed(cause) = reply {
        let none = Seq::<char>::empty();
        let state = after_in(m, entry, reply).state;
        if let InState::Finished(Err(e)) = state {
            let told = match m.state {
                InState::ResolveAbove { .. } | InState::ResolveRoot { .. } => e.causes[0],
                InState::MakeDirs { .. } => e.causes[0],
                _ => e.text,
            };
            lemma_mentions(told, none, cause.text, told.skip(cause.text.len() as int));
        }
    }
}

/// A reply that cannot come from the operation that was asked for changes nothing.
pub proof fn law_stray_reply_in(m: UnpackInView, entry: EntryFields, reply: ReplyView)
    requires
        action_in_dir(m) matches Some(a) && !answers(a, reply),
        m.state matches InState::Unpacking(u) ==> !(u.state is Finished),
    ensures
        after_in(m, entry, reply) == m,
{
    if let InState::Unpacking(u) = m.state {
        law_stray_reply(u, entry, reply);
    }
}

/// A directory with none above it is made without more ado when it is not there, and then the others
/// below it.
pub proof fn law_topmost_made(
    m: UnpackInView,
    entry: EntryFields,
    at: Seq<u8>,
    missing: Seq<Seq<u8>>,
)
    requires
        m.state == (InStateView::Probe { at, missing }),
        parent_on(at, m.host) is None,
    ensures
        ({
            let next = after_in(m, entry, ReplyView::Answer(false));
            &&& action_in_dir(next) == Some(Action::CreateDirAll(at))
            &&& after_in(next, entry, ReplyView::Done) == after_in(
                m,
                entry,
                ReplyView::Answer(true),
            )
        }),
{
    let all = missing.push(at);
    assert(all.last() == at);
    assert(all.drop_last() =~= missing);
}

} // verus!
