//! Unpacking an entry under a directory, without ever leaving it.
use crate::action::{Action, FileReply, Reply, ReplyView};
use crate::bytes::copy_bytes;
use crate::entry::EntryFields;
use crate::error::{Error, ErrorView};
use crate::header::field_view;
use crate::host::{path_on, Host};
use crate::host_path::{
    components_on, find_components, find_parent, look_up, looked_up, parent_on, same_path,
};
use crate::messages::{
    canonicalize_failed, canonicalize_failed_error, invalid_path, invalid_path_error,
    parent_failed, parent_failed_error, unpack_failed, unpack_failed_error,
};
use crate::path::{component_views, Component};
use crate::unpack::{
    action_in, after, same_but_data, starting, validate_inside_dst, validated, State, Unpack,
    UnpackView,
};
use vstd::prelude::*;

verus! {

/// The names among the components, in their order.
pub open spec fn names_in(comps: Seq<Component<Seq<u8>>>) -> Seq<Seq<u8>>
    decreases comps.len(),
{
    if comps.len() == 0 {
        Seq::empty()
    } else {
        match comps.last() {
            Component::Normal(name) => names_in(comps.drop_last()).push(name),
            _ => names_in(comps.drop_last()),
        }
    }
}

/// The path that is reached from `dst` by the names, one after the other.
pub open spec fn descended(dst: Seq<u8>, names: Seq<Seq<u8>>, host: Host) -> Seq<u8>
    decreases names.len(),
{
    if names.len() == 0 {
        dst
    } else {
        looked_up(descended(dst, names.drop_last(), host), names.last(), host)
    }
}

/// Where a path is unpacked under `dst`: prefixes, roots and dots are left out of it. A path with a
/// `..` goes nowhere.
pub open spec fn target_in(dst: Seq<u8>, path: Seq<u8>, host: Host) -> Option<Seq<u8>> {
    if components_on(path, host).contains(Component::ParentDir) {
        None
    } else {
        Some(descended(dst, names_in(components_on(path, host)), host))
    }
}

/// Finds where a path is unpacked under `dst`.
pub fn find_target(dst: &[u8], path: &[u8], host: Host) -> (r: Option<Vec<u8>>)
    ensures
        r is Some <==> target_in(dst@, path@, host) is Some,
        r matches Some(file) ==> target_in(dst@, path@, host) == Some(file@),
{
    let comps: Vec<Component<Vec<u8>>> = find_components(path, host);
    let ghost all = components_on(path@, host);
    let mut file: Vec<u8> = copy_bytes(dst);
    let mut i: usize = 0;
    assert(all.take(0) =~= Seq::empty());
    while i < comps.len()
        invariant
            component_views(comps@) == all,
            all == components_on(path@, host),
            0 <= i <= comps@.len(),
            forall|j: int| 0 <= j < i ==> all[j] != Component::<Seq<u8>>::ParentDir,
            file@ == descended(dst@, names_in(all.take(i as int)), host),
        decreases comps@.len() - i,
    {
        assert(all[i as int] == comps@[i as int]@);
        assert(all.take(i + 1).drop_last() =~= all.take(i as int));
        assert(all.take(i + 1).last() == all[i as int]);
        match &comps[i] {
            Component::Prefix(_) | Component::RootDir | Component::CurDir => {},
            Component::ParentDir => {
                return None;
            },
            Component::Normal(name) => {
                proof {
                    let names = names_in(all.take(i as int));
                    assert(names.push(name@).drop_last() =~= names);
                }
                file = look_up(file.as_slice(), name.as_slice(), host);
            },
        }
        i = i + 1;
    }
    assert(all.take(i as int) =~= all);
    Some(file)
}

/// Where the unpacking of an entry under a directory stands. `B` stands for bytes, `L` for lists of
/// them, `E` for errors and `U` for the unpacking of an entry.
#[derive(Debug)]
pub enum InState<B, L, E, U> {
    /// It is being looked for the nearest directory above the entry that exists; `missing` holds
    /// those that do not, the lowest first.
    Probe { at: B, missing: L },
    /// The directory above one to be made is being resolved.
    ResolveAbove { above: B, dir: B, missing: L },
    /// The destination is being resolved before a directory is made.
    ResolveRoot { resolved: B, dir: B, missing: L },
    /// A directory is being made.
    MakeDirs { dir: B, missing: L },
    /// The directory that the entry goes into is being resolved.
    ResolveParent,
    /// The destination is being resolved before the entry is unpacked.
    ResolveDst { resolved: B },
    /// The entry is being unpacked.
    Unpacking(U),
    /// It is over: with whether the entry was within bounds, or with an error.
    Finished(Result<bool, E>),
}

/// A state in specifications.
pub type InStateView = InState<Seq<u8>, Seq<Seq<u8>>, ErrorView, UnpackView>;

type FileInState = InState<Vec<u8>, Vec<Vec<u8>>, Error, Unpack>;

/// The byte strings in `v`, each by its bytes.
pub open spec fn path_views(v: Seq<Vec<u8>>) -> Seq<Seq<u8>> {
    v.map_values(|p: Vec<u8>| p@)
}

impl View for InState<Vec<u8>, Vec<Vec<u8>>, Error, Unpack> {
    type V = InStateView;

    open spec fn view(&self) -> InStateView {
        match *self {
            InState::Probe { at, missing } => InState::Probe {
                at: at@,
                missing: path_views(missing@),
            },
            InState::ResolveAbove { above, dir, missing } => InState::ResolveAbove {
                above: above@,
                dir: dir@,
                missing: path_views(missing@),
            },
            InState::ResolveRoot { resolved, dir, missing } => InState::ResolveRoot {
                resolved: resolved@,
                dir: dir@,
                missing: path_views(missing@),
            },
            InState::MakeDirs { dir, missing } => InState::MakeDirs {
                dir: dir@,
                missing: path_views(missing@),
            },
            InState::ResolveParent => InState::ResolveParent,
            InState::ResolveDst { resolved } => InState::ResolveDst { resolved: resolved@ },
            InState::Unpacking(u) => InState::Unpacking(u@),
            InState::Finished(r) => InState::Finished(field_view(r)),
        }
    }
}

/// The unpacking of an entry under a directory, in specifications.
pub struct UnpackInView {
    /// The directory.
    pub dst: Seq<u8>,
    /// Where the entry goes.
    pub file: Seq<u8>,
    /// The directory above that.
    pub parent: Seq<u8>,
    /// The host.
    pub host: Host,
    /// Where it stands.
    pub state: InStateView,
}

/// Making the directories that are missing, the highest first. What lies above one must lie in the
/// destination before it is made.
pub open spec fn making(missing: Seq<Seq<u8>>, host: Host) -> InStateView {
    if missing.len() == 0 {
        InState::ResolveParent
    } else {
        match parent_on(missing.last(), host) {
            Some(above) => InState::ResolveAbove {
                above,
                dir: missing.last(),
                missing: missing.drop_last(),
            },
            None => InState::MakeDirs { dir: missing.last(), missing: missing.drop_last() },
        }
    }
}

/// Unpacking the entry, or the end of it.
pub open spec fn unpacking(file: Seq<u8>, u: UnpackView) -> InStateView {
    match u.state {
        State::Finished(Ok(_)) => InState::Finished(Ok(true)),
        State::Finished(Err(e)) => InState::Finished(Err(unpack_failed(e, file))),
        _ => InState::Unpacking(u),
    }
}

/// How the unpacking of an entry under a directory begins. An entry with a `..` in its path is
/// skipped. One whose path names nothing is done with, since it stands for the directory itself.
pub open spec fn beginning_in(entry: EntryFields, dst: Seq<u8>, host: Host) -> UnpackInView {
    let over = |r: Result<bool, ErrorView>|
        UnpackInView {
            dst,
            file: dst,
            parent: dst,
            host,
            state: InState::Finished(r),
        };
    match path_on(entry.listed_path(), host) {
        Err(e) => over(Err(invalid_path(e, entry.listed_path()))),
        Ok(path) => match target_in(dst, path, host) {
            None => over(Ok(false)),
            Some(file) => if components_on(file, host) == components_on(dst, host) {
                over(Ok(true))
            } else {
                match parent_on(file, host) {
                    None => over(Ok(false)),
                    Some(above) => UnpackInView {
                        dst,
                        file,
                        parent: above,
                        host,
                        state: InState::Probe { at: above, missing: Seq::empty() },
                    },
                }
            },
        },
    }
}

/// The operation that a state waits for; none at the end.
pub open spec fn action_in_dir(m: UnpackInView) -> Option<Action<Seq<u8>>> {
    match m.state {
        InState::Probe { at, .. } => Some(Action::Exists(at)),
        InState::ResolveAbove { above, .. } => Some(Action::Canonicalize(above)),
        InState::ResolveRoot { .. } => Some(Action::Canonicalize(m.dst)),
        InState::MakeDirs { dir, .. } => Some(Action::CreateDirAll(dir)),
        InState::ResolveParent => Some(Action::Canonicalize(m.parent)),
        InState::ResolveDst { .. } => Some(Action::Canonicalize(m.dst)),
        InState::Unpacking(u) => action_in(u),
        InState::Finished(_) => None,
    }
}

/// What follows a reply. A reply that cannot come from the operation changes nothing.
pub open spec fn in_state_after(m: UnpackInView, entry: EntryFields, reply: ReplyView) -> InStateView {
    match (m.state, reply) {
        (InState::Probe { missing, .. }, Reply::Answer(true)) => making(missing, m.host),
        (InState::Probe { at, missing }, Reply::Answer(false)) => match parent_on(at, m.host) {
            Some(above) => InState::Probe { at: above, missing: missing.push(at) },
            None => making(missing.push(at), m.host),
        },
        (InState::ResolveAbove { dir, missing, .. }, Reply::Path(resolved)) => {
            InState::ResolveRoot { resolved, dir, missing }
        },
        (InState::ResolveAbove { above, .. }, Reply::Failed(e)) => InState::Finished(
            Err(parent_failed(canonicalize_failed(e, above), m.parent)),
        ),
        (InState::ResolveRoot { resolved, dir, missing }, Reply::Path(target)) => match validated(
            resolved,
            target,
            m.host,
        ) {
            Ok(_) => InState::MakeDirs { dir, missing },
            Err(e) => InState::Finished(Err(parent_failed(e, m.parent))),
        },
        (InState::ResolveRoot { .. }, Reply::Failed(e)) => InState::Finished(
            Err(parent_failed(canonicalize_failed(e, m.dst), m.parent)),
        ),
        (InState::MakeDirs { missing, .. }, Reply::Done) => making(missing, m.host),
        (InState::MakeDirs { .. }, Reply::Failed(e)) => InState::Finished(
            Err(parent_failed(e, m.parent)),
        ),
        (InState::ResolveParent, Reply::Path(resolved)) => InState::ResolveDst { resolved },
        (InState::ResolveParent, Reply::Failed(e)) => InState::Finished(
            Err(canonicalize_failed(e, m.parent)),
        ),
        (InState::ResolveDst { resolved }, Reply::Path(target)) => match validated(
            resolved,
            target,
            m.host,
        ) {
            Ok(base) => unpacking(
                m.file,
                starting(entry, Some(base), m.file, m.host),
            ),
            Err(e) => InState::Finished(Err(e)),
        },
        (InState::ResolveDst { .. }, Reply::Failed(e)) => InState::Finished(
            Err(canonicalize_failed(e, m.dst)),
        ),
        (InState::Unpacking(u), reply) => unpacking(m.file, after(u, entry, reply)),
        (state, _) => state,
    }
}

/// The unpacking after a reply.
pub open spec fn after_in(m: UnpackInView, entry: EntryFields, reply: ReplyView) -> UnpackInView {
    UnpackInView { state: in_state_after(m, entry, reply), ..m }
}

fn make_next(missing: Vec<Vec<u8>>, host: Host) -> (r: FileInState)
    ensures
        r@ == making(path_views(missing@), host),
{
    let mut rest: Vec<Vec<u8>> = missing;
    match rest.pop() {
        None => InState::ResolveParent,
        Some(dir) => {
            proof {
                let all = path_views(missing@);
                assert(all.last() == dir@);
                assert(all.drop_last() =~= path_views(rest@));
            }
            let above: Option<Vec<u8>> = match find_parent(dir.as_slice(), host) {
                Some(above) => Some(copy_bytes(above)),
                None => None,
            };
            match above {
                Some(above) => InState::ResolveAbove { above, dir, missing: rest },
                None => InState::MakeDirs { dir, missing: rest },
            }
        },
    }
}

fn probe_next(at: Vec<u8>, missing: Vec<Vec<u8>>, host: Host) -> (r: FileInState)
    ensures
        r@ == (match parent_on(at@, host) {
            Some(above) => InState::Probe { at: above, missing: path_views(missing@).push(at@) },
            None => making(path_views(missing@).push(at@), host),
        }),
{
    let above: Option<Vec<u8>> = match find_parent(at.as_slice(), host) {
        Some(above) => Some(copy_bytes(above)),
        None => None,
    };
    let mut all: Vec<Vec<u8>> = missing;
    all.push(at);
    assert(path_views(all@) =~= path_views(missing@).push(at@));
    match above {
        Some(above) => InState::Probe { at: above, missing: all },
        None => make_next(all, host),
    }
}

fn unpack_next(file: &[u8], u: Unpack) -> (r: FileInState)
    ensures
        r@ == unpacking(file@, u@),
{
    if !u.is_finished() {
        return InState::Unpacking(u);
    }
    match u.outcome() {
        Some(Err(e)) => InState::Finished(Err(unpack_failed_error(e, file))),
        _ => InState::Finished(Ok(true)),
    }
}

/// The unpacking of an entry under a directory.
#[derive(Debug)]
pub struct UnpackIn {
    dst: Vec<u8>,
    file: Vec<u8>,
    parent: Vec<u8>,
    host: Host,
    state: InState<Vec<u8>, Vec<Vec<u8>>, Error, Unpack>,
}

impl View for UnpackIn {
    type V = UnpackInView;

    closed spec fn view(&self) -> UnpackInView {
        UnpackInView {
            dst: self.dst@,
            file: self.file@,
            parent: self.parent@,
            host: self.host,
            state: self.state@,
        }
    }
}

impl UnpackIn {
    fn over(dst: &[u8], host: Host, outcome: Result<bool, Error>) -> (r: UnpackIn)
        ensures
            r@ == (UnpackInView {
                dst: dst@,
                file: dst@,
                parent: dst@,
                host,
                state: InState::Finished(field_view(outcome)),
            }),
    {
        UnpackIn {
            dst: copy_bytes(dst),
            file: copy_bytes(dst),
            parent: copy_bytes(dst),
            host,
            state: InState::Finished(outcome),
        }
    }

    /// Begins to unpack `entry` under the directory `dst`. The host must be the one that the program
    /// is built for.
    pub fn start(entry: &EntryFields, dst: &[u8], host: Host) -> (r: UnpackIn)
        ensures
            r@ == beginning_in(*entry, dst@, host),
    {
        let path: Vec<u8> = match entry.path(host) {
            Ok(path) => path,
            Err(e) => {
                let text: String = entry.path_lossy();
                return UnpackIn::over(dst, host, Err(invalid_path_error(e, text.as_str())));
            },
        };
        let file: Vec<u8> = match find_target(dst, path.as_slice(), host) {
            Some(file) => file,
            None => {
                return UnpackIn::over(dst, host, Ok(false));
            },
        };
        if same_path(file.as_slice(), dst, host) {
            return UnpackIn::over(dst, host, Ok(true));
        }
        let above: Vec<u8> = match find_parent(file.as_slice(), host) {
            Some(above) => copy_bytes(above),
            None => {
                return UnpackIn::over(dst, host, Ok(false));
            },
        };
        let at: Vec<u8> = copy_bytes(above.as_slice());
        let missing: Vec<Vec<u8>> = Vec::new();
        assert(path_views(missing@) =~= Seq::empty());
        UnpackIn {
            dst: copy_bytes(dst),
            file,
            parent: above,
            host,
            state: InState::Probe { at, missing },
        }
    }

    /// The operation that comes next; none when it is over.
    pub fn action(&self) -> (r: Option<Action<Vec<u8>>>)
        ensures
            r is Some <==> action_in_dir(self@) is Some,
            r matches Some(a) ==> action_in_dir(self@) == Some(a@),
    {
        match &self.state {
            InState::Probe { at, .. } => Some(Action::Exists(copy_bytes(at.as_slice()))),
            InState::ResolveAbove { above, .. } => Some(
                Action::Canonicalize(copy_bytes(above.as_slice())),
            ),
            InState::ResolveRoot { .. } => Some(
                Action::Canonicalize(copy_bytes(self.dst.as_slice())),
            ),
            InState::MakeDirs { dir, .. } => Some(
                Action::CreateDirAll(copy_bytes(dir.as_slice())),
            ),
            InState::ResolveParent => Some(
                Action::Canonicalize(copy_bytes(self.parent.as_slice())),
            ),
            InState::ResolveDst { .. } => Some(
                Action::Canonicalize(copy_bytes(self.dst.as_slice())),
            ),
            InState::Unpacking(u) => u.action(),
            InState::Finished(_) => None,
        }
    }

    /// Goes on with what came of the operation. When the file is open, the content that the entry
    /// has left is taken from it.
    pub fn step(self, entry: &mut EntryFields, reply: FileReply) -> (r: UnpackIn)
        ensures
            r@ == after_in(self@, *old(entry), reply@),
            same_but_data(*final(entry), *old(entry)),
            final(entry).data@ == if action_in_dir(self@) is Some && action_in_dir(self@)->0
                is OpenNew && reply is Done {
                Seq::empty()
            } else {
                old(entry).data@
            },
    {
        let UnpackIn { dst, file, parent: above_file, host, state } = self;
        let state: FileInState = match (state, reply) {
            (InState::Probe { at, missing }, Reply::Answer(found)) => {
                if found {
                    make_next(missing, host)
                } else {
                    probe_next(at, missing, host)
                }
            },
            (InState::ResolveAbove { dir, missing, .. }, Reply::Path(resolved)) => {
                InState::ResolveRoot { resolved, dir, missing }
            },
            (InState::ResolveAbove { above, .. }, Reply::Failed(e)) => {
                let cause: Error = canonicalize_failed_error(&e, above.as_slice());
                InState::Finished(Err(parent_failed_error(cause, above_file.as_slice())))
            },
            (InState::ResolveRoot { resolved, dir, missing }, Reply::Path(target)) => {
                match validate_inside_dst(resolved.as_slice(), target, host) {
                    Ok(_) => InState::MakeDirs { dir, missing },
                    Err(e) => InState::Finished(
                        Err(parent_failed_error(e, above_file.as_slice())),
                    ),
                }
            },
            (InState::ResolveRoot { .. }, Reply::Failed(e)) => {
                let cause: Error = canonicalize_failed_error(&e, dst.as_slice());
                InState::Finished(Err(parent_failed_error(cause, above_file.as_slice())))
            },
            (InState::MakeDirs { missing, .. }, Reply::Done) => make_next(missing, host),
            (InState::MakeDirs { .. }, Reply::Failed(e)) => InState::Finished(
                Err(parent_failed_error(e, above_file.as_slice())),
            ),
            (InState::ResolveParent, Reply::Path(resolved)) => InState::ResolveDst { resolved },
            (InState::ResolveParent, Reply::Failed(e)) => InState::Finished(
                Err(canonicalize_failed_error(&e, above_file.as_slice())),
            ),
            (InState::ResolveDst { resolved }, Reply::Path(target)) => {
                match validate_inside_dst(resolved.as_slice(), target, host) {
                    Ok(base) => {
                        let u: Unpack = Unpack::start(
                            entry,
                            Some(base.as_slice()),
                            file.as_slice(),
                            host,
                        );
                        unpack_next(file.as_slice(), u)
                    },
                    Err(e) => InState::Finished(Err(e)),
                }
            },
            (InState::ResolveDst { .. }, Reply::Failed(e)) => InState::Finished(
                Err(canonicalize_failed_error(&e, dst.as_slice())),
            ),
            (InState::Unpacking(u), reply) => {
                let u: Unpack = u.step(entry, reply);
                unpack_next(file.as_slice(), u)
            },
            (state, _) => state,
        };
        UnpackIn { dst, file, parent: above_file, host, state }
    }

    /// Whether the entry was within bounds, or what went wrong, when it is over.
    pub fn outcome(self) -> (r: Option<Result<bool, Error>>)
        ensures
            r is Some <==> self@.state is Finished,
            r matches Some(o) ==> self@.state == InStateView::Finished(field_view(o)),
    {
        match self.state {
            InState::Finished(o) => Some(o),
            _ => None,
        }
    }
}

} // verus!
