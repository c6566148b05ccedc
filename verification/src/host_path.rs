//! Paths as a host takes them: on Windows they can begin with a drive, a share or a device.
//!
//! The separator is `/` on all hosts. On Windows only the backslashes of a [`verbatim_mark`] have a
//! meaning beside it.
use crate::bytes::{
    append_bytes, copy_bytes, find_byte, first_index, lemma_first_index, lemma_first_index_is,
    same_bytes,
};
use crate::host::{begins_with, verbatim_mark, Host, BACKSLASH};
use crate::path::{
    component_views, components, components_of, is_absolute, is_name, join, joined,
    law_joined_components, law_joined_name, law_names, law_no_components, law_parent, law_steps,
    lead, lemma_steps_split, parent, parent_of, starts_at_current, steps, Component, DOT, SEPARATOR,
};
use vstd::prelude::*;
use vstd::slice::slice_subrange;

verus! {

/// The colon, which ends the letter of a drive.
pub const COLON: u8 = 0x3a;

/// Whether the path begins with the letter of a drive, as in `C:`.
pub open spec fn has_drive(p: Seq<u8>) -> bool {
    p.len() >= 2 && p[1] == COLON && (0x41 <= p[0] <= 0x5a || 0x61 <= p[0] <= 0x7a)
}

/// What begins the paths of devices: `//./`.
pub open spec fn device_mark() -> Seq<u8> {
    seq![SEPARATOR, SEPARATOR, DOT, SEPARATOR]
}

/// What begins the paths of shares that Windows takes as they are.
pub open spec fn verbatim_share_mark() -> Seq<u8> {
    verbatim_mark() + seq![0x55, 0x4e, 0x43, SEPARATOR]
}

/// Whether the path begins with two separators.
pub open spec fn has_double(p: Seq<u8>) -> bool {
    p.len() >= 2 && p[0] == SEPARATOR && p[1] == SEPARATOR
}

/// The length of the piece that begins at `from`.
pub open spec fn piece_len(p: Seq<u8>, from: int) -> int {
    if 0 <= from < p.len() {
        first_index(p.skip(from), SEPARATOR)
    } else {
        0
    }
}

/// The length of the prefix that a path has on Windows, and that is no name in it: a drive as in
/// `C:`; a share as in `//server/share`; a device as in `//./COM1`; or after a [`verbatim_mark`] a
/// name as in `C:`, or a share as in `UNC/server/share`. It is zero where there is none.
pub open spec fn prefix_len(p: Seq<u8>) -> int {
    if has_drive(p) {
        2
    } else if verbatim_share_mark().is_prefix_of(p) {
        let server = piece_len(p, 8);
        let share = piece_len(p, 8 + server + 1);
        if share > 0 {
            8 + server + 1 + share
        } else {
            8 + server
        }
    } else if verbatim_mark().is_prefix_of(p) || device_mark().is_prefix_of(p) {
        4 + piece_len(p, 4)
    } else if has_double(p) {
        let server = piece_len(p, 2);
        let share = piece_len(p, 2 + server + 1);
        if server > 0 && share > 0 {
            2 + server + 1 + share
        } else {
            0
        }
    } else {
        0
    }
}

/// The length of the prefix that a path has on a host.
pub open spec fn head_len(p: Seq<u8>, host: Host) -> int {
    if host is Windows {
        prefix_len(p)
    } else {
        0
    }
}

/// Whether what follows the prefix begins at a root. A share or a device has one even where none is
/// written.
pub open spec fn is_rooted(p: Seq<u8>, host: Host) -> bool {
    is_absolute(p.skip(head_len(p, host))) || !has_drive(p) && !verbatim_mark().is_prefix_of(p)
}

/// The components of a path on a host.
pub open spec fn components_on(p: Seq<u8>, host: Host) -> Seq<Component<Seq<u8>>> {
    let k = head_len(p, host);
    if k == 0 {
        components_of(p)
    } else {
        let root = if is_rooted(p, host) {
            seq![Component::RootDir]
        } else {
            Seq::empty()
        };
        seq![Component::Prefix(p.take(k))] + root + steps(p.skip(k))
    }
}

/// The path without its last component, where that can be dropped. A prefix and a root cannot.
pub open spec fn parent_on(p: Seq<u8>, host: Host) -> Option<Seq<u8>> {
    let k = head_len(p, host);
    if k == 0 {
        parent_of(p)
    } else {
        let rest = p.skip(k);
        match parent_of(rest) {
            Some(above) if !(above.len() == 0 && starts_at_current(rest)) => Some(
                p.take(k) + above,
            ),
            _ => None,
        }
    }
}

/// Whether the components of `base` are the first components of `p`.
pub open spec fn is_inside(p: Seq<u8>, base: Seq<u8>, host: Host) -> bool {
    components_on(base, host).is_prefix_of(components_on(p, host))
}

/// The path without its last name, within what follows the first `k` bytes; the path itself where
/// there is no name at its end.
pub open spec fn step_up(p: Seq<u8>, k: int) -> Seq<u8> {
    let rest = p.skip(k);
    match parent_of(rest) {
        Some(above) if components_of(rest).last() is Normal => p.take(k) + above,
        _ => p,
    }
}

/// The path that is reached from `base` by the components one after the other, so that it holds
/// neither `.` nor `..`; a root leads to the end of the first `k` bytes, and `..` not above it.
pub open spec fn walked(base: Seq<u8>, k: int, comps: Seq<Component<Seq<u8>>>) -> Seq<u8>
    decreases comps.len(),
{
    if comps.len() == 0 {
        base
    } else {
        let before = walked(base, k, comps.drop_last());
        match comps.last() {
            Component::RootDir => base.take(k).push(SEPARATOR),
            Component::ParentDir => step_up(before, k),
            Component::Normal(name) => joined(before, name),
            Component::CurDir | Component::Prefix(_) => before,
        }
    }
}

/// The path that `tail` names when it is looked up from `base` on a host. On Windows a prefix of
/// `tail` replaces all of `base`, a root of `tail` all but the prefix of `base`; a bare drive takes
/// no separator after it; and from a path that is taken as it is, each step is taken at once.
pub open spec fn looked_up(base: Seq<u8>, tail: Seq<u8>, host: Host) -> Seq<u8> {
    if !(host is Windows) {
        joined(base, tail)
    } else if prefix_len(tail) > 0 {
        tail
    } else if verbatim_mark().is_prefix_of(base) && tail.len() != 0 {
        walked(base, prefix_len(base), components_of(tail))
    } else if is_absolute(tail) {
        base.take(prefix_len(base)) + tail
    } else if has_drive(base) && base.len() == 2 {
        base + tail
    } else {
        joined(base, tail)
    }
}

proof fn lemma_piece_len(p: Seq<u8>, from: int)
    requires
        0 <= from,
    ensures
        0 <= piece_len(p, from),
        from <= p.len() ==> from + piece_len(p, from) <= p.len(),
        from > p.len() ==> piece_len(p, from) == 0,
{
    if from < p.len() {
        lemma_first_index(p.skip(from), SEPARATOR);
    }
}

/// A prefix does not reach beyond the path.
pub proof fn law_prefix_len(p: Seq<u8>)
    ensures
        0 <= prefix_len(p) <= p.len(),
{
    lemma_piece_len(p, 2);
    lemma_piece_len(p, 4);
    lemma_piece_len(p, 8);
    lemma_piece_len(p, 2 + piece_len(p, 2) + 1);
    lemma_piece_len(p, 8 + piece_len(p, 8) + 1);
}

/// Whether the path begins with the letter of a drive.
fn begins_with_drive(p: &[u8]) -> (r: bool)
    ensures
        r == has_drive(p@),
{
    p.len() >= 2 && p[1] == COLON && ((0x41 <= p[0] && p[0] <= 0x5a) || (0x61 <= p[0] && p[0]
        <= 0x7a))
}

/// Whether the path begins with a [`verbatim_mark`].
fn is_verbatim(p: &[u8]) -> (r: bool)
    ensures
        r == verbatim_mark().is_prefix_of(p@),
{
    let mark: [u8; 4] = [BACKSLASH, BACKSLASH, 0x3f, BACKSLASH];
    assert(mark@ =~= verbatim_mark());
    begins_with(p, mark.as_slice())
}

/// The length of the piece that begins at `from`.
fn find_piece_len(p: &[u8], from: usize) -> (r: usize)
    ensures
        r == piece_len(p@, from as int),
        from <= p@.len() ==> from + r <= p@.len(),
        from > p@.len() ==> r == 0,
{
    if from >= p.len() {
        return 0;
    }
    let rest: &[u8] = slice_subrange(p, from, p.len());
    assert(rest@ =~= p@.skip(from as int));
    find_byte(rest, SEPARATOR)
}

/// The length of the prefix that a path has on a host.
pub fn find_prefix(p: &[u8], host: Host) -> (r: usize)
    ensures
        r == head_len(p@, host),
        r <= p@.len(),
{
    if !matches!(host, Host::Windows) {
        return 0;
    }
    let n: usize = p.len();
    if begins_with_drive(p) {
        return 2;
    }
    let device: [u8; 4] = [SEPARATOR, SEPARATOR, DOT, SEPARATOR];
    let share_mark: [u8; 8] = [
        BACKSLASH, BACKSLASH, 0x3f, BACKSLASH, 0x55, 0x4e, 0x43, SEPARATOR,
    ];
    assert(device@ =~= device_mark());
    assert(share_mark@ =~= verbatim_share_mark());
    if begins_with(p, share_mark.as_slice()) {
        let server: usize = find_piece_len(p, 8);
        if 8 + server == n {
            return n;
        }
        let share: usize = find_piece_len(p, 8 + server + 1);
        return if share > 0 { 8 + server + 1 + share } else { 8 + server };
    }
    if is_verbatim(p) || begins_with(p, device.as_slice()) {
        return 4 + find_piece_len(p, 4);
    }
    if n < 2 || p[0] != SEPARATOR || p[1] != SEPARATOR {
        return 0;
    }
    let server: usize = find_piece_len(p, 2);
    if 2 + server == n {
        return 0;
    }
    let share: usize = find_piece_len(p, 2 + server + 1);
    if server > 0 && share > 0 {
        2 + server + 1 + share
    } else {
        0
    }
}

/// Splits a path into its components.
pub fn find_components(p: &[u8], host: Host) -> (r: Vec<Component<Vec<u8>>>)
    ensures
        component_views(r@) == components_on(p@, host),
{
    let k: usize = find_prefix(p, host);
    if k == 0 {
        return components(p);
    }
    let rest: &[u8] = slice_subrange(p, k, p.len());
    assert(rest@ =~= p@.skip(k as int));
    let absolute: bool = rest.len() > 0 && rest[0] == SEPARATOR;
    let current: bool = rest.len() > 0 && rest[0] == DOT && (rest.len() == 1 || rest[1]
        == SEPARATOR);
    let mut comps: Vec<Component<Vec<u8>>> = components(rest);
    let ghost all = component_views(comps@);
    assert(all.len() == comps@.len());
    if absolute || current {
        comps.remove(0);
        assert(lead(rest@).len() == 1);
        assert(component_views(comps@) =~= all.skip(1));
    }
    assert(all.skip(lead(rest@).len() as int) =~= steps(rest@));
    assert(component_views(comps@) =~= steps(rest@));
    if absolute || (!begins_with_drive(p) && !is_verbatim(p)) {
        comps.insert(0, Component::RootDir);
    }
    let head: &[u8] = slice_subrange(p, 0, k);
    assert(head@ =~= p@.take(k as int));
    comps.insert(0, Component::Prefix(copy_bytes(head)));
    assert(component_views(comps@) =~= components_on(p@, host));
    comps
}

/// The path without its last component, where that can be dropped.
pub fn find_parent(p: &[u8], host: Host) -> (r: Option<&[u8]>)
    ensures
        r is Some <==> parent_on(p@, host) is Some,
        r matches Some(q) ==> parent_on(p@, host) == Some(q@),
{
    let k: usize = find_prefix(p, host);
    if k == 0 {
        return parent(p);
    }
    let rest: &[u8] = slice_subrange(p, k, p.len());
    assert(rest@ =~= p@.skip(k as int));
    proof {
        law_parent(rest@);
    }
    let current: bool = rest.len() > 0 && rest[0] == DOT && (rest.len() == 1 || rest[1]
        == SEPARATOR);
    match parent(rest) {
        Some(above) => {
            if above.len() == 0 && current {
                return None;
            }
            let q: &[u8] = slice_subrange(p, 0, k + above.len());
            assert(q@ =~= p@.take(k as int) + above@);
            Some(q)
        },
        None => None,
    }
}

/// Whether two components are the same.
fn same_component(a: &Component<Vec<u8>>, b: &Component<Vec<u8>>) -> (r: bool)
    ensures
        r == (a@ == b@),
{
    match (a, b) {
        (Component::Prefix(x), Component::Prefix(y)) => same_bytes(x.as_slice(), y.as_slice()),
        (Component::RootDir, Component::RootDir) => true,
        (Component::CurDir, Component::CurDir) => true,
        (Component::ParentDir, Component::ParentDir) => true,
        (Component::Normal(x), Component::Normal(y)) => same_bytes(x.as_slice(), y.as_slice()),
        _ => false,
    }
}

/// Whether `p` lies in `base`, or is `base`, going by their components alone.
pub fn starts_with(p: &[u8], base: &[u8], host: Host) -> (r: bool)
    ensures
        r == is_inside(p@, base@, host),
{
    let xs: Vec<Component<Vec<u8>>> = find_components(p, host);
    let ys: Vec<Component<Vec<u8>>> = find_components(base, host);
    assert(component_views(xs@).len() == xs@.len());
    assert(component_views(ys@).len() == ys@.len());
    if ys.len() > xs.len() {
        return false;
    }
    let mut i: usize = 0;
    while i < ys.len()
        invariant
            0 <= i <= ys@.len() <= xs@.len(),
            component_views(xs@) == components_on(p@, host),
            component_views(ys@) == components_on(base@, host),
            forall|j: int|
                0 <= j < i ==> components_on(p@, host)[j] == components_on(base@, host)[j],
        decreases ys@.len() - i,
    {
        assert(components_on(p@, host)[i as int] == xs@[i as int]@);
        assert(components_on(base@, host)[i as int] == ys@[i as int]@);
        if !same_component(&xs[i], &ys[i]) {
            return false;
        }
        i = i + 1;
    }
    true
}

/// Whether two paths have the same components.
pub fn same_path(a: &[u8], b: &[u8], host: Host) -> (r: bool)
    ensures
        r == (components_on(a@, host) == components_on(b@, host)),
{
    let r: bool = starts_with(a, b, host) && starts_with(b, a, host);
    assert(r ==> components_on(a@, host) =~= components_on(b@, host));
    r
}

/// Takes off the last name within what follows the first `k` bytes.
fn go_up(p: &[u8], k: usize) -> (r: Vec<u8>)
    requires
        k <= p@.len(),
    ensures
        r@ == step_up(p@, k as int),
        k <= r@.len(),
{
    let rest: &[u8] = slice_subrange(p, k, p.len());
    assert(rest@ =~= p@.skip(k as int));
    let comps: Vec<Component<Vec<u8>>> = components(rest);
    let n: usize = comps.len();
    proof {
        law_parent(rest@);
        assert(component_views(comps@).len() == n);
        if n > 0 {
            assert(components_of(rest@).last() == comps@[n - 1]@);
        }
    }
    if let Some(above) = parent(rest) {
        if n > 0 && matches!(comps[n - 1], Component::Normal(_)) {
            let mut r: Vec<u8> = copy_bytes(slice_subrange(p, 0, k));
            assert(r@ =~= p@.take(k as int));
            append_bytes(&mut r, above);
            return r;
        }
    }
    copy_bytes(p)
}

/// Walks the components of `tail` one after the other.
fn walk(base: &[u8], k: usize, tail: &[u8]) -> (r: Vec<u8>)
    requires
        k <= base@.len(),
    ensures
        r@ == walked(base@, k as int, components_of(tail@)),
{
    let comps: Vec<Component<Vec<u8>>> = components(tail);
    let ghost all = components_of(tail@);
    let mut at: Vec<u8> = copy_bytes(base);
    let mut i: usize = 0;
    assert(all.take(0) =~= Seq::empty());
    while i < comps.len()
        invariant
            component_views(comps@) == all,
            all == components_of(tail@),
            0 <= i <= comps@.len(),
            k <= base@.len(),
            k <= at@.len(),
            at@ == walked(base@, k as int, all.take(i as int)),
        decreases comps@.len() - i,
    {
        assert(all[i as int] == comps@[i as int]@);
        assert(all.take(i + 1).drop_last() =~= all.take(i as int));
        assert(all.take(i + 1).last() == all[i as int]);
        match &comps[i] {
            Component::RootDir => {
                at = copy_bytes(slice_subrange(base, 0, k));
                assert(at@ =~= base@.take(k as int));
                at.push(SEPARATOR);
            },
            Component::CurDir | Component::Prefix(_) => {},
            Component::ParentDir => {
                at = go_up(at.as_slice(), k);
            },
            Component::Normal(name) => {
                proof {
                    law_names(tail@, i as int);
                }
                at = join(at.as_slice(), name.as_slice());
            },
        }
        i = i + 1;
    }
    assert(all.take(i as int) =~= all);
    at
}

/// Looks `tail` up from `base` on a host.
pub fn look_up(base: &[u8], tail: &[u8], host: Host) -> (r: Vec<u8>)
    ensures
        r@ == looked_up(base@, tail@, host),
{
    if !matches!(host, Host::Windows) {
        return join(base, tail);
    }
    if find_prefix(tail, host) > 0 {
        return copy_bytes(tail);
    }
    let k: usize = find_prefix(base, host);
    if is_verbatim(base) && tail.len() > 0 {
        return walk(base, k, tail);
    }
    if tail.len() > 0 && tail[0] == SEPARATOR {
        let mut r: Vec<u8> = copy_bytes(slice_subrange(base, 0, k));
        assert(r@ =~= base@.take(k as int));
        append_bytes(&mut r, tail);
        return r;
    }
    if begins_with_drive(base) && base.len() == 2 {
        let mut r: Vec<u8> = copy_bytes(base);
        append_bytes(&mut r, tail);
        return r;
    }
    join(base, tail)
}

proof fn lemma_piece_take(p: Seq<u8>, j: int, from: int)
    requires
        0 <= from,
        0 <= j <= p.len(),
    ensures
        piece_len(p.take(j), from) == if from >= j {
            0
        } else if piece_len(p, from) <= j - from {
            piece_len(p, from)
        } else {
            j - from
        },
{
    if from < j {
        let whole = p.skip(from);
        let part = p.take(j).skip(from);
        lemma_first_index(whole, SEPARATOR);
        let i = first_index(whole, SEPARATOR);
        assert forall|x: int| 0 <= x < part.len() implies part[x] == whole[x] by {}
        lemma_first_index_is(
            part,
            SEPARATOR,
            if i <= j - from {
                i
            } else {
                j - from
            },
        );
    }
}

proof fn lemma_mark_take(p: Seq<u8>, j: int, mark: Seq<u8>)
    requires
        0 <= j <= p.len(),
    ensures
        mark.is_prefix_of(p.take(j)) <==> mark.is_prefix_of(p) && mark.len() <= j,
{
    if mark.is_prefix_of(p) && mark.len() <= j {
        assert(p.take(j).take(mark.len() as int) =~= p.take(mark.len() as int));
        assert(mark =~= p.take(j).take(mark.len() as int));
    }
    if mark.is_prefix_of(p.take(j)) {
        assert forall|i: int| 0 <= i < mark.len() implies mark[i] == p[i] by {
            assert(mark[i] == p.take(j)[i]);
        }
    }
}

/// Cutting a path behind its prefix leaves the prefix as it is.
proof fn lemma_prefix_cut(p: Seq<u8>, j: int)
    requires
        prefix_len(p) <= j <= p.len(),
    ensures
        prefix_len(p.take(j)) == prefix_len(p),
        has_drive(p.take(j)) == has_drive(p),
        prefix_len(p) > 0 ==> verbatim_mark().is_prefix_of(p.take(j))
            == verbatim_mark().is_prefix_of(p),
{
    let q = p.take(j);
    law_prefix_len(p);
    if j >= 2 {
        assert(q[0] == p[0] && q[1] == p[1]);
    }
    lemma_mark_take(p, j, verbatim_mark());
    lemma_mark_take(p, j, verbatim_share_mark());
    lemma_mark_take(p, j, device_mark());
    assert(verbatim_share_mark().is_prefix_of(p) ==> verbatim_mark().is_prefix_of(p)) by {
        if verbatim_share_mark().is_prefix_of(p) {
            assert forall|i: int| 0 <= i < 4 implies verbatim_mark()[i] == p[i] by {
                assert(verbatim_share_mark()[i] == p[i]);
            }
        }
    }
    assert(device_mark().is_prefix_of(p) ==> has_double(p)) by {
        if device_mark().is_prefix_of(p) {
            assert(device_mark()[0] == p[0] && device_mark()[1] == p[1]);
        }
    }
    let s2 = piece_len(p, 2);
    let s8 = piece_len(p, 8);
    lemma_piece_len(p, 2);
    lemma_piece_len(p, 4);
    lemma_piece_len(p, 8);
    lemma_piece_len(p, 2 + s2 + 1);
    lemma_piece_len(p, 8 + s8 + 1);
    lemma_piece_take(p, j, 2);
    lemma_piece_take(p, j, 4);
    lemma_piece_take(p, j, 8);
    lemma_piece_take(p, j, 2 + s2 + 1);
    lemma_piece_take(p, j, 8 + s8 + 1);
    let t2 = piece_len(q, 2);
    lemma_piece_take(p, j, 2 + t2 + 1);
}

/// The parent of a path is what is left of it when its last component is dropped. It is a beginning
/// of the path, and shorter. A path that ends in a name has one.
pub proof fn law_parent_on(p: Seq<u8>, host: Host)
    ensures
        parent_on(p, host) matches Some(q) ==> {
            &&& q.len() < p.len()
            &&& q == p.take(q.len() as int)
            &&& components_on(p, host).len() > 0
            &&& components_on(q, host) == components_on(p, host).drop_last()
        },
        components_on(p, host).len() > 0 && components_on(p, host).last() is Normal ==> parent_on(
            p,
            host,
        ) is Some,
{
    let k = head_len(p, host);
    law_prefix_len(p);
    if k == 0 {
        law_parent(p);
        law_no_components(p);
        if components_of(p) == seq![Component::<Seq<u8>>::RootDir] {
            assert(components_of(p).last() is RootDir);
        }
        if let Some(q) = parent_of(p) {
            if host is Windows {
                lemma_prefix_cut(p, q.len() as int);
            }
        }
    } else {
        let rest = p.skip(k);
        let all = components_on(p, host);
        law_parent(rest);
        if steps(rest).len() == 0 {
            assert(!(all.last() is Normal));
        } else {
            let above = parent_of(rest)->0;
            assert(lead(above) == lead(rest));
            assert(above.len() != 0 || !starts_at_current(rest)) by {
                if above.len() == 0 && starts_at_current(rest) {
                    assert(lead(rest).len() == 1);
                }
            }
            let j = k + above.len();
            let q = p.take(k) + above;
            assert(q =~= p.take(j));
            lemma_prefix_cut(p, j);
            assert(q.skip(k) =~= above);
            assert(q.take(k) =~= p.take(k));
            assert(is_absolute(above) == is_absolute(rest)) by {
                if is_absolute(above) {
                    assert(lead(above)[0] is RootDir);
                    assert(lead(rest)[0] is RootDir);
                }
                if is_absolute(rest) {
                    assert(lead(rest)[0] is RootDir);
                    assert(lead(above)[0] is RootDir);
                }
            }
            assert(components_on(q, host) =~= all.drop_last());
        }
    }
}

/// The components of a path that are names are proper ones.
pub proof fn law_names_on(p: Seq<u8>, host: Host, i: int)
    requires
        0 <= i < components_on(p, host).len(),
        components_on(p, host)[i] is Normal,
    ensures
        components_on(p, host)[i] matches Component::Normal(n) && is_name(n),
{
    let k = head_len(p, host);
    if k == 0 {
        law_names(p, i);
    } else {
        let rest = steps(p.skip(k));
        let j = i - (components_on(p, host).len() - rest.len());
        if j >= 0 {
            assert(components_on(p, host)[i] == rest[j]);
            law_steps(p.skip(k), j);
        }
    }
}

/// Whether the prefix of a path is as long as it can get, whatever names follow the path. On Windows
/// this leaves out the beginning of a share, as in `//server`, and paths behind a [`verbatim_mark`]
/// other than those on a drive, from its root.
pub open spec fn is_settled(p: Seq<u8>, host: Host) -> bool {
    if !(host is Windows) {
        true
    } else if verbatim_mark().is_prefix_of(p) {
        has_drive(p.skip(4)) && p.len() > 6 && p[6] == SEPARATOR
    } else if has_double(p) {
        prefix_len(p) > 4
    } else {
        true
    }
}

proof fn lemma_piece_append(p: Seq<u8>, t: Seq<u8>, from: int)
    requires
        0 <= from < p.len(),
        t.len() != 0,
        t[0] == SEPARATOR || p.last() == SEPARATOR,
    ensures
        piece_len(p + t, from) == piece_len(p, from),
{
    let part = p.skip(from);
    let whole = (p + t).skip(from);
    lemma_first_index(part, SEPARATOR);
    let i = first_index(part, SEPARATOR);
    assert forall|x: int| 0 <= x < part.len() implies part[x] == whole[x] by {}
    if i == part.len() {
        assert(part.last() == p.last());
        assert(part[part.len() - 1] == p.last());
        assert(whole[i] == t[0]);
    }
    lemma_first_index_is(whole, SEPARATOR, i);
}

proof fn lemma_mark_append(p: Seq<u8>, t: Seq<u8>, mark: Seq<u8>)
    requires
        mark.len() <= p.len(),
    ensures
        mark.is_prefix_of(p + t) == mark.is_prefix_of(p),
{
    let q = p + t;
    assert(q.take(p.len() as int) =~= p);
    lemma_mark_take(q, p.len() as int, mark);
}

/// A name behind a settled path leaves its prefix as it is.
proof fn lemma_prefix_append(p: Seq<u8>, t: Seq<u8>)
    requires
        is_settled(p, Host::Windows),
        t.len() != 0,
        p.len() != 0,
        t[0] == SEPARATOR && p.last() != SEPARATOR || p.last() == SEPARATOR && t[0] != SEPARATOR
            || has_drive(p),
    ensures
        prefix_len(p + t) == prefix_len(p),
        has_drive(p + t) == has_drive(p),
        verbatim_mark().is_prefix_of(p + t) == verbatim_mark().is_prefix_of(p),
        is_settled(p + t, Host::Windows),
{
    let q = p + t;
    law_prefix_len(p);
    assert(forall|i: int| 0 <= i < p.len() ==> q[i] == p[i]);
    let verbatim = verbatim_mark();
    let share = verbatim_share_mark();
    let device = device_mark();
    if has_drive(p) {
        assert(has_drive(q));
        if verbatim.is_prefix_of(q) {
            assert(verbatim[0] == q[0]);
        }
        if verbatim.is_prefix_of(p) {
            assert(verbatim[0] == p[0]);
        }
    } else {
        if p.len() == 1 {
            assert(q[1] == t[0]);
        }
        assert(!has_drive(q));
        if verbatim.is_prefix_of(p) {
            assert(p.skip(4)[1] == p[5]);
            assert(p.skip(4)[0] == p[4]);
            assert(q.skip(4)[1] == q[5] && q.skip(4)[0] == q[4]);
            lemma_mark_append(p, t, verbatim);
            assert(!share.is_prefix_of(p) && !share.is_prefix_of(q)) by {
                if share.is_prefix_of(p) {
                    assert(share[5] == p[5]);
                }
                if share.is_prefix_of(q) {
                    assert(share[5] == q[5]);
                }
            }
            lemma_piece_append_inner(p, t, 4, 2);
        } else {
            assert(!verbatim.is_prefix_of(q)) by {
                if verbatim.is_prefix_of(q) {
                    if p.len() >= 4 {
                        lemma_mark_append(p, t, verbatim);
                    } else {
                        assert(verbatim[p.len() - 1] == q[p.len() - 1]);
                        assert(verbatim[p.len() as int] == q[p.len() as int]);
                    }
                }
            }
            assert(!share.is_prefix_of(p) && !share.is_prefix_of(q)) by {
                if share.is_prefix_of(p) {
                    assert forall|i: int| 0 <= i < 4 implies verbatim[i] == p[i] by {
                        assert(share[i] == p[i]);
                    }
                }
                if share.is_prefix_of(q) {
                    assert forall|i: int| 0 <= i < 4 implies verbatim[i] == q[i] by {
                        assert(share[i] == q[i]);
                    }
                }
            }
            if has_double(p) {
                assert(has_double(q));
                lemma_mark_append(p, t, device);
                lemma_piece_len(p, 2);
                lemma_piece_len(p, 4);
                let s = piece_len(p, 2);
                lemma_piece_len(p, 2 + s + 1);
                lemma_piece_append(p, t, 2);
                lemma_piece_append(p, t, 4);
                if !device.is_prefix_of(p) {
                    lemma_piece_append(p, t, 2 + s + 1);
                }
            } else {
                assert(!has_double(q));
                assert(!device.is_prefix_of(q) && !device.is_prefix_of(p)) by {
                    if device.is_prefix_of(q) {
                        assert(device[0] == q[0] && device[1] == q[1]);
                    }
                    if device.is_prefix_of(p) {
                        assert(device[0] == p[0] && device[1] == p[1]);
                    }
                }
            }
        }
    }
}

/// A piece that ends before the path does stays as it is.
proof fn lemma_piece_append_inner(p: Seq<u8>, t: Seq<u8>, from: int, len: int)
    requires
        0 <= from,
        0 <= len,
        from + len < p.len(),
        p[from + len] == SEPARATOR,
        forall|j: int| from <= j < from + len ==> p[j] != SEPARATOR,
    ensures
        piece_len(p, from) == len,
        piece_len(p + t, from) == len,
{
    let part = p.skip(from);
    let whole = (p + t).skip(from);
    assert forall|x: int| 0 <= x <= len implies part[x] == p[from + x] && whole[x] == p[from
        + x] by {}
    lemma_first_index_is(part, SEPARATOR, len);
    lemma_first_index_is(whole, SEPARATOR, len);
}

/// Looking a name up from a directory leads one step down from it, and no further. On Windows the
/// name must not begin with a drive, and no share must be left unfinished.
pub proof fn law_looked_up_name(base: Seq<u8>, n: Seq<u8>, host: Host)
    requires
        is_name(n),
        head_len(n, host) == 0,
        is_settled(base, host),
    ensures
        components_on(looked_up(base, n, host), host) == components_on(base, host).push(
            Component::Normal(n),
        ),
        is_settled(looked_up(base, n, host), host),
{
    law_joined_name(base, n);
    if host is Windows {
        let none = Seq::<u8>::empty();
        law_joined_name(none, n);
        law_no_components(none);
        assert(joined(none, n) =~= n);
        assert(components_of(n) =~= seq![Component::Normal(n)]);
        assert(components_of(n).drop_last() =~= Seq::empty());
        assert(steps(n) =~= seq![Component::Normal(n)]) by {
            law_joined_components(seq![SEPARATOR], n);
            if n.len() == 1 && n[0] == DOT {
                assert(n =~= seq![DOT]);
            }
            assert(lead(n) =~= Seq::empty());
        }
        let k = prefix_len(base);
        let q = looked_up(base, n, host);
        law_prefix_len(base);
        assert(walked(base, k, components_of(n).drop_last()) == base);
        assert(q == if has_drive(base) && base.len() == 2 {
            base + n
        } else {
            joined(base, n)
        }) by {
            if verbatim_mark().is_prefix_of(base) && has_drive(base) {
                assert(verbatim_mark()[0] == base[0]);
            }
        }
        if base.len() == 0 {
            assert(q =~= n);
            assert(is_settled(n, host)) by {
                if verbatim_mark().is_prefix_of(n) {
                    lemma_piece_len(n, 4);
                    lemma_piece_len(n, 8);
                    lemma_piece_len(n, 8 + piece_len(n, 8) + 1);
                }
            }
            assert(components_on(base, host) =~= Seq::empty());
        } else {
            let t = if base.last() == SEPARATOR || has_drive(base) && base.len() == 2 {
                n
            } else {
                seq![SEPARATOR] + n
            };
            assert(q =~= base + t);
            lemma_prefix_append(base, t);
            if k > 0 {
                let rest = base.skip(k);
                assert(q.skip(k) =~= rest + t);
                assert(q.take(k) =~= base.take(k));
                lemma_steps_append(rest, n, t);
                if verbatim_mark().is_prefix_of(base) {
                    lemma_verbatim_drive(base);
                }
                assert(is_rooted(q, host) == is_rooted(base, host));
                assert(components_on(q, host) =~= components_on(base, host).push(
                    Component::Normal(n),
                ));
            }
        }
    }
}

/// The prefix of a path on a drive behind a [`verbatim_mark`].
pub proof fn lemma_verbatim_drive(p: Seq<u8>)
    requires
        verbatim_mark().is_prefix_of(p),
        is_settled(p, Host::Windows),
    ensures
        prefix_len(p) == 6,
        p.len() > 6,
{
    assert(p.skip(4)[1] == p[5] && p.skip(4)[0] == p[4]);
    assert(verbatim_mark()[0] == p[0]);
    assert(!verbatim_share_mark().is_prefix_of(p)) by {
        if verbatim_share_mark().is_prefix_of(p) {
            assert(verbatim_share_mark()[5] == p[5]);
        }
    }
    lemma_piece_append_inner(p, Seq::empty(), 4, 2);
}

proof fn lemma_steps_append(rest: Seq<u8>, n: Seq<u8>, t: Seq<u8>)
    requires
        is_name(n),
        steps(n) == seq![Component::Normal(n)],
        t == n && (rest.len() == 0 || rest.last() == SEPARATOR) || t == seq![SEPARATOR] + n,
    ensures
        steps(rest + t) == steps(rest).push(Component::Normal(n)),
        rest.len() != 0 ==> is_absolute(rest + t) == is_absolute(rest),
        t == n && rest.len() == 0 ==> !is_absolute(rest + t),
{
    let none = Seq::<u8>::empty();
    lemma_steps_split(none, none);
    law_no_components(none);
    assert(steps(none) =~= Seq::empty());
    if t == n {
        if rest.len() == 0 {
            assert(rest + t =~= n);
            assert(rest =~= none);
        } else {
            let front = rest.drop_last();
            assert(rest =~= front + seq![SEPARATOR] + none);
            assert(rest + t =~= front + seq![SEPARATOR] + n);
            lemma_steps_split(front, none);
            lemma_steps_split(front, n);
            assert(steps(rest) =~= steps(front));
        }
    } else {
        assert(rest + t =~= rest + seq![SEPARATOR] + n);
        lemma_steps_split(rest, n);
    }
    assert(steps(rest + t) =~= steps(rest).push(Component::Normal(n)));
}

} // verus!
