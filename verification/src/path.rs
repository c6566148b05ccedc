//! Paths in Unix syntax: byte strings whose names are separated by `/`.
use crate::bytes::{
    append_bytes, copy_bytes, find_byte, first_index, lemma_first_index, lemma_first_index_is,
};
use vstd::prelude::*;
use vstd::slice::slice_subrange;

verus! {

/// The separator of names in a path: `/`.
pub const SEPARATOR: u8 = 0x2f;

/// The dot: `.`.
pub const DOT: u8 = 0x2e;

/// One step of a path. `B` is `Vec<u8>` in programs and `Seq<u8>` in specifications.
#[derive(Debug, PartialEq, Eq)]
pub enum Component<B> {
    /// A drive, a share or a device, which some hosts begin paths with.
    Prefix(B),
    /// The root directory, a leading `/`.
    RootDir,
    /// The current directory, a leading `.`.
    CurDir,
    /// The parent directory, `..`.
    ParentDir,
    /// Any other name.
    Normal(B),
}

impl View for Component<Vec<u8>> {
    type V = Component<Seq<u8>>;

    open spec fn view(&self) -> Component<Seq<u8>> {
        match self {
            Component::Prefix(name) => Component::Prefix(name@),
            Component::RootDir => Component::RootDir,
            Component::CurDir => Component::CurDir,
            Component::ParentDir => Component::ParentDir,
            Component::Normal(name) => Component::Normal(name@),
        }
    }
}

/// The components in `v`, each by its view.
pub open spec fn component_views(v: Seq<Component<Vec<u8>>>) -> Seq<Component<Seq<u8>>> {
    v.map_values(|c: Component<Vec<u8>>| c@)
}

/// Whether a piece between separators counts as a step: it is neither empty nor `.`.
pub open spec fn is_step(segment: Seq<u8>) -> bool {
    segment.len() != 0 && segment != seq![DOT]
}

/// The step that a piece between separators stands for, if it counts.
pub open spec fn step_of(segment: Seq<u8>) -> Seq<Component<Seq<u8>>> {
    if !is_step(segment) {
        Seq::empty()
    } else if segment == seq![DOT, DOT] {
        seq![Component::ParentDir]
    } else {
        seq![Component::Normal(segment)]
    }
}

/// The steps of a path, without what its beginning says: it is cut at each separator, and
/// empty pieces and `.` pieces are left out.
pub open spec fn steps(p: Seq<u8>) -> Seq<Component<Seq<u8>>>
    decreases p.len(),
{
    let i = first_index(p, SEPARATOR);
    if 0 <= i < p.len() {
        step_of(p.take(i)) + steps(p.skip(i + 1))
    } else {
        step_of(p)
    }
}

/// Whether the path starts at the root.
pub open spec fn is_absolute(p: Seq<u8>) -> bool {
    p.len() != 0 && p[0] == SEPARATOR
}

/// Whether the first piece of the path is `.`.
pub open spec fn starts_at_current(p: Seq<u8>) -> bool {
    p.len() != 0 && p[0] == DOT && (p.len() == 1 || p[1] == SEPARATOR)
}

/// What the beginning of the path says: the root, the current directory, or nothing.
pub open spec fn lead(p: Seq<u8>) -> Seq<Component<Seq<u8>>> {
    if is_absolute(p) {
        seq![Component::RootDir]
    } else if starts_at_current(p) {
        seq![Component::CurDir]
    } else {
        Seq::empty()
    }
}

/// The components of a path without a prefix.
pub open spec fn components_of(p: Seq<u8>) -> Seq<Component<Seq<u8>>> {
    lead(p) + steps(p)
}

/// Cutting a path at one of its separators cuts its steps in two.
pub proof fn lemma_steps_split(a: Seq<u8>, b: Seq<u8>)
    ensures
        steps(a + seq![SEPARATOR] + b) == steps(a) + steps(b),
    decreases a.len(),
{
    let p = a + seq![SEPARATOR] + b;
    lemma_first_index(a, SEPARATOR);
    let i = first_index(a, SEPARATOR);
    lemma_first_index_is(p, SEPARATOR, i);
    if i < a.len() {
        lemma_steps_split(a.skip(i + 1), b);
        assert(p.skip(i + 1) =~= a.skip(i + 1) + seq![SEPARATOR] + b);
        assert(p.take(i) =~= a.take(i));
        assert(steps(p) =~= step_of(a.take(i)) + (steps(a.skip(i + 1)) + steps(b)));
        assert(steps(a) + steps(b) =~= steps(p));
    } else {
        assert(p.take(i) =~= a);
        assert(p.skip(i + 1) =~= b);
    }
}

/// Splits a path into its components.
pub fn components(p: &[u8]) -> (r: Vec<Component<Vec<u8>>>)
    ensures
        component_views(r@) == components_of(p@),
{
    let mut out: Vec<Component<Vec<u8>>> = Vec::new();
    let len: usize = p.len();
    if len > 0 && p[0] == SEPARATOR {
        out.push(Component::RootDir);
    } else if len > 0 && p[0] == DOT && (len == 1 || p[1] == SEPARATOR) {
        out.push(Component::CurDir);
    }
    assert(component_views(out@) =~= lead(p@));
    let mut start: usize = 0;
    let mut done: bool = false;
    assert(p@.skip(0) =~= p@);
    while !done
        invariant
            len == p@.len(),
            0 <= start <= len,
            !done ==> component_views(out@) + steps(p@.skip(start as int)) == components_of(p@),
            done ==> component_views(out@) == components_of(p@),
        decreases (len - start) + (if done { 0int } else { 1int }),
    {
        let rest: &[u8] = slice_subrange(p, start, len);
        let n: usize = find_byte(rest, SEPARATOR);
        let segment: &[u8] = slice_subrange(rest, 0, n);
        let ghost before = component_views(out@);
        proof {
            lemma_first_index(rest@, SEPARATOR);
            assert(rest@ =~= p@.skip(start as int));
            assert(segment@ =~= rest@.take(n as int));
        }
        push_step(&mut out, segment);
        if n < rest.len() {
            proof {
                assert(rest@.skip(n + 1) =~= p@.skip(start + n + 1));
                assert(component_views(out@) + steps(p@.skip(start + n + 1)) =~= before + steps(
                    rest@,
                ));
            }
            start = start + n + 1;
        } else {
            assert(rest@.take(n as int) =~= rest@);
            done = true;
        }
    }
    out
}

/// Appends the step that `segment` stands for, if it counts.
fn push_step(out: &mut Vec<Component<Vec<u8>>>, segment: &[u8])
    ensures
        component_views(final(out)@) == component_views(old(out)@) + step_of(segment@),
{
    let n: usize = segment.len();
    if n == 0 || (n == 1 && segment[0] == DOT) {
        assert(n == 1 ==> segment@ =~= seq![DOT]);
        assert(component_views(out@) =~= component_views(old(out)@) + step_of(segment@));
        return;
    }
    assert(is_step(segment@));
    if n == 2 && segment[0] == DOT && segment[1] == DOT {
        assert(segment@ =~= seq![DOT, DOT]);
        out.push(Component::ParentDir);
    } else {
        out.push(Component::Normal(copy_bytes(segment)));
    }
    assert(component_views(out@) =~= component_views(old(out)@) + step_of(segment@));
}

/// The path that `tail` names when it is looked up from `base`: `tail` itself where it is
/// absolute, otherwise both with one separator between them, unless `base` is empty or
/// already ends in one.
pub open spec fn joined(base: Seq<u8>, tail: Seq<u8>) -> Seq<u8> {
    if is_absolute(tail) {
        tail
    } else if base.len() != 0 && base.last() != SEPARATOR {
        base + seq![SEPARATOR] + tail
    } else {
        base + tail
    }
}

/// Looks `tail` up from `base`.
pub fn join(base: &[u8], tail: &[u8]) -> (r: Vec<u8>)
    ensures
        r@ == joined(base@, tail@),
{
    if tail.len() > 0 && tail[0] == SEPARATOR {
        return copy_bytes(tail);
    }
    let mut out: Vec<u8> = copy_bytes(base);
    let n: usize = base.len();
    if n > 0 && base[n - 1] != SEPARATOR {
        out.push(SEPARATOR);
        assert(out@ =~= base@ + seq![SEPARATOR]);
    }
    append_bytes(&mut out, tail);
    out
}

/// The components of a joined path: those of an absolute tail alone; else those of the base
/// followed by the steps of the tail, the tail's own beginning counting only where the base is
/// empty.
pub proof fn law_joined_components(base: Seq<u8>, tail: Seq<u8>)
    ensures
        is_absolute(tail) || base.len() == 0 ==> components_of(joined(base, tail))
            == components_of(tail),
        !is_absolute(tail) && base.len() != 0 ==> components_of(joined(base, tail))
            == components_of(base) + steps(tail),
{
    let p = joined(base, tail);
    if !is_absolute(tail) {
        if base.len() == 0 {
            assert(p =~= tail);
        } else {
            if base.last() == SEPARATOR {
                let front = base.drop_last();
                let none = Seq::<u8>::empty();
                assert(base =~= front + seq![SEPARATOR] + none);
                assert(p =~= front + seq![SEPARATOR] + tail);
                lemma_steps_split(front, none);
                lemma_steps_split(front, tail);
                assert(steps(none) =~= Seq::empty());
                assert(steps(base) =~= steps(front));
            } else {
                lemma_steps_split(base, tail);
            }
            assert(lead(p) =~= lead(base));
            assert(components_of(p) =~= components_of(base) + steps(tail));
        }
    }
}

/// Whether `n` is the name of something in a directory, and not a way to another one.
pub open spec fn is_name(n: Seq<u8>) -> bool {
    &&& n.len() != 0
    &&& n != seq![DOT]
    &&& n != seq![DOT, DOT]
    &&& forall|j: int| 0 <= j < n.len() ==> n[j] != SEPARATOR
}

/// Each step of a path is `..` or a proper name.
pub proof fn law_steps(p: Seq<u8>, i: int)
    requires
        0 <= i < steps(p).len(),
    ensures
        match steps(p)[i] {
            Component::ParentDir => true,
            Component::Normal(n) => is_name(n),
            _ => false,
        },
    decreases p.len(),
{
    lemma_first_index(p, SEPARATOR);
    let k = first_index(p, SEPARATOR);
    if k < p.len() {
        let head = step_of(p.take(k));
        if i >= head.len() {
            assert(steps(p)[i] == steps(p.skip(k + 1))[i - head.len()]);
            law_steps(p.skip(k + 1), i - head.len());
        }
    }
}

/// The components of a path that are names are proper ones.
pub proof fn law_names(p: Seq<u8>, i: int)
    requires
        0 <= i < components_of(p).len(),
        components_of(p)[i] is Normal,
    ensures
        components_of(p)[i] matches Component::Normal(n) && is_name(n),
{
    let k = lead(p).len();
    if i >= k {
        law_steps(p, i - k);
    }
}

/// Looking a name up from a directory leads one step down from it.
pub proof fn law_joined_name(base: Seq<u8>, n: Seq<u8>)
    requires
        is_name(n),
    ensures
        components_of(joined(base, n)) == components_of(base).push(Component::Normal(n)),
{
    law_joined_components(base, n);
    lemma_steps_of_piece(n);
    assert(steps(n) =~= seq![Component::Normal(n)]);
    if n.len() == 1 && n[0] == DOT {
        assert(n =~= seq![DOT]);
    }
    assert(lead(n) =~= Seq::empty());
    if base.len() == 0 {
        law_no_components(base);
    }
    assert(components_of(joined(base, n)) =~= components_of(base).push(Component::Normal(n)));
}

/// Two separators in a row count as one.
pub proof fn law_doubled_separator(a: Seq<u8>, b: Seq<u8>)
    ensures
        components_of(a + seq![SEPARATOR, SEPARATOR] + b) == components_of(
            a + seq![SEPARATOR] + b,
        ),
{
    let none = Seq::<u8>::empty();
    let one = a + seq![SEPARATOR] + b;
    let two = a + seq![SEPARATOR, SEPARATOR] + b;
    let rest = none + seq![SEPARATOR] + b;
    assert(two =~= a + seq![SEPARATOR] + rest);
    lemma_steps_split(a, rest);
    lemma_steps_split(none, b);
    lemma_steps_split(a, b);
    lemma_steps_of_piece(none);
    assert(steps(two) =~= steps(one));
    assert(lead(two) =~= lead(one));
}

/// A `.` between separators counts for nothing.
pub proof fn law_dot_piece(a: Seq<u8>, b: Seq<u8>)
    ensures
        components_of(a + seq![SEPARATOR, DOT, SEPARATOR] + b) == components_of(
            a + seq![SEPARATOR] + b,
        ),
{
    let one = a + seq![SEPARATOR] + b;
    let two = a + seq![SEPARATOR, DOT, SEPARATOR] + b;
    let dot = seq![DOT];
    let rest = dot + seq![SEPARATOR] + b;
    assert(two =~= a + seq![SEPARATOR] + rest);
    lemma_steps_split(a, rest);
    lemma_steps_split(dot, b);
    lemma_steps_split(a, b);
    lemma_steps_of_piece(dot);
    assert(steps(two) =~= steps(one));
    assert(lead(two) =~= lead(one));
}

/// A separator at the end counts for nothing, unless there is nothing before it.
pub proof fn law_trailing_separator(a: Seq<u8>)
    requires
        a.len() != 0,
    ensures
        components_of(a.push(SEPARATOR)) == components_of(a),
{
    let none = Seq::<u8>::empty();
    assert(a.push(SEPARATOR) =~= a + seq![SEPARATOR] + none);
    lemma_steps_split(a, none);
    lemma_steps_of_piece(none);
    assert(steps(a.push(SEPARATOR)) =~= steps(a));
    assert(lead(a.push(SEPARATOR)) =~= lead(a));
}

/// A path has no components exactly when it is empty.
pub proof fn law_no_components(p: Seq<u8>)
    ensures
        components_of(p).len() == 0 <==> p.len() == 0,
{
    if p.len() != 0 && lead(p).len() == 0 {
        lemma_first_index(p, SEPARATOR);
        let i = first_index(p, SEPARATOR);
        let head = if i < p.len() {
            p.take(i)
        } else {
            p
        };
        assert(head[0] == p[0]);
        if head =~= seq![DOT] {
            assert(head.len() == 1);
        }
        assert(is_step(head));
    }
}

/// How much of the path its beginning takes: one byte for the root or for a leading `.`.
pub open spec fn lead_len(p: Seq<u8>) -> int {
    if is_absolute(p) || starts_at_current(p) {
        1
    } else {
        0
    }
}

/// Where the last piece of `p[from..to]` begins.
pub open spec fn piece_start(p: Seq<u8>, from: int, to: int) -> int
    decreases to - from,
{
    if to <= from {
        from
    } else if p[to - 1] == SEPARATOR {
        to
    } else {
        piece_start(p, from, to - 1)
    }
}

/// The end of what is left of `p[from..to]` once its last piece, and the separator before it,
/// are taken off.
pub open spec fn before_piece(p: Seq<u8>, from: int, to: int) -> int {
    let b = piece_start(p, from, to);
    if b > from {
        b - 1
    } else {
        from
    }
}

/// The end of the last piece of `p[from..to]` that counts as a step.
pub open spec fn last_step_end(p: Seq<u8>, from: int, to: int) -> int
    decreases to - from,
    when from <= to
{
    let b = piece_start(p, from, to);
    if to == from {
        from
    } else if is_step(p.subrange(b, to)) {
        to
    } else if from <= before_piece(p, from, to) < to {
        last_step_end(p, from, before_piece(p, from, to))
    } else {
        from
    }
}

/// The path without its last component. The root has none, and neither has an empty path.
pub open spec fn parent_of(p: Seq<u8>) -> Option<Seq<u8>> {
    let from = lead_len(p);
    let end = last_step_end(p, from, p.len() as int);
    if end > from {
        Some(p.take(last_step_end(p, from, before_piece(p, from, end))))
    } else if starts_at_current(p) {
        Some(p.take(0))
    } else {
        None
    }
}

/// A place where a path can be cut without cutting a name: its end, a separator, or the end of
/// its beginning.
spec fn is_cut(p: Seq<u8>, k: int) -> bool {
    lead_len(p) <= k <= p.len() && (k == p.len() || k == lead_len(p) || p[k] == SEPARATOR)
}

proof fn lemma_piece_start(p: Seq<u8>, from: int, to: int)
    requires
        0 <= from <= to <= p.len(),
    ensures
        from <= piece_start(p, from, to) <= to,
        forall|j: int| piece_start(p, from, to) <= j < to ==> p[j] != SEPARATOR,
        piece_start(p, from, to) > from ==> p[piece_start(p, from, to) - 1] == SEPARATOR,
    decreases to - from,
{
    if to > from && p[to - 1] != SEPARATOR {
        lemma_piece_start(p, from, to - 1);
    }
}

proof fn lemma_piece_start_is(p: Seq<u8>, from: int, to: int, b: int)
    requires
        0 <= from <= b <= to <= p.len(),
        forall|j: int| b <= j < to ==> p[j] != SEPARATOR,
        b > from ==> p[b - 1] == SEPARATOR,
    ensures
        piece_start(p, from, to) == b,
    decreases to - from,
{
    if to > b {
        lemma_piece_start_is(p, from, to - 1, b);
    }
}

pub proof fn lemma_steps_of_piece(s: Seq<u8>)
    requires
        forall|j: int| 0 <= j < s.len() ==> s[j] != SEPARATOR,
    ensures
        steps(s) == step_of(s),
{
    lemma_first_index_is(s, SEPARATOR, s.len() as int);
}

/// The beginning of a path is also that of each of its cuts.
proof fn lemma_cut_lead(p: Seq<u8>, k: int)
    requires
        is_cut(p, k),
    ensures
        lead(p.take(k)) == lead(p),
{
    let q = p.take(k);
    if k > 0 {
        assert(q[0] == p[0]);
    }
    if k > 1 {
        assert(q[1] == p[1]);
    }
    assert(lead(q) =~= lead(p));
}

/// Taking off the last piece of a cut path takes off the step that it stands for.
proof fn lemma_cut_piece(p: Seq<u8>, to: int)
    requires
        is_cut(p, to),
        to > lead_len(p),
    ensures
        is_cut(p, before_piece(p, lead_len(p), to)),
        before_piece(p, lead_len(p), to) < to,
        components_of(p.take(to)) == components_of(p.take(before_piece(p, lead_len(p), to)))
            + step_of(p.subrange(piece_start(p, lead_len(p), to), to)),
{
    let from = lead_len(p);
    let b = piece_start(p, from, to);
    let m = before_piece(p, from, to);
    lemma_piece_start(p, from, to);
    let piece = p.subrange(b, to);
    let none = Seq::<u8>::empty();
    lemma_steps_of_piece(piece);
    lemma_steps_of_piece(none);
    assert(steps(none) =~= Seq::empty());
    lemma_cut_lead(p, to);
    lemma_cut_lead(p, m);
    if b > from {
        assert(p.take(to) =~= p.take(b - 1) + seq![SEPARATOR] + piece);
        lemma_steps_split(p.take(b - 1), piece);
    } else if from == 0 {
        assert(p.take(to) =~= piece);
        assert(p.take(0) =~= none);
    } else {
        assert(is_absolute(p));
        assert(p.take(to) =~= none + seq![SEPARATOR] + piece);
        assert(p.take(1) =~= none + seq![SEPARATOR] + none);
        lemma_steps_split(none, piece);
        lemma_steps_split(none, none);
    }
    assert(steps(p.take(to)) =~= steps(p.take(m)) + step_of(piece));
    assert(components_of(p.take(to)) =~= components_of(p.take(m)) + step_of(piece));
}

/// Pieces that count for nothing can be taken off the end.
proof fn lemma_last_step_end(p: Seq<u8>, to: int)
    requires
        is_cut(p, to),
    ensures
        is_cut(p, last_step_end(p, lead_len(p), to)),
        last_step_end(p, lead_len(p), to) <= to,
        components_of(p.take(last_step_end(p, lead_len(p), to))) == components_of(p.take(to)),
        last_step_end(p, lead_len(p), to) > lead_len(p) ==> is_step(
            p.subrange(
                piece_start(p, lead_len(p), last_step_end(p, lead_len(p), to)),
                last_step_end(p, lead_len(p), to),
            ),
        ),
    decreases to,
{
    let from = lead_len(p);
    if to > from {
        let b = piece_start(p, from, to);
        lemma_cut_piece(p, to);
        lemma_piece_start(p, from, to);
        if !is_step(p.subrange(b, to)) {
            let m = before_piece(p, from, to);
            lemma_last_step_end(p, m);
            assert(components_of(p.take(to)) =~= components_of(p.take(m)));
        }
    }
}

/// The parent of a path is what is left of it when its last component is dropped; only the root
/// and the empty path have none. It is a beginning of the path, and shorter.
pub proof fn law_parent(p: Seq<u8>)
    ensures
        parent_of(p) is None <==> p.len() == 0 || components_of(p) == seq![
            Component::<Seq<u8>>::RootDir,
        ],
        parent_of(p) matches Some(q) ==> {
            &&& q.len() < p.len()
            &&& q == p.take(q.len() as int)
            &&& components_of(p).len() > 0
            &&& components_of(q) == components_of(p).drop_last()
        },
        steps(p).len() != 0 ==> {
            &&& parent_of(p) matches Some(q)
            &&& lead(q) == lead(p)
            &&& steps(q) == steps(p).drop_last()
        },
        steps(p).len() == 0 ==> (parent_of(p) matches Some(q) ==> q.len() == 0
            && starts_at_current(p)),
{
    let from = lead_len(p);
    let n = p.len() as int;
    assert(p.take(n) =~= p);
    lemma_last_step_end(p, n);
    let end = last_step_end(p, from, n);
    if end > from {
        lemma_cut_piece(p, end);
        let m = before_piece(p, from, end);
        lemma_last_step_end(p, m);
        let k = last_step_end(p, from, m);
        lemma_cut_lead(p, k);
        lemma_cut_lead(p, end);
        lemma_cut_lead(p, n);
        assert(lead(p.take(end)) + steps(p.take(end)) == lead(p) + steps(p));
        assert(steps(p.take(end)) =~= components_of(p.take(end)).skip(lead(p).len() as int));
        assert(steps(p) =~= components_of(p).skip(lead(p).len() as int));
        assert(steps(p.take(k)) =~= components_of(p.take(k)).skip(lead(p).len() as int));
        assert(components_of(p).len() > lead(p).len()) by {
            let piece = p.subrange(piece_start(p, from, end), end);
            assert(step_of(piece).len() == 1);
        }
        assert(steps(p.take(k)) =~= steps(p).drop_last());
        assert(components_of(p).drop_last() =~= components_of(p.take(k)));
        assert(components_of(p) != seq![Component::<Seq<u8>>::RootDir]) by {
            if components_of(p) == seq![Component::<Seq<u8>>::RootDir] {
                assert(components_of(p).last() is RootDir);
            }
        }
    } else {
        assert(steps(p.take(from)) =~= Seq::empty()) by {
            let none = Seq::<u8>::empty();
            lemma_steps_of_piece(none);
            if is_absolute(p) {
                assert(p.take(1) =~= none + seq![SEPARATOR] + none);
                lemma_steps_split(none, none);
            } else if starts_at_current(p) {
                assert(p.take(1) =~= seq![DOT]);
                lemma_steps_of_piece(p.take(1));
            } else {
                assert(p.take(0) =~= none);
            }
        }
        lemma_cut_lead(p, from);
        assert(components_of(p) =~= lead(p));
        law_no_components(p);
        if starts_at_current(p) {
            assert(p.take(0) =~= Seq::empty());
            law_no_components(p.take(0));
            assert(components_of(p.take(0)) =~= components_of(p).drop_last());
            assert(components_of(p)[0] is CurDir);
        }
    }
}

/// A parent ends in a step, or holds none.
pub proof fn lemma_parent_end(p: Seq<u8>)
    ensures
        parent_of(p) matches Some(q) ==> q.len() <= 1 || q.last() != SEPARATOR,
{
    let from = lead_len(p);
    let n = p.len() as int;
    lemma_last_step_end(p, n);
    let end = last_step_end(p, from, n);
    if end > from {
        lemma_cut_piece(p, end);
        let m = before_piece(p, from, end);
        lemma_last_step_end(p, m);
        let k = last_step_end(p, from, m);
        if k > from {
            lemma_piece_start(p, from, k);
            let b = piece_start(p, from, k);
            assert(p.subrange(b, k).len() > 0);
            assert(p[k - 1] != SEPARATOR);
        }
    }
}

/// The end of the last piece of `p[from..to]` that counts as a step.
fn find_last_step(p: &[u8], from: usize, to: usize) -> (r: usize)
    requires
        from <= to <= p@.len(),
    ensures
        from <= r <= to,
        r == last_step_end(p@, from as int, to as int),
{
    let mut end: usize = to;
    while end > from
        invariant
            from <= end <= to <= p@.len(),
            last_step_end(p@, from as int, to as int) == last_step_end(p@, from as int, end as int),
        decreases end,
    {
        let b: usize = find_piece(p, from, end);
        let ghost piece = p@.subrange(b as int, end as int);
        if end > b && !(end - b == 1 && p[b] == DOT) {
            assert(is_step(piece)) by {
                if piece =~= seq![DOT] {
                    assert(piece[0] == p@[b as int]);
                }
            }
            return end;
        }
        assert(!is_step(piece)) by {
            if piece.len() != 0 {
                assert(piece =~= seq![DOT]);
            }
        }
        end = if b > from { b - 1 } else { from };
    }
    end
}

/// Where the last piece of `p[from..to]` begins.
fn find_piece(p: &[u8], from: usize, to: usize) -> (b: usize)
    requires
        from <= to <= p@.len(),
    ensures
        from <= b <= to,
        b == piece_start(p@, from as int, to as int),
{
    let mut b: usize = to;
    while b > from && p[b - 1] != SEPARATOR
        invariant
            from <= b <= to <= p@.len(),
            forall|j: int| b <= j < to ==> p@[j] != SEPARATOR,
        decreases b,
    {
        b = b - 1;
    }
    proof {
        lemma_piece_start_is(p@, from as int, to as int, b as int);
    }
    b
}

/// The path without its last component, if it has one that can be dropped.
pub fn parent(p: &[u8]) -> (r: Option<&[u8]>)
    ensures
        r is Some <==> parent_of(p@) is Some,
        r matches Some(q) ==> parent_of(p@) == Some(q@),
{
    let n: usize = p.len();
    let current: bool = n > 0 && p[0] == DOT && (n == 1 || p[1] == SEPARATOR);
    let from: usize = if current || (n > 0 && p[0] == SEPARATOR) { 1 } else { 0 };
    let end: usize = find_last_step(p, from, n);
    if end > from {
        let b: usize = find_piece(p, from, end);
        let m: usize = if b > from { b - 1 } else { from };
        let k: usize = find_last_step(p, from, m);
        Some(slice_subrange(p, 0, k))
    } else if current {
        Some(slice_subrange(p, 0, 0))
    } else {
        None
    }
}

} // verus!
