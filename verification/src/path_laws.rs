//! What holds of paths, said of their bytes.
use crate::bytes::lemma_first_index_is;
use crate::host::{path_on, verbatim_mark, with_separators, with_separators_on, Host};
use crate::host_path::{
    components_on, device_mark, has_drive, head_len, is_inside, is_settled, law_parent_on,
    law_prefix_len, lemma_verbatim_drive, looked_up, parent_on, piece_len, prefix_len,
    step_up, verbatim_share_mark, walked,
};
use crate::path::{
    components_of, joined, law_no_components, law_parent, law_steps, lead, lemma_parent_end,
    lemma_steps_of_piece, lemma_steps_split, parent_of, steps, Component,
};
use vstd::prelude::*;
use vstd::utf8::valid_utf8;

verus! {

/// Pieces in a row, with a separator between each two.
pub open spec fn row(pieces: Seq<Seq<u8>>) -> Seq<u8>
    decreases pieces.len(),
{
    if pieces.len() == 0 {
        Seq::empty()
    } else if pieces.len() == 1 {
        pieces[0]
    } else {
        row(pieces.drop_last()) + seq![0x2fu8] + pieces.last()
    }
}

/// Whether no piece holds a separator.
pub open spec fn are_pieces(pieces: Seq<Seq<u8>>) -> bool {
    forall|i: int, j: int|
        0 <= i < pieces.len() && 0 <= j < pieces[i].len() ==> #[trigger] pieces[i][j] != 0x2f
}

/// What a piece means in a path: nothing where it is empty or `.`, the parent where it is `..`, and
/// otherwise a name.
pub open spec fn meaning(piece: Seq<u8>) -> Option<Component<Seq<u8>>> {
    if piece =~= Seq::empty() || piece =~= seq![0x2eu8] {
        None
    } else if piece =~= seq![0x2eu8, 0x2eu8] {
        Some(Component::ParentDir)
    } else {
        Some(Component::Normal(piece))
    }
}

/// What the first bytes of a path mean: the root for a separator, the current directory for a `.`
/// that stands alone.
pub open spec fn opening(p: Seq<u8>) -> Seq<Component<Seq<u8>>> {
    if p.len() > 0 && p[0] == 0x2f {
        seq![Component::RootDir]
    } else if p =~= seq![0x2eu8] || (p.len() > 1 && p[0] == 0x2e && p[1] == 0x2f) {
        seq![Component::CurDir]
    } else {
        Seq::empty()
    }
}

/// The components of a path are what its first bytes mean, and then what its pieces mean, each of
/// them in its order and whatever bytes it is made of.
pub proof fn law_components(pieces: Seq<Seq<u8>>, host: Host)
    requires
        pieces.len() > 0,
        are_pieces(pieces),
        !(host is Windows),
    ensures
        components_on(row(pieces), host) == opening(row(pieces)) + pieces.filter_map(
            |piece: Seq<u8>| meaning(piece),
        ),
{
    lemma_row_steps(pieces);
    let p = row(pieces);
    assert(lead(p) =~= opening(p)) by {
        if p.len() == 1 && p[0] == 0x2e {
            assert(p =~= seq![0x2eu8]);
        }
    }
}

proof fn lemma_row_steps(pieces: Seq<Seq<u8>>)
    requires
        pieces.len() > 0,
        are_pieces(pieces),
    ensures
        steps(row(pieces)) == pieces.filter_map(|piece: Seq<u8>| meaning(piece)),
    decreases pieces.len(),
{
    let f = |piece: Seq<u8>| meaning(piece);
    let last = pieces.last();
    let n = pieces.len() - 1;
    assert forall|j: int| 0 <= j < last.len() implies last[j] != 0x2f by {
        assert(pieces[n][j] != 0x2f);
    }
    lemma_steps_of_piece(last);
    let front = pieces.drop_last();
    if pieces.len() == 1 {
        assert(front =~= Seq::empty());
        assert(front.filter_map(f) =~= Seq::empty());
    } else {
        assert forall|i: int, j: int|
            0 <= i < front.len() && 0 <= j < front[i].len() implies #[trigger] front[i][j]
            != 0x2f by {
            assert(pieces[i][j] != 0x2f);
        }
        lemma_row_steps(front);
        lemma_steps_split(row(front), last);
    }
    assert(steps(row(pieces)) =~= pieces.filter_map(f));
}

/// Looking a path up from another puts the one behind the other, with a separator between them only
/// where there is something before it that does not end in one. An absolute path stays as it is.
pub proof fn law_joined_text(base: Seq<u8>, tail: Seq<u8>)
    ensures
        tail.len() > 0 && tail[0] == 0x2f ==> joined(base, tail) == tail,
        !(tail.len() > 0 && tail[0] == 0x2f) ==> {
            let all = joined(base, tail);
            &&& base.is_prefix_of(all)
            &&& tail.is_suffix_of(all)
            &&& all.len() == base.len() + tail.len() + (if base.len() > 0 && base[base.len() - 1]
                != 0x2f {
                1int
            } else {
                0
            })
            &&& all.len() > base.len() + tail.len() ==> all[base.len() as int] == 0x2f
        },
{
    if !(tail.len() > 0 && tail[0] == 0x2f) {
        let all = joined(base, tail);
        assert(all.take(base.len() as int) =~= base);
        assert(all.subrange(all.len() - tail.len(), all.len() as int) =~= tail);
    }
}

/// On all hosts but Windows a path is looked up by its bytes alone.
pub proof fn law_looked_up_text(base: Seq<u8>, tail: Seq<u8>, host: Host)
    requires
        !(host is Windows),
    ensures
        tail.len() > 0 && tail[0] == 0x2f ==> looked_up(base, tail, host) == tail,
        !(tail.len() > 0 && tail[0] == 0x2f) ==> {
            let all = looked_up(base, tail, host);
            &&& base.is_prefix_of(all)
            &&& tail.is_suffix_of(all)
            &&& all.len() == base.len() + tail.len() + (if base.len() > 0 && base[base.len() - 1]
                != 0x2f {
                1int
            } else {
                0
            })
            &&& all.len() > base.len() + tail.len() ==> all[base.len() as int] == 0x2f
        },
{
    law_joined_text(base, tail);
}

/// A path lies in another when its first components are those of the other, as many as that has.
pub proof fn law_inside(p: Seq<u8>, base: Seq<u8>, host: Host)
    ensures
        is_inside(p, base, host) <==> {
            let n = components_on(base, host).len();
            &&& n <= components_on(p, host).len()
            &&& forall|i: int|
                0 <= i < n ==> #[trigger] components_on(p, host)[i] == components_on(base, host)[i]
        },
{
    let n = components_on(base, host).len();
    if n <= components_on(p, host).len() {
        let front = components_on(p, host).take(n as int);
        if forall|i: int|
            0 <= i < n ==> #[trigger] components_on(p, host)[i] == components_on(base, host)[i] {
            assert(components_on(base, host) =~= front);
        }
        if is_inside(p, base, host) {
            assert(components_on(base, host) =~= front);
        }
    }
}

/// The bytes of a path are those of the name that it stands for, with a `/` in the place of each `\`,
/// and no others; on Windows the `\\?\` at the beginning of one stays. A name stands for a path
/// wherever it is Unicode, and elsewhere than on Windows always.
pub proof fn law_path_bytes(name: Seq<u8>, host: Host)
    ensures
        !(host is Windows) || valid_utf8(name) <==> path_on(name, host) is Ok,
        path_on(name, host) matches Ok(p) ==> {
            let kept = host is Windows && name.len() >= 4 && name[0] == 0x5c && name[1] == 0x5c
                && name[2] == 0x3f && name[3] == 0x5c;
            &&& p.len() == name.len()
            &&& forall|i: int|
                0 <= i < name.len() ==> #[trigger] p[i] == (if name[i] == 0x5c && !(kept && i < 4) {
                    0x2f
                } else {
                    name[i]
                })
        },
        path_on(name, host) matches Err(e) ==> e.kind is Other && e.causes.len() == 0,
        with_separators(name).len() == name.len(),
        forall|i: int|
            0 <= i < name.len() ==> #[trigger] with_separators(name)[i] == (if name[i] == 0x5c {
                0x2f
            } else {
                name[i]
            }),
{
    let mark = verbatim_mark();
    let kept = host is Windows && name.len() >= 4 && name[0] == 0x5c && name[1] == 0x5c && name[2]
        == 0x3f && name[3] == 0x5c;
    assert(mark.is_prefix_of(name) <==> name.len() >= 4 && name[0] == 0x5c && name[1] == 0x5c
        && name[2] == 0x3f && name[3] == 0x5c) by {
        if mark.is_prefix_of(name) {
            assert(mark[0] == name[0] && mark[1] == name[1] && mark[2] == name[2] && mark[3]
                == name[3]);
        } else if name.len() >= 4 {
            if name[0] == 0x5c && name[1] == 0x5c && name[2] == 0x3f && name[3] == 0x5c {
                assert(name.take(4) =~= mark);
            }
        }
    }
    let p = with_separators_on(name, host);
    assert forall|i: int| 0 <= i < name.len() implies #[trigger] p[i] == (if name[i] == 0x5c && !(
    kept && i < 4) {
        0x2f
    } else {
        name[i]
    }) by {
        if kept && i >= 4 {
            assert(p[i] == with_separators(name.skip(4))[i - 4]);
        }
    }
}

/// A parent ends in a name or in a `..`, or it is no more than a root, a `.` or nothing.
pub proof fn law_parent_ends(p: Seq<u8>)
    ensures
        parent_of(p) matches Some(q) ==> q.len() <= 1 || q[q.len() - 1] != 0x2f,
{
    lemma_parent_end(p);
}

/// A path has a parent exactly when its last component is none that it must begin with: a name, a
/// `..` or a `.`.
pub proof fn law_has_parent(p: Seq<u8>, host: Host)
    ensures
        parent_on(p, host) is Some <==> {
            &&& components_on(p, host).len() > 0
            &&& !(components_on(p, host).last() is RootDir)
            &&& !(components_on(p, host).last() is Prefix)
        },
{
    let k = head_len(p, host);
    law_prefix_len(p);
    let rest = p.skip(k);
    let all = components_on(p, host);
    if k == 0 {
        assert(rest =~= p);
    }
    law_parent(rest);
    law_no_components(rest);
    if steps(rest).len() > 0 {
        law_steps(rest, steps(rest).len() - 1);
        assert(all.last() == steps(rest).last());
        if k > 0 {
            let above = parent_of(rest)->0;
            assert(lead(above) == lead(rest));
            if above.len() == 0 {
                assert(lead(above) =~= Seq::empty());
            }
        }
    } else {
        assert(components_of(rest) =~= lead(rest));
        if k == 0 {
            if all.len() > 0 && all.last() is RootDir {
                assert(all =~= seq![Component::RootDir]);
            }
        }
    }
}

/// A letter and a colon are a drive, and the rest of the path begins behind them.
pub proof fn law_drive(letter: u8, rest: Seq<u8>)
    requires
        0x41 <= letter <= 0x5a || 0x61 <= letter <= 0x7a,
    ensures
        head_len(seq![letter, 0x3au8] + rest, Host::Windows) == 2,
        components_on(seq![letter, 0x3au8] + rest, Host::Windows) == seq![
            Component::Prefix(seq![letter, 0x3au8]),
        ] + (if rest.len() > 0 && rest[0] == 0x2f {
            seq![Component::RootDir]
        } else {
            Seq::empty()
        }) + steps(rest),
{
    let head = seq![letter, 0x3au8];
    let p = head + rest;
    assert(p.take(2) =~= head);
    assert(p.skip(2) =~= rest);
    assert(!verbatim_mark().is_prefix_of(p)) by {
        if verbatim_mark().is_prefix_of(p) {
            assert(verbatim_mark()[0] == p[0]);
        }
    }
}

/// Two separators and two names are a share, whatever follows from a separator on.
pub proof fn law_share(server: Seq<u8>, share: Seq<u8>, rest: Seq<u8>)
    requires
        server.len() > 0,
        share.len() > 0,
        forall|i: int| 0 <= i < server.len() ==> #[trigger] server[i] != 0x2f,
        forall|i: int| 0 <= i < share.len() ==> #[trigger] share[i] != 0x2f,
        rest.len() > 0 ==> rest[0] == 0x2f,
    ensures
        ({
            let head = seq![0x2fu8, 0x2fu8] + server + seq![0x2fu8] + share;
            &&& head_len(head + rest, Host::Windows) == head.len()
            &&& components_on(head + rest, Host::Windows) == seq![
                Component::Prefix(head),
                Component::RootDir,
            ] + steps(rest)
        }),
{
    let head = seq![0x2fu8, 0x2fu8] + server + seq![0x2fu8] + share;
    let p = head + rest;
    let s = server.len() as int;
    assert(p[0] == 0x2f && p[1] == 0x2f);
    assert forall|x: int| 2 <= x < 2 + s implies #[trigger] p[x] != 0x2f by {
        assert(p[x] == server[x - 2]);
    }
    assert(p[2 + s] == 0x2f);
    assert forall|x: int| 3 + s <= x < 3 + s + share.len() implies #[trigger] p[x] != 0x2f by {
        assert(p[x] == share[x - 3 - s]);
    }
    lemma_piece_is(p, 2, s);
    lemma_piece_is(p, 3 + s, share.len() as int);
    assert(!verbatim_mark().is_prefix_of(p)) by {
        if verbatim_mark().is_prefix_of(p) {
            assert(verbatim_mark()[0] == p[0]);
        }
    }
    assert(!verbatim_share_mark().is_prefix_of(p)) by {
        if verbatim_share_mark().is_prefix_of(p) {
            assert(verbatim_share_mark()[0] == p[0]);
        }
    }
    if device_mark().is_prefix_of(p) {
        assert(device_mark()[2] == p[2]);
        assert(device_mark()[3] == p[3]);
        assert(server[0] == p[2]);
        if s > 1 {
            assert(p[3] == server[1]);
        }
        assert(s == 1);
    }
    assert(prefix_len(p) == head.len());
    assert(p.take(head.len() as int) =~= head);
    assert(p.skip(head.len() as int) =~= rest);
    assert(components_on(p, Host::Windows) =~= seq![
        Component::Prefix(head),
        Component::RootDir,
    ] + steps(rest));
}

proof fn lemma_piece_is(p: Seq<u8>, from: int, n: int)
    requires
        0 <= from,
        0 < n,
        from + n <= p.len(),
        forall|x: int| from <= x < from + n ==> #[trigger] p[x] != 0x2f,
        from + n < p.len() ==> p[from + n] == 0x2f,
    ensures
        piece_len(p, from) == n,
{
    let part = p.skip(from);
    assert forall|j: int| 0 <= j < n implies part[j] != 0x2f by {
        assert(part[j] == p[from + j]);
    }
    lemma_first_index_is(part, 0x2f, n);
}

/// A path that begins neither with a drive, nor with two separators, nor with `\\?\`, has no prefix;
/// and no path has one elsewhere than on Windows.
pub proof fn law_no_prefix(p: Seq<u8>, host: Host)
    ensures
        !(host is Windows) ==> head_len(p, host) == 0 && components_on(p, host) == components_of(p),
        !(p.len() >= 2 && p[1] == 0x3a) && !(p.len() >= 2 && p[0] == 0x2f && p[1] == 0x2f) && !(
        p.len() >= 1 && p[0] == 0x5c) ==> head_len(p, host) == 0 && components_on(p, host)
            == components_of(p),
{
    let marks = seq![
        verbatim_mark(),
        verbatim_share_mark(),
        device_mark(),
    ];
    if marks[0].is_prefix_of(p) {
        assert(marks[0][0] == p[0]);
    }
    if marks[1].is_prefix_of(p) {
        assert(marks[1][0] == p[0]);
    }
    if marks[2].is_prefix_of(p) {
        assert(marks[2][0] == p[0] && marks[2][1] == p[1]);
    }
}

/// What follows `\\?\` up to a separator is a prefix with it, and the rest of the path begins behind.
pub proof fn law_verbatim(name: Seq<u8>, rest: Seq<u8>)
    requires
        name.len() > 0,
        forall|i: int| 0 <= i < name.len() ==> #[trigger] name[i] != 0x2f,
        rest.len() > 0 ==> rest[0] == 0x2f,
        name != seq![0x55u8, 0x4e, 0x43] || rest.len() == 0,
    ensures
        ({
            let head = seq![0x5cu8, 0x5c, 0x3f, 0x5c] + name;
            &&& head_len(head + rest, Host::Windows) == head.len()
            &&& components_on(head + rest, Host::Windows) == seq![Component::Prefix(head)] + (
            if rest.len() > 0 {
                seq![Component::RootDir]
            } else {
                Seq::empty()
            }) + steps(rest)
        }),
{
    let mark = seq![0x5cu8, 0x5c, 0x3f, 0x5c];
    let head = mark + name;
    let p = head + rest;
    let n = name.len() as int;
    assert(verbatim_mark() =~= mark);
    assert(p.take(4) =~= mark);
    assert(mark.is_prefix_of(p));
    assert(p[0] == 0x5c && p[1] == 0x5c);
    assert forall|x: int| 4 <= x < 4 + n implies #[trigger] p[x] != 0x2f by {
        assert(p[x] == name[x - 4]);
    }
    lemma_piece_is(p, 4, n);
    let share = verbatim_share_mark();
    assert(!share.is_prefix_of(p)) by {
        if share.is_prefix_of(p) {
            assert(share[4] == p[4] && share[5] == p[5] && share[6] == p[6] && share[7] == p[7]);
            assert(p[7] == 0x2f);
            if n > 3 {
                assert(p[7] == name[3]);
            }
            if n < 3 {
                assert(p[4 + n] == 0x2f);
            }
            assert(n == 3);
            assert(name[0] == p[4] && name[1] == p[5] && name[2] == p[6]);
            assert(name =~= seq![0x55u8, 0x4e, 0x43]);
        }
    }
    assert(prefix_len(p) == head.len());
    assert(p.take(head.len() as int) =~= head);
    assert(p.skip(head.len() as int) =~= rest);
    assert(components_on(p, Host::Windows) =~= seq![Component::Prefix(head)] + (if rest.len() > 0 {
        seq![Component::RootDir]
    } else {
        Seq::empty()
    }) + steps(rest));
}

/// Behind `\\?\UNC/` two names are a share.
pub proof fn law_verbatim_share(server: Seq<u8>, share: Seq<u8>, rest: Seq<u8>)
    requires
        server.len() > 0,
        share.len() > 0,
        forall|i: int| 0 <= i < server.len() ==> #[trigger] server[i] != 0x2f,
        forall|i: int| 0 <= i < share.len() ==> #[trigger] share[i] != 0x2f,
        rest.len() > 0 ==> rest[0] == 0x2f,
    ensures
        ({
            let head = seq![0x5cu8, 0x5c, 0x3f, 0x5c, 0x55, 0x4e, 0x43, 0x2f] + server + seq![0x2fu8]
                + share;
            &&& head_len(head + rest, Host::Windows) == head.len()
            &&& components_on(head + rest, Host::Windows) == seq![Component::Prefix(head)] + (
            if rest.len() > 0 {
                seq![Component::RootDir]
            } else {
                Seq::empty()
            }) + steps(rest)
        }),
{
    let mark = seq![0x5cu8, 0x5c, 0x3f, 0x5c, 0x55, 0x4e, 0x43, 0x2f];
    let head = mark + server + seq![0x2fu8] + share;
    let p = head + rest;
    let s = server.len() as int;
    assert(verbatim_share_mark() =~= mark);
    assert(p.take(8) =~= mark);
    assert(mark.is_prefix_of(p));
    assert(p[0] == 0x5c && p[1] == 0x5c);
    assert forall|x: int| 8 <= x < 8 + s implies #[trigger] p[x] != 0x2f by {
        assert(p[x] == server[x - 8]);
    }
    assert(p[8 + s] == 0x2f);
    assert forall|x: int| 9 + s <= x < 9 + s + share.len() implies #[trigger] p[x] != 0x2f by {
        assert(p[x] == share[x - 9 - s]);
    }
    lemma_piece_is(p, 8, s);
    lemma_piece_is(p, 9 + s, share.len() as int);
    assert(p.take(head.len() as int) =~= head);
    assert(p.skip(head.len() as int) =~= rest);
    assert(verbatim_mark().is_prefix_of(p)) by {
        assert(verbatim_mark() =~= p.take(4));
    }
    assert(components_on(p, Host::Windows) =~= seq![Component::Prefix(head)] + (if rest.len() > 0 {
        seq![Component::RootDir]
    } else {
        Seq::empty()
    }) + steps(rest));
}

/// Two separators without two names behind them are no share.
pub proof fn law_unfinished_share(server: Seq<u8>, rest: Seq<u8>)
    requires
        forall|i: int| 0 <= i < server.len() ==> #[trigger] server[i] != 0x2f,
        server != seq![0x2eu8],
    ensures
        head_len(seq![0x2fu8, 0x2fu8] + server, Host::Windows) == 0,
        head_len(seq![0x2fu8, 0x2fu8] + server + seq![0x2fu8, 0x2fu8] + rest, Host::Windows) == 0,
        head_len(seq![0x2fu8, 0x2fu8, 0x2fu8] + rest, Host::Windows) == 0,
{
    lemma_no_share(server, Seq::empty());
    assert(seq![0x2fu8, 0x2fu8] + server + Seq::empty() =~= seq![0x2fu8, 0x2fu8] + server);
    lemma_no_share(server, seq![0x2fu8, 0x2fu8] + rest);
    assert(seq![0x2fu8, 0x2fu8] + server + (seq![0x2fu8, 0x2fu8] + rest) =~= seq![0x2fu8, 0x2fu8]
        + server + seq![0x2fu8, 0x2fu8] + rest);
    let p = seq![0x2fu8, 0x2fu8, 0x2fu8] + rest;
    lemma_double_only(p);
    let part = p.skip(2);
    assert(part[0] == 0x2f);
    lemma_first_index_is(part, 0x2f, 0);
}

/// A path that begins with two separators, and not as that of a device, begins with nothing else.
proof fn lemma_double_only(p: Seq<u8>)
    requires
        p.len() >= 2,
        p[0] == 0x2f && p[1] == 0x2f,
        p.len() >= 4 ==> !(p[2] == 0x2e && p[3] == 0x2f),
    ensures
        !verbatim_mark().is_prefix_of(p),
        !verbatim_share_mark().is_prefix_of(p),
        !device_mark().is_prefix_of(p),
        !has_drive(p),
{
    let a = verbatim_mark();
    let b = verbatim_share_mark();
    let c = device_mark();
    if a.is_prefix_of(p) {
        assert(a[0] == p[0]);
    }
    if b.is_prefix_of(p) {
        assert(b[0] == p[0]);
    }
    if c.is_prefix_of(p) {
        assert(c[2] == p[2] && c[3] == p[3]);
    }
}

proof fn lemma_no_share(server: Seq<u8>, rest: Seq<u8>)
    requires
        forall|i: int| 0 <= i < server.len() ==> #[trigger] server[i] != 0x2f,
        server != seq![0x2eu8],
        rest.len() == 0 || rest.len() >= 2 && rest[0] == 0x2f && rest[1] == 0x2f,
    ensures
        prefix_len(seq![0x2fu8, 0x2fu8] + server + rest) == 0,
{
    let p = seq![0x2fu8, 0x2fu8] + server + rest;
    let s = server.len() as int;
    assert forall|x: int| 2 <= x < 2 + s implies #[trigger] p[x] != 0x2f by {
        assert(p[x] == server[x - 2]);
    }
    if p.len() >= 4 && p[2] == 0x2e && p[3] == 0x2f {
        if s >= 2 {
            assert(p[3] == server[1]);
        }
        if s == 0 {
            assert(p[2] == rest[0]);
        }
        assert(server[0] == p[2]);
        assert(server =~= seq![0x2eu8]);
    }
    lemma_double_only(p);
    if s > 0 {
        lemma_piece_is(p, 2, s);
        if rest.len() > 0 {
            assert(p[2 + s + 1] == rest[1]);
            let part = p.skip(2 + s + 1);
            assert(part[0] == 0x2f);
            lemma_first_index_is(part, 0x2f, 0);
        }
    } else if rest.len() > 0 {
        let part = p.skip(2);
        assert(part[0] == rest[0]);
        lemma_first_index_is(part, 0x2f, 0);
    }
}

/// How paths are looked up on Windows: one with a prefix by itself; one with a root alone from the
/// root of what the other has as a prefix; and from a bare drive without a separator.
pub proof fn law_looked_up_on_windows(base: Seq<u8>, tail: Seq<u8>)
    ensures
        head_len(tail, Host::Windows) > 0 ==> looked_up(base, tail, Host::Windows) == tail,
        head_len(tail, Host::Windows) == 0 && tail.len() > 0 && tail[0] == 0x2f && !(base.len() > 0
            && base[0] == 0x5c) ==> looked_up(base, tail, Host::Windows) == base.take(
            head_len(base, Host::Windows),
        ) + tail,
        head_len(tail, Host::Windows) == 0 && !(tail.len() > 0 && tail[0] == 0x2f) && base.len()
            == 2 && head_len(base, Host::Windows) == 2 ==> looked_up(base, tail, Host::Windows)
            == base + tail,
        head_len(tail, Host::Windows) == 0 && tail.len() > 0 && verbatim_mark().is_prefix_of(base)
            ==> looked_up(base, tail, Host::Windows) == walked(
            base,
            head_len(base, Host::Windows),
            components_of(tail),
        ),
        head_len(tail, Host::Windows) == 0 && !(tail.len() > 0 && tail[0] == 0x2f) && base.len()
            != 2 && !(base.len() > 0 && base[0] == 0x5c) ==> looked_up(base, tail, Host::Windows)
            == joined(base, tail),
{
    let mark = verbatim_mark();
    if mark.is_prefix_of(base) {
        assert(mark[0] == base[0]);
    }
    let share = verbatim_share_mark();
    let device = device_mark();
    law_prefix_len(base);
    if base.len() == 2 && head_len(base, Host::Windows) == 2 {
        assert(has_drive(base)) by {
            assert(!share.is_prefix_of(base) && !mark.is_prefix_of(base) && !device.is_prefix_of(
                base,
            ));
        }
    }
}

/// One step up drops the name at the end of what follows the first `k` bytes, and changes nothing
/// where there is none.
pub proof fn law_step_up(p: Seq<u8>, k: int)
    requires
        0 <= k <= p.len(),
    ensures
        ({
            let up = step_up(p, k);
            let rest = components_of(p.skip(k));
            &&& up.len() >= k && up.take(k) == p.take(k)
            &&& if rest.len() > 0 && rest.last() is Normal {
                components_of(up.skip(k)) == rest.drop_last()
            } else {
                rest.len() > 0 ==> up == p
            }
        }),
{
    let rest = p.skip(k);
    law_parent(rest);
    let up = step_up(p, k);
    if let Some(above) = parent_of(rest) {
        assert((p.take(k) + above).take(k) =~= p.take(k));
        assert((p.take(k) + above).skip(k) =~= above);
    }
    if components_of(rest).len() > 0 && components_of(rest).last() is Normal {
        assert(rest.len() > 0) by {
            if rest.len() == 0 {
                law_no_components(rest);
            }
        }
    }
}

/// One step up from a path behind `\\?\` drops the name at its end, and leaves a root alone.
pub proof fn law_verbatim_step_up(p: Seq<u8>)
    requires
        verbatim_mark().is_prefix_of(p),
        is_settled(p, Host::Windows),
    ensures
        ({
            let up = step_up(p, 6);
            let all = components_on(p, Host::Windows);
            components_on(up, Host::Windows) == if all.last() is Normal {
                all.drop_last()
            } else {
                all
            }
        }),
{
    lemma_verbatim_drive(p);
    law_parent_on(p, Host::Windows);
    let rest = p.skip(6);
    let all = components_on(p, Host::Windows);
    law_parent(rest);
    assert(rest[0] == p[6]);
    assert(!has_drive(p)) by {
        assert(verbatim_mark()[0] == p[0]);
    }
    if steps(rest).len() > 0 {
        assert(components_of(rest).last() == steps(rest).last());
        assert(all.last() == steps(rest).last());
        let above = parent_of(rest)->0;
        assert(lead(above) == lead(rest));
        assert(lead(rest).len() == 1);
    } else {
        assert(components_of(rest) =~= lead(rest));
        assert(components_of(rest).last() is RootDir);
        assert(all.last() is RootDir);
    }
}

/// How a path is looked up from one behind `\\?\`: a name leads down, a `..` drops the name before it,
/// a `.` leads nowhere, and a root leads to the root of what the path begins with.
pub proof fn law_walked(base: Seq<u8>, k: int, comps: Seq<Component<Seq<u8>>>, name: Seq<u8>)
    ensures
        walked(base, k, Seq::empty()) == base,
        walked(base, k, comps.push(Component::Normal(name))) == joined(
            walked(base, k, comps),
            name,
        ),
        walked(base, k, comps.push(Component::ParentDir)) == step_up(walked(base, k, comps), k),
        walked(base, k, comps.push(Component::CurDir)) == walked(base, k, comps),
        walked(base, k, comps.push(Component::RootDir)) == base.take(k) + seq![0x2fu8],
        k == head_len(base, Host::Windows) && verbatim_mark().is_prefix_of(base) ==> looked_up(
            base,
            seq![0x2eu8, 0x2e],
            Host::Windows,
        ) == step_up(base, k),
{
    let dots = seq![0x2eu8, 0x2e];
    let none = Seq::<Component<Seq<u8>>>::empty();
    assert forall|c: Component<Seq<u8>>| (#[trigger] comps.push(c)).drop_last() == comps by {
        assert(comps.push(c).drop_last() =~= comps);
    }
    lemma_steps_of_piece(dots);
    assert(components_of(dots) =~= none.push(Component::ParentDir));
    assert(none.push(Component::ParentDir).drop_last() =~= none);
    assert(walked(base, k, none) == base);
    assert(walked(base, k, none.push(Component::ParentDir)) == step_up(base, k));
    assert(prefix_len(dots) == 0) by {
        law_no_prefix(dots, Host::Windows);
    }
}

/// What follows `//./` up to a separator is a device, and the rest of the path begins behind.
pub proof fn law_device(name: Seq<u8>, rest: Seq<u8>)
    requires
        name.len() > 0,
        forall|i: int| 0 <= i < name.len() ==> #[trigger] name[i] != 0x2f,
        rest.len() > 0 ==> rest[0] == 0x2f,
    ensures
        ({
            let head = seq![0x2fu8, 0x2f, 0x2e, 0x2f] + name;
            &&& head_len(head + rest, Host::Windows) == head.len()
            &&& components_on(head + rest, Host::Windows) == seq![
                Component::Prefix(head),
                Component::RootDir,
            ] + steps(rest)
        }),
{
    let mark = seq![0x2fu8, 0x2f, 0x2e, 0x2f];
    let head = mark + name;
    let p = head + rest;
    let n = name.len() as int;
    assert(device_mark() =~= mark);
    assert(p.take(4) =~= mark);
    assert(mark.is_prefix_of(p));
    assert(p[0] == 0x2f && p[1] == 0x2f);
    assert(!verbatim_mark().is_prefix_of(p) && !verbatim_share_mark().is_prefix_of(p)) by {
        if verbatim_mark().is_prefix_of(p) {
            assert(verbatim_mark()[0] == p[0]);
        }
        if verbatim_share_mark().is_prefix_of(p) {
            assert(verbatim_share_mark()[0] == p[0]);
        }
    }
    assert forall|x: int| 4 <= x < 4 + n implies #[trigger] p[x] != 0x2f by {
        assert(p[x] == name[x - 4]);
    }
    lemma_piece_is(p, 4, n);
    assert(p.take(head.len() as int) =~= head);
    assert(p.skip(head.len() as int) =~= rest);
    assert(components_on(p, Host::Windows) =~= seq![
        Component::Prefix(head),
        Component::RootDir,
    ] + steps(rest));
}

} // verus!
