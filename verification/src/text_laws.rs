//! What holds of texts: numbers in figures, and what errors tell.
use crate::error::{error_from, plain_error, ErrorKind, ErrorView};
use crate::messages::{
    canonicalize_failed, content_failed, create_dir_failed, empty_link_name, hard_link_failed,
    id_too_large, invalid_path, missing_link_name, mtime_failed, not_implemented,
    outside_destination, ownership_failed, parent_failed, permissions_failed, short_copy,
    symlink_failed, unpack_failed, xattr_failed,
};
use crate::text::{debug_text, figures, utf8_lossy};
use vstd::prelude::*;

verus! {

/// Whether a text holds another as a part.
pub open spec fn mentions(text: Seq<char>, part: Seq<char>) -> bool {
    exists|before: Seq<char>, behind: Seq<char>| text == #[trigger] (before + part + behind)
}

/// Whether an error comes of another: it is of its kind, and shows its text or has it as its nearest
/// cause, with the causes of that behind it.
pub open spec fn comes_of(e: ErrorView, cause: ErrorView) -> bool {
    &&& e.kind == cause.kind
    &&& mentions(e.text, cause.text) || {
        &&& e.causes.len() == cause.causes.len() + 1
        &&& e.causes[0] == cause.text
        &&& forall|i: int|
            0 <= i < cause.causes.len() ==> #[trigger] e.causes[i + 1] == cause.causes[i]
    }
}

/// A text put together of three mentions the one in the middle.
pub proof fn lemma_mentions(text: Seq<char>, before: Seq<char>, part: Seq<char>, behind: Seq<char>)
    requires
        text =~= before + part + behind,
    ensures
        mentions(text, part),
{
    assert(text == before + part + behind);
}

/// The number that figures stand for in a base.
pub open spec fn number_of(text: Seq<char>, base: nat) -> int
    decreases text.len(),
{
    if text.len() == 0 {
        0
    } else {
        number_of(text.drop_last(), base) * base + (text.last() as int - '0' as int)
    }
}

/// A number is written in figures of the base that stand for it, however large it is, and without a
/// zero in front of others.
pub proof fn law_figures(n: nat, base: nat)
    requires
        2 <= base <= 10,
    ensures
        figures(n, base).len() > 0,
        number_of(figures(n, base), base) == n,
        forall|i: int|
            0 <= i < figures(n, base).len() ==> '0' as int <= #[trigger] figures(n, base)[i] as int
                && (figures(n, base)[i] as int) < '0' as int + base,
        n > 0 ==> figures(n, base)[0] != '0',
        n == 0 ==> figures(n, base).len() == 1,
    decreases n,
{
    let text = figures(n, base);
    if n < base {
        assert(text.drop_last() =~= Seq::empty());
        reveal_with_fuel(number_of, 2);
    } else {
        assert(n / base < n && n / base > 0) by (nonlinear_arith)
            requires
                n >= base,
                base >= 2,
        ;
        assert(0 <= n % base < base) by (nonlinear_arith)
            requires
                base >= 2,
        ;
        assert((n / base) * base + n % base == n) by (nonlinear_arith)
            requires
                base >= 2,
        ;
        let front = figures(n / base, base);
        law_figures(n / base, base);
        assert(text.drop_last() =~= front);
        assert forall|i: int| 0 <= i < text.len() implies '0' as int <= #[trigger] text[i] as int
            && (text[i] as int) < '0' as int + base by {
            if i < front.len() {
                assert(text[i] == front[i]);
            }
        }
        assert(text[0] == front[0]);
    }
}

/// An error with a cause is of the kind of the cause, says its own text, and has the text of the
/// cause and then all of its causes behind it.
pub proof fn law_error_chain(text: Seq<char>, cause: ErrorView, kind: ErrorKind)
    ensures
        error_from(text, cause).text == text,
        comes_of(error_from(text, cause), cause),
        error_from(text, cause).causes.len() == cause.causes.len() + 1,
        plain_error(kind, text).kind == kind,
        plain_error(kind, text).text == text,
        plain_error(kind, text).causes.len() == 0,
{
}

/// What is said of a failure tells where it was: every path that it is about is in it.
pub proof fn law_paths_told(cause: ErrorView, a: Seq<u8>, b: Seq<u8>)
    ensures
        mentions(create_dir_failed(cause, a).text, utf8_lossy(a)),
        mentions(hard_link_failed(cause, a, b).text, utf8_lossy(a)),
        mentions(hard_link_failed(cause, a, b).text, utf8_lossy(b)),
        mentions(symlink_failed(cause, a, b).text, utf8_lossy(a)),
        mentions(symlink_failed(cause, a, b).text, utf8_lossy(b)),
        mentions(mtime_failed(cause, a).text, utf8_lossy(a)),
        mentions(content_failed(cause, a, b).text, utf8_lossy(a)),
        mentions(content_failed(cause, a, b).text, utf8_lossy(b)),
        mentions(canonicalize_failed(cause, a).text, utf8_lossy(a)),
        mentions(outside_destination(a).text, utf8_lossy(a)),
        mentions(invalid_path(cause, a).text, utf8_lossy(a)),
        mentions(parent_failed(cause, a).text, utf8_lossy(a)),
        mentions(unpack_failed(cause, a).text, utf8_lossy(a)),
        mentions(missing_link_name(a).text, utf8_lossy(a)),
        mentions(empty_link_name(a).text, utf8_lossy(a)),
{
    let x = utf8_lossy(a);
    let y = utf8_lossy(b);
    let none = Seq::<char>::empty();
    let t = cause.text;
    lemma_mentions(create_dir_failed(cause, a).text, t + " when creating dir "@, x, none);
    lemma_mentions(
        hard_link_failed(cause, a, b).text,
        t + " when hard linking "@,
        x,
        " to "@ + y,
    );
    lemma_mentions(
        hard_link_failed(cause, a, b).text,
        t + " when hard linking "@ + x + " to "@,
        y,
        none,
    );
    lemma_mentions(symlink_failed(cause, a, b).text, t + " when symlinking "@, x, " to "@ + y);
    lemma_mentions(
        symlink_failed(cause, a, b).text,
        t + " when symlinking "@ + x + " to "@,
        y,
        none,
    );
    lemma_mentions(mtime_failed(cause, a).text, "failed to set mtime for `"@, x, "`"@);
    lemma_mentions(
        content_failed(cause, a, b).text,
        "failed to unpack `"@,
        x,
        "` into `"@ + y + "`"@,
    );
    lemma_mentions(
        content_failed(cause, a, b).text,
        "failed to unpack `"@ + x + "` into `"@,
        y,
        "`"@,
    );
    lemma_mentions(canonicalize_failed(cause, a).text, t + " while canonicalizing "@, x, none);
    lemma_mentions(
        outside_destination(a).text,
        "trying to unpack outside of destination path: "@,
        x,
        none,
    );
    lemma_mentions(invalid_path(cause, a).text, "invalid path in entry header: "@, x, none);
    lemma_mentions(parent_failed(cause, a).text, "failed to create `"@, x, "`"@);
    lemma_mentions(unpack_failed(cause, a).text, "failed to unpack `"@, x, "`"@);
    lemma_mentions(
        missing_link_name(a).text,
        "hard link listed for "@,
        x,
        " but no link name found"@,
    );
    lemma_mentions(empty_link_name(a).text, "symlink destination for "@, x, " is empty"@);
}

/// What is said of a failure tells what was to be set: the owner and the group, the permissions in
/// octal, and the name and the value of an attribute.
pub proof fn law_values_told(
    cause: ErrorView,
    uid: u64,
    gid: u64,
    mode: u32,
    dst: Seq<u8>,
    key: Seq<char>,
    value: Seq<u8>,
    label: Seq<char>,
)
    ensures
        mentions(ownership_failed(cause, uid, gid, dst).text, figures(uid as nat, 10)),
        mentions(ownership_failed(cause, uid, gid, dst).text, figures(gid as nat, 10)),
        mentions(ownership_failed(cause, uid, gid, dst).text, utf8_lossy(dst)),
        mentions(permissions_failed(cause, mode, dst).text, figures(mode as nat, 8)),
        mentions(permissions_failed(cause, mode, dst).text, utf8_lossy(dst)),
        mentions(xattr_failed(cause, dst, key, value).text, utf8_lossy(dst)),
        mentions(xattr_failed(cause, dst, key, value).text, key),
        mentions(xattr_failed(cause, dst, key, value).text, debug_text(utf8_lossy(value))),
        mentions(id_too_large(label, uid).text, figures(uid as nat, 10)),
        mentions(id_too_large(label, uid).text, label),
{
    let none = Seq::<char>::empty();
    let u = figures(uid as nat, 10);
    let g = figures(gid as nat, 10);
    let m = figures(mode as nat, 8);
    let d = utf8_lossy(dst);
    let v = debug_text(utf8_lossy(value));
    let owner = ownership_failed(cause, uid, gid, dst).text;
    let a = "failed to set ownerships to uid="@;
    let b = ", gid="@;
    let c = " for `"@;
    let end = "`"@;
    lemma_mentions(owner, a, u, b + g + c + d + end);
    lemma_mentions(owner, a + u + b, g, c + d + end);
    lemma_mentions(owner, a + u + b + g + c, d, end);
    let perm = permissions_failed(cause, mode, dst).text;
    let p = "failed to set permissions to "@;
    lemma_mentions(perm, p, m, c + d + end);
    lemma_mentions(perm, p + m + c, d, end);
    let attr = xattr_failed(cause, dst, key, value).text;
    let x = "failed to set extended attributes to "@;
    let k = ". Xattrs: key="@;
    let w = ", value="@;
    let dot = "."@;
    lemma_mentions(attr, x, d, k + key + w + v + dot);
    lemma_mentions(attr, x + d + k, key, w + v + dot);
    lemma_mentions(attr, x + d + k + key + w, v, dot);
    let large = id_too_large(label, uid).text;
    lemma_mentions(large, label, u, " is too large!"@);
    lemma_mentions(large, none, label, u + " is too large!"@);
}

/// Failures without a cause from outside are described by their text alone.
pub proof fn law_kinds_of_refusals(header: Seq<u8>, label: Seq<char>, id: u64, target: Seq<u8>)
    ensures
        missing_link_name(header).kind is Other,
        empty_link_name(header).kind is Other,
        not_implemented().kind is Other,
        short_copy().kind is Other,
        id_too_large(label, id).kind is Other,
        outside_destination(target).kind is Other,
{
}

} // verus!
