//! The host that entries are unpacked on.
use crate::bytes::{append_bytes, copy_bytes, same_bytes};
use crate::error::{other, plain_error, Error, ErrorKind, ErrorView};
use crate::path::SEPARATOR;
use crate::text::{concat2, is_utf8, lossy, utf8_lossy};
use vstd::prelude::*;
use vstd::slice::slice_subrange;
use vstd::utf8::valid_utf8;

verus! {

/// The families of hosts that differ in what can be done to a file.
#[derive(Debug, Clone, Copy, PartialEq, Eq, Structural)]
pub enum Host {
    /// Files have owners and permission bits, and with `xattrs` also extended attributes.
    Unix { xattrs: bool },
    /// Files have no numeric owners, and of the permission bits only whether they can be
    /// written to.
    Windows,
    /// There are neither owners, permissions nor symbolic links.
    Wasm,
}

/// The backslash, which some archives separate names with.
pub const BACKSLASH: u8 = 0x5c;

/// The bytes with each backslash replaced by the separator of directories.
pub open spec fn with_separators(bytes: Seq<u8>) -> Seq<u8> {
    bytes.map_values(
        |b: u8|
            if b == BACKSLASH {
                SEPARATOR
            } else {
                b
            },
    )
}

/// Replaces each backslash by the separator of directories.
pub fn convert_separators(bytes: &[u8]) -> (r: Vec<u8>)
    ensures
        r@ == with_separators(bytes@),
{
    let mut out: Vec<u8> = copy_bytes(bytes);
    let mut i: usize = 0;
    while i < out.len()
        invariant
            out@.len() == bytes@.len(),
            0 <= i <= out@.len(),
            forall|j: int| 0 <= j < i ==> out@[j] == with_separators(bytes@)[j],
            forall|j: int| i <= j < out@.len() ==> out@[j] == bytes@[j],
        decreases out@.len() - i,
    {
        if out[i] == BACKSLASH {
            out.set(i, SEPARATOR);
        }
        i = i + 1;
    }
    assert(out@ =~= with_separators(bytes@));
    out
}

/// What begins the paths that Windows takes as they are: `\\?\`. Written with other separators it
/// means something else.
pub open spec fn verbatim_mark() -> Seq<u8> {
    seq![BACKSLASH, BACKSLASH, 0x3f, BACKSLASH]
}

/// The bytes as a path of the host, whose separator is `/`: each backslash is replaced, but for those
/// of a [`verbatim_mark`] on Windows.
pub open spec fn with_separators_on(bytes: Seq<u8>, host: Host) -> Seq<u8> {
    if host is Windows && verbatim_mark().is_prefix_of(bytes) {
        verbatim_mark() + with_separators(bytes.skip(4))
    } else {
        with_separators(bytes)
    }
}

/// Whether the bytes begin with `mark`.
pub fn begins_with(bytes: &[u8], mark: &[u8]) -> (r: bool)
    ensures
        r == mark@.is_prefix_of(bytes@),
{
    let n: usize = mark.len();
    if bytes.len() < n {
        return false;
    }
    let start: &[u8] = slice_subrange(bytes, 0, n);
    let r: bool = same_bytes(start, mark);
    assert(mark@.is_prefix_of(bytes@) ==> start@ =~= mark@);
    assert(start@ == mark@ ==> forall|j: int| 0 <= j < n ==> bytes@[j] == start@[j]);
    r
}

/// Turns bytes into a path of the host.
pub fn convert_separators_on(bytes: &[u8], host: Host) -> (r: Vec<u8>)
    ensures
        r@ == with_separators_on(bytes@, host),
{
    let mark: [u8; 4] = [BACKSLASH, BACKSLASH, 0x3f, BACKSLASH];
    assert(mark@ =~= verbatim_mark());
    if matches!(host, Host::Windows) && begins_with(bytes, mark.as_slice()) {
        let rest: &[u8] = slice_subrange(bytes, 4, bytes.len());
        assert(rest@ =~= bytes@.skip(4));
        let mut r: Vec<u8> = copy_bytes(mark.as_slice());
        append_bytes(&mut r, convert_separators(rest).as_slice());
        r
    } else {
        convert_separators(bytes)
    }
}

/// The path that a name in an archive stands for: the name with its backslashes replaced. On
/// Windows a name that is not Unicode stands for none.
pub open spec fn path_on(bytes: Seq<u8>, host: Host) -> Result<Seq<u8>, ErrorView> {
    if host is Windows && !valid_utf8(bytes) {
        Err(
            plain_error(
                ErrorKind::Other,
                "only Unicode paths are supported on Windows: "@ + utf8_lossy(bytes),
            ),
        )
    } else {
        Ok(with_separators_on(bytes, host))
    }
}

/// A path or an error, by its view.
pub open spec fn path_view(r: Result<Vec<u8>, Error>) -> Result<Seq<u8>, ErrorView> {
    match r {
        Ok(p) => Ok(p@),
        Err(e) => Err(e@),
    }
}

/// Turns a name in an archive into a path.
pub fn bytes2path(bytes: &[u8], host: Host) -> (r: Result<Vec<u8>, Error>)
    ensures
        path_view(r) == path_on(bytes@, host),
{
    if matches!(host, Host::Windows) && !is_utf8(bytes) {
        return Err(
            other(
                concat2(
                    "only Unicode paths are supported on Windows: ",
                    lossy(bytes).as_str(),
                ),
            ),
        );
    }
    Ok(convert_separators_on(bytes, host))
}

} // verus!
