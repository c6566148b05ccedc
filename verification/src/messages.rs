//! What the failures of unpacking say.
use crate::error::{error_from, other, plain_error, Error, ErrorKind, ErrorView};
use crate::text::{
    concat2, concat3, concat5, debug_text, figures, lossy, number, quoted, utf8_lossy,
};
use vstd::prelude::*;

verus! {

/// A link entry names no target.
pub open spec fn missing_link_name(header: Seq<u8>) -> ErrorView {
    plain_error(
        ErrorKind::Other,
        "hard link listed for "@ + utf8_lossy(header) + " but no link name found"@,
    )
}

pub(crate) fn missing_link_name_error(header: &[u8]) -> (r: Error)
    ensures
        r@ == missing_link_name(header@),
{
    other(concat3("hard link listed for ", lossy(header).as_str(), " but no link name found"))
}

/// A link entry names an empty target.
pub open spec fn empty_link_name(header: Seq<u8>) -> ErrorView {
    plain_error(
        ErrorKind::Other,
        "symlink destination for "@ + utf8_lossy(header) + " is empty"@,
    )
}

pub(crate) fn empty_link_name_error(header: &[u8]) -> (r: Error)
    ensures
        r@ == empty_link_name(header@),
{
    other(concat3("symlink destination for ", lossy(header).as_str(), " is empty"))
}

/// A directory could not be made.
pub open spec fn create_dir_failed(cause: ErrorView, dir: Seq<u8>) -> ErrorView {
    plain_error(cause.kind, cause.text + " when creating dir "@ + utf8_lossy(dir))
}

pub(crate) fn create_dir_failed_error(cause: &Error, dir: &[u8]) -> (r: Error)
    ensures
        r@ == create_dir_failed(cause@, dir@),
{
    let text: String = concat3(cause.text.as_str(), " when creating dir ", lossy(dir).as_str());
    Error::new(cause.kind, text)
}

/// A hard link could not be made.
pub open spec fn hard_link_failed(cause: ErrorView, source: Seq<u8>, dst: Seq<u8>) -> ErrorView {
    plain_error(
        cause.kind,
        cause.text + " when hard linking "@ + utf8_lossy(source) + " to "@ + utf8_lossy(dst),
    )
}

pub(crate) fn hard_link_failed_error(cause: &Error, source: &[u8], dst: &[u8]) -> (r: Error)
    ensures
        r@ == hard_link_failed(cause@, source@, dst@),
{
    let text: String = concat5(
        cause.text.as_str(),
        " when hard linking ",
        lossy(source).as_str(),
        " to ",
        lossy(dst).as_str(),
    );
    Error::new(cause.kind, text)
}

/// A symbolic link could not be made.
pub open spec fn symlink_failed(cause: ErrorView, source: Seq<u8>, dst: Seq<u8>) -> ErrorView {
    plain_error(
        cause.kind,
        cause.text + " when symlinking "@ + utf8_lossy(source) + " to "@ + utf8_lossy(dst),
    )
}

pub(crate) fn symlink_failed_error(cause: &Error, source: &[u8], dst: &[u8]) -> (r: Error)
    ensures
        r@ == symlink_failed(cause@, source@, dst@),
{
    let text: String = concat5(
        cause.text.as_str(),
        " when symlinking ",
        lossy(source).as_str(),
        " to ",
        lossy(dst).as_str(),
    );
    Error::new(cause.kind, text)
}

/// The host lacks what is asked of it.
pub open spec fn not_implemented() -> ErrorView {
    plain_error(ErrorKind::Other, "Not implemented"@)
}

pub(crate) fn not_implemented_error() -> (r: Error)
    ensures
        r@ == not_implemented(),
{
    other("Not implemented".to_owned())
}

/// The time of modification could not be set.
pub open spec fn mtime_failed(cause: ErrorView, dst: Seq<u8>) -> ErrorView {
    error_from("failed to set mtime for `"@ + utf8_lossy(dst) + "`"@, cause)
}

pub(crate) fn mtime_failed_error(cause: Error, dst: &[u8]) -> (r: Error)
    ensures
        r@ == mtime_failed(cause@, dst@),
{
    let text: String = concat3("failed to set mtime for `", lossy(dst).as_str(), "`");
    Error::from_cause(text, cause)
}

/// The archive held less than the file should have.
pub open spec fn short_copy() -> ErrorView {
    plain_error(ErrorKind::Other, "failed to write entire file"@)
}

pub(crate) fn short_copy_error() -> (r: Error)
    ensures
        r@ == short_copy(),
{
    other("failed to write entire file".to_owned())
}

/// The content of a file could not be written.
pub open spec fn content_failed(cause: ErrorView, path: Seq<u8>, dst: Seq<u8>) -> ErrorView {
    error_from(
        "failed to unpack `"@ + utf8_lossy(path) + "` into `"@ + utf8_lossy(dst) + "`"@,
        cause,
    )
}

pub(crate) fn content_failed_error(cause: Error, path: &[u8], dst: &[u8]) -> (r: Error)
    ensures
        r@ == content_failed(cause@, path@, dst@),
{
    let text: String = concat5(
        "failed to unpack `",
        lossy(path).as_str(),
        "` into `",
        lossy(dst).as_str(),
        "`",
    );
    Error::from_cause(text, cause)
}

/// The owner or the group does not fit the host's type.
pub open spec fn id_too_large(label: Seq<char>, id: u64) -> ErrorView {
    plain_error(ErrorKind::Other, label + figures(id as nat, 10) + " is too large!"@)
}

pub(crate) fn id_too_large_error(label: &str, id: u64) -> (r: Error)
    ensures
        r@ == id_too_large(label@, id),
{
    other(concat3(label, number(id, 10).as_str(), " is too large!"))
}

/// The owner and the group could not be set.
pub open spec fn ownership_failed(cause: ErrorView, uid: u64, gid: u64, dst: Seq<u8>) -> ErrorView {
    error_from(
        "failed to set ownerships to uid="@ + figures(uid as nat, 10) + ", gid="@ + figures(
            gid as nat,
            10,
        ) + " for `"@ + (utf8_lossy(dst) + "`"@),
        cause,
    )
}

pub(crate) fn ownership_failed_error(cause: Error, uid: u64, gid: u64, dst: &[u8]) -> (r: Error)
    ensures
        r@ == ownership_failed(cause@, uid, gid, dst@),
{
    let start: String = concat5(
        "failed to set ownerships to uid=",
        number(uid, 10).as_str(),
        ", gid=",
        number(gid, 10).as_str(),
        " for `",
    );
    let end: String = concat2(lossy(dst).as_str(), "`");
    Error::from_cause(concat2(start.as_str(), end.as_str()), cause)
}

/// The permissions could not be set.
pub open spec fn permissions_failed(cause: ErrorView, mode: u32, dst: Seq<u8>) -> ErrorView {
    error_from(
        "failed to set permissions to "@ + figures(mode as nat, 8) + " for `"@ + utf8_lossy(dst)
            + "`"@,
        cause,
    )
}

pub(crate) fn permissions_failed_error(cause: Error, mode: u32, dst: &[u8]) -> (r: Error)
    ensures
        r@ == permissions_failed(cause@, mode, dst@),
{
    let text: String = concat5(
        "failed to set permissions to ",
        number(mode as u64, 8).as_str(),
        " for `",
        lossy(dst).as_str(),
        "`",
    );
    Error::from_cause(text, cause)
}

/// An extended attribute could not be set. `key` is the attribute's name as the host quotes it.
pub open spec fn xattr_failed(
    cause: ErrorView,
    dst: Seq<u8>,
    key: Seq<char>,
    value: Seq<u8>,
) -> ErrorView {
    error_from(
        "failed to set extended attributes to "@ + utf8_lossy(dst) + ". Xattrs: key="@ + key
            + ", value="@ + (debug_text(utf8_lossy(value)) + "."@),
        cause,
    )
}

pub(crate) fn xattr_failed_error(cause: Error, dst: &[u8], key: &str, value: &[u8]) -> (r: Error)
    ensures
        r@ == xattr_failed(cause@, dst@, key@, value@),
{
    let start: String = concat5(
        "failed to set extended attributes to ",
        lossy(dst).as_str(),
        ". Xattrs: key=",
        key,
        ", value=",
    );
    let end: String = concat2(quoted(lossy(value).as_str()).as_str(), ".");
    Error::from_cause(concat2(start.as_str(), end.as_str()), cause)
}

/// A path could not be resolved.
pub open spec fn canonicalize_failed(cause: ErrorView, path: Seq<u8>) -> ErrorView {
    plain_error(cause.kind, cause.text + " while canonicalizing "@ + utf8_lossy(path))
}

pub(crate) fn canonicalize_failed_error(cause: &Error, path: &[u8]) -> (r: Error)
    ensures
        r@ == canonicalize_failed(cause@, path@),
{
    let text: String = concat3(
        cause.text.as_str(),
        " while canonicalizing ",
        lossy(path).as_str(),
    );
    Error::new(cause.kind, text)
}

/// A path leads out of the destination, which resolves to `target`.
pub open spec fn outside_destination(target: Seq<u8>) -> ErrorView {
    error_from(
        "trying to unpack outside of destination path: "@ + utf8_lossy(target),
        plain_error(ErrorKind::Other, "Invalid argument"@),
    )
}

pub(crate) fn outside_destination_error(target: &[u8]) -> (r: Error)
    ensures
        r@ == outside_destination(target@),
{
    let text: String = concat2(
        "trying to unpack outside of destination path: ",
        lossy(target).as_str(),
    );
    Error::from_cause(text, other("Invalid argument".to_owned()))
}

/// The name of an entry is no path.
pub open spec fn invalid_path(cause: ErrorView, path: Seq<u8>) -> ErrorView {
    error_from("invalid path in entry header: "@ + utf8_lossy(path), cause)
}

pub(crate) fn invalid_path_error(cause: Error, path: &str) -> (r: Error)
    ensures
        r@ == error_from("invalid path in entry header: "@ + path@, cause@),
{
    Error::from_cause(concat2("invalid path in entry header: ", path), cause)
}

/// The directories above an entry could not be made.
pub open spec fn parent_failed(cause: ErrorView, parent: Seq<u8>) -> ErrorView {
    error_from("failed to create `"@ + utf8_lossy(parent) + "`"@, cause)
}

pub(crate) fn parent_failed_error(cause: Error, parent: &[u8]) -> (r: Error)
    ensures
        r@ == parent_failed(cause@, parent@),
{
    let text: String = concat3("failed to create `", lossy(parent).as_str(), "`");
    Error::from_cause(text, cause)
}

/// An entry could not be unpacked under its destination.
pub open spec fn unpack_failed(cause: ErrorView, dst: Seq<u8>) -> ErrorView {
    error_from("failed to unpack `"@ + utf8_lossy(dst) + "`"@, cause)
}

pub(crate) fn unpack_failed_error(cause: Error, dst: &[u8]) -> (r: Error)
    ensures
        r@ == unpack_failed(cause@, dst@),
{
    let text: String = concat3("failed to unpack `", lossy(dst).as_str(), "`");
    Error::from_cause(text, cause)
}

} // verus!
