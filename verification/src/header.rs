//! What the header of an entry says.
use crate::error::{Error, ErrorView};
use vstd::prelude::*;

verus! {

/// What kind of thing an entry is.
#[derive(Debug, Clone, Copy, PartialEq, Eq, Structural)]
pub enum EntryType {
    /// A regular file.
    Regular,
    /// A hard link to another entry.
    Link,
    /// A symbolic link.
    Symlink,
    /// A directory.
    Directory,
    /// Pax extensions for all entries that follow.
    XGlobalHeader,
    /// Pax extensions for the entry that follows.
    XHeader,
    /// A long name for the entry that follows.
    GNULongName,
    /// A long link target for the entry that follows.
    GNULongLink,
    /// Any other type flag.
    Other(u8),
}

impl EntryType {
    /// Whether it is a directory.
    pub fn is_dir(&self) -> (r: bool)
        ensures
            r == (*self is Directory),
    {
        matches!(*self, EntryType::Directory)
    }

    /// Whether it is a hard link.
    pub fn is_hard_link(&self) -> (r: bool)
        ensures
            r == (*self is Link),
    {
        matches!(*self, EntryType::Link)
    }

    /// Whether it is a symbolic link.
    pub fn is_symlink(&self) -> (r: bool)
        ensures
            r == (*self is Symlink),
    {
        matches!(*self, EntryType::Symlink)
    }

    /// Whether it holds pax extensions for all entries that follow.
    pub fn is_pax_global_extensions(&self) -> (r: bool)
        ensures
            r == (*self is XGlobalHeader),
    {
        matches!(*self, EntryType::XGlobalHeader)
    }

    /// Whether it holds pax extensions for the entry that follows.
    pub fn is_pax_local_extensions(&self) -> (r: bool)
        ensures
            r == (*self is XHeader),
    {
        matches!(*self, EntryType::XHeader)
    }

    /// Whether it holds a long name for the entry that follows.
    pub fn is_gnu_longname(&self) -> (r: bool)
        ensures
            r == (*self is GNULongName),
    {
        matches!(*self, EntryType::GNULongName)
    }

    /// Whether it holds a long link target for the entry that follows.
    pub fn is_gnu_longlink(&self) -> (r: bool)
        ensures
            r == (*self is GNULongLink),
    {
        matches!(*self, EntryType::GNULongLink)
    }
}

/// The header of an entry: its bytes, and what they say. A numeric field that cannot be read
/// holds the error that says so.
#[derive(Debug)]
pub struct Header {
    /// The block as it stands in the archive.
    pub bytes: Vec<u8>,
    /// The name of the entry.
    pub path: Vec<u8>,
    /// The target of a link, where one is given.
    pub link_name: Option<Vec<u8>>,
    /// What the entry is.
    pub entry_type: EntryType,
    /// Whether the header is in the ustar format.
    pub ustar: bool,
    /// The owner.
    pub uid: Result<u64, Error>,
    /// The group.
    pub gid: Result<u64, Error>,
    /// The permission bits.
    pub mode: Result<u32, Error>,
    /// The time of the last modification, in seconds since the epoch.
    pub mtime: Result<u64, Error>,
}

/// A numeric field, its error by its view.
pub open spec fn field_view<T>(field: Result<T, Error>) -> Result<T, ErrorView> {
    match field {
        Ok(n) => Ok(n),
        Err(e) => Err(e@),
    }
}

impl Header {
    /// The block as it stands in the archive.
    pub fn as_bytes(&self) -> (r: &[u8])
        ensures
            r@ == self.bytes@,
    {
        self.bytes.as_slice()
    }

    /// The name of the entry.
    pub fn path_bytes(&self) -> (r: &[u8])
        ensures
            r@ == self.path@,
    {
        self.path.as_slice()
    }

    /// The target of a link, where one is given.
    pub fn link_name_bytes(&self) -> (r: Option<&[u8]>)
        ensures
            r is Some <==> self.link_name is Some,
            r matches Some(b) ==> b@ == self.link_name->0@,
    {
        match &self.link_name {
            Some(b) => Some(b.as_slice()),
            None => None,
        }
    }

    /// What the entry is.
    pub fn entry_type(&self) -> (r: EntryType)
        ensures
            r == self.entry_type,
    {
        self.entry_type
    }

    /// Whether the header is in the ustar format.
    pub fn is_ustar(&self) -> (r: bool)
        ensures
            r == self.ustar,
    {
        self.ustar
    }

    /// The owner.
    pub fn uid(&self) -> (r: Result<u64, Error>)
        ensures
            field_view(r) == field_view(self.uid),
    {
        match &self.uid {
            Ok(n) => Ok(*n),
            Err(e) => Err(e.duplicate()),
        }
    }

    /// The group.
    pub fn gid(&self) -> (r: Result<u64, Error>)
        ensures
            field_view(r) == field_view(self.gid),
    {
        match &self.gid {
            Ok(n) => Ok(*n),
            Err(e) => Err(e.duplicate()),
        }
    }

    /// The permission bits.
    pub fn mode(&self) -> (r: Result<u32, Error>)
        ensures
            field_view(r) == field_view(self.mode),
    {
        match &self.mode {
            Ok(n) => Ok(*n),
            Err(e) => Err(e.duplicate()),
        }
    }

    /// The time of the last modification, in seconds since the epoch.
    pub fn mtime(&self) -> (r: Result<u64, Error>)
        ensures
            field_view(r) == field_view(self.mtime),
    {
        match &self.mtime {
            Ok(n) => Ok(*n),
            Err(e) => Err(e.duplicate()),
        }
    }
}

} // verus!
