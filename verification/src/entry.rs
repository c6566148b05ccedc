//! Entries of an archive: what they are called, how they are read, and how they are set up to be
//! unpacked.
use crate::error::{Error, ErrorView};
use crate::header::{EntryType, Header};
use crate::host::{bytes2path, convert_separators, path_on, path_view, with_separators, Host};
use crate::pax::{find_value, first_value, records_of, PaxExtensions};
use crate::text::{lossy, utf8_lossy};
use crate::unpack::{starting, Unpack};
use crate::unpack_in::{beginning_in, UnpackIn};
use vstd::prelude::*;
use vstd::slice::slice_subrange;

verus! {

/// A stretch of the content of an entry, with the number of bytes that it still has.
#[derive(Debug, Clone, Copy, PartialEq, Eq, Structural)]
pub enum EntryIo {
    /// A hole, which reads as the same byte again and again.
    Pad { byte: u8, limit: u64 },
    /// Bytes of the archive.
    Data(u64),
}

impl EntryIo {
    /// The number of bytes that the stretch still has.
    pub open spec fn spec_limit(self) -> u64 {
        match self {
            EntryIo::Pad { limit, .. } => limit,
            EntryIo::Data(n) => n,
        }
    }

    /// The stretch with another number of bytes left.
    pub open spec fn with_limit(self, n: u64) -> EntryIo {
        match self {
            EntryIo::Pad { byte, .. } => EntryIo::Pad { byte, limit: n },
            EntryIo::Data(_) => EntryIo::Data(n),
        }
    }

    /// The number of bytes that the stretch still has.
    pub fn limit(&self) -> (r: u64)
        ensures
            r == self.spec_limit(),
    {
        match *self {
            EntryIo::Pad { limit, .. } => limit,
            EntryIo::Data(n) => n,
        }
    }

    /// Takes `n` bytes off the stretch.
    pub(crate) fn advanced(&self, n: u64) -> (r: EntryIo)
        requires
            n <= self.spec_limit(),
        ensures
            r == self.with_limit((self.spec_limit() - n) as u64),
    {
        match *self {
            EntryIo::Pad { byte, limit } => EntryIo::Pad { byte, limit: limit - n },
            EntryIo::Data(left) => EntryIo::Data(left - n),
        }
    }
}

/// What became of an entry that was unpacked.
#[derive(Debug, Clone, Copy, PartialEq, Eq, Structural)]
pub enum Unpacked {
    /// A file was unpacked.
    File,
    /// A directory, hard link, symbolic link, or other node was unpacked.
    __Nonexhaustive,
}

/// An entry, with all that is known of it.
#[derive(Debug)]
pub struct EntryFields {
    /// The name from a preceding long-name entry.
    pub long_pathname: Option<Vec<u8>>,
    /// The link target from a preceding long-link entry.
    pub long_linkname: Option<Vec<u8>>,
    /// The pax extensions that describe the entry.
    pub pax_extensions: Option<Vec<u8>>,
    /// The header.
    pub header: Header,
    /// The size of the content.
    pub size: u64,
    /// Where the header begins in the archive.
    pub header_pos: u64,
    /// Where the content begins in the archive.
    pub file_pos: u64,
    /// The stretches of the content that have not been read.
    pub data: Vec<EntryIo>,
    /// Whether extended attributes are set when the entry is unpacked.
    pub unpack_xattrs: bool,
    /// Whether all permission bits are kept, not only those for reading, writing and executing.
    pub preserve_permissions: bool,
    /// Whether the owner and the group are kept.
    pub preserve_ownerships: bool,
    /// Whether the time of modification is kept.
    pub preserve_mtime: bool,
    /// Whether what stands in the way may be removed.
    pub overwrite: bool,
}

/// The key of the pax record that holds a path: `path`.
pub open spec fn path_key() -> Seq<u8> {
    seq![0x70u8, 0x61u8, 0x74u8, 0x68u8]
}

/// The key of the pax record that holds a link target: `linkpath`.
pub open spec fn linkpath_key() -> Seq<u8> {
    seq![0x6cu8, 0x69u8, 0x6eu8, 0x6bu8, 0x70u8, 0x61u8, 0x74u8, 0x68u8]
}

/// A long name, without the zero byte that may end it.
pub open spec fn without_nul(bytes: Seq<u8>) -> Seq<u8> {
    if bytes.len() != 0 && bytes.last() == 0 {
        bytes.drop_last()
    } else {
        bytes
    }
}

/// The name that a long-name entry or the pax extensions give, the former first.
pub open spec fn described_name(
    long_name: Option<Vec<u8>>,
    pax: Option<Vec<u8>>,
    key: Seq<u8>,
) -> Option<Seq<u8>> {
    match (long_name, pax) {
        (Some(bytes), _) => Some(without_nul(bytes@)),
        (None, Some(data)) => first_value(records_of(data@), key),
        (None, None) => None,
    }
}

impl EntryFields {
    /// The path listed for the entry: from a long-name entry, else from the pax extensions, else
    /// from the header.
    pub open spec fn listed_path(self) -> Seq<u8> {
        match described_name(self.long_pathname, self.pax_extensions, path_key()) {
            Some(name) => name,
            None => self.header.path@,
        }
    }

    /// The link target listed for the entry, from the same places.
    pub open spec fn listed_link(self) -> Option<Seq<u8>> {
        match described_name(self.long_linkname, self.pax_extensions, linkpath_key()) {
            Some(name) => Some(name),
            None => match self.header.link_name {
                Some(name) => Some(name@),
                None => None,
            },
        }
    }

    /// The link target as a path.
    pub open spec fn link_path(self, host: Host) -> Result<Option<Seq<u8>>, ErrorView> {
        match self.listed_link() {
            None => Ok(None),
            Some(bytes) => match path_on(bytes, host) {
                Ok(p) => Ok(Some(p)),
                Err(e) => Err(e),
            },
        }
    }

    /// The fields of an entry.
    pub fn from(entry: Entry) -> (r: EntryFields)
        ensures
            r == entry@,
    {
        entry.fields
    }

    /// The entry with these fields.
    pub fn into_entry(self) -> (r: Entry)
        ensures
            r@ == self,
    {
        Entry { fields: self }
    }

    /// The path listed for the entry.
    pub fn path_bytes(&self) -> (r: &[u8])
        ensures
            r@ == self.listed_path(),
    {
        let key: [u8; 4] = [0x70, 0x61, 0x74, 0x68];
        assert(key@ =~= path_key());
        match find_name(&self.long_pathname, &self.pax_extensions, key.as_slice()) {
            Some(name) => name,
            None => self.header.path_bytes(),
        }
    }

    /// The path listed for the entry as text, for messages.
    pub fn path_lossy(&self) -> (r: String)
        ensures
            r@ == utf8_lossy(self.listed_path()),
    {
        lossy(self.path_bytes())
    }

    /// The path of the entry.
    pub fn path(&self, host: Host) -> (r: Result<Vec<u8>, Error>)
        ensures
            path_view(r) == path_on(self.listed_path(), host),
    {
        bytes2path(self.path_bytes(), host)
    }

    /// The link target listed for the entry.
    pub fn link_name_bytes(&self) -> (r: Option<&[u8]>)
        ensures
            r is Some <==> self.listed_link() is Some,
            r matches Some(b) ==> self.listed_link() == Some(b@),
    {
        let key: [u8; 8] = [0x6c, 0x69, 0x6e, 0x6b, 0x70, 0x61, 0x74, 0x68];
        assert(key@ =~= linkpath_key());
        match find_name(&self.long_linkname, &self.pax_extensions, key.as_slice()) {
            Some(name) => Some(name),
            None => self.header.link_name_bytes(),
        }
    }

    /// The link target as a path.
    pub fn link_name(&self, host: Host) -> (r: Result<Option<Vec<u8>>, Error>)
        ensures
            link_view(r) == self.link_path(host),
    {
        match self.link_name_bytes() {
            Some(bytes) => match bytes2path(bytes, host) {
                Ok(p) => Ok(Some(p)),
                Err(e) => Err(e),
            },
            None => Ok(None),
        }
    }
}

/// The pax extensions of an entry, as far as they are at hand.
#[derive(Debug)]
pub enum PaxAccess<B> {
    /// The entry has none, and is none itself.
    Absent,
    /// The content of the entry holds them, and has to be read first.
    Unread,
    /// They are at hand.
    Known(B),
}

impl EntryFields {
    /// The pax extensions of the entry, as far as they are at hand.
    pub open spec fn pax_access(self) -> PaxAccess<Seq<u8>> {
        match self.pax_extensions {
            Some(pax) => PaxAccess::Known(pax@),
            None => if self.header.entry_type is XGlobalHeader || self.header.entry_type is XHeader {
                PaxAccess::Unread
            } else {
                PaxAccess::Absent
            },
        }
    }

    /// The pax extensions of the entry. Where they are `Unread`, [`EntryFields::read_all`] is to be
    /// run, and its outcome given to [`EntryFields::keep_pax_extensions`].
    pub fn pax_extensions(&self) -> (r: PaxAccess<PaxExtensions<'_>>)
        ensures
            match r {
                PaxAccess::Absent => self.pax_access() is Absent,
                PaxAccess::Unread => self.pax_access() is Unread,
                PaxAccess::Known(all) => self.pax_access() == PaxAccess::Known(all.remaining()),
            },
    {
        match &self.pax_extensions {
            Some(pax) => PaxAccess::Known(PaxExtensions::new(pax.as_slice())),
            None => {
                let kind: EntryType = self.header.entry_type();
                if kind.is_pax_global_extensions() || kind.is_pax_local_extensions() {
                    PaxAccess::Unread
                } else {
                    PaxAccess::Absent
                }
            },
        }
    }

    /// Keeps the pax extensions that the content of the entry was found to hold. Where it could
    /// not be read, nothing is kept and the error is handed back.
    pub fn keep_pax_extensions(&mut self, content: Result<Vec<u8>, Error>) -> (r: Result<(), Error>)
        ensures
            match content {
                Ok(pax) => {
                    &&& r is Ok
                    &&& *final(self) == EntryFields { pax_extensions: Some(pax), ..*old(self) }
                    &&& final(self).pax_access() == PaxAccess::Known(pax@)
                },
                Err(e) => {
                    &&& r == Err::<(), Error>(e)
                    &&& *final(self) == *old(self)
                },
            },
    {
        match content {
            Ok(pax) => {
                self.pax_extensions = Some(pax);
                Ok(())
            },
            Err(e) => Err(e),
        }
    }
}

/// A link target or an error, by its view.
pub open spec fn link_view(r: Result<Option<Vec<u8>>, Error>) -> Result<Option<Seq<u8>>, ErrorView> {
    match r {
        Ok(Some(p)) => Ok(Some(p@)),
        Ok(None) => Ok(None),
        Err(e) => Err(e@),
    }
}

/// The name that a long-name entry or the pax extensions give, the former first.
fn find_name<'a>(
    long_name: &'a Option<Vec<u8>>,
    pax: &'a Option<Vec<u8>>,
    key: &[u8],
) -> (r: Option<&'a [u8]>)
    ensures
        r is Some <==> described_name(*long_name, *pax, key@) is Some,
        r matches Some(name) ==> described_name(*long_name, *pax, key@) == Some(name@),
{
    match long_name {
        Some(bytes) => {
            let n: usize = bytes.len();
            if n > 0 && bytes[n - 1] == 0 {
                Some(slice_subrange(bytes.as_slice(), 0, n - 1))
            } else {
                Some(bytes.as_slice())
            }
        },
        None => match pax {
            Some(data) => find_value(data.as_slice(), key),
            None => None,
        },
    }
}

/// A view of an entry of an archive.
#[derive(Debug)]
pub struct Entry {
    fields: EntryFields,
}

impl View for Entry {
    type V = EntryFields;

    closed spec fn view(&self) -> EntryFields {
        self.fields
    }
}

impl Entry {
    /// The path of the entry. It is not always that of the header, since longer names can be
    /// described in entries of their own. Each `\` in it counts as a separator. On Windows it
    /// must be Unicode.
    pub fn path(&self, host: Host) -> (r: Result<Vec<u8>, Error>)
        ensures
            path_view(r) == path_on(self@.listed_path(), host),
    {
        self.fields.path(host)
    }

    /// The bytes of the path of the entry, with each `\` as a separator.
    pub fn path_bytes(&self) -> (r: Vec<u8>)
        ensures
            r@ == with_separators(self@.listed_path()),
    {
        convert_separators(self.fields.path_bytes())
    }

    /// The link target of the entry, where one is found. Each `\` in it counts as a separator. On
    /// Windows it must be Unicode.
    pub fn link_name(&self, host: Host) -> (r: Result<Option<Vec<u8>>, Error>)
        ensures
            link_view(r) == self@.link_path(host),
    {
        self.fields.link_name(host)
    }

    /// The bytes of the link target as they are listed.
    pub fn link_name_bytes(&self) -> (r: Option<&[u8]>)
        ensures
            r is Some <==> self@.listed_link() is Some,
            r matches Some(b) ==> self@.listed_link() == Some(b@),
    {
        self.fields.link_name_bytes()
    }

    /// The pax extensions that describe the entry, or that it holds. Global ones are meant for all
    /// entries of the archive.
    pub fn pax_extensions(&self) -> (r: PaxAccess<PaxExtensions<'_>>)
        ensures
            match r {
                PaxAccess::Absent => self@.pax_access() is Absent,
                PaxAccess::Unread => self@.pax_access() is Unread,
                PaxAccess::Known(all) => self@.pax_access() == PaxAccess::Known(all.remaining()),
            },
    {
        self.fields.pax_extensions()
    }

    /// The header of the entry.
    pub fn header(&self) -> (r: &Header)
        ensures
            *r == self@.header,
    {
        &self.fields.header
    }

    /// The size of the entry.
    pub fn size(&self) -> (r: u64)
        ensures
            r == self@.size,
    {
        self.fields.size
    }

    /// Where the header begins in the archive, where it takes 512 bytes. The position is kept as
    /// whoever read the archive gave it.
    pub fn raw_header_position(&self) -> (r: u64)
        ensures
            r == self@.header_pos,
    {
        self.fields.header_pos
    }

    /// Where the content begins in the archive. Unless it has holes, it stands there in one piece. The
    /// position is kept as whoever read the archive gave it.
    pub fn raw_file_position(&self) -> (r: u64)
        ensures
            r == self@.file_pos,
    {
        self.fields.file_pos
    }

    /// Begins to write the entry, with its metadata, to `dst`. The directory that it goes into must
    /// exist, and nothing keeps links from leading elsewhere. The host must be the one that the
    /// program is built for.
    pub fn unpack(&self, dst: &[u8], host: Host) -> (r: Unpack)
        ensures
            r@ == starting(self@, None, dst@, host),
    {
        Unpack::start(&self.fields, None, dst, host)
    }

    /// Begins to write the entry, with its metadata, to where its path leads from `dst`, making the
    /// directories that are missing, and without leaving `dst`. An entry with a `..` in its path is
    /// skipped. The host must be the one that the program is built for.
    pub fn unpack_in(&self, dst: &[u8], host: Host) -> (r: UnpackIn)
        ensures
            r@ == beginning_in(self@, dst@, host),
    {
        UnpackIn::start(&self.fields, dst, host)
    }

    /// Whether extended attributes are set when the entry is unpacked.
    pub fn set_unpack_xattrs(&mut self, unpack_xattrs: bool)
        ensures
            final(self)@ == (EntryFields { unpack_xattrs, ..old(self)@ }),
    {
        self.fields.unpack_xattrs = unpack_xattrs;
    }

    /// Whether all permission bits are kept when the entry is unpacked, not only those for reading,
    /// writing and executing.
    pub fn set_preserve_permissions(&mut self, preserve: bool)
        ensures
            final(self)@ == (EntryFields { preserve_permissions: preserve, ..old(self)@ }),
    {
        self.fields.preserve_permissions = preserve;
    }

    /// Whether the time of modification is kept when the entry is unpacked.
    pub fn set_preserve_mtime(&mut self, preserve: bool)
        ensures
            final(self)@ == (EntryFields { preserve_mtime: preserve, ..old(self)@ }),
    {
        self.fields.preserve_mtime = preserve;
    }

    /// The fields, to go on with reading or unpacking.
    pub fn fields_mut(&mut self) -> (r: &mut EntryFields)
        ensures
            *r == old(self)@,
            final(self)@ == *final(r),
    {
        &mut self.fields
    }
}

} // verus!
