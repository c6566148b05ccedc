//! Reading the content of an entry, stretch by stretch.
use crate::bytes::append_bytes;
use crate::entry::{EntryFields, EntryIo};
use crate::error::{Error, ErrorView};
use crate::host::path_view;
use vstd::prelude::*;

verus! {

/// What reading from the first stretch of an entry came to.
#[derive(Debug, Clone, Copy, PartialEq, Eq, Structural)]
pub enum Polled {
    /// There is nothing to read yet.
    Pending,
    /// It failed.
    Failed,
    /// So many bytes were read.
    Read(u64),
}

/// The stretches that are left after reading from the first one. When nothing is read from it, it
/// is done with; when it must be waited for or cannot be read, it stays as it is.
pub open spec fn data_after(data: Seq<EntryIo>, outcome: Polled) -> Seq<EntryIo> {
    match outcome {
        Polled::Pending | Polled::Failed => data,
        Polled::Read(n) => if n == 0 {
            data.skip(1)
        } else {
            data.update(0, data[0].with_limit((data[0].spec_limit() - n) as u64))
        },
    }
}

/// Whether reading from the first stretch can come to this.
pub open spec fn can_come(data: Seq<EntryIo>, outcome: Polled) -> bool {
    data.len() != 0 && match outcome {
        Polled::Pending | Polled::Failed => true,
        Polled::Read(n) => n <= data[0].spec_limit(),
    }
}

/// The most that is set aside before an entry is read as a whole.
pub const MAX_PREALLOCATED: u64 = 131072;

impl EntryFields {
    /// The stretch that is read from next; none at the end of the entry.
    pub fn reading(&self) -> (r: Option<EntryIo>)
        ensures
            r == if self.data@.len() == 0 {
                None
            } else {
                Some(self.data@[0])
            },
    {
        if self.data.len() == 0 {
            None
        } else {
            Some(self.data[0])
        }
    }

    /// Goes on with what reading from the first stretch came to, and says whether to read again:
    /// that is so when nothing was read, since the next stretch may hold more.
    pub fn polled(&mut self, outcome: Polled) -> (again: bool)
        requires
            can_come(old(self).data@, outcome),
        ensures
            final(self).data@ == data_after(old(self).data@, outcome),
            *final(self) == (EntryFields { data: final(self).data, ..*old(self) }),
            again == (outcome == Polled::Read(0)),
    {
        match outcome {
            Polled::Read(0) => {
                self.data.remove(0);
                assert(self.data@ =~= old(self).data@.skip(1));
                true
            },
            Polled::Read(n) => {
                let piece: EntryIo = self.data[0].advanced(n);
                self.data.set(0, piece);
                false
            },
            _ => false,
        }
    }

    /// Begins to read the entry as a whole.
    pub fn read_all(&self) -> (r: ReadAll)
        ensures
            r@ == (ReadAllView { content: Ok(Seq::empty()), over: self.data@.len() == 0 }),
    {
        let content: Vec<u8> = Vec::with_capacity(preallocated(self.size));
        ReadAll { content: Ok(content), over: self.data.len() == 0 }
    }
}

/// How many bytes to set aside before an entry of the given size is read as a whole: as many, but
/// no more than [`MAX_PREALLOCATED`].
pub fn preallocated(size: u64) -> (r: usize)
    ensures
        r == if size <= MAX_PREALLOCATED {
            size
        } else {
            MAX_PREALLOCATED
        },
        r <= size && r <= 131072 && (r == size || r == 131072),
{
    let cap: u64 = if size <= MAX_PREALLOCATED { size } else { MAX_PREALLOCATED };
    cap as usize
}

/// The number of bytes that the stretches still have.
pub open spec fn bytes_left(data: Seq<EntryIo>) -> nat
    decreases data.len(),
{
    if data.len() == 0 {
        0
    } else {
        data[0].spec_limit() as nat + bytes_left(data.skip(1))
    }
}

/// The stretches that are left after a row of reads.
pub open spec fn data_after_all(data: Seq<EntryIo>, outcomes: Seq<Polled>) -> Seq<EntryIo>
    decreases outcomes.len(),
{
    if outcomes.len() == 0 {
        data
    } else {
        data_after_all(data_after(data, outcomes[0]), outcomes.skip(1))
    }
}

/// Whether reading can come to this row, and every stretch is read to its end before it is done
/// with.
pub open spec fn in_full(data: Seq<EntryIo>, outcomes: Seq<Polled>) -> bool
    decreases outcomes.len(),
{
    outcomes.len() == 0 || {
        &&& can_come(data, outcomes[0])
        &&& outcomes[0] == Polled::Read(0) ==> data[0].spec_limit() == 0
        &&& in_full(data_after(data, outcomes[0]), outcomes.skip(1))
    }
}

/// The number of bytes that a row of reads handed out.
pub open spec fn bytes_read(outcomes: Seq<Polled>) -> nat
    decreases outcomes.len(),
{
    if outcomes.len() == 0 {
        0
    } else {
        (match outcomes[0] {
            Polled::Read(n) => n as nat,
            _ => 0,
        }) + bytes_read(outcomes.skip(1))
    }
}

/// A row of reads that breaks off no stretch hands out exactly what is then gone from the entry; so
/// once it is read to its end, all that it had has been handed out.
pub proof fn law_read_in_full(data: Seq<EntryIo>, outcomes: Seq<Polled>)
    requires
        in_full(data, outcomes),
    ensures
        bytes_read(outcomes) + bytes_left(data_after_all(data, outcomes)) == bytes_left(data),
        data_after_all(data, outcomes).len() == 0 ==> bytes_read(outcomes) == bytes_left(data),
    decreases outcomes.len(),
{
    if outcomes.len() != 0 {
        let next = data_after(data, outcomes[0]);
        law_read_in_full(next, outcomes.skip(1));
        if let Polled::Read(n) = outcomes[0] {
            if n != 0 {
                assert(next.skip(1) =~= data.skip(1));
            }
        }
    }
}

/// Reading gets on: whenever it does not have to wait and does not fail, there are fewer stretches
/// or fewer bytes than before, and never more of either.
pub proof fn law_reading_advances(data: Seq<EntryIo>, n: u64)
    requires
        can_come(data, Polled::Read(n)),
    ensures
        ({
            let next = data_after(data, Polled::Read(n));
            &&& next.len() + bytes_left(next) < data.len() + bytes_left(data)
            &&& next.len() <= data.len()
            &&& bytes_left(next) <= bytes_left(data)
        }),
{
    if n != 0 {
        let next = data_after(data, Polled::Read(n));
        assert(next.skip(1) =~= data.skip(1));
    }
}

/// The reading of an entry as a whole, in specifications.
pub struct ReadAllView {
    /// What has been read, or what went wrong.
    pub content: Result<Seq<u8>, ErrorView>,
    /// Whether it is over.
    pub over: bool,
}

/// The reading of an entry as a whole. Until it is over, the stretch that
/// [`EntryFields::reading`] names is to be read from, and what comes of it handed to
/// [`ReadAll::step`].
#[derive(Debug)]
pub struct ReadAll {
    content: Result<Vec<u8>, Error>,
    over: bool,
}

impl View for ReadAll {
    type V = ReadAllView;

    closed spec fn view(&self) -> ReadAllView {
        ReadAllView { content: path_view(self.content), over: self.over }
    }
}

/// What a chunk that was read means for the stretches.
pub open spec fn polled_of(chunk: Result<Seq<u8>, ErrorView>) -> Polled {
    match chunk {
        Ok(bytes) => Polled::Read(bytes.len() as u64),
        Err(_) => Polled::Failed,
    }
}

/// The reading after a chunk: it is appended to what has been read, until nothing is left. The
/// first failure ends it, and what has been read is lost.
pub open spec fn read_after(
    m: ReadAllView,
    data: Seq<EntryIo>,
    chunk: Result<Seq<u8>, ErrorView>,
) -> ReadAllView {
    match (m.content, chunk) {
        (Ok(content), Ok(bytes)) => ReadAllView {
            content: Ok(content + bytes),
            over: data_after(data, polled_of(chunk)).len() == 0,
        },
        (Ok(_), Err(e)) => ReadAllView { content: Err(e), over: true },
        (Err(_), _) => m,
    }
}

impl ReadAll {
    /// Whether it is over.
    pub fn is_over(&self) -> (r: bool)
        ensures
            r == self@.over,
    {
        self.over
    }

    /// Goes on with a chunk that was read from the first stretch.
    pub fn step(self, entry: &mut EntryFields, chunk: Result<Vec<u8>, Error>) -> (r: ReadAll)
        requires
            !self@.over,
            old(entry).data@.len() != 0,
            chunk matches Ok(bytes) ==> bytes@.len() <= old(entry).data@[0].spec_limit(),
        ensures
            r@ == read_after(self@, old(entry).data@, path_view(chunk)),
            final(entry).data@ == data_after(old(entry).data@, polled_of(path_view(chunk))),
            *final(entry) == (EntryFields { data: final(entry).data, ..*old(entry) }),
    {
        match (self.content, chunk) {
            (Ok(content), Ok(bytes)) => {
                let mut content: Vec<u8> = content;
                append_bytes(&mut content, bytes.as_slice());
                entry.polled(Polled::Read(bytes.len() as u64));
                ReadAll { content: Ok(content), over: entry.data.len() == 0 }
            },
            (Ok(_), Err(e)) => ReadAll { content: Err(e), over: true },
            (Err(e), Ok(bytes)) => {
                entry.polled(Polled::Read(bytes.len() as u64));
                ReadAll { content: Err(e), over: self.over }
            },
            (Err(e), Err(_)) => ReadAll { content: Err(e), over: self.over },
        }
    }

    /// What has been read, or what went wrong, when it is over.
    pub fn outcome(self) -> (r: Option<Result<Vec<u8>, Error>>)
        ensures
            r is Some <==> self@.over,
            r matches Some(o) ==> path_view(o) == self@.content,
    {
        if self.over {
            Some(self.content)
        } else {
            None
        }
    }
}

/// The reading after a row of chunks.
pub open spec fn read_run(
    m: ReadAllView,
    data: Seq<EntryIo>,
    chunks: Seq<Seq<u8>>,
) -> ReadAllView
    decreases chunks.len(),
{
    if chunks.len() == 0 {
        m
    } else {
        read_run(
            read_after(m, data, Ok(chunks[0])),
            data_after(data, polled_of(Ok(chunks[0]))),
            chunks.skip(1),
        )
    }
}

/// What the lengths of a row of chunks mean for the stretches.
pub open spec fn lengths(chunks: Seq<Seq<u8>>) -> Seq<Polled> {
    chunks.map_values(|bytes: Seq<u8>| polled_of(Ok(bytes)))
}

/// Whether each chunk is short enough to have been read at once.
pub open spec fn are_chunks(chunks: Seq<Seq<u8>>) -> bool {
    forall|i: int| 0 <= i < chunks.len() ==> (#[trigger] chunks[i]).len() <= u64::MAX
}

/// Reading an entry as a whole gives the chunks one after the other, whether or not a stretch ends
/// early; it is over when no stretch is left; and when none ended early, it is over exactly with as
/// many bytes as the entry had.
pub proof fn law_read_all(start: Seq<u8>, data: Seq<EntryIo>, chunks: Seq<Seq<u8>>)
    requires
        are_chunks(chunks),
    ensures
        ({
            let m = ReadAllView { content: Ok(start), over: data.len() == 0 };
            let now = read_run(m, data, chunks);
            &&& now.content == Ok::<Seq<u8>, ErrorView>(start + chunks.flatten())
            &&& now.over <==> data_after_all(data, lengths(chunks)).len() == 0
            &&& in_full(data, lengths(chunks)) && now.over ==> chunks.flatten().len()
                == bytes_left(data)
        }),
    decreases chunks.len(),
{
    if chunks.len() == 0 {
        assert(start + chunks.flatten() =~= start);
        assert(lengths(chunks).len() == 0);
        assert(data.len() == 0 ==> bytes_left(data) == 0);
    } else {
        let rest = chunks.skip(1);
        let next = data_after(data, polled_of(Ok(chunks[0])));
        lemma_chunks(chunks);
        law_read_all(start + chunks[0], next, rest);
        assert(chunks.drop_first() =~= rest);
        assert(start + chunks.flatten() =~= start + chunks[0] + rest.flatten());
        if in_full(data, lengths(chunks)) {
            law_read_in_full(data, lengths(chunks));
            law_read_in_full(next, lengths(rest));
        }
    }
}

proof fn lemma_chunks(chunks: Seq<Seq<u8>>)
    requires
        chunks.len() != 0,
        are_chunks(chunks),
    ensures
        lengths(chunks).len() == chunks.len(),
        lengths(chunks)[0] == polled_of(Ok(chunks[0])),
        lengths(chunks).skip(1) == lengths(chunks.skip(1)),
        are_chunks(chunks.skip(1)),
        chunks[0].len() <= u64::MAX,
{
    let rest = chunks.skip(1);
    assert(lengths(chunks).skip(1) =~= lengths(rest));
    assert forall|i: int| 0 <= i < rest.len() implies (#[trigger] rest[i]).len() <= u64::MAX by {
        assert(rest[i] == chunks[i + 1]);
    }
}

/// The bytes that a hole reads as.
pub open spec fn repeated(byte: u8, n: nat) -> Seq<u8> {
    Seq::new(n, |i: int| byte)
}

/// What is read of the stretches when the archive stands at `pos`: the bytes that follow there, and
/// what the holes read as.
pub open spec fn laid_out(archive: Seq<u8>, pos: int, data: Seq<EntryIo>) -> Seq<u8>
    decreases data.len(),
{
    if data.len() == 0 {
        Seq::empty()
    } else {
        match data[0] {
            EntryIo::Data(n) => archive.subrange(pos, pos + n) + laid_out(
                archive,
                pos + n,
                data.skip(1),
            ),
            EntryIo::Pad { byte, limit } => repeated(byte, limit as nat) + laid_out(
                archive,
                pos,
                data.skip(1),
            ),
        }
    }
}

/// Whether a row of chunks was read from an archive that stands at `pos` at first.
pub open spec fn are_read_from(
    archive: Seq<u8>,
    pos: int,
    data: Seq<EntryIo>,
    chunks: Seq<Seq<u8>>,
) -> bool
    decreases chunks.len(),
{
    chunks.len() == 0 || {
        let n = chunks[0].len() as int;
        let next = data_after(data, polled_of(Ok(chunks[0])));
        &&& data.len() != 0
        &&& match data[0] {
            EntryIo::Data(_) => {
                &&& pos + n <= archive.len()
                &&& chunks[0] == archive.subrange(pos, pos + n)
                &&& are_read_from(archive, pos + n, next, chunks.skip(1))
            },
            EntryIo::Pad { byte, .. } => {
                &&& chunks[0] == repeated(byte, n as nat)
                &&& are_read_from(archive, pos, next, chunks.skip(1))
            },
        }
    }
}

/// Reading an entry to its end from where its content begins in an archive gives its content: the
/// bytes that stand there one after the other, with the holes between them.
pub proof fn law_content_read(
    archive: Seq<u8>,
    pos: int,
    data: Seq<EntryIo>,
    chunks: Seq<Seq<u8>>,
)
    requires
        0 <= pos <= archive.len(),
        are_chunks(chunks),
        in_full(data, lengths(chunks)),
        are_read_from(archive, pos, data, chunks),
        data_after_all(data, lengths(chunks)).len() == 0,
    ensures
        chunks.flatten() == laid_out(archive, pos, data),
    decreases chunks.len(),
{
    if chunks.len() == 0 {
        assert(lengths(chunks).len() == 0);
        assert(chunks.flatten() =~= Seq::empty());
    } else {
        let rest = chunks.skip(1);
        let first = chunks[0];
        let n = first.len() as int;
        let next = data_after(data, polled_of(Ok(first)));
        lemma_chunks(chunks);
        assert(chunks.drop_first() =~= rest);
        assert(chunks.flatten() == first + rest.flatten());
        match data[0] {
            EntryIo::Data(limit) => {
                law_content_read(archive, pos + n, next, rest);
                if n == 0 {
                    assert(archive.subrange(pos, pos) =~= Seq::empty());
                    assert(limit == 0);
                } else {
                    lemma_stays_in_archive(archive, pos + n, next, rest);
                    assert(next.skip(1) =~= data.skip(1));
                    assert(next[0] == EntryIo::Data((limit - n) as u64));
                    assert(archive.subrange(pos, pos + limit) =~= first + archive.subrange(
                        pos + n,
                        pos + limit,
                    ));
                }
                assert(chunks.flatten() =~= laid_out(archive, pos, data));
            },
            EntryIo::Pad { byte, limit } => {
                law_content_read(archive, pos, next, rest);
                if n == 0 {
                    assert(limit == 0);
                    assert(repeated(byte, 0) =~= Seq::empty());
                } else {
                    assert(next.skip(1) =~= data.skip(1));
                    assert(next[0] == (EntryIo::Pad { byte, limit: (limit - n) as u64 }));
                    assert(repeated(byte, limit as nat) =~= first + repeated(
                        byte,
                        (limit - n) as nat,
                    ));
                }
                assert(chunks.flatten() =~= laid_out(archive, pos, data));
            },
        }
    }
}

/// What one read does: so many bytes are taken off the first stretch, which stays what it is, or the
/// stretch is done with when there were none; the others are as before. Waiting and failing change
/// nothing.
pub proof fn law_one_read(data: Seq<EntryIo>, n: u64)
    requires
        data.len() > 0,
        n <= data[0].spec_limit(),
    ensures
        data_after(data, Polled::Pending) == data,
        data_after(data, Polled::Failed) == data,
        ({
            let next = data_after(data, Polled::Read(n));
            if n == 0 {
                &&& next.len() == data.len() - 1
                &&& forall|i: int| 0 <= i < next.len() ==> #[trigger] next[i] == data[i + 1]
            } else {
                &&& next.len() == data.len()
                &&& forall|i: int| 0 < i < next.len() ==> #[trigger] next[i] == data[i]
                &&& match data[0] {
                    EntryIo::Data(limit) => next[0] == EntryIo::Data((limit - n) as u64),
                    EntryIo::Pad { byte, limit } => next[0] == (EntryIo::Pad {
                        byte,
                        limit: (limit - n) as u64,
                    }),
                }
            }
        }),
        match data[0] {
            EntryIo::Data(limit) => data[0].spec_limit() == limit,
            EntryIo::Pad { limit, .. } => data[0].spec_limit() == limit,
        },
{
}

/// A read that fails ends the reading of an entry as a whole with that failure.
pub proof fn law_read_fails(start: Seq<u8>, data: Seq<EntryIo>, cause: ErrorView)
    ensures
        ({
            let m = ReadAllView { content: Ok(start), over: false };
            let now = read_after(m, data, Err(cause));
            &&& now.over
            &&& now.content == Err::<Seq<u8>, ErrorView>(cause)
            &&& data_after(data, polled_of(Err(cause))) == data
        }),
{
}

/// What is read to its end stands in the archive.
proof fn lemma_stays_in_archive(
    archive: Seq<u8>,
    pos: int,
    data: Seq<EntryIo>,
    chunks: Seq<Seq<u8>>,
)
    requires
        0 <= pos <= archive.len(),
        are_chunks(chunks),
        in_full(data, lengths(chunks)),
        are_read_from(archive, pos, data, chunks),
        data_after_all(data, lengths(chunks)).len() == 0,
        data.len() != 0,
    ensures
        data[0] matches EntryIo::Data(limit) ==> pos + limit <= archive.len(),
    decreases chunks.len(),
{
    if chunks.len() == 0 {
        assert(lengths(chunks).len() == 0);
    } else {
        lemma_chunks(chunks);
        if let EntryIo::Data(limit) = data[0] {
            let n = chunks[0].len() as int;
            if n != 0 {
                let next = data_after(data, polled_of(Ok(chunks[0])));
                lemma_stays_in_archive(archive, pos + n, next, chunks.skip(1));
            }
        }
    }
}

/// Whether the positions of an entry are those that it has in an archive: its header stands at the
/// one, in 512 bytes, and its content, if it is in one piece, begins at the other.
pub open spec fn stands_in(entry: EntryFields, archive: Seq<u8>) -> bool {
    &&& entry.header_pos + 512 <= archive.len()
    &&& archive.subrange(entry.header_pos as int, entry.header_pos + 512) == entry.header.bytes@
    &&& entry.file_pos <= archive.len()
}

/// What the positions of an entry are good for, where whoever read the archive gave them as they are
/// in it: the 512 bytes at the one are the header, and as many bytes as the entry has at the other
/// are what reading gives, where the content is in one piece.
pub proof fn law_raw_positions(entry: EntryFields, archive: Seq<u8>, chunks: Seq<Seq<u8>>)
    requires
        stands_in(entry, archive),
        entry.data@ == seq![EntryIo::Data(entry.size)],
        are_chunks(chunks),
        in_full(entry.data@, lengths(chunks)),
        are_read_from(archive, entry.file_pos as int, entry.data@, chunks),
        data_after_all(entry.data@, lengths(chunks)).len() == 0,
    ensures
        archive.subrange(entry.header_pos as int, entry.header_pos + 512) == entry.header.bytes@,
        read_run(
            ReadAllView { content: Ok(Seq::empty()), over: false },
            entry.data@,
            chunks,
        ).content == Ok::<Seq<u8>, ErrorView>(
            archive.subrange(entry.file_pos as int, entry.file_pos + entry.size),
        ),
{
    let pos = entry.file_pos as int;
    law_read_all(Seq::empty(), entry.data@, chunks);
    law_content_read(archive, pos, entry.data@, chunks);
    assert(entry.data@.skip(1) =~= Seq::empty());
    assert(laid_out(archive, pos + entry.size, entry.data@.skip(1)) =~= Seq::empty());
    assert(Seq::empty() + chunks.flatten() =~= archive.subrange(pos, pos + entry.size));
}

} // verus!
