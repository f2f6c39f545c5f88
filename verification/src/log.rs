//! The per-topic commit log storage engine: fixed-width index entries, the
//! index region, the log region, segments with rollover, the persistent
//! cursor tracker, and the commit log over an ordered list of segments.
//!
//! The engine is modeled over in-memory byte buffers that mirror the on-disk
//! files byte for byte: `Index.data` holds the mapped index file, `Log.data`
//! the log file, and `CommitLog.queue_pos` the tracker file. The surrounding
//! process persists those buffers and feeds them back on restore.

use vstd::prelude::*;

verus! {

use vstd::pervasive::unreached;
use crate::wire::{
    spec_u32_to_be_bytes, spec_u32_from_be_bytes, u32_to_be_bytes, u32_from_be_at,
    lemma_u32_be_bytes_round_trip,
};

/// The default upper bound on a segment's log bytes, and the size an index
/// file is pre-allocated to.
pub const SEGMENT_SIZE: usize = 1024 * 1024;

/// The width of one index entry in bytes.
pub const ENTRY_SIZE: usize = 8;

/// Declares `std::io::Error` so storage errors can carry the filesystem
/// failure the surrounding process observed; the library itself never
/// constructs one.
#[verifier::external_type_specification]
#[verifier::external_body]
pub struct ExIoError(std::io::Error);

/// What can go wrong in the storage engine.
#[derive(Debug)]
pub enum StorageError {
    /// The segment cannot take the data; recovered by rolling over.
    NoSpaceLeft,
    /// An underlying filesystem failure, reported by the surrounding process.
    IoError(std::io::Error),
    SegmentNotFound,
    /// The storage root holds no topic yet; recovered at startup.
    DirEmpty,
    InvalidSeek,
    /// A read reached the write cursor; surfaced as "no new messages".
    LogIndexOutofBound,
}

/// Overwrites `dest[at .. at + src.len()]` with `src`, in place.
fn write_bytes_at(dest: &mut Vec<u8>, at: usize, src: &[u8])
    requires
        at + src@.len() <= old(dest)@.len(),
    ensures
        final(dest)@ == old(dest)@.subrange(0, at as int) + src@ + old(dest)@.subrange(
            at + src@.len(),
            old(dest)@.len() as int,
        ),
{
    let ghost dest0 = dest@;
    let dlen = dest.len();
    let mut k: usize = 0;
    while k < src.len()
        invariant
            k <= src@.len(),
            at + src@.len() <= dest0.len(),
            dest0.len() == dlen,
            dest@.len() == dest0.len(),
            forall|i: int|
                0 <= i < dest0.len() ==> #[trigger] dest@[i] == (if at <= i < at + k {
                    src@[i - at]
                } else {
                    dest0[i]
                }),
        decreases src@.len() - k,
    {
        dest[at + k] = src[k];
        k = k + 1;
    }
    assert(dest@ =~= dest0.subrange(0, at as int) + src@ + dest0.subrange(
        at + src@.len(),
        dest0.len() as int,
    ));
}

/// One fixed-width index record: where a payload starts in the log file, and
/// how many bytes it has.
#[derive(Debug)]
pub struct Entry {
    pub offset: u32,
    pub size: u32,
}

/// The byte encoding of an index entry.
pub open spec fn spec_entry_bytes(offset: u32, size: u32) -> Seq<u8> {
    spec_u32_to_be_bytes(offset) + spec_u32_to_be_bytes(size)
}

impl Entry {
    pub fn new(offset: u32, size: u32) -> (r: Entry)
        ensures
            r.offset == offset,
            r.size == size,
    {
        Entry { offset, size }
    }

    /// Emits the entry's eight-byte encoding.
    pub fn as_bytes(&self) -> (r: Vec<u8>)
        ensures
            r@ == spec_entry_bytes(self.offset, self.size),
            r@.len() == 8,
    {
        let mut payload: Vec<u8> = Vec::new();
        let mut offset = u32_to_be_bytes(self.offset);
        payload.append(&mut offset);
        let mut size = u32_to_be_bytes(self.size);
        payload.append(&mut size);
        assert(payload@ =~= spec_entry_bytes(self.offset, self.size));
        payload
    }

    /// Decodes an entry from the first eight bytes of `data`.
    pub fn from_bytes(data: &[u8]) -> (r: Entry)
        requires
            data@.len() >= 8,
        ensures
            r.offset == spec_u32_from_be_bytes(data@.subrange(0, 4)),
            r.size == spec_u32_from_be_bytes(data@.subrange(4, 8)),
    {
        Entry { offset: u32_from_be_at(data, 0), size: u32_from_be_at(data, 4) }
    }
}

/// The persistent per-topic cursor record: which segment the reader is in,
/// its byte offset into that segment's index, and the last written index
/// offset of the last segment.
#[derive(Debug)]
pub struct Tracker {
    pub position: u32,
    pub offset: u32,
    pub last_write_offset: u32,
}

/// The twelve-byte encoding of a tracker record.
pub open spec fn spec_tracker_bytes(position: u32, offset: u32, lwoffset: u32) -> Seq<u8> {
    spec_u32_to_be_bytes(position) + spec_u32_to_be_bytes(offset) + spec_u32_to_be_bytes(lwoffset)
}

impl Tracker {
    /// Emits the tracker record for the given cursor values.
    pub fn to_bytes(position: u32, offset: u32, lwoffset: u32) -> (r: Vec<u8>)
        ensures
            r@ == spec_tracker_bytes(position, offset, lwoffset),
            r@.len() == 12,
    {
        let mut payload: Vec<u8> = Vec::new();
        let mut position_bytes = u32_to_be_bytes(position);
        payload.append(&mut position_bytes);
        let mut offset_bytes = u32_to_be_bytes(offset);
        payload.append(&mut offset_bytes);
        let mut lwoffset_bytes = u32_to_be_bytes(lwoffset);
        payload.append(&mut lwoffset_bytes);
        assert(payload@ =~= spec_tracker_bytes(position, offset, lwoffset));
        payload
    }

    /// Decodes a tracker record from the first twelve bytes of `buf`.
    pub fn from_bytes(buf: &[u8]) -> (r: Tracker)
        requires
            buf@.len() >= 12,
        ensures
            r.position == spec_u32_from_be_bytes(buf@.subrange(0, 4)),
            r.offset == spec_u32_from_be_bytes(buf@.subrange(4, 8)),
            r.last_write_offset == spec_u32_from_be_bytes(buf@.subrange(8, 12)),
    {
        let position = u32_from_be_at(buf, 0);
        let offset = u32_from_be_at(buf, 4);
        let lwoffset = u32_from_be_at(buf, 8);
        Tracker { position, offset, last_write_offset: lwoffset }
    }
}

/// Decoding the encoding of a tracker record yields its fields.
pub proof fn lemma_tracker_round_trip(position: u32, offset: u32, lwoffset: u32)
    ensures
        spec_tracker_bytes(position, offset, lwoffset).len() == 12,
        spec_u32_from_be_bytes(spec_tracker_bytes(position, offset, lwoffset).subrange(0, 4))
            == position,
        spec_u32_from_be_bytes(spec_tracker_bytes(position, offset, lwoffset).subrange(4, 8))
            == offset,
        spec_u32_from_be_bytes(spec_tracker_bytes(position, offset, lwoffset).subrange(8, 12))
            == lwoffset,
{
    lemma_u32_be_bytes_round_trip(position);
    lemma_u32_be_bytes_round_trip(offset);
    lemma_u32_be_bytes_round_trip(lwoffset);
    let e = spec_tracker_bytes(position, offset, lwoffset);
    assert(e.subrange(0, 4) =~= spec_u32_to_be_bytes(position));
    assert(e.subrange(4, 8) =~= spec_u32_to_be_bytes(offset));
    assert(e.subrange(8, 12) =~= spec_u32_to_be_bytes(lwoffset));
}

/// The log offset recorded in entry `i` of an index region.
pub open spec fn spec_entry_offset_at(idx: Seq<u8>, i: int) -> int {
    spec_u32_from_be_bytes(idx.subrange(8 * i, 8 * i + 4)) as int
}

/// The payload size recorded in entry `i` of an index region.
pub open spec fn spec_entry_size_at(idx: Seq<u8>, i: int) -> int {
    spec_u32_from_be_bytes(idx.subrange(8 * i + 4, 8 * i + 8)) as int
}

/// The log offset one past entry `i - 1`: the sum of the first `i` payload
/// sizes recorded in the index region.
pub open spec fn spec_end_at(idx: Seq<u8>, i: int) -> int
    decreases i,
{
    if i <= 0 {
        0
    } else {
        spec_end_at(idx, i - 1) + spec_entry_size_at(idx, i - 1)
    }
}

/// Entry end offsets never decrease.
pub proof fn lemma_end_at_monotonic(idx: Seq<u8>, i: int, j: int)
    requires
        0 <= i <= j,
    ensures
        spec_end_at(idx, i) <= spec_end_at(idx, j),
    decreases j,
{
    if i < j {
        lemma_end_at_monotonic(idx, i, j - 1);
    }
}

/// Two index regions that agree on their first `8 * n` bytes record the
/// same end offsets up to `n`.
pub proof fn lemma_end_at_congruent(a: Seq<u8>, b: Seq<u8>, n: int)
    requires
        forall|j: int| 0 <= j < n ==> spec_entry_size_at(a, j) == spec_entry_size_at(b, j),
    ensures
        spec_end_at(a, n) == spec_end_at(b, n),
    decreases n,
{
    if n > 0 {
        lemma_end_at_congruent(a, b, n - 1);
    }
}

/// The in-memory image of one index file: a fixed-size region of eight-byte
/// entries, a write cursor, and a read cursor for the from-the-start walk.
#[derive(Debug)]
pub struct Index {
    /// The contents of the index region, `max_size` bytes.
    pub data: Vec<u8>,
    /// The write cursor: bytes `[0, offset)` hold valid entries.
    pub offset: usize,
    /// The read cursor of the from-the-start walk.
    pub roffset: usize,
    /// The size the region is allocated to.
    pub max_size: usize,
}

impl Index {
    /// The region is intact and both cursors are aligned and in range.
    pub open spec fn wf(self) -> bool {
        &&& self.data@.len() == self.max_size
        &&& self.offset % 8 == 0
        &&& self.offset <= self.max_size
        &&& self.roffset % 8 == 0
        &&& self.roffset <= self.offset
    }

    /// How many entries have been written.
    pub open spec fn entry_count(self) -> int {
        self.offset as int / 8
    }

    /// The log offset recorded in entry `i`.
    pub open spec fn entry_offset(self, i: int) -> int
        recommends
            0 <= i < self.entry_count(),
    {
        spec_entry_offset_at(self.data@, i)
    }

    /// The payload size recorded in entry `i`.
    pub open spec fn entry_size(self, i: int) -> int
        recommends
            0 <= i < self.entry_count(),
    {
        spec_entry_size_at(self.data@, i)
    }

    /// A fresh index region of `max_size` zero bytes. `pos` is the id of
    /// the segment the region belongs to; the surrounding process names the
    /// index file after it.
    pub fn new(pos: u32, max_size: usize) -> (r: Index)
        ensures
            r.wf(),
            r.offset == 0,
            r.roffset == 0,
            r.max_size == max_size,
            r.entry_count() == 0,
    {
        let data: Vec<u8> = vec![0u8; max_size];
        Index { data, offset: 0, roffset: 0, max_size }
    }

    /// Writes one entry at the write cursor and advances it; fails when the
    /// region cannot take eight more bytes.
    pub fn write(&mut self, entry: &Entry) -> (r: Result<usize, StorageError>)
        requires
            old(self).wf(),
        ensures
            final(self).wf(),
            r is Ok <==> old(self).offset + 8 <= old(self).max_size,
            r matches Ok(n) ==> n == 8,
            r matches Err(e) ==> e is NoSpaceLeft && *final(self) == *old(self),
            r is Ok ==> {
                &&& final(self).offset == old(self).offset + 8
                &&& final(self).roffset == old(self).roffset
                &&& final(self).max_size == old(self).max_size
                &&& final(self).entry_count() == old(self).entry_count() + 1
                &&& final(self).data@ == old(self).data@.subrange(0, old(self).offset as int)
                    + spec_entry_bytes(entry.offset, entry.size) + old(self).data@.subrange(
                    old(self).offset + 8,
                    old(self).data@.len() as int,
                )
            },
    {
        // `cap` carries the region length as a machine word, bounding the
        // cursor arithmetic below
        let cap = self.data.len();
        if self.max_size - self.offset < ENTRY_SIZE {
            return Err(StorageError::NoSpaceLeft);
        }
        let bytes = entry.as_bytes();
        write_bytes_at(&mut self.data, self.offset, bytes.as_slice());
        self.advance(8);
        Ok(8)
    }

    /// Moves the write cursor forward by `size` bytes.
    fn advance(&mut self, size: usize)
        requires
            old(self).offset + size <= usize::MAX,
        ensures
            *final(self) == (Index { offset: (old(self).offset + size) as usize, ..*old(self) }),
    {
        self.offset = self.offset + size;
    }

    /// Forcing the region to disk is the surrounding process's concern; the
    /// in-memory image is already current.
    pub fn flush(&mut self) -> (r: Result<(), StorageError>)
        ensures
            *final(self) == *old(self),
            r is Ok,
    {
        Ok(())
    }

    /// Reads the entry whose encoding ends at byte `offset`; fails when
    /// `offset` lies before the first entry or past the write cursor. Offsets are
    /// required to be entry-aligned: an unaligned offset addresses no entry,
    /// so the interface is strengthened to aligned offsets rather than
    /// decoding bytes that straddle two records.
    pub fn seek_at(&self, offset: usize) -> (r: Result<Entry, StorageError>)
        requires
            self.wf(),
            offset % 8 == 0,
        ensures
            r is Ok <==> 8 <= offset <= self.offset,
            r matches Err(e) ==> e is LogIndexOutofBound,
            r matches Ok(e) ==> {
                &&& e.offset == self.entry_offset(offset as int / 8 - 1)
                &&& e.size == self.entry_size(offset as int / 8 - 1)
            },
    {
        if offset < ENTRY_SIZE || offset > self.offset {
            return Err(StorageError::LogIndexOutofBound);
        }
        let e = Entry::from_bytes(vstd::slice::slice_subrange(
            self.data.as_slice(),
            offset - 8,
            offset,
        ));
        proof {
            let i = offset as int / 8 - 1;
            assert(8 * i == offset - 8);
            assert(self.data@.subrange(offset - 8, offset as int).subrange(0, 4)
                =~= self.data@.subrange(8 * i, 8 * i + 4));
            assert(self.data@.subrange(offset - 8, offset as int).subrange(4, 8)
                =~= self.data@.subrange(8 * i + 4, 8 * i + 8));
        }
        Ok(e)
    }

    /// Advances the from-the-start read cursor over the next entry and
    /// returns it; fails when the cursor has reached the write cursor.
    pub fn seek_from_start(&mut self) -> (r: Result<Entry, StorageError>)
        requires
            old(self).wf(),
        ensures
            final(self).wf(),
            r is Ok <==> old(self).roffset < old(self).offset,
            r matches Err(e) ==> e is LogIndexOutofBound && *final(self) == *old(self),
            r matches Ok(e) ==> {
                &&& *final(self) == (Index {
                    roffset: (old(self).roffset + 8) as usize,
                    ..*old(self)
                })
                &&& e.offset == old(self).entry_offset(old(self).roffset as int / 8)
                &&& e.size == old(self).entry_size(old(self).roffset as int / 8)
            },
    {
        if self.roffset >= self.offset {
            Err(StorageError::LogIndexOutofBound)
        } else {
            self.roffset = self.roffset + 8;
            let e = Entry::from_bytes(vstd::slice::slice_subrange(
                self.data.as_slice(),
                self.roffset - 8,
                self.roffset,
            ));
            proof {
                let i = self.roffset as int / 8 - 1;
                assert(8 * i == self.roffset - 8);
                assert(self.data@.subrange(self.roffset - 8, self.roffset as int).subrange(0, 4)
                    =~= self.data@.subrange(8 * i, 8 * i + 4));
                assert(self.data@.subrange(self.roffset - 8, self.roffset as int).subrange(4, 8)
                    =~= self.data@.subrange(8 * i + 4, 8 * i + 8));
            }
            Ok(e)
        }
    }

    /// Reads the entry that starts at byte `offset`, without moving cursors.
    pub fn seek_after(&self, offset: usize) -> (r: Result<Entry, StorageError>)
        requires
            self.wf(),
            offset % 8 == 0,
            offset + 8 <= self.offset,
        ensures
            r matches Ok(e) ==> {
                &&& e.offset == self.entry_offset(offset as int / 8)
                &&& e.size == self.entry_size(offset as int / 8)
            },
            r is Ok,
    {
        let e = Entry::from_bytes(vstd::slice::slice_subrange(
            self.data.as_slice(),
            offset,
            offset + 8,
        ));
        proof {
            let i = offset as int / 8;
            assert(8 * i == offset);
            assert(self.data@.subrange(offset as int, offset + 8).subrange(0, 4)
                =~= self.data@.subrange(8 * i, 8 * i + 4));
            assert(self.data@.subrange(offset as int, offset + 8).subrange(4, 8)
                =~= self.data@.subrange(8 * i + 4, 8 * i + 8));
        }
        Ok(e)
    }

    /// Shrinks the region to exactly the written bytes; called once, when
    /// the segment closes.
    pub fn resize(&mut self)
        requires
            old(self).wf(),
        ensures
            final(self).wf(),
            final(self).data@ == old(self).data@.subrange(0, old(self).offset as int),
            final(self).max_size == old(self).offset,
            final(self).offset == old(self).offset,
            final(self).roffset == old(self).roffset,
    {
        self.data.truncate(self.offset);
        self.max_size = self.offset;
        assert(self.data@ =~= old(self).data@.subrange(0, old(self).offset as int));
    }

    /// The log offset one past entry `i - 1`: the sum of the first `i`
    /// payload sizes.
    pub open spec fn end_of(self, i: int) -> int {
        spec_end_at(self.data@, i)
    }
}

/// The payloads that the first `n` entries of an index region select from
/// a log region, in append order.
pub open spec fn spec_payloads_of(log: Seq<u8>, idx: Seq<u8>, n: int) -> Seq<Seq<u8>> {
    Seq::new(
        n as nat,
        |i: int| log.subrange(spec_end_at(idx, i), spec_end_at(idx, i) + spec_entry_size_at(idx, i)),
    )
}

/// The in-memory image of one log file paired with its index.
#[derive(Debug)]
pub struct Log {
    /// The contents of the log file: payload bytes in append order.
    pub data: Vec<u8>,
    /// The paired index region.
    pub index: Index,
}

impl Log {
    /// The index is intact, its entries tile the log bytes in order, and the
    /// log holds exactly the indexed bytes.
    pub open spec fn wf(self) -> bool {
        &&& self.index.wf()
        &&& forall|i: int|
            0 <= i < self.index.entry_count() ==> #[trigger] spec_entry_offset_at(
                self.index.data@,
                i,
            ) == spec_end_at(self.index.data@, i)
        &&& self.data@.len() == spec_end_at(self.index.data@, self.index.entry_count())
    }

    /// The stored payloads, in append order.
    pub open spec fn payloads(self) -> Seq<Seq<u8>> {
        spec_payloads_of(self.data@, self.index.data@, self.index.entry_count())
    }

    /// A fresh, empty log with an index region of `max_size` bytes, for
    /// the segment with id `pos`.
    pub fn new(pos: u32, max_size: usize) -> (r: Log)
        ensures
            r.wf(),
            r.data@.len() == 0,
            r.index.offset == 0,
            r.index.roffset == 0,
            r.index.max_size == max_size,
            r.payloads() == Seq::<Seq<u8>>::empty(),
    {
        let r = Log { data: Vec::new(), index: Index::new(pos, max_size) };
        assert(r.payloads() =~= Seq::<Seq<u8>>::empty());
        r
    }

    /// Appends one entry to the index and the payload bytes to the log;
    /// fails, changing nothing, when the index region is full.
    pub fn write(&mut self, data: &[u8], entry: &Entry) -> (r: Result<(), StorageError>)
        requires
            old(self).index.wf(),
        ensures
            r is Ok <==> old(self).index.offset + 8 <= old(self).index.max_size,
            r matches Err(e) ==> e is NoSpaceLeft && *final(self) == *old(self),
            r is Ok ==> {
                &&& final(self).data@ == old(self).data@ + data@
                &&& final(self).index.wf()
                &&& final(self).index.offset == old(self).index.offset + 8
                &&& final(self).index.roffset == old(self).index.roffset
                &&& final(self).index.max_size == old(self).index.max_size
                &&& final(self).index.data@ == old(self).index.data@.subrange(
                    0,
                    old(self).index.offset as int,
                ) + spec_entry_bytes(entry.offset, entry.size) + old(self).index.data@.subrange(
                    old(self).index.offset + 8,
                    old(self).index.data@.len() as int,
                )
            },
    {
        match self.index.write(entry) {
            Ok(_) => {
                self.data.extend_from_slice(data);
                Ok(())
            },
            Err(e) => Err(e),
        }
    }

    /// Forcing the images to disk is the surrounding process's concern.
    pub fn flush(&mut self) -> (r: Result<(), StorageError>)
        ensures
            *final(self) == *old(self),
            r is Ok,
    {
        match self.index.flush() {
            Ok(_) => Ok(()),
            Err(e) => Err(e),
        }
    }

    /// Reads the payload of the entry whose encoding ends at byte `offset`
    /// of the index; `offset` must be entry-aligned.
    pub fn seek_at(&self, offset: usize) -> (r: Result<Vec<u8>, StorageError>)
        requires
            self.wf(),
            offset % 8 == 0,
        ensures
            r is Ok <==> 8 <= offset <= self.index.offset,
            r matches Err(e) ==> e is LogIndexOutofBound,
            r matches Ok(v) ==> v@ == self.payloads()[offset as int / 8 - 1],
    {
        let e = match self.index.seek_at(offset) {
            Ok(e) => e,
            Err(err) => {
                return Err(err);
            },
        };
        // bring the log length into scope as a machine word, bounding the
        // slice arithmetic below
        let dlen = self.data.len();
        proof {
            let i = offset as int / 8 - 1;
            lemma_end_at_monotonic(self.index.data@, i + 1, self.index.entry_count());
        }
        let buf = vstd::slice::slice_to_vec(vstd::slice::slice_subrange(
            self.data.as_slice(),
            e.offset as usize,
            e.offset as usize + e.size as usize,
        ));
        Ok(buf)
    }

    /// Reads the payload at the from-the-start cursor and advances it.
    pub fn seek_from_start(&mut self) -> (r: Result<Vec<u8>, StorageError>)
        requires
            old(self).wf(),
        ensures
            final(self).wf(),
            final(self).data == old(self).data,
            final(self).payloads() == old(self).payloads(),
            final(self).index.offset == old(self).index.offset,
            final(self).index.max_size == old(self).index.max_size,
            final(self).index.data == old(self).index.data,
            r is Ok <==> old(self).index.roffset < old(self).index.offset,
            r matches Err(e) ==> e is LogIndexOutofBound && *final(self) == *old(self),
            r matches Ok(v) ==> {
                &&& v@ == old(self).payloads()[old(self).index.roffset as int / 8]
                &&& final(self).index.roffset == old(self).index.roffset + 8
            },
    {
        let e = match self.index.seek_from_start() {
            Ok(e) => e,
            Err(err) => {
                return Err(err);
            },
        };
        let dlen = self.data.len();
        proof {
            let i = old(self).index.roffset as int / 8;
            lemma_end_at_monotonic(old(self).index.data@, i + 1, old(self).index.entry_count());
        }
        let buf = vstd::slice::slice_to_vec(vstd::slice::slice_subrange(
            self.data.as_slice(),
            e.offset as usize,
            e.offset as usize + e.size as usize,
        ));
        Ok(buf)
    }

    /// Reads the payload of the entry that starts at byte `offset` of the
    /// index, without moving cursors.
    pub fn seek_next(&self, offset: usize) -> (r: Result<Vec<u8>, StorageError>)
        requires
            self.wf(),
            offset % 8 == 0,
            offset + 8 <= self.index.offset,
        ensures
            r is Ok,
            r matches Ok(v) ==> v@ == self.payloads()[offset as int / 8],
    {
        let e = match self.index.seek_after(offset) {
            Ok(e) => e,
            Err(err) => {
                return Err(err);
            },
        };
        let dlen = self.data.len();
        proof {
            let i = offset as int / 8;
            lemma_end_at_monotonic(self.index.data@, i + 1, self.index.entry_count());
        }
        let buf = vstd::slice::slice_to_vec(vstd::slice::slice_subrange(
            self.data.as_slice(),
            e.offset as usize,
            e.offset as usize + e.size as usize,
        ));
        Ok(buf)
    }
}

/// The unit of rollover: one log file paired with one index file, bounded by
/// a configured maximum of log bytes.
#[derive(Debug)]
pub struct Segment {
    pub log: Log,
    pub path: String,
    pub base_offset: u64,
    pub current_offset: u64,
    pub segment_size: u64,
    pub closed: bool,
}

impl Segment {
    /// The pairing is intact: the write offset mirrors the log bytes, stays
    /// within the configured bound, and an open segment keeps its index
    /// region pre-allocated to the segment size.
    pub open spec fn wf(self) -> bool {
        &&& self.log.wf()
        &&& self.segment_size <= u32::MAX
        &&& self.log.index.max_size <= self.segment_size
        &&& self.current_offset == self.log.data@.len()
        &&& self.current_offset <= self.segment_size
        &&& self.base_offset == 0
        &&& (!self.closed ==> self.log.index.max_size as int == self.segment_size as int)
    }

    /// The stored payloads, in append order.
    pub open spec fn payloads(self) -> Seq<Seq<u8>> {
        self.log.payloads()
    }

    /// How many payloads the segment stores.
    pub open spec fn entry_count(self) -> int {
        self.log.index.entry_count()
    }

    /// A fresh, empty, open segment.
    pub fn new(dir: &str, log_name: u32, segment_size: u64) -> (r: Segment)
        requires
            segment_size <= u32::MAX,
        ensures
            r.wf(),
            r.payloads() == Seq::<Seq<u8>>::empty(),
            r.entry_count() == 0,
            r.current_offset == 0,
            r.closed == false,
            r.segment_size == segment_size,
            r.log.index.offset == 0,
            r.log.index.roffset == 0,
            r.path@ == dir@,
    {
        let path = dir.to_owned();
        let r = Segment {
            log: Log::new(log_name, segment_size as usize),
            path,
            base_offset: 0,
            current_offset: 0,
            segment_size,
            closed: false,
        };
        assert(r.payloads() =~= Seq::<Seq<u8>>::empty());
        r
    }

    /// Whether `entry_size` more log bytes would cross the segment bound.
    fn check_split(&self, entry_size: u64) -> (r: Result<bool, StorageError>)
        requires
            self.wf(),
        ensures
            r is Ok <==> self.current_offset + entry_size <= self.segment_size,
            r matches Err(e) ==> e is NoSpaceLeft,
    {
        if entry_size > self.segment_size - self.current_offset {
            Err(StorageError::NoSpaceLeft)
        } else {
            Ok(true)
        }
    }

    /// Appends one payload: writes its entry to the index, its bytes to the
    /// log, and advances the write offset. Fails, changing nothing, when the
    /// log bytes would cross the segment bound or the index region is full.
    pub fn append_data(&mut self, data: &[u8]) -> (r: Result<(), StorageError>)
        requires
            old(self).wf(),
            !old(self).closed,
        ensures
            final(self).wf(),
            final(self).closed == old(self).closed,
            final(self).segment_size == old(self).segment_size,
            final(self).path == old(self).path,
            final(self).log.index.roffset == old(self).log.index.roffset,
            r is Ok <==> (old(self).current_offset + data@.len() <= old(self).segment_size
                && old(self).log.index.offset + 8 <= old(self).log.index.max_size),
            r matches Err(e) ==> e is NoSpaceLeft && *final(self) == *old(self),
            r is Ok ==> {
                &&& final(self).payloads() == old(self).payloads().push(data@)
                &&& final(self).entry_count() == old(self).entry_count() + 1
                &&& final(self).current_offset == old(self).current_offset + data@.len()
                &&& final(self).log.data@ == old(self).log.data@ + data@
                &&& final(self).log.index.offset == old(self).log.index.offset + 8
                &&& final(self).log.index.max_size == old(self).log.index.max_size
            },
    {
        match self.check_split(data.len() as u64) {
            Ok(_) => {
                let entry = Entry::new(self.current_offset as u32, data.len() as u32);
                match self.log.write(data, &entry) {
                    Ok(_) => {},
                    Err(e) => {
                        return Err(e);
                    },
                }
                self.current_offset = self.current_offset + data.len() as u64;
                match self.flush() {
                    Ok(_) => {},
                    Err(e) => {
                        return Err(e);
                    },
                }
                proof {
                    self.lemma_append_shape(*old(self), data@, entry);
                }
                Ok(())
            },
            Err(e) => Err(e),
        }
    }

    /// After one entry and its bytes are appended, the new segment state is
    /// the old one with the payload pushed.
    proof fn lemma_append_shape(self, prev: Segment, data: Seq<u8>, entry: Entry)
        requires
            prev.wf(),
            !prev.closed,
            entry.offset == prev.current_offset,
            entry.size == data.len(),
            prev.current_offset + data.len() <= prev.segment_size,
            self.log.data@ == prev.log.data@ + data,
            self.log.index.wf(),
            self.log.index.offset == prev.log.index.offset + 8,
            self.log.index.max_size == prev.log.index.max_size,
            self.log.index.data@ == prev.log.index.data@.subrange(
                0,
                prev.log.index.offset as int,
            ) + spec_entry_bytes(entry.offset, entry.size) + prev.log.index.data@.subrange(
                prev.log.index.offset + 8,
                prev.log.index.data@.len() as int,
            ),
            self.current_offset == prev.current_offset + data.len(),
            self.segment_size == prev.segment_size,
            self.closed == prev.closed,
            self.base_offset == prev.base_offset,
        ensures
            self.wf(),
            self.payloads() == prev.payloads().push(data),
            self.entry_count() == prev.entry_count() + 1,
    {
        let n = prev.log.index.entry_count();
        let d0 = prev.log.index.data@;
        let d1 = self.log.index.data@;
        assert(prev.log.index.offset == 8 * n);
        assert(self.log.index.entry_count() == n + 1);
        lemma_u32_be_bytes_round_trip(entry.offset);
        lemma_u32_be_bytes_round_trip(entry.size);
        assert forall|j: int| 0 <= j < n implies spec_entry_offset_at(d1, j)
            == spec_entry_offset_at(d0, j) && spec_entry_size_at(d1, j) == spec_entry_size_at(
            d0,
            j,
        ) by {
            assert(d1.subrange(8 * j, 8 * j + 4) =~= d0.subrange(8 * j, 8 * j + 4));
            assert(d1.subrange(8 * j + 4, 8 * j + 8) =~= d0.subrange(8 * j + 4, 8 * j + 8));
        }
        assert(d1.subrange(8 * n, 8 * n + 4) =~= spec_u32_to_be_bytes(entry.offset));
        assert(d1.subrange(8 * n + 4, 8 * n + 8) =~= spec_u32_to_be_bytes(entry.size));
        assert(spec_entry_offset_at(d1, n) == entry.offset);
        assert(spec_entry_size_at(d1, n) == entry.size);
        assert forall|j: int| 0 <= j <= n implies spec_end_at(d1, j) == spec_end_at(d0, j) by {
            lemma_end_at_congruent(d1, d0, j);
        }
        assert(spec_end_at(d1, n + 1) == spec_end_at(d1, n) + spec_entry_size_at(d1, n));
        assert(spec_end_at(d0, n) == prev.log.data@.len());
        assert forall|i: int| 0 <= i < n + 1 implies #[trigger] spec_entry_offset_at(d1, i)
            == spec_end_at(d1, i) by {
            if i < n {
                assert(spec_entry_offset_at(d0, i) == spec_end_at(d0, i));
            }
        }
        assert(self.log.data@.len() == spec_end_at(d1, n + 1));
        assert(self.log.wf());
        assert forall|i: int| 0 <= i < n implies self.payloads()[i] == prev.payloads()[i] by {
            lemma_end_at_monotonic(d0, i + 1, n);
            assert(spec_end_at(d0, i) + spec_entry_size_at(d0, i) == spec_end_at(d0, i + 1));
            assert(self.log.data@.subrange(
                spec_end_at(d1, i),
                spec_end_at(d1, i) + spec_entry_size_at(d1, i),
            ) =~= prev.log.data@.subrange(
                spec_end_at(d0, i),
                spec_end_at(d0, i) + spec_entry_size_at(d0, i),
            ));
        }
        assert(self.log.data@.subrange(spec_end_at(d1, n), spec_end_at(d1, n)
            + spec_entry_size_at(d1, n)) =~= data);
        assert(self.payloads() =~= prev.payloads().push(data));
    }

    /// Forcing the images to disk is the surrounding process's concern.
    pub fn flush(&mut self) -> (r: Result<(), StorageError>)
        ensures
            *final(self) == *old(self),
            r is Ok,
    {
        match self.log.flush() {
            Ok(_) => Ok(()),
            Err(e) => Err(e),
        }
    }

    /// Reads the payload whose index entry ends at byte `position`;
    /// `position` must be entry-aligned.
    pub fn read_at(&self, position: usize) -> (r: Result<Vec<u8>, StorageError>)
        requires
            self.wf(),
            position % 8 == 0,
        ensures
            r is Ok <==> 8 <= position <= self.log.index.offset,
            r matches Err(e) ==> e is LogIndexOutofBound,
            r matches Ok(v) ==> v@ == self.payloads()[position as int / 8 - 1],
    {
        self.log.seek_at(position)
    }

    /// Reads the payload whose index entry starts at byte `position`.
    pub fn read_next(&self, position: usize) -> (r: Result<Vec<u8>, StorageError>)
        requires
            self.wf(),
            position % 8 == 0,
            position + 8 <= self.log.index.offset,
        ensures
            r is Ok,
            r matches Ok(v) ==> v@ == self.payloads()[position as int / 8],
    {
        self.log.seek_next(position)
    }

    /// Reads the payload at the from-the-start cursor and advances it.
    pub fn read_from_start(&mut self) -> (r: Result<Vec<u8>, StorageError>)
        requires
            old(self).wf(),
        ensures
            final(self).wf(),
            final(self).payloads() == old(self).payloads(),
            final(self).entry_count() == old(self).entry_count(),
            final(self).closed == old(self).closed,
            final(self).segment_size == old(self).segment_size,
            final(self).current_offset == old(self).current_offset,
            final(self).path == old(self).path,
            final(self).base_offset == old(self).base_offset,
            final(self).log.data == old(self).log.data,
            final(self).log.index.data == old(self).log.index.data,
            final(self).log.index.offset == old(self).log.index.offset,
            final(self).log.index.max_size == old(self).log.index.max_size,
            r is Ok <==> old(self).log.index.roffset < old(self).log.index.offset,
            r matches Err(e) ==> e is LogIndexOutofBound && *final(self) == *old(self),
            r matches Ok(v) ==> {
                &&& v@ == old(self).payloads()[old(self).log.index.roffset as int / 8]
                &&& final(self).log.index.roffset == old(self).log.index.roffset + 8
            },
    {
        self.log.seek_from_start()
    }

    /// Reopens a closed segment for appends: pads its index region back to
    /// the pre-allocated segment size.
    fn reopen(&mut self)
        requires
            old(self).wf(),
            old(self).closed,
            old(self).log.index.max_size <= old(self).segment_size,
        ensures
            final(self).wf(),
            final(self).closed == false,
            final(self).payloads() == old(self).payloads(),
            final(self).entry_count() == old(self).entry_count(),
            final(self).segment_size == old(self).segment_size,
            final(self).current_offset == old(self).current_offset,
            final(self).log.index.offset == old(self).log.index.offset,
            final(self).log.index.roffset == old(self).log.index.roffset,
            final(self).log.index.max_size == old(self).segment_size,
    {
        let ghost idx0 = self.log.index.data@;
        let ghost pos = self.log.index.offset as int;
        let target = self.segment_size as usize;
        while self.log.index.data.len() < target
            invariant
                self.log.index.data@.len() <= target,
                pos <= target,
                pos <= self.log.index.data@.len(),
                forall|t: int|
                    0 <= t < pos ==> #[trigger] self.log.index.data@[t] == idx0[t],
                *self == (Segment {
                    log: Log {
                        data: old(self).log.data,
                        index: (Index { data: self.log.index.data, ..old(self).log.index }),
                    },
                    ..*old(self)
                }),
            decreases target - self.log.index.data@.len(),
        {
            self.log.index.data.push(0u8);
        }
        self.log.index.max_size = target;
        self.closed = false;
        proof {
            let d1 = self.log.index.data@;
            let n = old(self).log.index.entry_count();
            assert(pos == 8 * n);
            assert forall|i: int| 0 <= i < n implies spec_entry_offset_at(d1, i)
                == spec_entry_offset_at(idx0, i) && spec_entry_size_at(d1, i)
                == spec_entry_size_at(idx0, i) by {
                assert(d1.subrange(8 * i, 8 * i + 4) =~= idx0.subrange(8 * i, 8 * i + 4));
                assert(d1.subrange(8 * i + 4, 8 * i + 8) =~= idx0.subrange(8 * i + 4, 8 * i + 8));
            }
            assert forall|j: int| 0 <= j <= n implies spec_end_at(d1, j) == spec_end_at(
                idx0,
                j,
            ) by {
                lemma_end_at_congruent(d1, idx0, j);
            }
            assert(self.payloads() =~= old(self).payloads());
        }
    }

    /// Marks the segment closed; no further appends reach it.
    pub fn close(&mut self)
        ensures
            *final(self) == (Segment { closed: true, ..*old(self) }),
    {
        self.closed = true;
    }
}

/// The messages stored by the first `k` segments, in append order.
pub open spec fn spec_messages_upto(segs: Seq<Segment>, k: int) -> Seq<Seq<u8>>
    decreases k,
{
    if k <= 0 {
        Seq::empty()
    } else {
        spec_messages_upto(segs, k - 1) + segs[k - 1].payloads()
    }
}

/// The number of entries stored by the first `k` segments.
pub open spec fn spec_entries_before(segs: Seq<Segment>, k: int) -> int
    decreases k,
{
    if k <= 0 {
        0
    } else {
        spec_entries_before(segs, k - 1) + segs[k - 1].entry_count()
    }
}

/// Segment lists whose first `k` segments hold the same payloads store the
/// same messages up to `k`.
pub proof fn lemma_messages_upto_congruent(a: Seq<Segment>, b: Seq<Segment>, k: int)
    requires
        forall|j: int| 0 <= j < k ==> (#[trigger] a[j]).payloads() == b[j].payloads(),
    ensures
        spec_messages_upto(a, k) == spec_messages_upto(b, k),
    decreases k,
{
    if k > 0 {
        lemma_messages_upto_congruent(a, b, k - 1);
    }
}

/// Segment lists whose first `k` segments hold the same entry counts agree
/// on the counts up to `k`.
pub proof fn lemma_entries_before_congruent(a: Seq<Segment>, b: Seq<Segment>, k: int)
    requires
        forall|j: int| 0 <= j < k ==> (#[trigger] a[j]).entry_count() == b[j].entry_count(),
    ensures
        spec_entries_before(a, k) == spec_entries_before(b, k),
    decreases k,
{
    if k > 0 {
        lemma_entries_before_congruent(a, b, k - 1);
    }
}

/// The message count of the first `k` segments equals their entry count.
pub proof fn lemma_messages_upto_len(segs: Seq<Segment>, k: int)
    ensures
        spec_messages_upto(segs, k).len() == spec_entries_before(segs, k),
    decreases k,
{
    if k > 0 {
        lemma_messages_upto_len(segs, k - 1);
    }
}

/// Entry counts accumulate monotonically over the segment list.
pub proof fn lemma_entries_before_monotonic(segs: Seq<Segment>, i: int, j: int)
    requires
        0 <= i <= j,
    ensures
        spec_entries_before(segs, i) <= spec_entries_before(segs, j),
    decreases j,
{
    if i < j {
        lemma_entries_before_monotonic(segs, i, j - 1);
    }
}

/// Message `spec_entries_before(segs, k) + j` of the whole list is payload
/// `j` of segment `k`.
pub proof fn lemma_messages_index(segs: Seq<Segment>, m: int, k: int, j: int)
    requires
        0 <= k < m <= segs.len(),
        0 <= j < segs[k].entry_count(),
    ensures
        spec_entries_before(segs, k) + j < spec_messages_upto(segs, m).len(),
        spec_messages_upto(segs, m)[spec_entries_before(segs, k) + j] == segs[k].payloads()[j],
    decreases m,
{
    lemma_messages_upto_len(segs, m);
    lemma_messages_upto_len(segs, m - 1);
    assert(spec_messages_upto(segs, m) == spec_messages_upto(segs, m - 1) + segs[m
        - 1].payloads());
    assert(spec_entries_before(segs, m) == spec_entries_before(segs, m - 1) + segs[m
        - 1].entry_count());
    if k == m - 1 {
        lemma_entries_before_monotonic(segs, 0, k);
        assert((spec_messages_upto(segs, m - 1) + segs[m - 1].payloads())[spec_entries_before(
            segs,
            k,
        ) + j] == segs[k].payloads()[j]);
    } else {
        lemma_messages_index(segs, m - 1, k, j);
        lemma_entries_before_monotonic(segs, 0, k);
        assert(spec_entries_before(segs, k + 1) == spec_entries_before(segs, k) + segs[
            k].entry_count());
        lemma_entries_before_monotonic(segs, k + 1, m - 1);
        assert((spec_messages_upto(segs, m - 1) + segs[m - 1].payloads())[spec_entries_before(
            segs,
            k,
        ) + j] == spec_messages_upto(segs, m - 1)[spec_entries_before(segs, k) + j]);
    }
}

/// One topic's ordered list of segments, with the persistent tracker image
/// and the cached reader and writer cursors.
#[derive(Debug)]
pub struct CommitLog {
    pub name: String,
    pub segments: Vec<Segment>,
    pub dir_path: String,
    pub segment_size: u64,
    /// The contents of the tracker file, twelve bytes.
    pub queue_pos: Vec<u8>,
    /// The segment the reader is currently in.
    pub rposition: u32,
    /// The reader's byte offset into that segment's index.
    pub rindex_offset: u32,
    /// The segment the writer is currently in: always the last one.
    pub wposition: u32,
    /// The write offset of the last segment's index.
    pub windex_offset: u32,
}

impl CommitLog {
    /// All messages of the topic, in append order across all segments.
    pub open spec fn messages(self) -> Seq<Seq<u8>> {
        spec_messages_upto(self.segments@, self.segments@.len() as int)
    }

    /// How many messages the reader has consumed.
    pub open spec fn read_count(self) -> int {
        spec_entries_before(self.segments@, self.rposition as int) + self.rindex_offset as int / 8
    }

    /// Segment ids are contiguous, only the last segment is open, every
    /// later segment is non-empty, the cursors are in range, and the tracker
    /// image matches the cursors.
    pub open spec fn wf(self) -> bool {
        &&& self.segments@.len() >= 1
        &&& self.segment_size <= u32::MAX
        &&& forall|i: int| 0 <= i < self.segments@.len() ==> (#[trigger] self.segments@[i]).wf()
        &&& forall|i: int|
            0 <= i < self.segments@.len() ==> (#[trigger] self.segments@[i]).segment_size
                == self.segment_size
        &&& forall|i: int| 0 <= i < self.segments@.len() - 1 ==> (#[trigger] self.segments@[i]).closed
        &&& forall|i: int|
            0 <= i < self.segments@.len() - 1 ==> (#[trigger] self.segments@[i]).log.index.max_size
                == self.segments@[i].log.index.offset
        &&& self.segments@[self.segments@.len() - 1].closed == false
        &&& forall|i: int|
            1 <= i < self.segments@.len() ==> (#[trigger] self.segments@[i]).entry_count() >= 1
        &&& self.wposition as int == self.segments@.len() - 1
        &&& self.windex_offset as int == self.segments@[self.segments@.len() - 1].log.index.offset
        &&& (self.rposition as int) < self.segments@.len()
        &&& self.rindex_offset % 8 == 0
        &&& self.rindex_offset as int <= self.segments@[self.rposition as int].log.index.offset
        &&& self.queue_pos@ == spec_tracker_bytes(
            self.rposition,
            self.rindex_offset,
            self.windex_offset,
        )
    }

    /// A fresh topic: one empty open segment, all cursors at zero.
    pub fn new(queue_name: &str, segment_size: u64, dir_path: &str) -> (r: CommitLog)
        requires
            segment_size <= u32::MAX,
        ensures
            r.wf(),
            r.name@ == queue_name@,
            r.dir_path@ == dir_path@,
            r.segment_size == segment_size,
            r.segments@.len() == 1,
            r.messages() == Seq::<Seq<u8>>::empty(),
            r.read_count() == 0,
            r.rposition == 0,
            r.rindex_offset == 0,
            r.wposition == 0,
            r.windex_offset == 0,
    {
        let mut segments: Vec<Segment> = Vec::new();
        let segment = Segment::new(dir_path, 0, segment_size);
        segments.push(segment);
        let queue_pos = Tracker::to_bytes(0, 0, 0);
        let r = CommitLog {
            name: queue_name.to_owned(),
            segments,
            segment_size,
            dir_path: dir_path.to_owned(),
            queue_pos,
            rposition: 0,
            rindex_offset: 0,
            windex_offset: 0,
            wposition: 0,
        };
        assert(spec_messages_upto(r.segments@, 0) == Seq::<Seq<u8>>::empty());
        assert(r.messages() =~= Seq::<Seq<u8>>::empty());
        r
    }

    /// Rewrites the tracker image from the cached cursors.
    fn save_queue_offset(&mut self)
        ensures
            final(self).queue_pos@ == spec_tracker_bytes(
                old(self).rposition,
                old(self).rindex_offset,
                old(self).windex_offset,
            ),
            *final(self) == (CommitLog { queue_pos: final(self).queue_pos, ..*old(self) }),
    {
        self.queue_pos = Tracker::to_bytes(self.rposition, self.rindex_offset, self.windex_offset);
    }

    /// Whether an append of `len` bytes can be stored: either the open
    /// segment takes it, or a fresh segment could after rollover.
    pub open spec fn can_append(self, len: int) -> bool {
        let last = self.segments@[self.segments@.len() - 1];
        ||| (last.current_offset + len <= self.segment_size && last.log.index.offset + 8
            <= last.log.index.max_size)
        ||| (len <= self.segment_size && 8 <= self.segment_size && (self.wposition as int) + 1
            <= u32::MAX)
    }

    /// Whether an append of `len` bytes fits the open segment without
    /// rollover.
    pub open spec fn fits_last(self, len: int) -> bool {
        let last = self.segments@[self.segments@.len() - 1];
        last.current_offset + len <= self.segment_size && last.log.index.offset + 8
            <= last.log.index.max_size
    }

    /// Appends one payload to the topic, rolling over to a new segment when
    /// the open one is full, and persists the tracker image. Fails, changing
    /// nothing, when no segment could store the payload.
    pub fn save_to_disk(&mut self, data: &[u8]) -> (r: Result<(), StorageError>)
        requires
            old(self).wf(),
        ensures
            final(self).wf(),
            final(self).name == old(self).name,
            final(self).dir_path == old(self).dir_path,
            final(self).segment_size == old(self).segment_size,
            final(self).rposition == old(self).rposition,
            final(self).rindex_offset == old(self).rindex_offset,
            r is Ok <==> old(self).can_append(data@.len() as int),
            r matches Err(e) ==> e is NoSpaceLeft && final(self).segments@ == old(self).segments@
                && final(self).queue_pos@ == old(self).queue_pos@ && final(self).wposition == old(
                self,
            ).wposition && final(self).windex_offset == old(self).windex_offset,
            r is Ok ==> {
                &&& final(self).messages() == old(self).messages().push(data@)
                &&& final(self).read_count() == old(self).read_count()
                &&& (forall|i: int|
                    0 <= i < old(self).segments@.len() - 1 ==> final(self).segments@[i] == (
                    #[trigger] old(self).segments@[i]))
                &&& (old(self).fits_last(data@.len() as int) ==> {
                    &&& final(self).segments@.len() == old(self).segments@.len()
                    &&& final(self).wposition == old(self).wposition
                    &&& final(self).segments@.last().log.data@ == old(
                        self,
                    ).segments@.last().log.data@ + data@
                    &&& final(self).segments@.last().payloads() == old(
                        self,
                    ).segments@.last().payloads().push(data@)
                    &&& final(self).segments@.last().log.index.roffset == old(
                        self,
                    ).segments@.last().log.index.roffset
                })
                &&& (!old(self).fits_last(data@.len() as int) ==> {
                    &&& final(self).segments@.len() == old(self).segments@.len() + 1
                    &&& final(self).wposition == old(self).wposition + 1
                    &&& final(self).segments@[old(self).segments@.len() - 1].closed
                    &&& final(self).segments@[old(self).segments@.len() - 1].log.data@ == old(
                        self,
                    ).segments@.last().log.data@
                    &&& final(self).segments@[old(self).segments@.len() - 1].payloads() == old(
                        self,
                    ).segments@.last().payloads()
                    &&& final(self).segments@[old(self).segments@.len()
                        - 1].log.index.roffset == old(self).segments@.last().log.index.roffset
                    &&& final(self).segments@.last().log.data@ == data@
                    &&& final(self).segments@.last().log.index.roffset == 0
                    &&& final(self).segments@.last().payloads() == seq![data@]
                })
            },
    {
        self.save_data_to_segment(data)
    }

    /// The append path behind `save_to_disk`.
    fn save_data_to_segment(&mut self, data: &[u8]) -> (r: Result<(), StorageError>)
        requires
            old(self).wf(),
        ensures
            final(self).wf(),
            final(self).name == old(self).name,
            final(self).dir_path == old(self).dir_path,
            final(self).segment_size == old(self).segment_size,
            final(self).rposition == old(self).rposition,
            final(self).rindex_offset == old(self).rindex_offset,
            r is Ok <==> old(self).can_append(data@.len() as int),
            r matches Err(e) ==> e is NoSpaceLeft && final(self).segments@ == old(self).segments@
                && final(self).queue_pos@ == old(self).queue_pos@ && final(self).wposition == old(
                self,
            ).wposition && final(self).windex_offset == old(self).windex_offset,
            r is Ok ==> {
                &&& final(self).messages() == old(self).messages().push(data@)
                &&& final(self).read_count() == old(self).read_count()
                &&& (forall|i: int|
                    0 <= i < old(self).segments@.len() - 1 ==> final(self).segments@[i] == (
                    #[trigger] old(self).segments@[i]))
                &&& (old(self).fits_last(data@.len() as int) ==> {
                    &&& final(self).segments@.len() == old(self).segments@.len()
                    &&& final(self).wposition == old(self).wposition
                    &&& final(self).segments@.last().log.data@ == old(
                        self,
                    ).segments@.last().log.data@ + data@
                    &&& final(self).segments@.last().payloads() == old(
                        self,
                    ).segments@.last().payloads().push(data@)
                    &&& final(self).segments@.last().log.index.roffset == old(
                        self,
                    ).segments@.last().log.index.roffset
                })
                &&& (!old(self).fits_last(data@.len() as int) ==> {
                    &&& final(self).segments@.len() == old(self).segments@.len() + 1
                    &&& final(self).wposition == old(self).wposition + 1
                    &&& final(self).segments@[old(self).segments@.len() - 1].closed
                    &&& final(self).segments@[old(self).segments@.len() - 1].log.data@ == old(
                        self,
                    ).segments@.last().log.data@
                    &&& final(self).segments@[old(self).segments@.len() - 1].payloads() == old(
                        self,
                    ).segments@.last().payloads()
                    &&& final(self).segments@[old(self).segments@.len()
                        - 1].log.index.roffset == old(self).segments@.last().log.index.roffset
                    &&& final(self).segments@.last().log.data@ == data@
                    &&& final(self).segments@.last().log.index.roffset == 0
                    &&& final(self).segments@.last().payloads() == seq![data@]
                })
            },
    {
        let ghost segs0 = self.segments@;
        let len_segments = self.segments.len();
        let mut segment = match self.segments.pop() {
            Some(s) => s,
            None => unreached(),
        };
        match segment.append_data(data) {
            Ok(_) => {
                self.windex_offset = segment.log.index.offset as u32;
                self.segments.push(segment);
                self.save_queue_offset();
                proof {
                    let segs1 = self.segments@;
                    let n = segs0.len() as int;
                    assert(forall|j: int| 0 <= j < n - 1 ==> segs1[j] == segs0[j]);
                    lemma_messages_upto_congruent(segs1, segs0, n - 1);
                    lemma_entries_before_congruent(segs1, segs0, n - 1);
                    assert(spec_messages_upto(segs1, n) == spec_messages_upto(segs1, n - 1)
                        + segs1[n - 1].payloads());
                    assert(self.messages() =~= old(self).messages().push(data@));
                    if old(self).rposition as int == n - 1 {
                        assert(self.read_count() == old(self).read_count());
                    } else {
                        lemma_entries_before_congruent(
                            segs1,
                            segs0,
                            old(self).rposition as int,
                        );
                    }
                }
                Ok(())
            },
            Err(e) => {
                match e {
                    StorageError::NoSpaceLeft => {
                        if data.len() as u64 > self.segment_size || self.segment_size < 8
                            || self.wposition == u32::MAX {
                            self.segments.push(segment);
                            proof {
                                assert(self.segments@ =~= segs0);
                            }
                            Err(StorageError::NoSpaceLeft)
                        } else {
                            let ghost before_close = segment;
                            segment.log.index.resize();
                            segment.close();
                            proof {
                                lemma_truncate_payloads(before_close.log, segment.log);
                                if segment.entry_count() == 0 {
                                    assert(spec_end_at(before_close.log.index.data@, 0) == 0);
                                    assert(before_close.current_offset == 0);
                                    assert(false);
                                }
                            }
                            self.segments.push(segment);
                            let mut new_segment = Segment::new(
                                self.dir_path.as_str(),
                                len_segments as u32,
                                self.segment_size,
                            );
                            match new_segment.append_data(data) {
                                Ok(_) => {},
                                Err(_) => {
                                    proof {
                                        assert(false);
                                    }
                                },
                            }
                            self.windex_offset = new_segment.log.index.offset as u32;
                            self.segments.push(new_segment);
                            self.wposition = self.wposition + 1;
                            self.save_queue_offset();
                            proof {
                                let segs1 = self.segments@;
                                let n = segs0.len() as int;
                                assert(segs1.len() == n + 1);
                                assert(forall|j: int| 0 <= j < n - 1 ==> segs1[j] == segs0[j]);
                                lemma_messages_upto_congruent(segs1, segs0, n - 1);
                                lemma_entries_before_congruent(segs1, segs0, n - 1);
                                assert(segs1[n - 1].payloads() == segs0[n - 1].payloads());
                                assert(spec_messages_upto(segs1, n + 1) == spec_messages_upto(
                                    segs1,
                                    n,
                                ) + segs1[n].payloads());
                                assert(spec_messages_upto(segs1, n) == spec_messages_upto(
                                    segs1,
                                    n - 1,
                                ) + segs1[n - 1].payloads());
                                assert(segs1[n].payloads() =~= seq![data@]);
                                assert(segs1[n].log.data@ =~= data@);
                                assert(self.messages() =~= old(self).messages().push(data@));
                                if old(self).rposition as int <= n - 1 {
                                    lemma_entries_before_congruent(
                                        segs1,
                                        segs0,
                                        old(self).rposition as int,
                                    );
                                }
                            }
                            Ok(())
                        }
                    },
                    _ => unreached(),
                }
            },
        }
    }

    /// The subscriber read path: returns the next unconsumed message in
    /// append order, advancing the shared read cursor and persisting the
    /// tracker image; when the reader has caught up with the writer, fails
    /// with `LogIndexOutofBound` and changes nothing.
    pub fn read(&mut self) -> (r: Result<Vec<u8>, StorageError>)
        requires
            old(self).wf(),
        ensures
            final(self).wf(),
            final(self).name == old(self).name,
            final(self).dir_path == old(self).dir_path,
            final(self).segment_size == old(self).segment_size,
            final(self).segments@ == old(self).segments@,
            final(self).messages() == old(self).messages(),
            final(self).wposition == old(self).wposition,
            final(self).windex_offset == old(self).windex_offset,
            r is Ok <==> old(self).read_count() < old(self).messages().len(),
            r matches Err(e) ==> e is LogIndexOutofBound && *final(self) == *old(self),
            r matches Ok(v) ==> {
                &&& v@ == old(self).messages()[old(self).read_count()]
                &&& v@.len() <= old(self).segment_size
                &&& final(self).read_count() == old(self).read_count() + 1
            },
    {
        let ghost segs = self.segments@;
        let len = self.segments.len();
        let last = len - 1;
        let rpos = self.rposition as usize;
        let seg_off = self.segments[rpos].log.index.offset;
        proof {
            lemma_messages_upto_len(segs, len as int);
            lemma_entries_before_monotonic(segs, 0, rpos as int);
        }
        if self.rindex_offset as usize >= seg_off && rpos == last {
            proof {
                assert(self.rindex_offset as int == seg_off);
                assert(spec_entries_before(segs, len as int) == spec_entries_before(
                    segs,
                    len - 1,
                ) + segs[len - 1].entry_count());
            }
            return Err(StorageError::LogIndexOutofBound);
        }
        let ghost rc = old(self).read_count();
        proof {
            if self.rindex_offset as usize >= seg_off {
                assert(rpos < last);
                assert(spec_entries_before(segs, rpos + 1) == spec_entries_before(segs, rpos as int)
                    + segs[rpos as int].entry_count());
                assert(segs[rpos + 1].entry_count() >= 1);
                assert(spec_entries_before(segs, rpos + 2) == spec_entries_before(segs, rpos + 1)
                    + segs[rpos + 1].entry_count());
                lemma_entries_before_monotonic(segs, rpos + 2, len as int);
            } else {
                assert(self.rindex_offset as int / 8 < segs[rpos as int].entry_count());
                assert(spec_entries_before(segs, rpos + 1) == spec_entries_before(segs, rpos as int)
                    + segs[rpos as int].entry_count());
                lemma_entries_before_monotonic(segs, rpos + 1, len as int);
            }
            assert(rc < old(self).messages().len());
        }
        if self.rindex_offset as usize >= seg_off {
            self.rposition = self.rposition + 1;
            self.rindex_offset = 0;
        }
        self.rindex_offset = self.rindex_offset + ENTRY_SIZE as u32;
        self.save_queue_offset();
        let rpos2 = self.rposition as usize;
        let roff2 = self.rindex_offset as usize;
        let ghost j = roff2 as int / 8 - 1;
        proof {
            assert(spec_entries_before(segs, rpos2 as int) + j == rc);
            assert(0 <= j < segs[rpos2 as int].entry_count());
            lemma_messages_index(segs, len as int, rpos2 as int, j);
            lemma_payload_size(segs[rpos2 as int], j);
        }
        match self.segments[rpos2].read_at(roff2) {
            Ok(v) => Ok(v),
            Err(_) => unreached(),
        }
    }

    /// Reads, from the last segment, the payload whose index entry ends at
    /// byte `position`. `position` must be entry-aligned: an unaligned
    /// offset addresses no entry, so the interface is strengthened to
    /// aligned offsets rather than decoding bytes that straddle two
    /// records.
    pub fn read_at_from_disk(&mut self, position: usize) -> (r: Result<Vec<u8>, StorageError>)
        requires
            old(self).wf(),
            position % 8 == 0,
        ensures
            *final(self) == *old(self),
            r is Ok <==> 8 <= position <= old(self).segments@.last().log.index.offset,
            r matches Err(e) ==> e is LogIndexOutofBound,
            r matches Ok(v) ==> v@ == old(self).segments@.last().payloads()[position as int / 8
                - 1],
    {
        let len_segments = self.segments.len();
        self.segments[len_segments - 1].read_at(position)
    }

    /// Reads the payload at the last segment's from-the-start cursor and
    /// advances that cursor.
    pub fn read_from_start(&mut self) -> (r: Result<Vec<u8>, StorageError>)
        requires
            old(self).wf(),
        ensures
            final(self).wf(),
            final(self).messages() == old(self).messages(),
            final(self).read_count() == old(self).read_count(),
            final(self).name == old(self).name,
            final(self).segments@.len() == old(self).segments@.len(),
            r is Ok <==> old(self).segments@.last().log.index.roffset < old(
                self,
            ).segments@.last().log.index.offset,
            r matches Err(e) ==> e is LogIndexOutofBound,
            r matches Ok(v) ==> v@ == old(self).segments@.last().payloads()[old(
                self,
            ).segments@.last().log.index.roffset as int / 8],
    {
        let ghost segs = self.segments@;
        let mut segment = match self.segments.pop() {
            Some(s) => s,
            None => unreached(),
        };
        let r = segment.read_from_start();
        self.segments.push(segment);
        proof {
            let n = segs.len() as int;
            assert(forall|j: int|
                0 <= j < n - 1 ==> self.segments@[j] == segs[j]);
            lemma_messages_upto_congruent(self.segments@, segs, n - 1);
            lemma_entries_before_congruent(self.segments@, segs, n - 1);
            assert(self.messages() =~= old(self).messages());
            if old(self).rposition as int <= n - 1 {
                lemma_entries_before_congruent(self.segments@, segs, old(self).rposition as int);
            }
        }
        r
    }

    /// Reads, from the last segment, the payload whose index entry starts
    /// at byte `position`; `position` must be entry-aligned and within the
    /// written entries.
    pub fn read_next_from_disk(&mut self, position: usize) -> (r: Result<Vec<u8>, StorageError>)
        requires
            old(self).wf(),
            position % 8 == 0,
            position + 8 <= old(self).segments@.last().log.index.offset,
        ensures
            *final(self) == *old(self),
            r is Ok,
            r matches Ok(v) ==> v@ == old(self).segments@.last().payloads()[position as int / 8],
    {
        let len_segments = self.segments.len();
        self.segments[len_segments - 1].read_next(position)
    }

    /// One step of the restartable from-the-start walk: yields the next
    /// payload of the first segment whose walk cursor has not reached its
    /// write offset, or `None` when every segment is walked through.
    pub fn next(&mut self) -> (r: Option<Vec<u8>>)
        requires
            old(self).wf(),
        ensures
            final(self).wf(),
            final(self).messages() == old(self).messages(),
            final(self).read_count() == old(self).read_count(),
            final(self).name == old(self).name,
            final(self).segments@.len() == old(self).segments@.len(),
            r is None <==> spec_first_unread(old(self).segments@, 0) == old(
                self,
            ).segments@.len(),
            r is None ==> *final(self) == *old(self),
            r matches Some(v) ==> {
                let fu = spec_first_unread(old(self).segments@, 0);
                let seg = old(self).segments@[fu];
                &&& v@ == seg.payloads()[seg.log.index.roffset as int / 8]
                &&& final(self).segments@ == old(self).segments@.update(
                    fu,
                    (Segment {
                        log: Log {
                            data: seg.log.data,
                            index: (Index {
                                roffset: (seg.log.index.roffset + 8) as usize,
                                ..seg.log.index
                            }),
                        },
                        ..seg
                    }),
                )
            },
    {
        let ghost segs = self.segments@;
        let len = self.segments.len();
        let mut k: usize = 0;
        loop
            invariant
                k <= len,
                segs == self.segments@,
                len == segs.len(),
                old(self).wf(),
                *self == *old(self),
                forall|j: int|
                    0 <= j < k ==> (#[trigger] segs[j]).log.index.roffset
                        == segs[j].log.index.offset,
                spec_first_unread(segs, 0) == spec_first_unread(segs, k as int),
            decreases len - k,
        {
            if k == len {
                proof {
                    assert(spec_first_unread(segs, k as int) == segs.len());
                }
                return None;
            }
            let seg_roff = self.segments[k].log.index.roffset;
            let seg_off = self.segments[k].log.index.offset;
            if seg_roff < seg_off {
                let ghost fu = k as int;
                let mut segment = self.segments.remove(k);
                let r = match segment.read_from_start() {
                    Ok(v) => v,
                    Err(_) => unreached(),
                };
                self.segments.insert(k, segment);
                proof {
                    assert(self.segments@ =~= segs.update(
                        fu,
                        (Segment {
                            log: Log {
                                data: segs[fu].log.data,
                                index: (Index {
                                    roffset: (segs[fu].log.index.roffset + 8) as usize,
                                    ..segs[fu].log.index
                                }),
                            },
                            ..segs[fu]
                        }),
                    ));
                    assert(forall|j: int|
                        0 <= j < segs.len() ==> (#[trigger] self.segments@[j]).payloads()
                            == segs[j].payloads() && self.segments@[j].entry_count()
                            == segs[j].entry_count());
                    lemma_messages_upto_congruent(self.segments@, segs, segs.len() as int);
                    lemma_entries_before_congruent(
                        self.segments@,
                        segs,
                        old(self).rposition as int,
                    );
                }
                return Some(r);
            }
            proof {
                assert(spec_first_unread(segs, k as int) == spec_first_unread(segs, k + 1));
            }
            k = k + 1;
        }
    }

    /// Rebuilds one topic from its on-disk image: loads the segments, drops
    /// trailing segments left empty by an unflushed rollover, reopens the
    /// last kept segment, and clamps the tracker cursors into range. A clean
    /// image is restored exactly.
    #[verifier::rlimit(100)]
    fn restore_topic(segment_size: u64, dir_path: &str, td: TopicData) -> (r: Result<
        CommitLog,
        StorageError,
    >)
        requires
            segment_size <= u32::MAX,
        ensures
            r matches Ok(cl) ==> cl.wf() && cl.segment_size == segment_size && cl.name@ == td.name@
                && cl.dir_path@ == dir_path@,
            spec_topic_clean(td, segment_size) ==> r is Ok,
            r matches Ok(cl) ==> (spec_topic_clean(td, segment_size) ==> cl.messages()
                == spec_topic_messages(td) && cl.read_count() == spec_topic_read_count(td)),
    {
        let ghost clean = spec_topic_clean(td, segment_size);
        let ghost td0 = td;
        let TopicData { name, segments: segments_data, tracker } = td;
        let ghost sd0 = segments_data@;
        let m = segments_data.len();
        if m == 0 {
            proof {
                assert(!clean);
            }
            return Err(StorageError::SegmentNotFound);
        }
        if m - 1 > u32::MAX as usize {
            proof {
                assert(!clean);
            }
            return Err(StorageError::NoSpaceLeft);
        }
        let tracker_rec = if tracker.len() >= 12 {
            Tracker::from_bytes(tracker.as_slice())
        } else {
            proof {
                assert(!clean);
            }
            Tracker { position: 0, offset: 0, last_write_offset: 0 }
        };
        proof {
            if clean {
                assert(tracker_rec.position as int == spec_topic_rpos(td0));
                assert(tracker_rec.offset as int == spec_topic_roff(td0));
                assert(tracker_rec.last_write_offset as int == spec_topic_lw(td0));
            }
        }
        let l_offset = tracker_rec.last_write_offset as usize;
        let mut segs = load_segments_from_disk(dir_path, segments_data, l_offset, segment_size);
        let ghost r0 = segs@;
        proof {
            if clean {
                assert(spec_segments_clean(sd0, l_offset as int, segment_size));
            }
        }
        loop
            invariant
                1 <= segs@.len() <= r0.len(),
                segs@ == r0.take(segs@.len() as int),
                r0.len() == m,
                clean ==> segs@.len() == m,
                clean == spec_topic_clean(td0, segment_size),
                l_offset as int == spec_topic_lw(td0) || !clean,
                sd0 == td0.segments@,
                m == sd0.len(),
                segment_size <= u32::MAX,
                forall|i: int| 0 <= i < r0.len() ==> (#[trigger] r0[i]).wf(),
                forall|i: int| 0 <= i < r0.len() ==> (#[trigger] r0[i]).closed == (i < m - 1),
                forall|i: int| 0 <= i < r0.len() ==> (#[trigger] r0[i]).segment_size == segment_size,
                forall|i: int| 0 <= i < r0.len() ==> (#[trigger] r0[i]).log.index.roffset == 0,
                forall|i: int|
                    0 <= i < r0.len() ==> (#[trigger] r0[i]).log.index.max_size <= segment_size,
                forall|i: int|
                    0 <= i < m - 1 ==> (#[trigger] r0[i]).log.index.max_size
                        == r0[i].log.index.offset,
                clean ==> forall|i: int|
                    0 <= i < m ==> (#[trigger] r0[i]).entry_count() == spec_topic_count(
                        sd0,
                        i,
                        l_offset as int,
                    ) && r0[i].payloads() == spec_payloads_of(
                        sd0[i].log_bytes@,
                        sd0[i].index_bytes@,
                        spec_topic_count(sd0, i, l_offset as int),
                    ),
            decreases segs@.len(),
        {
            let l = segs.len();
            if l <= 1 {
                break;
            }
            if segs[l - 1].log.index.offset > 0 {
                break;
            }
            proof {
                if clean {
                    assert(r0[l - 1].entry_count() >= 1);
                    assert(false);
                }
            }
            segs.pop();
            proof {
                assert(segs@ =~= r0.take(segs@.len() as int));
            }
        }
        let l = segs.len();
        let mut last_seg = match segs.pop() {
            Some(s) => s,
            None => unreached(),
        };
        if last_seg.closed {
            last_seg.reopen();
        }
        segs.push(last_seg);
        proof {
            assert(segs@.len() == l);
            if clean {
                assert(l == m);
                assert(segs@ =~= r0);
                assert forall|i: int| 1 <= i < l implies (#[trigger] segs@[i]).log.index.offset
                    > 0 by {
                    assert(r0[i].entry_count() == spec_topic_count(sd0, i, l_offset as int));
                    assert(spec_topic_count(sd0, i, l_offset as int) >= 1);
                    assert(r0[i].wf());
                }
            }
        }
        let mut j: usize = 1;
        while j < l
            invariant
                1 <= j,
                l == segs@.len(),
                forall|i: int| 1 <= i < j ==> (#[trigger] segs@[i]).log.index.offset > 0,
                forall|i: int| 0 <= i < l ==> (#[trigger] segs@[i]).wf(),
                clean ==> forall|i: int|
                    1 <= i < l ==> (#[trigger] segs@[i]).log.index.offset > 0,
                clean == spec_topic_clean(td0, segment_size),
                td0 == td,
            decreases l - j,
        {
            if segs[j].log.index.offset == 0 {
                proof {
                    assert(!clean);
                }
                return Err(StorageError::SegmentNotFound);
            }
            j = j + 1;
        }
        let llast = l - 1;
        let mut rpos = tracker_rec.position;
        if rpos as usize > llast {
            rpos = llast as u32;
        }
        let mut roff = tracker_rec.offset;
        roff = roff - roff % 8;
        let seg_off = segs[rpos as usize].log.index.offset;
        if roff as usize > seg_off {
            roff = seg_off as u32;
        }
        let windex = segs[llast].log.index.offset as u32;
        let queue_pos = Tracker::to_bytes(rpos, roff, windex);
        let cl = CommitLog {
            name,
            segments: segs,
            dir_path: dir_path.to_owned(),
            segment_size,
            queue_pos,
            rposition: rpos,
            rindex_offset: roff,
            wposition: llast as u32,
            windex_offset: windex,
        };
        proof {
            assert(cl.wf());
            if clean {
                assert(cl.segments@ =~= r0);
                assert forall|i: int| 0 <= i < m implies (#[trigger] cl.segments@[i]).payloads()
                    == spec_payloads_of(
                    sd0[i].log_bytes@,
                    sd0[i].index_bytes@,
                    spec_topic_count(sd0, i, l_offset as int),
                ) && cl.segments@[i].entry_count() == spec_topic_count(
                    sd0,
                    i,
                    l_offset as int,
                ) by {}
                lemma_topic_messages_eq(cl.segments@, sd0, l_offset as int, m as int);
                assert(rpos == tracker_rec.position);
                assert(spec_declared_of(sd0, rpos as int, l_offset as int) == 8 * cl.segments@[
                    rpos as int].entry_count());
                assert(roff == tracker_rec.offset);
                lemma_topic_entries_eq(cl.segments@, sd0, l_offset as int, rpos as int);
                assert(cl.read_count() == spec_topic_read_count(td0));
            }
        }
        Ok(cl)
    }

    /// Rebuilds the whole topic registry from the images of every topic
    /// directory under the storage root; an empty root is reported as
    /// `DirEmpty`. Clean images are restored exactly.
    pub fn restore_from_disk(segment_size: u64, dir_path: &str, topics: Vec<TopicData>) -> (r:
        Result<Vec<CommitLog>, StorageError>)
        requires
            segment_size <= u32::MAX,
        ensures
            topics@.len() == 0 ==> (r matches Err(e) && e is DirEmpty),
            (topics@.len() > 0 && (forall|i: int|
                0 <= i < topics@.len() ==> spec_topic_clean(
                    #[trigger] topics@[i],
                    segment_size,
                ))) ==> r is Ok,
            r matches Ok(logs) ==> {
                &&& logs@.len() == topics@.len()
                &&& forall|i: int|
                    0 <= i < logs@.len() ==> (#[trigger] logs@[i]).wf() && logs@[i].segment_size
                        == segment_size && logs@[i].name@ == topics@[i].name@
                &&& forall|i: int|
                    0 <= i < logs@.len() ==> (spec_topic_clean(#[trigger] topics@[i], segment_size)
                        ==> logs@[i].messages() == spec_topic_messages(topics@[i])
                        && logs@[i].read_count() == spec_topic_read_count(topics@[i]))
            },
    {
        let ghost t0 = topics@;
        if topics.len() == 0 {
            return Err(StorageError::DirEmpty);
        }
        let total = topics.len();
        let mut rest = topics;
        let mut logs: Vec<CommitLog> = Vec::new();
        let mut i: usize = 0;
        while rest.len() > 0
            invariant
                1 <= total,
                i + rest@.len() == total,
                i == logs@.len(),
                total == t0.len(),
                t0 == topics@,
                rest@ == t0.skip(i as int),
                segment_size <= u32::MAX,
                forall|j: int|
                    0 <= j < i ==> (#[trigger] logs@[j]).wf() && logs@[j].segment_size
                        == segment_size && logs@[j].name@ == t0[j].name@,
                forall|j: int|
                    0 <= j < i ==> (spec_topic_clean(#[trigger] t0[j], segment_size) ==> logs@[
                        j
                    ].messages() == spec_topic_messages(t0[j]) && logs@[j].read_count()
                        == spec_topic_read_count(t0[j])),
            decreases rest@.len(),
        {
            let td = rest.remove(0);
            proof {
                assert(td == t0[i as int]);
                assert(rest@ =~= t0.skip(i + 1));
            }
            match Self::restore_topic(segment_size, dir_path, td) {
                Ok(cl) => {
                    logs.push(cl);
                },
                Err(e) => {
                    proof {
                        assert(!spec_topic_clean(t0[i as int], segment_size));
                        assert(!(forall|k: int|
                            0 <= k < t0.len() ==> spec_topic_clean(
                                #[trigger] t0[k],
                                segment_size,
                            )));
                    }
                    return Err(e);
                },
            }
            i = i + 1;
        }
        Ok(logs)
    }
}

/// Every stored payload of a well-formed segment fits within its
/// configured segment size.
pub proof fn lemma_payload_size(s: Segment, j: int)
    requires
        s.wf(),
        0 <= j < s.entry_count(),
    ensures
        s.payloads()[j].len() <= s.segment_size,
{
    let idx = s.log.index.data@;
    let n = s.entry_count();
    lemma_end_at_monotonic(idx, 0, j);
    lemma_end_at_monotonic(idx, j + 1, n);
    assert(spec_end_at(idx, j + 1) == spec_end_at(idx, j) + spec_entry_size_at(idx, j));
}

/// The first segment at or after position `k` whose from-the-start cursor
/// has not reached its write offset; the list length when there is none.
pub open spec fn spec_first_unread(segs: Seq<Segment>, k: int) -> int
    decreases segs.len() - k,
{
    if k < 0 || k >= segs.len() {
        segs.len() as int
    } else if segs[k].log.index.roffset < segs[k].log.index.offset {
        k
    } else {
        spec_first_unread(segs, k + 1)
    }
}

/// Truncating the index region to its written bytes keeps every entry and
/// every payload.
pub proof fn lemma_truncate_payloads(a: Log, b: Log)
    requires
        a.wf(),
        b.data@ == a.data@,
        b.index.offset == a.index.offset,
        b.index.roffset == a.index.roffset,
        b.index.data@ == a.index.data@.subrange(0, a.index.offset as int),
        b.index.data@.len() == b.index.max_size,
    ensures
        b.wf(),
        b.index.wf(),
        b.payloads() == a.payloads(),
    decreases 0int,
{
    let n = a.index.entry_count();
    assert(a.index.offset == 8 * n);
    assert forall|j: int| 0 <= j < n implies spec_entry_offset_at(b.index.data@, j)
        == spec_entry_offset_at(a.index.data@, j) && spec_entry_size_at(b.index.data@, j)
        == spec_entry_size_at(a.index.data@, j) by {
        assert(b.index.data@.subrange(8 * j, 8 * j + 4) =~= a.index.data@.subrange(
            8 * j,
            8 * j + 4,
        ));
        assert(b.index.data@.subrange(8 * j + 4, 8 * j + 8) =~= a.index.data@.subrange(
            8 * j + 4,
            8 * j + 8,
        ));
    }
    assert forall|j: int| 0 <= j <= n implies spec_end_at(b.index.data@, j) == spec_end_at(
        a.index.data@,
        j,
    ) by {
        lemma_end_at_congruent(b.index.data@, a.index.data@, j);
    }
    assert(b.payloads() =~= a.payloads());
}

/// The on-disk image of one segment, as the surrounding process read it
/// back: the raw log file bytes and the raw index file bytes.
#[derive(Debug)]
pub struct SegmentData {
    pub log_bytes: Vec<u8>,
    pub index_bytes: Vec<u8>,
}

/// The on-disk image of one topic directory: the segment files in ascending
/// id order and the tracker file bytes.
#[derive(Debug)]
pub struct TopicData {
    pub name: String,
    pub segments: Vec<SegmentData>,
    pub tracker: Vec<u8>,
}

/// The first `n` entries of an index region tile a log region exactly.
pub open spec fn spec_entries_consistent(idx: Seq<u8>, log: Seq<u8>, n: int) -> bool {
    &&& forall|i: int|
        0 <= i < n ==> #[trigger] spec_entry_offset_at(idx, i) == spec_end_at(idx, i)
    &&& spec_end_at(idx, n) == log.len()
}

/// A segment image is clean: its declared write offset is aligned, within
/// the index file and the segment bound, exact for a closed segment, and the
/// declared entries tile the log file exactly.
pub open spec fn spec_segment_clean(
    log: Seq<u8>,
    idx: Seq<u8>,
    declared: int,
    segment_size: u64,
    is_last: bool,
) -> bool {
    &&& declared % 8 == 0
    &&& 0 <= declared <= idx.len()
    &&& declared <= segment_size
    &&& (!is_last ==> declared == idx.len())
    &&& log.len() <= segment_size
    &&& spec_entries_consistent(idx, log, declared / 8)
}

/// Rebuilds one segment from its on-disk image. The longest prefix of
/// declared entries that tiles the log file is kept; log bytes past it are
/// treated as truncated garbage and dropped. A clean image is restored
/// exactly.
fn load_segment(
    dir: &str,
    log_name: u32,
    segment_data: SegmentData,
    declared_offset: usize,
    segment_size: u64,
    is_last: bool,
) -> (r: Segment)
    requires
        segment_size <= u32::MAX,
    ensures
        r.wf(),
        r.closed == !is_last,
        r.segment_size == segment_size,
        r.log.index.roffset == 0,
        r.log.index.max_size <= segment_size,
        !is_last ==> r.log.index.max_size == r.log.index.offset,
        spec_segment_clean(
            segment_data.log_bytes@,
            segment_data.index_bytes@,
            declared_offset as int,
            segment_size,
            is_last,
        ) ==> {
            &&& r.entry_count() == declared_offset as int / 8
            &&& r.log.data@ == segment_data.log_bytes@
            &&& r.payloads() == spec_payloads_of(
                segment_data.log_bytes@,
                segment_data.index_bytes@,
                declared_offset as int / 8,
            )
        },
{
    let ghost log0 = segment_data.log_bytes@;
    let ghost idx0 = segment_data.index_bytes@;
    let ghost clean = spec_segment_clean(
        log0,
        idx0,
        declared_offset as int,
        segment_size,
        is_last,
    );
    let ghost n0 = declared_offset as int / 8;
    let mut log_bytes = segment_data.log_bytes;
    let mut idx = segment_data.index_bytes;
    let ss_usize = segment_size as usize;
    let idx_len = idx.len();
    let log_len = log_bytes.len();
    let mut usable = declared_offset;
    if usable > idx_len {
        usable = idx_len;
    }
    if usable > ss_usize {
        usable = ss_usize;
    }
    usable = usable - usable % 8;
    proof {
        if clean {
            assert(usable == declared_offset);
        }
        if clean {
            lemma_end_at_monotonic(idx0, 0, n0);
        }
    }
    let mut k: usize = 0;
    let mut pos: usize = 0;
    let mut sum: usize = 0;
    while pos < usable
        invariant
            pos == 8 * k,
            pos <= usable,
            usable <= idx_len,
            usable <= ss_usize,
            usable % 8 == 0,
            idx_len == idx@.len(),
            log_len == log_bytes@.len(),
            idx@ == idx0,
            log_bytes@ == log0,
            ss_usize == segment_size,
            segment_size <= u32::MAX,
            sum == spec_end_at(idx0, k as int),
            sum <= log_len,
            sum <= ss_usize,
            forall|i: int|
                0 <= i < k ==> #[trigger] spec_entry_offset_at(idx0, i) == spec_end_at(idx0, i),
            clean == spec_segment_clean(log0, idx0, declared_offset as int, segment_size, is_last),
            n0 == declared_offset as int / 8,
            clean ==> usable == declared_offset,
        decreases usable - pos,
    {
        let entry_offset = u32_from_be_at(idx.as_slice(), pos);
        let entry_size = u32_from_be_at(idx.as_slice(), pos + 4);
        proof {
            assert(idx0.subrange(pos as int, pos + 4) =~= idx0.subrange(
                8 * (k as int),
                8 * (k as int) + 4,
            ));
            assert(idx0.subrange(pos + 4, pos + 8) =~= idx0.subrange(
                8 * (k as int) + 4,
                8 * (k as int) + 8,
            ));
            if clean {
                assert(spec_entry_offset_at(idx0, k as int) == spec_end_at(idx0, k as int));
                lemma_end_at_monotonic(idx0, k as int + 1, n0);
            }
        }
        if entry_offset as usize != sum {
            proof {
                assert(!clean);
            }
            usable = pos;
        } else if (entry_size as usize) > log_len - sum || (entry_size as usize) > ss_usize
            - sum {
            proof {
                assert(!clean);
            }
            usable = pos;
        } else {
            sum = sum + entry_size as usize;
            k = k + 1;
            pos = pos + 8;
        }
    }
    proof {
        assert(pos == usable);
        if clean {
            assert(k as int == n0);
            assert(sum == log_len);
        }
    }
    log_bytes.truncate(sum);
    let max_size: usize;
    if is_last {
        if idx.len() > ss_usize {
            idx.truncate(ss_usize);
        }
        proof {
            assert(forall|t: int| 0 <= t < pos ==> #[trigger] idx@[t] == idx0[t]);
        }
        while idx.len() < ss_usize
            invariant
                idx@.len() <= ss_usize,
                pos <= ss_usize,
                pos <= idx@.len(),
                forall|t: int| 0 <= t < pos && t < idx@.len() ==> #[trigger] idx@[t] == idx0[t],
            decreases ss_usize - idx@.len(),
        {
            idx.push(0u8);
        }
        max_size = ss_usize;
    } else {
        idx.truncate(pos);
        max_size = pos;
    }
    proof {
        assert(idx@.len() == max_size);
        assert(forall|t: int| 0 <= t < pos ==> #[trigger] idx@[t] == idx0[t]);
    }
    let index = Index { data: idx, offset: pos, roffset: 0, max_size };
    let log = Log { data: log_bytes, index };
    let r = Segment {
        log,
        path: dir.to_owned(),
        base_offset: 0,
        current_offset: sum as u64,
        segment_size,
        closed: !is_last,
    };
    proof {
        let d1 = r.log.index.data@;
        assert forall|i: int| 0 <= i < k implies spec_entry_offset_at(d1, i)
            == spec_entry_offset_at(idx0, i) && spec_entry_size_at(d1, i) == spec_entry_size_at(
            idx0,
            i,
        ) by {
            assert(d1.subrange(8 * i, 8 * i + 4) =~= idx0.subrange(8 * i, 8 * i + 4));
            assert(d1.subrange(8 * i + 4, 8 * i + 8) =~= idx0.subrange(8 * i + 4, 8 * i + 8));
        }
        assert forall|j: int| 0 <= j <= k implies spec_end_at(d1, j) == spec_end_at(idx0, j) by {
            lemma_end_at_congruent(d1, idx0, j);
        }
        assert(r.log.data@ =~= log0.subrange(0, sum as int));
        assert(r.log.wf());
        assert(r.wf());
        if clean {
            assert(r.log.data@ =~= log0);
            assert(r.payloads() =~= spec_payloads_of(log0, idx0, n0));
        }
    }
    r
}

/// The declared index write offset of segment `i` in a topic image: the
/// tracker value for the last segment, the index file length for earlier,
/// closed ones.
pub open spec fn spec_declared_of(segs: Seq<SegmentData>, i: int, l_offset: int) -> int {
    if i == segs.len() - 1 {
        l_offset
    } else {
        segs[i].index_bytes@.len() as int
    }
}

/// The declared entry count of segment `i` in a topic image.
pub open spec fn spec_topic_count(segs: Seq<SegmentData>, i: int, l_offset: int) -> int {
    spec_declared_of(segs, i, l_offset) / 8
}

/// Every segment image of the topic is clean.
pub open spec fn spec_segments_clean(
    segs: Seq<SegmentData>,
    l_offset: int,
    segment_size: u64,
) -> bool {
    forall|i: int|
        0 <= i < segs.len() ==> spec_segment_clean(
            (#[trigger] segs[i]).log_bytes@,
            segs[i].index_bytes@,
            spec_declared_of(segs, i, l_offset),
            segment_size,
            i == segs.len() - 1,
        )
}

/// The messages stored by the first `k` segment images, in append order.
pub open spec fn spec_topic_messages_upto(
    segs: Seq<SegmentData>,
    l_offset: int,
    k: int,
) -> Seq<Seq<u8>>
    decreases k,
{
    if k <= 0 {
        Seq::empty()
    } else {
        spec_topic_messages_upto(segs, l_offset, k - 1) + spec_payloads_of(
            segs[k - 1].log_bytes@,
            segs[k - 1].index_bytes@,
            spec_topic_count(segs, k - 1, l_offset),
        )
    }
}

/// The entries stored by the first `k` segment images.
pub open spec fn spec_topic_entries_before(segs: Seq<SegmentData>, l_offset: int, k: int) -> int
    decreases k,
{
    if k <= 0 {
        0
    } else {
        spec_topic_entries_before(segs, l_offset, k - 1) + spec_topic_count(segs, k - 1, l_offset)
    }
}

/// Rebuilt segments that hold the declared payloads of a topic image store
/// the same messages.
pub proof fn lemma_topic_messages_eq(
    segs: Seq<Segment>,
    td_segs: Seq<SegmentData>,
    l_offset: int,
    k: int,
)
    requires
        segs.len() == td_segs.len(),
        forall|i: int|
            0 <= i < k ==> (#[trigger] segs[i]).payloads() == spec_payloads_of(
                td_segs[i].log_bytes@,
                td_segs[i].index_bytes@,
                spec_topic_count(td_segs, i, l_offset),
            ),
    ensures
        spec_messages_upto(segs, k) == spec_topic_messages_upto(td_segs, l_offset, k),
    decreases k,
{
    if k > 0 {
        lemma_topic_messages_eq(segs, td_segs, l_offset, k - 1);
    }
}

/// Rebuilt segments that hold the declared entry counts of a topic image
/// store the same counts.
pub proof fn lemma_topic_entries_eq(
    segs: Seq<Segment>,
    td_segs: Seq<SegmentData>,
    l_offset: int,
    k: int,
)
    requires
        segs.len() == td_segs.len(),
        forall|i: int|
            0 <= i < k ==> (#[trigger] segs[i]).entry_count() == spec_topic_count(
                td_segs,
                i,
                l_offset,
            ),
    ensures
        spec_entries_before(segs, k) == spec_topic_entries_before(td_segs, l_offset, k),
    decreases k,
{
    if k > 0 {
        lemma_topic_entries_eq(segs, td_segs, l_offset, k - 1);
    }
}

/// Rebuilds every segment of one topic from its on-disk images. `l_offset`
/// is the tracker's last written index offset, used for the last segment;
/// earlier segments take their index file length as their write offset.
pub fn load_segments_from_disk(
    dir_path: &str,
    segments_data: Vec<SegmentData>,
    l_offset: usize,
    segment_size: u64,
) -> (r: Vec<Segment>)
    requires
        segment_size <= u32::MAX,
    ensures
        r@.len() == segments_data@.len(),
        forall|i: int| 0 <= i < r@.len() ==> (#[trigger] r@[i]).wf(),
        forall|i: int|
            0 <= i < r@.len() ==> (#[trigger] r@[i]).closed == (i < r@.len() - 1),
        forall|i: int|
            0 <= i < r@.len() ==> (#[trigger] r@[i]).segment_size == segment_size,
        forall|i: int| 0 <= i < r@.len() ==> (#[trigger] r@[i]).log.index.roffset == 0,
        forall|i: int|
            0 <= i < r@.len() ==> (#[trigger] r@[i]).log.index.max_size <= segment_size,
        forall|i: int|
            0 <= i < r@.len() - 1 ==> (#[trigger] r@[i]).log.index.max_size
                == r@[i].log.index.offset,
        spec_segments_clean(segments_data@, l_offset as int, segment_size) ==> forall|i: int|
            0 <= i < r@.len() ==> (#[trigger] r@[i]).entry_count() == spec_topic_count(
                segments_data@,
                i,
                l_offset as int,
            ) && r@[i].payloads() == spec_payloads_of(
                segments_data@[i].log_bytes@,
                segments_data@[i].index_bytes@,
                spec_topic_count(segments_data@, i, l_offset as int),
            ),
{
    let ghost sd0 = segments_data@;
    let ghost clean = spec_segments_clean(sd0, l_offset as int, segment_size);
    let m = segments_data.len();
    let mut rest = segments_data;
    let mut out: Vec<Segment> = Vec::new();
    let mut i: usize = 0;
    while rest.len() > 0
        invariant
            i + rest@.len() == m,
            i == out@.len(),
            m == sd0.len(),
            rest@ == sd0.skip(i as int),
            segment_size <= u32::MAX,
            clean == spec_segments_clean(sd0, l_offset as int, segment_size),
            forall|j: int| 0 <= j < i ==> (#[trigger] out@[j]).wf(),
            forall|j: int| 0 <= j < i ==> (#[trigger] out@[j]).closed == (j < m - 1),
            forall|j: int| 0 <= j < i ==> (#[trigger] out@[j]).segment_size == segment_size,
            forall|j: int| 0 <= j < i ==> (#[trigger] out@[j]).log.index.roffset == 0,
            forall|j: int|
                0 <= j < i ==> (#[trigger] out@[j]).log.index.max_size <= segment_size,
            forall|j: int|
                0 <= j < i && j < m - 1 ==> (#[trigger] out@[j]).log.index.max_size
                    == out@[j].log.index.offset,
            clean ==> forall|j: int|
                0 <= j < i ==> (#[trigger] out@[j]).entry_count() == spec_topic_count(
                    sd0,
                    j,
                    l_offset as int,
                ) && out@[j].payloads() == spec_payloads_of(
                    sd0[j].log_bytes@,
                    sd0[j].index_bytes@,
                    spec_topic_count(sd0, j, l_offset as int),
                ),
        decreases rest@.len(),
    {
        let sd = rest.remove(0);
        proof {
            assert(sd == sd0[i as int]);
            assert(rest@ =~= sd0.skip(i + 1));
        }
        let is_last = i == m - 1;
        let declared: usize = if is_last {
            l_offset
        } else {
            sd.index_bytes.len()
        };
        let ghost declared_spec = spec_declared_of(sd0, i as int, l_offset as int);
        proof {
            assert(declared as int == declared_spec);
        }
        let segment = load_segment(dir_path, i as u32, sd, declared, segment_size, is_last);
        out.push(segment);
        i = i + 1;
    }
    out
}

/// The reader segment recorded in a topic image's tracker.
pub open spec fn spec_topic_rpos(td: TopicData) -> int {
    spec_u32_from_be_bytes(td.tracker@.subrange(0, 4)) as int
}

/// The reader index offset recorded in a topic image's tracker.
pub open spec fn spec_topic_roff(td: TopicData) -> int {
    spec_u32_from_be_bytes(td.tracker@.subrange(4, 8)) as int
}

/// The last written index offset recorded in a topic image's tracker.
pub open spec fn spec_topic_lw(td: TopicData) -> int {
    spec_u32_from_be_bytes(td.tracker@.subrange(8, 12)) as int
}

/// A topic image is clean: it is exactly what persisting a well-formed
/// commit log writes, with a full tracker, clean segments, non-empty later
/// segments, and cursors in range.
pub open spec fn spec_topic_clean(td: TopicData, segment_size: u64) -> bool {
    let m = td.segments@.len() as int;
    &&& td.tracker@.len() == 12
    &&& m >= 1
    &&& m - 1 <= u32::MAX
    &&& spec_segments_clean(td.segments@, spec_topic_lw(td), segment_size)
    &&& (forall|i: int| 1 <= i < m ==> spec_topic_count(td.segments@, i, spec_topic_lw(td)) >= 1)
    &&& 0 <= spec_topic_rpos(td) < m
    &&& spec_topic_roff(td) % 8 == 0
    &&& spec_topic_roff(td) <= spec_declared_of(td.segments@, spec_topic_rpos(td), spec_topic_lw(td))
}

/// All messages recorded in a topic image, in append order.
pub open spec fn spec_topic_messages(td: TopicData) -> Seq<Seq<u8>> {
    spec_topic_messages_upto(td.segments@, spec_topic_lw(td), td.segments@.len() as int)
}

/// The number of consumed messages recorded in a topic image.
pub open spec fn spec_topic_read_count(td: TopicData) -> int {
    spec_topic_entries_before(td.segments@, spec_topic_lw(td), spec_topic_rpos(td))
        + spec_topic_roff(td) / 8
}

/// A topic image holds exactly the bytes that persisting `cl` writes: the
/// log file, index file and tracker file contents, byte for byte.
pub open spec fn spec_persists_to(cl: CommitLog, td: TopicData) -> bool {
    &&& td.name@ == cl.name@
    &&& td.tracker@ == cl.queue_pos@
    &&& td.segments@.len() == cl.segments@.len()
    &&& forall|i: int|
        0 <= i < cl.segments@.len() ==> (#[trigger] td.segments@[i]).log_bytes@
            == cl.segments@[i].log.data@ && td.segments@[i].index_bytes@
            == cl.segments@[i].log.index.data@
}

/// Restart idempotence: the on-disk image that a well-formed commit log
/// persists is clean, and restoring it yields the same messages and the
/// same read cursor, so a restarted broker serves exactly the messages the
/// stopped one held, in order.
pub proof fn lemma_restore_round_trip(cl: CommitLog, td: TopicData)
    requires
        cl.wf(),
        spec_persists_to(cl, td),
    ensures
        spec_topic_clean(td, cl.segment_size),
        spec_topic_messages(td) == cl.messages(),
        spec_topic_read_count(td) == cl.read_count(),
{
    let m = cl.segments@.len() as int;
    let lw = spec_topic_lw(td);
    lemma_tracker_round_trip(cl.rposition, cl.rindex_offset, cl.windex_offset);
    assert(td.tracker@ == spec_tracker_bytes(cl.rposition, cl.rindex_offset, cl.windex_offset));
    assert(spec_topic_rpos(td) == cl.rposition as int);
    assert(spec_topic_roff(td) == cl.rindex_offset as int);
    assert(lw == cl.windex_offset as int);
    assert forall|i: int| 0 <= i < m implies spec_declared_of(td.segments@, i, lw) == cl.segments@[
        i].log.index.offset as int by {
        assert(cl.segments@[i].wf());
        if i < m - 1 {
            assert(cl.segments@[i].log.index.max_size == cl.segments@[i].log.index.offset);
            assert(td.segments@[i].index_bytes@.len() == cl.segments@[i].log.index.data@.len());
        }
    }
    assert forall|i: int| 0 <= i < m implies spec_segment_clean(
        (#[trigger] td.segments@[i]).log_bytes@,
        td.segments@[i].index_bytes@,
        spec_declared_of(td.segments@, i, lw),
        cl.segment_size,
        i == m - 1,
    ) by {
        let seg = cl.segments@[i];
        assert(seg.wf());
        assert(td.segments@[i].log_bytes@ == seg.log.data@);
        assert(td.segments@[i].index_bytes@ == seg.log.index.data@);
        assert(spec_declared_of(td.segments@, i, lw) == seg.log.index.offset as int);
        assert(seg.log.index.offset as int / 8 == seg.log.index.entry_count());
        assert(spec_entries_consistent(
            seg.log.index.data@,
            seg.log.data@,
            seg.log.index.entry_count(),
        ));
    }
    assert forall|i: int| 1 <= i < m implies spec_topic_count(td.segments@, i, lw) >= 1 by {
        assert(cl.segments@[i].entry_count() >= 1);
        assert(spec_declared_of(td.segments@, i, lw) == cl.segments@[i].log.index.offset as int);
        assert(cl.segments@[i].wf());
    }
    assert(spec_topic_clean(td, cl.segment_size));
    assert forall|i: int| 0 <= i < m implies (#[trigger] cl.segments@[i]).payloads()
        == spec_payloads_of(
        td.segments@[i].log_bytes@,
        td.segments@[i].index_bytes@,
        spec_topic_count(td.segments@, i, lw),
    ) by {
        assert(cl.segments@[i].wf());
    }
    lemma_topic_messages_eq(cl.segments@, td.segments@, lw, m);
    assert forall|i: int| 0 <= i < m implies (#[trigger] cl.segments@[i]).entry_count()
        == spec_topic_count(td.segments@, i, lw) by {
        assert(cl.segments@[i].wf());
    }
    lemma_topic_entries_eq(cl.segments@, td.segments@, lw, cl.rposition as int);
}

/// Index append determinism: in a well-formed segment, the `i`-th index
/// entry records exactly the sum of the sizes of the entries before it and
/// the size of payload `i`, and payload `i` is the log slice those values
/// select.
pub proof fn lemma_index_append_determinism(s: Segment, i: int)
    requires
        s.wf(),
        0 <= i < s.entry_count(),
    ensures
        spec_entry_offset_at(s.log.index.data@, i) == spec_end_at(s.log.index.data@, i),
        s.payloads()[i] == s.log.data@.subrange(
            spec_end_at(s.log.index.data@, i),
            spec_end_at(s.log.index.data@, i) + spec_entry_size_at(s.log.index.data@, i),
        ),
{
}

/// Log and index consistency: in a well-formed segment, the log holds
/// exactly the sum of the recorded payload sizes, and the index write
/// offset is eight bytes per entry.
pub proof fn lemma_log_index_consistency(s: Segment)
    requires
        s.wf(),
    ensures
        s.log.data@.len() == spec_end_at(s.log.index.data@, s.entry_count()),
        s.log.index.offset == 8 * s.entry_count(),
        s.current_offset == s.log.data@.len(),
{
}

/// Subscribe monotonicity: the shared read cursor always sits between zero
/// and the number of stored messages. Together with `CommitLog::read`, which
/// returns message `read_count()` and advances the cursor by one, the
/// sequence a subscriber receives is the prefix
/// `messages().take(read_count())` of the published messages, in publish
/// order.
pub proof fn lemma_subscribe_monotonic(cl: CommitLog)
    requires
        cl.wf(),
    ensures
        0 <= cl.read_count() <= cl.messages().len(),
{
    let segs = cl.segments@;
    let rpos = cl.rposition as int;
    lemma_entries_before_monotonic(segs, 0, rpos);
    assert(segs[rpos].wf());
    assert(cl.rindex_offset as int / 8 <= segs[rpos].entry_count());
    assert(spec_entries_before(segs, rpos + 1) == spec_entries_before(segs, rpos) + segs[
        rpos].entry_count());
    lemma_entries_before_monotonic(segs, rpos + 1, segs.len() as int);
    lemma_messages_upto_len(segs, segs.len() as int);
}

/// Bounded message size: a payload larger than the configured segment size
/// can never be stored, so `save_to_disk` rejects it with `NoSpaceLeft`.
pub proof fn lemma_bounded_message_size(cl: CommitLog, len: int)
    requires
        cl.wf(),
        len > cl.segment_size,
    ensures
        !cl.can_append(len),
{
    assert(cl.segments@[cl.segments@.len() - 1].wf());
}

/// Segment rollover correctness, the bounds half: a well-formed commit log
/// keeps every segment within the configured segment size, keeps every
/// segment but the last closed, and grows by exactly one segment per
/// rollover (the shape `save_to_disk` ensures); its messages are the
/// concatenation of its segments' payloads in id order.
pub proof fn lemma_rollover_correctness(cl: CommitLog)
    requires
        cl.wf(),
    ensures
        forall|i: int|
            0 <= i < cl.segments@.len() ==> (#[trigger] cl.segments@[i]).current_offset
                <= cl.segment_size,
        forall|i: int| 0 <= i < cl.segments@.len() - 1 ==> (#[trigger] cl.segments@[i]).closed,
        cl.messages() == spec_messages_upto(cl.segments@, cl.segments@.len() as int),
        cl.messages().len() == spec_entries_before(cl.segments@, cl.segments@.len() as int),
{
    lemma_messages_upto_len(cl.segments@, cl.segments@.len() as int);
    assert forall|i: int| 0 <= i < cl.segments@.len() implies (#[trigger] cl.segments@[
        i]).current_offset <= cl.segment_size by {
        assert(cl.segments@[i].wf());
    }
}

/// The payloads the from-the-start walk has yielded so far, summed over the
/// first `k` segments.
pub open spec fn spec_iter_count(segs: Seq<Segment>, k: int) -> int
    decreases k,
{
    if k <= 0 {
        0
    } else {
        spec_iter_count(segs, k - 1) + segs[k - 1].log.index.roffset as int / 8
    }
}

/// The walk cursors have the shape the walk itself produces: once a later
/// segment has been entered, every earlier segment is walked through.
pub open spec fn spec_iter_prefix(segs: Seq<Segment>) -> bool {
    forall|i: int, j: int|
        #![trigger segs[i].log.index.roffset, segs[j].log.index.roffset]
        0 <= i < j < segs.len() && segs[j].log.index.roffset > 0 ==> segs[i].log.index.roffset
            == segs[i].log.index.offset
}

/// Up to a fully-walked prefix, the walk count equals the entry count.
proof fn lemma_iter_count_consumed(segs: Seq<Segment>, k: int)
    requires
        forall|i: int|
            0 <= i < k ==> (#[trigger] segs[i]).log.index.roffset == segs[i].log.index.offset,
        forall|i: int| 0 <= i < k ==> (#[trigger] segs[i]).wf(),
    ensures
        spec_iter_count(segs, k) == spec_entries_before(segs, k),
    decreases k,
{
    if k > 0 {
        lemma_iter_count_consumed(segs, k - 1);
        assert(segs[k - 1].log.index.roffset as int / 8 == segs[k - 1].entry_count());
    }
}

/// Beyond the first unwalked segment, the walk count stops growing.
proof fn lemma_iter_count_tail(segs: Seq<Segment>, fu: int, k: int)
    requires
        0 <= fu < k <= segs.len(),
        forall|i: int| fu < i < k ==> (#[trigger] segs[i]).log.index.roffset == 0,
    ensures
        spec_iter_count(segs, k) == spec_iter_count(segs, fu + 1),
    decreases k,
{
    if k > fu + 1 {
        lemma_iter_count_tail(segs, fu, k - 1);
    }
}

/// The first unwalked segment lies at or after `k` when the first `k`
/// segments are walked through.
proof fn lemma_first_unread_from(segs: Seq<Segment>, k: int)
    requires
        0 <= k <= segs.len(),
        forall|i: int|
            0 <= i < k ==> (#[trigger] segs[i]).log.index.roffset == segs[i].log.index.offset,
    ensures
        spec_first_unread(segs, 0) == spec_first_unread(segs, k),
    decreases k,
{
    if k > 0 {
        lemma_first_unread_from(segs, k - 1);
        assert(spec_first_unread(segs, k - 1) == spec_first_unread(segs, k));
    }
}

/// Rollover correctness, the retrieval half: when the walk cursors have the
/// walk's own shape and fewer payloads were yielded than stored, the next
/// step of the walk yields exactly message `spec_iter_count` of the whole
/// topic — so walking from the start yields every appended payload in
/// append order, across all segments.
pub proof fn lemma_iteration_in_order(cl: CommitLog)
    requires
        cl.wf(),
        spec_iter_prefix(cl.segments@),
        spec_iter_count(cl.segments@, cl.segments@.len() as int) < cl.messages().len(),
    ensures
        spec_first_unread(cl.segments@, 0) < cl.segments@.len(),
        ({
            let fu = spec_first_unread(cl.segments@, 0);
            let seg = cl.segments@[fu];
            seg.payloads()[seg.log.index.roffset as int / 8] == cl.messages()[spec_iter_count(
                cl.segments@,
                cl.segments@.len() as int,
            )]
        }),
{
    let segs = cl.segments@;
    let n = segs.len() as int;
    let fu = spec_first_unread(segs, 0);
    lemma_first_unread_bounds(segs, 0);
    if fu == n {
        assert forall|i: int| 0 <= i < n implies (#[trigger] segs[i]).log.index.roffset == segs[
            i].log.index.offset by {
            lemma_first_unread_walked(segs, 0, i);
        }
        assert forall|i: int| 0 <= i < n implies (#[trigger] segs[i]).wf() by {}
        lemma_iter_count_consumed(segs, n);
        lemma_messages_upto_len(segs, n);
        assert(false);
    }
    assert forall|i: int| 0 <= i < fu implies (#[trigger] segs[i]).log.index.roffset == segs[
        i].log.index.offset by {
        lemma_first_unread_walked(segs, 0, i);
    }
    assert(segs[fu].log.index.roffset < segs[fu].log.index.offset);
    assert forall|j: int| fu < j < n implies (#[trigger] segs[j]).log.index.roffset == 0 by {
        if segs[j].log.index.roffset > 0 {
            assert(segs[fu].log.index.roffset == segs[fu].log.index.offset);
        }
    }
    lemma_iter_count_consumed(segs, fu);
    if fu + 1 < n {
        lemma_iter_count_tail(segs, fu, n);
    }
    assert(spec_iter_count(segs, fu + 1) == spec_entries_before(segs, fu) + segs[
        fu].log.index.roffset as int / 8);
    assert(segs[fu].wf());
    let j = segs[fu].log.index.roffset as int / 8;
    assert(0 <= j < segs[fu].entry_count());
    lemma_messages_index(segs, n, fu, j);
}

/// One walk step, as `CommitLog::next` performs it, keeps the walk shape
/// and raises the walk count by one — so repeating `next` yields message
/// zero, one, two, … of the topic, in order, until every one was yielded.
pub proof fn lemma_iteration_step(segs: Seq<Segment>, segs2: Seq<Segment>)
    requires
        spec_iter_prefix(segs),
        forall|t: int| 0 <= t < segs.len() ==> (#[trigger] segs[t]).wf(),
        spec_first_unread(segs, 0) < segs.len(),
        segs2.len() == segs.len(),
        forall|t: int| 0 <= t < segs.len() && t != spec_first_unread(segs, 0) ==> segs2[t] == (
        #[trigger] segs[t]),
        ({
            let fu = spec_first_unread(segs, 0);
            &&& segs2[fu].log.index.offset == segs[fu].log.index.offset
            &&& segs2[fu].log.index.roffset == segs[fu].log.index.roffset + 8
            &&& segs[fu].log.index.roffset % 8 == 0
        }),
    ensures
        spec_iter_prefix(segs2),
        spec_iter_count(segs2, segs2.len() as int) == spec_iter_count(segs, segs.len() as int)
            + 1,
{
    let fu = spec_first_unread(segs, 0);
    lemma_first_unread_bounds(segs, 0);
    assert forall|i: int| 0 <= i < fu implies (#[trigger] segs[i]).log.index.roffset == segs[
        i].log.index.offset by {
        lemma_first_unread_walked(segs, 0, i);
    }
    assert forall|i: int, j: int|
        #![trigger segs2[i].log.index.roffset, segs2[j].log.index.roffset]
        0 <= i < j < segs2.len() && segs2[j].log.index.roffset > 0 implies segs2[
        i].log.index.roffset == segs2[i].log.index.offset by {
        if j != fu && segs[j].log.index.roffset > 0 && i != fu {
            assert(segs[i].log.index.roffset == segs[i].log.index.offset);
        }
        if j == fu && i != fu {
            assert(segs[i].log.index.roffset == segs[i].log.index.offset);
        }
    }
    lemma_iter_count_update(segs, segs2, fu, segs.len() as int);
}

/// Changing the walk cursor of one segment shifts the walk count by exactly
/// that segment's cursor change.
proof fn lemma_iter_count_update(segs: Seq<Segment>, segs2: Seq<Segment>, i: int, k: int)
    requires
        segs2.len() == segs.len(),
        0 <= i < segs.len(),
        k <= segs.len(),
        forall|t: int| 0 <= t < segs.len() && t != i ==> segs2[t] == (#[trigger] segs[t]),
    ensures
        k <= i ==> spec_iter_count(segs2, k) == spec_iter_count(segs, k),
        k > i ==> spec_iter_count(segs2, k) == spec_iter_count(segs, k) + (segs2[
        i].log.index.roffset as int / 8 - segs[i].log.index.roffset as int / 8),
    decreases k,
{
    if k > 0 {
        lemma_iter_count_update(segs, segs2, i, k - 1);
        assert(spec_iter_count(segs2, k) == spec_iter_count(segs2, k - 1) + segs2[k
            - 1].log.index.roffset as int / 8);
        assert(spec_iter_count(segs, k) == spec_iter_count(segs, k - 1) + segs[k
            - 1].log.index.roffset as int / 8);
    }
}

/// The first unwalked segment lies between `k` and the list length.
proof fn lemma_first_unread_bounds(segs: Seq<Segment>, k: int)
    requires
        0 <= k <= segs.len(),
    ensures
        k <= spec_first_unread(segs, k) <= segs.len(),
        spec_first_unread(segs, k) < segs.len() ==> segs[spec_first_unread(
            segs,
            k,
        )].log.index.roffset < segs[spec_first_unread(segs, k)].log.index.offset,
    decreases segs.len() - k,
{
    if k < segs.len() && !(segs[k].log.index.roffset < segs[k].log.index.offset) {
        lemma_first_unread_bounds(segs, k + 1);
    }
}

/// Every segment before the first unwalked one is walked through.
proof fn lemma_first_unread_walked(segs: Seq<Segment>, k: int, i: int)
    requires
        0 <= k <= i < spec_first_unread(segs, k),
        spec_first_unread(segs, k) <= segs.len(),
        forall|t: int| 0 <= t < segs.len() ==> (#[trigger] segs[t]).wf(),
    ensures
        segs[i].log.index.roffset == segs[i].log.index.offset,
    decreases i - k,
{
    if i > k {
        lemma_first_unread_walked(segs, k + 1, i);
    }
}

} // verus!
