//! The segment manager: append-only segment files and their rotation.
//!
//! Each segment file is a header followed by length-prefixed records.  A
//! segment is append-only while active; once the active file reaches the
//! configured maximum size the manager rotates to a fresh file under the next
//! id, and the rotated-out file is never touched again.  Reads address a
//! segment by id, so they never depend on which segment is active.

use vstd::prelude::*;
use vstd::slice::{slice_subrange, slice_to_vec};
use crate::clock::clock_seconds;
use crate::codec::{enc_u32, enc_u64, parse_u32, read_u32, write_u32, write_u64};
use crate::error::Error;
use crate::model::{Header, Metadata, Position};

verus! {

/// The magic number at the front of every segment file.
pub const MAGIC: u32 = 0x47535452;

/// The default maximum size of a segment file, in bytes.
pub const MAX_SEGMENT_SIZE: u64 = 256 * 1024 * 1024;

/// The byte length of a segment header: the magic number, the 4-byte length
/// prefix of the 36 metadata bytes, and the checksum.
pub const HEADER_LEN: u64 = 52;

/// The byte image of one segment file.
#[derive(Debug, Clone)]
pub struct SegmentFile {
    /// The segment's id; also names the file on disk.
    pub id: u64,
    /// The file's bytes: header first, then length-prefixed records.
    pub data: Vec<u8>,
}

// ---------------------------------------------------------------------------
// The header codec
// ---------------------------------------------------------------------------

/// The byte sum used as the header's integrity checksum.
pub open spec fn sum_bytes(s: Seq<u8>) -> int
    decreases s.len(),
{
    if s.len() == 0 {
        0
    } else {
        sum_bytes(s.drop_last()) + s.last()
    }
}

proof fn lemma_sum_bytes_bound(s: Seq<u8>)
    ensures
        0 <= sum_bytes(s) <= 255 * s.len(),
    decreases s.len(),
{
    if s.len() > 0 {
        lemma_sum_bytes_bound(s.drop_last());
    }
}

/// The encoding of a segment's metadata: its five fields in order.
pub open spec fn enc_metadata(m: Metadata) -> Seq<u8> {
    enc_u64(m.id) + enc_u64(m.created) + enc_u64(m.records) + enc_u64(m.bytes) + enc_u32(m.schema)
}

/// The encoding of a segment header: the magic number, the length-prefixed
/// metadata, and the checksum over the metadata bytes.
pub open spec fn enc_header(h: Header) -> Seq<u8> {
    enc_u32(h.magic) + enc_u32(enc_metadata(h.metadata).len() as u32) + enc_metadata(h.metadata)
        + enc_u64(h.checksum)
}

/// Whether the bytes are exactly the header a fresh segment under `id` is
/// created with: the magic number, zeroed counters, schema 1, and the
/// checksum over the metadata bytes — for some creation time.
pub open spec fn spec_is_fresh_header(d: Seq<u8>, id: u64) -> bool {
    exists|now: u64| d == #[trigger] spec_fresh_header(id, now)
}

/// The header a fresh segment under `id`, created at `now`, starts with.
pub open spec fn spec_fresh_header(id: u64, now: u64) -> Seq<u8> {
    let m = Metadata { id, created: now, records: 0, bytes: 0, schema: 1 };
    enc_header(
        Header { magic: MAGIC, metadata: m, checksum: sum_bytes(enc_metadata(m)) as u64 },
    )
}

/// Every header has the same fixed byte length.
pub proof fn lemma_header_len(h: Header)
    ensures
        enc_header(h).len() == HEADER_LEN,
{
    vstd::bytes::lemma_auto_spec_u64_to_from_le_bytes();
    vstd::bytes::lemma_auto_spec_u32_to_from_le_bytes();
}

/// Sums the bytes of a short buffer; the checksum of a header's metadata.
fn checksum_bytes(data: &[u8]) -> (r: u64)
    requires
        255 * data@.len() <= u64::MAX,
    ensures
        r == sum_bytes(data@),
{
    let mut c: u64 = 0;
    let mut i: usize = 0;
    while i < data.len()
        invariant
            255 * data@.len() <= u64::MAX,
            0 <= i <= data@.len(),
            c == sum_bytes(data@.take(i as int)),
            c <= 255 * i,
        decreases data@.len() - i,
    {
        proof {
            assert(data@.take(i + 1).drop_last() =~= data@.take(i as int));
            lemma_sum_bytes_bound(data@.take(i as int));
        }
        c = c + (*vstd::slice::slice_index_get(data, i)) as u64;
        i = i + 1;
    }
    proof {
        assert(data@.take(data@.len() as int) =~= data@);
    }
    c
}

/// Encodes the metadata into its on-disk bytes.
fn encode_metadata(m: &Metadata) -> (r: Vec<u8>)
    ensures
        r@ == enc_metadata(*m),
{
    let mut out: Vec<u8> = Vec::new();
    write_u64(&mut out, m.id);
    write_u64(&mut out, m.created);
    write_u64(&mut out, m.records);
    write_u64(&mut out, m.bytes);
    write_u32(&mut out, m.schema);
    proof {
        assert(out@ =~= enc_metadata(*m));
    }
    out
}

/// Builds the byte image of a fresh segment file: its header alone.
fn make_file(id: u64, now: u64) -> (r: SegmentFile)
    ensures
        r.id == id,
        r.data@ == spec_fresh_header(id, now),
        r.data@.len() == HEADER_LEN,
        spec_is_fresh_header(r.data@, id),
{
    let m = Metadata { id, created: now, records: 0, bytes: 0, schema: 1 };
    let mb = encode_metadata(&m);
    proof {
        vstd::bytes::lemma_auto_spec_u64_to_from_le_bytes();
        vstd::bytes::lemma_auto_spec_u32_to_from_le_bytes();
        lemma_sum_bytes_bound(mb@);
    }
    let ck = checksum_bytes(mb.as_slice());
    let mut data: Vec<u8> = Vec::new();
    write_u32(&mut data, MAGIC);
    write_u32(&mut data, mb.len() as u32);
    let mut mv = mb;
    data.append(&mut mv);
    write_u64(&mut data, ck);
    let h = Header { magic: MAGIC, metadata: m, checksum: ck };
    proof {
        assert(data@ =~= enc_header(h));
        lemma_header_len(h);
        assert(data@ == spec_fresh_header(id, now));
    }
    SegmentFile { id, data }
}

// ---------------------------------------------------------------------------
// Reading records out of file images
// ---------------------------------------------------------------------------

/// The data of the segment named `id` among the files, newest first.
pub open spec fn seg_data(fs: Seq<SegmentFile>, id: u64) -> Option<Seq<u8>>
    decreases fs.len(),
{
    if fs.len() == 0 {
        None
    } else if fs.last().id == id {
        Some(fs.last().data@)
    } else {
        seg_data(fs.drop_last(), id)
    }
}

/// The record bytes a file holds at `offset`, when a whole frame of exactly
/// `length` payload bytes lies there.
pub open spec fn record_at(fdata: Seq<u8>, offset: u64, length: u64) -> Option<Seq<u8>> {
    match parse_u32(fdata, offset as int) {
        None => None,
        Some((n, p1)) => {
            if n as u64 == length && p1 + n <= fdata.len() {
                Some(fdata.subrange(p1, p1 + n))
            } else {
                None
            }
        },
    }
}

/// The record bytes the files hold at a position, if any.
pub open spec fn read_in(fs: Seq<SegmentFile>, p: Position) -> Option<Seq<u8>> {
    match seg_data(fs, p.segment) {
        None => None,
        Some(d) => record_at(d, p.offset, p.length),
    }
}

proof fn lemma_seg_data_at(fs: Seq<SegmentFile>, i: int)
    requires
        forall|a: int, b: int| 0 <= a < b < fs.len() ==> fs[a].id < fs[b].id,
        0 <= i < fs.len(),
    ensures
        seg_data(fs, fs[i].id) == Some(fs[i].data@),
    decreases fs.len(),
{
    if i == fs.len() - 1 {
    } else {
        assert(fs[i].id < fs.last().id);
        assert(fs.drop_last()[i] == fs[i]);
        lemma_seg_data_at(fs.drop_last(), i);
    }
}

proof fn lemma_seg_data_absent(fs: Seq<SegmentFile>, id: u64)
    requires
        forall|a: int| 0 <= a < fs.len() ==> fs[a].id != id,
    ensures
        seg_data(fs, id) is None,
    decreases fs.len(),
{
    if fs.len() > 0 {
        assert forall|a: int| 0 <= a < fs.drop_last().len() implies fs.drop_last()[a].id != id by {
            assert(fs.drop_last()[a] == fs[a]);
        }
        lemma_seg_data_absent(fs.drop_last(), id);
    }
}

/// Extending the active file's data does not disturb any other segment, and
/// leaves every byte already in the active file in place.
proof fn lemma_seg_data_update_last(fs: Seq<SegmentFile>, f2: SegmentFile, id: u64)
    requires
        fs.len() > 0,
        f2.id == fs.last().id,
    ensures
        seg_data(fs.update(fs.len() - 1, f2), id) == if id == fs.last().id {
            Some(f2.data@)
        } else {
            seg_data(fs, id)
        },
{
    let fs2 = fs.update(fs.len() - 1, f2);
    assert(fs2.last() == f2);
    assert(fs2.drop_last() =~= fs.drop_last());
}

/// A fresh segment under a new id adds one readable segment and keeps the
/// rest as they were.
proof fn lemma_seg_data_push(fs: Seq<SegmentFile>, f: SegmentFile, id: u64)
    ensures
        seg_data(fs.push(f), id) == if id == f.id {
            Some(f.data@)
        } else {
            seg_data(fs, id)
        },
{
    assert(fs.push(f).drop_last() =~= fs);
}

// ---------------------------------------------------------------------------
// The manager
// ---------------------------------------------------------------------------

/// The segment manager: every segment file, the active one last.
pub struct Segment {
    /// All segment files, ids strictly increasing; the last one is active.
    files: Vec<SegmentFile>,
    /// The active segment's metadata.
    metadata: Metadata,
    /// The size, in bytes, past which the active segment is rotated out.
    max_size: u64,
}

impl Segment {
    /// The byte images of all segment files, in id order.
    pub closed spec fn files_view(self) -> Seq<SegmentFile> {
        self.files@
    }

    /// The active segment's metadata.
    pub closed spec fn metadata_spec(self) -> Metadata {
        self.metadata
    }

    /// The configured rotation threshold.
    pub closed spec fn max_size_spec(self) -> u64 {
        self.max_size
    }

    /// The record bytes the manager holds at a position, if any.
    pub open spec fn read_model(self, p: Position) -> Option<Seq<u8>> {
        read_in(self.files_view(), p)
    }

    /// Whether the next append must first rotate to a fresh segment.
    pub open spec fn rotation_due(self) -> bool {
        self.metadata_spec().bytes >= self.max_size_spec()
    }

    /// At least one file; ids strictly increasing; the metadata tracks the
    /// active (last) file exactly.
    pub closed spec fn wf(self) -> bool {
        &&& self.files@.len() > 0
        &&& forall|a: int, b: int| 0 <= a < b < self.files@.len() ==> self.files@[a].id
            < self.files@[b].id
        &&& self.metadata.id == self.files@.last().id
        &&& self.metadata.bytes == self.files@.last().data@.len()
        &&& 4 * self.metadata.records <= self.metadata.bytes
        &&& self.metadata.schema == 1
    }

    /// A manager over one fresh segment, with the given rotation threshold.
    /// Fails only when the clock fails.
    pub fn with_max_size(max_size: u64) -> (r: Result<Segment, Error>)
        ensures
            r matches Ok(s) ==> {
                &&& s.wf()
                &&& s.files_view().len() == 1
                &&& s.metadata_spec().id == 1
                &&& s.metadata_spec().records == 0
                &&& s.metadata_spec().bytes == HEADER_LEN
                &&& s.metadata_spec().schema == 1
                &&& s.max_size_spec() == max_size
                &&& s.files_view()[0].id == 1
                &&& spec_is_fresh_header(s.files_view()[0].data@, 1)
            },
            r matches Err(e) ==> e == Error::Time,
    {
        let now = match clock_seconds() {
            Ok(t) => t,
            Err(e) => {
                return Err(e);
            },
        };
        let f = make_file(1, now);
        let bytes = f.data.len() as u64;
        let metadata = Metadata { id: 1, created: now, records: 0, bytes, schema: 1 };
        Ok(Segment { files: vec![f], metadata, max_size })
    }

    /// A manager over one fresh segment with the default rotation threshold.
    /// Fails only when the clock fails.
    pub fn new() -> (r: Result<Segment, Error>)
        ensures
            r matches Ok(s) ==> {
                &&& s.wf()
                &&& s.files_view().len() == 1
                &&& s.metadata_spec().id == 1
                &&& s.metadata_spec().records == 0
                &&& s.metadata_spec().bytes == HEADER_LEN
                &&& s.metadata_spec().schema == 1
                &&& s.max_size_spec() == MAX_SEGMENT_SIZE
                &&& s.files_view()[0].id == 1
                &&& spec_is_fresh_header(s.files_view()[0].data@, 1)
                &&& !s.rotation_due()
            },
            r matches Err(e) ==> e == Error::Time,
    {
        Segment::with_max_size(MAX_SEGMENT_SIZE)
    }

    /// Resumes a manager over existing segment files, activating a fresh
    /// segment under the next id after the largest on hand — a rotated-out
    /// file is never appended to again, even across a restart.  Fails with a
    /// `Format` error exactly when the files are not in strictly increasing
    /// id order, with a `Storage` error when no id is left, and otherwise
    /// only when the clock fails.
    pub fn open(files: Vec<SegmentFile>, max_size: u64) -> (r: Result<Segment, Error>)
        ensures
            r matches Ok(s) ==> {
                &&& s.wf()
                &&& s.max_size_spec() == max_size
                &&& s.files_view().len() == files@.len() + 1
                &&& forall|p: Position| read_in(files@, p) is Some ==> s.read_model(p) == read_in(
                    files@,
                    p,
                )
                &&& s.metadata_spec().records == 0
                &&& s.metadata_spec().id == (if files@.len() == 0 {
                    1u64
                } else {
                    (files@.last().id + 1) as u64
                })
                &&& s.metadata_spec().bytes == HEADER_LEN
                &&& s.metadata_spec().schema == 1
                &&& forall|i: int| 0 <= i < files@.len() ==> s.files_view()[i] == files@[i]
                &&& s.files_view().last().id == s.metadata_spec().id
                &&& spec_is_fresh_header(s.files_view().last().data@, s.metadata_spec().id)
            },
            r matches Err(e) ==> (e matches Error::Format(_) || e == Error::Time || e matches
                Error::Storage(_)),
            (forall|a: int, b: int| 0 <= a < b < files@.len() ==> files@[a].id < files@[b].id)
                && (files@.len() == 0 || files@.last().id < u64::MAX) ==> (r is Ok || r matches
                Err(Error::Time)),
    {
        let mut i: usize = 1;
        while i < files.len()
            invariant
                1 <= i,
                files@.len() > 0 ==> i <= files@.len(),
                files@.len() == 0 ==> i == 1,
                forall|a: int, b: int| 0 <= a < b < i && b < files@.len() ==> files@[a].id
                    < files@[b].id,
            decreases files@.len() - i,
        {
            if files[i - 1].id >= files[i].id {
                return Err(Error::Format("segment files out of id order".to_string()));
            }
            i = i + 1;
        }
        let next = if files.len() == 0 {
            1u64
        } else {
            let last_id = files[files.len() - 1].id;
            if last_id == u64::MAX {
                return Err(Error::Storage("no segment id left".to_string()));
            }
            last_id + 1
        };
        let now = match clock_seconds() {
            Ok(t) => t,
            Err(e) => {
                return Err(e);
            },
        };
        let f = make_file(next, now);
        let bytes = f.data.len() as u64;
        let metadata = Metadata { id: next, created: now, records: 0, bytes, schema: 1 };
        let mut all = files;
        let ghost prior = all@;
        all.push(f);
        let s = Segment { files: all, metadata, max_size };
        proof {
            assert(s.files@.last().id == next);
            assert forall|p: Position| read_in(prior, p) is Some implies s.read_model(p) == read_in(
                prior,
                p,
            ) by {
                lemma_seg_data_push(prior, s.files@.last(), p.segment);
                if p.segment == next {
                    lemma_seg_data_absent(prior, next);
                }
            }
        }
        Ok(s)
    }

    /// Appends one record to the active segment, rotating first when the
    /// active file has reached the threshold, and returns the record's
    /// location.  Everything already readable stays readable, unchanged.
    /// Fails with a `Serialize` error exactly when the payload is longer
    /// than the length prefix can say; a rotation can also fail when no
    /// segment id is left (`Storage`) or the clock fails (`Time`), and a
    /// failure changes nothing.
    pub fn append(&mut self, payload: &[u8]) -> (r: Result<Position, Error>)
        requires
            old(self).wf(),
        ensures
            final(self).wf(),
            r is Err ==> *final(self) == *old(self),
            r matches Err(e) ==> (e matches Error::Serialize(_) || e == Error::Time || e matches
                Error::Storage(_)),
            payload@.len() > u32::MAX ==> (r matches Err(e) && e matches Error::Serialize(_)),
            payload@.len() <= u32::MAX && !old(self).rotation_due() ==> r is Ok,
            payload@.len() <= u32::MAX && old(self).metadata_spec().id < u64::MAX ==> (r is Ok
                || r matches Err(Error::Time)),
            r matches Ok(p) ==> {
                &&& final(self).read_model(p) == Some(payload@)
                &&& p.segment == final(self).metadata_spec().id
                &&& p.length == payload@.len()
                &&& forall|q: Position| old(self).read_model(q) is Some ==> final(self).read_model(
                    q,
                ) == old(self).read_model(q)
                &&& final(self).files_view().len() == old(self).files_view().len() + (
                if old(self).rotation_due() {
                    1int
                } else {
                    0int
                })
                &&& final(self).metadata_spec().records == (if old(self).rotation_due() {
                    1u64
                } else {
                    (old(self).metadata_spec().records + 1) as u64
                })
                &&& final(self).max_size_spec() == old(self).max_size_spec()
                &&& final(self).metadata_spec().id == old(self).metadata_spec().id + (
                if old(self).rotation_due() {
                    1int
                } else {
                    0int
                })
                &&& final(self).metadata_spec().schema == 1
                &&& final(self).files_view().last().id == final(self).metadata_spec().id
                &&& final(self).metadata_spec().bytes == final(self).files_view().last().data@.len()
                &&& p.offset + 4 + p.length == final(self).metadata_spec().bytes
                &&& !old(self).rotation_due() ==> {
                    &&& p.offset == old(self).metadata_spec().bytes
                    &&& final(self).files_view().last().data@ == old(self).files_view().last().data@
                        + enc_u32(payload@.len() as u32) + payload@
                    &&& forall|i: int| 0 <= i < old(self).files_view().len() - 1 ==> final(self).files_view()[i] == old(self).files_view()[i]
                }
                &&& old(self).rotation_due() ==> {
                    &&& p.offset == HEADER_LEN
                    &&& spec_is_fresh_header(
                        final(self).files_view().last().data@.subrange(0, HEADER_LEN as int),
                        final(self).metadata_spec().id,
                    )
                    &&& forall|i: int| 0 <= i < old(self).files_view().len() ==> final(self).files_view()[i] == old(self).files_view()[i]
                }
            },
    {
        if payload.len() > u32::MAX as usize {
            return Err(Error::Serialize("record too long for its length prefix".to_string()));
        }
        let rotated: bool = self.metadata.bytes >= self.max_size;
        if rotated {
            if self.metadata.id == u64::MAX {
                return Err(Error::Storage("no segment id left".to_string()));
            }
            let now = match clock_seconds() {
                Ok(t) => t,
                Err(e) => {
                    return Err(e);
                },
            };
            let next = self.metadata.id + 1;
            let f = make_file(next, now);
            let bytes = f.data.len() as u64;
            proof {
                assert forall|a: int| 0 <= a < self.files@.len() implies (
                #[trigger] self.files@[a].id) <= self.files@.last().id by {
                    if a < self.files@.len() - 1 {
                        assert(self.files@[a].id < self.files@.last().id);
                    }
                }
            }
            self.files.push(f);
            self.metadata = Metadata { id: next, created: now, records: 0, bytes, schema: 1 };
            proof {
                assert(self.files@.drop_last() =~= old(self).files@);
            }
        }
        let ghost mid = *self;
        let ghost mid_files = self.files@;
        // Append the frame — length prefix, then the payload — at the end of
        // the active file.
        let last = self.files.len() - 1;
        let offset_us = self.files[last].data.len();
        let offset = offset_us as u64;
        let mut fdata = slice_to_vec(self.files[last].data.as_slice());
        let ghost pre_data = fdata@;
        write_u32(&mut fdata, payload.len() as u32);
        let mut pv = slice_to_vec(payload);
        fdata.append(&mut pv);
        let fid = self.files[last].id;
        self.files.set(last, SegmentFile { id: fid, data: fdata });
        let new_bytes = self.files[last].data.len() as u64;
        self.metadata = Metadata {
            id: self.metadata.id,
            created: self.metadata.created,
            records: self.metadata.records + 1,
            bytes: new_bytes,
            schema: self.metadata.schema,
        };
        let p = Position { segment: self.metadata.id, offset, length: payload.len() as u64 };
        proof {
            vstd::bytes::lemma_auto_spec_u32_to_from_le_bytes();
            let newdata = self.files@.last().data@;
            assert(newdata =~= pre_data + enc_u32(payload@.len() as u32) + payload@);
            // The new frame reads back as the payload.
            assert(newdata.subrange(offset as int, offset + 4) =~= enc_u32(
                payload@.len() as u32,
            ));
            crate::codec::lemma_parse_u32_enc(newdata, offset as int, payload@.len() as u32);
            assert(newdata.subrange(offset + 4, offset + 4 + payload@.len()) =~= payload@);
            assert(self.files@.last().id == mid.files@.last().id);
            lemma_seg_data_at(self.files@, self.files@.len() - 1);
            assert(self.read_model(p) == Some(payload@));
            // Old reads are undisturbed: other segments are untouched, and
            // the active file only grew.
            assert forall|q: Position| mid.read_model(q) is Some implies self.read_model(q)
                == mid.read_model(q) by {
                assert(self.files@ =~= mid_files.update(mid_files.len() - 1, self.files@.last()));
                lemma_seg_data_update_last(mid_files, self.files@.last(), q.segment);
                if q.segment == mid_files.last().id {
                    let d0 = mid_files.last().data@;
                    let d1 = self.files@.last().data@;
                    assert(d0.len() <= d1.len());
                    if 0 <= q.offset && q.offset + 4 <= d0.len() {
                        assert(d1.subrange(q.offset as int, q.offset + 4) =~= d0.subrange(
                            q.offset as int,
                            q.offset + 4,
                        ));
                        match parse_u32(d0, q.offset as int) {
                            Some((n, p1)) => {
                                if p1 + n <= d0.len() {
                                    assert(d1.subrange(p1, p1 + n) =~= d0.subrange(p1, p1 + n));
                                }
                            },
                            None => {},
                        }
                    }
                }
            }
            if rotated {
                let nd = self.files@.last().data@;
                assert(nd.subrange(0, HEADER_LEN as int) =~= mid_files.last().data@);
                assert(spec_is_fresh_header(mid_files.last().data@, self.metadata.id));
                assert forall|q: Position| old(self).read_model(q) is Some implies mid.read_model(
                    q,
                ) == old(self).read_model(q) by {
                    lemma_seg_data_push(old(self).files@, mid_files.last(), q.segment);
                    if q.segment == mid_files.last().id {
                        lemma_seg_data_absent(old(self).files@, mid_files.last().id);
                    }
                }
            }
            assert forall|q: Position| old(self).read_model(q) is Some implies self.read_model(q)
                == old(self).read_model(q) by {
                if rotated {
                    assert(mid.read_model(q) == old(self).read_model(q));
                } else {
                    assert(mid == *old(self));
                }
                assert(self.read_model(q) == mid.read_model(q));
            }
        }
        Ok(p)
    }

    /// Reads the record bytes at a position, addressing the segment by id.
    /// Fails with a `Missing` error exactly when no segment has that id, and
    /// with a `Format` error exactly when the segment holds no whole frame of
    /// exactly that length at that offset.
    pub fn read(&self, position: Position) -> (r: Result<Vec<u8>, Error>)
        requires
            self.wf(),
        ensures
            r matches Ok(b) ==> self.read_model(position) == Some(b@) && b@.len() <= u32::MAX,
            self.read_model(position) is Some ==> r is Ok,
            r matches Err(e) ==> self.read_model(position) is None && (e matches Error::Missing(_)
                || e matches Error::Format(_)),
    {
        let mut i: usize = 0;
        while i < self.files.len()
            invariant
                self.wf(),
                0 <= i <= self.files@.len(),
                forall|j: int| 0 <= j < i ==> self.files@[j].id != position.segment,
            decreases self.files@.len() - i,
        {
            if self.files[i].id == position.segment {
                proof {
                    lemma_seg_data_at(self.files@, i as int);
                }
                let fdata = &self.files[i].data;
                if position.offset > fdata.len() as u64 {
                    return Err(Error::Format("no record frame at that offset".to_string()));
                }
                let off = position.offset as usize;
                match read_u32(fdata.as_slice(), off) {
                    None => {
                        return Err(Error::Format("no record frame at that offset".to_string()));
                    },
                    Some((n, p1)) => {
                        let nu = n as usize;
                        if n as u64 != position.length || fdata.len() - p1 < nu {
                            return Err(Error::Format("no record frame at that offset".to_string()));
                        }
                        let b = slice_to_vec(slice_subrange(fdata.as_slice(), p1, p1 + nu));
                        return Ok(b);
                    },
                }
            }
            i = i + 1;
        }
        proof {
            lemma_seg_data_absent(self.files@, position.segment);
        }
        Err(Error::Missing("no segment with that id".to_string()))
    }

    /// The configured rotation threshold.
    pub fn max_size(&self) -> (r: u64)
        ensures
            r == self.max_size_spec(),
    {
        self.max_size
    }

    /// How many segment files the manager holds.
    pub fn file_count(&self) -> (r: usize)
        ensures
            r == self.files_view().len(),
    {
        self.files.len()
    }

    /// The segment files themselves, for mirroring to disk.
    pub fn files(&self) -> (r: &Vec<SegmentFile>)
        ensures
            r@ == self.files_view(),
    {
        &self.files
    }

    /// The active segment's metadata.
    pub fn metadata(&self) -> (r: Metadata)
        ensures
            r == self.metadata_spec(),
    {
        self.metadata
    }
}

/// The facts the manager maintains of every well-formed state, public for
/// callers: at least one file, ids strictly increasing, and the metadata
/// tracking the active (last) file — its id, its exact byte length, and
/// schema 1.
pub proof fn lemma_wf_facts(s: Segment)
    requires
        s.wf(),
    ensures
        s.files_view().len() > 0,
        forall|a: int, b: int| 0 <= a < b < s.files_view().len() ==> s.files_view()[a].id
            < s.files_view()[b].id,
        s.metadata_spec().id == s.files_view().last().id,
        s.metadata_spec().bytes == s.files_view().last().data@.len(),
        s.metadata_spec().schema == 1,
{
}

/// Preserved reads compose: a position readable in the first state reads
/// the same bytes in the third, whenever each step keeps readable positions
/// intact — the inductive step by which any chain of appends and reopenings
/// leaves every issued location readable, unchanged.
pub proof fn lemma_reads_compose(a: Segment, b: Segment, c: Segment)
    requires
        forall|q: Position| a.read_model(q) is Some ==> #[trigger] b.read_model(q) == a.read_model(
            q,
        ),
        forall|q: Position| b.read_model(q) is Some ==> #[trigger] c.read_model(q) == b.read_model(
            q,
        ),
    ensures
        forall|q: Position| a.read_model(q) is Some ==> #[trigger] c.read_model(q) == a.read_model(
            q,
        ),
{
    assert forall|q: Position| a.read_model(q) is Some implies #[trigger] c.read_model(q)
        == a.read_model(q) by {
        assert(b.read_model(q) == a.read_model(q));
    }
}

/// What a segment file's name says its id is: `segment_`, at least one
/// decimal digit whose value fits, then `.dat`.
pub open spec fn spec_segment_name_id(s: Seq<char>) -> Option<int> {
    if s.len() >= 13 && s.take(8) == seq!['s', 'e', 'g', 'm', 'e', 'n', 't', '_'] && s.skip(
        s.len() - 4,
    ) == seq!['.', 'd', 'a', 't'] && {
        let mid = s.subrange(8, s.len() - 4);
        (forall|i: int| 0 <= i < mid.len() ==> crate::frame::spec_is_digit(#[trigger] mid[i]))
            && crate::frame::spec_digits_val(mid) <= u64::MAX
    } {
        Some(crate::frame::spec_digits_val(s.subrange(8, s.len() - 4)))
    } else {
        None
    }
}

/// Reads a segment file's id out of its name, `segment_<id>.dat`; any other
/// name, or an id too large to hold, is no segment file.
pub fn parse_segment_name(name: &str) -> (r: Option<u64>)
    ensures
        r matches Some(v) ==> spec_segment_name_id(name@) == Some(v as int),
        r is None ==> spec_segment_name_id(name@) is None,
{
    let cs = crate::frame::chars_of(name);
    let n = cs.len();
    if n < 13 || cs[0] != 's' || cs[1] != 'e' || cs[2] != 'g' || cs[3] != 'm' || cs[4] != 'e'
        || cs[5] != 'n' || cs[6] != 't' || cs[7] != '_' || cs[n - 4] != '.' || cs[n - 3] != 'd'
        || cs[n - 2] != 'a' || cs[n - 1] != 't' {
        proof {
            let p = seq!['s', 'e', 'g', 'm', 'e', 'n', 't', '_'];
            let q = seq!['.', 'd', 'a', 't'];
            if cs@.len() >= 13 {
                assert(cs@.take(8)[0] == cs@[0]);
                assert(cs@.take(8)[1] == cs@[1]);
                assert(cs@.take(8)[2] == cs@[2]);
                assert(cs@.take(8)[3] == cs@[3]);
                assert(cs@.take(8)[4] == cs@[4]);
                assert(cs@.take(8)[5] == cs@[5]);
                assert(cs@.take(8)[6] == cs@[6]);
                assert(cs@.take(8)[7] == cs@[7]);
                assert(cs@.skip(cs@.len() - 4)[0] == cs@[cs@.len() - 4]);
                assert(cs@.skip(cs@.len() - 4)[1] == cs@[cs@.len() - 3]);
                assert(cs@.skip(cs@.len() - 4)[2] == cs@[cs@.len() - 2]);
                assert(cs@.skip(cs@.len() - 4)[3] == cs@[cs@.len() - 1]);
                assert(p[0] == 's' && p[1] == 'e' && p[2] == 'g' && p[3] == 'm');
                assert(p[4] == 'e' && p[5] == 'n' && p[6] == 't' && p[7] == '_');
                assert(q[0] == '.' && q[1] == 'd' && q[2] == 'a' && q[3] == 't');
            }
        }
        return None;
    }
    proof {
        assert(cs@.take(8) =~= seq!['s', 'e', 'g', 'm', 'e', 'n', 't', '_']);
        assert(cs@.skip(cs@.len() - 4) =~= seq!['.', 'd', 'a', 't']);
    }
    let ghost mid = cs@.subrange(8, cs@.len() - 4);
    let mut acc: u64 = 0;
    let mut j: usize = 8;
    while j < n - 4
        invariant
            cs@ == name@,
            cs@.len() == n,
            n >= 13,
            8 <= j <= n - 4,
            mid == cs@.subrange(8, cs@.len() - 4),
            forall|i: int| 0 <= i < j - 8 ==> crate::frame::spec_is_digit(#[trigger] mid[i]),
            acc == crate::frame::spec_digits_val(mid.take(j - 8)),
        decreases n - j,
    {
        let cu = cs[j] as u32;
        if cu < 48 || cu > 57 {
            proof {
                assert(mid[j - 8] == cs@[j as int]);
                assert(0 <= j - 8 < mid.len());
                assert(!crate::frame::spec_is_digit(mid[j - 8]));
                assert(name@.subrange(8, name@.len() - 4)[j - 8] == mid[j - 8]);
                assert(spec_segment_name_id(name@) is None);
            }
            return None;
        }
        let d = (cu - 48) as u64;
        proof {
            assert(mid.take(j - 8 + 1).drop_last() =~= mid.take(j - 8));
            assert(mid.take(j - 8 + 1).last() == cs@[j as int]);
        }
        if acc > (u64::MAX - d) / 10 {
            proof {
                crate::frame::lemma_digits_val_nonneg(mid.take(j - 8));
                assert(crate::frame::spec_digits_val(mid.take(j - 8 + 1)) > u64::MAX);
                assert(name@.subrange(8, name@.len() - 4) == mid);
                if forall|i: int| 0 <= i < mid.len() ==> crate::frame::spec_is_digit(
                    #[trigger] mid[i],
                ) {
                    crate::frame::lemma_digits_val_mono(mid, j - 8 + 1);
                    assert(crate::frame::spec_digits_val(mid) > u64::MAX);
                } else {
                    let w = choose|i: int|
                        0 <= i < mid.len() && !crate::frame::spec_is_digit(#[trigger] mid[i]);
                    assert(name@.subrange(8, name@.len() - 4)[w] == mid[w]);
                }
                assert(spec_segment_name_id(name@) is None);
            }
            return None;
        }
        acc = acc * 10 + d;
        j = j + 1;
    }
    proof {
        assert(mid.take(n - 4 - 8) =~= mid);
    }
    Some(acc)
}

} // verus!
