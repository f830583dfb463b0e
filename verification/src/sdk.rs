//! The store: the orchestration layer over the segment manager and the index.
//!
//! A save appends the record's bytes to the active segment and then binds the
//! record's key to the returned location in the index; a find resolves the
//! key through the index cache and reads the record back out of its segment.
//! Deletions touch only the index — the dead bytes stay until compaction.

use vstd::prelude::*;
use vstd::bytes::{spec_u64_to_le_bytes, u64_to_le_bytes, u64_from_le_bytes, lemma_auto_spec_u64_to_from_le_bytes};
use crate::codec::{decode_user, decoded_user, enc_user, encode_user, user_encodable};
use crate::error::Error;
use crate::index::{enc_log, key_fits, parse_log, replay, lemma_dom_finite, lemma_log_round_trip, lemma_wf_replay, Index, EntryView};
use crate::model::{Position, User, UserView};
use crate::segment::{read_in, Segment, SegmentFile, MAX_SEGMENT_SIZE};

verus! {

/// The index key a record id stands for: its 8 little-endian bytes.
pub open spec fn spec_key(id: u64) -> Seq<u8> {
    spec_u64_to_le_bytes(id)
}

/// Two distinct ids never share a key.
pub proof fn lemma_spec_key_injective(a: u64, b: u64)
    ensures
        spec_key(a) == spec_key(b) ==> a == b,
{
    lemma_auto_spec_u64_to_from_le_bytes();
    assert(spec_u64_to_le_bytes(a).len() == 8);
    assert(spec_u64_to_le_bytes(b).len() == 8);
}

/// Every record of the batch fits the format: encodable, with an encoding
/// short enough for a record frame's length prefix.
pub open spec fn spec_batch_fits(users: Seq<User>) -> bool {
    forall|j: int|
        0 <= j < users.len() ==> user_encodable(#[trigger] users[j]@) && enc_user(users[j]@).len()
            <= u32::MAX
}

/// The bytes a batch appends to the segment manager: a 4-byte length prefix
/// plus the record's encoding, per record.
pub open spec fn spec_batch_bytes(users: Seq<User>) -> int
    decreases users.len(),
{
    if users.len() == 0 {
        0
    } else {
        spec_batch_bytes(users.drop_last()) + 4 + enc_user(users.last()@).len()
    }
}

/// A batch never appends a negative number of bytes.
proof fn lemma_batch_bytes_nonneg(users: Seq<User>)
    ensures
        spec_batch_bytes(users) >= 0,
    decreases users.len(),
{
    if users.len() > 0 {
        lemma_batch_bytes_nonneg(users.drop_last());
    }
}

/// A prefix of the batch never appends more than the whole batch.
proof fn lemma_batch_bytes_prefix(users: Seq<User>, n: int)
    requires
        0 <= n <= users.len(),
    ensures
        0 <= spec_batch_bytes(users.take(n)) <= spec_batch_bytes(users),
    decreases users.len() - n,
{
    lemma_batch_bytes_nonneg(users.take(n));
    if n < users.len() {
        lemma_batch_bytes_prefix(users, n + 1);
        assert(users.take(n + 1).drop_last() =~= users.take(n));
    } else {
        assert(users.take(n) =~= users);
    }
}

/// Storage statistics.
#[derive(Debug, Clone, Copy, PartialEq, Eq, Structural)]
pub struct Stats {
    /// How many records are live: the cardinality of the index.
    pub records: u64,
    /// How many segment files the store holds.
    pub segments: u64,
}

/// The store: a segment manager and an index, written to in lockstep.
pub struct Store {
    /// The segment manager.
    pub(crate) segment: Segment,
    /// The index.
    pub(crate) index: Index,
}

impl Store {
    /// Both halves are well-formed.
    pub closed spec fn wf(self) -> bool {
        self.segment.wf() && self.index.wf()
    }

    /// The map from live keys to locations: the index's contents.
    pub closed spec fn key_map(self) -> Map<Seq<u8>, Position> {
        self.index@
    }

    /// The durable index log, in append order.
    pub closed spec fn entries(self) -> Seq<EntryView> {
        self.index.entries()
    }

    /// The record bytes stored at a location, if a whole record frame is
    /// there.
    pub closed spec fn read_at(self, p: Position) -> Option<Seq<u8>> {
        read_in(self.segment.files_view(), p)
    }

    /// Whether the id has a live index entry.
    pub open spec fn has_key(self, id: u64) -> bool {
        self.key_map().contains_key(spec_key(id))
    }

    /// The record stored under the id: its indexed bytes, read and decoded.
    /// Nothing when the id is absent, and also nothing when the indexed
    /// location cannot be read back as one whole record.
    pub open spec fn record_of(self, id: u64) -> Option<UserView> {
        if self.has_key(id) {
            match self.read_at(self.key_map()[spec_key(id)]) {
                Some(b) => decoded_user(b),
                None => None,
            }
        } else {
            None
        }
    }

    /// What one index entry yields in a scan: nothing unless its key is a
    /// live 8-byte record key whose bytes read back as one whole record.
    pub open spec fn scan_entry(self, k: Seq<u8>) -> Option<UserView> {
        if k.len() == 8 && self.key_map().contains_key(k) {
            match self.read_at(self.key_map()[k]) {
                Some(b) => decoded_user(b),
                None => None,
            }
        } else {
            None
        }
    }

    /// The witness of a scan: the live keys, in the order the items were
    /// produced, each exactly once and all of them — and item `j` succeeds
    /// with exactly the `j`-th entry's record, or fails where that entry
    /// does not read back whole.
    pub open spec fn scan_witness(self, ks: Seq<Seq<u8>>, items: Seq<Result<User, Error>>) -> bool {
        &&& ks.len() == items.len()
        &&& (forall|a: int, b: int| 0 <= a < b < ks.len() ==> ks[a] != ks[b])
        &&& (forall|j: int| 0 <= j < ks.len() ==> self.key_map().contains_key(#[trigger] ks[j]))
        &&& (forall|k: Seq<u8>| self.key_map().contains_key(k) ==> exists|j: int|
            0 <= j < ks.len() && ks[j] == k)
        &&& (forall|j: int| 0 <= j < ks.len() ==> match self.scan_entry(#[trigger] ks[j]) {
            Some(uv) => items[j] matches Ok(u) && u@ == uv,
            None => items[j] is Err,
        })
    }

    /// How many keys are live.
    pub open spec fn key_count(self) -> nat {
        self.key_map().dom().len()
    }

    /// How many segment files the store holds.
    pub closed spec fn segment_count(self) -> nat {
        self.segment.files_view().len()
    }

    /// Whether the next append must first rotate to a fresh segment.
    pub closed spec fn rotation_due(self) -> bool {
        self.segment.rotation_due()
    }

    /// The byte images of all segment files, in id order.
    pub closed spec fn files_spec(self) -> Seq<SegmentFile> {
        self.segment.files_view()
    }

    /// The active segment's id.
    pub closed spec fn active_segment_id(self) -> u64 {
        self.segment.metadata_spec().id
    }

    /// How many bytes the active segment file holds.
    pub closed spec fn active_bytes(self) -> u64 {
        self.segment.metadata_spec().bytes
    }

    /// The configured rotation threshold.
    pub closed spec fn max_segment_size_spec(self) -> u64 {
        self.segment.max_size_spec()
    }

    /// A store over one fresh segment and an empty index, with the given
    /// rotation threshold.  Fails only when the clock fails.
    pub fn with_max_segment_size(max_size: u64) -> (r: Result<Store, Error>)
        ensures
            r matches Ok(s) ==> {
                &&& s.wf()
                &&& s.key_map() == Map::<Seq<u8>, Position>::empty()
                &&& s.segment_count() == 1
                &&& s.entries() == Seq::<EntryView>::empty()
                &&& s.active_segment_id() == 1
                &&& s.active_bytes() == crate::segment::HEADER_LEN
                &&& s.max_segment_size_spec() == max_size
                &&& (max_size > crate::segment::HEADER_LEN ==> !s.rotation_due())
            },
            r matches Err(e) ==> e == Error::Time,
    {
        let segment = match Segment::with_max_size(max_size) {
            Ok(s) => s,
            Err(e) => {
                return Err(e);
            },
        };
        let index = Index::new();
        Ok(Store { segment, index })
    }

    /// A store over one fresh segment and an empty index, with the default
    /// rotation threshold.  Fails only when the clock fails.
    pub fn new() -> (r: Result<Store, Error>)
        ensures
            r matches Ok(s) ==> {
                &&& s.wf()
                &&& s.key_map() == Map::<Seq<u8>, Position>::empty()
                &&& s.segment_count() == 1
                &&& s.entries() == Seq::<EntryView>::empty()
                &&& s.active_segment_id() == 1
                &&& !s.rotation_due()
            },
            r matches Err(e) ==> e == Error::Time,
    {
        Store::with_max_segment_size(MAX_SEGMENT_SIZE)
    }

    /// Reopens a store over segment files and the byte image of an index
    /// log, replaying the log into the cache; the store's visible state is
    /// exactly the replay of the log.  Fails with a `Format` error when the
    /// log holds a malformed entry or the files are out of id order, with a
    /// `Storage` error when no segment id is left, and otherwise only when
    /// the clock fails.
    pub fn open(files: Vec<SegmentFile>, log: &[u8], max_size: u64) -> (r: Result<Store, Error>)
        ensures
            r matches Ok(s) ==> {
                &&& s.wf()
                &&& parse_log(log@, 0) == Some(s.entries())
                &&& s.key_map() == replay(s.entries())
                &&& forall|p: Position| read_in(files@, p) is Some ==> s.read_at(p) == read_in(
                    files@,
                    p,
                )
                &&& s.segment_count() == files@.len() + 1
                &&& s.active_segment_id() == (if files@.len() == 0 {
                    1u64
                } else {
                    (files@.last().id + 1) as u64
                })
                &&& s.active_bytes() == crate::segment::HEADER_LEN
            },
            r matches Err(e) ==> (e matches Error::Format(_) || e == Error::Time || e matches
                Error::Storage(_)),
            parse_log(log@, 0) is None ==> (r matches Err(e) && e matches Error::Format(_)),
            (parse_log(log@, 0) is Some && (forall|a: int, b: int|
                0 <= a < b < files@.len() ==> files@[a].id < files@[b].id) && (files@.len() == 0
                || files@.last().id < u64::MAX)) ==> (r is Ok || r matches Err(Error::Time)),
    {
        let index = match Index::load(log) {
            Ok(ix) => ix,
            Err(e) => {
                return Err(e);
            },
        };
        let ghost files0 = files@;
        let segment = match Segment::open(files, max_size) {
            Ok(s) => s,
            Err(e) => {
                return Err(e);
            },
        };
        let s = Store { segment, index };
        proof {
            assert forall|p: Position| read_in(files0, p) is Some implies s.read_at(p) == read_in(
                files0,
                p,
            ) by {
                assert(s.segment.read_model(p) == read_in(files0, p));
            }
        }
        Ok(s)
    }

    /// The byte image of the index log, for mirroring to disk; reopening
    /// over it restores exactly the store's visible state.
    pub fn log_bytes(&self) -> (r: Vec<u8>)
        requires
            self.wf(),
        ensures
            r@ == enc_log(self.entries()),
    {
        self.index.log_bytes()
    }

    /// The segment files, for mirroring to disk.
    pub fn segment_files(&self) -> (r: &Vec<SegmentFile>)
        ensures
            r@ == self.files_spec(),
    {
        self.segment.files()
    }

    /// Saves a record: appends its bytes to the active segment, then binds
    /// its id in the index.  An id that was already bound simply gets the
    /// newer record; the old bytes become unreachable.  Fails, changing
    /// nothing, when the record does not fit the format (`Serialize`), and a
    /// rotation can also fail when no segment id is left (`Storage`) or the
    /// clock fails (`Time`).
    #[verifier::rlimit(80)]
    pub fn save(&mut self, user: &User) -> (r: Result<(), Error>)
        requires
            old(self).wf(),
        ensures
            final(self).wf(),
            r is Err ==> *final(self) == *old(self),
            !user_encodable(user@) ==> (r matches Err(e) && e matches Error::Serialize(_)),
            user_encodable(user@) && enc_user(user@).len() <= u32::MAX
                && !old(self).rotation_due() ==> r is Ok,
            r is Ok ==> {
                &&& final(self).record_of(user@.id) == Some(user@)
                &&& final(self).has_key(user@.id)
                &&& final(self).key_map() == old(self).key_map().insert(
                    spec_key(user@.id),
                    final(self).key_map()[spec_key(user@.id)],
                )
                &&& forall|i: u64| i != user@.id ==> final(self).has_key(i) == old(self).has_key(i)
                &&& forall|i: u64| i != user@.id && old(self).record_of(i) is Some
                    ==> final(self).record_of(i) == old(self).record_of(i)
                &&& final(self).key_count() == old(self).key_count() + (
                if old(self).has_key(user@.id) {
                    0int
                } else {
                    1int
                })
                &&& final(self).segment_count() == old(self).segment_count() + (
                if old(self).rotation_due() {
                    1int
                } else {
                    0int
                })
            },
    {
        let bytes = match encode_user(user) {
            Ok(b) => b,
            Err(e) => {
                return Err(e);
            },
        };
        let position = match self.segment.append(bytes.as_slice()) {
            Ok(p) => p,
            Err(e) => {
                return Err(e);
            },
        };
        let key = u64_to_le_bytes(user.id);
        proof {
            lemma_auto_spec_u64_to_from_le_bytes();
            assert(key_fits(key@));
        }
        match self.index.put(key.as_slice(), position) {
            Ok(()) => {
                proof {
                    let k = spec_key(user@.id);
                    crate::codec::lemma_decoded_user_enc(user@);
                    assert(self.record_of(user@.id) == Some(user@));
                    assert forall|i: u64| i != user@.id implies self.has_key(i) == old(self).has_key(i) by {
                        lemma_spec_key_injective(i, user@.id);
                    }
                    assert forall|i: u64| i != user@.id && old(self).record_of(i) is Some implies
                        self.record_of(i) == old(self).record_of(i) by {
                        lemma_spec_key_injective(i, user@.id);
                        let ki = spec_key(i);
                        assert(self.key_map()[ki] == old(self).key_map()[ki]);
                        let q = old(self).key_map()[ki];
                        assert(old(self).segment.read_model(q) is Some);
                        assert(self.segment.read_model(q) == old(self).segment.read_model(q));
                    }
                    lemma_dom_finite(old(self).index);
                    vstd::set::axiom_set_insert_len(old(self).index@.dom(), k);
                    assert(self.index@.dom() =~= old(self).index@.dom().insert(k));
                }
                Ok(())
            },
            Err(e) => {
                proof {
                    // Unreachable: an 8-byte key always fits the format.
                    assert(false);
                }
                Err(e)
            },
        }
    }

    /// Finds the record under an id: resolves the key through the index
    /// cache, then reads and decodes its bytes.  An absent id is no error; a
    /// bound id whose bytes cannot be read back as one whole record is.
    pub fn find(&self, id: u64) -> (r: Result<Option<User>, Error>)
        requires
            self.wf(),
        ensures
            !self.has_key(id) ==> r == Ok::<Option<User>, Error>(None),
            self.record_of(id) matches Some(uv) ==> (r matches Ok(o) && o matches Some(u) && u@
                == uv),
            self.has_key(id) && self.record_of(id) is None ==> (r matches Err(e) && (e matches
                Error::Missing(_) || e matches Error::Format(_) || e matches Error::Serialize(_))),
    {
        let key = u64_to_le_bytes(id);
        let position = match self.index.get(key.as_slice()) {
            Ok(Some(p)) => p,
            Ok(None) => {
                return Ok(None);
            },
            Err(e) => {
                return Err(e);
            },
        };
        let bytes = match self.segment.read(position) {
            Ok(b) => b,
            Err(e) => {
                return Err(e);
            },
        };
        match decode_user(bytes.as_slice()) {
            Ok(u) => Ok(Some(u)),
            Err(e) => Err(e),
        }
    }

    /// Deletes the record under an id: appends a durable tombstone to the
    /// index log and removes the key from the cache.  The record's bytes are
    /// untouched; compaction reclaims them later.  An absent id is no error.
    pub fn delete(&mut self, id: u64) -> (r: Result<(), Error>)
        requires
            old(self).wf(),
        ensures
            final(self).wf(),
            r is Ok,
            !final(self).has_key(id),
            final(self).record_of(id) is None,
            final(self).key_map() == old(self).key_map().remove(spec_key(id)),
            forall|i: u64| i != id ==> final(self).has_key(i) == old(self).has_key(i),
            forall|i: u64| i != id && old(self).record_of(i) is Some ==> final(self).record_of(i)
                == old(self).record_of(i),
            final(self).key_count() == old(self).key_count() - (if old(self).has_key(id) {
                1int
            } else {
                0int
            }),
            final(self).segment_count() == old(self).segment_count(),
            final(self).rotation_due() == old(self).rotation_due(),
            final(self).files_spec() == old(self).files_spec(),
    {
        let key = u64_to_le_bytes(id);
        proof {
            lemma_auto_spec_u64_to_from_le_bytes();
            assert(key_fits(key@));
        }
        match self.index.delete(key.as_slice()) {
            Ok(()) => {
                proof {
                    let k = spec_key(id);
                    assert forall|i: u64| i != id implies final(self).has_key(i) == old(self).has_key(i) by {
                        lemma_spec_key_injective(i, id);
                    }
                    assert forall|i: u64| i != id && old(self).record_of(i) is Some implies final(self).record_of(i) == old(self).record_of(i) by {
                        lemma_spec_key_injective(i, id);
                    }
                    lemma_dom_finite(old(self).index);
                    vstd::set::axiom_set_remove_len(old(self).index@.dom(), k);
                    assert(self.index@.dom() =~= old(self).index@.dom().remove(k));
                }
                Ok(())
            },
            Err(e) => {
                proof {
                    // Unreachable: an 8-byte key always fits the format.
                    assert(false);
                }
                Err(e)
            },
        }
    }

    /// Updates a record: an overwriting save of its id.  The newer record
    /// replaces the older one in place of visibility — the id never passes
    /// through an absent state — and the older bytes are left for
    /// compaction.
    pub fn update(&mut self, user: &User) -> (r: Result<(), Error>)
        requires
            old(self).wf(),
        ensures
            final(self).wf(),
            r is Err ==> *final(self) == *old(self),
            !user_encodable(user@) ==> (r matches Err(e) && e matches Error::Serialize(_)),
            user_encodable(user@) && enc_user(user@).len() <= u32::MAX
                && !old(self).rotation_due() ==> r is Ok,
            r is Ok ==> {
                &&& final(self).record_of(user@.id) == Some(user@)
                &&& final(self).has_key(user@.id)
                &&& final(self).key_map() == old(self).key_map().insert(
                    spec_key(user@.id),
                    final(self).key_map()[spec_key(user@.id)],
                )
                &&& forall|i: u64| i != user@.id ==> final(self).has_key(i) == old(self).has_key(i)
                &&& forall|i: u64| i != user@.id && old(self).record_of(i) is Some
                    ==> final(self).record_of(i) == old(self).record_of(i)
            },
    {
        self.save(user)
    }

    /// Saves every record of the batch: appends them all to the segment
    /// manager first, then commits the key bindings as one index batch, in
    /// order — so for ids that repeat, the later record wins.  When the
    /// batch fails, no binding is committed and every record visible before
    /// is visible unchanged.
    #[verifier::rlimit(100)]
    pub fn batch(&mut self, users: &[User]) -> (r: Result<(), Error>)
        requires
            old(self).wf(),
        ensures
            final(self).wf(),
            r matches Err(e) ==> (e matches Error::Serialize(_) || e == Error::Time || e matches
                Error::Storage(_)),
            (exists|j: int|
                0 <= j < users@.len() && !user_encodable(users@[j]@)) ==> r is Err,
            r is Err ==> {
                &&& final(self).key_map() == old(self).key_map()
                &&& forall|i: u64| final(self).has_key(i) == old(self).has_key(i)
                &&& forall|i: u64| old(self).record_of(i) is Some ==> final(self).record_of(i)
                    == old(self).record_of(i)
            },
            r is Ok ==> {
                &&& forall|j: int|
                    0 <= j < users@.len() && (forall|k: int|
                        j < k < users@.len() ==> users@[k]@.id != users@[j]@.id)
                        ==> final(self).record_of(users@[j]@.id) == Some(users@[j]@)
                &&& forall|i: u64|
                    (forall|j: int| 0 <= j < users@.len() ==> users@[j]@.id != i) ==> final(self).has_key(i) == old(self).has_key(i) && (old(self).record_of(i) is Some
                        ==> final(self).record_of(i) == old(self).record_of(i))
                &&& forall|k: Seq<u8>| #[trigger] final(self).key_map().contains_key(k) <==> (old(
                    self,
                ).key_map().contains_key(k) || exists|j: int|
                    0 <= j < users@.len() && spec_key(users@[j]@.id) == k)
            },
            spec_batch_fits(users@) && old(self).active_segment_id() + users@.len() <= u64::MAX
                ==> (r is Ok || r matches Err(Error::Time)),
            spec_batch_fits(users@) && old(self).active_bytes() + spec_batch_bytes(users@) <= old(
                self,
            ).max_segment_size_spec() ==> r is Ok,
    {
        let mut ops: Vec<crate::index::Operation> = Vec::new();
        let ghost mut positions: Seq<Position> = Seq::empty();
        let mut i: usize = 0;
        while i < users.len()
            invariant
                old(self).wf(),
                self.segment.wf(),
                self.index == old(self).index,
                self.index.wf(),
                0 <= i <= users@.len(),
                ops@.len() == i,
                positions.len() == i,
                forall|q: Position| old(self).segment.read_model(q) is Some ==> #[trigger] self
                    .segment.read_model(q) == old(self).segment.read_model(q),
                forall|j: int| 0 <= j < i ==> #[trigger] crate::index::op_views(ops@)[j] == (
                EntryView { key: spec_key(users@[j]@.id), position: Some(positions[j]) }),
                forall|j: int| 0 <= j < i ==> #[trigger] self.segment.read_model(positions[j])
                    == Some(enc_user(users@[j]@)),
                forall|j: int| 0 <= j < i ==> user_encodable(#[trigger] users@[j]@),
                self.segment.max_size_spec() == old(self).segment.max_size_spec(),
                self.segment.metadata_spec().id <= old(self).segment.metadata_spec().id + i,
                spec_batch_fits(users@) && old(self).active_bytes() + spec_batch_bytes(users@)
                    <= old(self).max_segment_size_spec() ==> (self.segment.metadata_spec().id
                    == old(self).segment.metadata_spec().id && self.segment.metadata_spec().bytes
                    == old(self).active_bytes() + spec_batch_bytes(users@.take(i as int))),
            decreases users@.len() - i,
        {
            let bytes = match encode_user(&users[i]) {
                Ok(b) => b,
                Err(e) => {
                    proof {
                        assert(!user_encodable(users@[i as int]@));
                        lemma_batch_err_state(*old(self), *self);
                    }
                    return Err(e);
                },
            };
            let ghost pre_seg = self.segment;
            let position = match self.segment.append(bytes.as_slice()) {
                Ok(p) => p,
                Err(e) => {
                    proof {
                        lemma_batch_err_state(*old(self), *self);
                        if spec_batch_fits(users@) && old(self).active_bytes()
                            + spec_batch_bytes(users@) <= old(self).max_segment_size_spec() {
                            // Under the no-rotation budget, this append was
                            // owed success.
                            lemma_batch_bytes_prefix(users@, i + 1);
                            assert(users@.take(i + 1).drop_last() =~= users@.take(i as int));
                            assert(users@.take(i + 1).last() == users@[i as int]);
                            assert(user_encodable(users@[i as int]@) && enc_user(
                                users@[i as int]@,
                            ).len() <= u32::MAX);
                            assert(!pre_seg.rotation_due());
                            assert(false);
                        }
                        if spec_batch_fits(users@) && old(self).active_segment_id() + users@.len()
                            <= u64::MAX {
                            assert(user_encodable(users@[i as int]@) && enc_user(
                                users@[i as int]@,
                            ).len() <= u32::MAX);
                            assert(pre_seg.metadata_spec().id < u64::MAX);
                        }
                    }
                    return Err(e);
                },
            };
            let key = u64_to_le_bytes(users[i].id);
            let ghost pre_ops = ops@;
            ops.push(crate::index::Operation::Put { key, position });
            proof {
                positions = positions.push(position);
                lemma_auto_spec_u64_to_from_le_bytes();
                assert forall|q: Position| old(self).segment.read_model(q) is Some implies
                    #[trigger] self.segment.read_model(q) == old(self).segment.read_model(q) by {
                    assert(pre_seg.read_model(q) == old(self).segment.read_model(q));
                }
                assert forall|j: int| 0 <= j < i + 1 implies #[trigger] self.segment.read_model(
                    positions[j],
                ) == Some(enc_user(users@[j]@)) by {
                    if j < i {
                        assert(pre_seg.read_model(positions[j]) == Some(enc_user(users@[j]@)));
                    }
                }
                assert forall|j: int| 0 <= j < i + 1 implies #[trigger] crate::index::op_views(
                    ops@,
                )[j] == (EntryView {
                    key: spec_key(users@[j]@.id),
                    position: Some(positions[j]),
                }) by {
                    if j < i {
                        assert(ops@[j] == pre_ops[j]);
                        assert(crate::index::op_views(pre_ops)[j] == (EntryView {
                            key: spec_key(users@[j]@.id),
                            position: Some(positions.drop_last()[j]),
                        }));
                        assert(positions.drop_last()[j] == positions[j]);
                    } else {
                        assert(ops@[j] == (crate::index::Operation::Put {
                            key: key,
                            position: position,
                        }));
                    }
                }
                if spec_batch_fits(users@) && old(self).active_bytes() + spec_batch_bytes(users@)
                    <= old(self).max_segment_size_spec() {
                    lemma_batch_bytes_prefix(users@, i + 1);
                    assert(users@.take(i + 1).drop_last() =~= users@.take(i as int));
                    assert(users@.take(i + 1).last() == users@[i as int]);
                    assert(enc_user(users@[i as int]@).len() >= 0);
                    assert(!pre_seg.rotation_due());
                    assert(self.segment.metadata_spec().bytes == old(self).active_bytes()
                        + spec_batch_bytes(users@.take(i + 1)));
                }
            }
            i = i + 1;
        }
        let ghost pre_index = self.index;
        let ghost op_seq = crate::index::op_views(ops@);
        proof {
            lemma_auto_spec_u64_to_from_le_bytes();
            assert forall|j: int| 0 <= j < ops@.len() implies key_fits(
                #[trigger] crate::index::op_views(ops@)[j].key,
            ) by {
                assert(crate::index::op_views(ops@)[j].key == spec_key(users@[j]@.id));
            }
        }
        match self.index.batch(ops) {
            Ok(()) => {
                proof {
                    assert(self.index@ == crate::index::replay_from(pre_index@, op_seq));
                    assert forall|j: int|
                        0 <= j < users@.len() && (forall|k: int|
                            j < k < users@.len() ==> users@[k]@.id != users@[j]@.id) implies self
                        .record_of(users@[j]@.id) == Some(users@[j]@) by {
                        assert(crate::index::op_views(ops@)[j] == (EntryView {
                            key: spec_key(users@[j]@.id),
                            position: Some(positions[j]),
                        }));
                        assert forall|k: int| j < k < op_seq.len() implies op_seq[k].key
                            != op_seq[j].key by {
                            assert(crate::index::op_views(ops@)[k] == (EntryView {
                                key: spec_key(users@[k]@.id),
                                position: Some(positions[k]),
                            }));
                            lemma_spec_key_injective(users@[k]@.id, users@[j]@.id);
                        }
                        assert(op_seq[j].key == spec_key(users@[j]@.id));
                        assert(op_seq[j].position == Some(positions[j]));
                        crate::index::lemma_replay_from_last_put(
                            pre_index@,
                            op_seq,
                            j,
                            positions[j],
                        );
                        assert(self.key_map().contains_key(spec_key(users@[j]@.id)));
                        assert(self.key_map()[spec_key(users@[j]@.id)] == positions[j]);
                        assert(self.segment.read_model(positions[j]) == Some(
                            enc_user(users@[j]@),
                        ));
                        assert(user_encodable(users@[j]@));
                        crate::codec::lemma_decoded_user_enc(users@[j]@);
                        assert(decoded_user(enc_user(users@[j]@)) == Some(users@[j]@));
                    }
                    assert forall|i2: int| 0 <= i2 < op_seq.len() implies (
                    #[trigger] op_seq[i2].position) is Some by {
                        assert(crate::index::op_views(ops@)[i2] == (EntryView {
                            key: spec_key(users@[i2]@.id),
                            position: Some(positions[i2]),
                        }));
                    }
                    assert forall|k: Seq<u8>| #[trigger] self.key_map().contains_key(k) <==> (old(
                        self,
                    ).key_map().contains_key(k) || exists|j: int|
                        0 <= j < users@.len() && spec_key(users@[j]@.id) == k) by {
                        crate::index::lemma_replay_from_put_dom(pre_index@, op_seq, k);
                        if exists|i2: int| 0 <= i2 < op_seq.len() && op_seq[i2].key == k {
                            let i2 = choose|i2: int|
                                0 <= i2 < op_seq.len() && op_seq[i2].key == k;
                            assert(crate::index::op_views(ops@)[i2] == (EntryView {
                                key: spec_key(users@[i2]@.id),
                                position: Some(positions[i2]),
                            }));
                            assert(spec_key(users@[i2]@.id) == k);
                        }
                        if exists|j: int| 0 <= j < users@.len() && spec_key(users@[j]@.id) == k {
                            let j = choose|j: int|
                                0 <= j < users@.len() && spec_key(users@[j]@.id) == k;
                            assert(crate::index::op_views(ops@)[j] == (EntryView {
                                key: spec_key(users@[j]@.id),
                                position: Some(positions[j]),
                            }));
                            assert(op_seq[j].key == k);
                        }
                    }
                    assert forall|i: u64|
                        (forall|j: int| 0 <= j < users@.len() ==> users@[j]@.id != i) implies self
                        .has_key(i) == old(self).has_key(i) && (old(self).record_of(i) is Some
                        ==> self.record_of(i) == old(self).record_of(i)) by {
                        assert forall|j: int| 0 <= j < op_seq.len() implies op_seq[j].key
                            != spec_key(i) by {
                            assert(crate::index::op_views(ops@)[j] == (EntryView {
                                key: spec_key(users@[j]@.id),
                                position: Some(positions[j]),
                            }));
                            lemma_spec_key_injective(users@[j]@.id, i);
                        }
                        crate::index::lemma_replay_from_absent(pre_index@, op_seq, spec_key(i));
                        if old(self).record_of(i) is Some {
                            let q = old(self).key_map()[spec_key(i)];
                            assert(old(self).segment.read_model(q) is Some);
                            assert(self.segment.read_model(q) == old(self).segment.read_model(q));
                        }
                    }
                }
                Ok(())
            },
            Err(e) => {
                proof {
                    // Unreachable: an 8-byte key always fits the format.
                    assert(false);
                }
                Err(e)
            },
        }
    }

    /// Saves every record of the batch; the name the call surface uses for
    /// [`Store::batch`].
    pub fn batch_save(&mut self, users: &[User]) -> (r: Result<(), Error>)
        requires
            old(self).wf(),
        ensures
            final(self).wf(),
            r matches Err(e) ==> (e matches Error::Serialize(_) || e == Error::Time || e matches
                Error::Storage(_)),
            r is Err ==> {
                &&& forall|i: u64| final(self).has_key(i) == old(self).has_key(i)
                &&& forall|i: u64| old(self).record_of(i) is Some ==> final(self).record_of(i)
                    == old(self).record_of(i)
            },
            r is Ok ==> {
                &&& forall|j: int|
                    0 <= j < users@.len() && (forall|k: int|
                        j < k < users@.len() ==> users@[k]@.id != users@[j]@.id)
                        ==> final(self).record_of(users@[j]@.id) == Some(users@[j]@)
                &&& forall|i: u64|
                    (forall|j: int| 0 <= j < users@.len() ==> users@[j]@.id != i) ==> final(self).has_key(i) == old(self).has_key(i) && (old(self).record_of(i) is Some
                        ==> final(self).record_of(i) == old(self).record_of(i))
                &&& forall|k: Seq<u8>| #[trigger] final(self).key_map().contains_key(k) <==> (old(
                    self,
                ).key_map().contains_key(k) || exists|j: int|
                    0 <= j < users@.len() && spec_key(users@[j]@.id) == k)
            },
            spec_batch_fits(users@) && old(self).active_segment_id() + users@.len() <= u64::MAX
                ==> (r is Ok || r matches Err(Error::Time)),
            spec_batch_fits(users@) && old(self).active_bytes() + spec_batch_bytes(users@) <= old(
                self,
            ).max_segment_size_spec() ==> r is Ok,
    {
        self.batch(users)
    }

    /// Reads every live record out of a snapshot of the index, one result
    /// per live key; a record that cannot be read back is reported per item
    /// rather than aborting the scan.  Every live, readable record appears;
    /// the order is unspecified.
    #[verifier::rlimit(80)]
    pub fn scan(&self) -> (r: Vec<Result<User, Error>>)
        requires
            self.wf(),
        ensures
            r@.len() == self.key_count(),
            forall|j: int| 0 <= j < r@.len() ==> (#[trigger] r@[j] matches Ok(u) ==> exists|id: u64|
                self.record_of(id) == Some(u@)),
            forall|id: u64, uv: UserView| self.record_of(id) == Some(uv) ==> exists|j: int|
                0 <= j < r@.len() && (#[trigger] r@[j] matches Ok(u) && u@ == uv),
            exists|ks: Seq<Seq<u8>>| self.scan_witness(ks, r@),
    {
        let snap = self.index.scan();
        let mut out: Vec<Result<User, Error>> = Vec::new();
        let mut i: usize = 0;
        while i < snap.len()
            invariant
                self.wf(),
                0 <= i <= snap@.len(),
                out@.len() == i,
                snap@.len() == self.key_count(),
                forall|a: int| 0 <= a < snap@.len() ==> self.key_map().contains_key(
                    #[trigger] snap@[a].0@,
                ) && self.key_map()[snap@[a].0@] == snap@[a].1,
                forall|k: Seq<u8>| self.key_map().contains_key(k) ==> exists|a: int|
                    0 <= a < snap@.len() && snap@[a].0@ == k,
                forall|j: int| 0 <= j < i ==> (#[trigger] out@[j] matches Ok(u) ==> exists|id: u64|
                    self.record_of(id) == Some(u@)),
                forall|j: int, id: u64|
                    #![trigger out@[j], spec_key(id)]
                    0 <= j < i && snap@[j].0@ == spec_key(id) && self.record_of(id) is Some ==> (
                    out@[j] matches Ok(u) && Some(u@) == self.record_of(id)),
                forall|j: int| 0 <= j < i ==> match self.scan_entry(#[trigger] snap@[j].0@) {
                    Some(uv) => out@[j] matches Ok(u) && u@ == uv,
                    None => out@[j] is Err,
                },
            decreases snap@.len() - i,
        {
            let klen = snap[i].0.len();
            if klen != 8 {
                proof {
                    lemma_auto_spec_u64_to_from_le_bytes();
                    assert(self.scan_entry(snap@[i as int].0@) is None);
                }
                out.push(Err(Error::Format("index key is not a record id".to_string())));
            } else {
                let id = u64_from_le_bytes(snap[i].0.as_slice());
                proof {
                    lemma_auto_spec_u64_to_from_le_bytes();
                    assert(spec_key(id) == snap@[i as int].0@);
                }
                let position = snap[i].1;
                match self.segment.read(position) {
                    Err(e) => {
                        proof {
                            assert(self.scan_entry(snap@[i as int].0@) is None);
                            assert forall|id2: u64|
                                snap@[i as int].0@ == spec_key(id2) && self.record_of(
                                    id2,
                                ) is Some implies false by {
                                lemma_spec_key_injective(id2, id);
                            }
                        }
                        out.push(Err(e));
                    },
                    Ok(bytes) => {
                        match decode_user(bytes.as_slice()) {
                            Ok(u) => {
                                proof {
                                    assert(self.scan_entry(snap@[i as int].0@) == Some(u@));
                                    assert(self.record_of(id) == Some(u@));
                                    assert forall|id2: u64|
                                        snap@[i as int].0@ == spec_key(id2) && self.record_of(
                                            id2,
                                        ) is Some implies id2 == id by {
                                        lemma_spec_key_injective(id2, id);
                                    }
                                }
                                out.push(Ok(u));
                            },
                            Err(e) => {
                                proof {
                                    assert(self.scan_entry(snap@[i as int].0@) is None);
                                    assert forall|id2: u64|
                                        snap@[i as int].0@ == spec_key(id2) && self.record_of(
                                            id2,
                                        ) is Some implies false by {
                                        lemma_spec_key_injective(id2, id);
                                    }
                                }
                                out.push(Err(e));
                            },
                        }
                    },
                }
            }
            i = i + 1;
        }
        proof {
            assert forall|id: u64, uv: UserView| self.record_of(id) == Some(uv) implies exists|j: int|
                0 <= j < out@.len() && (#[trigger] out@[j] matches Ok(u) && u@ == uv) by {
                let k = spec_key(id);
                let a = choose|a: int| 0 <= a < snap@.len() && snap@[a].0@ == k;
                assert(out@[a] matches Ok(u) && Some(u@) == self.record_of(id));
            }
            let ks = Seq::new(snap@.len(), |j: int| snap@[j].0@);
            assert forall|j: int| 0 <= j < ks.len() implies match self.scan_entry(
                #[trigger] ks[j],
            ) {
                Some(uv) => out@[j] matches Ok(u) && u@ == uv,
                None => out@[j] is Err,
            } by {
                assert(ks[j] == snap@[j].0@);
            }
            assert forall|k: Seq<u8>| self.key_map().contains_key(k) implies exists|j: int|
                0 <= j < ks.len() && ks[j] == k by {
                let a = choose|a: int| 0 <= a < snap@.len() && snap@[a].0@ == k;
                assert(ks[a] == k);
            }
            assert(self.scan_witness(ks, out@));
        }
        out
    }

    /// Storage statistics: how many records are live, and how many segment
    /// files the store holds.
    pub fn stats(&self) -> (r: Result<Stats, Error>)
        requires
            self.wf(),
        ensures
            r matches Ok(st) && st.records == self.key_count() && st.segments
                == self.segment_count(),
    {
        let records = self.index.len() as u64;
        let segments = self.segment.file_count() as u64;
        Ok(Stats { records, segments })
    }

    /// Whether the key is bound and its record reads back as one whole
    /// well-formed record.
    pub open spec fn live_key(self, k: Seq<u8>) -> bool {
        self.key_map().contains_key(k) && match self.read_at(self.key_map()[k]) {
            Some(b) => decoded_user(b) is Some,
            None => false,
        }
    }

    /// Runs one compaction pass over this store's segments and index.
    /// Whatever the outcome, every key whose record was readable before
    /// survives, bound to bytes that read back identically, and every
    /// surviving key was readable before: compaction never loses live data.
    /// On success the service returns to idle with the counters grown by
    /// exactly the entries examined and dropped; on failure it records the
    /// error state and the next run starts over.
    pub fn trigger_compaction(&mut self, service: &mut crate::compaction::Compaction) -> (r:
        Result<(), Error>)
        requires
            old(self).wf(),
        ensures
            final(self).wf(),
            r is Ok ==> final(service).state_spec().status == crate::compaction::Status::Idle,
            r is Err ==> final(service).state_spec().status matches crate::compaction::Status::Error(
                _,
            ),
            forall|k: Seq<u8>| old(self).live_key(k) ==> final(self).key_map().contains_key(k)
                && final(self).read_at(final(self).key_map()[k]) == old(self).read_at(
                old(self).key_map()[k],
            ),
            forall|k: Seq<u8>| #[trigger] final(self).key_map().contains_key(k) ==> old(
                self,
            ).live_key(k),
            forall|id: u64| old(self).record_of(id) is Some ==> final(self).record_of(id) == old(
                self,
            ).record_of(id),
            forall|id: u64| old(self).record_of(id) is None ==> final(self).record_of(id) is None,
            (forall|k: Seq<u8>|
                old(self).key_map().contains_key(k) ==> old(self).live_key(k)) ==> final(self).key_count() == old(self).key_count(),
            final(service).state_spec().removed == crate::compaction::sat_add(
                old(service).state_spec().removed,
                (old(self).key_count() - final(self).key_count()) as u64,
            ),
            r is Err ==> final(service).state_spec().processed == crate::compaction::sat_add(
                old(service).state_spec().processed,
                old(self).key_count() as u64,
            ),
            r is Ok ==> {
                let p1 = old(self).key_count() as int;
                let lc = final(self).key_count() as int;
                let escalated = p1 > 0 && (p1 - lc) * 100 >= p1 * old(
                    service,
                ).config_spec().threshold;
                final(service).state_spec().processed == (if escalated {
                    crate::compaction::sat_add(
                        crate::compaction::sat_add(
                            old(service).state_spec().processed,
                            p1 as u64,
                        ),
                        lc as u64,
                    )
                } else {
                    crate::compaction::sat_add(old(service).state_spec().processed, p1 as u64)
                })
            },
    {
        let r = service.trigger(&mut self.segment, &mut self.index);
        proof {
            assert forall|id: u64| old(self).record_of(id) is Some implies self.record_of(id)
                == old(self).record_of(id) by {
                let k = spec_key(id);
                assert(old(self).live_key(k));
            }
            assert forall|id: u64| old(self).record_of(id) is None implies self.record_of(
                id,
            ) is None by {
                let k = spec_key(id);
                if self.key_map().contains_key(k) {
                    assert(old(self).live_key(k));
                }
            }
            if forall|k: Seq<u8>| old(self).key_map().contains_key(k) ==> old(self).live_key(k) {
                assert forall|k: Seq<u8>| #[trigger] self.key_map().contains_key(k) <==> old(
                    self,
                ).key_map().contains_key(k) by {
                    if self.key_map().contains_key(k) {
                        assert(old(self).live_key(k));
                    }
                    if old(self).key_map().contains_key(k) {
                        assert(old(self).live_key(k));
                    }
                }
                assert(self.key_map().dom() =~= old(self).key_map().dom());
            }
        }
        r
    }

    /// Declines a schema migration: the operation is outside this store's
    /// scope and always fails with an `Unsupported` error, changing nothing.
    pub fn migrate(&self, target_schema: u32) -> (r: Result<(), Error>)
        ensures
            r matches Err(e) && e matches Error::Unsupported(_),
    {
        let _ = target_schema;
        Err(Error::Unsupported("schema migration is not supported".to_string()))
    }
}

/// A store whose index is untouched and whose segment kept every readable
/// record sees the same keys and the same records.
proof fn lemma_batch_err_state(pre: Store, cur: Store)
    requires
        cur.index == pre.index,
        forall|q: Position| pre.segment.read_model(q) is Some ==> #[trigger] cur.segment
            .read_model(q) == pre.segment.read_model(q),
    ensures
        cur.key_map() == pre.key_map(),
        forall|i: u64| cur.has_key(i) == pre.has_key(i),
        forall|i: u64| pre.record_of(i) is Some ==> cur.record_of(i) == pre.record_of(i),
{
    assert forall|i: u64| pre.record_of(i) is Some implies cur.record_of(i) == pre.record_of(
        i,
    ) by {
        let q = pre.key_map()[spec_key(i)];
        assert(pre.segment.read_model(q) is Some);
        assert(cur.segment.read_model(q) == pre.segment.read_model(q));
    }
}

/// A well-formed store maps finitely many keys.
pub proof fn lemma_key_map_finite(s: Store)
    requires
        s.wf(),
    ensures
        s.key_map().dom().finite(),
{
    lemma_dom_finite(s.index);
}

/// The backbone of restart durability: a well-formed store's log image
/// parses back to its exact entry log, and its visible key map is the replay
/// of that log — so a store reopened over the image sees exactly the keys
/// that were visible before, and in particular a deleted key stays deleted.
pub proof fn lemma_restart_round_trip(s: Store)
    requires
        s.wf(),
    ensures
        parse_log(enc_log(s.entries()), 0) == Some(s.entries()),
        s.key_map() == replay(s.entries()),
{
    lemma_log_round_trip(s.index);
    lemma_wf_replay(s.index);
}

} // verus!
