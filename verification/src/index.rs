//! The durable index: an append-only log of key-to-location entries and the
//! in-memory cache it projects to.
//!
//! The log is the source of truth.  Every mutation appends an entry — a put
//! or a deletion tombstone — and the cache is always exactly the replay of
//! the log from its start.  The byte image of the log is a sequence of
//! length-prefixed entries; a truncated trailing entry (a crash mid-write)
//! marks the end of the log rather than an error.

use vstd::prelude::*;
use vstd::bytes::*;
use vstd::slice::{slice_subrange, slice_to_vec};
use crate::codec::{bytes_eq, enc_u32, enc_u64, parse_u32, lemma_parse_u32_enc, lemma_subrange_chunk, read_u32, write_u32};
use crate::error::Error;
use crate::model::Position;

verus! {

/// One durable log entry: a key bound to a location, or — when `position`
/// is absent — a tombstone marking the key deleted.
#[derive(Debug, Clone)]
pub struct Entry {
    /// The key's bytes.
    pub key: Vec<u8>,
    /// The record's location, or nothing for a tombstone.
    pub position: Option<Position>,
}

/// The mathematical value of an [`Entry`], and of an [`Operation`].
pub ghost struct EntryView {
    pub key: Seq<u8>,
    pub position: Option<Position>,
}

impl View for Entry {
    type V = EntryView;

    open spec fn view(&self) -> EntryView {
        EntryView { key: self.key@, position: self.position }
    }
}

/// One operation of a batch: bind a key to a location, or delete a key.
#[derive(Debug, Clone)]
pub enum Operation {
    /// Bind `key` to `position`.
    Put {
        /// The key's bytes.
        key: Vec<u8>,
        /// The record's location.
        position: Position,
    },
    /// Delete `key`.
    Delete {
        /// The key's bytes.
        key: Vec<u8>,
    },
}

impl View for Operation {
    type V = EntryView;

    open spec fn view(&self) -> EntryView {
        match self {
            Operation::Put { key, position } => EntryView {
                key: key@,
                position: Some(*position),
            },
            Operation::Delete { key } => EntryView { key: key@, position: None },
        }
    }
}

// ---------------------------------------------------------------------------
// The entry codec
// ---------------------------------------------------------------------------
// A put entry is (tag 1, key length:u32, key bytes, segment:u64, offset:u64,
// length:u64); a tombstone is (tag 2, key length:u32, key bytes).

/// A key fits the format when the whole entry's byte length fits the 4-byte
/// length prefix of the log.
pub open spec fn key_fits(k: Seq<u8>) -> bool {
    k.len() + 29 <= u32::MAX
}

/// The encoding of one entry.
pub open spec fn enc_entry(e: EntryView) -> Seq<u8> {
    match e.position {
        Some(p) => seq![1u8] + enc_u32(e.key.len() as u32) + e.key + enc_u64(p.segment) + enc_u64(
            p.offset,
        ) + enc_u64(p.length),
        None => seq![2u8] + enc_u32(e.key.len() as u32) + e.key,
    }
}

/// What a whole byte string holds as an entry.
pub open spec fn parse_entry(b: Seq<u8>) -> Option<EntryView> {
    if b.len() < 5 {
        None
    } else {
        let tag = b[0];
        let n = spec_u32_from_le_bytes(b.subrange(1, 5)) as int;
        if tag == 1 {
            if b.len() == 5 + n + 24 {
                Some(
                    EntryView {
                        key: b.subrange(5, 5 + n),
                        position: Some(
                            Position {
                                segment: spec_u64_from_le_bytes(b.subrange(5 + n, 5 + n + 8)),
                                offset: spec_u64_from_le_bytes(b.subrange(5 + n + 8, 5 + n + 16)),
                                length: spec_u64_from_le_bytes(b.subrange(5 + n + 16, 5 + n + 24)),
                            },
                        ),
                    },
                )
            } else {
                None
            }
        } else if tag == 2 {
            if b.len() == 5 + n && n + 29 <= u32::MAX {
                Some(EntryView { key: b.subrange(5, 5 + n), position: None })
            } else {
                None
            }
        } else {
            None
        }
    }
}

/// Parsing the encoding of an entry yields the entry back.
pub proof fn lemma_parse_entry_enc(e: EntryView)
    requires
        key_fits(e.key),
    ensures
        parse_entry(enc_entry(e)) == Some(e),
{
    lemma_auto_spec_u32_to_from_le_bytes();
    lemma_auto_spec_u64_to_from_le_bytes();
    let b = enc_entry(e);
    let n = e.key.len() as int;
    match e.position {
        Some(p) => {
            assert(b.len() == 5 + n + 24);
            assert(b.subrange(1, 5) =~= enc_u32(e.key.len() as u32));
            assert(b[0] == 1u8);
            assert(b.subrange(5, 5 + n) =~= e.key);
            assert(b.subrange(5 + n, 5 + n + 8) =~= enc_u64(p.segment));
            assert(b.subrange(5 + n + 8, 5 + n + 16) =~= enc_u64(p.offset));
            assert(b.subrange(5 + n + 16, 5 + n + 24) =~= enc_u64(p.length));
        },
        None => {
            assert(b.len() == 5 + n);
            assert(b.subrange(1, 5) =~= enc_u32(e.key.len() as u32));
            assert(b[0] == 2u8);
            assert(b.subrange(5, 5 + n) =~= e.key);
        },
    }
}

impl Entry {
    /// A put entry binding `key` to `position`.
    pub fn new(key: &[u8], position: Position) -> (r: Entry)
        ensures
            r@ == (EntryView { key: key@, position: Some(position) }),
    {
        Entry { key: slice_to_vec(key), position: Some(position) }
    }

    /// A tombstone entry marking `key` deleted.
    pub fn tombstone(key: &[u8]) -> (r: Entry)
        ensures
            r@ == (EntryView { key: key@, position: None }),
    {
        Entry { key: slice_to_vec(key), position: None }
    }

    /// Serializes the entry into its on-disk bytes.
    pub fn pack(&self) -> (r: Vec<u8>)
        requires
            key_fits(self.key@),
        ensures
            r@ == enc_entry(self@),
    {
        let mut out: Vec<u8> = Vec::new();
        match &self.position {
            Some(p) => {
                out.push(1u8);
                proof {
                    assert(out@ =~= seq![1u8]);
                }
                let mut lb = u32_to_le_bytes(self.key.len() as u32);
                out.append(&mut lb);
                let mut kv = slice_to_vec(self.key.as_slice());
                out.append(&mut kv);
                let mut b1 = u64_to_le_bytes(p.segment);
                out.append(&mut b1);
                let mut b2 = u64_to_le_bytes(p.offset);
                out.append(&mut b2);
                let mut b3 = u64_to_le_bytes(p.length);
                out.append(&mut b3);
                proof {
                    assert(out@ =~= enc_entry(self@));
                }
            },
            None => {
                out.push(2u8);
                proof {
                    assert(out@ =~= seq![2u8]);
                }
                let mut lb = u32_to_le_bytes(self.key.len() as u32);
                out.append(&mut lb);
                let mut kv = slice_to_vec(self.key.as_slice());
                out.append(&mut kv);
                proof {
                    assert(out@ =~= enc_entry(self@));
                }
            },
        }
        out
    }

    /// Deserializes an entry from exactly one entry's bytes.  Fails with a
    /// `Format` error exactly when the bytes are not one well-formed entry.
    pub fn unpack(data: &[u8]) -> (r: Result<Entry, Error>)
        ensures
            r matches Ok(e) ==> parse_entry(data@) == Some(e@),
            parse_entry(data@) is Some ==> r is Ok,
            r matches Err(e) ==> parse_entry(data@) is None && e matches Error::Format(_),
    {
        if data.len() < 5 {
            return Err(Error::Format("entry bytes too short".to_string()));
        }
        let tag = *vstd::slice::slice_index_get(data, 0);
        let n32 = u32_from_le_bytes(slice_subrange(data, 1, 5));
        let n = n32 as usize;
        if tag == 1 {
            if data.len() < 29 || data.len() - 29 != n {
                return Err(Error::Format("entry length disagrees with its key length".to_string()));
            }
            let key = slice_to_vec(slice_subrange(data, 5, 5 + n));
            let segment = u64_from_le_bytes(slice_subrange(data, 5 + n, 5 + n + 8));
            let offset = u64_from_le_bytes(slice_subrange(data, 5 + n + 8, 5 + n + 16));
            let length = u64_from_le_bytes(slice_subrange(data, 5 + n + 16, 5 + n + 24));
            Ok(Entry { key, position: Some(Position { segment, offset, length }) })
        } else if tag == 2 {
            if data.len() - 5 != n || n32 > u32::MAX - 29 {
                return Err(Error::Format("entry length disagrees with its key length".to_string()));
            }
            let key = slice_to_vec(slice_subrange(data, 5, 5 + n));
            Ok(Entry { key, position: None })
        } else {
            Err(Error::Format("unknown entry version tag".to_string()))
        }
    }
}

// ---------------------------------------------------------------------------
// The log image
// ---------------------------------------------------------------------------

/// The framed bytes of one entry in the log: its length, then the entry.
pub open spec fn enc_frame(e: EntryView) -> Seq<u8> {
    enc_u32(enc_entry(e).len() as u32) + enc_entry(e)
}

/// The byte image of a whole log.
pub open spec fn enc_log(s: Seq<EntryView>) -> Seq<u8>
    decreases s.len(),
{
    if s.len() == 0 {
        Seq::empty()
    } else {
        enc_frame(s.first()) + enc_log(s.drop_first())
    }
}

/// What a byte string holds as a log, reading frames from `pos` on.  A
/// truncated trailing frame ends the log; a malformed complete entry is an
/// error, reported as no log at all.
pub open spec fn parse_log(d: Seq<u8>, pos: int) -> Option<Seq<EntryView>>
    decreases d.len() - pos,
{
    if !(0 <= pos <= d.len()) {
        None
    } else {
        match parse_u32(d, pos) {
            None => Some(Seq::empty()),
            Some((n, p1)) => {
                if p1 + n > d.len() {
                    Some(Seq::empty())
                } else {
                    match parse_entry(d.subrange(p1, p1 + n)) {
                        None => None,
                        Some(e) => match parse_log(d, p1 + n) {
                            None => None,
                            Some(rest) => Some(seq![e] + rest),
                        },
                    }
                }
            },
        }
    }
}

/// Appending one entry to an encoded log extends the image at its end.
pub proof fn lemma_enc_log_push(s: Seq<EntryView>, e: EntryView)
    ensures
        enc_log(s.push(e)) == enc_log(s) + enc_frame(e),
    decreases s.len(),
{
    if s.len() == 0 {
        assert(s.push(e).drop_first() =~= Seq::<EntryView>::empty());
        assert(enc_log(s.push(e)) =~= enc_frame(e) + enc_log(Seq::<EntryView>::empty()));
        assert(enc_frame(e) + enc_log(Seq::<EntryView>::empty()) =~= enc_frame(e));
        assert(enc_log(s) + enc_frame(e) =~= enc_frame(e));
    } else {
        assert(s.push(e).drop_first() =~= s.drop_first().push(e));
        lemma_enc_log_push(s.drop_first(), e);
        assert(enc_log(s.push(e)) =~= enc_log(s) + enc_frame(e));
    }
}

// ---------------------------------------------------------------------------
// The cache: an association list with unique keys, read as a map
// ---------------------------------------------------------------------------

/// The map an association list stands for; a later pair wins over an
/// earlier one with the same key.
pub open spec fn cache_map(c: Seq<(Vec<u8>, Position)>) -> Map<Seq<u8>, Position>
    decreases c.len(),
{
    if c.len() == 0 {
        Map::empty()
    } else {
        cache_map(c.drop_last()).insert(c.last().0@, c.last().1)
    }
}

/// No two pairs of the list hold the same key.
pub open spec fn unique_keys(c: Seq<(Vec<u8>, Position)>) -> bool {
    forall|i: int, j: int| 0 <= i < j < c.len() ==> c[i].0@ != c[j].0@
}

/// A key is in the map exactly when some pair of the list holds it.
proof fn lemma_cache_map_key(c: Seq<(Vec<u8>, Position)>, k: Seq<u8>)
    ensures
        cache_map(c).contains_key(k) <==> exists|i: int| 0 <= i < c.len() && c[i].0@ == k,
    decreases c.len(),
{
    if c.len() > 0 {
        lemma_cache_map_key(c.drop_last(), k);
        if c.last().0@ == k {
            assert(c[c.len() - 1].0@ == k);
        } else if cache_map(c).contains_key(k) {
            let i = choose|i: int| 0 <= i < c.drop_last().len() && c.drop_last()[i].0@ == k;
            assert(c[i].0@ == k);
        } else {
            assert forall|i: int| 0 <= i < c.len() implies c[i].0@ != k by {
                if i < c.len() - 1 {
                    assert(c.drop_last()[i].0@ == c[i].0@);
                }
            }
        }
    }
}

/// With unique keys, each pair's key maps to that pair's position.
proof fn lemma_cache_map_get(c: Seq<(Vec<u8>, Position)>, i: int)
    requires
        unique_keys(c),
        0 <= i < c.len(),
    ensures
        cache_map(c).contains_key(c[i].0@),
        cache_map(c)[c[i].0@] == c[i].1,
    decreases c.len(),
{
    if i == c.len() - 1 {
    } else {
        assert(unique_keys(c.drop_last()));
        assert(c.drop_last()[i] == c[i]);
        lemma_cache_map_get(c.drop_last(), i);
        assert(c[i].0@ != c.last().0@);
    }
}

/// The map is finite and has exactly one key per pair.
proof fn lemma_cache_map_len(c: Seq<(Vec<u8>, Position)>)
    requires
        unique_keys(c),
    ensures
        cache_map(c).dom().finite(),
        cache_map(c).dom().len() == c.len(),
    decreases c.len(),
{
    if c.len() == 0 {
    } else {
        assert(unique_keys(c.drop_last()));
        lemma_cache_map_len(c.drop_last());
        lemma_cache_map_key(c.drop_last(), c.last().0@);
        assert forall|i: int| 0 <= i < c.drop_last().len() implies c.drop_last()[i].0@
            != c.last().0@ by {
            assert(c[i].0@ == c.drop_last()[i].0@);
        }
        assert(!cache_map(c.drop_last()).contains_key(c.last().0@));
        vstd::set::axiom_set_insert_finite(cache_map(c.drop_last()).dom(), c.last().0@);
        vstd::set::axiom_set_insert_len(cache_map(c.drop_last()).dom(), c.last().0@);
        assert(cache_map(c).dom() =~= cache_map(c.drop_last()).dom().insert(c.last().0@));
    }
}

/// Replacing the position of the pair at `i` updates that key in the map.
proof fn lemma_cache_map_update(c: Seq<(Vec<u8>, Position)>, i: int, k2: Vec<u8>, p: Position)
    requires
        unique_keys(c),
        0 <= i < c.len(),
        k2@ == c[i].0@,
    ensures
        cache_map(c.update(i, (k2, p))) == cache_map(c).insert(c[i].0@, p),
    decreases c.len(),
{
    let c2 = c.update(i, (k2, p));
    if i == c.len() - 1 {
        assert(c2.drop_last() =~= c.drop_last());
        assert(cache_map(c2) =~= cache_map(c).insert(c[i].0@, p));
    } else {
        assert(unique_keys(c.drop_last()));
        assert(c.drop_last()[i] == c[i]);
        lemma_cache_map_update(c.drop_last(), i, k2, p);
        assert(c2.drop_last() =~= c.drop_last().update(i, (k2, p)));
        assert(c2.last() == c.last());
        assert(c[i].0@ != c.last().0@);
        assert(cache_map(c2) =~= cache_map(c).insert(c[i].0@, p));
    }
}

/// Removing the pair at `i` removes that key from the map.
proof fn lemma_cache_map_remove(c: Seq<(Vec<u8>, Position)>, i: int)
    requires
        unique_keys(c),
        0 <= i < c.len(),
    ensures
        cache_map(c.remove(i)) == cache_map(c).remove(c[i].0@),
    decreases c.len(),
{
    let c2 = c.remove(i);
    if i == c.len() - 1 {
        assert(c2 =~= c.drop_last());
        lemma_cache_map_key(c.drop_last(), c.last().0@);
        assert forall|j: int| 0 <= j < c.drop_last().len() implies c.drop_last()[j].0@
            != c.last().0@ by {
            assert(c[j].0@ == c.drop_last()[j].0@);
        }
        assert(!cache_map(c.drop_last()).contains_key(c.last().0@));
        assert(cache_map(c2) =~= cache_map(c).remove(c[i].0@));
    } else {
        assert(unique_keys(c.drop_last()));
        assert(c.drop_last()[i] == c[i]);
        lemma_cache_map_remove(c.drop_last(), i);
        assert(c2.drop_last() =~= c.drop_last().remove(i));
        assert(c2.last() == c.last());
        assert(c[i].0@ != c.last().0@);
        assert(cache_map(c2) =~= cache_map(c).remove(c[i].0@));
    }
}

/// Binds `key` to `position` in the association list, replacing an existing
/// pair or appending a new one.
fn cache_put(cache: &mut Vec<(Vec<u8>, Position)>, key: &[u8], position: Position)
    requires
        unique_keys(old(cache)@),
    ensures
        unique_keys(final(cache)@),
        cache_map(final(cache)@) == cache_map(old(cache)@).insert(key@, position),
{
    let mut i: usize = 0;
    while i < cache.len()
        invariant
            unique_keys(cache@),
            cache@ == old(cache)@,
            0 <= i <= cache@.len(),
            forall|j: int| 0 <= j < i ==> cache@[j].0@ != key@,
        decreases cache@.len() - i,
    {
        if bytes_eq(cache[i].0.as_slice(), key) {
            let kv = slice_to_vec(key);
            proof {
                lemma_cache_map_update(cache@, i as int, kv, position);
            }
            cache.set(i, (kv, position));
            return ;
        }
        i = i + 1;
    }
    cache.push((slice_to_vec(key), position));
    proof {
        assert(cache@.drop_last() =~= old(cache)@);
    }
}

/// Removes `key` from the association list, if it is there.
fn cache_remove(cache: &mut Vec<(Vec<u8>, Position)>, key: &[u8])
    requires
        unique_keys(old(cache)@),
    ensures
        unique_keys(final(cache)@),
        cache_map(final(cache)@) == cache_map(old(cache)@).remove(key@),
{
    let mut i: usize = 0;
    while i < cache.len()
        invariant
            unique_keys(cache@),
            cache@ == old(cache)@,
            0 <= i <= cache@.len(),
            forall|j: int| 0 <= j < i ==> cache@[j].0@ != key@,
        decreases cache@.len() - i,
    {
        if bytes_eq(cache[i].0.as_slice(), key) {
            proof {
                lemma_cache_map_remove(cache@, i as int);
                assert(unique_keys(cache@.remove(i as int)));
            }
            cache.remove(i);
            return ;
        }
        i = i + 1;
    }
    proof {
        lemma_cache_map_key(cache@, key@);
        assert(!cache_map(cache@).contains_key(key@));
        assert(cache_map(cache@).remove(key@) =~= cache_map(cache@));
    }
}

// ---------------------------------------------------------------------------
// Replay
// ---------------------------------------------------------------------------

/// The views of a sequence of entries.
pub open spec fn log_view(s: Seq<Entry>) -> Seq<EntryView> {
    Seq::new(s.len(), |i: int| s[i]@)
}

/// The views of a sequence of operations.
pub open spec fn op_views(s: Seq<Operation>) -> Seq<EntryView> {
    Seq::new(s.len(), |i: int| s[i]@)
}

/// Applying a run of entries to a map, in order: a put binds its key, a
/// tombstone removes it.
pub open spec fn replay_from(m: Map<Seq<u8>, Position>, s: Seq<EntryView>) -> Map<Seq<u8>, Position>
    decreases s.len(),
{
    if s.len() == 0 {
        m
    } else {
        let prev = replay_from(m, s.drop_last());
        match s.last().position {
            Some(p) => prev.insert(s.last().key, p),
            None => prev.remove(s.last().key),
        }
    }
}

/// The map a whole log stands for, replayed from empty.
pub open spec fn replay(s: Seq<EntryView>) -> Map<Seq<u8>, Position> {
    replay_from(Map::empty(), s)
}

/// After replaying a run whose last entry for a key is the put at `j`, the
/// map binds that key to that put's position.
pub proof fn lemma_replay_from_last_put(
    m: Map<Seq<u8>, Position>,
    s: Seq<EntryView>,
    j: int,
    p: Position,
)
    requires
        0 <= j < s.len(),
        s[j].position == Some(p),
        forall|k: int| j < k < s.len() ==> s[k].key != s[j].key,
    ensures
        replay_from(m, s).contains_key(s[j].key),
        replay_from(m, s)[s[j].key] == p,
    decreases s.len(),
{
    if j == s.len() - 1 {
    } else {
        assert(s.drop_last()[j] == s[j]);
        assert forall|k: int| j < k < s.drop_last().len() implies s.drop_last()[k].key
            != s.drop_last()[j].key by {
            assert(s.drop_last()[k] == s[k]);
        }
        lemma_replay_from_last_put(m, s.drop_last(), j, p);
        assert(s.last().key != s[j].key);
    }
}

/// Replaying a run of puts alone binds exactly the run's keys on top of
/// the start map.
pub proof fn lemma_replay_from_put_dom(m: Map<Seq<u8>, Position>, s: Seq<EntryView>, k: Seq<u8>)
    requires
        forall|i: int| 0 <= i < s.len() ==> (#[trigger] s[i].position) is Some,
    ensures
        replay_from(m, s).contains_key(k) <==> (m.contains_key(k) || exists|i: int|
            0 <= i < s.len() && s[i].key == k),
    decreases s.len(),
{
    if s.len() > 0 {
        assert(s[s.len() - 1].position is Some);
        assert forall|i: int| 0 <= i < s.drop_last().len() implies (#[trigger] s.drop_last()[i]
            .position) is Some by {
            assert(s.drop_last()[i] == s[i]);
        }
        lemma_replay_from_put_dom(m, s.drop_last(), k);
        if s.last().key == k {
            assert(s[s.len() - 1].key == k);
        } else if exists|i: int| 0 <= i < s.drop_last().len() && s.drop_last()[i].key == k {
            let i = choose|i: int| 0 <= i < s.drop_last().len() && s.drop_last()[i].key == k;
            assert(s[i].key == k);
        } else if exists|i: int| 0 <= i < s.len() && s[i].key == k {
            let i = choose|i: int| 0 <= i < s.len() && s[i].key == k;
            assert(i < s.len() - 1);
            assert(s.drop_last()[i].key == k);
        }
    }
}

/// Replaying a run that never touches a key leaves that key as it was.
pub proof fn lemma_replay_from_absent(m: Map<Seq<u8>, Position>, s: Seq<EntryView>, k: Seq<u8>)
    requires
        forall|i: int| 0 <= i < s.len() ==> s[i].key != k,
    ensures
        replay_from(m, s).contains_key(k) == m.contains_key(k),
        m.contains_key(k) ==> replay_from(m, s)[k] == m[k],
    decreases s.len(),
{
    if s.len() > 0 {
        assert forall|i: int| 0 <= i < s.drop_last().len() implies s.drop_last()[i].key != k by {
            assert(s.drop_last()[i] == s[i]);
        }
        lemma_replay_from_absent(m, s.drop_last(), k);
        assert(s.last().key != k);
    }
}

// ---------------------------------------------------------------------------
// The index
// ---------------------------------------------------------------------------

/// The durable index: the entry log, and the cache it projects to.
pub struct Index {
    /// The append-only entry log; the model of the durable index file.
    log: Vec<Entry>,
    /// The in-memory projection: each live key with its current location.
    cache: Vec<(Vec<u8>, Position)>,
}

impl View for Index {
    type V = Map<Seq<u8>, Position>;

    /// The index reads as the map from live keys to current locations.
    closed spec fn view(&self) -> Map<Seq<u8>, Position> {
        cache_map(self.cache@)
    }
}

impl Index {
    /// The durable log, in append order.
    pub closed spec fn entries(self) -> Seq<EntryView> {
        log_view(self.log@)
    }

    /// The cache is exactly the replay of the log, its keys are unique, and
    /// every logged key fits the format.
    pub closed spec fn wf(self) -> bool {
        &&& unique_keys(self.cache@)
        &&& cache_map(self.cache@) == replay(self.entries())
        &&& forall|i: int| 0 <= i < self.entries().len() ==> key_fits(
            #[trigger] self.entries()[i].key,
        )
    }

    /// An empty index: nothing logged, nothing cached.
    pub fn new() -> (r: Index)
        ensures
            r.wf(),
            r@ == Map::<Seq<u8>, Position>::empty(),
            r.entries() == Seq::<EntryView>::empty(),
    {
        let r = Index { log: Vec::new(), cache: Vec::new() };
        proof {
            assert(r.entries() =~= Seq::<EntryView>::empty());
        }
        r
    }

    /// Appends a put entry to the log, then binds the key in the cache.
    /// Fails, changing nothing, exactly when the key is too long for the
    /// format.
    pub fn put(&mut self, key: &[u8], position: Position) -> (r: Result<(), Error>)
        requires
            old(self).wf(),
        ensures
            final(self).wf(),
            r is Ok <==> key_fits(key@),
            r is Ok ==> final(self)@ == old(self)@.insert(key@, position),
            r is Ok ==> final(self).entries() == old(self).entries().push(
                EntryView { key: key@, position: Some(position) },
            ),
            r is Err ==> *final(self) == *old(self),
            r matches Err(e) ==> e matches Error::Serialize(_),
    {
        if key.len() > (u32::MAX - 29) as usize {
            return Err(Error::Serialize("key too long for the entry format".to_string()));
        }
        self.log.push(Entry::new(key, position));
        cache_put(&mut self.cache, key, position);
        proof {
            assert(self.entries() =~= old(self).entries().push(
                EntryView { key: key@, position: Some(position) },
            ));
            assert(self.entries().drop_last() =~= old(self).entries());
        }
        Ok(())
    }

    /// Looks the key up in the cache alone; the log is never re-read.
    pub fn get(&self, key: &[u8]) -> (r: Result<Option<Position>, Error>)
        requires
            self.wf(),
        ensures
            r matches Ok(o) && o == (if self@.contains_key(key@) {
                Some(self@[key@])
            } else {
                None::<Position>
            }),
    {
        let mut i: usize = 0;
        while i < self.cache.len()
            invariant
                self.wf(),
                0 <= i <= self.cache@.len(),
                forall|j: int| 0 <= j < i ==> self.cache@[j].0@ != key@,
            decreases self.cache@.len() - i,
        {
            if bytes_eq(self.cache[i].0.as_slice(), key) {
                proof {
                    lemma_cache_map_get(self.cache@, i as int);
                }
                return Ok(Some(self.cache[i].1));
            }
            i = i + 1;
        }
        proof {
            lemma_cache_map_key(self.cache@, key@);
        }
        Ok(None)
    }

    /// Appends a tombstone to the log, then removes the key from the cache:
    /// the deletion survives a restart because the tombstone is durable.
    /// Fails, changing nothing, exactly when the key is too long for the
    /// format.
    pub fn delete(&mut self, key: &[u8]) -> (r: Result<(), Error>)
        requires
            old(self).wf(),
        ensures
            final(self).wf(),
            r is Ok <==> key_fits(key@),
            r is Ok ==> final(self)@ == old(self)@.remove(key@),
            r is Ok ==> final(self).entries() == old(self).entries().push(
                EntryView { key: key@, position: None },
            ),
            r is Err ==> *final(self) == *old(self),
            r matches Err(e) ==> e matches Error::Serialize(_),
    {
        if key.len() > (u32::MAX - 29) as usize {
            return Err(Error::Serialize("key too long for the entry format".to_string()));
        }
        self.log.push(Entry::tombstone(key));
        cache_remove(&mut self.cache, key);
        proof {
            assert(self.entries() =~= old(self).entries().push(
                EntryView { key: key@, position: None },
            ));
            assert(self.entries().drop_last() =~= old(self).entries());
        }
        Ok(())
    }

    /// Applies the operations in order, appending each to the log before the
    /// cache reflects it; replay therefore yields the identical final state.
    /// Fails, changing nothing, exactly when some key is too long for the
    /// format.
    pub fn batch(&mut self, operations: Vec<Operation>) -> (r: Result<(), Error>)
        requires
            old(self).wf(),
        ensures
            final(self).wf(),
            r is Ok <==> (forall|i: int| 0 <= i < operations@.len() ==> key_fits(
                #[trigger] op_views(operations@)[i].key,
            )),
            r is Ok ==> final(self)@ == replay_from(old(self)@, op_views(operations@)),
            r is Ok ==> final(self).entries() == old(self).entries() + op_views(operations@),
            r is Err ==> *final(self) == *old(self),
            r matches Err(e) ==> e matches Error::Serialize(_),
    {
        let mut i: usize = 0;
        while i < operations.len()
            invariant
                *self == *old(self),
                old(self).wf(),
                0 <= i <= operations@.len(),
                forall|j: int| 0 <= j < i ==> key_fits(#[trigger] op_views(operations@)[j].key),
            decreases operations@.len() - i,
        {
            let fits: bool = match &operations[i] {
                Operation::Put { key, .. } => key.len() <= (u32::MAX - 29) as usize,
                Operation::Delete { key } => key.len() <= (u32::MAX - 29) as usize,
            };
            if !fits {
                proof {
                    assert(!key_fits(op_views(operations@)[i as int].key));
                }
                return Err(Error::Serialize("key too long for the entry format".to_string()));
            }
            proof {
                assert(key_fits(op_views(operations@)[i as int].key));
            }
            i = i + 1;
        }
        let mut i: usize = 0;
        while i < operations.len()
            invariant
                operations@.len() <= usize::MAX,
                0 <= i <= operations@.len(),
                forall|j: int| 0 <= j < operations@.len() ==> key_fits(
                    #[trigger] op_views(operations@)[j].key,
                ),
                self.wf(),
                self@ == replay_from(old(self)@, op_views(operations@).take(i as int)),
                self.entries() == old(self).entries() + op_views(operations@).take(i as int),
            decreases operations@.len() - i,
        {
            let ghost pre = self@;
            let ghost pre_entries = self.entries();
            proof {
                assert(op_views(operations@).take(i + 1).drop_last() =~= op_views(
                    operations@,
                ).take(i as int));
                assert(op_views(operations@).take(i + 1).last() == op_views(operations@)[i as int]);
            }
            match &operations[i] {
                Operation::Put { key, position } => {
                    let pos = *position;
                    self.log.push(Entry::new(key.as_slice(), pos));
                    cache_put(&mut self.cache, key.as_slice(), pos);
                },
                Operation::Delete { key } => {
                    self.log.push(Entry::tombstone(key.as_slice()));
                    cache_remove(&mut self.cache, key.as_slice());
                },
            }
            proof {
                assert(self.entries() =~= pre_entries.push(op_views(operations@)[i as int]));
                assert(self.entries().drop_last() =~= pre_entries);
                assert(self.entries() =~= old(self).entries() + op_views(operations@).take(i + 1));
            }
            i = i + 1;
        }
        proof {
            assert(op_views(operations@).take(operations@.len() as int) =~= op_views(operations@));
        }
        Ok(())
    }

    /// A snapshot of the cache: every live key with its current location,
    /// each exactly once.  A writer mutating the index afterwards does not
    /// disturb the snapshot.
    pub fn scan(&self) -> (r: Vec<(Vec<u8>, Position)>)
        requires
            self.wf(),
        ensures
            r@.len() == self@.dom().len(),
            forall|i: int, j: int| 0 <= i < j < r@.len() ==> r@[i].0@ != r@[j].0@,
            forall|i: int| 0 <= i < r@.len() ==> self@.contains_key(#[trigger] r@[i].0@)
                && self@[r@[i].0@] == r@[i].1,
            forall|k: Seq<u8>| self@.contains_key(k) ==> exists|i: int|
                0 <= i < r@.len() && r@[i].0@ == k,
    {
        let mut out: Vec<(Vec<u8>, Position)> = Vec::new();
        let mut i: usize = 0;
        while i < self.cache.len()
            invariant
                self.wf(),
                0 <= i <= self.cache@.len(),
                out@.len() == i,
                forall|j: int| 0 <= j < i ==> out@[j].0@ == self.cache@[j].0@ && out@[j].1
                    == self.cache@[j].1,
            decreases self.cache@.len() - i,
        {
            out.push((slice_to_vec(self.cache[i].0.as_slice()), self.cache[i].1));
            i = i + 1;
        }
        proof {
            lemma_cache_map_len(self.cache@);
            assert forall|i: int| 0 <= i < out@.len() implies self@.contains_key(
                #[trigger] out@[i].0@,
            ) && self@[out@[i].0@] == out@[i].1 by {
                lemma_cache_map_get(self.cache@, i);
            }
            assert forall|k: Seq<u8>| self@.contains_key(k) implies exists|i: int|
                0 <= i < out@.len() && out@[i].0@ == k by {
                lemma_cache_map_key(self.cache@, k);
                let i = choose|i: int| 0 <= i < self.cache@.len() && self.cache@[i].0@ == k;
                assert(out@[i].0@ == k);
            }
        }
        out
    }

    /// How many keys are live.
    pub fn len(&self) -> (r: usize)
        requires
            self.wf(),
        ensures
            r == self@.dom().len(),
    {
        proof {
            lemma_cache_map_len(self.cache@);
        }
        self.cache.len()
    }

    /// The byte image of the durable log, as it stands on disk.
    pub fn log_bytes(&self) -> (r: Vec<u8>)
        requires
            self.wf(),
        ensures
            r@ == enc_log(self.entries()),
    {
        let mut out: Vec<u8> = Vec::new();
        let mut i: usize = 0;
        while i < self.log.len()
            invariant
                self.wf(),
                0 <= i <= self.log@.len(),
                out@ == enc_log(self.entries().take(i as int)),
            decreases self.log@.len() - i,
        {
            proof {
                assert(self.entries()[i as int].key == self.log@[i as int]@.key);
                lemma_enc_log_push(self.entries().take(i as int), self.log@[i as int]@);
                assert(self.entries().take(i as int).push(self.log@[i as int]@) =~= self.entries()
                    .take(i + 1));
            }
            let packed = self.log[i].pack();
            crate::codec::write_u32(&mut out, packed.len() as u32);
            let mut pv = packed;
            out.append(&mut pv);
            proof {
                assert(out@ =~= enc_log(self.entries().take(i + 1)));
            }
            i = i + 1;
        }
        proof {
            assert(self.entries().take(self.entries().len() as int) =~= self.entries());
        }
        out
    }

    /// Rebuilds an index from the byte image of its log, replaying every
    /// entry in order; a truncated trailing entry ends the log, and a
    /// malformed complete entry is a `Format` error.
    pub fn load(data: &[u8]) -> (r: Result<Index, Error>)
        ensures
            r matches Ok(ix) ==> ix.wf() && parse_log(data@, 0) == Some(ix.entries()) && ix@
                == replay(ix.entries()),
            parse_log(data@, 0) is Some ==> r is Ok,
            r matches Err(e) ==> parse_log(data@, 0) is None && e matches Error::Format(_),
    {
        let mut ix = Index::new();
        let mut pos: usize = 0;
        loop
            invariant
                ix.wf(),
                0 <= pos <= data@.len(),
                ix@ == replay(ix.entries()),
                forall|rest: Seq<EntryView>|
                    parse_log(data@, pos as int) == Some::<Seq<EntryView>>(rest) ==> parse_log(
                        data@,
                        0,
                    ) == Some::<Seq<EntryView>>(ix.entries() + rest),
                parse_log(data@, pos as int) is None ==> parse_log(data@, 0) is None,
            decreases data@.len() - pos,
        {
            let ghost pre_entries = ix.entries();
            let ghost old_pos = pos as int;
            match crate::codec::read_u32(data, pos) {
                None => {
                    proof {
                        assert(parse_log(data@, old_pos) == Some(Seq::<EntryView>::empty()));
                        assert(ix.entries() + Seq::<EntryView>::empty() =~= ix.entries());
                    }
                    return Ok(ix);
                },
                Some((n, p1)) => {
                    let nu = n as usize;
                    if data.len() - p1 < nu {
                        proof {
                            assert(parse_log(data@, old_pos) == Some(Seq::<EntryView>::empty()));
                            assert(ix.entries() + Seq::<EntryView>::empty() =~= ix.entries());
                        }
                        return Ok(ix);
                    }
                    let sub = slice_subrange(data, p1, p1 + nu);
                    match Entry::unpack(sub) {
                        Err(e) => {
                            return Err(e);
                        },
                        Ok(entry) => {
                            proof {
                                assert(parse_entry(data@.subrange(p1 as int, p1 + nu)) == Some(
                                    entry@,
                                ));
                            }
                            match &entry.position {
                                Some(p) => {
                                    let pv = *p;
                                    cache_put(&mut ix.cache, entry.key.as_slice(), pv);
                                },
                                None => {
                                    cache_remove(&mut ix.cache, entry.key.as_slice());
                                },
                            }
                            ix.log.push(entry);
                            pos = p1 + nu;
                            proof {
                                assert(ix.entries() =~= pre_entries.push(
                                    ix.log@[ix.log@.len() - 1]@,
                                ));
                                assert(ix.entries().drop_last() =~= pre_entries);
                                assert forall|rest: Seq<EntryView>|
                                    parse_log(data@, pos as int) == Some::<Seq<EntryView>>(
                                        rest,
                                    ) implies parse_log(data@, 0) == Some::<Seq<EntryView>>(
                                    ix.entries() + rest,
                                ) by {
                                    assert(parse_log(data@, old_pos) == Some::<Seq<EntryView>>(
                                        seq![ix.entries().last()] + rest,
                                    ));
                                    assert(pre_entries + (seq![ix.entries().last()] + rest)
                                        =~= ix.entries() + rest);
                                }
                            }
                        },
                    }
                },
            }
        }
    }
}

/// A well-formed index's visible map is exactly the replay of its log.
pub proof fn lemma_wf_replay(ix: Index)
    requires
        ix.wf(),
    ensures
        ix@ == replay(ix.entries()),
{
}

/// A well-formed index maps finitely many keys.
pub proof fn lemma_dom_finite(ix: Index)
    requires
        ix.wf(),
    ensures
        ix@.dom().finite(),
{
    lemma_cache_map_len(ix.cache@);
}

/// Every key a replayed run can map was bound by the run or the start map.
proof fn lemma_replay_dom(m: Map<Seq<u8>, Position>, s: Seq<EntryView>, k: Seq<u8>)
    requires
        replay_from(m, s).contains_key(k),
    ensures
        m.contains_key(k) || exists|i: int| 0 <= i < s.len() && s[i].key == k,
    decreases s.len(),
{
    if s.len() > 0 {
        if s.last().key == k {
            assert(s[s.len() - 1].key == k);
        } else {
            lemma_replay_dom(m, s.drop_last(), k);
            if !m.contains_key(k) {
                let i = choose|i: int|
                    0 <= i < s.drop_last().len() && s.drop_last()[i].key == k;
                assert(s[i].key == k);
            }
        }
    }
}

/// Every key a well-formed index maps fits the entry format.
pub proof fn lemma_wf_keys_fit(ix: Index)
    requires
        ix.wf(),
    ensures
        forall|k: Seq<u8>| ix@.contains_key(k) ==> key_fits(k),
{
    assert forall|k: Seq<u8>| ix@.contains_key(k) implies key_fits(k) by {
        lemma_replay_dom(Map::empty(), ix.entries(), k);
        let i = choose|i: int| 0 <= i < ix.entries().len() && ix.entries()[i].key == k;
        assert(key_fits(ix.entries()[i].key));
    }
}

/// The round trip of durability: the byte image of a well-formed index's
/// log parses back to exactly that log, so a restart that replays the image
/// rebuilds exactly the state that was visible before.
pub proof fn lemma_log_round_trip(ix: Index)
    requires
        ix.wf(),
    ensures
        parse_log(enc_log(ix.entries()), 0) == Some(ix.entries()),
{
    let d = enc_log(ix.entries());
    assert(d.subrange(0, d.len() as int) =~= d);
    lemma_parse_log_enc(d, 0, ix.entries());
}

/// Parsing the whole image of a log yields the log back: replay after a
/// restart reconstructs exactly what was appended.
pub proof fn lemma_parse_log_enc(d: Seq<u8>, pos: int, s: Seq<EntryView>)
    requires
        0 <= pos,
        forall|i: int| 0 <= i < s.len() ==> key_fits(#[trigger] s[i].key),
        pos + enc_log(s).len() == d.len(),
        d.subrange(pos, d.len() as int) == enc_log(s),
    ensures
        parse_log(d, pos) == Some(s),
    decreases s.len(),
{
    lemma_auto_spec_u32_to_from_le_bytes();
    if s.len() == 0 {
        assert(pos == d.len());
        assert(parse_u32(d, pos) is None);
        assert(s =~= Seq::<EntryView>::empty());
    } else {
        let e = s.first();
        let whole = enc_log(s);
        let eb = enc_entry(e);
        let n = eb.len() as int;
        let fr = enc_frame(e);
        assert(whole == fr + enc_log(s.drop_first()));
        assert(whole.subrange(0, 4) =~= enc_u32(eb.len() as u32));
        lemma_subrange_chunk(d, pos, whole, 0, enc_u32(eb.len() as u32));
        lemma_parse_u32_enc(d, pos, eb.len() as u32);
        assert(whole.subrange(4, 4 + n) =~= eb);
        lemma_subrange_chunk(d, pos, whole, 4, eb);
        assert(d.subrange(pos + 4, pos + 4 + n) == eb);
        lemma_parse_entry_enc(e);
        let rest = enc_log(s.drop_first());
        assert(whole.subrange(4 + n, whole.len() as int) =~= rest);
        lemma_subrange_chunk(d, pos, whole, 4 + n, rest);
        assert(d.subrange(pos + 4 + n, d.len() as int) =~= rest);
        lemma_parse_log_enc(d, pos + 4 + n, s.drop_first());
        assert(seq![e] + s.drop_first() =~= s);
    }
}

} // verus!
