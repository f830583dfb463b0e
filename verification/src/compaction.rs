//! The compaction service: liveness verification and space reclamation.
//!
//! A minor pass walks a snapshot of the index and drops every entry whose
//! record can no longer be read back; a major pass, taken when the share of
//! dropped entries reaches the configured threshold, rewrites the surviving
//! records into a fresh segment manager and index and substitutes them for
//! the originals in one step.  Compaction never removes a key whose record
//! is readable and well-formed.

use vstd::prelude::*;
use crate::codec::decoded_user;
use crate::error::Error;
use crate::index::{key_fits, lemma_wf_keys_fit, Index};
use crate::model::Position;
use crate::segment::Segment;

verus! {

/// Compaction configuration.
#[derive(Debug, Clone, PartialEq, Eq, Structural)]
pub struct Config {
    /// The size, in bytes, past which a segment is rotated out.
    pub max_segment_size: u64,
    /// The share of dead entries, in whole percent, at which a minor pass
    /// escalates to a major pass.
    pub threshold: u64,
    /// How long the background loop sleeps between passes, in seconds.
    pub interval_secs: u64,
    /// Whether the background loop throttles under load.
    pub throttle: bool,
}

impl Default for Config {
    /// Rotation at the default segment size, escalation at 30 percent of
    /// entries dead, one pass an hour.
    fn default() -> (r: Self)
        ensures
            r == (Config {
                max_segment_size: crate::segment::MAX_SEGMENT_SIZE,
                threshold: 30u64,
                interval_secs: 3600u64,
                throttle: true,
            }),
    {
        Self {
            max_segment_size: crate::segment::MAX_SEGMENT_SIZE,
            threshold: 30,
            interval_secs: 3600,
            throttle: true,
        }
    }
}

/// The compaction service's status.
#[derive(Debug, Clone, PartialEq, Eq)]
pub enum Status {
    /// Nothing in flight.
    Idle,
    /// A minor pass is in flight.
    Minor,
    /// A major pass is in flight.
    Major,
    /// The last run failed; the next run starts over.
    Error(String),
}

/// The compaction service's state snapshot.
#[derive(Debug, Clone)]
pub struct State {
    /// The current status.
    pub status: Status,
    /// When the last run finished, in seconds since the epoch.
    pub last_compaction: u64,
    /// How many entries all runs have examined.
    pub processed: u64,
    /// How many entries all runs have removed.
    pub removed: u64,
}

/// Addition that stops at the largest counter value instead of wrapping.
pub open spec fn sat_add(a: u64, b: u64) -> u64 {
    if a + b > u64::MAX {
        u64::MAX
    } else {
        (a + b) as u64
    }
}

fn sat_add_exec(a: u64, b: u64) -> (r: u64)
    ensures
        r == sat_add(a, b),
{
    if a > u64::MAX - b {
        u64::MAX
    } else {
        a + b
    }
}

/// Whether the record a position names can be read back whole and decoded.
pub open spec fn live_record(seg: Segment, p: Position) -> bool {
    match seg.read_model(p) {
        Some(b) => decoded_user(b) is Some,
        None => false,
    }
}

/// The compaction service: its configuration and its state.
pub struct Compaction {
    config: Config,
    state: State,
}

impl Compaction {
    /// The service's configuration.
    pub closed spec fn config_spec(self) -> Config {
        self.config
    }

    /// The service's state.
    pub closed spec fn state_spec(self) -> State {
        self.state
    }

    /// A fresh service: idle, with zeroed counters.
    pub fn new(config: Config) -> (r: Compaction)
        ensures
            r.config_spec() == config,
            r.state_spec().status == Status::Idle,
            r.state_spec().last_compaction == 0,
            r.state_spec().processed == 0,
            r.state_spec().removed == 0,
    {
        Compaction {
            config,
            state: State { status: Status::Idle, last_compaction: 0, processed: 0, removed: 0 },
        }
    }

    /// A snapshot of the service's state.
    pub fn state(&self) -> (r: State)
        ensures
            r == self.state_spec(),
    {
        let status = match &self.state.status {
            Status::Idle => Status::Idle,
            Status::Minor => Status::Minor,
            Status::Major => Status::Major,
            Status::Error(s) => Status::Error(s.clone()),
        };
        State {
            status,
            last_compaction: self.state.last_compaction,
            processed: self.state.processed,
            removed: self.state.removed,
        }
    }

    /// The minor pass: walks a snapshot of the index and removes, with a
    /// durable tombstone, every entry whose record cannot be read back as
    /// one whole well-formed record.  Returns how many entries it examined
    /// and how many it removed; every key with a readable record survives,
    /// bound to the same location.
    pub fn minor_compact(segment: &Segment, index: &mut Index) -> (r: (u64, u64))
        requires
            segment.wf(),
            old(index).wf(),
        ensures
            final(index).wf(),
            r.0 == old(index)@.dom().len(),
            r.0 == r.1 + final(index)@.dom().len(),
            forall|k: Seq<u8>|
                old(index)@.contains_key(k) && live_record(*segment, old(index)@[k])
                    ==> final(index)@.contains_key(k) && final(index)@[k] == old(index)@[k],
            forall|k: Seq<u8>| #[trigger] final(index)@.contains_key(k) ==> old(index)@.contains_key(k) && final(index)@[k] == old(index)@[k] && live_record(
                *segment,
                old(index)@[k],
            ),
    {
        let snap = index.scan();
        proof {
            lemma_wf_keys_fit(*index);
            crate::index::lemma_dom_finite(*index);
        }
        let processed = snap.len() as u64;
        let mut removed: u64 = 0;
        let mut i: usize = 0;
        while i < snap.len()
            invariant
                segment.wf(),
                index.wf(),
                0 <= i <= snap@.len(),
                removed <= i,
                snap@.len() == old(index)@.dom().len(),
                forall|a: int, b: int| 0 <= a < b < snap@.len() ==> snap@[a].0@ != snap@[b].0@,
                forall|a: int| 0 <= a < snap@.len() ==> old(index)@.contains_key(
                    #[trigger] snap@[a].0@,
                ) && old(index)@[snap@[a].0@] == snap@[a].1,
                forall|k: Seq<u8>| old(index)@.contains_key(k) ==> exists|a: int|
                    0 <= a < snap@.len() && snap@[a].0@ == k,
                forall|k: Seq<u8>| old(index)@.contains_key(k) ==> key_fits(k),
                index@.dom().len() + removed == old(index)@.dom().len(),
                forall|k: Seq<u8>| #[trigger] index@.contains_key(k) ==> old(index)@.contains_key(k) && index@[k] == old(index)@[k],
                forall|k: Seq<u8>|
                    old(index)@.contains_key(k) && (live_record(*segment, old(index)@[k]) || !(
                    exists|j: int| 0 <= j < i && snap@[j].0@ == k)) ==> #[trigger] index@
                    .contains_key(k),
                forall|j: int|
                    0 <= j < i && !live_record(*segment, old(index)@[#[trigger] snap@[j].0@])
                        ==> !index@.contains_key(snap@[j].0@),
            decreases snap@.len() - i,
        {
            let key = &snap[i].0;
            let position = snap[i].1;
            let dead: bool = match segment.read(position) {
                Err(_) => true,
                Ok(bytes) => match crate::codec::decode_user(bytes.as_slice()) {
                    Ok(_) => false,
                    Err(_) => true,
                },
            };
            if dead {
                let ghost pre_val = *index;
                let ghost pre = index@;
                match index.delete(key.as_slice()) {
                    Ok(()) => {},
                    Err(e) => {
                        proof {
                            // Unreachable: every scanned key fits the format.
                            assert(false);
                        }
                    },
                }
                removed = removed + 1;
                proof {
                    assert(pre.contains_key(snap@[i as int].0@));
                    crate::index::lemma_dom_finite(pre_val);
                    vstd::set::axiom_set_remove_len(pre.dom(), snap@[i as int].0@);
                    assert(index@.dom() =~= pre.dom().remove(snap@[i as int].0@));
                    assert forall|k: Seq<u8>|
                        old(index)@.contains_key(k) && (live_record(*segment, old(index)@[k]) || !(
                        exists|j: int| 0 <= j < i + 1 && snap@[j].0@ == k)) implies #[trigger] index@
                        .contains_key(k) by {
                        if k != snap@[i as int].0@ {
                            if live_record(*segment, old(index)@[k]) {
                                assert(pre.contains_key(k));
                            } else {
                                assert(!(exists|j: int| 0 <= j < i && snap@[j].0@ == k));
                                assert(pre.contains_key(k));
                            }
                        }
                    }
                }
            } else {
                proof {
                    assert(live_record(*segment, old(index)@[snap@[i as int].0@]));
                    assert forall|j: int|
                        0 <= j < i + 1 && !live_record(
                            *segment,
                            old(index)@[#[trigger] snap@[j].0@],
                        ) implies !index@.contains_key(snap@[j].0@) by {}
                }
            }
            i = i + 1;
        }
        proof {
            assert forall|k: Seq<u8>|
                old(index)@.contains_key(k) && live_record(*segment, old(index)@[k]) implies index@
                .contains_key(k) && index@[k] == old(index)@[k] by {}
            assert forall|k: Seq<u8>| #[trigger] index@.contains_key(k) implies old(index)@.contains_key(k) && index@[k] == old(index)@[k] && live_record(
                *segment,
                old(index)@[k],
            ) by {
                let a = choose|a: int| 0 <= a < snap@.len() && snap@[a].0@ == k;
                if !live_record(*segment, old(index)@[k]) {
                    assert(!index@.contains_key(snap@[a].0@));
                }
            }
        }
        (processed, removed)
    }

    /// The major pass: copies every entry whose record is still readable —
    /// byte for byte — into a fresh segment manager and index, then
    /// substitutes them for the originals in one step.  On any failure the
    /// originals are left untouched.
    #[verifier::rlimit(60)]
    pub fn major_compact(segment: &mut Segment, index: &mut Index) -> (r: Result<(u64, u64), Error>)
        requires
            old(segment).wf(),
            old(index).wf(),
        ensures
            final(segment).wf(),
            final(index).wf(),
            r is Err ==> *final(segment) == *old(segment) && *final(index) == *old(index),
            r matches Err(e) ==> (e matches Error::Serialize(_) || e == Error::Time || e matches
                Error::Storage(_)),
            r matches Ok(counts) ==> {
                &&& counts.0 == old(index)@.dom().len()
                &&& counts.0 == counts.1 + final(index)@.dom().len()
                &&& forall|k: Seq<u8>|
                    old(index)@.contains_key(k) && live_record(*old(segment), old(index)@[k])
                        ==> final(index)@.contains_key(k)
                &&& forall|k: Seq<u8>| #[trigger] final(index)@.contains_key(k) ==> old(index)@.contains_key(k) && live_record(*old(segment), old(index)@[k]) && final(segment).read_model(final(index)@[k]) == old(segment).read_model(old(index)@[k])
            },
    {
        let max = segment.max_size();
        let mut new_seg = match Segment::with_max_size(max) {
            Ok(s) => s,
            Err(e) => {
                return Err(e);
            },
        };
        let mut new_ix = Index::new();
        let snap = index.scan();
        proof {
            lemma_wf_keys_fit(*index);
            crate::index::lemma_dom_finite(*index);
        }
        let processed = snap.len() as u64;
        let mut removed: u64 = 0;
        let mut i: usize = 0;
        while i < snap.len()
            invariant
                old(segment).wf(),
                old(index).wf(),
                *segment == *old(segment),
                *index == *old(index),
                new_seg.wf(),
                new_ix.wf(),
                0 <= i <= snap@.len(),
                removed <= i,
                snap@.len() == old(index)@.dom().len(),
                forall|a: int, b: int| 0 <= a < b < snap@.len() ==> snap@[a].0@ != snap@[b].0@,
                forall|a: int| 0 <= a < snap@.len() ==> old(index)@.contains_key(
                    #[trigger] snap@[a].0@,
                ) && old(index)@[snap@[a].0@] == snap@[a].1,
                forall|k: Seq<u8>| old(index)@.contains_key(k) ==> exists|a: int|
                    0 <= a < snap@.len() && snap@[a].0@ == k,
                forall|k: Seq<u8>| old(index)@.contains_key(k) ==> key_fits(k),
                new_ix@.dom().len() + removed == i,
                forall|k: Seq<u8>| #[trigger] new_ix@.contains_key(k) ==> (exists|j: int|
                    0 <= j < i && snap@[j].0@ == k),
                forall|k: Seq<u8>| #[trigger] new_ix@.contains_key(k) ==> old(index)@.contains_key(k) && live_record(*old(segment), old(index)@[k]) && new_seg
                    .read_model(new_ix@[k]) == old(segment).read_model(old(index)@[k]),
                forall|j: int|
                    0 <= j < i && live_record(*old(segment), old(index)@[#[trigger] snap@[j].0@])
                        ==> new_ix@.contains_key(snap@[j].0@),
            decreases snap@.len() - i,
        {
            let key = &snap[i].0;
            let position = snap[i].1;
            let ghost pre_seg = new_seg;
            let ghost pre_ix_val = new_ix;
            let ghost pre_ix = new_ix@;
            match segment.read(position) {
                Err(_) => {
                    removed = removed + 1;
                },
                Ok(bytes) => {
                    match crate::codec::decode_user(bytes.as_slice()) {
                        Err(_) => {
                            removed = removed + 1;
                        },
                        Ok(_) => {
                            let new_position = match new_seg.append(bytes.as_slice()) {
                                Ok(p) => p,
                                Err(e) => {
                                    return Err(e);
                                },
                            };
                            match new_ix.put(key.as_slice(), new_position) {
                                Ok(()) => {},
                                Err(e) => {
                                    proof {
                                        // Unreachable: every scanned key fits
                                        // the format.
                                        assert(false);
                                    }
                                    return Err(e);
                                },
                            }
                            proof {
                                let k = snap@[i as int].0@;
                                assert(!pre_ix.contains_key(k));
                                crate::index::lemma_dom_finite(pre_ix_val);
                                vstd::set::axiom_set_insert_len(pre_ix.dom(), k);
                                assert(new_ix@.dom() =~= pre_ix.dom().insert(k));
                                assert(new_seg.read_model(new_position) == Some(bytes@));
                                assert forall|k2: Seq<u8>| #[trigger] new_ix@.contains_key(
                                    k2,
                                ) implies old(index)@.contains_key(k2) && live_record(
                                    *old(segment),
                                    old(index)@[k2],
                                ) && new_seg.read_model(new_ix@[k2]) == old(segment).read_model(
                                    old(index)@[k2],
                                ) by {
                                    if k2 != k {
                                        assert(pre_ix.contains_key(k2));
                                        assert(pre_seg.read_model(pre_ix[k2]) == old(segment).read_model(old(index)@[k2]));
                                        assert(pre_seg.read_model(pre_ix[k2]) is Some);
                                        assert(new_seg.read_model(pre_ix[k2]) == pre_seg
                                            .read_model(pre_ix[k2]));
                                    }
                                }
                            }
                        },
                    }
                },
            }
            i = i + 1;
        }
        *segment = new_seg;
        *index = new_ix;
        proof {
            assert forall|k: Seq<u8>|
                old(index)@.contains_key(k) && live_record(*old(segment), old(index)@[k]) implies
                index@.contains_key(k) by {
                let a = choose|a: int| 0 <= a < snap@.len() && snap@[a].0@ == k;
                assert(new_ix@.contains_key(snap@[a].0@));
            }
        }
        Ok((processed, removed))
    }

    /// A state reached by the minor pass alone — the segment untouched and
    /// the index as the pass left it — already satisfies the run's
    /// conservation clauses.
    proof fn lemma_minor_outcome(
        seg0: Segment,
        ix0: Index,
        mid_seg: Segment,
        mid_ix: Index,
        cur: Index,
    )
        requires
            mid_seg == seg0,
            cur == mid_ix,
            forall|k: Seq<u8>|
                ix0@.contains_key(k) && live_record(seg0, ix0@[k]) ==> mid_ix@.contains_key(k)
                    && mid_ix@[k] == ix0@[k],
            forall|k: Seq<u8>| #[trigger] mid_ix@.contains_key(k) ==> ix0@.contains_key(k)
                && mid_ix@[k] == ix0@[k] && live_record(seg0, ix0@[k]),
        ensures
            forall|k: Seq<u8>|
                ix0@.contains_key(k) && live_record(seg0, ix0@[k]) ==> cur@.contains_key(k)
                    && mid_seg.read_model(cur@[k]) == seg0.read_model(ix0@[k]),
            forall|k: Seq<u8>| #[trigger] cur@.contains_key(k) ==> ix0@.contains_key(k)
                && live_record(seg0, ix0@[k]),
    {
    }

    /// One full run: a minor pass, the threshold decision, and — when the
    /// share of removed entries reaches the threshold — a major pass.  On
    /// success the service returns to idle with the counters accumulated;
    /// on failure it records the error state, and the next run starts over.
    /// Every key whose record was readable before the run survives it,
    /// bound to bytes that read back identically.
    pub fn check_and_compact(&mut self, segment: &mut Segment, index: &mut Index) -> (r: Result<
        (),
        Error,
    >)
        requires
            old(segment).wf(),
            old(index).wf(),
        ensures
            final(segment).wf(),
            final(index).wf(),
            r is Ok ==> final(self).state_spec().status == Status::Idle,
            r is Err ==> final(self).state_spec().status matches Status::Error(_),
            final(self).config_spec() == old(self).config_spec(),
            // Conservation, of every outcome: a run never loses a key whose
            // record was readable, and never invents one.
            forall|k: Seq<u8>|
                old(index)@.contains_key(k) && live_record(*old(segment), old(index)@[k])
                    ==> final(index)@.contains_key(k) && final(segment).read_model(
                    final(index)@[k],
                ) == old(segment).read_model(old(index)@[k]),
            forall|k: Seq<u8>| #[trigger] final(index)@.contains_key(k) ==> old(
                index,
            )@.contains_key(k) && live_record(*old(segment), old(index)@[k]),
            // Counters: exactly the entries dropped, and — per pass run —
            // exactly the entries examined, accumulated saturating.
            final(self).state_spec().removed == sat_add(
                old(self).state_spec().removed,
                (old(index)@.dom().len() - final(index)@.dom().len()) as u64,
            ),
            r is Err ==> final(self).state_spec().processed == sat_add(
                old(self).state_spec().processed,
                old(index)@.dom().len() as u64,
            ),
            r is Ok ==> {
                let p1 = old(index)@.dom().len() as int;
                let lc = final(index)@.dom().len() as int;
                let escalated = p1 > 0 && (p1 - lc) * 100 >= p1 * old(self).config_spec().threshold;
                final(self).state_spec().processed == (if escalated {
                    sat_add(sat_add(old(self).state_spec().processed, p1 as u64), lc as u64)
                } else {
                    sat_add(old(self).state_spec().processed, p1 as u64)
                })
            },
    {
        self.state.status = Status::Minor;
        let (p1, r1) = Self::minor_compact(segment, index);
        let ghost mid_ix = *index;
        let ghost mid_seg = *segment;
        self.state.processed = sat_add_exec(self.state.processed, p1);
        self.state.removed = sat_add_exec(self.state.removed, r1);
        match crate::clock::clock_seconds() {
            Ok(t) => {
                self.state.last_compaction = t;
            },
            Err(e) => {
                self.state.status = Status::Error("clock failure during compaction".to_string());
                proof {
                    Self::lemma_minor_outcome(*old(segment), *old(index), mid_seg, mid_ix, *index);
                    assert((old(index)@.dom().len() - index@.dom().len()) as u64 == r1);
                }
                return Err(e);
            },
        }
        proof {
            let a = p1 as u128;
            let b = self.config.threshold as u128;
            assert(a * b <= u128::MAX) by (nonlinear_arith)
                requires
                    a <= 0xFFFFFFFFFFFFFFFFu128,
                    b <= 0xFFFFFFFFFFFFFFFFu128,
            ;
        }
        let escalate: bool = p1 > 0 && (r1 as u128) * 100 >= (p1 as u128) * (
        self.config.threshold as u128);
        if escalate {
            self.state.status = Status::Major;
            match Self::major_compact(segment, index) {
                Ok((p2, r2)) => {
                    proof {
                        // After a minor pass every surviving key is live, so
                        // the major pass keeps them all: it removes nothing.
                        assert forall|k: Seq<u8>| mid_ix@.contains_key(k) implies index@
                            .contains_key(k) by {
                            assert(live_record(mid_seg, mid_ix@[k]));
                        }
                        assert(index@.dom() =~= mid_ix@.dom());
                        assert(r2 == 0);
                        assert(p2 == mid_ix@.dom().len());
                    }
                    self.state.processed = sat_add_exec(self.state.processed, p2);
                    self.state.removed = sat_add_exec(self.state.removed, r2);
                    self.state.status = Status::Idle;
                    proof {
                        assert((old(index)@.dom().len() - index@.dom().len()) as u64 == r1);
                        assert forall|k: Seq<u8>|
                            old(index)@.contains_key(k) && live_record(
                                *old(segment),
                                old(index)@[k],
                            ) implies index@.contains_key(k) && segment.read_model(index@[k])
                            == old(segment).read_model(old(index)@[k]) by {
                            assert(mid_ix@.contains_key(k) && mid_ix@[k] == old(index)@[k]);
                            assert(live_record(mid_seg, mid_ix@[k]));
                        }
                        assert forall|k: Seq<u8>| #[trigger] index@.contains_key(k) implies old(index)@.contains_key(k) && live_record(*old(segment), old(index)@[k]) by {
                            assert(mid_ix@.contains_key(k));
                        }
                    }
                    Ok(())
                },
                Err(e) => {
                    self.state.status = Status::Error("major compaction failed; originals kept".to_string());
                    proof {
                        Self::lemma_minor_outcome(*old(segment), *old(index), mid_seg, mid_ix, *index);
                        assert((old(index)@.dom().len() - index@.dom().len()) as u64 == r1);
                    }
                    Err(e)
                },
            }
        } else {
            self.state.status = Status::Idle;
            proof {
                Self::lemma_minor_outcome(*old(segment), *old(index), mid_seg, mid_ix, *index);
                assert((old(index)@.dom().len() - index@.dom().len()) as u64 == r1);
            }
            Ok(())
        }
    }

    /// Runs the same check-and-compact routine on demand, sharing every
    /// invariant with the scheduled path.
    pub fn trigger(&mut self, segment: &mut Segment, index: &mut Index) -> (r: Result<(), Error>)
        requires
            old(segment).wf(),
            old(index).wf(),
        ensures
            final(segment).wf(),
            final(index).wf(),
            r is Ok ==> final(self).state_spec().status == Status::Idle,
            r is Err ==> final(self).state_spec().status matches Status::Error(_),
            final(self).config_spec() == old(self).config_spec(),
            forall|k: Seq<u8>|
                old(index)@.contains_key(k) && live_record(*old(segment), old(index)@[k])
                    ==> final(index)@.contains_key(k) && final(segment).read_model(
                    final(index)@[k],
                ) == old(segment).read_model(old(index)@[k]),
            forall|k: Seq<u8>| #[trigger] final(index)@.contains_key(k) ==> old(
                index,
            )@.contains_key(k) && live_record(*old(segment), old(index)@[k]),
            final(self).state_spec().removed == sat_add(
                old(self).state_spec().removed,
                (old(index)@.dom().len() - final(index)@.dom().len()) as u64,
            ),
            r is Err ==> final(self).state_spec().processed == sat_add(
                old(self).state_spec().processed,
                old(index)@.dom().len() as u64,
            ),
            r is Ok ==> {
                let p1 = old(index)@.dom().len() as int;
                let lc = final(index)@.dom().len() as int;
                let escalated = p1 > 0 && (p1 - lc) * 100 >= p1 * old(self).config_spec().threshold;
                final(self).state_spec().processed == (if escalated {
                    sat_add(sat_add(old(self).state_spec().processed, p1 as u64), lc as u64)
                } else {
                    sat_add(old(self).state_spec().processed, p1 as u64)
                })
            },
    {
        self.check_and_compact(segment, index)
    }
}

} // verus!
