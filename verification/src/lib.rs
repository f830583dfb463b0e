//! An embedded, log-structured key-value storage engine.
//!
//! Records are appended to immutable segment files, a durable index log maps
//! keys to record locations, and a compaction service reclaims the space held
//! by superseded or deleted records.  The library models the segment files and
//! the index log as byte vectors; the surrounding binary (not part of this
//! crate) mirrors those bytes to disk and reads them back on startup.

use vstd::prelude::*;

mod clock;
mod codec;
mod compaction;
mod error;
mod frame;
mod index;
mod model;
mod sdk;
mod segment;

pub use compaction::{Compaction, Config, State, Status};
pub use error::Error;
pub use frame::{calculate_min_size, field_offset, field_size, Attributes, Endian, Field, Frame, Kind, Layout};
pub use index::{Entry, Index, Operation};
pub use sdk::{Stats, Store};
pub use segment::{parse_segment_name, Segment, SegmentFile, MAX_SEGMENT_SIZE};
pub use model::{Header, Location, Metadata, Position, Profile, User};

verus! {

} // verus!
