//! The data model: the reference record type and the on-disk layout types.

use vstd::prelude::*;

verus! {

/// A user's geographical location.
#[derive(Debug, Clone)]
pub struct Location {
    /// Street address.
    pub street: String,
    /// City name.
    pub city: String,
    /// Country code.
    pub country: String,
    /// Postal code.
    pub postal: String,
}

/// User profile information.
#[derive(Debug, Clone)]
pub struct Profile {
    /// The user's age.
    pub age: u32,
    /// The user's occupation.
    pub job: String,
    /// The user's interests.
    pub interests: Vec<String>,
}

/// The reference record: a user entity, identified by its `id`.
#[derive(Debug, Clone)]
pub struct User {
    /// Unique user identifier; the record's key.
    pub id: u64,
    /// Display name.
    pub name: String,
    /// Email address.
    pub email: String,
    /// Geographical location.
    pub location: Location,
    /// Profile information; optional so that the schema can evolve.
    pub profile: Option<Profile>,
    /// Creation timestamp, in seconds.
    pub created: u64,
    /// Last-update timestamp, in seconds.
    pub updated: u64,
}

/// The byte range of one serialized record within one segment.
#[derive(Debug, Clone, Copy, PartialEq, Eq, Structural)]
pub struct Position {
    /// Segment identifier.
    pub segment: u64,
    /// Byte offset within the segment.
    pub offset: u64,
    /// Record length in bytes, excluding the length prefix.
    pub length: u64,
}

/// Metadata of one storage segment.
#[derive(Debug, Clone, Copy, PartialEq, Eq, Structural)]
pub struct Metadata {
    /// Segment identifier.
    pub id: u64,
    /// Creation timestamp, in seconds.
    pub created: u64,
    /// Number of records in the segment.
    pub records: u64,
    /// Number of bytes the segment file holds.
    pub bytes: u64,
    /// Schema version of the records in the segment.
    pub schema: u32,
}

/// The header written at the front of every segment file.
#[derive(Debug, Clone, Copy, PartialEq, Eq, Structural)]
pub struct Header {
    /// Magic number identifying a segment file.
    pub magic: u32,
    /// Metadata of the segment at creation time.
    pub metadata: Metadata,
    /// Integrity checksum over the metadata bytes.
    pub checksum: u64,
}

/// The mathematical value of a [`Location`].
pub ghost struct LocationView {
    pub street: Seq<char>,
    pub city: Seq<char>,
    pub country: Seq<char>,
    pub postal: Seq<char>,
}

/// The mathematical value of a [`Profile`].
pub ghost struct ProfileView {
    pub age: u32,
    pub job: Seq<char>,
    pub interests: Seq<Seq<char>>,
}

/// The mathematical value of a [`User`].
pub ghost struct UserView {
    pub id: u64,
    pub name: Seq<char>,
    pub email: Seq<char>,
    pub location: LocationView,
    pub profile: Option<ProfileView>,
    pub created: u64,
    pub updated: u64,
}

impl View for Location {
    type V = LocationView;

    open spec fn view(&self) -> LocationView {
        LocationView {
            street: self.street@,
            city: self.city@,
            country: self.country@,
            postal: self.postal@,
        }
    }
}

impl View for Profile {
    type V = ProfileView;

    open spec fn view(&self) -> ProfileView {
        ProfileView {
            age: self.age,
            job: self.job@,
            interests: Seq::new(self.interests@.len(), |i: int| self.interests@[i]@),
        }
    }
}

impl View for User {
    type V = UserView;

    open spec fn view(&self) -> UserView {
        UserView {
            id: self.id,
            name: self.name@,
            email: self.email@,
            location: self.location@,
            profile: match self.profile {
                Some(p) => Some(p@),
                None => None,
            },
            created: self.created,
            updated: self.updated,
        }
    }
}

impl Default for Profile {
    fn default() -> (r: Self)
        ensures
            r@.age == 0,
            r@.job.len() == 0,
            r@.interests.len() == 0,
    {
        Self { age: 0, job: String::new(), interests: Vec::new() }
    }
}

impl Default for Position {
    fn default() -> (r: Self)
        ensures
            r == (Position { segment: 0, offset: 0, length: 0 }),
    {
        Self { segment: 0, offset: 0, length: 0 }
    }
}

} // verus!
