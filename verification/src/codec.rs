//! The binary codec for records and on-disk structures.
//!
//! Every multi-byte integer is little-endian.  A string is its UTF-8 bytes
//! behind a 4-byte length prefix.  The spec-level encoders (`enc_*`) define
//! the format; the spec-level parsers (`parse_*`) define what any byte string
//! means; the executable readers and writers are proved against them, and the
//! `lemma_parse_*_enc` lemmas show that parsing inverts encoding.

use vstd::prelude::*;
use vstd::bytes::*;
use vstd::slice::{slice_subrange, slice_to_vec};
use vstd::utf8::{encode_utf8, valid_utf8, encode_utf8_valid_utf8, encode_utf8_decode_utf8, decode_utf8};
use crate::error::Error;
use crate::model::{Location, LocationView, Profile, ProfileView, User, UserView};

verus! {

// ---------------------------------------------------------------------------
// Spec-level encoders
// ---------------------------------------------------------------------------

/// The 4-byte little-endian encoding of a `u32`.
pub open spec fn enc_u32(x: u32) -> Seq<u8> {
    spec_u32_to_le_bytes(x)
}

/// The 8-byte little-endian encoding of a `u64`.
pub open spec fn enc_u64(x: u64) -> Seq<u8> {
    spec_u64_to_le_bytes(x)
}

/// A string fits the format when its UTF-8 byte length fits the 4-byte prefix.
pub open spec fn str_encodable(s: Seq<char>) -> bool {
    encode_utf8(s).len() <= u32::MAX
}

/// The encoding of a string: byte length, then the UTF-8 bytes.
pub open spec fn enc_str(s: Seq<char>) -> Seq<u8> {
    enc_u32(encode_utf8(s).len() as u32) + encode_utf8(s)
}

/// The encoding of a sequence of strings, one after the other.
pub open spec fn enc_strs(ss: Seq<Seq<char>>) -> Seq<u8>
    decreases ss.len(),
{
    if ss.len() == 0 {
        Seq::empty()
    } else {
        enc_str(ss.first()) + enc_strs(ss.drop_first())
    }
}

/// The encoding of a [`Location`]: its four strings.
pub open spec fn enc_location(l: LocationView) -> Seq<u8> {
    enc_str(l.street) + enc_str(l.city) + enc_str(l.country) + enc_str(l.postal)
}

/// The encoding of a [`Profile`]: age, job, then the counted interests.
pub open spec fn enc_profile(p: ProfileView) -> Seq<u8> {
    enc_u32(p.age) + enc_str(p.job) + enc_u32(p.interests.len() as u32) + enc_strs(p.interests)
}

/// The encoding of an optional profile: a presence tag, then the profile.
pub open spec fn enc_opt_profile(p: Option<ProfileView>) -> Seq<u8> {
    match p {
        None => seq![0u8],
        Some(pv) => seq![1u8] + enc_profile(pv),
    }
}

/// The encoding of a [`User`] record: every field in declaration order.
pub open spec fn enc_user(u: UserView) -> Seq<u8> {
    enc_u64(u.id) + enc_str(u.name) + enc_str(u.email) + enc_location(u.location)
        + enc_opt_profile(u.profile) + enc_u64(u.created) + enc_u64(u.updated)
}

/// Every string of the location fits the format.
pub open spec fn location_encodable(l: LocationView) -> bool {
    str_encodable(l.street) && str_encodable(l.city) && str_encodable(l.country)
        && str_encodable(l.postal)
}

/// Every string of the profile fits the format, and the interest count fits
/// its 4-byte prefix.
pub open spec fn profile_encodable(p: ProfileView) -> bool {
    &&& str_encodable(p.job)
    &&& p.interests.len() <= u32::MAX
    &&& forall|i: int| 0 <= i < p.interests.len() ==> str_encodable(#[trigger] p.interests[i])
}

/// Every variable-length part of the record fits the format.
pub open spec fn user_encodable(u: UserView) -> bool {
    &&& str_encodable(u.name)
    &&& str_encodable(u.email)
    &&& location_encodable(u.location)
    &&& match u.profile {
        None => true,
        Some(p) => profile_encodable(p),
    }
}

// ---------------------------------------------------------------------------
// Spec-level parsers
// ---------------------------------------------------------------------------
// Each parser takes the whole byte string and a cursor, and yields the parsed
// value with the cursor just past it, or nothing when the bytes at the cursor
// do not hold a value of the expected shape.

/// Parse one byte.
pub open spec fn parse_u8(d: Seq<u8>, pos: int) -> Option<(u8, int)> {
    if 0 <= pos && pos + 1 <= d.len() {
        Some((d[pos], pos + 1))
    } else {
        None
    }
}

/// Parse a 4-byte little-endian `u32`.
pub open spec fn parse_u32(d: Seq<u8>, pos: int) -> Option<(u32, int)> {
    if 0 <= pos && pos + 4 <= d.len() {
        Some((spec_u32_from_le_bytes(d.subrange(pos, pos + 4)), pos + 4))
    } else {
        None
    }
}

/// Parse an 8-byte little-endian `u64`.
pub open spec fn parse_u64(d: Seq<u8>, pos: int) -> Option<(u64, int)> {
    if 0 <= pos && pos + 8 <= d.len() {
        Some((spec_u64_from_le_bytes(d.subrange(pos, pos + 8)), pos + 8))
    } else {
        None
    }
}

/// Parse a length-prefixed UTF-8 string.
pub open spec fn parse_str(d: Seq<u8>, pos: int) -> Option<(Seq<char>, int)> {
    match parse_u32(d, pos) {
        None => None,
        Some((n, p1)) => {
            if p1 + n <= d.len() && valid_utf8(d.subrange(p1, p1 + n)) {
                Some((decode_utf8(d.subrange(p1, p1 + n)), p1 + n))
            } else {
                None
            }
        },
    }
}

/// Parse `count` strings, one after the other.
pub open spec fn parse_strs(d: Seq<u8>, pos: int, count: nat) -> Option<(Seq<Seq<char>>, int)>
    decreases count,
{
    if count == 0 {
        if 0 <= pos <= d.len() {
            Some((Seq::empty(), pos))
        } else {
            None
        }
    } else {
        match parse_str(d, pos) {
            None => None,
            Some((s, p1)) => match parse_strs(d, p1, (count - 1) as nat) {
                None => None,
                Some((rest, p2)) => Some((seq![s] + rest, p2)),
            },
        }
    }
}

/// Parse a [`Location`].
pub open spec fn parse_location(d: Seq<u8>, pos: int) -> Option<(LocationView, int)> {
    match parse_str(d, pos) {
        None => None,
        Some((street, p1)) => match parse_str(d, p1) {
            None => None,
            Some((city, p2)) => match parse_str(d, p2) {
                None => None,
                Some((country, p3)) => match parse_str(d, p3) {
                    None => None,
                    Some((postal, p4)) => Some(
                        (LocationView { street, city, country, postal }, p4),
                    ),
                },
            },
        },
    }
}

/// Parse a [`Profile`].
pub open spec fn parse_profile(d: Seq<u8>, pos: int) -> Option<(ProfileView, int)> {
    match parse_u32(d, pos) {
        None => None,
        Some((age, p1)) => match parse_str(d, p1) {
            None => None,
            Some((job, p2)) => match parse_u32(d, p2) {
                None => None,
                Some((count, p3)) => match parse_strs(d, p3, count as nat) {
                    None => None,
                    Some((interests, p4)) => Some((ProfileView { age, job, interests }, p4)),
                },
            },
        },
    }
}

/// Parse an optional profile: tag 0 is absent, tag 1 is present.
pub open spec fn parse_opt_profile(d: Seq<u8>, pos: int) -> Option<(Option<ProfileView>, int)> {
    match parse_u8(d, pos) {
        None => None,
        Some((tag, p1)) => {
            if tag == 0 {
                Some((None, p1))
            } else if tag == 1 {
                match parse_profile(d, p1) {
                    None => None,
                    Some((p, p2)) => Some((Some(p), p2)),
                }
            } else {
                None
            }
        },
    }
}

/// Parse a [`User`] record.
pub open spec fn parse_user(d: Seq<u8>, pos: int) -> Option<(UserView, int)> {
    match parse_u64(d, pos) {
        None => None,
        Some((id, p1)) => match parse_str(d, p1) {
            None => None,
            Some((name, p2)) => match parse_str(d, p2) {
                None => None,
                Some((email, p3)) => match parse_location(d, p3) {
                    None => None,
                    Some((location, p4)) => match parse_opt_profile(d, p4) {
                        None => None,
                        Some((profile, p5)) => match parse_u64(d, p5) {
                            None => None,
                            Some((created, p6)) => match parse_u64(d, p6) {
                                None => None,
                                Some((updated, p7)) => Some(
                                    (
                                        UserView {
                                            id,
                                            name,
                                            email,
                                            location,
                                            profile,
                                            created,
                                            updated,
                                        },
                                        p7,
                                    ),
                                ),
                            },
                        },
                    },
                },
            },
        },
    }
}

/// What a whole byte string holds as a record: a parse that consumes it all.
pub open spec fn decoded_user(d: Seq<u8>) -> Option<UserView> {
    match parse_user(d, 0) {
        None => None,
        Some((u, p)) => if p == d.len() {
            Some(u)
        } else {
            None
        },
    }
}

// ---------------------------------------------------------------------------
// Parsing inverts encoding
// ---------------------------------------------------------------------------

/// A fragment of an already-located chunk is at the expected place in the
/// whole byte string.
pub proof fn lemma_subrange_chunk(d: Seq<u8>, pos: int, whole: Seq<u8>, off: int, part: Seq<u8>)
    requires
        0 <= pos,
        pos + whole.len() <= d.len(),
        d.subrange(pos, pos + whole.len()) == whole,
        0 <= off,
        off + part.len() <= whole.len(),
        whole.subrange(off, off + part.len()) == part,
    ensures
        d.subrange(pos + off, pos + off + part.len()) == part,
{
    assert forall|i: int| 0 <= i < part.len() implies d[pos + off + i] == part[i] by {
        assert(whole[off + i] == part[i]);
        assert(d[pos + (off + i)] == whole[off + i]);
    }
    assert(d.subrange(pos + off, pos + off + part.len()) =~= part);
}

pub proof fn lemma_parse_u8_enc(d: Seq<u8>, pos: int, x: u8)
    requires
        0 <= pos,
        pos + 1 <= d.len(),
        d.subrange(pos, pos + 1) == seq![x],
    ensures
        parse_u8(d, pos) == Some((x, pos + 1)),
{
    assert(d[pos] == d.subrange(pos, pos + 1)[0]);
}

pub proof fn lemma_parse_u32_enc(d: Seq<u8>, pos: int, x: u32)
    requires
        0 <= pos,
        pos + 4 <= d.len(),
        d.subrange(pos, pos + 4) == enc_u32(x),
    ensures
        parse_u32(d, pos) == Some((x, pos + 4)),
{
    lemma_auto_spec_u32_to_from_le_bytes();
    assert(spec_u32_to_le_bytes(x).len() == 4);
}

pub proof fn lemma_parse_u64_enc(d: Seq<u8>, pos: int, x: u64)
    requires
        0 <= pos,
        pos + 8 <= d.len(),
        d.subrange(pos, pos + 8) == enc_u64(x),
    ensures
        parse_u64(d, pos) == Some((x, pos + 8)),
{
    lemma_auto_spec_u64_to_from_le_bytes();
    assert(spec_u64_to_le_bytes(x).len() == 8);
}

pub proof fn lemma_parse_str_enc(d: Seq<u8>, pos: int, s: Seq<char>)
    requires
        0 <= pos,
        str_encodable(s),
        pos + enc_str(s).len() <= d.len(),
        d.subrange(pos, pos + enc_str(s).len()) == enc_str(s),
    ensures
        parse_str(d, pos) == Some((s, pos + enc_str(s).len())),
{
    let u = encode_utf8(s);
    let n = u.len() as u32;
    lemma_auto_spec_u32_to_from_le_bytes();
    let whole = enc_str(s);
    assert(whole.subrange(0, 4) =~= enc_u32(n));
    lemma_subrange_chunk(d, pos, whole, 0, enc_u32(n));
    lemma_parse_u32_enc(d, pos, n);
    assert(whole.subrange(4, 4 + u.len() as int) =~= u);
    lemma_subrange_chunk(d, pos, whole, 4, u);
    encode_utf8_valid_utf8(s);
    encode_utf8_decode_utf8(s);
}

pub proof fn lemma_parse_strs_enc(d: Seq<u8>, pos: int, ss: Seq<Seq<char>>)
    requires
        0 <= pos,
        forall|i: int| 0 <= i < ss.len() ==> str_encodable(#[trigger] ss[i]),
        pos + enc_strs(ss).len() <= d.len(),
        d.subrange(pos, pos + enc_strs(ss).len()) == enc_strs(ss),
    ensures
        parse_strs(d, pos, ss.len()) == Some((ss, pos + enc_strs(ss).len())),
    decreases ss.len(),
{
    if ss.len() == 0 {
        assert(ss =~= Seq::<Seq<char>>::empty());
    } else {
        let whole = enc_strs(ss);
        let first = enc_str(ss.first());
        let rest = enc_strs(ss.drop_first());
        assert(whole == first + rest);
        assert(whole.subrange(0, first.len() as int) =~= first);
        lemma_subrange_chunk(d, pos, whole, 0, first);
        lemma_parse_str_enc(d, pos, ss.first());
        assert(whole.subrange(first.len() as int, first.len() as int + rest.len() as int) =~= rest);
        lemma_subrange_chunk(d, pos, whole, first.len() as int, rest);
        lemma_parse_strs_enc(d, pos + first.len(), ss.drop_first());
        assert(seq![ss.first()] + ss.drop_first() =~= ss);
    }
}

pub proof fn lemma_parse_location_enc(d: Seq<u8>, pos: int, l: LocationView)
    requires
        0 <= pos,
        location_encodable(l),
        pos + enc_location(l).len() <= d.len(),
        d.subrange(pos, pos + enc_location(l).len()) == enc_location(l),
    ensures
        parse_location(d, pos) == Some((l, pos + enc_location(l).len())),
{
    let whole = enc_location(l);
    let a = enc_str(l.street);
    let b = enc_str(l.city);
    let c = enc_str(l.country);
    let e = enc_str(l.postal);
    let o1 = a.len() as int;
    let o2 = o1 + b.len();
    let o3 = o2 + c.len();
    let o4 = o3 + e.len();
    assert(whole.subrange(0, o1) =~= a);
    lemma_subrange_chunk(d, pos, whole, 0, a);
    lemma_parse_str_enc(d, pos, l.street);
    assert(whole.subrange(o1, o2) =~= b);
    lemma_subrange_chunk(d, pos, whole, o1, b);
    lemma_parse_str_enc(d, pos + o1, l.city);
    assert(whole.subrange(o2, o3) =~= c);
    lemma_subrange_chunk(d, pos, whole, o2, c);
    lemma_parse_str_enc(d, pos + o2, l.country);
    assert(whole.subrange(o3, o4) =~= e);
    lemma_subrange_chunk(d, pos, whole, o3, e);
    lemma_parse_str_enc(d, pos + o3, l.postal);
}

pub proof fn lemma_parse_profile_enc(d: Seq<u8>, pos: int, p: ProfileView)
    requires
        0 <= pos,
        profile_encodable(p),
        pos + enc_profile(p).len() <= d.len(),
        d.subrange(pos, pos + enc_profile(p).len()) == enc_profile(p),
    ensures
        parse_profile(d, pos) == Some((p, pos + enc_profile(p).len())),
{
    let whole = enc_profile(p);
    let a = enc_u32(p.age);
    let b = enc_str(p.job);
    let c = enc_u32(p.interests.len() as u32);
    let e = enc_strs(p.interests);
    let o1 = a.len() as int;
    let o2 = o1 + b.len();
    let o3 = o2 + c.len();
    let o4 = o3 + e.len();
    lemma_auto_spec_u32_to_from_le_bytes();
    assert(whole.subrange(0, o1) =~= a);
    lemma_subrange_chunk(d, pos, whole, 0, a);
    lemma_parse_u32_enc(d, pos, p.age);
    assert(whole.subrange(o1, o2) =~= b);
    lemma_subrange_chunk(d, pos, whole, o1, b);
    lemma_parse_str_enc(d, pos + o1, p.job);
    assert(whole.subrange(o2, o3) =~= c);
    lemma_subrange_chunk(d, pos, whole, o2, c);
    lemma_parse_u32_enc(d, pos + o2, p.interests.len() as u32);
    assert(whole.subrange(o3, o4) =~= e);
    lemma_subrange_chunk(d, pos, whole, o3, e);
    lemma_parse_strs_enc(d, pos + o3, p.interests);
}

pub proof fn lemma_parse_opt_profile_enc(d: Seq<u8>, pos: int, p: Option<ProfileView>)
    requires
        0 <= pos,
        match p {
            None => true,
            Some(pv) => profile_encodable(pv),
        },
        pos + enc_opt_profile(p).len() <= d.len(),
        d.subrange(pos, pos + enc_opt_profile(p).len()) == enc_opt_profile(p),
    ensures
        parse_opt_profile(d, pos) == Some((p, pos + enc_opt_profile(p).len())),
{
    let whole = enc_opt_profile(p);
    match p {
        None => {
            assert(whole.subrange(0, 1) =~= seq![0u8]);
            lemma_subrange_chunk(d, pos, whole, 0, seq![0u8]);
            lemma_parse_u8_enc(d, pos, 0u8);
        },
        Some(pv) => {
            let b = enc_profile(pv);
            assert(whole.subrange(0, 1) =~= seq![1u8]);
            lemma_subrange_chunk(d, pos, whole, 0, seq![1u8]);
            lemma_parse_u8_enc(d, pos, 1u8);
            assert(whole.subrange(1, 1 + b.len() as int) =~= b);
            lemma_subrange_chunk(d, pos, whole, 1, b);
            lemma_parse_profile_enc(d, pos + 1, pv);
        },
    }
}

/// Parsing the encoding of a record, at its place inside any byte string,
/// yields the record back.
pub proof fn lemma_parse_user_enc(d: Seq<u8>, pos: int, u: UserView)
    requires
        0 <= pos,
        user_encodable(u),
        pos + enc_user(u).len() <= d.len(),
        d.subrange(pos, pos + enc_user(u).len()) == enc_user(u),
    ensures
        parse_user(d, pos) == Some((u, pos + enc_user(u).len())),
{
    lemma_auto_spec_u64_to_from_le_bytes();
    lemma_auto_spec_u32_to_from_le_bytes();
    let whole = enc_user(u);
    let a = enc_u64(u.id);
    let b = enc_str(u.name);
    let c = enc_str(u.email);
    let e = enc_location(u.location);
    let f = enc_opt_profile(u.profile);
    let g = enc_u64(u.created);
    let h = enc_u64(u.updated);
    let o1 = a.len() as int;
    let o2 = o1 + b.len();
    let o3 = o2 + c.len();
    let o4 = o3 + e.len();
    let o5 = o4 + f.len();
    let o6 = o5 + g.len();
    let o7 = o6 + h.len();
    assert(whole.subrange(0, o1) =~= a);
    lemma_subrange_chunk(d, pos, whole, 0, a);
    lemma_parse_u64_enc(d, pos, u.id);
    assert(whole.subrange(o1, o2) =~= b);
    lemma_subrange_chunk(d, pos, whole, o1, b);
    lemma_parse_str_enc(d, pos + o1, u.name);
    assert(whole.subrange(o2, o3) =~= c);
    lemma_subrange_chunk(d, pos, whole, o2, c);
    lemma_parse_str_enc(d, pos + o2, u.email);
    assert(whole.subrange(o3, o4) =~= e);
    lemma_subrange_chunk(d, pos, whole, o3, e);
    lemma_parse_location_enc(d, pos + o3, u.location);
    assert(whole.subrange(o4, o5) =~= f);
    lemma_subrange_chunk(d, pos, whole, o4, f);
    lemma_parse_opt_profile_enc(d, pos + o4, u.profile);
    assert(whole.subrange(o5, o6) =~= g);
    lemma_subrange_chunk(d, pos, whole, o5, g);
    lemma_parse_u64_enc(d, pos + o5, u.created);
    assert(whole.subrange(o6, o7) =~= h);
    lemma_subrange_chunk(d, pos, whole, o6, h);
    lemma_parse_u64_enc(d, pos + o6, u.updated);
}

// ---------------------------------------------------------------------------
// Executable writers
// ---------------------------------------------------------------------------

/// The sequence of character sequences a vector of strings stands for.
pub open spec fn strs_view(ss: Seq<String>) -> Seq<Seq<char>> {
    Seq::new(ss.len(), |i: int| ss[i]@)
}

/// Appending one string to an encoded run extends the run at its end.
pub proof fn lemma_enc_strs_push(ss: Seq<Seq<char>>, s: Seq<char>)
    ensures
        enc_strs(ss.push(s)) == enc_strs(ss) + enc_str(s),
    decreases ss.len(),
{
    if ss.len() == 0 {
        assert(ss.push(s).drop_first() =~= Seq::<Seq<char>>::empty());
        assert(enc_strs(ss) + enc_str(s) =~= enc_str(s));
        assert(enc_strs(ss.push(s)) =~= enc_str(s) + enc_strs(Seq::<Seq<char>>::empty()));
        assert(enc_str(s) + enc_strs(Seq::<Seq<char>>::empty()) =~= enc_str(s));
    } else {
        assert(ss.push(s).drop_first() =~= ss.drop_first().push(s));
        lemma_enc_strs_push(ss.drop_first(), s);
        assert(enc_strs(ss.push(s)) =~= enc_strs(ss) + enc_str(s));
    }
}

pub(crate) fn write_u8(out: &mut Vec<u8>, x: u8)
    ensures
        final(out)@ == old(out)@ + seq![x],
{
    out.push(x);
    proof {
        assert(old(out)@.push(x) =~= old(out)@ + seq![x]);
    }
}

pub(crate) fn write_u32(out: &mut Vec<u8>, x: u32)
    ensures
        final(out)@ == old(out)@ + enc_u32(x),
{
    let mut b = u32_to_le_bytes(x);
    out.append(&mut b);
}

pub(crate) fn write_u64(out: &mut Vec<u8>, x: u64)
    ensures
        final(out)@ == old(out)@ + enc_u64(x),
{
    let mut b = u64_to_le_bytes(x);
    out.append(&mut b);
}

/// Whether the string's UTF-8 byte length fits the 4-byte prefix.
fn str_fits(s: &str) -> (b: bool)
    ensures
        b == str_encodable(s@),
{
    let bytes = s.as_bytes_vec();
    bytes.len() <= u32::MAX as usize
}

fn write_str(out: &mut Vec<u8>, s: &str) -> (r: Result<(), Error>)
    ensures
        r is Ok <==> str_encodable(s@),
        r is Ok ==> final(out)@ == old(out)@ + enc_str(s@),
        r is Err ==> final(out)@ == old(out)@,
        r matches Err(e) ==> e matches Error::Serialize(_),
{
    if !str_fits(s) {
        return Err(Error::Serialize("string too long for its length prefix".to_string()));
    }
    let mut b = s.as_bytes_vec();
    write_u32(out, b.len() as u32);
    out.append(&mut b);
    Ok(())
}

fn write_strs(out: &mut Vec<u8>, ss: &Vec<String>) -> (r: Result<(), Error>)
    ensures
        r is Ok <==> (forall|i: int| 0 <= i < ss@.len() ==> str_encodable(#[trigger] ss@[i]@)),
        r is Ok ==> final(out)@ == old(out)@ + enc_strs(strs_view(ss@)),
        r is Err ==> final(out)@ == old(out)@,
        r matches Err(e) ==> e matches Error::Serialize(_),
{
    let mut i: usize = 0;
    while i < ss.len()
        invariant
            0 <= i <= ss@.len(),
            forall|j: int| 0 <= j < i ==> str_encodable(#[trigger] ss@[j]@),
        decreases ss@.len() - i,
    {
        if !str_fits(ss[i].as_str()) {
            return Err(Error::Serialize("string too long for its length prefix".to_string()));
        }
        i = i + 1;
    }
    let mut i: usize = 0;
    while i < ss.len()
        invariant
            0 <= i <= ss@.len(),
            forall|j: int| 0 <= j < ss@.len() ==> str_encodable(#[trigger] ss@[j]@),
            out@ == old(out)@ + enc_strs(strs_view(ss@.take(i as int))),
        decreases ss@.len() - i,
    {
        proof {
            lemma_enc_strs_push(strs_view(ss@.take(i as int)), ss@[i as int]@);
            assert(strs_view(ss@.take(i as int)).push(ss@[i as int]@) =~= strs_view(
                ss@.take(i + 1),
            ));
        }
        let ghost prev = out@;
        match write_str(out, ss[i].as_str()) {
            Ok(()) => {},
            Err(e) => {
                // Every string was checked above; this arm is unreachable.
                return Err(e);
            },
        }
        proof {
            assert(out@ =~= old(out)@ + enc_strs(strs_view(ss@.take(i + 1))));
        }
        i = i + 1;
    }
    proof {
        assert(ss@.take(ss@.len() as int) =~= ss@);
    }
    Ok(())
}

fn encode_location_into(out: &mut Vec<u8>, l: &Location) -> (r: Result<(), Error>)
    ensures
        r is Ok <==> location_encodable(l@),
        r is Ok ==> final(out)@ == old(out)@ + enc_location(l@),
        r is Err ==> final(out)@ == old(out)@,
        r matches Err(e) ==> e matches Error::Serialize(_),
{
    if !str_fits(l.street.as_str()) || !str_fits(l.city.as_str()) || !str_fits(
        l.country.as_str(),
    ) || !str_fits(l.postal.as_str()) {
        return Err(Error::Serialize("string too long for its length prefix".to_string()));
    }
    let _ = write_str(out, l.street.as_str());
    let _ = write_str(out, l.city.as_str());
    let _ = write_str(out, l.country.as_str());
    let _ = write_str(out, l.postal.as_str());
    proof {
        assert(out@ =~= old(out)@ + enc_location(l@));
    }
    Ok(())
}

fn encode_profile_into(out: &mut Vec<u8>, p: &Profile) -> (r: Result<(), Error>)
    ensures
        r is Ok <==> profile_encodable(p@),
        r is Ok ==> final(out)@ == old(out)@ + enc_profile(p@),
        r matches Err(e) ==> e matches Error::Serialize(_),
{
    if !str_fits(p.job.as_str()) {
        return Err(Error::Serialize("string too long for its length prefix".to_string()));
    }
    if p.interests.len() > u32::MAX as usize {
        return Err(Error::Serialize("too many interests for the count prefix".to_string()));
    }
    proof {
        assert(p@.interests =~= strs_view(p.interests@));
    }
    let ghost start = out@;
    write_u32(out, p.age);
    let _ = write_str(out, p.job.as_str());
    write_u32(out, p.interests.len() as u32);
    let r = write_strs(out, &p.interests);
    match r {
        Ok(()) => {
            proof {
                assert forall|i: int| 0 <= i < p@.interests.len() implies str_encodable(
                    #[trigger] p@.interests[i],
                ) by {
                    assert(p@.interests[i] == p.interests@[i]@);
                    assert(str_encodable(p.interests@[i]@));
                }
                assert(out@ =~= start + enc_profile(p@));
            }
            Ok(())
        },
        Err(e) => {
            proof {
                if profile_encodable(p@) {
                    assert forall|i: int| 0 <= i < p.interests@.len() implies str_encodable(
                        #[trigger] p.interests@[i]@,
                    ) by {
                        assert(str_encodable(p@.interests[i]));
                        assert(p@.interests[i] == p.interests@[i]@);
                    }
                    assert(false);
                }
            }
            Err(e)
        },
    }
}

/// Serializes a record.  Succeeds exactly when every variable-length part of
/// the record fits the format, and then returns precisely its encoding.
pub fn encode_user(u: &User) -> (r: Result<Vec<u8>, Error>)
    ensures
        r matches Ok(b) ==> user_encodable(u@) && b@ == enc_user(u@),
        user_encodable(u@) ==> r is Ok,
        r matches Err(e) ==> !user_encodable(u@) && e matches Error::Serialize(_),
{
    let mut out: Vec<u8> = Vec::new();
    write_u64(&mut out, u.id);
    match write_str(&mut out, u.name.as_str()) {
        Ok(()) => {},
        Err(e) => {
            return Err(e);
        },
    }
    match write_str(&mut out, u.email.as_str()) {
        Ok(()) => {},
        Err(e) => {
            return Err(e);
        },
    }
    match encode_location_into(&mut out, &u.location) {
        Ok(()) => {},
        Err(e) => {
            return Err(e);
        },
    }
    match &u.profile {
        None => {
            write_u8(&mut out, 0);
        },
        Some(p) => {
            write_u8(&mut out, 1);
            match encode_profile_into(&mut out, p) {
                Ok(()) => {},
                Err(e) => {
                    return Err(e);
                },
            }
        },
    }
    write_u64(&mut out, u.created);
    write_u64(&mut out, u.updated);
    proof {
        assert(out@ =~= enc_user(u@));
    }
    Ok(out)
}

// ---------------------------------------------------------------------------
// Executable readers
// ---------------------------------------------------------------------------

/// Relies on `String::from_utf8`: it succeeds exactly on valid UTF-8 input,
/// and returns the string whose UTF-8 encoding is that input.
#[verifier::external_body]
pub(crate) fn bytes_to_string(v: Vec<u8>) -> (r: Option<String>)
    ensures
        r matches Some(s) ==> encode_utf8(s@) == v@,
        valid_utf8(v@) ==> r is Some,
{
    match String::from_utf8(v) {
        Ok(s) => Some(s),
        Err(_) => None,
    }
}

pub(crate) fn read_u8(d: &[u8], pos: usize) -> (r: Option<(u8, usize)>)
    ensures
        r matches Some((v, p2)) ==> parse_u8(d@, pos as int) == Some((v, p2 as int)) && p2
            <= d@.len(),
        r is None ==> parse_u8(d@, pos as int) is None,
{
    if pos < d.len() {
        Some((*vstd::slice::slice_index_get(d, pos), pos + 1))
    } else {
        None
    }
}

pub(crate) fn read_u32(d: &[u8], pos: usize) -> (r: Option<(u32, usize)>)
    ensures
        r matches Some((v, p2)) ==> parse_u32(d@, pos as int) == Some((v, p2 as int)) && p2
            <= d@.len(),
        r is None ==> parse_u32(d@, pos as int) is None,
{
    if pos <= d.len() && d.len() - pos >= 4 {
        let sub = slice_subrange(d, pos, pos + 4);
        Some((u32_from_le_bytes(sub), pos + 4))
    } else {
        None
    }
}

pub(crate) fn read_u64(d: &[u8], pos: usize) -> (r: Option<(u64, usize)>)
    ensures
        r matches Some((v, p2)) ==> parse_u64(d@, pos as int) == Some((v, p2 as int)) && p2
            <= d@.len(),
        r is None ==> parse_u64(d@, pos as int) is None,
{
    if pos <= d.len() && d.len() - pos >= 8 {
        let sub = slice_subrange(d, pos, pos + 8);
        Some((u64_from_le_bytes(sub), pos + 8))
    } else {
        None
    }
}

fn read_str(d: &[u8], pos: usize) -> (r: Option<(String, usize)>)
    ensures
        r matches Some((s, p2)) ==> parse_str(d@, pos as int) == Some((s@, p2 as int)) && p2
            <= d@.len(),
        r is None ==> parse_str(d@, pos as int) is None,
{
    match read_u32(d, pos) {
        None => None,
        Some((n, p1)) => {
            let nu = n as usize;
            if d.len() - p1 >= nu {
                let sub = slice_subrange(d, p1, p1 + nu);
                let v = slice_to_vec(sub);
                match bytes_to_string(v) {
                    Some(s) => {
                        proof {
                            encode_utf8_valid_utf8(s@);
                            encode_utf8_decode_utf8(s@);
                        }
                        Some((s, p1 + nu))
                    },
                    None => None,
                }
            } else {
                None
            }
        },
    }
}

fn read_strs(d: &[u8], pos: usize, count: u32) -> (r: Option<(Vec<String>, usize)>)
    ensures
        r matches Some((ss, p2)) ==> parse_strs(d@, pos as int, count as nat) == Some(
            (strs_view(ss@), p2 as int),
        ) && p2 <= d@.len(),
        r is None ==> parse_strs(d@, pos as int, count as nat) is None,
{
    if pos > d.len() {
        return None;
    }
    let mut acc: Vec<String> = Vec::new();
    let mut cur: usize = pos;
    let mut i: u32 = 0;
    while i < count
        invariant
            i <= count,
            cur <= d@.len(),
            acc@.len() == i,
            forall|rest: Seq<Seq<char>>, p: int|
                parse_strs(d@, cur as int, (count - i) as nat) == Some::<(Seq<Seq<char>>, int)>(
                    (rest, p),
                ) ==> parse_strs(d@, pos as int, count as nat) == Some::<(Seq<Seq<char>>, int)>(
                    (strs_view(acc@) + rest, p),
                ),
            parse_strs(d@, cur as int, (count - i) as nat) is None ==> parse_strs(
                d@,
                pos as int,
                count as nat,
            ) is None,
        decreases count - i,
    {
        let ghost old_acc = acc@;
        let ghost old_cur = cur as int;
        match read_str(d, cur) {
            None => {
                return None;
            },
            Some((s, p2)) => {
                acc.push(s);
                cur = p2;
                i = i + 1;
                proof {
                    assert(strs_view(old_acc).push(s@) =~= strs_view(acc@));
                    assert forall|rest: Seq<Seq<char>>, p: int|
                        parse_strs(d@, cur as int, (count - i) as nat) == Some::<
                            (Seq<Seq<char>>, int),
                        >((rest, p)) implies parse_strs(d@, pos as int, count as nat) == Some::<
                        (Seq<Seq<char>>, int),
                    >((strs_view(acc@) + rest, p)) by {
                        assert(parse_strs(d@, old_cur, (count - (i - 1)) as nat) == Some::<
                            (Seq<Seq<char>>, int),
                        >((seq![s@] + rest, p)));
                        assert(strs_view(old_acc) + (seq![s@] + rest) =~= strs_view(acc@) + rest);
                    }
                }
            },
        }
    }
    proof {
        assert(parse_strs(d@, cur as int, 0) == Some::<(Seq<Seq<char>>, int)>(
            (Seq::empty(), cur as int),
        ));
        assert(strs_view(acc@) + Seq::<Seq<char>>::empty() =~= strs_view(acc@));
    }
    Some((acc, cur))
}

fn read_location(d: &[u8], pos: usize) -> (r: Option<(Location, usize)>)
    ensures
        r matches Some((l, p2)) ==> parse_location(d@, pos as int) == Some((l@, p2 as int)) && p2
            <= d@.len(),
        r is None ==> parse_location(d@, pos as int) is None,
{
    match read_str(d, pos) {
        None => None,
        Some((street, p1)) => match read_str(d, p1) {
            None => None,
            Some((city, p2)) => match read_str(d, p2) {
                None => None,
                Some((country, p3)) => match read_str(d, p3) {
                    None => None,
                    Some((postal, p4)) => Some((Location { street, city, country, postal }, p4)),
                },
            },
        },
    }
}

fn read_profile(d: &[u8], pos: usize) -> (r: Option<(Profile, usize)>)
    ensures
        r matches Some((p, p2)) ==> parse_profile(d@, pos as int) == Some((p@, p2 as int)) && p2
            <= d@.len(),
        r is None ==> parse_profile(d@, pos as int) is None,
{
    match read_u32(d, pos) {
        None => None,
        Some((age, p1)) => match read_str(d, p1) {
            None => None,
            Some((job, p2)) => match read_u32(d, p2) {
                None => None,
                Some((count, p3)) => match read_strs(d, p3, count) {
                    None => None,
                    Some((interests, p4)) => {
                        let p = Profile { age, job, interests };
                        proof {
                            assert(p@.interests =~= strs_view(p.interests@));
                        }
                        Some((p, p4))
                    },
                },
            },
        },
    }
}

fn read_opt_profile(d: &[u8], pos: usize) -> (r: Option<(Option<Profile>, usize)>)
    ensures
        r matches Some((p, p2)) ==> parse_opt_profile(d@, pos as int) == Some(
            (
                match p {
                    Some(pv) => Some(pv@),
                    None => None,
                },
                p2 as int,
            ),
        ) && p2 <= d@.len(),
        r is None ==> parse_opt_profile(d@, pos as int) is None,
{
    match read_u8(d, pos) {
        None => None,
        Some((tag, p1)) => {
            if tag == 0 {
                Some((None, p1))
            } else if tag == 1 {
                match read_profile(d, p1) {
                    None => None,
                    Some((p, p2)) => Some((Some(p), p2)),
                }
            } else {
                None
            }
        },
    }
}

/// Deserializes a record.  Succeeds exactly when the bytes are one whole
/// well-formed record, and then returns precisely the record they hold.
pub fn decode_user(d: &[u8]) -> (r: Result<User, Error>)
    ensures
        r matches Ok(u) ==> decoded_user(d@) == Some(u@),
        decoded_user(d@) is Some ==> r is Ok,
        r matches Err(e) ==> decoded_user(d@) is None && e matches Error::Serialize(_),
{
    let r1 = read_u64(d, 0);
    match r1 {
        None => Err(Error::Serialize("record bytes do not decode as one whole record".to_string())),
        Some((id, p1)) => match read_str(d, p1) {
            None => Err(Error::Serialize("record bytes do not decode as one whole record".to_string())),
            Some((name, p2)) => match read_str(d, p2) {
                None => Err(Error::Serialize("record bytes do not decode as one whole record".to_string())),
                Some((email, p3)) => match read_location(d, p3) {
                    None => Err(Error::Serialize("record bytes do not decode as one whole record".to_string())),
                    Some((location, p4)) => match read_opt_profile(d, p4) {
                        None => Err(Error::Serialize("record bytes do not decode as one whole record".to_string())),
                        Some((profile, p5)) => match read_u64(d, p5) {
                            None => Err(Error::Serialize("record bytes do not decode as one whole record".to_string())),
                            Some((created, p6)) => match read_u64(d, p6) {
                                None => Err(Error::Serialize("record bytes do not decode as one whole record".to_string())),
                                Some((updated, p7)) => {
                                    if p7 == d.len() {
                                        Ok(
                                            User {
                                                id,
                                                name,
                                                email,
                                                location,
                                                profile,
                                                created,
                                                updated,
                                            },
                                        )
                                    } else {
                                        Err(Error::Serialize("record bytes do not decode as one whole record".to_string()))
                                    }
                                },
                            },
                        },
                    },
                },
            },
        },
    }
}

/// Whether two byte strings hold the same bytes.
pub fn bytes_eq(a: &[u8], b: &[u8]) -> (r: bool)
    ensures
        r == (a@ == b@),
{
    if a.len() != b.len() {
        proof {
            assert(a@ != b@);
        }
        return false;
    }
    let mut i: usize = 0;
    while i < a.len()
        invariant
            a@.len() == b@.len(),
            0 <= i <= a@.len(),
            forall|j: int| 0 <= j < i ==> a@[j] == b@[j],
        decreases a@.len() - i,
    {
        if *vstd::slice::slice_index_get(a, i) != *vstd::slice::slice_index_get(b, i) {
            proof {
                assert(a@[i as int] != b@[i as int]);
            }
            return false;
        }
        i = i + 1;
    }
    proof {
        assert(a@ =~= b@);
    }
    true
}

/// Decoding the encoding of a record yields the record back.
pub proof fn lemma_decoded_user_enc(u: UserView)
    requires
        user_encodable(u),
    ensures
        decoded_user(enc_user(u)) == Some(u),
{
    let d = enc_user(u);
    assert(d.subrange(0, d.len() as int) =~= d);
    lemma_parse_user_enc(d, 0, u);
}

} // verus!
