//! Binary frame layouts: typed field access over a byte slice.
//!
//! A layout names a sequence of fields — fixed-width integers with an
//! endianness, fixed-size text or byte runs, and a final variable-size rest
//! — and a [`Frame`] interprets a byte slice under a layout, checking the
//! fixed fields' minimum size up front and reading each field at its
//! accumulated offset.

use vstd::prelude::*;
use vstd::slice::{slice_subrange, slice_to_vec};
use vstd::utf8::{valid_utf8, decode_utf8};
use crate::error::Error;

verus! {

/// Byte order of an integer field.
#[derive(Debug, Clone, Copy, PartialEq, Eq, Structural)]
pub enum Endian {
    /// Most significant byte first.
    Big,
    /// Least significant byte first.
    Little,
}

/// Frame-wide attributes.
#[derive(Debug, Clone, Copy, PartialEq, Eq, Structural)]
pub struct Attributes {
    /// An optional frame version.
    pub version: Option<u8>,
    /// The default byte order of integer fields.
    pub endian: Endian,
    /// Whether accessors check bounds.
    pub check: bool,
}

impl Default for Attributes {
    /// No version, big-endian integers, checking on.
    fn default() -> (r: Self)
        ensures
            r == (Attributes { version: None, endian: Endian::Big, check: true }),
    {
        Self { version: None, endian: Endian::Big, check: true }
    }
}

/// What one field of a layout holds.
#[derive(Debug, Clone, Copy, PartialEq, Eq, Structural)]
pub enum Kind {
    /// A fixed-width integer.
    Integer {
        /// Its width in bits: 8, 16, 32 or 64.
        bits: u8,
        /// Whether it is signed.
        signed: bool,
        /// Its byte order, when it differs from the frame's default.
        endian: Option<Endian>,
    },
    /// A fixed-size UTF-8 text run.
    Str {
        /// Its size in bytes.
        size: usize,
    },
    /// A fixed-size byte run.
    Bytes {
        /// Its size in bytes.
        size: usize,
    },
    /// Whatever bytes remain; only meaningful as the last field.
    Rest,
}

/// One field of a layout: its name and its kind.
#[derive(Debug, Clone)]
pub struct Field {
    /// The field's name.
    pub name: String,
    /// The field's kind.
    pub kind: Kind,
}

/// A frame layout: its name, its attributes, and its fields in order.
#[derive(Debug, Clone)]
pub struct Layout {
    /// The layout's name.
    pub name: String,
    /// Frame-wide attributes.
    pub attributes: Attributes,
    /// The fields, in byte order.
    pub fields: Vec<Field>,
}

// ---------------------------------------------------------------------------
// Sizes and offsets
// ---------------------------------------------------------------------------

/// The fixed byte size of a field; a rest field has none.
pub open spec fn spec_field_size(k: Kind) -> nat {
    match k {
        Kind::Integer { bits, .. } => (bits / 8) as nat,
        Kind::Str { size } => size as nat,
        Kind::Bytes { size } => size as nat,
        Kind::Rest => 0,
    }
}

/// The least number of bytes the fixed fields of a prefix of the layout
/// demand.
pub open spec fn spec_min_size(fields: Seq<Field>) -> nat
    decreases fields.len(),
{
    if fields.len() == 0 {
        0
    } else {
        spec_min_size(fields.drop_last()) + spec_field_size(fields.last().kind)
    }
}

/// The size of one field.
pub fn field_size(field: &Field) -> (r: usize)
    ensures
        r == spec_field_size(field.kind),
{
    match &field.kind {
        Kind::Integer { bits, .. } => (*bits / 8) as usize,
        Kind::Str { size } => *size,
        Kind::Bytes { size } => *size,
        Kind::Rest => 0,
    }
}

/// The least number of bytes the fixed fields of a layout demand; a rest
/// field adds nothing.
pub fn calculate_min_size(fields: &[Field]) -> (r: usize)
    requires
        spec_min_size(fields@) <= usize::MAX,
    ensures
        r == spec_min_size(fields@),
{
    let mut total: usize = 0;
    let mut i: usize = 0;
    while i < fields.len()
        invariant
            spec_min_size(fields@) <= usize::MAX,
            0 <= i <= fields@.len(),
            total == spec_min_size(fields@.take(i as int)),
        decreases fields@.len() - i,
    {
        proof {
            assert(fields@.take(i + 1).drop_last() =~= fields@.take(i as int));
            lemma_min_size_prefix(fields@, i + 1);
        }
        let sz = field_size(&fields[i]);
        total = total + sz;
        i = i + 1;
    }
    proof {
        assert(fields@.take(fields@.len() as int) =~= fields@);
    }
    total
}

/// A prefix of the layout never demands more than the whole layout.
proof fn lemma_min_size_prefix(fields: Seq<Field>, n: int)
    requires
        0 <= n <= fields.len(),
    ensures
        spec_min_size(fields.take(n)) <= spec_min_size(fields),
    decreases fields.len() - n,
{
    if n < fields.len() {
        lemma_min_size_prefix(fields, n + 1);
        assert(fields.take(n + 1).drop_last() =~= fields.take(n));
    } else {
        assert(fields.take(n) =~= fields);
    }
}

/// The byte offset of field `i`: the sizes of the fields before it.
pub open spec fn spec_field_offset(fields: Seq<Field>, i: int) -> nat {
    spec_min_size(fields.take(i))
}

/// The byte offset at which field `i` starts.
pub fn field_offset(fields: &[Field], i: usize) -> (r: usize)
    requires
        i <= fields@.len(),
        spec_min_size(fields@) <= usize::MAX,
    ensures
        r == spec_field_offset(fields@, i as int),
{
    let mut total: usize = 0;
    let mut j: usize = 0;
    while j < i
        invariant
            i <= fields@.len(),
            spec_min_size(fields@) <= usize::MAX,
            0 <= j <= i,
            total == spec_min_size(fields@.take(j as int)),
        decreases i - j,
    {
        proof {
            assert(fields@.take(j + 1).drop_last() =~= fields@.take(j as int));
            lemma_min_size_prefix(fields@, j + 1);
        }
        let sz = field_size(&fields[j]);
        total = total + sz;
        j = j + 1;
    }
    total
}

// ---------------------------------------------------------------------------
// Parsing field type names
// ---------------------------------------------------------------------------

/// The endianness a type name's suffix selects, if any.
pub open spec fn spec_endian_suffix(s: Seq<char>) -> Option<Endian> {
    if s.len() >= 3 && s[s.len() - 3] == '_' && s[s.len() - 2] == 'b' && s[s.len() - 1] == 'e' {
        Some(Endian::Big)
    } else if s.len() >= 3 && s[s.len() - 3] == '_' && s[s.len() - 2] == 'l' && s[s.len() - 1]
        == 'e' {
        Some(Endian::Little)
    } else {
        None
    }
}

/// The width and signedness a bare integer type name selects, if any.
pub open spec fn spec_int_base(s: Seq<char>) -> Option<(u8, bool)> {
    if s == seq!['u', '8'] {
        Some((8u8, false))
    } else if s == seq!['i', '8'] {
        Some((8u8, true))
    } else if s == seq!['u', '1', '6'] {
        Some((16u8, false))
    } else if s == seq!['i', '1', '6'] {
        Some((16u8, true))
    } else if s == seq!['u', '3', '2'] {
        Some((32u8, false))
    } else if s == seq!['i', '3', '2'] {
        Some((32u8, true))
    } else if s == seq!['u', '6', '4'] {
        Some((64u8, false))
    } else if s == seq!['i', '6', '4'] {
        Some((64u8, true))
    } else {
        None
    }
}

/// What an integer type name, with an optional endian suffix, selects.
pub open spec fn spec_parse_int(s: Seq<char>) -> Option<(u8, bool, Option<Endian>)> {
    let base = match spec_endian_suffix(s) {
        Some(_) => s.take(s.len() - 3),
        None => s,
    };
    match spec_int_base(base) {
        Some((bits, signed)) => Some((bits, signed, spec_endian_suffix(s))),
        None => None,
    }
}

/// The characters of a string, as a vector.
pub(crate) fn chars_of(s: &str) -> (r: Vec<char>)
    ensures
        r@ == s@,
{
    let n = s.unicode_len();
    let mut out: Vec<char> = Vec::new();
    let mut i: usize = 0;
    while i < n
        invariant
            n == s@.len(),
            0 <= i <= n,
            out@ == s@.take(i as int),
        decreases n - i,
    {
        let c = s.get_char(i);
        out.push(c);
        proof {
            assert(out@ =~= s@.take(i + 1));
        }
        i = i + 1;
    }
    proof {
        assert(s@.take(n as int) =~= s@);
    }
    out
}

fn int_base_of(cs: &Vec<char>, end: usize) -> (r: Option<(u8, bool)>)
    requires
        end <= cs@.len(),
    ensures
        r == spec_int_base(cs@.take(end as int)),
{
    if end == 2 && cs[0] == 'u' && cs[1] == '8' {
        proof {
            assert(cs@.take(2) =~= seq!['u', '8']);
        }
        Some((8, false))
    } else if end == 2 && cs[0] == 'i' && cs[1] == '8' {
        proof {
            assert(cs@.take(2) =~= seq!['i', '8']);
        }
        Some((8, true))
    } else if end == 3 && cs[0] == 'u' && cs[1] == '1' && cs[2] == '6' {
        proof {
            assert(cs@.take(3) =~= seq!['u', '1', '6']);
        }
        Some((16, false))
    } else if end == 3 && cs[0] == 'i' && cs[1] == '1' && cs[2] == '6' {
        proof {
            assert(cs@.take(3) =~= seq!['i', '1', '6']);
        }
        Some((16, true))
    } else if end == 3 && cs[0] == 'u' && cs[1] == '3' && cs[2] == '2' {
        proof {
            assert(cs@.take(3) =~= seq!['u', '3', '2']);
        }
        Some((32, false))
    } else if end == 3 && cs[0] == 'i' && cs[1] == '3' && cs[2] == '2' {
        proof {
            assert(cs@.take(3) =~= seq!['i', '3', '2']);
        }
        Some((32, true))
    } else if end == 3 && cs[0] == 'u' && cs[1] == '6' && cs[2] == '4' {
        proof {
            assert(cs@.take(3) =~= seq!['u', '6', '4']);
        }
        Some((64, false))
    } else if end == 3 && cs[0] == 'i' && cs[1] == '6' && cs[2] == '4' {
        proof {
            assert(cs@.take(3) =~= seq!['i', '6', '4']);
        }
        Some((64, true))
    } else {
        proof {
            let t = cs@.take(end as int);
            assert(t.len() == end);
            if end == 2 {
                assert(t[0] == cs@[0] && t[1] == cs@[1]);
                assert(t != seq!['u', '8'] || (t[0] == 'u' && t[1] == '8'));
                assert(t != seq!['i', '8'] || (t[0] == 'i' && t[1] == '8'));
            }
            if end == 3 {
                assert(t[0] == cs@[0] && t[1] == cs@[1] && t[2] == cs@[2]);
            }
            assert(spec_int_base(t) is None);
        }
        None
    }
}

// ---------------------------------------------------------------------------
// Sized type names: a prefix, a decimal size, a closing parenthesis
// ---------------------------------------------------------------------------

/// Whether the character is a decimal digit.
pub open spec fn spec_is_digit(c: char) -> bool {
    48 <= c as u32 <= 57
}

/// The value of a run of decimal digits.
pub open spec fn spec_digits_val(s: Seq<char>) -> int
    decreases s.len(),
{
    if s.len() == 0 {
        0
    } else {
        spec_digits_val(s.drop_last()) * 10 + (s.last() as u32 - 48)
    }
}

/// A digit run's value never shrinks as the run grows.
pub(crate) proof fn lemma_digits_val_mono(s: Seq<char>, j: int)
    requires
        0 <= j <= s.len(),
        forall|i: int| 0 <= i < s.len() ==> spec_is_digit(#[trigger] s[i]),
    ensures
        0 <= spec_digits_val(s.take(j)) <= spec_digits_val(s),
    decreases s.len() - j,
{
    if j == s.len() {
        assert(s.take(j) =~= s);
        lemma_digits_val_nonneg(s);
    } else {
        lemma_digits_val_mono(s, j + 1);
        assert(s.take(j + 1).drop_last() =~= s.take(j));
        lemma_digits_val_nonneg(s.take(j));
    }
}

pub(crate) proof fn lemma_digits_val_nonneg(s: Seq<char>)
    requires
        forall|i: int| 0 <= i < s.len() ==> spec_is_digit(#[trigger] s[i]),
    ensures
        spec_digits_val(s) >= 0,
    decreases s.len(),
{
    if s.len() > 0 {
        assert forall|i: int| 0 <= i < s.drop_last().len() implies spec_is_digit(
            #[trigger] s.drop_last()[i],
        ) by {
            assert(s.drop_last()[i] == s[i]);
        }
        lemma_digits_val_nonneg(s.drop_last());
    }
}

/// What a sized type name — the prefix, at least one digit, a closing
/// parenthesis — selects as its size.
pub open spec fn spec_sized(s: Seq<char>, prefix: Seq<char>) -> Option<int> {
    if s.len() >= prefix.len() + 2 && s.take(prefix.len() as int) == prefix && s.last() == ')' && {
        let mid = s.subrange(prefix.len() as int, s.len() - 1);
        (forall|i: int| 0 <= i < mid.len() ==> spec_is_digit(#[trigger] mid[i]))
            && spec_digits_val(mid) <= usize::MAX
    } {
        Some(spec_digits_val(s.subrange(prefix.len() as int, s.len() - 1)))
    } else {
        None
    }
}

/// Reads the decimal size out of a sized type name whose characters are
/// `cs`, between the prefix of length `plen` and the final parenthesis.
fn sized_of(cs: &Vec<char>, plen: usize) -> (r: Option<usize>)
    requires
        cs@.len() >= plen,
    ensures
        (r matches Some(v) ==> {
            let mid = cs@.subrange(plen as int, cs@.len() - 1);
            &&& cs@.len() >= plen + 2
            &&& cs@.last() == ')'
            &&& (forall|i: int| 0 <= i < mid.len() ==> spec_is_digit(#[trigger] mid[i]))
            &&& spec_digits_val(mid) == v
        }),
        (r is None ==> !(cs@.len() >= plen + 2 && cs@.last() == ')' && {
            let mid = cs@.subrange(plen as int, cs@.len() - 1);
            (forall|i: int| 0 <= i < mid.len() ==> spec_is_digit(#[trigger] mid[i]))
                && spec_digits_val(mid) <= usize::MAX
        })),
{
    let n = cs.len();
    if n - plen < 2 || cs[n - 1] != ')' {
        return None;
    }
    let ghost mid = cs@.subrange(plen as int, cs@.len() - 1);
    let mut acc: usize = 0;
    let mut j: usize = plen;
    while j < n - 1
        invariant
            cs@.len() == n,
            n >= plen + 2,
            plen <= j <= n - 1,
            mid == cs@.subrange(plen as int, cs@.len() - 1),
            forall|i: int| 0 <= i < j - plen ==> spec_is_digit(#[trigger] mid[i]),
            acc == spec_digits_val(mid.take(j - plen)),
        decreases n - j,
    {
        let cu = cs[j] as u32;
        if cu < 48 || cu > 57 {
            proof {
                assert(mid[j - plen] == cs@[j as int]);
                assert(!spec_is_digit(mid[j - plen]));
            }
            return None;
        }
        let d = (cu - 48) as usize;
        proof {
            assert(mid.take(j - plen + 1).drop_last() =~= mid.take(j - plen));
            assert(mid.take(j - plen + 1).last() == cs@[j as int]);
        }
        if acc > (usize::MAX - d) / 10 {
            proof {
                lemma_digits_val_nonneg(mid.take(j - plen));
                assert(spec_digits_val(mid.take(j - plen + 1)) > usize::MAX);
                if forall|i: int| 0 <= i < mid.len() ==> spec_is_digit(#[trigger] mid[i]) {
                    lemma_digits_val_mono(mid, j - plen + 1);
                }
            }
            return None;
        }
        acc = acc * 10 + d;
        j = j + 1;
    }
    proof {
        assert(mid.take(n - 1 - plen) =~= mid);
    }
    Some(acc)
}

impl Layout {
    /// Reads an integer type name — a width with an optional `_be` or `_le`
    /// suffix — into its width, signedness and byte order.
    pub fn parse_int(ident: &str) -> (r: Option<(u8, bool, Option<Endian>)>)
        ensures
            r == spec_parse_int(ident@),
    {
        let cs = chars_of(ident);
        let n = cs.len();
        let suffix: Option<Endian> = if n >= 3 && cs[n - 3] == '_' && cs[n - 2] == 'b' && cs[n - 1]
            == 'e' {
            Some(Endian::Big)
        } else if n >= 3 && cs[n - 3] == '_' && cs[n - 2] == 'l' && cs[n - 1] == 'e' {
            Some(Endian::Little)
        } else {
            None
        };
        let end = match suffix {
            Some(_) => n - 3,
            None => n,
        };
        proof {
            if suffix is None {
                assert(cs@.take(n as int) =~= cs@);
            }
        }
        match int_base_of(&cs, end) {
            Some((bits, signed)) => Some((bits, signed, suffix)),
            None => None,
        }
    }

    /// Reads a sized text type name, `str(` then a size then `)`, into its
    /// kind.  Fails with a `Format` error on any other shape or a size that
    /// does not fit.
    pub fn parse_str(ident: &str) -> (r: Result<Kind, Error>)
        ensures
            r matches Ok(k) ==> (spec_sized(ident@, seq!['s', 't', 'r', '(']) matches Some(v) && k
                == Kind::Str { size: v as usize }),
            spec_sized(ident@, seq!['s', 't', 'r', '(']) is Some ==> r is Ok,
            r matches Err(e) ==> e matches Error::Format(_),
    {
        let cs = chars_of(ident);
        let ghost prefix = seq!['s', 't', 'r', '('];
        if cs.len() < 4 || cs[0] != 's' || cs[1] != 't' || cs[2] != 'r' || cs[3] != '(' {
            proof {
                if cs@.len() >= 4 {
                    assert(cs@.take(4)[0] == cs@[0]);
                    assert(cs@.take(4)[1] == cs@[1]);
                    assert(cs@.take(4)[2] == cs@[2]);
                    assert(cs@.take(4)[3] == cs@[3]);
                    assert(cs@.take(4) != prefix);
                }
            }
            return Err(Error::Format("expected str(n)".to_string()));
        }
        proof {
            assert(cs@.take(4) =~= prefix);
        }
        match sized_of(&cs, 4) {
            Some(size) => Ok(Kind::Str { size }),
            None => Err(Error::Format("expected str(n)".to_string())),
        }
    }

    /// Reads a sized byte-run type name, `bytes(` then a size then `)`,
    /// into its kind.  Fails with a `Format` error on any other shape or a
    /// size that does not fit.
    pub fn parse_bytes(ident: &str) -> (r: Result<Kind, Error>)
        ensures
            r matches Ok(k) ==> (spec_sized(ident@, seq!['b', 'y', 't', 'e', 's', '(']) matches Some(
                v,
            ) && k == Kind::Bytes { size: v as usize }),
            spec_sized(ident@, seq!['b', 'y', 't', 'e', 's', '(']) is Some ==> r is Ok,
            r matches Err(e) ==> e matches Error::Format(_),
    {
        let cs = chars_of(ident);
        let ghost prefix = seq!['b', 'y', 't', 'e', 's', '('];
        if cs.len() < 6 || cs[0] != 'b' || cs[1] != 'y' || cs[2] != 't' || cs[3] != 'e' || cs[4]
            != 's' || cs[5] != '(' {
            proof {
                if cs@.len() >= 6 {
                    assert(cs@.take(6)[0] == cs@[0]);
                    assert(cs@.take(6)[1] == cs@[1]);
                    assert(cs@.take(6)[2] == cs@[2]);
                    assert(cs@.take(6)[3] == cs@[3]);
                    assert(cs@.take(6)[4] == cs@[4]);
                    assert(cs@.take(6)[5] == cs@[5]);
                    assert(cs@.take(6) != prefix);
                }
            }
            return Err(Error::Format("expected bytes(n)".to_string()));
        }
        proof {
            assert(cs@.take(6) =~= prefix);
        }
        match sized_of(&cs, 6) {
            Some(size) => Ok(Kind::Bytes { size }),
            None => Err(Error::Format("expected bytes(n)".to_string())),
        }
    }

    /// Classifies a field type name: an integer with an optional endian
    /// suffix, a sized text or byte run, or the rest of the frame.  Fails
    /// with a `Format` error on anything else.
    pub fn parse_type(ident: &str, default_endian: &Endian) -> (r: Result<Kind, Error>)
        ensures
            r matches Ok(k) ==> (k matches Kind::Integer { bits, signed, endian } ==> (
            spec_parse_int(ident@) matches Some(t) && bits == t.0 && signed == t.1 && endian == (
            match t.2 {
                Some(e) => Some(e),
                None => Some(*default_endian),
            }))),
            spec_parse_int(ident@) matches Some(t) ==> (r matches Ok(k) && k == (Kind::Integer {
                bits: t.0,
                signed: t.1,
                endian: match t.2 {
                    Some(e) => Some(e),
                    None => Some(*default_endian),
                },
            })),
            ident@ == seq!['r', 'e', 's', 't'] ==> r == Ok::<Kind, Error>(Kind::Rest),
            spec_sized(ident@, seq!['s', 't', 'r', '(']) matches Some(v) ==> r == Ok::<
                Kind,
                Error,
            >(Kind::Str { size: v as usize }),
            spec_sized(ident@, seq!['b', 'y', 't', 'e', 's', '(']) matches Some(v) ==> r == Ok::<
                Kind,
                Error,
            >(Kind::Bytes { size: v as usize }),
            r matches Err(e) ==> e matches Error::Format(_),
            r matches Ok(k) ==> match k {
                Kind::Integer { .. } => spec_parse_int(ident@) is Some,
                Kind::Str { size } => spec_sized(ident@, seq!['s', 't', 'r', '(']) == Some(
                    size as int,
                ),
                Kind::Bytes { size } => spec_sized(ident@, seq!['b', 'y', 't', 'e', 's', '('])
                    == Some(size as int),
                Kind::Rest => ident@ == seq!['r', 'e', 's', 't'],
            },
            r is Ok <==> (spec_parse_int(ident@) is Some || ident@ == seq!['r', 'e', 's', 't']
                || spec_sized(ident@, seq!['s', 't', 'r', '(']) is Some || spec_sized(
                ident@,
                seq!['b', 'y', 't', 'e', 's', '('],
            ) is Some),
    {
        match Layout::parse_int(ident) {
            Some((bits, signed, suffix)) => {
                let endian = match suffix {
                    Some(e) => Some(e),
                    None => Some(*default_endian),
                };
                return Ok(Kind::Integer { bits, signed, endian });
            },
            None => {},
        }
        let cs = chars_of(ident);
        if cs.len() == 4 && cs[0] == 'r' && cs[1] == 'e' && cs[2] == 's' && cs[3] == 't' {
            proof {
                assert(cs@ =~= seq!['r', 'e', 's', 't']);
            }
            return Ok(Kind::Rest);
        }
        proof {
            if cs@.len() == 4 {
                assert(seq!['r', 'e', 's', 't'][0] == 'r');
                assert(seq!['r', 'e', 's', 't'][1] == 'e');
                assert(seq!['r', 'e', 's', 't'][2] == 's');
                assert(seq!['r', 'e', 's', 't'][3] == 't');
            }
            // A sized name never parses as an integer, and `rest` parses as
            // neither, so the dispatch order cannot mask a case.
            assert(spec_sized(cs@, seq!['s', 't', 'r', '(']) is Some ==> cs@.len() >= 6);
            assert(spec_sized(cs@, seq!['b', 'y', 't', 'e', 's', '(']) is Some ==> cs@.len() >= 8);
        }
        if cs.len() >= 4 && cs[0] == 's' && cs[1] == 't' && cs[2] == 'r' {
            let r = Layout::parse_str(ident);
            proof {
                if spec_sized(cs@, seq!['b', 'y', 't', 'e', 's', '(']) is Some {
                    assert(cs@.take(6)[0] == cs@[0]);
                    assert(false);
                }
                assert(seq!['r', 'e', 's', 't'][0] == 'r');
                assert(cs@ != seq!['r', 'e', 's', 't']);
                if spec_sized(cs@, seq!['s', 't', 'r', '(']) is Some {
                    lemma_digits_val_nonneg(cs@.subrange(4, cs@.len() - 1));
                }
            }
            return r;
        }
        if cs.len() >= 6 && cs[0] == 'b' && cs[1] == 'y' && cs[2] == 't' && cs[3] == 'e' && cs[4]
            == 's' {
            let r = Layout::parse_bytes(ident);
            proof {
                if spec_sized(cs@, seq!['s', 't', 'r', '(']) is Some {
                    assert(cs@.take(4)[0] == cs@[0]);
                    assert(false);
                }
                assert(seq!['r', 'e', 's', 't'][0] == 'r');
                assert(cs@ != seq!['r', 'e', 's', 't']);
                if spec_sized(cs@, seq!['b', 'y', 't', 'e', 's', '(']) is Some {
                    lemma_digits_val_nonneg(cs@.subrange(6, cs@.len() - 1));
                }
            }
            return r;
        }
        proof {
            if spec_sized(cs@, seq!['s', 't', 'r', '(']) is Some {
                assert(cs@.take(4)[0] == cs@[0]);
                assert(cs@.take(4)[1] == cs@[1]);
                assert(cs@.take(4)[2] == cs@[2]);
                assert(false);
            }
            if spec_sized(cs@, seq!['b', 'y', 't', 'e', 's', '(']) is Some {
                assert(cs@.take(6)[0] == cs@[0]);
                assert(cs@.take(6)[1] == cs@[1]);
                assert(cs@.take(6)[2] == cs@[2]);
                assert(cs@.take(6)[3] == cs@[3]);
                assert(cs@.take(6)[4] == cs@[4]);
                assert(false);
            }
        }
        Err(Error::Format("unsupported field type".to_string()))
    }
}

// ---------------------------------------------------------------------------
// Reading fields out of a byte slice
// ---------------------------------------------------------------------------

/// The value of big-endian bytes: most significant first.
pub open spec fn spec_be_val(s: Seq<u8>) -> nat
    decreases s.len(),
{
    if s.len() == 0 {
        0
    } else {
        (spec_be_val(s.drop_last()) * 256 + s.last()) as nat
    }
}

/// The value of little-endian bytes: least significant first.
pub open spec fn spec_le_val(s: Seq<u8>) -> nat
    decreases s.len(),
{
    if s.len() == 0 {
        0
    } else {
        (s.first() + 256 * spec_le_val(s.drop_first())) as nat
    }
}

/// 256 to the power `n`.
pub open spec fn pow256(n: nat) -> nat
    decreases n,
{
    if n == 0 {
        1nat
    } else {
        256 * pow256((n - 1) as nat)
    }
}

/// A frame: a byte slice interpreted under a layout.
pub struct Frame<'a> {
    layout: &'a Layout,
    source: &'a [u8],
}

impl<'a> Frame<'a> {
    /// The layout the frame is read under.
    pub closed spec fn layout_spec(self) -> Layout {
        *self.layout
    }

    /// The bytes the frame reads.
    pub closed spec fn source_spec(self) -> Seq<u8> {
        self.source@
    }

    /// The source covers every fixed field.
    pub open spec fn wf(self) -> bool {
        spec_min_size(self.layout_spec().fields@) <= self.source_spec().len()
            && self.source_spec().len() <= usize::MAX
    }

    /// Interprets the bytes under the layout, after checking that they
    /// cover every fixed field.  Fails with a `Format` error exactly when
    /// they are too short.
    pub fn new(layout: &'a Layout, source: &'a [u8]) -> (r: Result<Frame<'a>, Error>)
        requires
            spec_min_size(layout.fields@) <= usize::MAX,
        ensures
            r matches Ok(f) ==> f.wf() && f.layout_spec() == *layout && f.source_spec() == source@,
            r is Ok <==> source@.len() >= spec_min_size(layout.fields@),
            r matches Err(e) ==> e matches Error::Format(_),
    {
        let min_size = calculate_min_size(layout.fields.as_slice());
        if source.len() < min_size {
            return Err(Error::Format("frame shorter than its fixed fields".to_string()));
        }
        Ok(Frame { layout, source })
    }

    /// The whole frame's size in bytes.
    pub fn size(&self) -> (r: usize)
        ensures
            r == self.source_spec().len(),
    {
        self.source.len()
    }

    /// The frame's version, when the layout declares one.
    pub fn version(&self) -> (r: Option<u8>)
        ensures
            r == self.layout_spec().attributes.version,
    {
        self.layout.attributes.version
    }

    /// The value of the unsigned integer field at index `i`: its bytes at
    /// the field's offset, read under the field's byte order.  Fails with a
    /// `Format` error exactly when the field is not an unsigned integer.
    pub fn unsigned(&self, i: usize) -> (r: Result<u64, Error>)
        requires
            self.wf(),
            i < self.layout_spec().fields@.len(),
        ensures
            r matches Ok(v) ==> (self.layout_spec().fields@[i as int].kind matches Kind::Integer {
                bits,
                signed,
                endian,
            } && !signed && v == spec_uint_field(
                self.source_spec(),
                spec_field_offset(self.layout_spec().fields@, i as int),
                bits,
                endian,
            )),
            (self.layout_spec().fields@[i as int].kind matches Kind::Integer {
                bits,
                signed,
                ..
            } && !signed && (bits == 8 || bits == 16 || bits == 32 || bits == 64)) <==> r is Ok,
            r matches Err(e) ==> e matches Error::Format(_),
    {
        let (bits, endian) = match &self.layout.fields[i].kind {
            Kind::Integer { bits, signed, endian } => {
                if *signed {
                    return Err(Error::Format("field is not an unsigned integer".to_string()));
                }
                if *bits != 8 && *bits != 16 && *bits != 32 && *bits != 64 {
                    return Err(Error::Format("unsupported integer width".to_string()));
                }
                (*bits, *endian)
            },
            _ => {
                return Err(Error::Format("field is not an unsigned integer".to_string()));
            },
        };
        let off = field_offset(self.layout.fields.as_slice(), i);
        let width = (bits / 8) as usize;
        proof {
            let f = self.layout_spec().fields@;
            assert(f.take(i + 1).drop_last() =~= f.take(i as int));
            assert(f.take(i + 1).last() == f[i as int]);
            lemma_min_size_prefix(f, i + 1);
            assert(spec_min_size(f.take(i + 1)) == spec_min_size(f.take(i as int))
                + spec_field_size(f[i as int].kind));
        }
        let sub = slice_subrange(self.source, off, off + width);
        let little: bool = match endian {
            Some(Endian::Little) => true,
            _ => false,
        };
        let v = if little {
            read_le(sub)
        } else {
            read_be(sub)
        };
        Ok(v)
    }

    /// The value of the signed integer field at index `i`: its bytes at the
    /// field's offset, read under the field's byte order as a two's
    /// complement value.  Fails with a `Format` error exactly when the
    /// field is not a signed integer.
    pub fn signed(&self, i: usize) -> (r: Result<i64, Error>)
        requires
            self.wf(),
            i < self.layout_spec().fields@.len(),
        ensures
            r matches Ok(v) ==> (self.layout_spec().fields@[i as int].kind matches Kind::Integer {
                bits,
                signed,
                endian,
            } && signed && v == spec_sint_field(
                self.source_spec(),
                spec_field_offset(self.layout_spec().fields@, i as int),
                bits,
                endian,
            )),
            (self.layout_spec().fields@[i as int].kind matches Kind::Integer {
                bits,
                signed,
                ..
            } && signed && (bits == 8 || bits == 16 || bits == 32 || bits == 64)) <==> r is Ok,
            r matches Err(e) ==> e matches Error::Format(_),
    {
        let (bits, endian) = match &self.layout.fields[i].kind {
            Kind::Integer { bits, signed, endian } => {
                if !*signed {
                    return Err(Error::Format("field is not a signed integer".to_string()));
                }
                if *bits != 8 && *bits != 16 && *bits != 32 && *bits != 64 {
                    return Err(Error::Format("unsupported integer width".to_string()));
                }
                (*bits, *endian)
            },
            _ => {
                return Err(Error::Format("field is not a signed integer".to_string()));
            },
        };
        let off = field_offset(self.layout.fields.as_slice(), i);
        let width = (bits / 8) as usize;
        proof {
            let f = self.layout_spec().fields@;
            assert(f.take(i + 1).drop_last() =~= f.take(i as int));
            assert(f.take(i + 1).last() == f[i as int]);
            lemma_min_size_prefix(f, i + 1);
            assert(spec_min_size(f.take(i + 1)) == spec_min_size(f.take(i as int))
                + spec_field_size(f[i as int].kind));
        }
        let sub = slice_subrange(self.source, off, off + width);
        let little: bool = match endian {
            Some(Endian::Little) => true,
            _ => false,
        };
        let u = if little {
            read_le(sub)
        } else {
            read_be(sub)
        };
        let v: i64 = if bits == 8 {
            ((u as u8) as i8) as i64
        } else if bits == 16 {
            ((u as u16) as i16) as i64
        } else if bits == 32 {
            ((u as u32) as i32) as i64
        } else {
            u as i64
        };
        Ok(v)
    }

    /// The bytes of the field at index `i`: a fixed run for a byte-run
    /// field, everything from the field's offset on for a rest field.
    /// Fails with a `Format` error exactly when the field is neither.
    pub fn raw(&self, i: usize) -> (r: Result<Vec<u8>, Error>)
        requires
            self.wf(),
            i < self.layout_spec().fields@.len(),
        ensures
            r matches Ok(b) ==> {
                let off = spec_field_offset(self.layout_spec().fields@, i as int);
                match self.layout_spec().fields@[i as int].kind {
                    Kind::Bytes { size } => b@ == self.source_spec().subrange(
                        off as int,
                        off + size,
                    ),
                    Kind::Rest => b@ == self.source_spec().subrange(
                        off as int,
                        self.source_spec().len() as int,
                    ),
                    _ => false,
                }
            },
            (self.layout_spec().fields@[i as int].kind matches Kind::Bytes { .. } || self
                .layout_spec().fields@[i as int].kind matches Kind::Rest) <==> r is Ok,
            r matches Err(e) ==> e matches Error::Format(_),
    {
        proof {
            let f = self.layout_spec().fields@;
            assert(f.take(i + 1).drop_last() =~= f.take(i as int));
            assert(f.take(i + 1).last() == f[i as int]);
            lemma_min_size_prefix(f, i + 1);
            assert(spec_min_size(f.take(i + 1)) == spec_min_size(f.take(i as int))
                + spec_field_size(f[i as int].kind));
        }
        let off = field_offset(self.layout.fields.as_slice(), i);
        match &self.layout.fields[i].kind {
            Kind::Bytes { size } => {
                let sub = slice_subrange(self.source, off, off + *size);
                Ok(slice_to_vec(sub))
            },
            Kind::Rest => {
                let sub = slice_subrange(self.source, off, self.source.len());
                Ok(slice_to_vec(sub))
            },
            _ => Err(Error::Format("field is not a byte run".to_string())),
        }
    }

    /// The text of the fixed-size text field at index `i`: its bytes
    /// decoded as UTF-8, or the empty string when they are not valid UTF-8.
    /// Fails with a `Format` error exactly when the field is not text.
    pub fn text(&self, i: usize) -> (r: Result<String, Error>)
        requires
            self.wf(),
            i < self.layout_spec().fields@.len(),
        ensures
            r matches Ok(s) ==> {
                let off = spec_field_offset(self.layout_spec().fields@, i as int);
                match self.layout_spec().fields@[i as int].kind {
                    Kind::Str { size } => {
                        let sub = self.source_spec().subrange(off as int, off + size);
                        s@ == if valid_utf8(sub) {
                            decode_utf8(sub)
                        } else {
                            Seq::<char>::empty()
                        }
                    },
                    _ => false,
                }
            },
            (self.layout_spec().fields@[i as int].kind matches Kind::Str { .. }) <==> r is Ok,
            r matches Err(e) ==> e matches Error::Format(_),
    {
        proof {
            let f = self.layout_spec().fields@;
            assert(f.take(i + 1).drop_last() =~= f.take(i as int));
            assert(f.take(i + 1).last() == f[i as int]);
            lemma_min_size_prefix(f, i + 1);
            assert(spec_min_size(f.take(i + 1)) == spec_min_size(f.take(i as int))
                + spec_field_size(f[i as int].kind));
        }
        let off = field_offset(self.layout.fields.as_slice(), i);
        match &self.layout.fields[i].kind {
            Kind::Str { size } => {
                let sub = slice_subrange(self.source, off, off + *size);
                match crate::codec::bytes_to_string(slice_to_vec(sub)) {
                    Some(s) => {
                        proof {
                            vstd::utf8::encode_utf8_valid_utf8(s@);
                            vstd::utf8::encode_utf8_decode_utf8(s@);
                        }
                        Ok(s)
                    },
                    None => Ok(String::new()),
                }
            },
            _ => Err(Error::Format("field is not text".to_string())),
        }
    }
}

/// The value of an unsigned integer field: the `bits / 8` bytes at `off`,
/// under the given byte order (big-endian when none is named).
pub open spec fn spec_uint_field(d: Seq<u8>, off: nat, bits: u8, endian: Option<Endian>) -> u64 {
    let sub = d.subrange(off as int, off as int + (bits / 8) as int);
    match endian {
        Some(Endian::Little) => spec_le_val(sub) as u64,
        _ => spec_be_val(sub) as u64,
    }
}

/// The value of a signed integer field: the unsigned value of its bytes,
/// reinterpreted as a two's complement value of the field's width.
pub open spec fn spec_sint_field(d: Seq<u8>, off: nat, bits: u8, endian: Option<Endian>) -> i64 {
    let u = spec_uint_field(d, off, bits, endian);
    if bits == 8 {
        ((u as u8) as i8) as i64
    } else if bits == 16 {
        ((u as u16) as i16) as i64
    } else if bits == 32 {
        ((u as u32) as i32) as i64
    } else {
        u as i64
    }
}

/// Reads big-endian bytes into their value.
fn read_be(s: &[u8]) -> (r: u64)
    requires
        s@.len() <= 8,
    ensures
        r == spec_be_val(s@),
{
    let mut acc: u64 = 0;
    let mut i: usize = 0;
    while i < s.len()
        invariant
            s@.len() <= 8,
            0 <= i <= s@.len(),
            acc == spec_be_val(s@.take(i as int)),
            acc < pow256(i as nat),
        decreases s@.len() - i,
    {
        proof {
            assert(s@.take(i + 1).drop_last() =~= s@.take(i as int));
            lemma_pow256_bound(i as nat);
        }
        acc = acc * 256 + (*vstd::slice::slice_index_get(s, i)) as u64;
        i = i + 1;
    }
    proof {
        assert(s@.take(s@.len() as int) =~= s@);
    }
    acc
}

/// Reads little-endian bytes into their value.
fn read_le(s: &[u8]) -> (r: u64)
    requires
        s@.len() <= 8,
    ensures
        r == spec_le_val(s@),
{
    let mut acc: u64 = 0;
    let mut i: usize = s.len();
    while i > 0
        invariant
            s@.len() <= 8,
            0 <= i <= s@.len(),
            acc == spec_le_val(s@.skip(i as int)),
            acc < pow256((s@.len() - i) as nat),
        decreases i,
    {
        proof {
            assert(s@.skip(i - 1).drop_first() =~= s@.skip(i as int));
            assert(s@.skip(i - 1).first() == s@[i - 1]);
            lemma_pow256_bound((s@.len() - i) as nat);
        }
        i = i - 1;
        acc = acc * 256 + (*vstd::slice::slice_index_get(s, i)) as u64;
    }
    proof {
        assert(s@.skip(0) =~= s@);
    }
    acc
}

proof fn lemma_pow256_bound(n: nat)
    requires
        n <= 7,
    ensures
        pow256(n) <= 0x100000000000000,
{
    reveal_with_fuel(pow256, 9);
}

} // verus!
