//! Numerical Canvas IDs, their byte representations and their decimal text.
use crate::bytes::{
    be_bytes_u64, le_bytes_u64, lemma_u64_be_roundtrip, lemma_u64_le_roundtrip, u64_from_be,
    u64_from_le,
};
use std::num::ParseIntError;
use vstd::prelude::*;

verus! {

/// A numerical Canvas ID.
#[derive(Debug, Clone, Copy, PartialEq, Eq, Hash, Structural)]
pub struct Id(u64);

impl View for Id {
    type V = u64;

    closed spec fn view(&self) -> u64 {
        self.0
    }
}

/// The decimal digit for `d < 10`.
pub open spec fn digit_char(d: nat) -> char {
    (('0' as u32) + d) as char
}

/// The decimal representation of `x`, without sign or leading zeros.
pub open spec fn decimal_digits(x: nat) -> Seq<char>
    decreases x,
{
    if x < 10 {
        seq![digit_char(x)]
    } else {
        decimal_digits(x / 10).push(digit_char(x % 10))
    }
}

/// Whether every character is an ASCII decimal digit.
pub open spec fn all_digits(s: Seq<char>) -> bool {
    forall|i: int| 0 <= i < s.len() ==> '0' <= #[trigger] s[i] <= '9'
}

/// The value of a sequence of decimal digits.
pub open spec fn digits_value(s: Seq<char>) -> nat
    decreases s.len(),
{
    if s.len() == 0 {
        0
    } else {
        digits_value(s.drop_last()) * 10 + ((s.last() as u32) - ('0' as u32)) as nat
    }
}

/// What `u64::from_str` accepts: an optional `+` followed by at least one
/// decimal digit, with a value that fits in 64 bits.
pub open spec fn decimal_u64(s: Seq<char>) -> Option<u64> {
    let d = if s.len() > 0 && s[0] == '+' {
        s.drop_first()
    } else {
        s
    };
    if d.len() > 0 && all_digits(d) && digits_value(d) <= u64::MAX {
        Some(digits_value(d) as u64)
    } else {
        None
    }
}

/// The std error of integer parsing.
#[verifier::external_type_specification]
#[verifier::external_body]
pub struct ExParseIntError(ParseIntError);

/// `u64::to_string`: std's `Display` for integers writes the decimal digits,
/// without sign or padding.
#[verifier::external_body]
pub(crate) fn u64_decimal(x: u64) -> (s: String)
    ensures
        s@ == decimal_digits(x as nat),
{
    x.to_string()
}

/// `str::parse::<u64>`: std documents that it accepts exactly an optional
/// `+` followed by decimal digits whose value fits, and fails otherwise.
#[verifier::external_body]
fn parse_u64(s: &str) -> (r: Result<u64, ParseIntError>)
    ensures
        r is Ok <==> decimal_u64(s@) is Some,
        r matches Ok(v) ==> decimal_u64(s@) == Some(v),
{
    s.parse::<u64>()
}

/// The decimal digits of a number are digits, begin with a digit and spell
/// out the number.
pub proof fn lemma_decimal_digits(x: nat)
    ensures
        decimal_digits(x).len() > 0,
        all_digits(decimal_digits(x)),
        digits_value(decimal_digits(x)) == x,
    decreases x,
{
    if x >= 10 {
        lemma_decimal_digits(x / 10);
        let s = decimal_digits(x);
        assert(s.drop_last() =~= decimal_digits(x / 10));
        assert forall|i: int| 0 <= i < s.len() implies '0' <= #[trigger] s[i] <= '9' by {
            if i < s.len() - 1 {
                assert(s[i] == decimal_digits(x / 10)[i]);
            }
        }
        assert(s.last() == digit_char(x % 10));
        assert((digit_char(x % 10) as u32) == 48 + x % 10);
        assert(digits_value(s) == digits_value(decimal_digits(x / 10)) * 10 + x % 10);
        assert(x == (x / 10) * 10 + x % 10) by (nonlinear_arith);
        assert(digits_value(s) == x);
    } else {
        let s = decimal_digits(x);
        assert(s.drop_last() =~= Seq::<char>::empty());
        assert((digit_char(x) as u32) == 48 + x);
        assert(digits_value(s) == digits_value(s.drop_last()) * 10 + ((s.last() as u32) - 48) as nat);
        assert(digits_value(s) == x);
    }
}

impl Id {
    /// Creates a new ID from a numerical value.
    pub fn new(id: u64) -> (r: Id)
        ensures
            r@ == id,
    {
        Id(id)
    }

    /// Creates an ID from its big-endian byte representation.
    pub fn from_be_bytes(bytes: [u8; 8]) -> (r: Id)
        ensures
            r@ == u64_from_be(bytes@),
    {
        Id(crate::bytes::u64_from_be_bytes(bytes))
    }

    /// Creates an ID from its little-endian byte representation.
    pub fn from_le_bytes(bytes: [u8; 8]) -> (r: Id)
        ensures
            r@ == u64_from_le(bytes@),
    {
        Id(crate::bytes::u64_from_le_bytes(bytes))
    }

    /// Returns the big-endian byte representation of this ID.
    pub fn to_be_bytes(self) -> (r: [u8; 8])
        ensures
            r@ == be_bytes_u64(self@),
    {
        crate::bytes::u64_to_be_bytes(self.0)
    }

    /// Returns the big-endian byte representation of this ID, as `to_be_bytes`
    /// does: the most significant byte comes first, so the ID 1 gives
    /// `[0, 0, 0, 0, 0, 0, 0, 1]`; `from_be_bytes` reads it back.
    pub fn to_le_bytes(self) -> (r: [u8; 8])
        ensures
            r@ == be_bytes_u64(self@),
    {
        crate::bytes::u64_to_be_bytes(self.0)
    }

    /// The decimal text of this ID (what `Display` writes).
    pub fn to_string(&self) -> (r: String)
        ensures
            r@ == decimal_digits(self@ as nat),
    {
        u64_decimal(self.0)
    }

    /// Parses an ID from decimal text, as `u64` parses.
    pub fn from_str(s: &str) -> (r: Result<Id, ParseIntError>)
        ensures
            r is Ok <==> decimal_u64(s@) is Some,
            r matches Ok(id) ==> decimal_u64(s@) == Some(id@),
    {
        match parse_u64(s) {
            Ok(v) => Ok(Id(v)),
            Err(e) => Err(e),
        }
    }
}

impl std::str::FromStr for Id {
    type Err = ParseIntError;

    fn from_str(s: &str) -> (r: Result<Self, Self::Err>)
        ensures
            r is Ok <==> decimal_u64(s@) is Some,
            r matches Ok(id) ==> decimal_u64(s@) == Some(id@),
    {
        Id::from_str(s)
    }
}

impl From<u64> for Id {
    fn from(value: u64) -> (r: Id) {
        Id(value)
    }
}

impl vstd::std_specs::convert::FromSpecImpl<u64> for Id {
    open spec fn obeys_from_spec() -> bool {
        true
    }

    closed spec fn from_spec(value: u64) -> Id {
        Id(value)
    }
}

impl From<Id> for u64 {
    fn from(id: Id) -> (r: u64) {
        id.0
    }
}

impl vstd::std_specs::convert::FromSpecImpl<Id> for u64 {
    open spec fn obeys_from_spec() -> bool {
        true
    }

    open spec fn from_spec(id: Id) -> u64 {
        id@
    }
}

/// An ID is its numerical value: IDs with equal values are equal, and the
/// conversion from `u64` keeps the value (the one to `u64` is `@` itself).
pub proof fn lemma_id_value(a: Id, b: Id, x: u64)
    ensures
        a@ == b@ <==> a == b,
        <Id as vstd::std_specs::convert::FromSpec<u64>>::from_spec(x)@ == x,
{
}

/// The byte representations of an ID give the ID back.
pub proof fn lemma_id_bytes_roundtrip(id: Id)
    ensures
        u64_from_be(be_bytes_u64(id@)) == id@,
        u64_from_le(le_bytes_u64(id@)) == id@,
{
    lemma_u64_be_roundtrip(id@);
    lemma_u64_le_roundtrip(id@);
}

/// The decimal text of an ID parses back to the ID.
pub proof fn lemma_id_text_roundtrip(id: Id)
    ensures
        decimal_u64(decimal_digits(id@ as nat)) == Some(id@),
{
    let s = decimal_digits(id@ as nat);
    lemma_decimal_digits(id@ as nat);
    assert(s[0] != '+');
}

} // verus!
