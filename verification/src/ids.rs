//! Task, plan and run identifiers: UUIDs, held as their 128-bit values.

use vstd::prelude::*;

verus! {

/// The value that `uuid::Uuid::parse_str` reads from `s`, or `None` where it fails.
pub uninterp spec fn uuid_from_text(s: Seq<char>) -> Option<u128>;

/// A lowercase hexadecimal digit.
pub open spec fn hex_digit(n: nat) -> char {
    if n < 10 {
        (48 + n) as char
    } else {
        (87 + n) as char
    }
}

/// The last `digits` hexadecimal digits of `v`, most significant first.
pub open spec fn hex_digits(v: nat, digits: nat) -> Seq<char>
    decreases digits,
{
    if digits == 0 {
        seq![]
    } else {
        hex_digits(v / 16, (digits - 1) as nat).push(hex_digit(v % 16))
    }
}

/// The hyphenated lowercase text of a UUID: 8-4-4-4-12 hexadecimal digits.
pub open spec fn uuid_text(v: u128) -> Seq<char> {
    let h = hex_digits(v as nat, 32);
    h.subrange(0, 8) + seq!['-'] + h.subrange(8, 12) + seq!['-'] + h.subrange(12, 16) + seq!['-']
        + h.subrange(16, 20) + seq!['-'] + h.subrange(20, 32)
}

/// `uuid::Uuid::parse_str`, the UUID as its 128-bit big-endian value.
/// The contract names the result `uuid_from_text`, and states that the crate's own
/// hyphenated text of a value reads back as that value; the text of the error is not stated.
#[verifier::external_body]
pub fn parse_uuid(s: &str) -> (r: Result<u128, String>)
    ensures
        r is Ok <==> uuid_from_text(s@) is Some,
        r matches Ok(v) ==> uuid_from_text(s@) == Some(v),
        r is Ok || !(exists|v: u128| s@ == uuid_text(v)),
        r matches Ok(v) ==> ((exists|w: u128| s@ == uuid_text(w)) ==> s@ == uuid_text(v)),
{
    match uuid::Uuid::parse_str(s) {
        Ok(u) => Ok(u.as_u128()),
        Err(e) => Err(e.to_string()),
    }
}

/// `uuid::Uuid::from_u128` then `to_string`; the contract claims that the text is the
/// hyphenated lowercase form, 8-4-4-4-12 hexadecimal digits of the value.
#[verifier::external_body]
pub fn uuid_to_text(v: u128) -> (s: String)
    ensures
        s@ == uuid_text(v),
{
    uuid::Uuid::from_u128(v).to_string()
}

/// Reads a UUID, taking the nil UUID (0) where the text is not one.
pub fn parse_uuid_or_nil(s: &str) -> (v: u128)
    ensures
        v == match uuid_from_text(s@) {
            Some(x) => x,
            None => 0,
        },
{
    match parse_uuid(s) {
        Ok(v) => v,
        Err(_) => 0,
    }
}

} // verus!
