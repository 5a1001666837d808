//! Item ids and the text form of timestamps, each taken from the outside
//! crate that provides it.

use vstd::prelude::*;

verus! {

/// What `chrono` gives for the RFC 3339 text of the instant `m` microseconds
/// after the epoch (`DateTime::<Utc>::from_timestamp_micros`, then
/// `to_rfc3339`); `None` where the instant is out of chrono's range.
pub uninterp spec fn rfc3339_of_micros(m: i64) -> Option<Seq<char>>;

/// What `chrono` gives for the instant that `s` names (`s.parse::<DateTime<Utc>>()`,
/// then `timestamp_micros`); `None` where `s` does not parse.
pub uninterp spec fn micros_of_rfc3339(s: Seq<char>) -> Option<i64>;

/// The instants from 0000-01-01T00:00:00Z to 9999-12-31T23:59:59.999999Z,
/// in microseconds since the epoch: those whose year `to_rfc3339` writes
/// with four digits and no sign.
pub open spec fn in_plain_years(m: int) -> bool {
    -62_167_219_200_000_000 <= m <= 253_402_300_799_999_999
}

/// `DateTime::<Utc>::from_timestamp_micros(m)` written with `to_rfc3339`.
/// Its result is named by `rfc3339_of_micros`; its form is not stated. For
/// an instant whose year is written with four digits, chrono's parser
/// (`parse_rfc3339_relaxed`, which takes years 0 to 9999 unsigned, the
/// fraction of a second and the `+00:00` offset) reads the text back as the
/// same instant.
#[verifier::external_body]
pub(crate) fn micros_to_rfc3339(m: i64) -> (r: Option<String>)
    ensures
        match r {
            Some(s) => rfc3339_of_micros(m) == Some(s@),
            None => rfc3339_of_micros(m) is None,
        },
        in_plain_years(m as int) ==> (r matches Some(s) ==> micros_of_rfc3339(s@) == Some(m)),
{
    match chrono::DateTime::<chrono::Utc>::from_timestamp_micros(m) {
        Some(d) => Some(d.to_rfc3339()),
        None => None,
    }
}

/// `s.parse::<DateTime<Utc>>()` read through `timestamp_micros`. Its result
/// is named by `micros_of_rfc3339`; which texts parse is not stated.
#[verifier::external_body]
pub(crate) fn rfc3339_to_micros(s: &str) -> (r: Option<i64>)
    ensures
        r == micros_of_rfc3339(s@),
{
    match s.parse::<chrono::DateTime<chrono::Utc>>() {
        Ok(d) => Some(d.timestamp_micros()),
        Err(_) => None,
    }
}

/// Lowercase hexadecimal digit.
pub open spec fn is_hex_lower(c: char) -> bool {
    ('0' <= c <= '9') || ('a' <= c <= 'f')
}

/// The text of a random (version 4) UUID: 36 characters, hyphens at 8, 13,
/// 18 and 23, lowercase hexadecimal digits elsewhere, and a `4` at 14.
pub open spec fn uuid_v4_text(s: Seq<char>) -> bool {
    &&& s.len() == 36
    &&& forall|i: int|
        0 <= i < 36 ==> if i == 8 || i == 13 || i == 18 || i == 23 {
            #[trigger] s[i] == '-'
        } else {
            is_hex_lower(s[i])
        }
    &&& s[14] == '4'
}

/// A fresh item id: `uuid::Uuid::new_v4().to_string()`, the hyphenated
/// lowercase form that the crate's `Display` writes. The digits are random;
/// only their layout is promised.
#[verifier::external_body]
pub(crate) fn new_item_id() -> (s: String)
    ensures
        uuid_v4_text(s@),
{
    uuid::Uuid::new_v4().to_string()
}

} // verus!
