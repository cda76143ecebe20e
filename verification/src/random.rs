//! Chance and time.

use rand::rngs::OsRng;
use rand::TryRngCore;
use uuid::Uuid;
use vstd::prelude::*;

verus! {

/// Whether a character is a hexadecimal digit in lower case.
pub open spec fn is_hex(c: char) -> bool {
    ('0' <= c && c <= '9') || ('a' <= c && c <= 'f')
}

/// Whether a text has the form of an identifier with hyphens.
pub open spec fn is_uuid(s: Seq<char>) -> bool {
    s.len() == 36 && forall|i: int|
        0 <= i < 36 ==> if i == 8 || i == 13 || i == 18 || i == 23 {
            #[trigger] s[i] == '-'
        } else {
            is_hex(s[i])
        }
}

/// Calls `Uuid::new_v4` and writes the identifier without hyphens: 32
/// hexadecimal digits in lower case. Which ones is left to chance.
#[verifier::external_body]
pub(crate) fn uuid_simple() -> (r: String)
    ensures
        r@.len() == 32,
        forall|i: int| 0 <= i < r@.len() ==> is_hex(#[trigger] r@[i]),
{
    Uuid::new_v4().simple().to_string()
}

/// Calls `Uuid::new_v4` and writes the identifier with hyphens: 36 characters,
/// hexadecimal digits in lower case and hyphens at the places 8, 13, 18 and 23.
/// Which digits is left to chance.
#[verifier::external_body]
pub(crate) fn uuid_text() -> (r: String)
    ensures
        is_uuid(r@),
{
    Uuid::new_v4().to_string()
}

/// Calls `OsRng.try_fill_bytes` on as many bytes. Which ones come is left to
/// chance, and it may fail.
#[verifier::external_body]
pub(crate) fn random_bytes(len: usize) -> (r: Result<Vec<u8>, String>)
    requires
        len <= isize::MAX,
    ensures
        r matches Ok(b) ==> b@.len() == len,
{
    let mut buf = vec![0u8; len];
    match OsRng.try_fill_bytes(&mut buf) {
        Ok(()) => Ok(buf),
        Err(e) => Err(e.to_string()),
    }
}

/// Calls `rand::random`. Which number comes is left to chance.
#[verifier::external_body]
pub(crate) fn random_u32() -> (r: u32)
{
    rand::random()
}

/// Calls `OffsetDateTime::now_utc` and takes the nanoseconds since the epoch.
/// What time it is, is left open; its year has at most six digits, so the
/// number is far from the least of its type.
#[verifier::external_body]
pub(crate) fn now_nanos() -> (r: i128)
    ensures
        r > i128::MIN,
{
    time::OffsetDateTime::now_utc().unix_timestamp_nanos()
}

/// A time, given in nanoseconds since the epoch, in the default form of
/// ISO 8601; nothing where it cannot be written.
pub uninterp spec fn iso_time(nanos: int) -> Option<Seq<char>>;

/// Calls `OffsetDateTime::from_unix_timestamp_nanos` and writes the time in the
/// format `Iso8601::DEFAULT`. The text is named, not described.
#[verifier::external_body]
pub(crate) fn iso_text(nanos: i128) -> (r: Option<String>)
    ensures
        crate::text::opt_view(r) == iso_time(nanos as int),
{
    let t = time::OffsetDateTime::from_unix_timestamp_nanos(nanos).ok()?;
    t.format(&time::format_description::well_known::Iso8601::DEFAULT).ok()
}

/// The time that a text in ISO 8601 stands for, in nanoseconds since the epoch.
pub uninterp spec fn iso_parsed(s: Seq<char>) -> Option<int>;

/// Calls `OffsetDateTime::parse` with the format `Iso8601::DEFAULT`. The time is
/// named, not described.
#[verifier::external_body]
pub(crate) fn parse_iso(s: &str) -> (r: Option<i128>)
    ensures
        iso_parsed(s@) == match r {
            Some(n) => Some(n as int),
            None => None,
        },
{
    let f = &time::format_description::well_known::Iso8601::DEFAULT;
    time::OffsetDateTime::parse(s, f).ok().map(|t| t.unix_timestamp_nanos())
}

/// The time that a text in the form of RFC 3339 stands for, in nanoseconds since
/// the epoch.
pub uninterp spec fn rfc3339_parsed(s: Seq<char>) -> Option<int>;

/// Calls `OffsetDateTime::parse` with the format `Rfc3339`. The time is named,
/// not described.
#[verifier::external_body]
pub(crate) fn parse_rfc3339(s: &str) -> (r: Option<i128>)
    ensures
        rfc3339_parsed(s@) == match r {
            Some(n) => Some(n as int),
            None => None,
        },
{
    let f = &time::format_description::well_known::Rfc3339;
    time::OffsetDateTime::parse(s, f).ok().map(|t| t.unix_timestamp_nanos())
}

/// What drawing bytes came to: the bytes, or why there are none.
pub open spec fn drawn_view(d: Result<Vec<u8>, String>) -> Result<Seq<u8>, Seq<char>> {
    match d {
        Ok(b) => Ok(b@),
        Err(m) => Err(m@),
    }
}

/// Whether drawing bytes gave as many as were asked for, or none.
pub open spec fn draws(d: Result<Vec<u8>, String>, len: int) -> bool {
    d matches Ok(b) ==> b@.len() == len
}

/// What a text that is made of drawn bytes came to.
pub open spec fn made_view(r: Result<String, String>) -> Result<Seq<char>, Seq<char>> {
    match r {
        Ok(s) => Ok(s@),
        Err(m) => Err(m@),
    }
}

} // verus!
