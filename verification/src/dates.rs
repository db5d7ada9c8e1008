//! Timestamp resolution for deck records.
//!
//! A deck carries up to three timestamp fields; the first one present
//! counts. The string is tried against an ordered list of datetime
//! formats and then against a general ISO-8601 parse, and only the UTC
//! month it denotes is kept. What a well-formed record is and whether a
//! malformed one aborts the scan or is dropped is the caller's explicit
//! policy choice ([`RecordPolicy`]).

use vstd::prelude::*;

use crate::deck::DeckRecord;

verus! {

/// What a builder does with a record whose timestamp does not parse:
/// abort the whole scan, or drop that record and keep going. The choice
/// is deliberate configuration, not a hidden default.
#[derive(Clone, Copy, Debug, PartialEq, Eq, Structural)]
pub enum RecordPolicy {
    /// One malformed record fails the entire computation.
    AbortOnMalformed,
    /// Malformed records are silently dropped.
    SkipMalformed,
}

/// The UTC `(year, month)` a timestamp denotes when read with the given
/// format string; chrono's parser depends on its two string arguments
/// alone.
pub uninterp spec fn month_parsed(s: Seq<char>, fmt: Seq<char>) -> Option<(i32, u32)>;

/// The UTC `(year, month)` a timestamp denotes when read as a general
/// ISO-8601 / RFC 3339 datetime; the result depends on the string alone.
pub uninterp spec fn rfc_month_parsed(s: Seq<char>) -> Option<(i32, u32)>;

/// Relies on chrono's `DateTime::parse_from_str`: parses `s` with `fmt`,
/// converts to UTC and reads `Datelike::year` and `Datelike::month`;
/// chrono documents `month` as 1 to 12.
#[verifier::external_body]
fn parse_month_with(s: &str, fmt: &str) -> (r: Option<(i32, u32)>)
    ensures
        r == month_parsed(s@, fmt@),
        match r {
            Some(p) => 1 <= p.1 <= 12,
            None => true,
        },
{
    match chrono::DateTime::parse_from_str(s, fmt) {
        Ok(dt) => {
            let u = dt.with_timezone(&chrono::Utc);
            Some((chrono::Datelike::year(&u), chrono::Datelike::month(&u)))
        },
        Err(_) => None,
    }
}

/// Relies on chrono's `FromStr` for `DateTime<Utc>` (a general ISO-8601 /
/// RFC 3339 parse) and reads `Datelike::year` and `Datelike::month`;
/// chrono documents `month` as 1 to 12.
#[verifier::external_body]
fn parse_month_rfc(s: &str) -> (r: Option<(i32, u32)>)
    ensures
        r == rfc_month_parsed(s@),
        match r {
            Some(p) => 1 <= p.1 <= 12,
            None => true,
        },
{
    match s.parse::<chrono::DateTime<chrono::Utc>>() {
        Ok(u) => Some((chrono::Datelike::year(&u), chrono::Datelike::month(&u))),
        Err(_) => None,
    }
}

/// The month a timestamp string denotes: the first format that accepts
/// it wins, the general parse is the fallback.
pub open spec fn spec_parse_month(s: Seq<char>) -> Option<(i32, u32)> {
    if month_parsed(s, "%Y-%m-%dT%H:%M:%S%.fZ"@) is Some {
        month_parsed(s, "%Y-%m-%dT%H:%M:%S%.fZ"@)
    } else if month_parsed(s, "%Y-%m-%dT%H:%M:%SZ"@) is Some {
        month_parsed(s, "%Y-%m-%dT%H:%M:%SZ"@)
    } else if month_parsed(s, "%Y-%m-%d %H:%M:%S"@) is Some {
        month_parsed(s, "%Y-%m-%d %H:%M:%S"@)
    } else if month_parsed(s, "%Y-%m-%d"@) is Some {
        month_parsed(s, "%Y-%m-%d"@)
    } else {
        rfc_month_parsed(s)
    }
}

/// Parses a timestamp string down to its UTC month.
pub fn parse_month(s: &str) -> (r: Option<(i32, u32)>)
    ensures
        r == spec_parse_month(s@),
        match r {
            Some(p) => 1 <= p.1 <= 12,
            None => true,
        },
{
    if let Some(p) = parse_month_with(s, "%Y-%m-%dT%H:%M:%S%.fZ") {
        return Some(p);
    }
    if let Some(p) = parse_month_with(s, "%Y-%m-%dT%H:%M:%SZ") {
        return Some(p);
    }
    if let Some(p) = parse_month_with(s, "%Y-%m-%d %H:%M:%S") {
        return Some(p);
    }
    if let Some(p) = parse_month_with(s, "%Y-%m-%d") {
        return Some(p);
    }
    parse_month_rfc(s)
}

/// The timestamp field that counts: `date`, else `scraped_at`, else
/// `created_at`.
pub open spec fn spec_date_field(d: DeckRecord) -> Option<String> {
    match d.date {
        Some(s) => Some(s),
        None => match d.scraped_at {
            Some(s) => Some(s),
            None => d.created_at,
        },
    }
}

/// The UTC month of the deck's timestamp, if one is present and parses.
pub open spec fn spec_deck_month(d: DeckRecord) -> Option<(i32, u32)> {
    match spec_date_field(d) {
        Some(s) => spec_parse_month(s@),
        None => None,
    }
}

/// The month as one orderable number.
pub open spec fn spec_month_key(p: (i32, u32)) -> int {
    p.0 * 12 + p.1 - 1
}

/// The month key of the deck, if its timestamp resolves.
pub open spec fn spec_deck_month_key(d: DeckRecord) -> Option<int> {
    match spec_deck_month(d) {
        Some(p) => Some(spec_month_key(p)),
        None => None,
    }
}

/// Resolves a deck's timestamp to its UTC month, first-present field
/// first, trying the format list in order.
pub fn parse_deck_date(d: &DeckRecord) -> (r: Option<(i32, u32)>)
    ensures
        r == spec_deck_month(*d),
        match r {
            Some(p) => 1 <= p.1 <= 12,
            None => true,
        },
{
    let field: Option<&String> = match &d.date {
        Some(s) => Some(s),
        None => match &d.scraped_at {
            Some(s) => Some(s),
            None => match &d.created_at {
                Some(s) => Some(s),
                None => None,
            },
        },
    };
    match field {
        Some(s) => parse_month(s.as_str()),
        None => None,
    }
}

/// The month key of a parsed month, as a machine integer.
pub fn month_key(y: i32, m: u32) -> (r: i64)
    requires
        1 <= m <= 12,
    ensures
        r == spec_month_key((y, m)),
{
    (y as i64) * 12 + (m as i64) - 1
}

} // verus!
