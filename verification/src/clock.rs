//! Timestamps: RFC 3339 in UTC at second precision (`2026-06-24T02:30:00Z`). The form is
//! fixed-width, so comparing two such strings lexically compares them in time. A block's
//! creation time is derived from its ULID id.

use vstd::prelude::*;
use crate::block::opt_str_view;
use crate::id::{ulid_millis, BlockId};
use crate::numeric::{int_of, parse_i32, parse_u8};
use crate::render::{parts_view, split_exec, split_on};
use crate::text::{chars_of, copy_range, string_from, trim, trim_bounds};

verus! {

/// The RFC 3339 UTC text (second precision) of the instant `secs` seconds after the Unix
/// epoch, as the `time` crate formats it.
pub uninterp spec fn rfc3339_utc(secs: int) -> Seq<char>;

/// Earliest and latest instants whose year has four digits (0000 to 9999).
pub open spec fn formattable(secs: int) -> bool {
    -62167219200 <= secs <= 253402300799
}

/// Formats through `time::OffsetDateTime::from_unix_timestamp` and `format(&Rfc3339)`. The
/// result is present exactly when the year falls in 0000..=9999: outside it either the
/// timestamp is out of the type's range or the RFC 3339 formatter refuses the year.
#[verifier::external_body]
fn format_unix_secs(secs: i64) -> (r: Option<String>)
    ensures
        r is Some <==> formattable(secs as int),
        r matches Some(s) ==> s@ == rfc3339_utc(secs as int),
{
    match time::OffsetDateTime::from_unix_timestamp(secs) {
        Ok(dt) => dt.format(&time::format_description::well_known::Rfc3339).ok(),
        Err(_) => None,
    }
}

/// Convert Unix milliseconds (such as a ULID's timestamp) to RFC 3339 UTC at second precision,
/// or `None` beyond the year 9999.
pub fn unix_ms_to_rfc3339(ms: u64) -> (r: Option<String>)
    ensures
        r is Some <==> formattable(ms as int / 1000),
        r matches Some(s) ==> s@ == rfc3339_utc(ms as int / 1000),
{
    let secs = (ms / 1000) as i64;
    format_unix_secs(secs)
}

/// The creation time of a block, decoded from its id.
pub open spec fn created_of(id: Seq<char>) -> Option<Seq<char>> {
    if formattable(ulid_millis(id) / 1000) {
        Some(rfc3339_utc(ulid_millis(id) / 1000))
    } else {
        None
    }
}

/// The creation time of the block with this id (RFC 3339 UTC).
pub fn created(id: &BlockId) -> (r: Option<String>)
    ensures
        match r {
            Some(s) => created_of(id@) == Some(s@),
            None => created_of(id@) is None,
        },
{
    unix_ms_to_rfc3339(id.timestamp_ms())
}

/// Whether `y` is a leap year of the proleptic Gregorian calendar.
pub open spec fn leap_year(y: int) -> bool {
    (y % 4 == 0 && y % 100 != 0) || y % 400 == 0
}

/// The number of days of month `m` (1 to 12) in year `y`.
pub open spec fn days_in_month(y: int, m: int) -> int {
    if m == 2 {
        if leap_year(y) {
            29
        } else {
            28
        }
    } else if m == 4 || m == 6 || m == 9 || m == 11 {
        30
    } else {
        31
    }
}

/// `n` in exactly `w` decimal digits, zero-padded on the left.
pub open spec fn padded(n: int, w: nat) -> Seq<char>
    decreases w,
{
    if w == 0 {
        seq![]
    } else {
        padded(n / 10, (w - 1) as nat).push(crate::view::digit_char(n % 10))
    }
}

/// Midnight UTC of a calendar date as RFC 3339 text: `YYYY-MM-DDT00:00:00Z`.
pub open spec fn midnight_text(y: int, m: int, d: int) -> Seq<char> {
    padded(y, 4) + seq!['-'] + padded(m, 2) + seq!['-'] + padded(d, 2) + "T00:00:00Z"@
}

/// Builds the date through `time::Month::try_from`, `time::Date::from_calendar_date` and
/// `time::OffsetDateTime::new_utc` at midnight, and formats it with `Rfc3339`. Claimed, from
/// that code: a result exactly for a real calendar date whose year has four digits, and then
/// the text `YYYY-MM-DDT00:00:00Z`.
#[verifier::external_body]
fn midnight_rfc3339(y: i32, m: u8, d: u8) -> (r: Option<String>)
    ensures
        r is Some <==> (0 <= y <= 9999 && 1 <= m <= 12 && 1 <= d <= days_in_month(y as int, m as int)),
        r matches Some(s) ==> s@ == midnight_text(y as int, m as int, d as int),
{
    let month = match time::Month::try_from(m) {
        Ok(mo) => mo,
        Err(_) => return None,
    };
    let date = match time::Date::from_calendar_date(y, month, d) {
        Ok(dt) => dt,
        Err(_) => return None,
    };
    time::OffsetDateTime::new_utc(date, time::Time::MIDNIGHT).format(&time::format_description::well_known::Rfc3339).ok()
}

/// What reading `s` as an RFC 3339 timestamp gives: `None` when it is not one; otherwise the
/// same instant in UTC, truncated to the second, as RFC 3339 text, or `None` inside when that
/// instant has no such text (its UTC year leaves 0000..=9999).
pub uninterp spec fn rfc3339_reading(s: Seq<char>) -> Option<Option<Seq<char>>>;

/// Parses with `time::OffsetDateTime::parse(_, &Rfc3339)`, moves the instant to UTC with
/// `checked_to_offset`, drops the fraction with `replace_nanosecond(0)` and formats it with
/// `Rfc3339`. The contract names the outcome.
#[verifier::external_body]
fn read_rfc3339(s: &str) -> (r: Option<Option<String>>)
    ensures
        match r {
            None => rfc3339_reading(s@) is None,
            Some(x) => rfc3339_reading(s@) == Some(opt_str_view(x)),
        },
{
    let rfc = time::format_description::well_known::Rfc3339;
    let dt = match time::OffsetDateTime::parse(s, &rfc) {
        Ok(dt) => dt,
        Err(_) => return None,
    };
    let utc = match dt.checked_to_offset(time::UtcOffset::UTC) {
        Some(u) => u,
        None => return Some(None),
    };
    match utc.replace_nanosecond(0) {
        Ok(u) => Some(u.format(&rfc).ok()),
        Err(_) => Some(None),
    }
}

/// A bare `YYYY-MM-DD` date (three `-`-separated integers) as midnight UTC.
pub open spec fn bare_date(t: Seq<char>) -> Option<Seq<char>> {
    let parts = split_on(t, '-');
    if parts.len() == 3 {
        match (int_of(parts[0], true), int_of(parts[1], false), int_of(parts[2], false)) {
            (Some(y), Some(m), Some(d)) => if i32::MIN <= y <= i32::MAX && 0 <= m <= 255 && 0 <= d <= 255
                && 0 <= y <= 9999 && 1 <= m <= 12 && 1 <= d <= days_in_month(y, m) {
                Some(midnight_text(y, m, d))
            } else {
                None
            },
            _ => None,
        }
    } else {
        None
    }
}

/// The canonical form of a date filter: the trimmed input read as an RFC 3339 timestamp (in
/// UTC, to the second), else as a bare calendar date at midnight UTC.
pub open spec fn query_date_of(input: Seq<char>) -> Option<Seq<char>> {
    let t = trim(input);
    match rfc3339_reading(t) {
        Some(x) => x,
        None => bare_date(t),
    }
}

/// Normalize a user's date filter into the RFC 3339 UTC second-precision form that stored
/// times use, so the two compare lexically; `None` when it is not a recognizable date. Accepts
/// a full RFC 3339 timestamp or a bare `YYYY-MM-DD` (taken as midnight UTC).
pub fn parse_query_date(input: &str) -> (r: Option<String>)
    ensures
        opt_str_view(r) == query_date_of(input@),
{
    let v = chars_of(input);
    let (a, b) = trim_bounds(&v, 0, v.len());
    assert(v@.subrange(0, v@.len() as int) =~= v@);
    let tv = copy_range(&v, a, b);
    let t = string_from(&tv);
    let reading = read_rfc3339(t.as_str());
    query_date_from(t.as_str(), reading)
}

/// The canonical form of the trimmed date filter `t`, given what reading it as an RFC 3339
/// timestamp gave (`Some` of the canonical text or of `None` when it parsed but cannot be shown
/// in UTC; `None` when it is no RFC 3339 timestamp): that result, else `t` as a bare date.
pub fn query_date_from(t: &str, reading: Option<Option<String>>) -> (r: Option<String>)
    ensures
        opt_str_view(r) == match reading {
            Some(x) => opt_str_view(x),
            None => bare_date(t@),
        },
{
    match reading {
        Some(x) => return x,
        None => {},
    }
    let tv = chars_of(t);
    let parts = split_exec(&tv, '-');
    if parts.len() != 3 {
        return None;
    }
    assert(parts_view(parts@)[0] == parts@[0]@);
    assert(parts_view(parts@)[1] == parts@[1]@);
    assert(parts_view(parts@)[2] == parts@[2]@);
    let y = match parse_i32(&parts[0]) {
        Some(y) => y,
        None => return None,
    };
    let m = match parse_u8(&parts[1]) {
        Some(m) => m,
        None => return None,
    };
    let d = match parse_u8(&parts[2]) {
        Some(d) => d,
        None => return None,
    };
    midnight_rfc3339(y, m, d)
}

} // verus!
