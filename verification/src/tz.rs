//! The fixed time zone (Pacific/Auckland) behind every local-day
//! computation.  The rest of the library works on plain day counts and
//! epoch seconds; what only the zone's tables can compute is wrapped
//! here and named, never restated.

use vstd::prelude::*;

use chrono::{Datelike, TimeZone};

verus! {

/// The local calendar day, as a day count from the common era, that an
/// instant falls on in the fixed zone.
pub uninterp spec fn local_day_of(ts: int) -> int;

/// The instant a local day opens: the earliest UTC mapping of its
/// midnight, as epoch seconds; None when the day count leaves the
/// calendar's range.
pub uninterp spec fn day_open_ts(day: int) -> Option<int>;

/// The instant the next local day opens: the latest UTC mapping of the
/// following midnight, as epoch seconds.
pub uninterp spec fn day_close_ts(day: int) -> Option<int>;

/// What a local `%Y-%m-%dT%H:%M:%S` timestamp denotes, as epoch
/// seconds.
pub uninterp spec fn parse_ts_spec(s: Seq<char>) -> Option<int>;

/// What a `%Y-%m-%d` date names, as a day count from the common era.
pub uninterp spec fn parse_date_spec(s: Seq<char>) -> Option<int>;

/// Relies on chrono's timestamp conversion and chrono_tz's
/// Pacific/Auckland table: the local date of an instant depends on the
/// instant alone, and every representable date's day count lies far
/// inside i64.
#[verifier::external_body]
pub fn local_day(ts: i64) -> (d: i64)
    requires
        0 <= ts <= crate::models::TS_MAX,
    ensures
        d == local_day_of(ts as int),
        -96_000_000 <= d <= 96_000_000,
{
    chrono_tz::Pacific::Auckland
        .timestamp_opt(ts, 0)
        .unwrap()
        .date_naive()
        .num_days_from_ce() as i64
}

/// Relies on chrono's calendar and chrono_tz's Pacific/Auckland table:
/// the earliest mapping of a day's midnight depends on the day alone,
/// and any instant of a representable date lies far inside i64.
#[verifier::external_body]
pub fn day_open(day: i64) -> (r: Option<i64>)
    ensures
        (r is Some) == (day_open_ts(day as int) is Some),
        r matches Some(t) ==> day_open_ts(day as int) == Some(t as int),
        r matches Some(t) ==> -9_000_000_000_000 <= t <= 9_000_000_000_000,
{
    let day32 = match i32::try_from(day) {
        Ok(d) => d,
        Err(_) => return None,
    };
    chrono::NaiveDate::from_num_days_from_ce_opt(day32)
        .and_then(|d| d.and_hms_opt(0, 0, 0))
        .and_then(|dt| chrono_tz::Pacific::Auckland.from_local_datetime(&dt).earliest())
        .map(|t| t.timestamp())
}

/// Relies on chrono's calendar and chrono_tz's Pacific/Auckland table:
/// the latest mapping of the following midnight depends on the day
/// alone, and any instant of a representable date lies far inside i64.
#[verifier::external_body]
pub fn day_close(day: i64) -> (r: Option<i64>)
    ensures
        (r is Some) == (day_close_ts(day as int) is Some),
        r matches Some(t) ==> day_close_ts(day as int) == Some(t as int),
        r matches Some(t) ==> -9_000_000_000_000 <= t <= 9_000_000_000_000,
{
    let day32 = match i32::try_from(day) {
        Ok(d) => d,
        Err(_) => return None,
    };
    chrono::NaiveDate::from_num_days_from_ce_opt(day32)
        .and_then(|d| d.succ_opt())
        .and_then(|d| d.and_hms_opt(0, 0, 0))
        .and_then(|dt| chrono_tz::Pacific::Auckland.from_local_datetime(&dt).latest())
        .map(|t| t.timestamp())
}

/// Relies on std's SystemTime::now, converted to epoch seconds: a
/// clock reading before 1970, or one too large for i64, is absorbed
/// rather than a panic.  The clock decides the result; only
/// nonnegativity is promised.
#[verifier::external_body]
pub fn now_ts() -> (t: i64)
    ensures
        0 <= t,
{
    match std::time::SystemTime::now().duration_since(std::time::UNIX_EPOCH) {
        Ok(d) => i64::try_from(d.as_secs()).unwrap_or(i64::MAX),
        Err(_) => 0,
    }
}

/// The current instant, clamped into the range the store accepts.
pub fn now_clamped() -> (t: i64)
    ensures
        0 <= t <= crate::models::TS_MAX,
{
    let t = now_ts();
    if t > crate::models::TS_MAX {
        crate::models::TS_MAX
    } else {
        t
    }
}

/// Today's local day in the fixed zone, read from the clamped clock.
pub fn today() -> (d: i64)
    ensures
        -96_000_000 <= d <= 96_000_000,
{
    local_day(now_clamped())
}

/// Relies on chrono's NaiveDateTime parsing and chrono_tz's
/// Pacific/Auckland table: what a local timestamp string denotes
/// depends on the text alone (an ambiguous wall-clock time maps to its
/// earliest reading), and lies far inside i64.
#[verifier::external_body]
pub fn parse_local_ts(s: &str) -> (r: Option<i64>)
    ensures
        (r is Some) == (parse_ts_spec(s@) is Some),
        r matches Some(t) ==> parse_ts_spec(s@) == Some(t as int),
        r matches Some(t) ==> -9_000_000_000_000 <= t <= 9_000_000_000_000,
{
    chrono::NaiveDateTime::parse_from_str(s, "%Y-%m-%dT%H:%M:%S")
        .ok()
        .and_then(|dt| chrono_tz::Pacific::Auckland.from_local_datetime(&dt).earliest())
        .map(|t| t.timestamp())
}

/// Relies on chrono's NaiveDate parsing: the day a `%Y-%m-%d` date
/// names depends on the text alone, and its count lies far inside i64.
#[verifier::external_body]
pub fn parse_date(s: &str) -> (r: Option<i64>)
    ensures
        (r is Some) == (parse_date_spec(s@) is Some),
        r matches Some(d) ==> parse_date_spec(s@) == Some(d as int),
        r matches Some(d) ==> -96_000_000 <= d <= 96_000_000,
{
    chrono::NaiveDate::parse_from_str(s, "%Y-%m-%d")
        .ok()
        .map(|d| d.num_days_from_ce() as i64)
}

} // verus!
