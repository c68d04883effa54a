//! Points in time as whole seconds, and the calls into chrono and chrono-tz
//! that read, convert and format them.
//!
//! A time is the number of seconds since 1970-01-01T00:00:00 UTC. A local
//! (wall-clock) time is the number of seconds since 1970-01-01T00:00:00 on
//! that clock, the way chrono counts a `NaiveDateTime`.

use vstd::prelude::*;
use chrono::{DateTime, NaiveDate, NaiveDateTime, TimeZone, Utc, Datelike, Timelike};
use chrono_tz::Tz;

verus! {

pub const MINUTE: i64 = 60;
pub const HOUR: i64 = 3600;
pub const DAY: i64 = 86400;

/// Times the calendar works with: some 250,000 years either side of 1970.
///
/// chrono itself reaches a little further, to about ±8.2·10¹² s. The
/// calendar stops short of that on purpose: it turns times into wall-clock
/// times (up to a day apart), steps a year ahead for recurring events and
/// a few weeks back for the feeds, and each of those must stay inside what
/// chrono represents, where chrono would otherwise panic. A time beyond the
/// limit is read as no time, and an event at such a time is left out.
pub const TIME_LIMIT: i64 = 8_000_000_000_000;

pub open spec fn valid_time(t: int) -> bool {
    -TIME_LIMIT <= t <= TIME_LIMIT
}

/// Times chrono can represent, with room to spare for a day either side.
pub open spec fn in_range(t: int) -> bool {
    -8_200_000_000_000 <= t <= 8_200_000_000_000
}

/// Times whose wall-clock time anywhere chrono can also represent.
pub open spec fn convertible(t: int) -> bool {
    -8_100_000_000_000 <= t <= 8_100_000_000_000
}

/// Times between the years 0 and 9999, which RFC 2822 can write.
pub open spec fn four_digit_year(t: int) -> bool {
    -62_167_219_200 <= t < 253_402_300_800
}

/// The local day a local time falls on, counted from 1970-01-01.
pub open spec fn day_of(local: int) -> int {
    local / (DAY as int)
}

pub fn day_number(local: i64) -> (r: i64)
    requires
        in_range(local as int),
    ensures
        r == day_of(local as int),
{
    if local >= 0 {
        local / DAY
    } else {
        let q = local / DAY;
        if q * DAY == local { q } else { q - 1 }
    }
}

/// Whether chrono-tz knows a time zone of this name.
pub uninterp spec fn spec_zone_known(name: Seq<char>) -> bool;

/// `<chrono_tz::Tz as FromStr>::from_str`: whether the name is a zone of the
/// IANA database chrono-tz carries.
#[verifier::external_body]
pub(crate) fn zone_known(name: &str) -> (r: bool)
    ensures
        r == spec_zone_known(name@),
{
    name.parse::<Tz>().is_ok()
}

/// `chrono_tz::Tz::name` of `Europe::Berlin`: Munich's zone, by the name
/// chrono-tz gives it, which it knows.
#[verifier::external_body]
pub(crate) fn berlin() -> (r: &'static str)
    ensures
        r@ == "Europe/Berlin"@,
        spec_zone_known(r@),
{
    chrono_tz::Europe::Berlin.name()
}

/// The wall-clock time in zone `zone` at time `t`.
pub uninterp spec fn spec_local_of(t: int, zone: Seq<char>) -> int;

/// `DateTime::<Utc>::with_timezone` and `naive_local`: the wall-clock time in
/// a zone. Offsets lie strictly within a day (`FixedOffset::east_opt`).
#[verifier::external_body]
pub(crate) fn local_of(t: i64, zone: &str) -> (r: i64)
    requires
        in_range(t as int),
        spec_zone_known(zone@),
    ensures
        r == spec_local_of(t as int, zone@),
        t - DAY < r < t + DAY,
{
    let tz: Tz = zone.parse().unwrap();
    DateTime::from_timestamp(t, 0).unwrap().with_timezone(&tz).naive_local().and_utc().timestamp()
}

/// The earliest time at which the clock of zone `zone` shows `local`, if it
/// ever does.
pub uninterp spec fn spec_earliest_utc(local: int, zone: Seq<char>) -> Option<i64>;

/// `TimeZone::from_local_datetime(..).earliest()`: the earliest time a
/// wall-clock time names in a zone, or `None` inside a gap. The time it
/// gives shows `local` on that zone's clock, as chrono documents; offsets
/// lie strictly within a day.
#[verifier::external_body]
pub(crate) fn earliest_utc(local: i64, zone: &str) -> (r: Option<i64>)
    requires
        in_range(local as int),
        spec_zone_known(zone@),
    ensures
        r == spec_earliest_utc(local as int, zone@),
        r matches Some(t) ==> local - DAY < t < local + DAY && spec_local_of(t as int, zone@) == local,
{
    let tz: Tz = zone.parse().unwrap();
    let naive = DateTime::from_timestamp(local, 0).unwrap().naive_utc();
    tz.from_local_datetime(&naive).earliest().map(|t| t.timestamp())
}

/// The format strings the calendar writes times with.
pub open spec fn known_format(f: Seq<char>) -> bool {
    f == "%Y-%m-%d"@ || f == "%Y%m%dT%H%M%SZ"@ || f == "%H:%M"@ || f == "–%H:%M"@
        || f == " – %a %-d %b %H:%M"@ || f == "%a"@ || f == "%-d"@ || f == "%B %Y"@
        || f == "%a %-d %b %Y, %H:%M"@ || f == "%-d %b %Y, %H:%M"@
}

/// How chrono writes a local time with a format string.
pub uninterp spec fn spec_format_local(local: int, format: Seq<char>) -> Seq<char>;

/// `NaiveDateTime::format(..).to_string()`.
#[verifier::external_body]
pub(crate) fn format_local(local: i64, format: &str) -> (r: String)
    requires
        in_range(local as int),
        known_format(format@),
    ensures
        r@ == spec_format_local(local as int, format@),
{
    DateTime::from_timestamp(local, 0).unwrap().naive_utc().format(format).to_string()
}

/// The calendar fields of a local time: year, month (1 to 12), day (1 to
/// 31), hour, minute, second and weekday (0 for Monday).
pub uninterp spec fn spec_fields(local: int) -> (i32, u32, u32, u32, u32, u32, u32);

/// `Datelike` and `Timelike` on a `NaiveDateTime`, with
/// `Weekday::num_days_from_monday`.
#[verifier::external_body]
pub(crate) fn fields(local: i64) -> (r: (i32, u32, u32, u32, u32, u32, u32))
    requires
        in_range(local as int),
    ensures
        r == spec_fields(local as int),
        1 <= r.1 <= 12,
        1 <= r.2 <= 31,
        r.3 < 24,
        r.4 < 60,
        r.5 < 60,
        r.6 < 7,
{
    let n = DateTime::from_timestamp(local, 0).unwrap().naive_utc();
    (n.year(), n.month(), n.day(), n.hour(), n.minute(), n.second(), n.weekday().num_days_from_monday())
}

/// The local time a calendar date and clock time name, if they exist.
pub uninterp spec fn spec_local_from_fields(y: i32, m: u32, d: u32, h: u32, min: u32, s: u32) -> Option<i64>;

/// `NaiveDate::from_ymd_opt` and `NaiveDate::and_hms_opt`.
#[verifier::external_body]
pub(crate) fn local_from_fields(y: i32, m: u32, d: u32, h: u32, min: u32, s: u32) -> (r: Option<i64>)
    ensures
        r == spec_local_from_fields(y, m, d, h, min, s),
{
    NaiveDate::from_ymd_opt(y, m, d).and_then(|d| d.and_hms_opt(h, min, s)).map(|n| n.and_utc().timestamp())
}

/// What chrono reads from a text as a date (`%Y%m%d`), at midnight.
pub uninterp spec fn spec_parse_date(v: Seq<char>) -> Option<i64>;

/// `NaiveDate::parse_from_str(v, "%Y%m%d")`, then `and_hms_opt(0, 0, 0)`.
#[verifier::external_body]
pub(crate) fn parse_date(v: &str) -> (r: Option<i64>)
    ensures
        r == spec_parse_date(v@),
{
    NaiveDate::parse_from_str(v, "%Y%m%d").ok().and_then(|d| d.and_hms_opt(0, 0, 0)).map(|n| n.and_utc().timestamp())
}

/// What chrono reads from a text as a local time (`%Y%m%dT%H%M%S`).
pub uninterp spec fn spec_parse_date_time(v: Seq<char>) -> Option<i64>;

/// `NaiveDateTime::parse_from_str(v, "%Y%m%dT%H%M%S")`.
#[verifier::external_body]
pub(crate) fn parse_date_time(v: &str) -> (r: Option<i64>)
    ensures
        r == spec_parse_date_time(v@),
{
    NaiveDateTime::parse_from_str(v, "%Y%m%dT%H%M%S").ok().map(|n| n.and_utc().timestamp())
}

/// What chrono reads from an RFC 3339 text, as a time.
pub uninterp spec fn spec_parse_rfc3339(v: Seq<char>) -> Option<i64>;

/// `DateTime::parse_from_rfc3339`, as seconds since the epoch.
#[verifier::external_body]
pub(crate) fn parse_rfc3339(v: &str) -> (r: Option<i64>)
    ensures
        r == spec_parse_rfc3339(v@),
{
    DateTime::parse_from_rfc3339(v).ok().map(|t| t.timestamp())
}

/// How chrono writes a time in RFC 3339.
pub uninterp spec fn spec_rfc3339(t: int) -> Seq<char>;

/// `DateTime::<Utc>::to_rfc3339`.
#[verifier::external_body]
pub(crate) fn rfc3339(t: i64) -> (r: String)
    requires
        in_range(t as int),
    ensures
        r@ == spec_rfc3339(t as int),
{
    DateTime::from_timestamp(t, 0).unwrap().to_rfc3339()
}

/// How chrono writes a time in RFC 2822.
pub uninterp spec fn spec_rfc2822(t: int) -> Seq<char>;

/// `DateTime::<Utc>::to_rfc2822`, which panics outside the years 0 to 9999.
#[verifier::external_body]
pub(crate) fn rfc2822(t: i64) -> (r: String)
    requires
        four_digit_year(t as int),
    ensures
        r@ == spec_rfc2822(t as int),
{
    DateTime::from_timestamp(t, 0).unwrap().to_rfc2822()
}

/// Munich's wall-clock time at `t`.
pub open spec fn munich(t: int) -> int {
    spec_local_of(t, "Europe/Berlin"@)
}

pub fn munich_local(t: i64) -> (r: i64)
    requires
        in_range(t as int),
    ensures
        r == munich(t as int),
        t - DAY < r < t + DAY,
{
    local_of(t, berlin())
}

/// The Munich day of `t` (`munich_day`), counted from 1970-01-01.
pub open spec fn munich_day_of(t: int) -> int {
    day_of(munich(t))
}

pub fn munich_day(t: i64) -> (r: i64)
    requires
        convertible(t as int),
    ensures
        r == munich_day_of(t as int),
{
    day_number(munich_local(t))
}

} // verus!
