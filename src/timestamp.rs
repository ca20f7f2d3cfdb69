use vstd::prelude::*;
use chrono::{Datelike, TimeZone, Timelike};

verus! {

/// An instant, counted in milliseconds since 1970-01-01 00:00:00 UTC, together with the fixed
/// UTC offset (in seconds east of Greenwich) in which it is read on a calendar.
///
/// Instants are ordered by `millis` alone: the offset only changes how the instant is written.
#[derive(PartialEq, Eq, Clone, Copy, Debug, Structural)]
pub struct Timestamp {
    pub millis: i64,
    pub offset: i32,
}

/// The calendar reading of an instant at a fixed offset.
#[derive(PartialEq, Eq, Clone, Copy, Debug, Structural)]
pub struct CivilDateTime {
    pub year: i32,
    pub month: u32,
    pub day: u32,
    pub hour: u32,
    pub minute: u32,
    pub second: u32,
    pub millisecond: u32,
}

/// The calendar reading of `millis` at UTC offset `offset` (seconds), or `None` where chrono
/// cannot represent the instant or the offset.
pub uninterp spec fn civil_of(millis: i64, offset: i32) -> Option<CivilDateTime>;

/// The instant written `c` at UTC offset `offset` (seconds), or `None` where that calendar
/// reading does not exist or lies outside chrono's range.
pub uninterp spec fn instant_of(c: CivilDateTime, offset: i32) -> Option<i64>;

/// Relies on chrono's `FixedOffset::east_opt`, `DateTime::from_timestamp_millis`,
/// `DateTime::with_timezone` and the `Datelike` / `Timelike` getters: the calendar reading of an
/// instant, which depends on the two numbers alone.
#[verifier::external_body]
pub(crate) fn civil_at(millis: i64, offset: i32) -> (r: Option<CivilDateTime>)
    ensures
        r == civil_of(millis, offset),
{
    let zone = chrono::FixedOffset::east_opt(offset)?;
    let t = chrono::DateTime::from_timestamp_millis(millis)?.with_timezone(&zone);
    Some(CivilDateTime {
        year: t.year(),
        month: t.month(),
        day: t.day(),
        hour: t.hour(),
        minute: t.minute(),
        second: t.second(),
        millisecond: t.timestamp_subsec_millis(),
    })
}

/// Relies on chrono's `FixedOffset::east_opt`, `NaiveDate::from_ymd_opt`,
/// `NaiveDate::and_hms_milli_opt`, `TimeZone::from_local_datetime` and
/// `DateTime::timestamp_millis`: the instant of a calendar reading, which depends on the
/// reading and the offset alone.
#[verifier::external_body]
pub(crate) fn instant_at(c: CivilDateTime, offset: i32) -> (r: Option<i64>)
    ensures
        r == instant_of(c, offset),
{
    let zone = chrono::FixedOffset::east_opt(offset)?;
    let day = chrono::NaiveDate::from_ymd_opt(c.year, c.month, c.day)?;
    let local = day.and_hms_milli_opt(c.hour, c.minute, c.second, c.millisecond)?;
    Some(zone.from_local_datetime(&local).single()?.timestamp_millis())
}

} // verus!
