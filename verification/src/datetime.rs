//! Points in time, as the filters of the routes take them.
//!
//! The texts are read by the `time` crate. What it reads is kept as plain
//! values: the Julian day of the local date, the local time of day and the
//! offset from UTC.

use vstd::prelude::*;
use time::format_description::well_known::Rfc3339;
use time::{Date, Duration, OffsetDateTime, Time};

verus! {

/// A date and a time of day at an offset from UTC.
#[derive(Debug, Clone, Copy, PartialEq, Eq, Structural)]
pub struct DateTime {
    /// The Julian day of the date.
    pub julian_day: i32,
    pub hour: u8,
    pub minute: u8,
    pub second: u8,
    pub nanosecond: u32,
    /// The offset of the local time from UTC, in seconds.
    pub offset_seconds: i32,
}

/// The date and time that `OffsetDateTime::parse` reads in a text under
/// the format `Rfc3339`, or `None` if it refuses the text.
pub uninterp spec fn rfc3339_datetime(value: Seq<char>) -> Option<DateTime>;

/// The Julian day of the date that `Date::parse` reads in a text under the
/// format year, month, day, separated by hyphens, or `None` if it refuses
/// the text.
pub uninterp spec fn calendar_date_julian_day(value: Seq<char>) -> Option<i32>;

/// The Julian day of midnight UTC of the given day plus one day, as
/// `OffsetDateTime::checked_add` computes it, or `None` if the `time` crate
/// has no such date.
pub uninterp spec fn day_after(julian_day: i32) -> Option<i32>;

/// `OffsetDateTime::parse` with `Rfc3339`: reads a full date and time with
/// offset. The contract names the result and says no more.
#[verifier::external_body]
pub(crate) fn parse_rfc3339(value: &str) -> (parsed: Option<DateTime>)
    ensures
        parsed == rfc3339_datetime(value@),
{
    match OffsetDateTime::parse(value, &Rfc3339) {
        Ok(datetime) => Some(
            DateTime {
                julian_day: datetime.to_julian_day(),
                hour: datetime.hour(),
                minute: datetime.minute(),
                second: datetime.second(),
                nanosecond: datetime.nanosecond(),
                offset_seconds: datetime.offset().whole_seconds(),
            },
        ),
        Err(_) => None,
    }
}

/// `Date::parse` with the format `[year]-[month]-[day]`: reads a calendar
/// date. The contract names the result and says no more.
#[verifier::external_body]
pub(crate) fn parse_calendar_date(value: &str) -> (day: Option<i32>)
    ensures
        day == calendar_date_julian_day(value@),
{
    let format = time::format_description::parse(
        "[year repr:full base:calendar]-[month repr:numerical]-[day]",
    ).ok()?;
    Date::parse(value, &format).ok().map(|date| date.to_julian_day())
}

/// `Date::from_julian_day`, then `OffsetDateTime::checked_add` of one day
/// to midnight UTC of that day. The contract names the result and says
/// that, when there is one, it is the day that follows.
#[verifier::external_body]
pub(crate) fn midnight_one_day_later(julian_day: i32) -> (next: Option<i32>)
    ensures
        next == day_after(julian_day),
        next matches Some(day) ==> day == julian_day + 1,
{
    let midnight = Date::from_julian_day(julian_day).ok()?.with_time(Time::MIDNIGHT).assume_utc();
    midnight.checked_add(Duration::days(1)).map(|datetime| datetime.to_julian_day())
}

impl DateTime {
    /// Midnight UTC of a day.
    pub open spec fn spec_midnight_utc(julian_day: i32) -> DateTime {
        DateTime { julian_day, hour: 0, minute: 0, second: 0, nanosecond: 0, offset_seconds: 0 }
    }

    /// Returns midnight UTC of a day.
    pub fn midnight_utc(julian_day: i32) -> (midnight: DateTime)
        ensures
            midnight == Self::spec_midnight_utc(julian_day),
    {
        DateTime { julian_day, hour: 0, minute: 0, second: 0, nanosecond: 0, offset_seconds: 0 }
    }

    /// The instant of the date and time: the nanoseconds from midnight UTC
    /// of Julian day zero.
    pub open spec fn instant(self) -> int {
        (self.julian_day as int) * 86_400_000_000_000 + ((self.hour as int) * 3600 + (
        self.minute as int) * 60 + (self.second as int) - (self.offset_seconds as int))
            * 1_000_000_000 + (self.nanosecond as int)
    }

    /// Computes the instant of the date and time.
    pub fn to_instant(&self) -> (instant: i128)
        ensures
            instant == self.instant(),
    {
        let seconds: i128 = (self.hour as i128) * 3600 + (self.minute as i128) * 60 + (
        self.second as i128) - (self.offset_seconds as i128);
        (self.julian_day as i128) * 86_400_000_000_000 + seconds * 1_000_000_000 + (
        self.nanosecond as i128)
    }

    /// Tells whether this instant is not before `bound`.
    pub fn is_at_or_after(&self, bound: &DateTime) -> (yes: bool)
        ensures
            yes == (self.instant() >= bound.instant()),
    {
        self.to_instant() >= bound.to_instant()
    }

    /// Tells whether this instant is not after `bound`.
    pub fn is_at_or_before(&self, bound: &DateTime) -> (yes: bool)
        ensures
            yes == (self.instant() <= bound.instant()),
    {
        self.to_instant() <= bound.to_instant()
    }
}

} // verus!
