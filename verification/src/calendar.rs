//! Local dates and times of day, as the framework's calendar gives them.

use vstd::prelude::*;

use crate::arith::clamp_i64;
use crate::prefs::{Weekday, weekday_number};
use crate::store::paths::padded;

verus! {

/// Seconds in a day.
pub const DAY: i64 = 86_400;

/// The local date of the moment `seconds` after 1970-01-01 00:00 UTC, read in an offset of
/// `offset_minutes`, as the framework's calendar gives it: year, month and day.
pub uninterp spec fn date_of_unix(seconds: i64, offset_minutes: i16) -> (i32, u8, u8);

/// A moment on a local calendar and clock.
#[derive(Debug, Clone, Copy, PartialEq, Eq, Structural)]
pub struct Moment {
    pub year: i32,
    pub month: u8,
    pub day: u8,
    pub hour: u8,
    pub minute: u8,
    pub second: u8,
}

/// The local second of the moment `seconds`, read in an offset of `offset_minutes`.
pub open spec fn local_seconds(seconds: i64, offset_minutes: i16) -> int {
    clamp_i64(seconds + offset_minutes * 60)
}

/// The second of its day the moment falls on.
pub open spec fn second_of_day(seconds: i64, offset_minutes: i16) -> int {
    local_seconds(seconds, offset_minutes) % (DAY as int)
}

/// The moment `seconds` after 1970-01-01 00:00 UTC on the local calendar and clock of an offset of
/// `offset_minutes`.
pub open spec fn moment_at(seconds: i64, offset_minutes: i16) -> Moment {
    let s = second_of_day(seconds, offset_minutes);
    let (year, month, day) = date_of_unix(seconds, offset_minutes);
    Moment { year, month, day, hour: (s / 3600) as u8, minute: (s / 60 % 60) as u8, second: (s % 60) as u8 }
}

/// `qframe::date::DateTime::from_unix`: the local date and time of day of the moment `seconds`
/// after 1970-01-01 00:00 UTC, in an offset of `offset_minutes`. The time of day is the local
/// second (the offset added, held to an `i64`) taken modulo a day and split into hours, minutes
/// and seconds; the date is the framework's calendar's, named by [`date_of_unix`], with a month
/// from 1 to 12 and a day from 1 to 31.
#[verifier::external_body]
pub fn local_moment(seconds: i64, offset_minutes: i16) -> (moment: Moment)
    ensures
        (moment.year, moment.month, moment.day) == date_of_unix(seconds, offset_minutes),
        moment.hour == second_of_day(seconds, offset_minutes) / 3600,
        moment.minute == second_of_day(seconds, offset_minutes) / 60 % 60,
        moment.second == second_of_day(seconds, offset_minutes) % 60,
        1 <= moment.month <= 12,
        1 <= moment.day <= 31,
{
    let at = qframe::date::DateTime::from_unix(seconds, offset_minutes);
    Moment {
        year: at.date.year(),
        month: at.date.month(),
        day: at.date.day(),
        hour: at.time.hour,
        minute: at.time.minute,
        second: at.time.second,
    }
}

/// A moment as `YYYY-MM-DD-HHMMSS`.
pub open spec fn stamp_text(m: Moment) -> Seq<char> {
    padded(m.year as int, 4) + seq!['-'] + padded(m.month as int, 2) + seq!['-'] + padded(m.day as int, 2) + seq!['-']
        + padded(m.hour as int, 2) + padded(m.minute as int, 2) + padded(m.second as int, 2)
}

/// How far from 1970-01-01 a day number may lie for the framework's calendar to hold its year in
/// an `i32` and give the same day number back: about 1.5 billion years either way.
pub const CALENDAR_REACH: i64 = 549_755_813_888;

/// Whether the framework's calendar holds the day `day`.
pub open spec fn on_calendar(day: int) -> bool {
    -CALENDAR_REACH <= day <= CALENDAR_REACH
}

/// The weekday of the day `day`, 0 for Monday up to 6 for Sunday: 1970-01-01 was a Thursday.
pub open spec fn weekday_index(day: int) -> int {
    (day + 3) % 7
}

/// The first day of the week that holds `day`, for weeks that start on `start`.
pub open spec fn week_start_of(day: int, start: Weekday) -> int {
    day - (weekday_index(day) - (weekday_number(start) - 1) + 7) % 7
}

/// The date of the day `day`, `day` days after 1970-01-01: year, month and day of the month.
pub open spec fn date_of_day(day: i64) -> (i32, u8, u8) {
    date_of_unix((day * DAY) as i64, 0)
}

/// Whether `year` has a February 29.
pub open spec fn leap_year(year: int) -> bool {
    (year % 4 == 0 && year % 100 != 0) || year % 400 == 0
}

/// How many days `month` of `year` has; none for a month outside 1 to 12.
pub open spec fn month_days(year: int, month: int) -> int {
    if month == 1 || month == 3 || month == 5 || month == 7 || month == 8 || month == 10 || month == 12 {
        31
    } else if month == 4 || month == 6 || month == 9 || month == 11 {
        30
    } else if month == 2 {
        if leap_year(year) { 29 } else { 28 }
    } else {
        0
    }
}

/// The first day of the calendar month that holds the day `day`: as many days back as the
/// date of `day` is past the first of its month.
pub open spec fn month_first(day: i64) -> i64 {
    (day - date_of_day(day).2 + 1) as i64
}

/// How many days the calendar month that holds the day `day` has.
pub open spec fn month_length(day: i64) -> u8 {
    month_days(date_of_day(day).0 as int, date_of_day(day).1 as int) as u8
}

/// `qframe::date::Date::start_of_week` on the date of the day `day`: the framework goes back
/// from the date by the days from `start` to its weekday, a weekday being counted from
/// 1970-01-01, a Thursday.
#[verifier::external_body]
pub(crate) fn week_start(day: i64, start: Weekday) -> (first: i64)
    requires
        on_calendar(day as int),
    ensures
        first == week_start_of(day as int, start),
{
    let start = match start {
        Weekday::Monday => qframe::date::Weekday::Monday,
        Weekday::Tuesday => qframe::date::Weekday::Tuesday,
        Weekday::Wednesday => qframe::date::Weekday::Wednesday,
        Weekday::Thursday => qframe::date::Weekday::Thursday,
        Weekday::Friday => qframe::date::Weekday::Friday,
        Weekday::Saturday => qframe::date::Weekday::Saturday,
        Weekday::Sunday => qframe::date::Weekday::Sunday,
    };
    qframe::date::Date::from_days(day).start_of_week(start).to_days()
}

/// `qframe::date::Date::first_of_month` on the date of the day `day`, turned back into a day
/// number: the first of its month, as many days back as the date is past the first of it, which
/// is at most 30.
#[verifier::external_body]
pub(crate) fn first_of_month(day: i64) -> (first: i64)
    requires
        on_calendar(day as int),
    ensures
        first == month_first(day),
        first <= day <= first + 30,
{
    qframe::date::Date::from_days(day).first_of_month().to_days()
}

/// `qframe::date::days_in_month` for the year and month of the date of the day `day`: the month
/// table with February's leap day, from 28 to 31, and long enough to reach from the first of the
/// month to `day`.
#[verifier::external_body]
pub(crate) fn days_in_month(day: i64) -> (length: u8)
    requires
        on_calendar(day as int),
    ensures
        length == month_length(day),
        28 <= length <= 31,
        day < month_first(day) + length,
{
    let date = qframe::date::Date::from_days(day);
    qframe::date::days_in_month(date.year(), date.month())
}

} // verus!
