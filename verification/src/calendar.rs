//! Timestamps, and the calendar: which dates and times of day exist.
//!
//! Whether a date exists is asked of the `chrono` crate, which reckons by
//! the Gregorian calendar for every year, also those before its
//! introduction, and knows a limited range of years.

use vstd::prelude::*;

verus! {

/// The first year that `chrono` has dates for.
pub const MIN_YEAR: i32 = -262143;

/// The last year that `chrono` has dates for.
pub const MAX_YEAR: i32 = 262142;

/// February has 29 days in `year`.
pub open spec fn is_leap_year(year: int) -> bool {
    year % 4 == 0 && (year % 100 != 0 || year % 400 == 0)
}

/// The number of days of the month `month` (from 1 to 12) in `year`.
pub open spec fn days_in_month(year: int, month: int) -> int {
    if month == 2 {
        if is_leap_year(year) {
            29
        } else {
            28
        }
    } else if month == 4 || month == 6 || month == 9 || month == 11 {
        30
    } else {
        31
    }
}

/// `year`, `month`, `day` is a day of the calendar.
pub open spec fn is_calendar_date(year: int, month: int, day: int) -> bool {
    &&& MIN_YEAR <= year <= MAX_YEAR
    &&& 1 <= month <= 12
    &&& 1 <= day <= days_in_month(year, month)
}

/// `hour`, `minute`, `second` is a time of day.
pub open spec fn is_time_of_day(hour: int, minute: int, second: int) -> bool {
    0 <= hour < 24 && 0 <= minute < 60 && 0 <= second < 60
}

/// A date and a time of day, without a time zone.
#[derive(Debug, Clone, Copy, PartialEq, Eq, Structural)]
pub struct Timestamp {
    /// The year, by the Gregorian calendar; the year before year 1 is year 0.
    pub year: i32,
    /// The month, from 1 to 12.
    pub month: u32,
    /// The day of the month, from 1.
    pub day: u32,
    /// The hour, from 0 to 23.
    pub hour: u32,
    /// The minute, from 0 to 59.
    pub minute: u32,
    /// The second, from 0 to 59.
    pub second: u32,
}

impl Timestamp {
    /// The date is a day of the calendar and the time a time of day.
    pub open spec fn is_valid(&self) -> bool {
        &&& is_calendar_date(self.year as int, self.month as int, self.day as int)
        &&& is_time_of_day(self.hour as int, self.minute as int, self.second as int)
    }

    /// The year.
    pub fn year(&self) -> (year: i32)
        ensures
            year == self.year,
    {
        self.year
    }

    /// The month, from 1.
    pub fn month(&self) -> (month: u32)
        ensures
            month == self.month,
    {
        self.month
    }

    /// The day of the month, from 1.
    pub fn day(&self) -> (day: u32)
        ensures
            day == self.day,
    {
        self.day
    }

    /// The hour, from 0.
    pub fn hour(&self) -> (hour: u32)
        ensures
            hour == self.hour,
    {
        self.hour
    }

    /// The minute.
    pub fn minute(&self) -> (minute: u32)
        ensures
            minute == self.minute,
    {
        self.minute
    }

    /// The second.
    pub fn second(&self) -> (second: u32)
        ensures
            second == self.second,
    {
        self.second
    }
}

/// `chrono::NaiveDate`, a date of the calendar. Nothing is read from a
/// value of it.
#[verifier::external_type_specification]
#[verifier::external_body]
pub struct ExNaiveDate(chrono::NaiveDate);

/// `chrono::NaiveTime`, a time of day. Nothing is read from a value of
/// it.
#[verifier::external_type_specification]
#[verifier::external_body]
pub struct ExNaiveTime(chrono::NaiveTime);

/// `chrono::NaiveDate::from_ymd_opt` has a date for exactly the days of the
/// calendar: the year within `chrono`'s range, the month from 1 to 12, the
/// day from 1 to the length of the month.
pub assume_specification[ chrono::NaiveDate::from_ymd_opt ](year: i32, month: u32, day: u32) -> (date:
    Option<chrono::NaiveDate>)
    ensures
        date is Some <==> is_calendar_date(year as int, month as int, day as int),
;

/// `chrono::NaiveTime::from_hms_opt` has a time for exactly the hours below
/// 24 with minutes and seconds below 60.
pub assume_specification[ chrono::NaiveTime::from_hms_opt ](hour: u32, min: u32, sec: u32) -> (time:
    Option<chrono::NaiveTime>)
    ensures
        time is Some <==> is_time_of_day(hour as int, min as int, sec as int),
;

/// The timestamp for six numbers. A date that the calendar does not have
/// gives way to 1 January 1970, and a time that is no time of day to
/// midnight, each on its own.
pub open spec fn timestamp_of(
    year: i32,
    month: u32,
    day: u32,
    hour: u32,
    minute: u32,
    second: u32,
) -> Timestamp {
    let date_exists = is_calendar_date(year as int, month as int, day as int);
    let time_exists = is_time_of_day(hour as int, minute as int, second as int);
    Timestamp {
        year: if date_exists {
            year
        } else {
            1970
        },
        month: if date_exists {
            month
        } else {
            1
        },
        day: if date_exists {
            day
        } else {
            1
        },
        hour: if time_exists {
            hour
        } else {
            0
        },
        minute: if time_exists {
            minute
        } else {
            0
        },
        second: if time_exists {
            second
        } else {
            0
        },
    }
}

/// Puts six numbers together to a timestamp that exists.
pub fn make_timestamp(year: i32, month: u32, day: u32, hour: u32, minute: u32, second: u32) -> (stamp:
    Timestamp)
    ensures
        stamp == timestamp_of(year, month, day, hour, minute, second),
        stamp.is_valid(),
{
    let date_exists = chrono::NaiveDate::from_ymd_opt(year, month, day).is_some();
    let time_exists = chrono::NaiveTime::from_hms_opt(hour, minute, second).is_some();
    let mut stamp = Timestamp { year: 1970, month: 1, day: 1, hour: 0, minute: 0, second: 0 };
    if date_exists {
        stamp.year = year;
        stamp.month = month;
        stamp.day = day;
    }
    if time_exists {
        stamp.hour = hour;
        stamp.minute = minute;
        stamp.second = second;
    }
    stamp
}

} // verus!
