//! Calendar days, wall-clock times and ISO weeks.
//!
//! A `Date` always names a day that exists in the proleptic Gregorian calendar
//! and a `DateTime` always names a second of such a day.

use chrono::{Datelike, Timelike};
use vstd::prelude::*;

verus! {

pub const FIRST_YEAR: i32 = -262143;

pub const LAST_YEAR: i32 = 262142;

pub open spec fn is_leap(year: int) -> bool {
    year % 4 == 0 && (year % 100 != 0 || year % 400 == 0)
}

pub open spec fn days_in_month(year: int, month: int) -> int {
    if month == 2 {
        if is_leap(year) {
            29
        } else {
            28
        }
    } else if month == 4 || month == 6 || month == 9 || month == 11 {
        30
    } else {
        31
    }
}

/// A day as year, month and day of the month.
pub struct Ymd {
    pub year: int,
    pub month: int,
    pub day: int,
}

/// Whether the calendar has the day.
pub open spec fn exists_day(d: Ymd) -> bool {
    &&& FIRST_YEAR <= d.year <= LAST_YEAR
    &&& 1 <= d.month <= 12
    &&& 1 <= d.day <= days_in_month(d.year, d.month)
}

/// The days of a non-leap year before the first of the month.
pub open spec fn days_before_month(month: int) -> int {
    if month <= 1 {
        0
    } else if month == 2 {
        31
    } else if month == 3 {
        59
    } else if month == 4 {
        90
    } else if month == 5 {
        120
    } else if month == 6 {
        151
    } else if month == 7 {
        181
    } else if month == 8 {
        212
    } else if month == 9 {
        243
    } else if month == 10 {
        273
    } else if month == 11 {
        304
    } else {
        334
    }
}

/// The days from the start of year 1 to the start of `year`.
pub open spec fn days_before_year(year: int) -> int {
    365 * (year - 1) + (year - 1) / 4 - (year - 1) / 100 + (year - 1) / 400
}

/// The number of a day, where the first of January of year 1, a Monday, is 1.
pub open spec fn day_number(d: Ymd) -> int {
    let leap_day: int = if d.month > 2 && is_leap(d.year) {
        1
    } else {
        0
    };
    days_before_year(d.year) + days_before_month(d.month) + leap_day + d.day
}

/// The Thursday of the week, Monday to Sunday, that holds the day.
pub open spec fn thursday_of(d: Ymd) -> int {
    day_number(d) - (day_number(d) - 1) % 7 + 3
}

/// The ISO 8601 year: the calendar year of the week's Thursday.
pub open spec fn iso_year(d: Ymd) -> int {
    if thursday_of(d) <= days_before_year(d.year) {
        d.year - 1
    } else if thursday_of(d) > days_before_year(d.year + 1) {
        d.year + 1
    } else {
        d.year
    }
}

/// The ISO 8601 week: how many Thursdays of the ISO year there have been.
pub open spec fn iso_week_number(d: Ymd) -> int {
    (thursday_of(d) - days_before_year(iso_year(d)) - 1) / 7 + 1
}

/// A day of the calendar.
#[derive(Debug, Clone, Copy, PartialEq, Eq, Structural, Hash)]
pub struct Date {
    pub(crate) year: i32,
    pub(crate) month: u32,
    pub(crate) day: u32,
}

impl View for Date {
    type V = Ymd;

    closed spec fn view(&self) -> Ymd {
        Ymd { year: self.year as int, month: self.month as int, day: self.day as int }
    }
}

/// `chrono::NaiveDate::from_ymd_opt` succeeds exactly on the days that exist in
/// the proleptic Gregorian calendar between the first and the last year that the
/// crate can represent.
#[verifier::external_body]
fn ymd_exists(year: i32, month: u32, day: u32) -> (b: bool)
    ensures
        b == exists_day((Ymd { year: year as int, month: month as int, day: day as int })),
{
    chrono::NaiveDate::from_ymd_opt(year, month, day).is_some()
}

/// `chrono::NaiveTime::from_hms_opt` succeeds exactly on the hours below 24, the
/// minutes below 60 and the seconds below 60.
#[verifier::external_body]
pub(crate) fn hms_exists(hour: u32, minute: u32, second: u32) -> (b: bool)
    ensures
        b == exists_time(hour as int, minute as int, second as int),
{
    chrono::NaiveTime::from_hms_opt(hour, minute, second).is_some()
}

/// `chrono::Datelike::iso_week` gives the ISO 8601 year and week of a day, where
/// a week runs from Monday to Sunday and belongs to the year of its Thursday.
#[verifier::external_body]
fn iso_week_of(year: i32, month: u32, day: u32) -> (w: (i32, u32))
    requires
        exists_day((Ymd { year: year as int, month: month as int, day: day as int })),
    ensures
        w.0 == iso_year((Ymd { year: year as int, month: month as int, day: day as int })),
        w.1 == iso_week_number((Ymd { year: year as int, month: month as int, day: day as int })),
{
    let week = chrono::NaiveDate::from_ymd_opt(year, month, day).unwrap().iso_week();
    (week.year(), week.week())
}

impl Date {
    #[verifier::type_invariant]
    closed spec fn valid(self) -> bool {
        exists_day(self@)
    }

    /// The day, where there is one.
    pub fn new(year: i32, month: u32, day: u32) -> (r: Option<Date>)
        ensures
            match r {
                Some(d) => d@ == (Ymd { year: year as int, month: month as int, day: day as int })
                    && exists_day(d@),
                None => !exists_day(
                    (Ymd { year: year as int, month: month as int, day: day as int }),
                ),
            },
    {
        if ymd_exists(year, month, day) {
            Some(Date { year, month, day })
        } else {
            None
        }
    }

    pub fn year(self) -> (y: i32)
        ensures
            y == self@.year,
            exists_day(self@),
    {
        proof {
            use_type_invariant(self);
        }
        self.year
    }

    pub fn month(self) -> (m: u32)
        ensures
            m == self@.month,
            exists_day(self@),
    {
        proof {
            use_type_invariant(self);
        }
        self.month
    }

    pub fn day(self) -> (d: u32)
        ensures
            d == self@.day,
            exists_day(self@),
    {
        proof {
            use_type_invariant(self);
        }
        self.day
    }

    /// The ISO year and week, taken together: the last days of December can
    /// belong to week 1 of the next year.
    pub fn iso_week(self) -> (w: (i32, u32))
        ensures
            w.0 == iso_year(self@),
            w.1 == iso_week_number(self@),
    {
        proof {
            use_type_invariant(self);
        }
        iso_week_of(self.year, self.month, self.day)
    }

    /// Two dates of the same day are the same value.
    pub proof fn view_decides(a: Date, b: Date)
        ensures
            a@ == b@ ==> a == b,
    {
    }
}

/// A second of a day, without a time zone.
#[derive(Debug, Clone, Copy, PartialEq, Eq, Structural, Hash)]
pub struct DateTime {
    pub(crate) date: Date,
    pub(crate) hour: u32,
    pub(crate) minute: u32,
    pub(crate) second: u32,
}

/// What a `DateTime` stands for.
pub struct Moment {
    pub day: Ymd,
    pub hour: int,
    pub minute: int,
    pub second: int,
}

impl View for DateTime {
    type V = Moment;

    closed spec fn view(&self) -> Moment {
        Moment {
            day: self.date@,
            hour: self.hour as int,
            minute: self.minute as int,
            second: self.second as int,
        }
    }
}

pub open spec fn exists_time(hour: int, minute: int, second: int) -> bool {
    0 <= hour < 24 && 0 <= minute < 60 && 0 <= second < 60
}

pub open spec fn at_midnight(day: Ymd) -> Moment {
    Moment { day, hour: 0, minute: 0, second: 0 }
}

/// A day at a time, where the time exists.
pub open spec fn at_time(day: Ymd, hour: int, minute: int, second: int) -> Option<Moment> {
    if exists_time(hour, minute, second) {
        Some(Moment { day, hour, minute, second })
    } else {
        None
    }
}

impl DateTime {
    #[verifier::type_invariant]
    closed spec fn valid(self) -> bool {
        exists_time(self.hour as int, self.minute as int, self.second as int)
    }

    /// The day at the given time, where there is such a time.
    pub fn new(date: Date, hour: u32, minute: u32, second: u32) -> (r: Option<DateTime>)
        ensures
            match r {
                Some(t) => at_time(date@, hour as int, minute as int, second as int) == Some(t@),
                None => at_time(date@, hour as int, minute as int, second as int) is None,
            },
    {
        if hms_exists(hour, minute, second) {
            Some(DateTime { date, hour, minute, second })
        } else {
            None
        }
    }

    pub fn midnight(date: Date) -> (t: DateTime)
        ensures
            t@ == at_midnight(date@),
    {
        DateTime { date, hour: 0, minute: 0, second: 0 }
    }

    pub fn date(self) -> (d: Date)
        ensures
            d@ == self@.day,
            exists_day(self@.day),
            exists_time(self@.hour, self@.minute, self@.second),
    {
        proof {
            use_type_invariant(self);
            use_type_invariant(self.date);
        }
        self.date
    }

    pub fn year(self) -> (y: i32)
        ensures
            y == self@.day.year,
            exists_day(self@.day),
    {
        self.date.year()
    }

    pub fn hour(self) -> (h: u32)
        ensures
            h == self@.hour,
    {
        self.hour
    }

    pub fn minute(self) -> (m: u32)
        ensures
            m == self@.minute,
    {
        self.minute
    }

    pub fn second(self) -> (s: u32)
        ensures
            s == self@.second,
    {
        self.second
    }

    /// Two values of the same second are the same value.
    pub proof fn view_decides(a: DateTime, b: DateTime)
        ensures
            a@ == b@ ==> a == b,
    {
    }
}

/// The number of the first of January 1970.
pub const EPOCH_DAY: i64 = 719163;

/// The farthest from 1970, in seconds, that a moment is told apart from noise.
pub const CLOCK_RANGE: i64 = 8_000_000_000_000;

/// The seconds from the start of 1970 to a moment, both on one clock.
pub open spec fn seconds_of(m: Moment) -> int {
    (day_number(m.day) - EPOCH_DAY) * 86_400 + m.hour * 3_600 + m.minute * 60 + m.second
}

/// A moment with its offset from UTC taken into account, by
/// `chrono::DateTime::from_timestamp` and a conversion to `chrono::Local`. The
/// machine's time zone decides the offset; it is less than a day either way.
#[verifier::external_body]
fn local_clock(secs: i64, nanos: u32) -> (r: (i32, u32, u32, u32, u32, u32))
    requires
        -CLOCK_RANGE <= secs <= CLOCK_RANGE,
        nanos < 1_000_000_000,
    ensures
        exists_day((Ymd { year: r.0 as int, month: r.1 as int, day: r.2 as int })),
        exists_time(r.3 as int, r.4 as int, r.5 as int),
        -86_400 < seconds_of(
            (Moment {
                day: (Ymd { year: r.0 as int, month: r.1 as int, day: r.2 as int }),
                hour: r.3 as int,
                minute: r.4 as int,
                second: r.5 as int,
            }),
        ) - secs < 86_400,
{
    let utc = chrono::DateTime::<chrono::Utc>::from_timestamp(secs, nanos).unwrap();
    let t = utc.with_timezone(&chrono::Local).naive_local();
    (t.year(), t.month(), t.day(), t.hour(), t.minute(), t.second())
}

/// Whether a wall clock may show this at a moment that is told in seconds and
/// nanoseconds since the start of 1970 in UTC: there is a time for every moment in
/// the range, and it is less than a day away.
pub open spec fn may_show(clock: Option<DateTime>, secs: i64, nanos: u32) -> bool {
    match clock {
        Some(t) => -CLOCK_RANGE <= secs <= CLOCK_RANGE && nanos < 1_000_000_000 && -86_400
            < seconds_of(t@) - secs < 86_400,
        None => !(-CLOCK_RANGE <= secs <= CLOCK_RANGE && nanos < 1_000_000_000),
    }
}

/// The wall clock of this machine at a moment that is told in seconds and
/// nanoseconds since the start of 1970 in UTC.
pub fn local_time(secs: i64, nanos: u32) -> (r: Option<DateTime>)
    ensures
        may_show(r, secs, nanos),
{
    if secs < -CLOCK_RANGE || secs > CLOCK_RANGE || nanos >= 1_000_000_000 {
        return None;
    }
    let t = local_clock(secs, nanos);
    Some(
        DateTime {
            date: Date { year: t.0, month: t.1, day: t.2 },
            hour: t.3,
            minute: t.4,
            second: t.5,
        },
    )
}

/// The calendar year that the machine's clock shows in its time zone, by
/// `chrono::Local::now`. Nothing is known of it.
#[verifier::external_body]
pub(crate) fn current_year() -> (year: i32) {
    chrono::Local::now().year()
}

proof fn lemma_year_length(year: int)
    ensures
        days_before_year(year + 1) - days_before_year(year) == (if is_leap(year) {
            366int
        } else {
            365int
        }),
{
    let p = year - 1;
    assert(year / 4 - p / 4 == if year % 4 == 0 { 1int } else { 0int });
    assert(year / 100 - p / 100 == if year % 100 == 0 { 1int } else { 0int });
    assert(year / 400 - p / 400 == if year % 400 == 0 { 1int } else { 0int });
    assert(year % 400 == 0 ==> year % 100 == 0);
    assert(year % 100 == 0 ==> year % 4 == 0);
}

proof fn lemma_years_grow(a: int, b: int)
    requires
        a <= b,
    ensures
        days_before_year(a) <= days_before_year(b),
    decreases b - a,
{
    if a < b {
        lemma_year_length(b - 1);
        lemma_years_grow(a, b - 1);
    }
}

/// The days of a year are numbered from its start.
proof fn lemma_day_in_year(d: Ymd)
    requires
        exists_day(d),
    ensures
        days_before_year(d.year) < day_number(d) <= days_before_year(d.year + 1),
{
    lemma_year_length(d.year);
}

/// The ISO year is the one that the Thursday of the week lies in.
proof fn lemma_iso_year(d: Ymd)
    requires
        exists_day(d),
    ensures
        days_before_year(iso_year(d)) < thursday_of(d) <= days_before_year(iso_year(d) + 1),
        1 <= iso_week_number(d) <= 53,
        d.year - 1 <= iso_year(d) <= d.year + 1,
{
    lemma_day_in_year(d);
    lemma_year_length(d.year - 1);
    lemma_year_length(d.year);
    lemma_year_length(d.year + 1);
}

/// Two days share their ISO year and week exactly if no Monday comes between them: the
/// first of January of year 1 is a Monday, and every seventh day from there on. The
/// weeks of an ISO year are numbered from 1 to 53 at most.
pub proof fn iso_weeks_run_from_monday_to_sunday(a: Ymd, b: Ymd)
    requires
        exists_day(a),
        exists_day(b),
    ensures
        iso_year(a) == iso_year(b) && iso_week_number(a) == iso_week_number(b) <==> (day_number(a)
            - 1) / 7 == (day_number(b) - 1) / 7,
        1 <= iso_week_number(a) <= 53,
        a.year - 1 <= iso_year(a) <= a.year + 1,
{
    lemma_iso_year(a);
    lemma_iso_year(b);
    assert(thursday_of(a) == 7 * ((day_number(a) - 1) / 7) + 4);
    assert(thursday_of(b) == 7 * ((day_number(b) - 1) / 7) + 4);
    if thursday_of(a) == thursday_of(b) {
        if iso_year(a) < iso_year(b) {
            lemma_years_grow(iso_year(a) + 1, iso_year(b));
        } else if iso_year(b) < iso_year(a) {
            lemma_years_grow(iso_year(b) + 1, iso_year(a));
        }
    }
}

/// The days are numbered one after the other: within a month, from one month to the next
/// and from one year to the next.
pub proof fn days_are_numbered_in_order(d: Ymd)
    requires
        exists_day(d),
    ensures
        d.day > 1 ==> day_number(d) == day_number(Ymd { day: d.day - 1, ..d }) + 1,
        d.day == 1 && d.month > 1 ==> day_number(d) == day_number(
            Ymd { month: d.month - 1, day: days_in_month(d.year, d.month - 1), ..d },
        ) + 1,
        d.day == 1 && d.month == 1 ==> day_number(d) == day_number(
            Ymd { year: d.year - 1, month: 12, day: 31 },
        ) + 1,
        day_number(Ymd { year: 1, month: 1, day: 1 }) == 1,
{
    lemma_year_length(d.year - 1);
    assert(days_before_year(1) == 0);
}

proof fn lemma_years_apart(a: int, b: int)
    requires
        a < b,
    ensures
        days_before_year(b) - days_before_year(a) >= 365,
{
    lemma_year_length(a);
    lemma_years_grow(a + 1, b);
}

/// Where a Thursday lies in its ISO year, by the number of its week.
proof fn lemma_thursday(d: Ymd)
    ensures
        7 * (iso_week_number(d) - 1) < thursday_of(d) - days_before_year(iso_year(d)) <= 7
            * iso_week_number(d),
        day_number(d) - 3 <= thursday_of(d) <= day_number(d) + 3,
{
}

/// Days of one month are in one week from Monday to Sunday exactly if the number of
/// their ISO week is the same.
pub proof fn weeks_of_a_month_go_by_their_numbers(a: Ymd, b: Ymd)
    requires
        exists_day(a),
        exists_day(b),
        a.year == b.year,
        a.month == b.month,
    ensures
        iso_week_number(a) == iso_week_number(b) <==> (day_number(a) - 1) / 7 == (day_number(b) - 1)
            / 7,
{
    iso_weeks_run_from_monday_to_sunday(a, b);
    if iso_week_number(a) == iso_week_number(b) {
        lemma_thursday(a);
        lemma_thursday(b);
        assert(day_number(a) - day_number(b) == a.day - b.day);
        if iso_year(a) < iso_year(b) {
            lemma_years_apart(iso_year(a), iso_year(b));
        } else if iso_year(b) < iso_year(a) {
            lemma_years_apart(iso_year(b), iso_year(a));
        }
    }
}

} // verus!
