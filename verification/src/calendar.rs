//! Local hours, days and calendar periods.
//!
//! What the clock on the wall shows is read through chrono, which knows the time zone of the
//! machine. Everything that is computed from it is a function of plain values.
use chrono::{Datelike, Local, NaiveDate, Offset, TimeDelta, TimeZone, Timelike};
use vstd::prelude::*;

use crate::counters::sat_add;
use crate::table::{get_or, law_put_get, law_put_get_other, occurs, put, Table};

verus! {

/// Milliseconds of an hour.
pub const HOUR_MS: u64 = 3_600_000;

/// Milliseconds of a day.
pub const DAY_MS: u64 = 86_400_000;

/// The first instant that chrono knows, the start of -262143-01-01 in UTC.
pub const FIRST_INSTANT_MS: i64 = -8_334_601_228_800_000;

/// The last instant that chrono knows, the end of 262142-12-31 in UTC.
pub const LAST_INSTANT_MS: i64 = 8_210_266_876_799_999;

/// The farthest that local time can be from UTC.
pub const MAX_OFFSET_MS: i64 = 86_399_000;

/// A date of the proleptic Gregorian calendar.
#[derive(Debug, Clone, Copy, PartialEq, Eq, Structural)]
pub struct CivilDate {
    pub year: i32,
    pub month: u32,
    pub day: u32,
}

/// What the clock on the wall shows. Weekdays count from Monday as zero.
#[derive(Debug, Clone, Copy, PartialEq, Eq, Structural)]
pub struct LocalTime {
    pub date: CivilDate,
    pub weekday: u32,
    pub hour: u32,
    pub minute: u32,
    pub second: u32,
    pub millis: u32,
}

/// The year has a 29th of February.
pub open spec fn leap_year(year: int) -> bool {
    year % 4 == 0 && (year % 100 != 0 || year % 400 == 0)
}

/// The number of days of a month.
pub open spec fn month_len(year: int, month: int) -> int {
    if month == 2 {
        if leap_year(year) {
            29
        } else {
            28
        }
    } else if month == 4 || month == 6 || month == 9 || month == 11 {
        30
    } else {
        31
    }
}

/// The number of days of the year before the first of a month.
pub open spec fn days_before_month(year: int, month: int) -> int
    decreases month,
{
    if month <= 1 {
        0
    } else {
        days_before_month(year, month - 1) + month_len(year, month - 1)
    }
}

/// The number of days from 1970-01-01 to the first of January of a year.
pub open spec fn days_before_year(year: int) -> int {
    365 * (year - 1970) + (year - 1969) / 4 - (year - 1901) / 100 + (year - 1601) / 400
}

impl CivilDate {
    /// The date exists, and lies in the years that chrono knows.
    pub open spec fn valid(self) -> bool {
        &&& -262143 <= self.year <= 262142
        &&& 1 <= self.month <= 12
        &&& 1 <= self.day <= month_len(self.year as int, self.month as int)
    }

    /// The number of days from 1970-01-01.
    pub open spec fn day_number(self) -> int {
        days_before_year(self.year as int) + days_before_month(
            self.year as int,
            self.month as int,
        ) + self.day - 1
    }
}

impl LocalTime {
    /// Milliseconds since local midnight.
    pub open spec fn day_ms(self) -> int {
        ((self.hour * 60 + self.minute) * 60 + self.second) * 1000 + self.millis
    }

    /// Milliseconds since the local hour began.
    pub open spec fn hour_ms(self) -> int {
        (self.minute * 60 + self.second) * 1000 + self.millis
    }

    /// Milliseconds from local midnight of 1970-01-01, as the clock on the wall counts them.
    pub open spec fn wall_ms(self) -> int {
        self.date.day_number() * 86_400_000 + self.day_ms()
    }

    /// The fields are those of some time of a valid date.
    pub open spec fn valid(self) -> bool {
        &&& self.date.valid()
        &&& self.weekday == (self.date.day_number() + 3) % 7
        &&& self.hour < 24
        &&& self.minute < 60
        &&& self.second < 60
        &&& self.millis < 1000
    }

    /// Some offset from UTC, of whole seconds and less than a day, makes this the local time of
    /// `ms`.
    pub open spec fn shows(self, ms: int) -> bool {
        &&& self.valid()
        &&& -86_400_000 < self.wall_ms() - ms < 86_400_000
        &&& (self.wall_ms() - ms) % 1000 == 0
    }
}

/// Some offset from UTC, of whole seconds and less than a day, makes `ms` the instant at which
/// the clock on the wall shows second `second_of_day` of a date.
pub open spec fn shown_at(date: CivilDate, second_of_day: int, ms: int) -> bool {
    &&& -86_400_000 < date.day_number() * 86_400_000 + second_of_day * 1000 - ms < 86_400_000
    &&& (date.day_number() * 86_400_000 + second_of_day * 1000 - ms) % 1000 == 0
}

/// `t` may be the local time of `ms`. There is none where `ms` is not an instant that chrono
/// knows, or where the offset from UTC leads out of the dates that it knows.
pub open spec fn may_show(ms: int, t: Option<LocalTime>) -> bool {
    match t {
        Some(t) => t.shows(ms) && FIRST_INSTANT_MS <= ms <= LAST_INSTANT_MS,
        None => ms - MAX_OFFSET_MS < FIRST_INSTANT_MS || LAST_INSTANT_MS < ms + MAX_OFFSET_MS,
    }
}

/// The local time of an instant: `timestamp_millis_opt` of chrono's `Local`, whose UTC time and
/// offset `checked_add_offset` of `NaiveDateTime` adds up, taken apart by its accessors. There is
/// one for every instant that is in chrono's range both in UTC and by the clock on the wall, at
/// an offset of whole seconds and less than a day from UTC. Which offset that is rests on the
/// time zone of the machine.
#[verifier::external_body]
fn local_time(ms: i64) -> (r: Option<LocalTime>)
    ensures
        may_show(ms as int, r),
{
    let at = Local.timestamp_millis_opt(ms).single()?;
    let wall = at.naive_utc().checked_add_offset(at.offset().fix())?;
    Some(LocalTime {
        date: CivilDate { year: wall.year(), month: wall.month(), day: wall.day() },
        weekday: wall.weekday().num_days_from_monday(),
        hour: wall.hour(),
        minute: wall.minute(),
        second: wall.second(),
        millis: wall.and_utc().timestamp_subsec_millis(),
    })
}

/// The instant of a local time: `from_local_datetime` of chrono's `Local`, as far as there is
/// exactly one. Whether there is, and at which offset of whole seconds and less than a day from
/// UTC, rests on the time zone of the machine.
#[verifier::external_body]
fn local_instant(date: CivilDate, hour: u32, minute: u32, second: u32) -> (r: Option<i64>)
    requires
        date.valid(),
        hour < 24,
        minute < 60,
        second < 60,
    ensures
        r matches Some(ms) ==> shown_at(date, (hour * 60 + minute) * 60 + second, ms as int),
{
    NaiveDate::from_ymd_opt(date.year, date.month, date.day)
        .and_then(|d| d.and_hms_opt(hour, minute, second))
        .and_then(|at| Local.from_local_datetime(&at).single())
        .map(|at| at.timestamp_millis())
}

/// `r` is what the time zone of the machine gave for a local time, in some call.
pub closed spec fn zone_gave(
    date: CivilDate,
    hour: u32,
    minute: u32,
    second: u32,
    r: Option<i64>,
) -> bool {
    call_ensures(local_instant, (date, hour, minute, second), r)
}

/// `t` is the local time that the time zone of the machine gave for an instant, in some call.
pub closed spec fn zone_showed(ms: i64, t: Option<LocalTime>) -> bool {
    call_ensures(local_time, (ms,), t)
}

/// What `ask` gives for an instant.
fn shown_by<F: Fn(i64) -> Option<LocalTime>>(ask: F, ms: i64) -> (t: Option<LocalTime>)
    requires
        call_requires(ask, (ms,)),
    ensures
        call_ensures(ask, (ms,), t),
{
    ask(ms)
}

/// What `ask` gives for a local time.
fn given_by<F: Fn(CivilDate, u32, u32, u32) -> Option<i64>>(
    ask: F,
    date: CivilDate,
    hour: u32,
    minute: u32,
    second: u32,
) -> (r: Option<i64>)
    requires
        call_requires(ask, (date, hour, minute, second)),
    ensures
        call_ensures(ask, (date, hour, minute, second), r),
{
    ask(date, hour, minute, second)
}

/// The local time of an instant, as the time zone of the machine gives it.
fn wall_clock(ms: i64) -> (t: Option<LocalTime>)
    ensures
        zone_showed(ms, t),
        may_show(ms as int, t),
{
    shown_by(local_time, ms)
}

/// The instant of a local time, as the time zone of the machine gives it.
fn zone_instant(date: CivilDate, hour: u32, minute: u32, second: u32) -> (r: Option<i64>)
    requires
        date.valid(),
        hour < 24,
        minute < 60,
        second < 60,
    ensures
        zone_gave(date, hour, minute, second, r),
        r matches Some(ms) ==> shown_at(date, (hour * 60 + minute) * 60 + second, ms as int),
{
    given_by(local_instant, date, hour, minute, second)
}

/// The date some days later: `checked_add_signed` of chrono's `NaiveDate`. There is one where it
/// is not past the years that chrono knows, -262143-01-01 to 262142-12-31.
#[verifier::external_body]
fn shifted_date(date: CivilDate, days: i64) -> (r: Option<CivilDate>)
    requires
        date.valid(),
        -1000 <= days <= 1000,
    ensures
        r is Some <==> -96_465_292 <= date.day_number() + days <= 95_026_236,
        r matches Some(d) ==> d.valid() && d.day_number() == date.day_number() + days,
{
    NaiveDate::from_ymd_opt(date.year, date.month, date.day)
        .and_then(|d| d.checked_add_signed(TimeDelta::days(days)))
        .map(|d| CivilDate { year: d.year(), month: d.month(), day: d.day() })
}

/// A calendar period relative to today.
#[derive(Debug, Clone, Copy, PartialEq, Eq, Structural)]
pub enum PeriodScope {
    Today,
    Yesterday,
    ThisWeek,
    LastWeek,
    ThisMonth,
    LastMonth,
}

/// The days since the week began. Weeks begin the day after the one that counts as zero.
pub open spec fn days_into_week(weekday: int) -> int {
    (weekday + 6) % 7
}

/// The first of the month that follows in the same year, or the first of December.
pub open spec fn next_month_day(date: CivilDate) -> int {
    CivilDate {
        year: date.year,
        month: if date.month < 12 {
            (date.month + 1) as u32
        } else {
            12
        },
        day: 1,
    }.day_number()
}

/// The first of a date's month.
pub open spec fn month_start(date: CivilDate) -> CivilDate {
    CivilDate { year: date.year, month: date.month, day: 1 }
}

/// The first of the month before a date's.
pub open spec fn last_month_start(date: CivilDate) -> CivilDate {
    if date.month == 1 {
        CivilDate { year: (date.year - 1) as i32, month: 12, day: 1 }
    } else {
        CivilDate { year: date.year, month: (date.month - 1) as u32, day: 1 }
    }
}

/// The day numbers of the first and the last day of a period.
pub open spec fn period_days(scope: PeriodScope, now: LocalTime) -> (int, int) {
    let today = now.date.day_number();
    let week = today - days_into_week(now.weekday as int);
    match scope {
        PeriodScope::Today => (today, today),
        PeriodScope::Yesterday => (today - 1, today - 1),
        PeriodScope::ThisWeek => (week, week + 6),
        PeriodScope::LastWeek => (week - 7, week - 1),
        PeriodScope::ThisMonth => (month_start(now.date).day_number(), next_month_day(now.date)),
        PeriodScope::LastMonth => {
            let first = last_month_start(now.date);
            (first.day_number(), next_month_day(first))
        },
    }
}

/// The day lies in the years that chrono knows.
pub open spec fn known_day(day: int) -> bool {
    -96_465_292 <= day <= 95_026_236
}

/// The day is one that chrono can reach from a known one.
pub open spec fn period_known(scope: PeriodScope, now: LocalTime) -> bool {
    let days = period_days(scope, now);
    match scope {
        PeriodScope::ThisMonth => true,
        PeriodScope::LastMonth => now.date.year > -262143 || now.date.month > 1,
        _ => known_day(days.0) && known_day(days.1),
    }
}

/// The first and the last date of a period. There are none where they are out of the years
/// that can be told.
pub fn period_dates(scope: PeriodScope, now: &LocalTime) -> (r: Option<(CivilDate, CivilDate)>)
    requires
        now.valid(),
    ensures
        r is Some <==> period_known(scope, *now),
        r matches Some((a, b)) ==> a.valid() && b.valid() && (a.day_number(), b.day_number())
            == period_days(scope, *now),
{
    let today = now.date;
    let into_week = ((now.weekday + 7 - 1) % 7) as i64;
    let (start, span): (i64, i64) = match scope {
        PeriodScope::Today => (0, 0),
        PeriodScope::Yesterday => (-1, 0),
        PeriodScope::ThisWeek => (-into_week, 6),
        PeriodScope::LastWeek => (-into_week - 7, 6),
        PeriodScope::ThisMonth => {
            let first = CivilDate { year: today.year, month: today.month, day: 1 };
            return Some((first, first_of_next_month(&first)));
        },
        PeriodScope::LastMonth => {
            let first = if today.month == 1 {
                if today.year == -262143 {
                    return None;
                }
                CivilDate { year: today.year - 1, month: 12, day: 1 }
            } else {
                CivilDate { year: today.year, month: today.month - 1, day: 1 }
            };
            return Some((first, first_of_next_month(&first)));
        },
    };
    match shifted_date(today, start) {
        Some(first) => match shifted_date(first, span) {
            Some(last) => Some((first, last)),
            None => None,
        },
        None => None,
    }
}

/// The first of the month that follows in the same year, or the first of December.
fn first_of_next_month(date: &CivilDate) -> (r: CivilDate)
    requires
        date.valid(),
    ensures
        r.valid(),
        r.day_number() == next_month_day(*date),
{
    let month = if date.month < 12 {
        date.month + 1
    } else {
        12
    };
    CivilDate { year: date.year, month, day: 1 }
}

/// `n` as two's complement keeps it in 64 bits.
pub open spec fn wrapped_u64(n: int) -> u64 {
    (n % 0x1_0000_0000_0000_0000) as u64
}

/// `n` read as a two's complement number.
pub open spec fn wrapped_i64(n: u64) -> i64 {
    if n < 0x8000_0000_0000_0000 {
        n as i64
    } else {
        (n - 0x1_0000_0000_0000_0000) as i64
    }
}

/// The number of a `u64` that has the same bits.
pub fn as_unsigned(n: i64) -> (r: u64)
    ensures
        r == wrapped_u64(n as int),
{
    if n >= 0 {
        n as u64
    } else {
        u64::MAX - ((-(n + 1)) as u64)
    }
}

/// The number of an `i64` that has the same bits.
pub fn as_signed(n: u64) -> (r: i64)
    ensures
        r == wrapped_i64(n),
{
    if n < 0x8000_0000_0000_0000 {
        n as i64
    } else {
        -((u64::MAX - n) as i64) - 1
    }
}

/// The bounds in milliseconds of a period of which the first instant of its first second and of
/// its last second are known.
pub open spec fn period_of_instants(first: Option<i64>, last: Option<i64>) -> Option<(u64, u64)> {
    match (first, last) {
        (Some(a), Some(b)) => Some((wrapped_u64(a as int), wrapped_u64(b as int))),
        _ => None,
    }
}

/// The bounds in milliseconds of a period, from the first instants of its first second and of its
/// last second. There are none where one of them is missing.
pub fn period_bounds(first: Option<i64>, last: Option<i64>) -> (r: Option<(u64, u64)>)
    ensures
        r == period_of_instants(first, last),
{
    match (first, last) {
        (Some(start), Some(end)) => Some((as_unsigned(start), as_unsigned(end))),
        _ => None,
    }
}

/// `first` and `last` are instants at which the clock on the wall shows the first second of the
/// first day and the last second of the last day of a period.
pub open spec fn period_instants(
    scope: PeriodScope,
    now: LocalTime,
    first: Option<i64>,
    last: Option<i64>,
) -> bool {
    let days = period_days(scope, now);
    &&& first matches Some(a) ==> {
        &&& -86_400_000 < days.0 * 86_400_000 - a < 86_400_000
        &&& (days.0 * 86_400_000 - a) % 1000 == 0
    }
    &&& last matches Some(b) ==> {
        &&& -86_400_000 < days.1 * 86_400_000 + 86_399_000 - b < 86_400_000
        &&& (days.1 * 86_400_000 + 86_399_000 - b) % 1000 == 0
    }
}

/// The bounds of a period seen from the local time `now`, of which the first instants of its
/// first second and of its last second are `first` and `last`.
pub open spec fn is_period(
    scope: PeriodScope,
    now: Option<LocalTime>,
    first: Option<i64>,
    last: Option<i64>,
    r: Option<(u64, u64)>,
) -> bool {
    match now {
        Some(t) => if period_known(scope, t) {
            period_instants(scope, t, first, last) && r == period_of_instants(first, last)
        } else {
            r is None
        },
        None => r is None,
    }
}

/// `first` and `last` are what the time zone of the machine gave for the first second of the first
/// day and for the last second of the last day of a period.
pub open spec fn zone_bounds(
    scope: PeriodScope,
    now: LocalTime,
    first: Option<i64>,
    last: Option<i64>,
) -> bool {
    exists|a: CivilDate, b: CivilDate|
        #![trigger zone_gave(a, 0, 0, 0, first), zone_gave(b, 23, 59, 59, last)]
        zone_gave(a, 0, 0, 0, first) && zone_gave(b, 23, 59, 59, last) && a.valid() && b.valid()
            && (a.day_number(), b.day_number()) == period_days(scope, now)
}

/// `r` may be the bounds of a period, seen from `now_ms`: the very instants that the time zone of
/// the machine gave for its first and its last second.
pub open spec fn may_be_period(scope: PeriodScope, now_ms: u64, r: Option<(u64, u64)>) -> bool {
    exists|now: Option<LocalTime>, first: Option<i64>, last: Option<i64>|
        #![trigger is_period(scope, now, first, last, r)]
        zone_showed(wrapped_i64(now_ms), now) && may_show(wrapped_i64(now_ms) as int, now)
            && is_period(scope, now, first, last, r) && (now matches Some(t) ==> (period_known(
            scope,
            t,
        ) ==> zone_bounds(scope, t, first, last)))
}

/// The bounds of a period in milliseconds: the first second of its first day and the last
/// second of its last, in local time. There are none where one of them is not exactly one
/// instant, or where there is no local time.
pub fn period_range_ms(scope: PeriodScope, now_ms: u64) -> (r: Option<(u64, u64)>)
    ensures
        may_be_period(scope, now_ms, r),
{
    let now = wall_clock(as_signed(now_ms));
    let t = match now {
        Some(t) => t,
        None => {
            assert(is_period(scope, now, None, None, None));
            return None;
        },
    };
    match period_dates(scope, &t) {
        Some((a, b)) => {
            let first = zone_instant(a, 0, 0, 0);
            let last = zone_instant(b, 23, 59, 59);
            let r = period_bounds(first, last);
            assert(is_period(scope, now, first, last, r));
            assert(zone_bounds(scope, t, first, last));
            r
        },
        None => {
            assert(is_period(scope, now, None, None, None));
            None
        },
    }
}

/// The bounds of the local hour of `ts_ms`.
pub open spec fn hour_bounds(ts_ms: u64, t: LocalTime) -> (u64, u64) {
    let start = if ts_ms >= t.hour_ms() {
        (ts_ms - t.hour_ms()) as u64
    } else {
        0
    };
    (start, sat_add(start, 3_599_999))
}

/// The bounds of the local day of `ts_ms`, whose midnight is given where it is one instant.
pub open spec fn day_bounds(ts_ms: u64, t: LocalTime, midnight: Option<i64>) -> (u64, u64) {
    let start = match midnight {
        Some(m) => if m >= 0 {
            m as u64
        } else {
            0
        },
        None => if ts_ms >= t.day_ms() {
            (ts_ms - t.day_ms()) as u64
        } else {
            0
        },
    };
    (start, sat_add(start, 86_399_999))
}

/// The bounds of the UTC hour of `ts_ms`.
pub open spec fn utc_hour(ts_ms: u64) -> (u64, u64) {
    let start = (ts_ms - ts_ms % 3_600_000) as u64;
    (start, sat_add(start, 3_599_999))
}

/// The bounds of the UTC day of `ts_ms`.
pub open spec fn utc_day(ts_ms: u64) -> (u64, u64) {
    let start = (ts_ms - ts_ms % 86_400_000) as u64;
    (start, sat_add(start, 86_399_999))
}

/// The bounds of the local hour of `ts_ms`.
pub fn hour_around(ts_ms: u64, t: &LocalTime) -> (r: (u64, u64))
    requires
        t.valid(),
    ensures
        r == hour_bounds(ts_ms, *t),
{
    let into = ((t.minute * 60 + t.second) * 1000 + t.millis) as u64;
    let start = ts_ms.saturating_sub(into);
    (start, start.saturating_add(HOUR_MS - 1))
}

/// The bounds of the local day of `ts_ms`, whose midnight is given where it is one instant.
pub fn day_around(ts_ms: u64, t: &LocalTime, midnight: Option<i64>) -> (r: (u64, u64))
    requires
        t.valid(),
    ensures
        r == day_bounds(ts_ms, *t, midnight),
{
    let start = match midnight {
        Some(m) => if m >= 0 {
            m as u64
        } else {
            0
        },
        None => {
            let into = (((t.hour * 60 + t.minute) * 60 + t.second) * 1000 + t.millis) as u64;
            ts_ms.saturating_sub(into)
        },
    };
    (start, start.saturating_add(DAY_MS - 1))
}

/// The bounds of the hour of `ts_ms` by the local time `t`; of the UTC hour where there is none.
pub open spec fn hour_at(ts_ms: u64, t: Option<LocalTime>) -> (u64, u64) {
    match t {
        Some(t) => hour_bounds(ts_ms, t),
        None => utc_hour(ts_ms),
    }
}

/// The bounds of the day of `ts_ms` by the local time `t`, whose midnight is given where it is
/// one instant; of the UTC day where there is no local time.
pub open spec fn day_at(ts_ms: u64, t: Option<LocalTime>, midnight: Option<i64>) -> (u64, u64) {
    match t {
        Some(t) => day_bounds(ts_ms, t, midnight),
        None => utc_day(ts_ms),
    }
}

/// `midnight` is what the time zone of the machine gave for the instant at which the date of `t`
/// begins.
pub open spec fn may_be_midnight(t: Option<LocalTime>, midnight: Option<i64>) -> bool {
    match t {
        Some(t) => zone_gave(t.date, 0, 0, 0, midnight) && (midnight matches Some(m) ==> shown_at(
            t.date,
            0,
            m as int,
        )),
        None => true,
    }
}

/// `t` is the local time that the time zone of the machine gave for `ts_ms`; none where `ts_ms` is
/// not an instant that chrono knows.
pub open spec fn seen_at(ts_ms: u64, t: Option<LocalTime>) -> bool {
    &&& may_show(ts_ms as int, t)
    &&& if ts_ms <= LAST_INSTANT_MS {
        zone_showed(ts_ms as i64, t)
    } else {
        t is None
    }
}

/// `b` may be the bounds of the local hour of `ts_ms`.
pub open spec fn may_be_hour(ts_ms: u64, b: (u64, u64)) -> bool {
    exists|t: Option<LocalTime>|
        #![trigger hour_at(ts_ms, t)]
        seen_at(ts_ms, t) && b == hour_at(ts_ms, t)
}

/// `b` may be the bounds of the local day of `ts_ms`.
pub open spec fn may_be_day(ts_ms: u64, b: (u64, u64)) -> bool {
    exists|t: Option<LocalTime>, midnight: Option<i64>|
        #![trigger day_at(ts_ms, t, midnight)]
        seen_at(ts_ms, t) && may_be_midnight(t, midnight) && b == day_at(ts_ms, t, midnight)
}

/// The local time of an instant since 1970.
fn local_time_at(ts_ms: u64) -> (r: Option<LocalTime>)
    ensures
        seen_at(ts_ms, r),
{
    if ts_ms > LAST_INSTANT_MS as u64 {
        None
    } else {
        wall_clock(ts_ms as i64)
    }
}

/// The bounds of the local hour of `ts_ms`; of the UTC hour where there is no local time.
pub fn hourly_bucket_local(ts_ms: u64) -> (r: (u64, u64))
    ensures
        may_be_hour(ts_ms, r),
{
    let t = local_time_at(ts_ms);
    let r = match &t {
        Some(t) => hour_around(ts_ms, t),
        None => {
            let start = ts_ms - ts_ms % HOUR_MS;
            (start, start.saturating_add(HOUR_MS - 1))
        },
    };
    assert(r == hour_at(ts_ms, t));
    r
}

/// The bounds of the local day of `ts_ms`; of the UTC day where there is no local time.
pub fn daily_bucket_local(ts_ms: u64) -> (r: (u64, u64))
    ensures
        may_be_day(ts_ms, r),
{
    let now = local_time_at(ts_ms);
    match now {
        Some(t) => {
            let midnight = zone_instant(t.date, 0, 0, 0);
            let r = day_around(ts_ms, &t, midnight);
            assert(r == day_at(ts_ms, now, midnight));
            r
        },
        None => {
            let start = ts_ms - ts_ms % DAY_MS;
            let r = (start, start.saturating_add(DAY_MS - 1));
            assert(r == day_at(ts_ms, now, None));
            r
        },
    }
}

/// This week holds today, and last week is the seven days before it; yesterday is the day before
/// today.
#[verifier::spinoff_prover]
pub proof fn law_weeks_and_days(now: LocalTime)
    requires
        now.valid(),
    ensures
        ({
            let today = now.date.day_number();
            let week = period_days(PeriodScope::ThisWeek, now);
            let before = period_days(PeriodScope::LastWeek, now);
            &&& period_days(PeriodScope::Today, now) == (today, today)
            &&& period_days(PeriodScope::Yesterday, now) == (today - 1, today - 1)
            &&& week.0 <= today <= week.1
            &&& week.1 - week.0 == 6
            &&& before.1 == week.0 - 1
            &&& before.1 - before.0 == 6
        }),
{
}

/// The first instants of the first second and of the last second of a period, where the clock on
/// the wall is `offset_ms` ahead of UTC throughout.
pub open spec fn instants_at_offset(
    scope: PeriodScope,
    now: LocalTime,
    offset_ms: int,
) -> (int, int) {
    let days = period_days(scope, now);
    (days.0 * 86_400_000 - offset_ms, days.1 * 86_400_000 + 86_399_000 - offset_ms)
}

/// Weeks in milliseconds, where the clock on the wall is ahead of UTC by the same all the time:
/// this week begins at a local midnight, holds `ms` and spans seven days up to the first instant
/// of its last second, and last week is the same range seven days earlier. From the year 1970 on
/// these are the bounds of the two periods, as far as chrono knows their days.
#[verifier::spinoff_prover]
pub proof fn law_weeks_in_milliseconds(now: LocalTime, ms: int)
    requires
        now.shows(ms),
    ensures
        ({
            let offset_ms = now.wall_ms() - ms;
            let (s, e) = instants_at_offset(PeriodScope::ThisWeek, now, offset_ms);
            let (a, b) = instants_at_offset(PeriodScope::LastWeek, now, offset_ms);
            &&& (s + offset_ms) % 86_400_000 == 0
            &&& e - s == 604_799_000
            &&& s <= ms < e + 1000
            &&& (a, b) == (s - 604_800_000, e - 604_800_000)
            &&& 0 <= s && period_known(PeriodScope::ThisWeek, now) ==> {
                &&& period_of_instants(Some(s as i64), Some(e as i64)) == Some((s as u64, e as u64))
                &&& is_period(
                    PeriodScope::ThisWeek,
                    Some(now),
                    Some(s as i64),
                    Some(e as i64),
                    Some((s as u64, e as u64)),
                )
            }
            &&& 0 <= a && period_known(PeriodScope::LastWeek, now) ==> {
                &&& period_of_instants(Some(a as i64), Some(b as i64)) == Some((a as u64, b as u64))
                &&& is_period(
                    PeriodScope::LastWeek,
                    Some(now),
                    Some(a as i64),
                    Some(b as i64),
                    Some((a as u64, b as u64)),
                )
            }
        }),
{
    let days = period_days(PeriodScope::ThisWeek, now);
    assert(days.0 * 86_400_000 % 86_400_000 == 0);
}

#[verifier::spinoff_prover]
proof fn lemma_week_of_days(a: int, b: int)
    requires
        a - days_into_week((a + 3) % 7) <= b <= a - days_into_week((a + 3) % 7) + 6,
    ensures
        a - days_into_week((a + 3) % 7) == b - days_into_week((b + 3) % 7),
        (a - days_into_week((a + 3) % 7) + 3) % 7 == 1,
{
    let x = (a + 3) % 7;
    let y = (b + 3) % 7;
    let p = (a + 3) / 7;
    let q = (b + 3) / 7;
    assert(a + 3 == 7 * p + x && 0 <= x < 7);
    assert(b + 3 == 7 * q + y && 0 <= y < 7);
    // The week of `a` begins on the Tuesday at or before it.
    let weeks = if x >= 1 {
        p
    } else {
        p - 1
    };
    assert(a - days_into_week(x) + 3 == 7 * weeks + 1);
    let others = if y >= 1 {
        q
    } else {
        q - 1
    };
    assert(b - days_into_week(y) + 3 == 7 * others + 1);
    assert(weeks == others);
}

/// Two instants of one week have the same week, and the week begins on a Tuesday.
#[verifier::spinoff_prover]
pub proof fn law_week_is_shared(a: LocalTime, b: LocalTime)
    requires
        a.valid(),
        b.valid(),
        period_days(PeriodScope::ThisWeek, a).0 <= b.date.day_number() <= period_days(
            PeriodScope::ThisWeek,
            a,
        ).1,
    ensures
        period_days(PeriodScope::ThisWeek, a) == period_days(PeriodScope::ThisWeek, b),
        (period_days(PeriodScope::ThisWeek, a).0 + 3) % 7 == 1,
{
    lemma_week_of_days(a.date.day_number(), b.date.day_number());
}

/// This month begins on its first and holds today, unless it is December; last month begins
/// before this one.
#[verifier::spinoff_prover]
pub proof fn law_months(now: LocalTime)
    requires
        now.valid(),
    ensures
        ({
            let today = now.date.day_number();
            let month = period_days(PeriodScope::ThisMonth, now);
            let before = period_days(PeriodScope::LastMonth, now);
            &&& month.0 <= today
            &&& now.date.month < 12 ==> today < month.1
            &&& before.0 < month.0
            &&& 1 < now.date.month ==> before.1 == month.0
        }),
{
    reveal_with_fuel(days_before_month, 13);
}

/// The time zone of the machine is ahead of UTC by the same all the time, as far as chrono knows
/// the instants.
pub closed spec fn zone_at_offset(offset_ms: int) -> bool {
    &&& forall|ms: i64, t: Option<LocalTime>| #[trigger]
        call_ensures(local_time, (ms,), t) ==> (t matches Some(x) ==> x.wall_ms() == ms + offset_ms)
    &&& forall|date: CivilDate, hour: u32, minute: u32, second: u32, r: Option<i64>| #[trigger]
        call_ensures(local_instant, (date, hour, minute, second), r) ==> (r matches Some(ms) ==> ms
            == date.day_number() * 86_400_000 + ((hour * 60 + minute) * 60 + second) * 1000
            - offset_ms)
}

/// Where the time zone of the machine is ahead of UTC by the same all the time, a period that has
/// bounds begins at a local midnight and ends with the first instant of the last second of a day,
/// both on the days that the calendar gives it.
pub proof fn law_period_at_offset(
    scope: PeriodScope,
    now_ms: u64,
    r: (u64, u64),
    offset_ms: int,
) -> (now: LocalTime)
    requires
        zone_at_offset(offset_ms),
        may_be_period(scope, now_ms, Some(r)),
    ensures
        now.shows(wrapped_i64(now_ms) as int),
        now.wall_ms() == wrapped_i64(now_ms) + offset_ms,
        r == (
            wrapped_u64(period_days(scope, now).0 * 86_400_000 - offset_ms),
            wrapped_u64(period_days(scope, now).1 * 86_400_000 + 86_399_000 - offset_ms),
        ),
{
    let (now, first, last) = choose|now: Option<LocalTime>, first: Option<i64>, last: Option<i64>|
        #![trigger is_period(scope, now, first, last, Some(r))]
        zone_showed(wrapped_i64(now_ms), now) && may_show(wrapped_i64(now_ms) as int, now)
            && is_period(scope, now, first, last, Some(r)) && (now matches Some(t) ==> (
        period_known(scope, t) ==> zone_bounds(scope, t, first, last)));
    let t = now->0;
    assert(zone_bounds(scope, t, first, last));
    let (a, b) = choose|a: CivilDate, b: CivilDate|
        #![trigger zone_gave(a, 0, 0, 0, first), zone_gave(b, 23, 59, 59, last)]
        zone_gave(a, 0, 0, 0, first) && zone_gave(b, 23, 59, 59, last) && a.valid() && b.valid()
            && (a.day_number(), b.day_number()) == period_days(scope, t);
    assert(first is Some && last is Some);
    t
}

/// In such a zone this week, from the year 1970 on, begins at a local midnight, lasts seven days
/// but for its last second and holds the instant it is seen from, and last week is the same range
/// seven days earlier. Today and yesterday last a day, and yesterday is the day before today.
#[verifier::spinoff_prover]
pub proof fn law_weeks_and_days_at_offset(
    now_ms: u64,
    week: (u64, u64),
    last_week: (u64, u64),
    today: (u64, u64),
    yesterday: (u64, u64),
    offset_ms: int,
)
    requires
        zone_at_offset(offset_ms),
        may_be_period(PeriodScope::ThisWeek, now_ms, Some(week)),
        may_be_period(PeriodScope::LastWeek, now_ms, Some(last_week)),
        may_be_period(PeriodScope::Today, now_ms, Some(today)),
        may_be_period(PeriodScope::Yesterday, now_ms, Some(yesterday)),
        2_000_000_000 <= now_ms <= LAST_INSTANT_MS,
    ensures
        (week.0 + offset_ms) % 86_400_000 == 0,
        week.1 - week.0 == 604_799_000,
        week.0 <= now_ms < week.1 + 1000,
        last_week == ((week.0 - 604_800_000) as u64, (week.1 - 604_800_000) as u64),
        (today.0 + offset_ms) % 86_400_000 == 0,
        today.1 - today.0 == 86_399_000,
        today.0 <= now_ms < today.1 + 1000,
        yesterday == ((today.0 - 86_400_000) as u64, (today.1 - 86_400_000) as u64),
        week.0 <= today.0 && today.1 <= week.1,
{
    let day = (now_ms + offset_ms) / 86_400_000;
    lemma_days_at_offset(PeriodScope::ThisWeek, now_ms, week, offset_ms);
    lemma_days_at_offset(PeriodScope::LastWeek, now_ms, last_week, offset_ms);
    lemma_days_at_offset(PeriodScope::Today, now_ms, today, offset_ms);
    lemma_days_at_offset(PeriodScope::Yesterday, now_ms, yesterday, offset_ms);
    lemma_week_bounds(day, now_ms + offset_ms);
}

/// The local day is the whole part of the local time in days.
proof fn lemma_wall_day(t: LocalTime)
    requires
        t.valid(),
    ensures
        t.date.day_number() == t.wall_ms() / 86_400_000,
        0 <= t.wall_ms() - t.date.day_number() * 86_400_000 < 86_400_000,
{
    assert(0 <= t.day_ms() < 86_400_000);
}

/// The first and the last day of the periods that are made of days and weeks, seen from a day.
spec fn days_from(scope: PeriodScope, day: int) -> (int, int) {
    let week = day - days_into_week((day + 3) % 7);
    match scope {
        PeriodScope::Today => (day, day),
        PeriodScope::Yesterday => (day - 1, day - 1),
        PeriodScope::ThisWeek => (week, week + 6),
        PeriodScope::LastWeek => (week - 7, week - 1),
        _ => (0, 0),
    }
}

proof fn lemma_days_at_offset(scope: PeriodScope, now_ms: u64, r: (u64, u64), offset_ms: int)
    requires
        zone_at_offset(offset_ms),
        may_be_period(scope, now_ms, Some(r)),
        2_000_000_000 <= now_ms <= LAST_INSTANT_MS,
        scope != PeriodScope::ThisMonth,
        scope != PeriodScope::LastMonth,
    ensures
        -86_400_000 < offset_ms < 86_400_000,
        ({
            let (first, last) = days_from(scope, (now_ms + offset_ms) / 86_400_000);
            &&& r.0 == first * 86_400_000 - offset_ms
            &&& r.1 == last * 86_400_000 + 86_399_000 - offset_ms
        }),
{
    let t = law_period_at_offset(scope, now_ms, r, offset_ms);
    lemma_wall_day(t);
    let day = t.date.day_number();
    let (first, last) = days_from(scope, day);
    assert(period_days(scope, t) == (first, last));
    assert(day * 86_400_000 <= now_ms + offset_ms < day * 86_400_000 + 86_400_000);
    assert(day - 13 <= first <= last <= day + 6);
    lemma_wrapped(first * 86_400_000 - offset_ms);
    lemma_wrapped(last * 86_400_000 + 86_399_000 - offset_ms);
}

proof fn lemma_wrapped(n: int)
    requires
        0 <= n < 0x1_0000_0000_0000_0000,
    ensures
        wrapped_u64(n) == n,
{
}

proof fn lemma_week_bounds(day: int, wall_ms: int)
    requires
        0 <= wall_ms - day * 86_400_000 < 86_400_000,
    ensures
        ({
            let first = day - days_into_week((day + 3) % 7);
            &&& first <= day <= first + 6
            &&& first * 86_400_000 <= wall_ms < (first + 7) * 86_400_000
        }),
{
}

/// A month begins on its first day. This month lasts to the first of the next, but in December,
/// where it ends on its first; last month lasts as many days as its month has, up to the first of
/// this month, and in January it ends on the first of December.
#[verifier::spinoff_prover]
pub proof fn law_month_lengths(now: LocalTime)
    requires
        now.valid(),
    ensures
        ({
            let today = now.date.day_number();
            let (year, month) = (now.date.year as int, now.date.month as int);
            let this = period_days(PeriodScope::ThisMonth, now);
            let before = period_days(PeriodScope::LastMonth, now);
            &&& today - this.0 == now.date.day - 1
            &&& this.1 - this.0 == if month < 12 {
                month_len(year, month)
            } else {
                0
            }
            &&& this.0 - before.0 == if month > 1 {
                month_len(year, month - 1)
            } else {
                31
            }
            &&& before.1 == if month > 1 {
                this.0
            } else {
                before.0
            }
        }),
{
    reveal_with_fuel(days_before_month, 13);
    lemma_year_length(now.date.year - 1);
}

proof fn lemma_year_length(year: int)
    ensures
        days_before_year(year + 1) - days_before_year(year) == if leap_year(year) {
            366int
        } else {
            365
        },
{
}

/// Day numbers count days: 1970-01-01 is day zero, each day of a month is one more than the one
/// before it, the first of a month follows the last of the month before, and the first of January
/// the last of December. Years have 365 days, and 366 where they can be divided by 4, but not by
/// 100 unless by 400.
#[verifier::spinoff_prover]
pub proof fn law_day_numbers(date: CivilDate)
    requires
        date.valid(),
    ensures
        (CivilDate { year: 1970, month: 1, day: 1 }).day_number() == 0,
        date.day_number() == (CivilDate { day: 1, ..date }).day_number() + date.day - 1,
        date.month < 12 ==> (CivilDate {
            month: (date.month + 1) as u32,
            day: 1,
            ..date
        }).day_number() == (CivilDate { day: 1, ..date }).day_number() + month_len(
            date.year as int,
            date.month as int,
        ),
        (CivilDate { year: (date.year + 1) as i32, month: 1, day: 1 }).day_number()
            - (CivilDate { year: date.year, month: 1, day: 1 }).day_number() == if date.year % 4 != 0
            || (date.year % 100 == 0 && date.year % 400 != 0) {
            365int
        } else {
            366
        },
        (CivilDate { year: (date.year + 1) as i32, month: 1, day: 1 }).day_number()
            == (CivilDate { year: date.year, month: 12, day: 1 }).day_number() + 31,
{
    reveal_with_fuel(days_before_month, 13);
    lemma_year_length(date.year as int);
}

/// A local hour begins where the clock on the wall shows a full hour, and a local day, where its
/// midnight is not one instant, where the clock would show midnight without a change.
pub proof fn law_hours_and_days_begin(ts_ms: u64, t: LocalTime)
    requires
        t.shows(ts_ms as int),
        ts_ms >= 86_400_000,
    ensures
        (t.wall_ms() - (ts_ms - hour_at(ts_ms, Some(t)).0)) % 3_600_000 == 0,
        ts_ms - hour_at(ts_ms, Some(t)).0 < 3_600_000,
        t.wall_ms() - (ts_ms - day_at(ts_ms, Some(t), None).0) == t.date.day_number()
            * 86_400_000,
        forall|m: i64|
            m >= 0 ==> (#[trigger] day_at(ts_ms, Some(t), Some(m))).0 == m && day_at(
                ts_ms,
                Some(t),
                Some(m),
            ).1 == m + 86_399_999,
{
    assert(t.wall_ms() - t.hour_ms() == (t.date.day_number() * 24 + t.hour) * 3_600_000);
}

/// A local hour holds the instant it is the hour of, and lasts an hour.
pub proof fn law_hour_holds_instant(ts_ms: u64, b: (u64, u64))
    requires
        may_be_hour(ts_ms, b),
    ensures
        b.0 <= ts_ms <= b.1,
        b.1 == sat_add(b.0, 3_599_999),
{
}

/// A local day lasts a day.
pub proof fn law_day_lasts(ts_ms: u64, b: (u64, u64))
    requires
        may_be_day(ts_ms, b),
    ensures
        b.1 == sat_add(b.0, 86_399_999),
{
}

/// The local hours and days of some instants, as they were looked up.
pub struct LocalCalendar {
    pub hours: Table<u64, (u64, u64)>,
    pub days: Table<u64, (u64, u64)>,
}

impl LocalCalendar {
    /// The hour of `ts_ms` was looked up.
    pub open spec fn knows_hour(self, ts_ms: u64) -> bool {
        occurs(self.hours.model(), ts_ms)
    }

    /// The day of `ts_ms` was looked up.
    pub open spec fn knows_day(self, ts_ms: u64) -> bool {
        occurs(self.days.model(), ts_ms)
    }

    /// The bounds of the hour of `ts_ms`; of the UTC hour where it was not looked up.
    pub open spec fn hour_of(self, ts_ms: u64) -> (u64, u64) {
        get_or(self.hours.model(), ts_ms, utc_hour(ts_ms))
    }

    /// The bounds of the day of `ts_ms`; of the UTC day where it was not looked up.
    pub open spec fn day_of(self, ts_ms: u64) -> (u64, u64) {
        get_or(self.days.model(), ts_ms, utc_day(ts_ms))
    }

    /// What was looked up may be the local hours and days.
    pub open spec fn faithful(self) -> bool {
        &&& forall|ts: u64| #[trigger] self.knows_hour(ts) ==> may_be_hour(ts, self.hour_of(ts))
        &&& forall|ts: u64| #[trigger] self.knows_day(ts) ==> may_be_day(ts, self.day_of(ts))
    }

    /// What `self` knows, `other` knows too.
    pub open spec fn within(self, other: LocalCalendar) -> bool {
        &&& forall|ts: u64| #[trigger]
            self.knows_hour(ts) ==> other.knows_hour(ts) && other.hour_of(ts) == self.hour_of(
                ts,
            )
        &&& forall|ts: u64| #[trigger]
            self.knows_day(ts) ==> other.knows_day(ts) && other.day_of(ts) == self.day_of(ts)
    }

    /// A calendar without instants.
    pub fn new() -> (c: LocalCalendar)
        ensures
            c.faithful(),
            forall|ts: u64| !#[trigger] c.knows_hour(ts),
            forall|ts: u64| !#[trigger] c.knows_day(ts),
    {
        LocalCalendar { hours: Table::new(), days: Table::new() }
    }

    /// Gives the bounds of the hour of an instant.
    pub fn set_hour(&mut self, ts_ms: u64, bounds: (u64, u64))
        ensures
            final(self).hours.model() == put(old(self).hours.model(), ts_ms, bounds),
            final(self).days == old(self).days,
            final(self).knows_hour(ts_ms),
            final(self).hour_of(ts_ms) == bounds,
            forall|ts: u64| ts != ts_ms ==> #[trigger] final(self).knows_hour(ts) == old(
                self,
            ).knows_hour(ts),
            forall|ts: u64| ts != ts_ms ==> #[trigger] final(self).hour_of(ts) == old(
                self,
            ).hour_of(ts),
    {
        self.hours.put(ts_ms, bounds);
        proof {
            let s = old(self).hours.model();
            law_put_get(s, ts_ms, bounds);
            assert forall|ts: u64| ts != ts_ms implies #[trigger] self.knows_hour(ts) == old(
                self,
            ).knows_hour(ts) by {
                law_put_get_other(s, ts_ms, bounds, ts);
            }
            assert forall|ts: u64| ts != ts_ms implies #[trigger] self.hour_of(ts) == old(
                self,
            ).hour_of(ts) by {
                law_put_get_other(s, ts_ms, bounds, ts);
            }
        }
    }

    /// Gives the bounds of the day of an instant.
    pub fn set_day(&mut self, ts_ms: u64, bounds: (u64, u64))
        ensures
            final(self).days.model() == put(old(self).days.model(), ts_ms, bounds),
            final(self).hours == old(self).hours,
            final(self).knows_day(ts_ms),
            final(self).day_of(ts_ms) == bounds,
            forall|ts: u64| ts != ts_ms ==> #[trigger] final(self).knows_day(ts) == old(
                self,
            ).knows_day(ts),
            forall|ts: u64| ts != ts_ms ==> #[trigger] final(self).day_of(ts) == old(
                self,
            ).day_of(ts),
    {
        self.days.put(ts_ms, bounds);
        proof {
            let s = old(self).days.model();
            law_put_get(s, ts_ms, bounds);
            assert forall|ts: u64| ts != ts_ms implies #[trigger] self.knows_day(ts) == old(
                self,
            ).knows_day(ts) by {
                law_put_get_other(s, ts_ms, bounds, ts);
            }
            assert forall|ts: u64| ts != ts_ms implies #[trigger] self.day_of(ts) == old(
                self,
            ).day_of(ts) by {
                law_put_get_other(s, ts_ms, bounds, ts);
            }
        }
    }

    /// Looks up the hour of an instant, unless that was done before.
    pub fn learn_hour(&mut self, ts_ms: u64)
        requires
            old(self).faithful(),
        ensures
            final(self).faithful(),
            final(self).knows_hour(ts_ms),
            old(self).within(*final(self)),
            final(self).days == old(self).days,
    {
        if self.hours.get(&ts_ms).is_none() {
            let bounds = hourly_bucket_local(ts_ms);
            self.set_hour(ts_ms, bounds);
            assert(forall|ts: u64|
                #![trigger self.knows_hour(ts)]
                self.knows_hour(ts) ==> (ts == ts_ms || old(self).knows_hour(ts)));
            assert(forall|ts: u64|
                #![trigger self.knows_day(ts)]
                self.knows_day(ts) == old(self).knows_day(ts) && self.day_of(ts) == old(
                    self,
                ).day_of(ts));
        }
    }

    /// Looks up the day of an instant, unless that was done before.
    pub fn learn_day(&mut self, ts_ms: u64)
        requires
            old(self).faithful(),
        ensures
            final(self).faithful(),
            final(self).knows_day(ts_ms),
            old(self).within(*final(self)),
            final(self).hours == old(self).hours,
    {
        if self.days.get(&ts_ms).is_none() {
            let bounds = daily_bucket_local(ts_ms);
            self.set_day(ts_ms, bounds);
            assert(forall|ts: u64|
                #![trigger self.knows_day(ts)]
                self.knows_day(ts) ==> (ts == ts_ms || old(self).knows_day(ts)));
            assert(forall|ts: u64|
                #![trigger self.knows_hour(ts)]
                self.knows_hour(ts) == old(self).knows_hour(ts) && self.hour_of(ts) == old(
                    self,
                ).hour_of(ts));
        }
    }

    /// The bounds of the hour of `ts_ms`; of the UTC hour where it was not looked up.
    pub fn hour(&self, ts_ms: u64) -> (r: (u64, u64))
        ensures
            r == self.hour_of(ts_ms),
    {
        match self.hours.get(&ts_ms) {
            Some(b) => *b,
            None => {
                let start = ts_ms - ts_ms % HOUR_MS;
                (start, start.saturating_add(HOUR_MS - 1))
            },
        }
    }

    /// The bounds of the day of `ts_ms`; of the UTC day where it was not looked up.
    pub fn day(&self, ts_ms: u64) -> (r: (u64, u64))
        ensures
            r == self.day_of(ts_ms),
    {
        match self.days.get(&ts_ms) {
            Some(b) => *b,
            None => {
                let start = ts_ms - ts_ms % DAY_MS;
                (start, start.saturating_add(DAY_MS - 1))
            },
        }
    }
}

/// Where there is no local time, hours and days are those of UTC: an hour begins at a multiple of
/// an hour since 1970, a day at a multiple of a day, and both hold their instant.
#[verifier::spinoff_prover]
pub proof fn law_hours_and_days_without_zone(ts_ms: u64)
    ensures
        hour_at(ts_ms, None).0 % 3_600_000 == 0,
        hour_at(ts_ms, None).0 <= ts_ms < hour_at(ts_ms, None).0 + 3_600_000,
        day_at(ts_ms, None, None).0 % 86_400_000 == 0,
        day_at(ts_ms, None, None).0 <= ts_ms < day_at(ts_ms, None, None).0 + 86_400_000,
        ts_ms < u64::MAX - 86_400_000 ==> hour_at(ts_ms, None).1 - hour_at(ts_ms, None).0
            == 3_599_999 && day_at(ts_ms, None, None).1 - day_at(ts_ms, None, None).0 == 86_399_999,
{
    lemma_floor(ts_ms as int, 3_600_000);
    lemma_floor(ts_ms as int, 86_400_000);
}

proof fn lemma_floor(n: int, size: int)
    requires
        n >= 0,
        size > 0,
    ensures
        (n - n % size) % size == 0,
        0 <= n % size < size,
        n % size <= n,
{
    vstd::arithmetic::div_mod::lemma_fundamental_div_mod(n, size);
    vstd::arithmetic::div_mod::lemma_mod_bound(n, size);
    vstd::arithmetic::div_mod::lemma_mod_multiples_basic(n / size, size);
    assert(n / size * size == size * (n / size)) by (nonlinear_arith);
    assert(n / size >= 0 && size * (n / size) >= 0) by (nonlinear_arith)
        requires
            n >= 0,
            size > 0,
    ;
}


} // verus!
