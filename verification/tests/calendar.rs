use bandix_plus::calendar::{
    as_signed, as_unsigned, daily_bucket_local, day_around, hour_around, hourly_bucket_local,
    period_bounds, period_dates, period_range_ms, CivilDate, LocalCalendar, LocalTime, PeriodScope,
    FIRST_INSTANT_MS, LAST_INSTANT_MS,
};
use chrono::{Datelike, Duration, Local, NaiveDate, Offset, TimeZone, Timelike};

const SCOPES: [PeriodScope; 6] = [
    PeriodScope::Today,
    PeriodScope::Yesterday,
    PeriodScope::ThisWeek,
    PeriodScope::LastWeek,
    PeriodScope::ThisMonth,
    PeriodScope::LastMonth,
];

/// Noon of a date.
fn noon(year: i32, month: u32, day: u32) -> LocalTime {
    let date = NaiveDate::from_ymd_opt(year, month, day).unwrap();
    LocalTime {
        date: CivilDate { year, month, day },
        weekday: date.weekday().num_days_from_monday(),
        hour: 12,
        minute: 0,
        second: 0,
        millis: 0,
    }
}

fn date(year: i32, month: u32, day: u32) -> CivilDate {
    CivilDate { year, month, day }
}

#[test]
fn periods_of_days() {
    let now = noon(2024, 3, 1);
    assert_eq!(
        period_dates(PeriodScope::Today, &now),
        Some((date(2024, 3, 1), date(2024, 3, 1)))
    );
    assert_eq!(
        period_dates(PeriodScope::Yesterday, &now),
        Some((date(2024, 2, 29), date(2024, 2, 29)))
    );
    assert_eq!(
        period_dates(PeriodScope::Yesterday, &noon(2023, 1, 1)),
        Some((date(2022, 12, 31), date(2022, 12, 31)))
    );
}

#[test]
fn periods_of_weeks() {
    // 2024-03-01 is a Friday; weeks begin on a Tuesday.
    let now = noon(2024, 3, 1);
    assert_eq!(
        period_dates(PeriodScope::ThisWeek, &now),
        Some((date(2024, 2, 27), date(2024, 3, 4)))
    );
    assert_eq!(
        period_dates(PeriodScope::LastWeek, &now),
        Some((date(2024, 2, 20), date(2024, 2, 26)))
    );
    assert_eq!(
        period_dates(PeriodScope::ThisWeek, &noon(2024, 2, 27)),
        Some((date(2024, 2, 27), date(2024, 3, 4)))
    );
    assert_eq!(
        period_dates(PeriodScope::ThisWeek, &noon(2024, 3, 4)),
        Some((date(2024, 2, 27), date(2024, 3, 4)))
    );
}

#[test]
fn periods_of_months() {
    assert_eq!(
        period_dates(PeriodScope::ThisMonth, &noon(2024, 3, 15)),
        Some((date(2024, 3, 1), date(2024, 4, 1)))
    );
    assert_eq!(
        period_dates(PeriodScope::ThisMonth, &noon(2024, 12, 15)),
        Some((date(2024, 12, 1), date(2024, 12, 1)))
    );
    assert_eq!(
        period_dates(PeriodScope::LastMonth, &noon(2024, 3, 15)),
        Some((date(2024, 2, 1), date(2024, 3, 1)))
    );
    assert_eq!(
        period_dates(PeriodScope::LastMonth, &noon(2024, 1, 15)),
        Some((date(2023, 12, 1), date(2023, 12, 1)))
    );
    assert_eq!(period_dates(PeriodScope::LastMonth, &noon(-262143, 1, 1)), None);
    assert_eq!(period_dates(PeriodScope::Yesterday, &noon(-262143, 1, 1)), None);
}

#[test]
fn periods_by_the_clock() {
    for now_ms in [0u64, 1_700_000_000_123, 1_709_294_400_000, 4_102_444_800_000] {
        let now = Local.timestamp_millis_opt(now_ms as i64).unwrap();
        let bound = |d: NaiveDate, h: u32, m: u32, s: u32| {
            Local.from_local_datetime(&d.and_hms_opt(h, m, s).unwrap()).single()
        };
        let yesterday = now.date_naive() - Duration::days(1);
        if let (Some(a), Some(b)) = (bound(yesterday, 0, 0, 0), bound(yesterday, 23, 59, 59)) {
            assert_eq!(
                period_range_ms(PeriodScope::Yesterday, now_ms),
                Some((a.timestamp_millis() as u64, b.timestamp_millis() as u64))
            );
        }
        let first = now.date_naive().with_day(1).unwrap();
        if let Some(a) = bound(first, 0, 0, 0) {
            assert_eq!(
                period_range_ms(PeriodScope::ThisMonth, now_ms).unwrap().0,
                a.timestamp_millis() as u64
            );
        }
        for scope in SCOPES {
            assert!(period_range_ms(scope, now_ms).is_some());
        }
    }
    assert_eq!(period_range_ms(PeriodScope::Today, i64::MAX as u64), None);
}

#[test]
fn periods_at_the_ends_of_time() {
    let day = 86_400_000;
    for ms in [
        FIRST_INSTANT_MS,
        FIRST_INSTANT_MS + day - 1,
        FIRST_INSTANT_MS + day,
        LAST_INSTANT_MS - day,
        LAST_INSTANT_MS - day + 1,
        FIRST_INSTANT_MS, LAST_INSTANT_MS,
    ] {
        let at = Local.timestamp_millis_opt(ms).unwrap();
        let wall = at.naive_utc().checked_add_offset(at.offset().fix());
        let expected = wall.and_then(|wall| {
            let bound = |h, m, s| {
                let t = wall.date().and_hms_opt(h, m, s).unwrap();
                Local.from_local_datetime(&t).single().map(|t| t.timestamp_millis() as u64)
            };
            Some((bound(0, 0, 0)?, bound(23, 59, 59)?))
        });
        assert_eq!(period_range_ms(PeriodScope::Today, ms as u64), expected);
    }
    for ms in [FIRST_INSTANT_MS - 1, LAST_INSTANT_MS + 1] {
        assert!(Local.timestamp_millis_opt(ms).single().is_none());
        assert_eq!(period_range_ms(PeriodScope::Today, ms as u64), None);
    }
}

#[test]
fn hours_by_the_clock() {
    for ts in [5_000_000_000u64, 1_700_000_000_123, 1_709_294_399_999, 1_709_294_400_000] {
        let at = Local.timestamp_millis_opt(ts as i64).unwrap();
        let into = (at.minute() as u64 * 60 + at.second() as u64) * 1000
            + at.timestamp_subsec_millis() as u64;
        let (start, end) = hourly_bucket_local(ts);
        assert_eq!(start, ts - into);
        assert_eq!(end, start + 3_599_999);
        assert!(start <= ts && ts <= end);
    }
    let far = u64::MAX - 5;
    assert_eq!(hourly_bucket_local(far), (far - far % 3_600_000, u64::MAX));
    let past = LAST_INSTANT_MS as u64 + 1;
    assert_eq!(hourly_bucket_local(past).0, past - past % 3_600_000);
}

#[test]
fn days_by_the_clock() {
    for ts in [5_000_000_000u64, 1_700_000_000_123, 1_709_294_400_000] {
        let at = Local.timestamp_millis_opt(ts as i64).unwrap();
        let midnight = Local.from_local_datetime(&at.date_naive().and_hms_opt(0, 0, 0).unwrap());
        if let Some(m) = midnight.single() {
            let start = m.timestamp_millis() as u64;
            assert_eq!(daily_bucket_local(ts), (start, start + 86_399_999));
        }
    }
    let far = u64::MAX - 5;
    assert_eq!(daily_bucket_local(far), (far - far % 86_400_000, u64::MAX));
}

#[test]
fn hours_and_days_of_a_local_time() {
    let t = LocalTime { hour: 7, minute: 30, second: 5, millis: 250, ..noon(2024, 3, 1) };
    assert_eq!(hour_around(10_000_000, &t), (8_194_750, 11_794_749));
    assert_eq!(hour_around(1_000, &t), (0, 3_599_999));
    assert_eq!(day_around(100_000_000, &t, None), (72_994_750, 159_394_749));
    assert_eq!(day_around(100_000_000, &t, Some(42)), (42, 86_400_041));
    assert_eq!(day_around(100_000_000, &t, Some(-42)), (0, 86_399_999));
    assert_eq!(day_around(1_000, &t, None), (0, 86_399_999));
}

#[test]
fn calendars_remember() {
    let mut cal = LocalCalendar::new();
    assert_eq!(cal.hour(3_700_000), (3_600_000, 7_199_999));
    assert_eq!(cal.day(90_000_000), (86_400_000, 172_799_999));
    cal.set_hour(3_700_000, (1, 2));
    cal.set_day(90_000_000, (3, 4));
    assert_eq!(cal.hour(3_700_000), (1, 2));
    assert_eq!(cal.day(90_000_000), (3, 4));
    assert_eq!(cal.hour(90_000_000), (90_000_000, 93_599_999));
    cal.learn_hour(3_700_000);
    cal.learn_day(90_000_000);
    assert_eq!(cal.hour(3_700_000), (1, 2));
    assert_eq!(cal.day(90_000_000), (3, 4));
    cal.learn_hour(1_700_000_000_123);
    cal.learn_day(1_700_000_000_123);
    assert_eq!(cal.hour(1_700_000_000_123), hourly_bucket_local(1_700_000_000_123));
    assert_eq!(cal.day(1_700_000_000_123), daily_bucket_local(1_700_000_000_123));
}

#[test]
fn numbers_of_both_signs() {
    for n in [0i64, 1, -1, i64::MAX, i64::MIN, -1_800_000] {
        assert_eq!(as_unsigned(n), n as u64);
        assert_eq!(as_signed(n as u64), n);
    }
}

#[test]
fn bounds_of_a_period() {
    assert_eq!(period_bounds(Some(5), Some(9)), Some((5, 9)));
    assert_eq!(period_bounds(Some(-1), Some(9)), Some((u64::MAX, 9)));
    assert_eq!(period_bounds(None, Some(9)), None);
    assert_eq!(period_bounds(Some(5), None), None);
    assert_eq!(period_bounds(None, None), None);
}

#[test]
fn weeks_span_seven_days() {
    // Noon of each day of two weeks, in a zone two hours ahead of UTC.
    for day in 1u32..15 {
        let now = noon(2024, 5, day);
        let offset_ms = 7_200_000i64;
        let bounds = |scope| {
            let (a, b) = period_dates(scope, &now).unwrap();
            let midnight = |d: CivilDate| {
                let days = NaiveDate::from_ymd_opt(d.year, d.month, d.day).unwrap()
                    - NaiveDate::from_ymd_opt(1970, 1, 1).unwrap();
                days.num_milliseconds() - offset_ms
            };
            period_bounds(Some(midnight(a)), Some(midnight(b) + 86_399_000)).unwrap()
        };
        let noon_ms = NaiveDate::from_ymd_opt(2024, 5, day)
            .unwrap()
            .and_hms_opt(10, 0, 0)
            .unwrap()
            .and_utc()
            .timestamp_millis() as u64;
        let (s, e) = bounds(PeriodScope::ThisWeek);
        assert_eq!(e - s, 604_799_000);
        assert!(s <= noon_ms && noon_ms < e + 1000);
        assert_eq!(bounds(PeriodScope::LastWeek), (s - 604_800_000, e - 604_800_000));
    }
}
