use black_scholes::Date;
use black_scholes::calcular_dias_uteis;
use chrono::Datelike;
use chrono::NaiveDate;

fn date(y: i32, m: u8, d: u8) -> Date {
    Date::new(y, m, d).expect("well-formed calendar date")
}

#[test]
fn builds_only_well_formed_dates() {
    assert!(Date::new(2024, 1, 1).is_some());
    assert!(Date::new(2024, 2, 29).is_some());
    assert!(Date::new(2023, 2, 29).is_none());
    assert!(Date::new(2023, 2, 28).is_some());
    assert!(Date::new(2024, 13, 1).is_none());
    assert!(Date::new(2024, 0, 1).is_none());
    assert!(Date::new(2024, 4, 31).is_none());
    assert!(Date::new(2024, 12, 0).is_none());
    assert!(Date::new(500000, 1, 1).is_none());
    assert!(Date::new(-500000, 1, 1).is_none());
}

#[test]
fn century_leap_rule() {
    assert!(Date::new(1900, 2, 29).is_none());
    assert!(Date::new(2000, 2, 29).is_some());
    assert!(Date::new(2100, 2, 29).is_none());
}

#[test]
fn day_numbers_at_known_dates() {
    assert_eq!(date(1970, 1, 1).to_day_number(), 0);
    assert_eq!(date(1969, 12, 31).to_day_number(), -1);
    assert_eq!(date(1970, 1, 2).to_day_number(), 1);
    assert_eq!(date(2024, 1, 1).to_day_number(), 19723);
    assert_eq!(date(2000, 3, 1).to_day_number(), 11017);
}

#[test]
fn weekdays_at_known_dates() {
    // index 0 = Monday .. 6 = Sunday
    assert_eq!(date(1970, 1, 1).weekday(), 3); // Thursday
    assert_eq!(date(2024, 1, 1).weekday(), 0); // Monday
    assert_eq!(date(2024, 1, 6).weekday(), 5); // Saturday
    assert_eq!(date(2024, 1, 7).weekday(), 6); // Sunday
    assert_eq!(date(0, 1, 1).weekday(), 5); // Saturday
    assert!(date(2024, 1, 5).is_business_day());
    assert!(!date(2024, 1, 6).is_business_day());
}

#[test]
fn one_calendar_week_counts_five_business_days() {
    // Monday 2024-01-01 up to (excluding) Monday 2024-01-08:
    // Mon-Fri of the first week are counted, the end date is not.
    assert_eq!(calcular_dias_uteis(date(2024, 1, 1), date(2024, 1, 8)), 5);
    // The same five days, whichever weekday the window starts on.
    assert_eq!(calcular_dias_uteis(date(2024, 1, 3), date(2024, 1, 10)), 5);
    assert_eq!(calcular_dias_uteis(date(2024, 1, 6), date(2024, 1, 13)), 5);
}

#[test]
fn empty_and_reversed_spans_count_zero() {
    assert_eq!(calcular_dias_uteis(date(2024, 1, 1), date(2024, 1, 1)), 0);
    assert_eq!(calcular_dias_uteis(date(2024, 1, 8), date(2024, 1, 1)), 0);
    assert_eq!(calcular_dias_uteis(date(2024, 5, 10), date(2023, 5, 10)), 0);
}

#[test]
fn weekend_only_span_counts_zero() {
    // Saturday and Sunday only: no business day in [Sat, Mon).
    assert_eq!(calcular_dias_uteis(date(2024, 1, 6), date(2024, 1, 8)), 0);
}

#[test]
fn start_counted_end_excluded() {
    // Wednesday up to Friday: Wednesday and Thursday are counted.
    assert_eq!(calcular_dias_uteis(date(2024, 1, 3), date(2024, 1, 5)), 2);
    // A single business day.
    assert_eq!(calcular_dias_uteis(date(2024, 1, 3), date(2024, 1, 4)), 1);
    // Friday up to Monday: only the Friday.
    assert_eq!(calcular_dias_uteis(date(2024, 1, 5), date(2024, 1, 8)), 1);
}

#[test]
fn one_business_year_forward() {
    // 50 whole weeks (250 business days) plus Monday and Tuesday.
    assert_eq!(calcular_dias_uteis(date(2024, 1, 1), date(2024, 12, 18)), 252);
}

#[test]
fn spans_crossing_year_boundaries() {
    assert_eq!(calcular_dias_uteis(date(2023, 12, 29), date(2024, 1, 2)), 2);
    // Leap day 2024-02-29 (a Thursday) is counted like any weekday.
    assert_eq!(calcular_dias_uteis(date(2024, 2, 28), date(2024, 3, 1)), 2);
    assert_eq!(calcular_dias_uteis(date(2023, 2, 28), date(2023, 3, 1)), 1);
}

#[test]
fn day_numbers_match_chrono() {
    let epoch = NaiveDate::from_ymd_opt(1970, 1, 1).unwrap();
    let samples: Vec<(i32, u8, u8)> = vec![
        (1970, 1, 1),
        (1969, 12, 31),
        (2024, 1, 1),
        (2024, 2, 29),
        (2000, 2, 28),
        (1900, 3, 1),
        (1600, 7, 4),
        (0, 1, 1),
        (-44, 3, 15),
        (2262, 4, 11),
    ];
    for (y, m, d) in samples {
        let ours = date(y, m, d).to_day_number();
        let theirs = NaiveDate::from_ymd_opt(y, m as u32, d as u32)
            .unwrap()
            .signed_duration_since(epoch)
            .num_days();
        assert_eq!(ours, theirs, "day number of {}-{}-{}", y, m, d);
    }
}

#[test]
fn weekdays_match_chrono_over_a_range() {
    let mut cursor = NaiveDate::from_ymd_opt(2019, 12, 28).unwrap();
    for _ in 0..1200 {
        let ours = date(cursor.year(), cursor.month() as u8, cursor.day() as u8);
        assert_eq!(
            ours.weekday() as u32,
            cursor.weekday().num_days_from_monday(),
            "weekday of {}",
            cursor
        );
        cursor = cursor.succ_opt().unwrap();
    }
}

#[test]
fn business_day_count_matches_chrono_reference() {
    let windows: Vec<((i32, u8, u8), (i32, u8, u8))> = vec![
        ((2024, 1, 1), (2024, 1, 8)),
        ((2023, 11, 3), (2024, 2, 17)),
        ((2020, 2, 20), (2020, 3, 10)),
        ((1999, 12, 25), (2000, 1, 5)),
        ((2024, 6, 15), (2024, 6, 15)),
    ];
    for ((y1, m1, d1), (y2, m2, d2)) in windows {
        let start = NaiveDate::from_ymd_opt(y1, m1 as u32, d1 as u32).unwrap();
        let end = NaiveDate::from_ymd_opt(y2, m2 as u32, d2 as u32).unwrap();
        let mut expected: i32 = 0;
        let mut cursor = start;
        while cursor < end {
            if cursor.weekday() != chrono::Weekday::Sat && cursor.weekday() != chrono::Weekday::Sun
            {
                expected += 1;
            }
            cursor = cursor.succ_opt().unwrap();
        }
        let got = calcular_dias_uteis(date(y1, m1, d1), date(y2, m2, d2));
        assert_eq!(got, expected, "window {} .. {}", start, end);
    }
}
