use tg::calendar::{Date, SECOND, Timestamp};
use tg::config::Timeframe;
use tg::since::{SinceError, cutoff, parse_partial_date};

fn date(year: i16, month: i8, day: i8) -> Date {
    Date::new(year, month, day).unwrap()
}

#[test]
fn dates_of_the_calendar() {
    assert!(Date::new(2024, 2, 29).is_some());
    assert!(Date::new(2023, 2, 29).is_none());
    assert!(Date::new(2000, 2, 29).is_some());
    assert!(Date::new(1900, 2, 29).is_none());
    assert!(Date::new(2024, 13, 1).is_none());
    assert!(Date::new(2024, 0, 1).is_none());
    assert!(Date::new(2024, 4, 31).is_none());
    assert!(Date::new(9999, 12, 31).is_some());
    assert!(Date::new(10000, 1, 1).is_none());
}

#[test]
fn dates_as_texts() {
    let d = date(2025, 1, 3);
    assert_eq!(d.text(), "Jan 03, 2025");
    assert_eq!(d.day_text(), "Jan 03");
    assert_eq!(d.iso_text(), "2025-01-03");
    assert_eq!(date(33, 12, 25).text(), "Dec 25, 0033");
    assert_eq!(date(-5, 7, 1).text(), "Jul 01, -005");
    assert_eq!(date(-5, 7, 1).iso_text(), "-005-07-01");
}

#[test]
fn instants_and_dates() {
    let t = Timestamp { nanos: -1 };
    assert_eq!(t.utc_date(), date(1969, 12, 31));
    assert_eq!(t.as_second(), 0);
    assert_eq!(Timestamp { nanos: 0 }.utc_date(), date(1970, 1, 1));
    let t = Timestamp::from_second(1_767_225_600).unwrap();
    assert_eq!(t.utc_date(), date(2026, 1, 1));
    assert_eq!(t.clock_text(), "00:00");
    assert_eq!(Timestamp { nanos: t.nanos + 33_905 * SECOND }.clock_text(), "09:25");
    assert_eq!(t.as_second(), 1_767_225_600);
    assert!(Timestamp::from_second(253_402_207_200).is_some());
    assert!(Timestamp::from_second(253_402_207_201).is_none());
    assert!(Timestamp::from_second(-377_705_023_201).is_some());
    assert!(Timestamp::from_second(-377_705_023_202).is_none());
}

#[test]
fn ends_of_days() {
    let end = date(2026, 1, 1).last_second().unwrap();
    assert_eq!(end.as_second(), 1_767_225_600 + 86_399);
    assert_eq!(date(9999, 12, 31).last_second(), None);
    assert!(date(9999, 12, 29).last_second().is_some());
}

#[test]
fn instants_as_date_and_time() {
    let t = Timestamp { nanos: 1_767_225_600 * SECOND + 33_905 * SECOND };
    assert_eq!(t.to_rfc3339(), "2026-01-01T09:25:05+00:00");
    assert_eq!(Timestamp::from_rfc3339(&t.to_rfc3339()), Some(t));
    let fine = Timestamp { nanos: t.nanos + 5_000_000 };
    assert_eq!(fine.to_rfc3339(), "2026-01-01T09:25:05.005+00:00");
    let finer = Timestamp { nanos: t.nanos + 5_000 };
    assert_eq!(finer.to_rfc3339(), "2026-01-01T09:25:05.000005+00:00");
    let finest = Timestamp { nanos: t.nanos + 5 };
    assert_eq!(finest.to_rfc3339(), "2026-01-01T09:25:05.000000005+00:00");
    let past = Timestamp { nanos: -1 };
    assert_eq!(past.to_rfc3339(), "1969-12-31T23:59:59.999999999+00:00");
    for t in [fine, finer, finest, past, Timestamp { nanos: -62_167_219_200 * SECOND }] {
        assert_eq!(Timestamp::from_rfc3339(&t.to_rfc3339()), Some(t));
    }
    let early = Timestamp { nanos: (-62_167_219_200 - 1) * SECOND };
    assert_eq!(early.to_rfc3339(), "-0001-12-31T23:59:59+00:00");
    assert_eq!(Timestamp::from_rfc3339(&early.to_rfc3339()), None);
}

#[test]
fn date_and_time_in_other_zones() {
    assert_eq!(
        Timestamp::from_rfc3339("1970-01-01T01:00:00+01:00"),
        Some(Timestamp { nanos: 0 })
    );
    assert_eq!(
        Timestamp::from_rfc3339("1970-01-01T00:00:00.25Z"),
        Some(Timestamp { nanos: 250_000_000 })
    );
    assert_eq!(Timestamp::from_rfc3339("yesterday"), None);
    assert_eq!(Timestamp::from_rfc3339("9999-12-31T23:59:59Z"), None);
}

#[test]
fn going_back_by_whole_days() {
    assert_eq!(date(2024, 3, 1).back(86_400), Some(date(2024, 2, 29)));
    assert_eq!(date(2024, 3, 1).back(86_399), Some(date(2024, 3, 1)));
    assert_eq!(date(2024, 1, 1).back(604_800), Some(date(2023, 12, 25)));
    assert_eq!(date(-9999, 1, 1).back(86_400), None);
}

#[test]
fn order_of_dates() {
    assert!(date(2023, 12, 31).is_before(date(2024, 1, 1)));
    assert!(date(2024, 1, 31).is_before(date(2024, 2, 1)));
    assert!(!date(2024, 2, 1).is_before(date(2024, 2, 1)));
}

#[test]
fn partial_dates() {
    let today = date(2024, 3, 15);
    assert_eq!(parse_partial_date("2022-07-04", today), Ok(date(2022, 7, 4)));
    assert_eq!(parse_partial_date("2022/07/04", today), Ok(date(2022, 7, 4)));
    assert_eq!(parse_partial_date("03-15", today), Ok(date(2024, 3, 15)));
    assert_eq!(parse_partial_date("03-16", today), Ok(date(2023, 3, 16)));
    assert_eq!(parse_partial_date("15", today), Ok(date(2024, 3, 15)));
    assert_eq!(parse_partial_date("20", today), Ok(date(2024, 2, 20)));
    assert_eq!(parse_partial_date("31", today), Err(SinceError::NoSuchDate));
    assert_eq!(parse_partial_date("20", date(2024, 1, 5)), Ok(date(2023, 12, 20)));
    assert_eq!(parse_partial_date("x", today), Err(SinceError::NotANumber));
    assert_eq!(parse_partial_date("2024-02-30", today), Err(SinceError::NoSuchDate));
    assert_eq!(parse_partial_date("1-2-3-4", today), Err(SinceError::BadFormat));
}

#[test]
fn where_to_start_from() {
    let today = date(2024, 3, 15);
    let day = Timeframe { seconds: 86_400 };
    assert_eq!(cutoff(Some("14"), None, today), Ok(date(2024, 3, 14)));
    assert_eq!(cutoff(None, Some(day), today), Ok(date(2024, 3, 14)));
    assert_eq!(cutoff(Some("14"), Some(day), today), Err(SinceError::Both));
    assert_eq!(cutoff(None, None, today), Err(SinceError::Neither));
    let ages = Timeframe { seconds: u64::MAX };
    assert_eq!(cutoff(None, Some(ages), today), Err(SinceError::TooFarBack));
}
