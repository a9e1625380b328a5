use zeroed_books_ledger::dates::{
    day_index, truncate, year_before, Date, ReportInterval,
};

#[test]
fn date_validation() {
    assert!(Date::new(2023, 4, 15).is_some());
    assert!(Date::new(2024, 2, 29).is_some());
    assert!(Date::new(2023, 2, 29).is_none());
    assert!(Date::new(2023, 13, 1).is_none());
    assert!(Date::new(2023, 0, 1).is_none());
    assert!(Date::new(2023, 4, 31).is_none());
    assert!(Date::new(0, 1, 1).is_none());
}

#[test]
fn date_ordering() {
    let early = Date::new(2023, 4, 15).unwrap();
    let late = Date::new(2023, 5, 1).unwrap();
    assert!(early.before(&late));
    assert!(!late.before(&early));
    assert!(early.on_or_before(&early));
}

#[test]
fn day_index_matches_known_dates() {
    // 1970-01-01 is 719468 days after the epoch of the civil-day count.
    let unix_epoch = Date::new(1970, 1, 1).unwrap();
    assert_eq!(719468, day_index(&unix_epoch));
    let next_day = Date::new(1970, 1, 2).unwrap();
    assert_eq!(719469, day_index(&next_day));
}

#[test]
fn truncation_by_interval() {
    let d = Date::new(2023, 4, 15).unwrap();
    assert_eq!(d, truncate(ReportInterval::Daily, &d));
    assert_eq!(
        Date::new(2023, 4, 1).unwrap(),
        truncate(ReportInterval::Monthly, &d)
    );
    // 2023-04-15 is a Saturday; its week began on Monday the 10th.
    assert_eq!(
        Date::new(2023, 4, 10).unwrap(),
        truncate(ReportInterval::Weekly, &d)
    );
    // A Monday truncates to itself.
    let monday = Date::new(2023, 4, 10).unwrap();
    assert_eq!(monday, truncate(ReportInterval::Weekly, &monday));
    // A week can start in the previous month.
    let first = Date::new(2023, 6, 1).unwrap();
    assert_eq!(
        Date::new(2023, 5, 29).unwrap(),
        truncate(ReportInterval::Weekly, &first)
    );
}

#[test]
fn year_before_clamps_leap_day() {
    let leap = Date::new(2024, 2, 29).unwrap();
    assert_eq!(Date::new(2023, 2, 28).unwrap(), year_before(&leap));
    let plain = Date::new(2023, 4, 15).unwrap();
    assert_eq!(Date::new(2022, 4, 15).unwrap(), year_before(&plain));
}
