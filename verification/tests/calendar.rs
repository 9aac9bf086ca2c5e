use chrono::{Datelike, NaiveDate};
use turns::calendar::{CalendarDate, MAX_DAY, MIN_DAY, SECONDS_PER_DAY};

fn date(year: i32, month: u32, day: u32) -> CalendarDate {
    CalendarDate::from_ymd_opt(year, month, day).unwrap()
}

#[test]
fn calendar_day_numbers() {
    assert_eq!(date(1, 1, 1).day_number(), 1);
    assert_eq!(date(1970, 1, 1).day_number(), 719_163);
    assert_eq!(date(2025, 1, 1).day_number(), 739_252);
    assert_eq!(date(0, 12, 31).day_number(), 0);
}

#[test]
fn calendar_rejects_what_is_no_date() {
    assert_eq!(CalendarDate::from_ymd_opt(2025, 2, 29), None);
    assert_eq!(CalendarDate::from_ymd_opt(2025, 13, 1), None);
    assert_eq!(CalendarDate::from_ymd_opt(2025, 0, 1), None);
    assert_eq!(CalendarDate::from_ymd_opt(400_000, 1, 1), None);
    assert!(CalendarDate::from_ymd_opt(2024, 2, 29).is_some());
}

#[test]
fn calendar_limits_are_those_of_chrono() {
    assert_eq!(NaiveDate::MIN.num_days_from_ce(), MIN_DAY);
    assert_eq!(NaiveDate::MAX.num_days_from_ce(), MAX_DAY);
    assert_eq!(NaiveDate::from_num_days_from_ce_opt(MAX_DAY + 1), None);
    assert_eq!(NaiveDate::from_num_days_from_ce_opt(MIN_DAY - 1), None);
    assert_eq!(CalendarDate::from_day_number(MAX_DAY + 1), None);
    assert_eq!(CalendarDate::from_day_number(MIN_DAY - 1), None);
    assert_eq!(CalendarDate::from_day_number(MAX_DAY).map(|d| d.day_number()), Some(MAX_DAY));
    assert_eq!(CalendarDate::from_day_number(MIN_DAY).map(|d| d.day_number()), Some(MIN_DAY));
    assert_eq!(date(262_142, 12, 31).day_number(), MAX_DAY);
    assert_eq!(date(-262_143, 1, 1).day_number(), MIN_DAY);
}

#[test]
fn calendar_succ() {
    assert_eq!(date(2025, 1, 1).succ_opt(), Some(date(2025, 1, 2)));
    assert_eq!(date(2025, 1, 31).succ_opt(), Some(date(2025, 2, 1)));
    assert_eq!(date(2024, 2, 28).succ_opt(), Some(date(2024, 2, 29)));
    assert_eq!(date(2024, 12, 31).succ_opt(), Some(date(2025, 1, 1)));
    assert_eq!(CalendarDate::from_day_number(MAX_DAY).unwrap().succ_opt(), None);
    let first = CalendarDate::from_day_number(MIN_DAY).unwrap();
    assert_eq!(first.succ_opt().map(|d| d.day_number()), Some(MIN_DAY + 1));
}

#[test]
fn calendar_add_days() {
    assert_eq!(date(2025, 1, 1).checked_add_days(0), Some(date(2025, 1, 1)));
    assert_eq!(date(2025, 1, 1).checked_add_days(3), Some(date(2025, 1, 4)));
    assert_eq!(date(2022, 2, 20).checked_add_days(9), Some(date(2022, 3, 1)));
    assert_eq!(date(2025, 1, 1).checked_add_days(1_000_000_000_000), None);
    assert_eq!(date(2025, 1, 1).checked_add_days(u64::MAX), None);
    let last = CalendarDate::from_day_number(MAX_DAY).unwrap();
    assert_eq!(last.checked_add_days(1), None);
    assert_eq!(last.checked_add_days(0), Some(last));
    let near = CalendarDate::from_day_number(MAX_DAY - 255).unwrap();
    assert_eq!(near.checked_add_days(255), Some(last));
    assert_eq!(near.checked_add_days(256), None);
}

#[test]
fn calendar_seconds_since() {
    assert_eq!(date(2025, 1, 4).seconds_since(&date(2025, 1, 1)), 3 * SECONDS_PER_DAY);
    assert_eq!(date(2025, 1, 1).seconds_since(&date(2025, 1, 4)), -3 * SECONDS_PER_DAY);
    assert_eq!(date(2025, 1, 1).seconds_since(&date(2025, 1, 1)), 0);
    assert_eq!(date(2014, 1, 1).seconds_since(&date(1614, 1, 1)), (365 * 400 + 97) * 86_400);
    let first = CalendarDate::from_day_number(MIN_DAY).unwrap();
    let last = CalendarDate::from_day_number(MAX_DAY).unwrap();
    assert_eq!(last.seconds_since(&first), (MAX_DAY as i64 - MIN_DAY as i64) * 86_400);
    assert_eq!(first.seconds_since(&last), (MIN_DAY as i64 - MAX_DAY as i64) * 86_400);
}

#[test]
fn calendar_order() {
    assert!(date(2025, 1, 1).is_before(&date(2025, 1, 2)));
    assert!(!date(2025, 1, 2).is_before(&date(2025, 1, 1)));
    assert!(!date(2025, 1, 1).is_before(&date(2025, 1, 1)));
    assert!(date(-1, 12, 31).is_before(&date(1, 1, 1)));
}
