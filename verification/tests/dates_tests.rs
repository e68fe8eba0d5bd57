use stundenplan::dates::{
    calc_iso_week, calc_iso_year, format_date, next_date, next_valid_date, next_valid_date_from,
    weekday, Date,
};

fn d(year: i32, month: i32, day: i32) -> Date {
    Date { year, month, day }
}

#[test]
fn format_date_pads_to_four_two_two() {
    assert_eq!(format_date(&d(2024, 2, 5)), "2024-02-05");
    assert_eq!(format_date(&d(999, 12, 31)), "0999-12-31");
    assert_eq!(format_date(&d(2024, 11, 20)), "2024-11-20");
}

#[test]
fn weekday_matches_known_days() {
    // 2024-01-01 was a Monday, 2000-01-01 a Saturday
    assert_eq!(weekday(&d(2024, 1, 1)), 0);
    assert_eq!(weekday(&d(2000, 1, 1)), 5);
    assert_eq!(weekday(&d(2024, 1, 10)), 2);
    assert_eq!(weekday(&d(2024, 1, 14)), 6);
}

#[test]
fn next_date_handles_month_and_year_ends() {
    assert_eq!(next_date(&d(2024, 2, 28)), d(2024, 2, 29));
    assert_eq!(next_date(&d(2023, 2, 28)), d(2023, 3, 1));
    assert_eq!(next_date(&d(2024, 12, 31)), d(2025, 1, 1));
    assert_eq!(next_date(&d(2024, 4, 30)), d(2024, 5, 1));
    assert_eq!(next_date(&d(1900, 2, 28)), d(1900, 3, 1)); // 1900 is not a leap year
}

#[test]
fn next_valid_date_from_skips_evening_and_weekend() {
    // Wednesday before 17:00 stays
    assert_eq!(next_valid_date_from(d(2024, 1, 10), 12), d(2024, 1, 10));
    // Wednesday from 17:00 moves to Thursday
    assert_eq!(next_valid_date_from(d(2024, 1, 10), 17), d(2024, 1, 11));
    // Friday evening moves past the weekend to Monday
    assert_eq!(next_valid_date_from(d(2024, 1, 12), 18), d(2024, 1, 15));
    // Saturday morning moves to Monday
    assert_eq!(next_valid_date_from(d(2024, 1, 13), 9), d(2024, 1, 15));
    // Sunday moves to Monday
    assert_eq!(next_valid_date_from(d(2024, 1, 14), 9), d(2024, 1, 15));
}

#[test]
fn next_valid_date_is_a_weekday() {
    let r = next_valid_date();
    assert!(r.month >= 1 && r.month <= 12);
    assert!(r.day >= 1 && r.day <= 31);
    assert!(weekday(&r) < 5);
}

#[test]
fn iso_week_matches_known_calendar() {
    // 2024-01-01 starts ISO week 1 of 2024
    assert_eq!(calc_iso_week(&d(2024, 1, 1)), 1);
    assert_eq!(calc_iso_year(&d(2024, 1, 1)), 2024);
    // 2023-01-01 was a Sunday: ISO week 52 of 2022
    assert_eq!(calc_iso_week(&d(2023, 1, 1)), 52);
    assert_eq!(calc_iso_year(&d(2023, 1, 1)), 2022);
    // 2020 had 53 ISO weeks
    assert_eq!(calc_iso_week(&d(2020, 12, 31)), 53);
    assert_eq!(calc_iso_year(&d(2020, 12, 31)), 2020);
    // mid-year date
    assert_eq!(calc_iso_week(&d(2024, 1, 15)), 3);
}
