use compounder::calendar::{date_difference, days_in_month, is_leap_year, Date};

fn date(year: i32, month: u32, day: u32) -> Date {
    Date { year, month, day }
}

#[test]
fn leap_years_follow_the_gregorian_rule() {
    assert!(is_leap_year(2024));
    assert!(!is_leap_year(2023));
    assert!(!is_leap_year(1900));
    assert!(is_leap_year(2000));
    assert!(is_leap_year(-4));
    assert!(!is_leap_year(-100));
    assert!(is_leap_year(-400));
}

#[test]
fn month_lengths() {
    let lengths = [31, 28, 31, 30, 31, 30, 31, 31, 30, 31, 30, 31];
    for (i, len) in lengths.iter().enumerate() {
        assert_eq!(days_in_month(2023, (i + 1) as u32), *len);
    }
    assert_eq!(days_in_month(2024, 2), 29);
    assert_eq!(days_in_month(1900, 2), 28);
    assert_eq!(days_in_month(2000, 2), 29);
    assert_eq!(days_in_month(2023, 0), 0);
    assert_eq!(days_in_month(2023, 13), 0);
}

#[test]
fn months_of_a_year_sum_to_its_length() {
    for year in [1900, 2000, 2023, 2024, -1] {
        let total: u32 = (1..=12).map(|m| days_in_month(year, m)).sum();
        assert_eq!(total, if is_leap_year(year) { 366 } else { 365 });
    }
}

#[test]
fn span_of_a_date_to_itself_is_empty() {
    assert_eq!(date_difference(date(2024, 2, 29), date(2024, 2, 29)), (0, 0, 0, 0));
}

#[test]
fn span_in_years_months_weeks_days() {
    assert_eq!(date_difference(date(2020, 5, 20), date(2023, 8, 10)), (3, 2, 3, 0));
    assert_eq!(date_difference(date(2023, 1, 1), date(2024, 1, 1)), (1, 0, 0, 0));
    assert_eq!(date_difference(date(2023, 1, 10), date(2023, 1, 27)), (0, 0, 2, 3));
    assert_eq!(date_difference(date(2022, 12, 15), date(2023, 1, 14)), (0, 0, 4, 2));
}

#[test]
fn january_31st_to_march_1st() {
    // leap year: February has 29 days, a day is still left over
    assert_eq!(date_difference(date(2024, 1, 31), date(2024, 3, 1)), (0, 1, 0, 1));
    // common year
    assert_eq!(date_difference(date(2023, 1, 31), date(2023, 3, 1)), (0, 1, 0, 1));
    assert_eq!(date_difference(date(2023, 1, 30), date(2023, 3, 1)), (0, 1, 0, 1));
    assert_eq!(date_difference(date(2023, 1, 29), date(2023, 3, 1)), (0, 1, 0, 0));
}

#[test]
fn borrowing_across_new_year() {
    // the month before January is December, 31 days
    assert_eq!(date_difference(date(2022, 11, 20), date(2023, 1, 5)), (0, 1, 2, 2));
}

#[test]
fn parts_that_do_not_fit_a_byte_are_zero() {
    // final date before the start: negative years
    assert_eq!(date_difference(date(2024, 3, 1), date(2023, 3, 1)), (0, 0, 0, 0));
    // three hundred years
    assert_eq!(date_difference(date(1700, 1, 1), date(2000, 1, 1)), (0, 0, 0, 0));
    assert_eq!(date_difference(date(1745, 1, 1), date(2000, 1, 1)), (255, 0, 0, 0));
}

#[test]
fn parts_stay_within_the_sliders() {
    let starts = [date(2023, 1, 31), date(2024, 2, 29), date(2023, 12, 1), date(2020, 6, 30)];
    let finals = [date(2024, 3, 1), date(2025, 2, 28), date(2030, 11, 30), date(2024, 7, 29)];
    for s in starts.iter() {
        for f in finals.iter() {
            let (_, m, w, d) = date_difference(*s, *f);
            assert!(m < 12 && w <= 4 && d < 7);
        }
    }
}

#[test]
fn dates_compare_in_calendar_order() {
    assert!(date(2023, 12, 31).is_before(&date(2024, 1, 1)));
    assert!(date(2024, 1, 31).is_before(&date(2024, 2, 1)));
    assert!(date(2024, 2, 1).is_before(&date(2024, 2, 2)));
    assert!(!date(2024, 2, 2).is_before(&date(2024, 2, 2)));
    assert!(!date(2025, 1, 1).is_before(&date(2024, 12, 31)));
}
