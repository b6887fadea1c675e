use compounder::calendar::Date;
use compounder::compounder::{AmountStep, Compounder, Field};

fn with_dates(start: &str, finish: &str) -> Compounder {
    let mut c = Compounder::new(1, Date { year: 2024, month: 1, day: 1 });
    c.start_date = start.to_string();
    c.final_date = finish.to_string();
    c
}

#[test]
fn a_new_compounder_spans_one_year() {
    let c = Compounder::new(42, Date { year: 2024, month: 5, day: 17 });
    assert_eq!(c.id, 42);
    assert_eq!(c.title, "<New Compounder>");
    assert!(c.is_open);
    assert_eq!(c.start_date, "2024-05-17");
    assert_eq!(c.final_date, "2025-05-17");
    assert!(!c.follow_today);
    assert_eq!((c.years, c.months, c.weeks, c.days), (1, 0, 0, 0));
    assert_eq!(c.start_amount, "1000");
    assert_eq!(c.final_amount, "1100");
    assert_eq!(c.cagr, "10");
}

#[test]
fn a_new_compounder_on_a_leap_day_ends_on_the_28th() {
    let c = Compounder::new(0, Date { year: 2024, month: 2, day: 29 });
    assert_eq!(c.start_date, "2024-02-29");
    assert_eq!(c.final_date, "2025-02-28");
}

#[test]
fn dates_outside_four_digit_years_carry_a_sign() {
    let c = Compounder::new(0, Date { year: 10000, month: 1, day: 2 });
    assert_eq!(c.start_date, "+10000-01-02");
    let c = Compounder::new(0, Date { year: -1, month: 3, day: 4 });
    assert_eq!(c.start_date, "-0001-03-04");
    assert_eq!(c.final_date, "0000-03-04");
    let c = Compounder::new(0, Date { year: 7, month: 10, day: 9 });
    assert_eq!(c.start_date, "0007-10-09");
}

#[test]
fn entered_dates() {
    let c = with_dates("2024-01-15", "2024-1-15");
    assert!(c.valid_start());
    // parses, but is not ten bytes long
    assert!(!c.valid_final());
    let c = with_dates("2024-02-30", "garbage");
    assert!(!c.valid_start());
    assert!(!c.valid_final());
    let c = with_dates("", "2024-13-01");
    assert!(!c.valid_start());
    assert!(!c.valid_final());
}

#[test]
fn range_needs_both_dates_in_order() {
    assert!(with_dates("2024-01-15", "2024-01-15").valid_range());
    assert!(with_dates("2024-01-15", "2025-01-15").valid_range());
    assert!(!with_dates("2024-01-16", "2024-01-15").valid_range());
    assert!(!with_dates("2024-01-16", "x").valid_range());
    // a short form still reads as a date
    assert!(with_dates("2024-1-5", "2024-01-15").valid_range());
}

#[test]
fn field_highlighting() {
    let c = with_dates("2024-01-15", "2025-01-15");
    assert!(c.start_field_ok() && c.final_field_ok());
    let c = with_dates("2025-01-15", "2024-01-15");
    assert!(!c.start_field_ok() && !c.final_field_ok());
    let c = with_dates("2025-01-15", "nonsense");
    assert!(c.start_field_ok() && !c.final_field_ok());
    let c = with_dates("nonsense", "2025-01-15");
    assert!(!c.start_field_ok() && c.final_field_ok());
}

#[test]
fn redo_parts_from_dates() {
    let mut c = with_dates("2020-05-20", "2023-08-10");
    c.redo_parts();
    assert_eq!((c.years, c.months, c.weeks, c.days), (3, 2, 3, 0));
    assert_eq!(c.final_date, "2023-08-10");
    let mut c = with_dates("2024-01-31", "2024-03-01");
    c.redo_parts();
    assert_eq!((c.years, c.months, c.weeks, c.days), (0, 1, 0, 1));
}

#[test]
fn redo_parts_leaves_parts_on_bad_input() {
    let mut c = with_dates("2024-01-31", "no date");
    c.years = 9;
    c.redo_parts();
    assert_eq!((c.years, c.months, c.weeks, c.days), (9, 0, 0, 0));
    let mut c = with_dates("2024-03-01", "2024-01-31");
    c.redo_parts();
    assert_eq!((c.years, c.months, c.weeks, c.days), (1, 0, 0, 0));
}

#[test]
fn redo_final_from_parts() {
    let mut c = with_dates("2022-07-31", "x");
    c.years = 0;
    c.months = 2;
    c.redo_final();
    assert_eq!(c.final_date, "2022-09-30");
    let mut c = with_dates("2022-02-20", "x");
    (c.years, c.months, c.weeks, c.days) = (0, 0, 1, 2);
    c.redo_final();
    assert_eq!(c.final_date, "2022-03-01");
    let mut c = with_dates("2024-01-31", "x");
    (c.years, c.months, c.weeks, c.days) = (2, 1, 0, 0);
    c.redo_final();
    assert_eq!(c.final_date, "2026-02-28");
    assert_eq!((c.years, c.months, c.weeks, c.days), (2, 1, 0, 0));
}

#[test]
fn redo_final_keeps_the_final_date_on_a_bad_start() {
    let mut c = with_dates("2024-02-31", "2024-05-05");
    c.redo_final();
    assert_eq!(c.final_date, "2024-05-05");
}

#[test]
fn redo_final_beyond_the_calendar_gives_1970() {
    let mut c = with_dates("+262142-06-01", "x");
    assert!(c.valid_range() == false);
    (c.years, c.months, c.weeks, c.days) = (1, 0, 0, 0);
    c.redo_final();
    assert_eq!(c.final_date, "1970-01-01");
    // months fit, the days do not
    let mut c = with_dates("+262142-12-01", "x");
    (c.years, c.months, c.weeks, c.days) = (0, 0, 4, 6);
    c.redo_final();
    assert_eq!(c.final_date, "1970-01-01");
    let mut c = with_dates("+262142-12-01", "x");
    (c.years, c.months, c.weeks, c.days) = (0, 0, 4, 2);
    c.redo_final();
    assert_eq!(c.final_date, "+262142-12-31");
}

#[test]
fn parts_then_final_gives_the_final_date_back() {
    let pairs = [
        ("2020-05-20", "2023-08-10"),
        ("2024-01-31", "2024-03-01"),
        ("2023-01-31", "2023-03-01"),
        ("2022-11-20", "2023-01-05"),
        ("2024-02-29", "2028-02-29"),
        ("2023-12-31", "2024-03-01"),
    ];
    for (s, f) in pairs {
        let mut c = with_dates(s, f);
        c.redo_parts();
        c.final_date = String::from("unset");
        c.redo_final();
        assert_eq!(c.final_date, f);
    }
}

#[test]
fn parts_then_final_can_lose_days_to_a_short_month() {
    // Jan 31 + 1 month is Feb 28; the two days left reach Mar 2, not Mar 5
    let mut c = with_dates("2023-01-31", "2023-03-05");
    c.redo_parts();
    assert_eq!((c.years, c.months, c.weeks, c.days), (0, 1, 0, 2));
    c.redo_final();
    assert_eq!(c.final_date, "2023-03-02");
    // a leap day stepped a year on lands on Feb 28
    let mut c = with_dates("2024-02-29", "2025-03-01");
    c.redo_parts();
    assert_eq!((c.years, c.months, c.weeks, c.days), (1, 0, 0, 0));
    c.redo_final();
    assert_eq!(c.final_date, "2025-02-28");
}

#[test]
fn elapsed_days_between_distinct_ordered_dates() {
    assert_eq!(with_dates("2024-01-01", "2025-01-01").elapsed_days(), Some(366));
    assert_eq!(with_dates("2023-01-01", "2024-01-01").elapsed_days(), Some(365));
    assert_eq!(with_dates("2014-01-01", "2014-01-02").elapsed_days(), Some(1));
    assert_eq!(with_dates("1614-01-01", "2014-01-01").elapsed_days(), Some(365 * 400 + 97));
    assert_eq!(with_dates("2024-01-01", "2024-01-01").elapsed_days(), None);
    assert_eq!(with_dates("2024-01-02", "2024-01-01").elapsed_days(), None);
    assert_eq!(with_dates("2024-01-02", "never").elapsed_days(), None);
}

#[test]
fn total_days_reads_bad_dates_as_1970() {
    assert_eq!(with_dates("2024-01-01", "2024-03-01").total_days(), 60);
    assert_eq!(with_dates("2024-03-01", "2024-01-01").total_days(), -60);
    assert_eq!(with_dates("bad", "also bad").total_days(), 0);
    assert_eq!(with_dates("bad", "1970-01-11").total_days(), 10);
}

#[test]
fn setting_the_final_date_redoes_the_parts() {
    let mut c = with_dates("2024-01-01", "2024-01-01");
    c.set_final_date(Date { year: 2025, month: 3, day: 15 });
    assert_eq!(c.final_date, "2025-03-15");
    assert_eq!((c.years, c.months, c.weeks, c.days), (1, 2, 2, 0));
}

#[test]
fn edits_dispatch_their_recomputation() {
    let mut c = with_dates("2020-05-20", "2023-08-10");
    assert_eq!(c.edited(Field::FinalDate), AmountStep::Rate);
    assert_eq!((c.years, c.months, c.weeks, c.days), (3, 2, 3, 0));
    c.start_date = String::from("2021-05-20");
    assert_eq!(c.edited(Field::StartDate), AmountStep::Rate);
    assert_eq!((c.years, c.months, c.weeks, c.days), (2, 2, 3, 0));
    c.months = 3;
    assert_eq!(c.edited(Field::Months), AmountStep::Rate);
    assert_eq!(c.final_date, "2023-09-10");
    c.days = 1;
    assert_eq!(c.edited(Field::Days), AmountStep::Rate);
    assert_eq!(c.final_date, "2023-09-11");
    c.start_amount = String::from("2000");
    assert_eq!(c.edited(Field::StartAmount), AmountStep::Rate);
    assert_eq!(c.edited(Field::FinalAmount), AmountStep::Rate);
    assert_eq!(c.edited(Field::Cagr), AmountStep::FinalAmount);
    assert_eq!(c.final_date, "2023-09-11");
    assert_eq!(c.start_amount, "2000");
}
