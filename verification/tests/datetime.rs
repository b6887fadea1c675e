use compounder::calendar::Date;
use compounder::compounder::Compounder;
use compounder::datetime::read_date;

fn date(year: i32, month: u32, day: u32) -> Date {
    Date { year, month, day }
}

#[test]
fn written_dates_read_back_signed_years_included() {
    for d in [date(2024, 2, 29), date(7, 10, 9), date(10000, 1, 2), date(-1, 3, 4), date(-262143, 1, 1), date(262142, 12, 31)] {
        let c = Compounder::new(0, d);
        assert_eq!(read_date(&c.start_date), Some(d));
    }
}

#[test]
fn reading_dates() {
    assert_eq!(read_date("2024-1-5"), Some(date(2024, 1, 5)));
    assert_eq!(read_date(" 2024-01-05"), Some(date(2024, 1, 5)));
    assert_eq!(read_date("+10000-01-02"), Some(date(10000, 1, 2)));
    assert_eq!(read_date("-0001-03-04"), Some(date(-1, 3, 4)));
    assert_eq!(read_date("2023-02-29"), None);
    assert_eq!(read_date("2024-13-01"), None);
    assert_eq!(read_date("+262143-01-01"), None);
    assert_eq!(read_date("2024/01/05"), None);
    assert_eq!(read_date(""), None);
}
