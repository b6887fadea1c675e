//! The calls into `chrono`: reading and writing `%Y-%m-%d` text, stepping a
//! date by months or days, and counting the days between two dates. Each is
//! trusted; its contract says what chrono's source and
//! documentation show of it, over the calendar model of `calendar`.

use vstd::prelude::*;
use crate::calendar::{
    day_number, lemma_day_number_injective, months_after, months_after_year, Date, FIRST_YEAR,
    LAST_YEAR,
};
use chrono::Datelike;

verus! {

/// The character of a decimal digit 0 to 9.
pub open spec fn digit_char(n: int) -> char {
    (48 + n) as char
}

/// The decimal digits of `n`, most significant first, without leading zeros.
pub open spec fn decimal(n: nat) -> Seq<char>
    decreases n,
{
    if n < 10 {
        seq![digit_char(n as int)]
    } else {
        decimal(n / 10).push(digit_char((n % 10) as int))
    }
}

/// The decimal digits of `n`, with zeros in front up to `width` characters.
pub open spec fn zero_padded(n: nat, width: nat) -> Seq<char> {
    let digits = decimal(n);
    let fill: nat = if digits.len() < width { (width - digits.len()) as nat } else { 0 };
    Seq::new(fill, |i: int| '0') + digits
}

/// `%Y`: four digits for the years 0 to 9999; any other year with its sign
/// and at least four digits.
pub open spec fn year_text(year: int) -> Seq<char> {
    if 0 <= year <= 9999 {
        zero_padded(year as nat, 4)
    } else if year < 0 {
        seq!['-'] + zero_padded((-year) as nat, 4)
    } else {
        seq!['+'] + zero_padded(year as nat, 4)
    }
}

/// A date written as `%Y-%m-%d`.
pub open spec fn iso_text(d: Date) -> Seq<char> {
    year_text(d.year as int) + seq!['-'] + zero_padded(d.month as nat, 2) + seq!['-'] + zero_padded(
        d.day as nat,
        2,
    )
}

/// The decimal digits of `n` are ASCII, one for a number below 10, at most
/// two below 100 and at most four below 10000.
pub proof fn lemma_decimal_digits(n: nat)
    ensures
        vstd::utf8::is_ascii_chars(decimal(n)),
        decimal(n).len() >= 1,
        n < 10 ==> decimal(n).len() == 1,
        n < 100 ==> decimal(n).len() <= 2,
        n < 1000 ==> decimal(n).len() <= 3,
        n < 10000 ==> decimal(n).len() <= 4,
    decreases n,
{
    if n >= 10 {
        lemma_decimal_digits(n / 10);
        let last = digit_char((n % 10) as int);
        assert(decimal(n) == decimal(n / 10).push(last));
        assert(decimal(n)[decimal(n).len() - 1] == last);
    }
}

/// The text of a valid date with a four-digit year is ten ASCII characters.
pub proof fn lemma_iso_text_ten_ascii(d: Date)
    requires
        d.valid(),
        0 <= d.year <= 9999,
    ensures
        iso_text(d).len() == 10,
        vstd::utf8::is_ascii_chars(iso_text(d)),
        vstd::utf8::encode_utf8(iso_text(d)).len() == 10,
{
    lemma_decimal_digits(d.year as nat);
    lemma_decimal_digits(d.month as nat);
    lemma_decimal_digits(d.day as nat);
    let y = zero_padded(d.year as nat, 4);
    let m = zero_padded(d.month as nat, 2);
    let dd = zero_padded(d.day as nat, 2);
    assert(y.len() == 4 && m.len() == 2 && dd.len() == 2);
    assert(vstd::utf8::is_ascii_chars(y));
    assert(vstd::utf8::is_ascii_chars(m));
    assert(vstd::utf8::is_ascii_chars(dd));
    let t = iso_text(d);
    assert(t == y + seq!['-'] + m + seq!['-'] + dd);
    assert forall|i| 0 <= i < t.len() implies '\0' <= #[trigger] t[i] <= '\u{7f}' by {
        if i < 4 {
            assert(t[i] == y[i]);
        } else if i == 4 {
        } else if i < 7 {
            assert(t[i] == m[i - 5]);
        } else if i == 7 {
        } else {
            assert(t[i] == dd[i - 8]);
        }
    }
    vstd::utf8::is_ascii_chars_encode_utf8(t);
}

/// What chrono's `NaiveDate::parse_from_str(text, "%Y-%m-%d")` yields, as
/// (year, month, day), or `None` where it fails.
pub uninterp spec fn parsed_ymd(text: Seq<char>) -> Option<(i32, u32, u32)>;

/// `parsed_ymd` as a date.
pub open spec fn parsed_date(text: Seq<char>) -> Option<Date> {
    match parsed_ymd(text) {
        Some((y, m, d)) => Some(Date { year: y, month: m, day: d }),
        None => None,
    }
}

/// The latest date that chrono represents.
pub open spec fn latest_date() -> Date {
    Date { year: LAST_YEAR, month: 12, day: 31 }
}

/// chrono's `NaiveDate::checked_add_months`, `n` months on: `months_after`,
/// or `None` where that date's year lies beyond chrono's range.
pub open spec fn checked_months_after(d: Date, n: int) -> Option<Date> {
    if FIRST_YEAR <= months_after_year(d, n) <= LAST_YEAR {
        Some(months_after(d, n))
    } else {
        None
    }
}

/// The valid date with day number `n` (one at most exists:
/// `lemma_day_number_injective`).
pub open spec fn date_numbered(n: int) -> Date {
    choose|z: Date| z.valid() && day_number(z) == n
}

/// chrono's `NaiveDate::checked_add_days`, `n` days on from `d`.
pub open spec fn checked_days_after(d: Date, n: int) -> Option<Date> {
    if n <= i32::MAX && day_number(d) + n <= day_number(latest_date()) {
        Some(date_numbered(day_number(d) + n))
    } else {
        None
    }
}

/// Calls `NaiveDate::parse_from_str(text, "%Y-%m-%d")`. Its result is named
/// `parsed_ymd`; what is stated of it: a parsed date is a valid date, and the
/// text `iso_text(d)` of any valid date `d` parses back to `d`. For `%Y`
/// chrono skips leading whitespace, then reads one to four digits where no
/// sign comes first, or any number of digits after a `+` or `-`; for `%m` and
/// `%d` it skips whitespace and reads one or two digits; the dashes must match.
/// Which other texts parse, and to what, is left unsaid.
#[verifier::external_body]
pub(crate) fn parse_date(text: &str) -> (r: Option<Date>)
    ensures
        r == (match parsed_ymd(text@) {
            Some((y, m, d)) => Some(Date { year: y, month: m, day: d }),
            None => None,
        }),
        r matches Some(d) ==> d.valid(),
        forall|d: Date|
            d.valid() && #[trigger] iso_text(d) == text@ ==> r == Some(d),
{
    match chrono::NaiveDate::parse_from_str(text, "%Y-%m-%d") {
        Ok(n) => Some(Date { year: n.year(), month: n.month(), day: n.day() }),
        Err(_) => None,
    }
}

/// Reads a date written `%Y-%m-%d`, as chrono does: a valid date or
/// nothing, and the text of any valid date reads back as that date.
pub fn read_date(text: &str) -> (r: Option<Date>)
    ensures
        r == parsed_date(text@),
        r matches Some(d) ==> d.valid(),
        forall|d: Date| d.valid() && #[trigger] iso_text(d) == text@ ==> r == Some(d),
{
    parse_date(text)
}

/// Calls `NaiveDate::format("%Y-%m-%d")` and `to_string` on the result: the
/// text `iso_text(d)` (chrono's `write_year` and two-digit month and day).
#[verifier::external_body]
pub(crate) fn date_text(d: Date) -> (r: String)
    requires
        d.valid(),
    ensures
        r@ == iso_text(d),
{
    let n = chrono::NaiveDate::from_ymd_opt(d.year, d.month, d.day).unwrap_or_default();
    n.format("%Y-%m-%d").to_string()
}

/// Calls `NaiveDate::checked_add_months(Months::new(n))`: the date `n`
/// months on, clamped to the end of a shorter month, or `None` where it
/// falls outside chrono's range of years.
#[verifier::external_body]
pub(crate) fn add_months(d: Date, n: u32) -> (r: Option<Date>)
    requires
        d.valid(),
    ensures
        r == checked_months_after(d, n as int),
{
    let nd = chrono::NaiveDate::from_ymd_opt(d.year, d.month, d.day).unwrap_or_default();
    match nd.checked_add_months(chrono::Months::new(n)) {
        Some(x) => Some(Date { year: x.year(), month: x.month(), day: x.day() }),
        None => None,
    }
}

/// Calls `NaiveDate::checked_add_days(Days::new(n))`: the valid date whose
/// day number is `n` more, present exactly where `n` fits in an `i32` and
/// that day is not after chrono's latest date.
#[verifier::external_body]
pub(crate) fn add_days(d: Date, n: u64) -> (r: Option<Date>)
    requires
        d.valid(),
    ensures
        r is Some <==> (n <= i32::MAX && day_number(d) + n <= day_number(latest_date())),
        r matches Some(x) ==> x.valid() && day_number(x) == day_number(d) + n,
{
    let nd = chrono::NaiveDate::from_ymd_opt(d.year, d.month, d.day).unwrap_or_default();
    match nd.checked_add_days(chrono::Days::new(n)) {
        Some(x) => Some(Date { year: x.year(), month: x.month(), day: x.day() }),
        None => None,
    }
}

/// Calls `(later - earlier).num_days()` (`NaiveDate::signed_duration_since`):
/// the difference of the two day numbers.
#[verifier::external_body]
pub(crate) fn days_between(later: Date, earlier: Date) -> (r: i64)
    requires
        later.valid(),
        earlier.valid(),
    ensures
        r == day_number(later) - day_number(earlier),
{
    let a = chrono::NaiveDate::from_ymd_opt(later.year, later.month, later.day).unwrap_or_default();
    let b = chrono::NaiveDate::from_ymd_opt(earlier.year, earlier.month, earlier.day).unwrap_or_default();
    (a - b).num_days()
}

/// `n` days on from `d`, as chrono counts them.
pub fn days_after(d: Date, n: u64) -> (r: Option<Date>)
    requires
        d.valid(),
    ensures
        r == checked_days_after(d, n as int),
        r matches Some(x) ==> x.valid() && day_number(x) == day_number(d) + n,
{
    let r = add_days(d, n);
    proof {
        if let Some(x) = r {
            let target = day_number(d) + n;
            assert(x.valid() && day_number(x) == target);
            let z = date_numbered(target);
            assert(z.valid() && day_number(z) == target);
            lemma_day_number_injective(x, z);
        }
    }
    r
}

} // verus!
