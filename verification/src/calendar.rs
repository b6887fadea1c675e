//! The proleptic Gregorian calendar: leap years, month lengths, dates as plain
//! values, a day count that orders them, and the split of a span between two
//! dates into years, months, weeks and days.

use vstd::prelude::*;

verus! {

/// Whether `year` is a leap year of the Gregorian calendar.
pub open spec fn leap(year: int) -> bool {
    (year % 4 == 0 && year % 100 != 0) || year % 400 == 0
}

/// The number of days in `month` (1 to 12) of `year`; 0 for any other month.
pub open spec fn month_length(year: int, month: int) -> int {
    if month == 1 || month == 3 || month == 5 || month == 7 || month == 8 || month == 10 || month == 12 {
        31
    } else if month == 4 || month == 6 || month == 9 || month == 11 {
        30
    } else if month == 2 {
        if leap(year) { 29 } else { 28 }
    } else {
        0
    }
}

/// Gregorian leap-year rule: divisible by 4 and not by 100, or divisible by 400.
pub fn is_leap_year(year: i32) -> (r: bool)
    ensures
        r == leap(year as int),
{
    // `%` on an `i32` truncates toward zero while the specification's `%` is
    // Euclidean; a zero remainder means divisibility under both.
    let by4 = year % 4 == 0;
    assert(by4 == (year as int % 4 == 0));
    let by100 = year % 100 == 0;
    assert(by100 == (year as int % 100 == 0));
    let by400 = year % 400 == 0;
    assert(by400 == (year as int % 400 == 0));
    (by4 && !by100) || by400
}

/// The number of days in a month; 0 where `month` is not in 1 to 12.
pub fn days_in_month(year: i32, month: u32) -> (r: u32)
    ensures
        r == month_length(year as int, month as int),
        1 <= month <= 12 ==> 28 <= r <= 31,
        !(1 <= month <= 12) ==> r == 0,
{
    match month {
        1 | 3 | 5 | 7 | 8 | 10 | 12 => 31,
        4 | 6 | 9 | 11 => 30,
        2 => {
            if is_leap_year(year) {
                29
            } else {
                28
            }
        },
        _ => 0,
    }
}

/// The earliest year a date may have.
pub const FIRST_YEAR: i32 = -262143;

/// The latest year a date may have.
pub const LAST_YEAR: i32 = 262142;

/// A calendar date as plain values.
#[derive(Clone, Copy, Debug, PartialEq, Eq, Structural)]
pub struct Date {
    pub year: i32,
    pub month: u32,
    pub day: u32,
}

impl Date {
    /// The date exists in the calendar and its year lies in `FIRST_YEAR..=LAST_YEAR`.
    pub open spec fn valid(self) -> bool {
        &&& FIRST_YEAR <= self.year <= LAST_YEAR
        &&& 1 <= self.month <= 12
        &&& 1 <= self.day <= month_length(self.year as int, self.month as int)
    }

    /// `self` comes strictly before `other` in the calendar.
    pub open spec fn before(self, other: Date) -> bool {
        ||| self.year < other.year
        ||| self.year == other.year && self.month < other.month
        ||| self.year == other.year && self.month == other.month && self.day < other.day
    }

    /// Whether `self` comes strictly before `other` in the calendar.
    pub fn is_before(&self, other: &Date) -> (r: bool)
        ensures
            r == self.before(*other),
    {
        self.year < other.year || (self.year == other.year && (self.month < other.month || (
        self.month == other.month && self.day < other.day)))
    }
}

/// The first of January 1970, the date chrono gives by default.
pub open spec fn epoch() -> Date {
    Date { year: 1970, month: 1, day: 1 }
}

/// The first of January 1970, the date chrono gives by default.
pub fn epoch_date() -> (r: Date)
    ensures
        r == epoch(),
{
    Date { year: 1970, month: 1, day: 1 }
}

/// The number of days in `year`.
pub open spec fn year_length(year: int) -> int {
    if leap(year) { 366 } else { 365 }
}

/// Days from the first of January of year 0 to the first of January of `year`
/// (negative for earlier years).
pub open spec fn year_start(year: int) -> int
    decreases (if year >= 0 { year } else { -year }),
{
    if year == 0 {
        0
    } else if year > 0 {
        year_start(year - 1) + year_length(year - 1)
    } else {
        year_start(year + 1) - year_length(year)
    }
}

/// Days in the months of `year` before `month`.
pub open spec fn days_before_month(year: int, month: int) -> int
    decreases month,
{
    if month <= 1 {
        0
    } else {
        days_before_month(year, month - 1) + month_length(year, month - 1)
    }
}

/// The position of a date on a line of consecutive days.
pub open spec fn day_number(d: Date) -> int {
    year_start(d.year as int) + days_before_month(d.year as int, d.month as int) + d.day - 1
}

/// Each year starts where the one before it ends.
pub proof fn lemma_year_start_step(year: int)
    ensures
        year_start(year + 1) == year_start(year) + year_length(year),
{
}

/// A later year starts no earlier than the end of an earlier one.
pub proof fn lemma_year_start_grows(a: int, b: int)
    requires
        a < b,
    ensures
        year_start(a) + year_length(a) <= year_start(b),
    decreases b - a,
{
    lemma_year_start_step(a);
    if a + 1 < b {
        lemma_year_start_grows(a + 1, b);
        lemma_year_start_step(a + 1);
    }
}

/// The twelve months of a year add up to the year's length.
pub proof fn lemma_months_fill_year(year: int)
    ensures
        days_before_month(year, 13) == year_length(year),
{
    reveal_with_fuel(days_before_month, 13);
}

/// A later month starts no earlier than the end of an earlier one.
pub proof fn lemma_days_before_month_grows(year: int, a: int, b: int)
    requires
        1 <= a < b,
    ensures
        days_before_month(year, a) + month_length(year, a) <= days_before_month(year, b),
    decreases b - a,
{
    if a + 1 < b {
        lemma_days_before_month_grows(year, a + 1, b);
    }
}

/// Days run in calendar order: an earlier date has a smaller day number.
pub proof fn lemma_day_number_ordered(a: Date, b: Date)
    requires
        a.valid(),
        b.valid(),
        a.before(b),
    ensures
        day_number(a) < day_number(b),
{
    if a.year < b.year {
        lemma_days_before_month_grows(a.year as int, a.month as int, 13);
        lemma_months_fill_year(a.year as int);
        lemma_year_start_grows(a.year as int, b.year as int);
        if b.month > 1 {
            lemma_days_before_month_grows(b.year as int, 1, b.month as int);
        }
    } else if a.month < b.month {
        lemma_days_before_month_grows(a.year as int, a.month as int, b.month as int);
    }
}

/// Two valid dates with the same day number are the same date.
pub proof fn lemma_day_number_injective(a: Date, b: Date)
    requires
        a.valid(),
        b.valid(),
        day_number(a) == day_number(b),
    ensures
        a == b,
{
    if a.before(b) {
        lemma_day_number_ordered(a, b);
    } else if b.before(a) {
        lemma_day_number_ordered(b, a);
    }
}


/// The month before `month`, wrapping January back to December.
pub open spec fn prev_month(month: int) -> int {
    if month == 1 { 12 } else { month - 1 }
}

/// The span from `sd` to `fd` as a count of whole months and the days left
/// over. When the final day of the month is smaller than the starting one, a
/// month is borrowed and the days of the month before the final month (taken
/// in the final date's year) fill the gap; where even that leaves a negative
/// count, the days are 1.
pub open spec fn span_months_days(sd: Date, fd: Date) -> (int, int) {
    let months = 12 * (fd.year - sd.year) + fd.month - sd.month;
    let gap = fd.day - sd.day;
    if gap >= 0 {
        (months, gap)
    } else {
        let filled = gap + month_length(fd.year as int, prev_month(fd.month as int));
        (months - 1, if filled >= 0 { filled } else { 1 })
    }
}

/// `x` as a byte where it fits, else 0.
pub open spec fn byte_or_zero(x: int) -> u8 {
    if 0 <= x <= 255 { x as u8 } else { 0 }
}

/// The span from `sd` to `fd` as (years, months, weeks, days), each part
/// that does not fit in a byte (a negative count among them) given as 0.
pub open spec fn span_parts(sd: Date, fd: Date) -> (u8, u8, u8, u8) {
    let (months, days) = span_months_days(sd, fd);
    (byte_or_zero(months / 12), byte_or_zero(months % 12), byte_or_zero(days / 7), byte_or_zero(days % 7))
}

fn to_byte_or_zero(x: i32) -> (r: u8)
    ensures
        r == byte_or_zero(x as int),
{
    if 0 <= x && x <= 255 {
        x as u8
    } else {
        0
    }
}

/// Splits the span from `sd` to `fd` into years, months, weeks and days.
pub fn date_difference(sd: Date, fd: Date) -> (r: (u8, u8, u8, u8))
    requires
        sd.valid(),
        fd.valid(),
    ensures
        r == span_parts(sd, fd),
        r.1 < 12,
        r.2 <= 4,
        r.3 < 7,
{
    let mut yn: i32 = fd.year - sd.year;
    let mut mn: i32 = fd.month as i32 - sd.month as i32;
    let mut dn: i32 = fd.day as i32 - sd.day as i32;
    if dn < 0 {
        mn -= 1;
        let mp: u32 = if fd.month == 1 { 12 } else { fd.month - 1 };
        let pn = days_in_month(fd.year, mp);
        dn += pn as i32;
        if dn < 0 {
            dn = 1;
        }
    }
    if mn < 0 {
        yn -= 1;
        mn += 12;
    }
    proof {
        let (months, days) = span_months_days(sd, fd);
        assert(months == 12 * yn + mn && 0 <= mn < 12);
        assert(days == dn && 0 <= dn <= 30);
        vstd::arithmetic::div_mod::lemma_fundamental_div_mod_converse_div(months, 12, yn as int, mn as int);
        vstd::arithmetic::div_mod::lemma_fundamental_div_mod_converse_mod(months, 12, yn as int, mn as int);
    }
    (to_byte_or_zero(yn), to_byte_or_zero(mn), to_byte_or_zero(dn / 7), to_byte_or_zero(dn % 7))
}

/// The year in which the date `n` months after `d` falls.
pub open spec fn months_after_year(d: Date, n: int) -> int {
    (12 * d.year + d.month - 1 + n) / 12
}

/// The date `n` months after `d`: the same day of the month, or the last day
/// of the month where that month is shorter.
pub open spec fn months_after(d: Date, n: int) -> Date {
    let total = 12 * d.year + d.month - 1 + n;
    let year = total / 12;
    let month = total % 12 + 1;
    let last = month_length(year, month);
    Date { year: year as i32, month: month as u32, day: (if d.day <= last { d.day as int } else { last }) as u32 }
}

/// Stepping a valid date by months gives a valid date wherever the year
/// reached is in range.
pub proof fn lemma_months_after_valid(d: Date, n: int)
    requires
        d.valid(),
        FIRST_YEAR <= months_after_year(d, n) <= LAST_YEAR,
    ensures
        months_after(d, n).valid(),
        months_after(d, n).year == months_after_year(d, n),
{
    let total = 12 * d.year + d.month - 1 + n;
    assert(0 <= total % 12 < 12);
}

/// The day after `d`.
pub open spec fn next_day(d: Date) -> Date {
    if d.day < month_length(d.year as int, d.month as int) {
        Date { year: d.year, month: d.month, day: (d.day + 1) as u32 }
    } else if d.month < 12 {
        Date { year: d.year, month: (d.month + 1) as u32, day: 1 }
    } else {
        Date { year: (d.year + 1) as i32, month: 1, day: 1 }
    }
}

/// The day after a valid date other than the last of `LAST_YEAR` is valid,
/// and its day number is one more.
pub proof fn lemma_next_day(d: Date)
    requires
        d.valid(),
        d.year < LAST_YEAR || d.month < 12 || d.day < 31,
    ensures
        next_day(d).valid(),
        day_number(next_day(d)) == day_number(d) + 1,
{
    if d.day < month_length(d.year as int, d.month as int) {
    } else if d.month < 12 {
        assert(days_before_month(d.year as int, d.month + 1) == days_before_month(d.year as int, d.month as int)
            + month_length(d.year as int, d.month as int));
    } else {
        lemma_months_fill_year(d.year as int);
        lemma_year_start_step(d.year as int);
        assert(days_before_month(d.year as int, 13) == days_before_month(d.year as int, 12) + 31);
    }
}

/// Every day from a valid date up to the last of `LAST_YEAR` is the day
/// number of some valid date.
pub proof fn lemma_day_numbers_reached(d: Date, k: nat)
    requires
        d.valid(),
        day_number(d) + k <= day_number(Date { year: LAST_YEAR, month: 12, day: 31 }),
    ensures
        exists|e: Date| e.valid() && day_number(e) == day_number(d) + k,
    decreases k,
{
    if k == 0 {
        assert(d.valid() && day_number(d) == day_number(d) + k);
    } else {
        let last = Date { year: LAST_YEAR, month: 12, day: 31 };
        if !(d.year < LAST_YEAR || d.month < 12 || d.day < 31) {
            assert(d == last);
        }
        lemma_next_day(d);
        lemma_day_numbers_reached(next_day(d), (k - 1) as nat);
    }
}

/// A running count of months: twelve per year plus the month.
pub open spec fn month_index(d: Date) -> int {
    12 * d.year + d.month
}

/// The whole months of a span are the most months that fit between the two
/// dates: moving `sd` on by the parts' years and months, on the same day of
/// the month, does not pass `fd`, and one month more would; and the date
/// `months_after` gives for that many months (a shorter month's last day
/// where the day does not exist) is not after `fd`. This holds for every
/// `sd` not after `fd` whose years fit in a byte, that is, where `fd` comes
/// before the same day 256 years after `sd`.
pub proof fn lemma_span_whole_months(sd: Date, fd: Date)
    requires
        sd.valid(),
        fd.valid(),
        !fd.before(sd),
        month_index(fd) < month_index(sd) + 12 * 256 || (month_index(fd) == month_index(sd) + 12 * 256
            && fd.day < sd.day),
    ensures
        ({
            let (y, m, w, d) = span_parts(sd, fd);
            let k = 12 * y + m;
            &&& month_index(sd) + k < month_index(fd) || (month_index(sd) + k == month_index(fd)
                && sd.day <= fd.day)
            &&& month_index(fd) < month_index(sd) + k + 1 || (month_index(fd) == month_index(sd) + k
                + 1 && fd.day < sd.day)
            &&& !fd.before(months_after(sd, k))
        }),
{
    let (months, days) = span_months_days(sd, fd);
    let (y, m, w, d) = span_parts(sd, fd);
    assert(months == month_index(fd) - month_index(sd) - (if fd.day < sd.day { 1int } else { 0 }));
    assert(0 <= months < 12 * 256);
    assert(12 * y + m == months);
    let mid = months_after(sd, months);
    let total = 12 * sd.year + sd.month - 1 + months;
    assert(12 * mid.year + mid.month == total + 1);
    assert(mid.day <= sd.day);
}

/// The span from a date to itself has no parts.
pub proof fn lemma_empty_span(d: Date)
    requires
        d.valid(),
    ensures
        span_parts(d, d) == (0u8, 0u8, 0u8, 0u8),
{
}

/// A span split into its parts, stepped through again: where `sd` is not
/// after `fd`, the years fit in a byte, and no day is lost to a shorter month
/// on the way (the start day exists in the month before the final month, or
/// does not exceed the final day, or the final date is the first of a month
/// reached from a day two or more past the end of the month before), moving
/// `sd` on by the parts' whole months reaches a valid date, and the parts'
/// weeks and days lead from there to `fd`.
pub proof fn lemma_span_parts_lead_back(sd: Date, fd: Date)
    requires
        sd.valid(),
        fd.valid(),
        !fd.before(sd),
        span_months_days(sd, fd).0 / 12 <= 255,
        ({
            let before_last = month_length(fd.year as int, prev_month(fd.month as int));
            ||| sd.day <= fd.day
            ||| sd.day <= before_last
            ||| fd.day == 1 && sd.day > before_last + 1
        }),
    ensures
        ({
            let (y, m, w, d) = span_parts(sd, fd);
            let mid = months_after(sd, 12 * y + m);
            &&& mid.valid()
            &&& mid.year == months_after_year(sd, 12 * y + m)
            &&& day_number(mid) + 7 * w + d == day_number(fd)
        }),
{
    let (months, days) = span_months_days(sd, fd);
    let (y, m, w, d) = span_parts(sd, fd);
    assert(0 <= months);
    assert(12 * y + m == months);
    assert(0 <= days <= 31);
    assert(7 * w + d == days);
    let mid = months_after(sd, months);
    let fy = fd.year as int;
    let fm = fd.month as int;
    if fd.day >= sd.day {
        assert(12 * sd.year + sd.month - 1 + months == 12 * fy + fm - 1);
        assert(mid.year == fy && mid.month == fm && mid.day == sd.day);
    } else {
        let pm = prev_month(fm);
        assert(12 * sd.year + sd.month - 1 + months == 12 * fy + fm - 2);
        if fm == 1 {
            assert(fy > sd.year);
            assert(mid.year == fy - 1 && mid.month == 12);
            lemma_months_fill_year(fy - 1);
            lemma_year_start_step(fy - 1);
            assert(days_before_month(fy - 1, 13) == days_before_month(fy - 1, 12) + 31);
        } else {
            assert(mid.year == fy && mid.month == pm);
            assert(days_before_month(fy, fm) == days_before_month(fy, pm) + month_length(fy, pm));
        }
    }
}

} // verus!
