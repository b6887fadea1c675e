//! One compounder: a start and a final date, the span between them in years,
//! months, weeks and days, and the amounts and growth rate it relates. This
//! module holds its date logic; the growth arithmetic is done in floating
//! point by the application around it.

use vstd::prelude::*;
use crate::calendar::{
    date_difference, day_number, epoch, lemma_day_number_injective, lemma_day_numbers_reached,
    lemma_span_parts_lead_back,
    month_length, months_after, prev_month, span_months_days, lemma_months_after_valid,
    months_after_year, FIRST_YEAR, LAST_YEAR, epoch_date, lemma_day_number_ordered, span_parts, Date,
};
use crate::datetime::{
    add_months, checked_days_after, date_numbered, latest_date, checked_months_after, date_text, days_after, days_between,
    iso_text, lemma_iso_text_ten_ascii, parse_date, parsed_date,
};

verus! {

/// A field of a compounder that the user can edit.
#[derive(Clone, Copy, Debug, PartialEq, Eq, Structural)]
pub enum Field {
    StartDate,
    FinalDate,
    Years,
    Months,
    Weeks,
    Days,
    StartAmount,
    FinalAmount,
    Cagr,
}

/// The floating-point recomputation that follows an edit.
#[derive(Clone, Copy, Debug, PartialEq, Eq, Structural)]
pub enum AmountStep {
    /// Recompute the growth rate from the amounts and the elapsed days.
    Rate,
    /// Recompute the final amount from the start amount, the rate and the
    /// elapsed days.
    FinalAmount,
}

/// A compound-growth calculator window.
pub struct Compounder {
    pub id: i64,
    pub title: String,
    pub is_open: bool,
    pub start_date: String,
    pub final_date: String,
    pub follow_today: bool,
    pub years: u8,
    pub months: u8,
    pub weeks: u8,
    pub days: u8,
    pub start_amount: String,
    pub final_amount: String,
    pub cagr: String,
}

/// The dates written `start` and `finish`, where both read as dates and the
/// second is not before the first.
pub open spec fn span_between(start: Seq<char>, finish: Seq<char>) -> Option<(Date, Date)> {
    match (parsed_date(start), parsed_date(finish)) {
        (Some(sd), Some(fd)) => if fd.before(sd) { None } else { Some((sd, fd)) },
        _ => None,
    }
}

/// The final date reached from `sd` by `12 * years + months` months and then
/// `7 * weeks + days` days, or the first of January 1970 where a step leaves
/// chrono's range.
pub open spec fn final_from_parts(sd: Date, years: u8, months: u8, weeks: u8, days: u8) -> Date {
    match checked_months_after(sd, 12 * years + months) {
        Some(x) => match checked_days_after(x, 7 * weeks + days) {
            Some(z) => z,
            None => epoch(),
        },
        None => epoch(),
    }
}

/// The date written as `text` counts as entered: it reads as a date and its
/// UTF-8 length (as `str::len` gives it) is ten bytes.
pub open spec fn date_entered(text: Seq<char>) -> bool {
    parsed_date(text) is Some && vstd::utf8::encode_utf8(text).len() as usize == 10
}

/// What `redo_final` writes, for every valid start date and every setting
/// of the parts: where the step by `12 * years + months` months stays within
/// chrono's years and the further `7 * weeks + days` days do not pass its
/// last date, the final date is the valid date exactly that many days after
/// the months step.
pub proof fn lemma_final_from_parts_counts_days(sd: Date, years: u8, months: u8, weeks: u8, days: u8)
    requires
        sd.valid(),
        FIRST_YEAR <= months_after_year(sd, 12 * years + months) <= LAST_YEAR,
        day_number(months_after(sd, 12 * years + months)) + 7 * weeks + days <= day_number(
            latest_date(),
        ),
    ensures
        final_from_parts(sd, years, months, weeks, days).valid(),
        day_number(final_from_parts(sd, years, months, weeks, days)) == day_number(
            months_after(sd, 12 * years + months),
        ) + 7 * weeks + days,
{
    let mid = months_after(sd, 12 * years + months);
    lemma_months_after_valid(sd, 12 * years + months);
    lemma_day_numbers_reached(mid, (7 * weeks + days) as nat);
}

/// Where the months step leaves chrono's years, or the days pass its last
/// date, `redo_final` writes the first of January 1970.
pub proof fn lemma_final_from_parts_out_of_range(sd: Date, years: u8, months: u8, weeks: u8, days: u8)
    requires
        sd.valid(),
        !(FIRST_YEAR <= months_after_year(sd, 12 * years + months) <= LAST_YEAR)
            || day_number(months_after(sd, 12 * years + months)) + 7 * weeks + days > day_number(
            latest_date(),
        ),
    ensures
        final_from_parts(sd, years, months, weeks, days) == epoch(),
{
}

/// Where the two texts read as dates `sd` and `fd`, the span between them
/// is `(sd, fd)` exactly when `fd` is not before `sd`, and there is none
/// when it is.
pub proof fn lemma_span_between_read_dates(start: Seq<char>, finish: Seq<char>, sd: Date, fd: Date)
    requires
        parsed_date(start) == Some(sd),
        parsed_date(finish) == Some(fd),
    ensures
        !fd.before(sd) ==> span_between(start, finish) == Some((sd, fd)),
        fd.before(sd) ==> span_between(start, finish) is None,
{
}

/// The text of a valid date with a four-digit year, where it reads back as
/// that date (as chrono's parser does: `read_date`), counts as entered.
pub proof fn lemma_date_text_entered(d: Date)
    requires
        d.valid(),
        0 <= d.year <= 9999,
        parsed_date(iso_text(d)) == Some(d),
    ensures
        date_entered(iso_text(d)),
{
    lemma_iso_text_ten_ascii(d);
}

impl Compounder {
    /// All fields but the four parts are equal.
    pub open spec fn same_but_parts(self, other: Compounder) -> bool {
        &&& self.id == other.id
        &&& self.title == other.title
        &&& self.is_open == other.is_open
        &&& self.start_date == other.start_date
        &&& self.final_date == other.final_date
        &&& self.follow_today == other.follow_today
        &&& self.start_amount == other.start_amount
        &&& self.final_amount == other.final_amount
        &&& self.cagr == other.cagr
    }

    /// All fields but the final date are equal.
    pub open spec fn same_but_final_date(self, other: Compounder) -> bool {
        &&& self.id == other.id
        &&& self.title == other.title
        &&& self.is_open == other.is_open
        &&& self.start_date == other.start_date
        &&& self.follow_today == other.follow_today
        &&& self.years == other.years
        &&& self.months == other.months
        &&& self.weeks == other.weeks
        &&& self.days == other.days
        &&& self.start_amount == other.start_amount
        &&& self.final_amount == other.final_amount
        &&& self.cagr == other.cagr
    }

    /// The parts of `self` are those of `before`, set from the span between
    /// the dates written `start` and `finish` where there is one.
    pub open spec fn parts_redone(self, before: Compounder, start: Seq<char>, finish: Seq<char>) -> bool {
        match span_between(start, finish) {
            Some((sd, fd)) => (self.years, self.months, self.weeks, self.days) == span_parts(sd, fd),
            None => {
                &&& self.years == before.years
                &&& self.months == before.months
                &&& self.weeks == before.weeks
                &&& self.days == before.days
            },
        }
    }

    /// The state of a new compounder opened on `today`: a year from `today`,
    /// a thousand growing to eleven hundred at ten per cent.
    pub open spec fn fresh_on(self, today: Date) -> bool {
        &&& self.title@ == "<New Compounder>"@
        &&& self.is_open
        &&& self.start_date@ == iso_text(today)
        &&& self.final_date@ == iso_text(
            match checked_months_after(today, 12) {
                Some(x) => x,
                None => epoch(),
            },
        )
        &&& !self.follow_today
        &&& self.years == 1
        &&& self.months == 0
        &&& self.weeks == 0
        &&& self.days == 0
        &&& self.start_amount@ == "1000"@
        &&& self.final_amount@ == "1100"@
        &&& self.cagr@ == "10"@
    }

    /// A new compounder with identifier `id`, opened on `today` (the caller
    /// reads both from the local clock).
    pub fn new(id: i64, today: Date) -> (r: Self)
        requires
            today.valid(),
        ensures
            r.id == id,
            r.fresh_on(today),
    {
        let final_date = match add_months(today, 12) {
            Some(x) => x,
            None => epoch_date(),
        };
        Compounder {
            id,
            title: String::from_str("<New Compounder>"),
            is_open: true,
            start_date: date_text(today),
            final_date: date_text(final_date),
            follow_today: false,
            years: 1,
            months: 0,
            weeks: 0,
            days: 0,
            start_amount: String::from_str("1000"),
            final_amount: String::from_str("1100"),
            cagr: String::from_str("10"),
        }
    }

    /// The start date counts as entered.
    /// The text of every valid date with a four-digit year counts.
    pub fn valid_start(&self) -> (r: bool)
        ensures
            r == date_entered(self.start_date@),
            forall|d: Date|
                d.valid() && 0 <= d.year <= 9999 && #[trigger] iso_text(d) == self.start_date@ ==> r,
    {
        let r = parse_date(self.start_date.as_str()).is_some() && self.start_date.as_str().len() == 10;
        proof {
            assert forall|d: Date|
                d.valid() && 0 <= d.year <= 9999 && #[trigger] iso_text(d) == self.start_date@ implies r by {
                lemma_iso_text_ten_ascii(d);
            }
        }
        r
    }

    /// The final date counts as entered.
    /// The text of every valid date with a four-digit year counts.
    pub fn valid_final(&self) -> (r: bool)
        ensures
            r == date_entered(self.final_date@),
            forall|d: Date|
                d.valid() && 0 <= d.year <= 9999 && #[trigger] iso_text(d) == self.final_date@ ==> r,
    {
        let r = parse_date(self.final_date.as_str()).is_some() && self.final_date.as_str().len() == 10;
        proof {
            assert forall|d: Date|
                d.valid() && 0 <= d.year <= 9999 && #[trigger] iso_text(d) == self.final_date@ implies r by {
                lemma_iso_text_ten_ascii(d);
            }
        }
        r
    }

    /// Both dates read as dates and the final one is not before the start.
    /// Where the two texts are those of valid dates `sd` and `fd`, the
    /// range is in order exactly when `fd` is not before `sd`.
    pub fn valid_range(&self) -> (r: bool)
        ensures
            r == span_between(self.start_date@, self.final_date@) is Some,
            forall|sd: Date, fd: Date|
                #![trigger iso_text(sd), iso_text(fd)]
                sd.valid() && fd.valid() && iso_text(sd) == self.start_date@ && iso_text(fd)
                    == self.final_date@ ==> r == !fd.before(sd),
    {
        let sd = parse_date(self.start_date.as_str());
        let fd = parse_date(self.final_date.as_str());
        match (sd, fd) {
            (Some(s), Some(f)) => !f.is_before(&s),
            _ => false,
        }
    }

    /// The number of days from the start date to the final date, when the
    /// growth rate or the final amount can be recomputed from them: both
    /// dates read as dates, the final one is not before the start, and they
    /// differ. The count is then positive; for the texts of two valid
    /// dates it is present exactly when the final date is after the start.
    pub fn elapsed_days(&self) -> (r: Option<i64>)
        ensures
            r == (match span_between(self.start_date@, self.final_date@) {
                Some((sd, fd)) => if day_number(fd) == day_number(sd) {
                    None
                } else {
                    Some((day_number(fd) - day_number(sd)) as i64)
                },
                None => None,
            }),
            r matches Some(n) ==> n > 0,
            forall|sd: Date, fd: Date|
                #![trigger iso_text(sd), iso_text(fd)]
                sd.valid() && fd.valid() && iso_text(sd) == self.start_date@ && iso_text(fd)
                    == self.final_date@ ==> r == (if sd.before(fd) {
                    Some((day_number(fd) - day_number(sd)) as i64)
                } else {
                    None
                }),
    {
        let sd = parse_date(self.start_date.as_str());
        let fd = parse_date(self.final_date.as_str());
        let r = match (sd, fd) {
            (Some(s), Some(f)) => {
                if f.is_before(&s) {
                    None
                } else {
                    let nd = days_between(f, s);
                    proof {
                        if s != f {
                            lemma_day_number_ordered(s, f);
                        }
                    }
                    if nd == 0 {
                        None
                    } else {
                        Some(nd)
                    }
                }
            },
            _ => None,
        };
        proof {
            assert forall|a: Date, b: Date|
                #![trigger iso_text(a), iso_text(b)]
                a.valid() && b.valid() && iso_text(a) == self.start_date@ && iso_text(b)
                    == self.final_date@ implies r == (if a.before(b) {
                    Some((day_number(b) - day_number(a)) as i64)
                } else {
                    None
                }) by {
                assert(sd == Some(a) && fd == Some(b));
                if a.before(b) {
                    lemma_day_number_ordered(a, b);
                }
            }
        }
        r
    }

    /// The number of days from the start date to the final date, reading a
    /// date that does not parse as the first of January 1970.
    pub fn total_days(&self) -> (r: i64)
        ensures
            ({
                let sd = match parsed_date(self.start_date@) {
                    Some(d) => d,
                    None => epoch(),
                };
                let fd = match parsed_date(self.final_date@) {
                    Some(d) => d,
                    None => epoch(),
                };
                r == day_number(fd) - day_number(sd)
            }),
            forall|sd: Date, fd: Date|
                #![trigger iso_text(sd), iso_text(fd)]
                sd.valid() && fd.valid() && iso_text(sd) == self.start_date@ && iso_text(fd)
                    == self.final_date@ ==> r == day_number(fd) - day_number(sd),
    {
        let ps = parse_date(self.start_date.as_str());
        let pf = parse_date(self.final_date.as_str());
        let sd = match ps {
            Some(d) => d,
            None => epoch_date(),
        };
        let fd = match pf {
            Some(d) => d,
            None => epoch_date(),
        };
        let r = days_between(fd, sd);
        proof {
            assert forall|a: Date, b: Date|
                #![trigger iso_text(a), iso_text(b)]
                a.valid() && b.valid() && iso_text(a) == self.start_date@ && iso_text(b)
                    == self.final_date@ implies r == day_number(b) - day_number(a) by {
                assert(ps == Some(a) && pf == Some(b));
            }
        }
        r
    }

    /// The start date field shows as correct: it is entered, and either the
    /// final date is not or the range is in order.
    pub fn start_field_ok(&self) -> (r: bool)
        ensures
            r == (date_entered(self.start_date@) && (!date_entered(self.final_date@)
                || span_between(self.start_date@, self.final_date@) is Some)),
    {
        self.valid_start() && (!self.valid_final() || self.valid_range())
    }

    /// The final date field shows as correct: it is entered, and either the
    /// start date is not or the range is in order.
    pub fn final_field_ok(&self) -> (r: bool)
        ensures
            r == (date_entered(self.final_date@) && (!date_entered(self.start_date@)
                || span_between(self.start_date@, self.final_date@) is Some)),
    {
        self.valid_final() && (!self.valid_start() || self.valid_range())
    }

    /// Sets the final date to `d` and recomputes the parts.
    pub fn set_final_date(&mut self, d: Date)
        requires
            d.valid(),
        ensures
            final(self).final_date@ == iso_text(d),
            final(self).id == old(self).id,
            final(self).title == old(self).title,
            final(self).is_open == old(self).is_open,
            final(self).start_date == old(self).start_date,
            final(self).follow_today == old(self).follow_today,
            final(self).start_amount == old(self).start_amount,
            final(self).final_amount == old(self).final_amount,
            final(self).cagr == old(self).cagr,
            final(self).parts_redone(*old(self), old(self).start_date@, iso_text(d)),
    {
        self.final_date = date_text(d);
        self.redo_parts();
    }

    /// Recomputes the years, months, weeks and days from the two dates, where
    /// both read as dates and the final one is not before the start.
    pub fn redo_parts(&mut self)
        ensures
            final(self).same_but_parts(*old(self)),
            final(self).parts_redone(*old(self), old(self).start_date@, old(self).final_date@),
            forall|sd: Date, fd: Date|
                #![trigger iso_text(sd), iso_text(fd)]
                sd.valid() && fd.valid() && iso_text(sd) == old(self).start_date@ && iso_text(fd)
                    == old(self).final_date@ ==> if fd.before(sd) {
                    (final(self).years, final(self).months, final(self).weeks, final(self).days) == (
                    old(self).years, old(self).months, old(self).weeks, old(self).days)
                } else {
                    (final(self).years, final(self).months, final(self).weeks, final(self).days)
                        == span_parts(sd, fd)
                },
    {
        let sd = parse_date(self.start_date.as_str());
        let fd = parse_date(self.final_date.as_str());
        if let (Some(s), Some(f)) = (sd, fd) {
            if !f.is_before(&s) {
                let (y, m, w, d) = date_difference(s, f);
                self.years = y;
                self.months = m;
                self.weeks = w;
                self.days = d;
            }
        }
        proof {
            assert forall|a: Date, b: Date|
                #![trigger iso_text(a), iso_text(b)]
                a.valid() && b.valid() && iso_text(a) == old(self).start_date@ && iso_text(b)
                    == old(self).final_date@ implies if b.before(a) {
                    (self.years, self.months, self.weeks, self.days) == (old(self).years, old(
                    self).months, old(self).weeks, old(self).days)
                } else {
                    (self.years, self.months, self.weeks, self.days) == span_parts(a, b)
                } by {
                assert(sd == Some(a) && fd == Some(b));
            }
        }
    }

    /// Reacts to an edit of `field`: a changed date redoes the parts, a
    /// changed part redoes the final date, an amount or the rate changes
    /// nothing here. The result says which amount recomputation follows:
    /// the rate, except after an edit of the rate itself.
    pub fn edited(&mut self, field: Field) -> (r: AmountStep)
        ensures
            r == (if field == Field::Cagr { AmountStep::FinalAmount } else { AmountStep::Rate }),
            field == Field::StartDate || field == Field::FinalDate ==> {
                &&& final(self).same_but_parts(*old(self))
                &&& final(self).parts_redone(*old(self), old(self).start_date@, old(self).final_date@)
            },
            field == Field::Years || field == Field::Months || field == Field::Weeks || field
                == Field::Days ==> {
                &&& final(self).same_but_final_date(*old(self))
                &&& match parsed_date(old(self).start_date@) {
                    Some(sd) => final(self).final_date@ == iso_text(
                        final_from_parts(sd, old(self).years, old(self).months, old(self).weeks, old(self).days),
                    ),
                    None => final(self).final_date == old(self).final_date,
                }
            },
            field == Field::StartAmount || field == Field::FinalAmount || field == Field::Cagr
                ==> *final(self) == *old(self),
    {
        match field {
            Field::StartDate | Field::FinalDate => {
                self.redo_parts();
                AmountStep::Rate
            },
            Field::Years | Field::Months | Field::Weeks | Field::Days => {
                self.redo_final();
                AmountStep::Rate
            },
            Field::StartAmount | Field::FinalAmount => AmountStep::Rate,
            Field::Cagr => AmountStep::FinalAmount,
        }
    }

    /// Recomputes the final date from the start date and the parts, where
    /// the start date reads as a date.
    pub fn redo_final(&mut self)
        ensures
            final(self).same_but_final_date(*old(self)),
            match parsed_date(old(self).start_date@) {
                Some(sd) => final(self).final_date@ == iso_text(
                    final_from_parts(sd, old(self).years, old(self).months, old(self).weeks, old(self).days),
                ),
                None => final(self).final_date == old(self).final_date,
            },
    {
        let sd = parse_date(self.start_date.as_str());
        if let Some(s) = sd {
            let months: u32 = 12 * (self.years as u32) + self.months as u32;
            let days: u64 = 7 * (self.weeks as u64) + self.days as u64;
            let fd = match add_months(s, months) {
                Some(x) => match days_after(x, days) {
                    Some(z) => z,
                    None => epoch_date(),
                },
                None => epoch_date(),
            };
            proof {
                if FIRST_YEAR <= months_after_year(s, months as int) <= LAST_YEAR {
                    lemma_months_after_valid(s, months as int);
                }
                assert(fd == final_from_parts(s, self.years, self.months, self.weeks, self.days));
            }
            self.final_date = date_text(fd);
        }
    }
}

/// After `redo_parts` has set the parts from a start date `sd` and a final
/// date `fd`, `redo_final` writes `fd` back: stepping `sd` by those parts
/// reaches `fd`, wherever the parts lead back to it
/// (`lemma_span_parts_lead_back`).
pub proof fn lemma_redone_parts_reach_final(sd: Date, fd: Date)
    requires
        sd.valid(),
        fd.valid(),
        !fd.before(sd),
        span_months_days(sd, fd).0 / 12 <= 255,
        ({
            let before_last = month_length(fd.year as int, prev_month(fd.month as int));
            ||| sd.day <= fd.day
            ||| sd.day <= before_last
            ||| fd.day == 1 && sd.day > before_last + 1
        }),
    ensures
        ({
            let (y, m, w, d) = span_parts(sd, fd);
            final_from_parts(sd, y, m, w, d) == fd
        }),
{
    let (y, m, w, d) = span_parts(sd, fd);
    lemma_span_parts_lead_back(sd, fd);
    let mid = months_after(sd, 12 * y + m);
    assert(checked_months_after(sd, 12 * y + m) == Some(mid));
    let last = latest_date();
    if fd != last {
        lemma_day_number_ordered(fd, last);
    }
    let z = date_numbered(day_number(fd));
    assert(z.valid() && day_number(z) == day_number(fd));
    lemma_day_number_injective(z, fd);
    assert(checked_days_after(mid, 7 * w + d) == Some(fd));
}

} // verus!
