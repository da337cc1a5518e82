//! Proleptic Gregorian calendar arithmetic and the textual form of dates.

use crate::error::{FieldKind, MonthOutOfRange, ParseError};
use crate::text::{
    chars_of, decimal_text, free_of, lemma_decimal_text, lemma_split_three,
    lemma_unsigned_value_of_text, parse_u32, push_decimal, split, split_chars, texts,
    two_digit_text, u32_of_text,
};
use std::cmp::Ordering;
use vstd::prelude::*;

verus! {

/// Whether `year` is a leap year of the proleptic Gregorian calendar.
pub open spec fn leap_year(year: int) -> bool {
    year % 400 == 0 || (year % 100 != 0 && year % 4 == 0)
}

/// The number of days of `month` in `year`, for a month from 1 to 12.
pub open spec fn month_length(year: int, month: int) -> int {
    if month == 2 {
        if leap_year(year) {
            29
        } else {
            28
        }
    } else if month == 4 || month == 6 || month == 9 || month == 11 {
        30
    } else {
        31
    }
}

/// Decides whether `year` is a leap year.
pub fn is_leap_year(year: u32) -> (leap: bool)
    ensures
        leap == leap_year(year as int),
{
    if year % 400 == 0 {
        true
    } else if year % 100 == 0 {
        false
    } else {
        year % 4 == 0
    }
}

fn length_of_month(year: u32, month: u32) -> (days: u32)
    requires
        1 <= month <= 12,
    ensures
        days == month_length(year as int, month as int),
{
    if month == 2 {
        if is_leap_year(year) {
            29
        } else {
            28
        }
    } else if month == 4 || month == 6 || month == 9 || month == 11 {
        30
    } else {
        31
    }
}

/// The number of days of `month` in `year`; an error where `month` is not
/// one of 1 to 12.
pub fn days_in_month(year: u32, month: u32) -> (days: Result<u32, MonthOutOfRange>)
    ensures
        1 <= month <= 12 ==> days == Ok::<u32, MonthOutOfRange>(
            month_length(year as int, month as int) as u32,
        ),
        !(1 <= month <= 12) ==> days == Err::<u32, MonthOutOfRange>(MonthOutOfRange { month }),
{
    if month < 1 || month > 12 {
        Err(MonthOutOfRange { month })
    } else {
        Ok(length_of_month(year, month))
    }
}

/// A date: year, month and day. Dates are ordered by year, then month, then
/// day, which for days of the calendar is the order of time. The fields are
/// free: `valid` says whether a date is a day of the calendar, and a date
/// read from text need not be one.
#[derive(Clone, Copy, Debug, PartialEq, Eq, Hash, Ord, Structural)]
pub struct Date {
    pub year: u32,
    pub month: u32,
    pub day: u32,
}

impl Date {
    /// Whether this is a day of the calendar.
    pub open spec fn valid(self) -> bool {
        &&& 1 <= self.month <= 12
        &&& 1 <= self.day <= month_length(self.year as int, self.month as int)
    }

    /// Whether this date comes before `other`.
    pub open spec fn before(self, other: Date) -> bool {
        ||| self.year < other.year
        ||| self.year == other.year && self.month < other.month
        ||| self.year == other.year && self.month == other.month && self.day < other.day
    }

    /// Whether this date is `other` or comes before it.
    pub open spec fn not_after(self, other: Date) -> bool {
        self == other || self.before(other)
    }

    /// Whether this date lies between `from` and `to`, both included.
    pub open spec fn within(self, from: Date, to: Date) -> bool {
        from.not_after(self) && self.not_after(to)
    }

    /// The last day that a date can hold.
    pub open spec fn latest() -> Date {
        Date { year: u32::MAX, month: 12, day: 31 }
    }

    /// The first day that a date can hold.
    pub open spec fn earliest() -> Date {
        Date { year: 0, month: 1, day: 1 }
    }

    /// The day after this one.
    pub open spec fn succ(self) -> Date {
        if self.day < month_length(self.year as int, self.month as int) {
            Date { year: self.year, month: self.month, day: (self.day + 1) as u32 }
        } else if self.month < 12 {
            Date { year: self.year, month: (self.month + 1) as u32, day: 1 }
        } else {
            Date { year: (self.year + 1) as u32, month: 1, day: 1 }
        }
    }

    /// The day before this one.
    pub open spec fn pred(self) -> Date {
        if self.day > 1 {
            Date { year: self.year, month: self.month, day: (self.day - 1) as u32 }
        } else if self.month > 1 {
            Date {
                year: self.year,
                month: (self.month - 1) as u32,
                day: month_length(self.year as int, self.month - 1) as u32,
            }
        } else {
            Date { year: (self.year - 1) as u32, month: 12, day: 31 }
        }
    }

    /// Decides whether this is a day of the calendar.
    pub fn is_valid(&self) -> (ok: bool)
        ensures
            ok == self.valid(),
    {
        match days_in_month(self.year, self.month) {
            Ok(days) => 1 <= self.day && self.day <= days,
            Err(_) => false,
        }
    }

    /// Steps one day forward, over the ends of months and years.
    pub fn next_day(&self) -> (next: Date)
        requires
            self.valid(),
            *self != Date::latest(),
        ensures
            next == self.succ(),
            next.valid(),
            self.before(next),
            forall|d: Date| #[trigger] self.before(d) && d.valid() ==> next.not_after(d),
    {
        if self.day < length_of_month(self.year, self.month) {
            Date { year: self.year, month: self.month, day: self.day + 1 }
        } else if self.month < 12 {
            Date { year: self.year, month: self.month + 1, day: 1 }
        } else {
            Date { year: self.year + 1, month: 1, day: 1 }
        }
    }

    /// Steps one day backward, over the starts of months and years.
    pub fn prior_day(&self) -> (prior: Date)
        requires
            self.valid(),
            *self != Date::earliest(),
        ensures
            prior == self.pred(),
            prior.valid(),
            prior.before(*self),
            forall|d: Date| #[trigger] d.before(*self) && d.valid() ==> d.not_after(prior),
    {
        if self.day > 1 {
            Date { year: self.year, month: self.month, day: self.day - 1 }
        } else if self.month > 1 {
            Date {
                year: self.year,
                month: self.month - 1,
                day: length_of_month(self.year, self.month - 1),
            }
        } else {
            Date { year: self.year - 1, month: 12, day: 31 }
        }
    }
}

/// The canonical text of a date: the year as it is, then month and day with
/// two digits at least, joined by `-`.
pub open spec fn date_text(d: Date) -> Seq<char> {
    decimal_text(d.year as nat) + seq!['-'] + two_digit_text(d.month as nat) + seq!['-']
        + two_digit_text(d.day as nat)
}

/// The date that a text denotes: its first three fields between `-` read as
/// year, month and day. No date where it has fewer than three fields or one
/// of the three is not an unsigned 32-bit number. Month and day are not held
/// to the calendar.
pub open spec fn date_of_text(s: Seq<char>) -> Option<Date> {
    let fields = split(s, '-');
    if fields.len() < 3 {
        None
    } else {
        match (u32_of_text(fields[0]), u32_of_text(fields[1]), u32_of_text(fields[2])) {
            (Some(year), Some(month), Some(day)) => Some(Date { year, month, day }),
            _ => None,
        }
    }
}

/// The decimal text of `i`, with a leading zero where it has one digit only.
pub fn to_iso_str(i: u32) -> (text: String)
    ensures
        text@ == two_digit_text(i as nat),
{
    let mut text = String::new();
    if i < 10 {
        text.push('0');
    }
    let ghost start = text@;
    push_decimal(&mut text, i);
    proof {
        lemma_decimal_text_len(i as nat);
        assert(text@ == start + decimal_text(i as nat));
        if i >= 10 {
            assert(start + decimal_text(i as nat) =~= decimal_text(i as nat));
        }
    }
    text
}

/// A number has a single digit exactly when it is below ten.
proof fn lemma_decimal_text_len(n: nat)
    ensures
        decimal_text(n).len() > 1 <==> n >= 10,
{
    if n >= 10 {
        lemma_decimal_text(n / 10);
    }
}

impl Date {
    /// The canonical text of this date.
    pub fn to_string(&self) -> (text: String)
        ensures
            text@ == date_text(*self),
    {
        let mut text = String::new();
        push_decimal(&mut text, self.year);
        text.push('-');
        let month = to_iso_str(self.month);
        text.append(month.as_str());
        text.push('-');
        let day = to_iso_str(self.day);
        text.append(day.as_str());
        proof {
            assert(text@ =~= date_text(*self));
        }
        text
    }

    /// Reads a date from text; the error carries the text.
    pub fn from_str(s: &str) -> (date: Result<Date, ParseError>)
        ensures
            match date_of_text(s@) {
                Some(d) => date == Ok::<Date, ParseError>(d),
                None => date matches Err(e) && e.field@ == s@ && e.kind == FieldKind::Date,
            },
    {
        let chars = chars_of(s);
        match date_of_chars(&chars) {
            Some(d) => Ok(d),
            None => Err(ParseError { field: s.to_owned(), kind: FieldKind::Date }),
        }
    }
}

/// Reads a date from the characters of its text.
pub fn date_of_chars(chars: &Vec<char>) -> (date: Option<Date>)
    ensures
        date == date_of_text(chars@),
{
    let fields = split_chars(chars, '-');
    if fields.len() < 3 {
        return None;
    }
    proof {
        assert(texts(fields@)[0] == fields@[0]@);
        assert(texts(fields@)[1] == fields@[1]@);
        assert(texts(fields@)[2] == fields@[2]@);
    }
    let year = parse_u32(&fields[0]);
    let month = parse_u32(&fields[1]);
    let day = parse_u32(&fields[2]);
    match (year, month, day) {
        (Some(year), Some(month), Some(day)) => Some(Date { year, month, day }),
        _ => None,
    }
}

impl std::str::FromStr for Date {
    type Err = ParseError;

    fn from_str(s: &str) -> (date: Result<Date, ParseError>)
        ensures
            match date_of_text(s@) {
                Some(d) => date == Ok::<Date, ParseError>(d),
                None => date matches Err(e) && e.field@ == s@ && e.kind == FieldKind::Date,
            },
    {
        Date::from_str(s)
    }
}

/// Reading the canonical text of a date gives that date back.
pub proof fn lemma_text_round_trip(d: Date)
    ensures
        date_of_text(date_text(d)) == Some(d),
{
    let y = decimal_text(d.year as nat);
    let m = two_digit_text(d.month as nat);
    let dd = two_digit_text(d.day as nat);
    lemma_decimal_text(d.year as nat);
    lemma_decimal_text(d.month as nat);
    lemma_decimal_text(d.day as nat);
    lemma_unsigned_value_of_text(d.year as nat);
    lemma_unsigned_value_of_text(d.month as nat);
    lemma_unsigned_value_of_text(d.day as nat);
    assert(free_of(y, '-'));
    assert(free_of(m, '-')) by {
        let t = decimal_text(d.month as nat);
        assert forall|i: int| 0 <= i < m.len() implies #[trigger] m[i] != '-' by {
            if t.len() <= 1 && i > 0 {
                assert(m[i] == t[i - 1]);
            }
        }
    }
    assert(free_of(dd, '-')) by {
        let t = decimal_text(d.day as nat);
        assert forall|i: int| 0 <= i < dd.len() implies #[trigger] dd[i] != '-' by {
            if t.len() <= 1 && i > 0 {
                assert(dd[i] == t[i - 1]);
            }
        }
    }
    lemma_split_three(y, m, dd, '-');
}

impl PartialOrd for Date {
    fn partial_cmp(&self, other: &Date) -> (order: Option<Ordering>) {
        if self.year < other.year {
            Some(Ordering::Less)
        } else if self.year > other.year {
            Some(Ordering::Greater)
        } else if self.month < other.month {
            Some(Ordering::Less)
        } else if self.month > other.month {
            Some(Ordering::Greater)
        } else if self.day < other.day {
            Some(Ordering::Less)
        } else if self.day > other.day {
            Some(Ordering::Greater)
        } else {
            Some(Ordering::Equal)
        }
    }
}

impl vstd::std_specs::cmp::PartialOrdSpecImpl for Date {
    open spec fn obeys_partial_cmp_spec() -> bool {
        true
    }

    open spec fn partial_cmp_spec(&self, other: &Date) -> Option<Ordering> {
        if self.before(*other) {
            Some(Ordering::Less)
        } else if other.before(*self) {
            Some(Ordering::Greater)
        } else {
            Some(Ordering::Equal)
        }
    }
}

/// Dates are in a strict total order: no date is before itself, of two
/// different dates one is before the other, and what is before an earlier
/// date is before every later one.
pub proof fn lemma_order_is_total(a: Date, b: Date, c: Date)
    ensures
        !a.before(a),
        a != b ==> (a.before(b) <==> !b.before(a)),
        a.before(b) && b.before(c) ==> a.before(c),
{
}

/// Stepping a day forward and then back, or back and then forward, returns
/// to the starting day.
pub proof fn lemma_day_steps_cancel(d: Date)
    requires
        d.valid(),
    ensures
        d != Date::latest() ==> d.succ().pred() == d,
        d != Date::earliest() ==> d.pred().succ() == d,
{
}

} // verus!
