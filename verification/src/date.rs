//! Calendar dates (proleptic Gregorian), as `chrono::NaiveDate` knows them.
use vstd::prelude::*;

verus! {

pub open spec fn is_leap_year(y: int) -> bool {
    y % 4 == 0 && (y % 100 != 0 || y % 400 == 0)
}

pub open spec fn days_in_month(y: int, m: int) -> int {
    if m == 2 {
        if is_leap_year(y) {
            29
        } else {
            28
        }
    } else if m == 4 || m == 6 || m == 9 || m == 11 {
        30
    } else {
        31
    }
}

/// The dates that `chrono::NaiveDate` can represent.
pub open spec fn valid_ymd(y: int, m: int, d: int) -> bool {
    &&& -262143 <= y <= 262142
    &&& 1 <= m <= 12
    &&& 1 <= d <= days_in_month(y, m)
}

/// Asks `chrono::NaiveDate::from_ymd_opt` whether `y-m-d` is a date. The
/// contract claims chrono's documented rule: the proleptic Gregorian
/// calendar, for the years chrono supports.
#[verifier::external_body]
fn ymd_is_valid(y: i32, m: u32, d: u32) -> (res: bool)
    ensures
        res == valid_ymd(y as int, m as int, d as int),
{
    chrono::NaiveDate::from_ymd_opt(y, m, d).is_some()
}

/// A calendar date.
#[derive(Clone, Copy, Debug, PartialEq, Eq, Structural)]
pub struct Date {
    pub year: i32,
    pub month: u32,
    pub day: u32,
}

/// `a` comes strictly before `b`.
pub open spec fn date_lt(a: Date, b: Date) -> bool {
    a.year < b.year || (a.year == b.year && (a.month < b.month || (a.month == b.month && a.day
        < b.day)))
}

pub open spec fn date_le(a: Date, b: Date) -> bool {
    date_lt(a, b) || a == b
}

impl Date {
    pub open spec fn wf(self) -> bool {
        valid_ymd(self.year as int, self.month as int, self.day as int)
    }

    /// The date `y-m-d`, if it exists.
    pub fn from_ymd_opt(y: i32, m: u32, d: u32) -> (res: Option<Date>)
        ensures
            res is Some <==> valid_ymd(y as int, m as int, d as int),
            res matches Some(r) ==> r.year == y && r.month == m && r.day == d,
    {
        if ymd_is_valid(y, m, d) {
            Some(Date { year: y, month: m, day: d })
        } else {
            None
        }
    }

    pub fn lt(&self, other: &Date) -> (res: bool)
        ensures
            res == date_lt(*self, *other),
    {
        self.year < other.year || (self.year == other.year && (self.month < other.month || (
        self.month == other.month && self.day < other.day)))
    }

    pub fn le(&self, other: &Date) -> (res: bool)
        ensures
            res == date_le(*self, *other),
    {
        self.lt(other) || *self == *other
    }

    /// The last day of this date's month.
    pub fn last_of_month(&self) -> (res: Date)
        requires
            self.wf(),
        ensures
            res.year == self.year,
            res.month == self.month,
            res.day == days_in_month(self.year as int, self.month as int),
            res.wf(),
    {
        let mut d: u32 = 31;
        while d > 28 && !ymd_is_valid(self.year, self.month, d)
            invariant
                28 <= d <= 31,
                self.wf(),
                forall|e: int| d < e <= 31 ==> !valid_ymd(self.year as int, self.month as int, e),
            decreases d,
        {
            d = d - 1;
        }
        assert(valid_ymd(self.year as int, self.month as int, days_in_month(self.year as int, self.month as int)));
        Date { year: self.year, month: self.month, day: d }
    }
}

} // verus!
