//! Calendar dates as plain year, month and day values, with the
//! proleptic-Gregorian arithmetic the counter store needs: validity,
//! ordering, and stepping one day backwards or forwards.

use vstd::prelude::*;

verus! {

/// A calendar date held as plain values.
#[derive(Clone, Copy, PartialEq, Eq, Structural, Debug)]
pub struct Date {
    pub year: i64,
    pub month: u8,
    pub day: u8,
}

pub open spec fn is_leap_year(y: int) -> bool {
    (y % 4 == 0 && y % 100 != 0) || y % 400 == 0
}

pub open spec fn days_in_month(y: int, m: int) -> int {
    if m == 2 {
        if is_leap_year(y) {
            29
        } else {
            28
        }
    } else if m == 4 || m == 6 || m == 9 || m == 11 {
        30
    } else {
        31
    }
}

impl Date {
    /// A well-formed day of the proleptic-Gregorian calendar.
    pub open spec fn valid(self) -> bool {
        &&& 1 <= self.month <= 12
        &&& 1 <= self.day <= days_in_month(self.year as int, self.month as int)
    }

    /// Valid and within the four-digit year range of the stored text form.
    pub open spec fn representable(self) -> bool {
        self.valid() && 0 <= self.year <= 9999
    }

    /// Strict calendar order.
    pub open spec fn lt(self, other: Date) -> bool {
        ||| self.year < other.year
        ||| (self.year == other.year && self.month < other.month)
        ||| (self.year == other.year && self.month == other.month && self.day < other.day)
    }

    /// The day immediately before this one.
    pub open spec fn pred_spec(self) -> Date {
        if self.day > 1 {
            Date { year: self.year, month: self.month, day: (self.day - 1) as u8 }
        } else if self.month > 1 {
            Date {
                year: self.year,
                month: (self.month - 1) as u8,
                day: days_in_month(self.year as int, self.month as int - 1) as u8,
            }
        } else {
            Date { year: (self.year - 1) as i64, month: 12, day: 31 }
        }
    }

    /// The day immediately after this one.
    pub open spec fn succ_spec(self) -> Date {
        if self.day < days_in_month(self.year as int, self.month as int) {
            Date { year: self.year, month: self.month, day: (self.day + 1) as u8 }
        } else if self.month < 12 {
            Date { year: self.year, month: (self.month + 1) as u8, day: 1 }
        } else {
            Date { year: (self.year + 1) as i64, month: 1, day: 1 }
        }
    }
}

/// The date `k` days before `d`.
pub open spec fn date_back(d: Date, k: nat) -> Date
    decreases k,
{
    if k == 0 {
        d
    } else {
        date_back(d, (k - 1) as nat).pred_spec()
    }
}

/// The date `k` days after `d`.
pub open spec fn date_forward(d: Date, k: nat) -> Date
    decreases k,
{
    if k == 0 {
        d
    } else {
        date_forward(d, (k - 1) as nat).succ_spec()
    }
}

pub proof fn lemma_lt_trans(a: Date, b: Date, c: Date)
    requires
        a.lt(b),
        b.lt(c),
    ensures
        a.lt(c),
{
}

pub proof fn lemma_pred_properties(d: Date)
    requires
        d.valid(),
        !(d.year == i64::MIN && d.month == 1 && d.day == 1),
    ensures
        d.pred_spec().valid(),
        d.pred_spec().lt(d),
        d.pred_spec().year == d.year || d.pred_spec().year == d.year - 1,
        d.pred_spec().succ_spec() == d,
{
}

pub proof fn lemma_succ_properties(d: Date)
    requires
        d.valid(),
        !(d.year == i64::MAX && d.month == 12 && d.day == 31),
    ensures
        d.succ_spec().valid(),
        d.lt(d.succ_spec()),
        d.succ_spec().year == d.year || d.succ_spec().year == d.year + 1,
        d.succ_spec().pred_spec() == d,
{
}

/// Walking backwards keeps dates valid and lowers the year by at most one
/// per step.
pub proof fn lemma_date_back_valid(d: Date, k: nat)
    requires
        d.valid(),
        d.year - k >= i64::MIN,
    ensures
        date_back(d, k).valid(),
        d.year - k <= date_back(d, k).year <= d.year,
    decreases k,
{
    if k > 0 {
        lemma_date_back_valid(d, (k - 1) as nat);
        lemma_pred_properties(date_back(d, (k - 1) as nat));
    }
}

/// Walking further back yields strictly earlier dates.
pub proof fn lemma_date_back_lt(d: Date, a: nat, b: nat)
    requires
        d.valid(),
        b < a,
        d.year - a >= i64::MIN,
    ensures
        date_back(d, a).lt(date_back(d, b)),
    decreases a,
{
    lemma_date_back_valid(d, (a - 1) as nat);
    lemma_pred_properties(date_back(d, (a - 1) as nat));
    if b < a - 1 {
        lemma_date_back_lt(d, (a - 1) as nat, b);
        lemma_lt_trans(date_back(d, a), date_back(d, (a - 1) as nat), date_back(d, b));
    }
}

impl Date {
    /// Builds a date after checking calendar validity.
    pub fn new(year: i64, month: u8, day: u8) -> (r: Option<Date>)
        ensures
            r is Some <==> (Date { year, month, day }).valid(),
            r is Some ==> r->0 == (Date { year, month, day }),
    {
        let d = Date { year, month, day };
        if d.check_valid() {
            Some(d)
        } else {
            None
        }
    }

    pub fn check_valid(&self) -> (r: bool)
        ensures
            r == self.valid(),
    {
        1 <= self.month && self.month <= 12 && 1 <= self.day && self.day
            <= days_in_month_of(self.year, self.month)
    }

    pub fn check_representable(&self) -> (r: bool)
        ensures
            r == self.representable(),
    {
        self.check_valid() && 0 <= self.year && self.year <= 9999
    }

    /// Strict calendar order, decided on the fields.
    pub fn before(&self, other: &Date) -> (r: bool)
        ensures
            r == self.lt(*other),
    {
        if self.year != other.year {
            self.year < other.year
        } else if self.month != other.month {
            self.month < other.month
        } else {
            self.day < other.day
        }
    }

    /// The previous calendar day.
    pub fn pred(&self) -> (r: Date)
        requires
            self.valid(),
            !(self.year == i64::MIN && self.month == 1 && self.day == 1),
        ensures
            r == self.pred_spec(),
            r.valid(),
            r.lt(*self),
    {
        proof {
            lemma_pred_properties(*self);
        }
        if self.day > 1 {
            Date { year: self.year, month: self.month, day: self.day - 1 }
        } else if self.month > 1 {
            Date {
                year: self.year,
                month: self.month - 1,
                day: days_in_month_of(self.year, self.month - 1),
            }
        } else {
            Date { year: self.year - 1, month: 12, day: 31 }
        }
    }

    /// The next calendar day.
    pub fn succ(&self) -> (r: Date)
        requires
            self.valid(),
            !(self.year == i64::MAX && self.month == 12 && self.day == 31),
        ensures
            r == self.succ_spec(),
            r.valid(),
            self.lt(r),
    {
        proof {
            lemma_succ_properties(*self);
        }
        if self.day < days_in_month_of(self.year, self.month) {
            Date { year: self.year, month: self.month, day: self.day + 1 }
        } else if self.month < 12 {
            Date { year: self.year, month: self.month + 1, day: 1 }
        } else {
            Date { year: self.year + 1, month: 1, day: 1 }
        }
    }
}

pub fn leap_year(y: i64) -> (r: bool)
    ensures
        r == is_leap_year(y as int),
{
    let m4 = y.checked_rem_euclid(4).unwrap();
    let m100 = y.checked_rem_euclid(100).unwrap();
    let m400 = y.checked_rem_euclid(400).unwrap();
    (m4 == 0 && m100 != 0) || m400 == 0
}

pub fn days_in_month_of(y: i64, m: u8) -> (r: u8)
    ensures
        r == days_in_month(y as int, m as int),
{
    if m == 2 {
        if leap_year(y) {
            29
        } else {
            28
        }
    } else if m == 4 || m == 6 || m == 9 || m == 11 {
        30
    } else {
        31
    }
}

/// The origin of day counting, 1970-01-01.
pub open spec fn epoch_date() -> Date {
    Date { year: 1970, month: 1, day: 1 }
}

/// The calendar day `days` after 1970-01-01; how a caller turns a day
/// count taken from its clock into a date.
pub fn from_day_number(days: u64) -> (r: Date)
    requires
        days <= 4_000_000,
    ensures
        r == date_forward(epoch_date(), days as nat),
        r.valid(),
{
    let mut cur = Date { year: 1970, month: 1, day: 1 };
    let mut i: u64 = 0;
    assert(cur == date_forward(epoch_date(), 0));
    while i < days
        invariant
            i <= days,
            days <= 4_000_000,
            cur == date_forward(epoch_date(), i as nat),
            cur.valid(),
            1970 <= cur.year <= 1970 + i,
        decreases days - i,
    {
        proof {
            lemma_succ_properties(cur);
        }
        cur = cur.succ();
        i = i + 1;
    }
    cur
}

} // verus!
