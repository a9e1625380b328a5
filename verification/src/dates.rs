//! Calendar dates for transactions and reports.
//!
//! A date is held as plain year, month and day fields in the proleptic
//! Gregorian calendar. Reporting truncates dates to the period that contains
//! them: the day itself, the Monday of its week, or the first of its month.

use vstd::prelude::*;

verus! {

/// A calendar date: year, month and day in the proleptic Gregorian calendar.
#[derive(Clone, Copy, Debug, PartialEq, Eq, Structural)]
pub struct Date {
    pub year: u16,
    pub month: u8,
    pub day: u8,
}

/// Whether `y` is a leap year in the Gregorian calendar.
pub open spec fn spec_is_leap_year(y: int) -> bool {
    (y % 4 == 0 && y % 100 != 0) || y % 400 == 0
}

/// The number of days in month `m` of year `y`.
pub open spec fn spec_days_in_month(y: int, m: int) -> int {
    if m == 2 {
        if spec_is_leap_year(y) {
            29
        } else {
            28
        }
    } else if m == 4 || m == 6 || m == 9 || m == 11 {
        30
    } else {
        31
    }
}

impl Date {
    /// A well-formed date: the year is within the supported range and the
    /// month and day name an existing day of the calendar.
    pub open spec fn wf(self) -> bool {
        &&& 1 <= self.year <= 9999
        &&& 1 <= self.month <= 12
        &&& 1 <= self.day <= spec_days_in_month(self.year as int, self.month as int)
    }

    /// Construct a date, or nothing if the fields do not name a calendar day.
    pub fn new(year: u16, month: u8, day: u8) -> (r: Option<Date>)
        ensures
            match r {
                Some(d) => d.wf() && d.year == year && d.month == month && d.day == day,
                None => !(Date { year, month, day }).wf(),
            },
    {
        if 1 <= year && year <= 9999 && 1 <= month && month <= 12 && 1 <= day && day
            <= days_in_month(year, month) {
            Some(Date { year, month, day })
        } else {
            None
        }
    }

    pub fn year(&self) -> (r: u16)
        ensures
            r == self.year,
    {
        self.year
    }

    pub fn month(&self) -> (r: u8)
        ensures
            r == self.month,
    {
        self.month
    }

    pub fn day(&self) -> (r: u8)
        ensures
            r == self.day,
    {
        self.day
    }
}

/// Whether `y` is a leap year.
pub fn is_leap_year(y: u16) -> (r: bool)
    ensures
        r == spec_is_leap_year(y as int),
{
    (y % 4 == 0 && y % 100 != 0) || y % 400 == 0
}

/// The number of days in month `m` of year `y`.
pub fn days_in_month(y: u16, m: u8) -> (r: u8)
    ensures
        r == spec_days_in_month(y as int, m as int),
{
    if m == 2 {
        if is_leap_year(y) {
            29
        } else {
            28
        }
    } else if m == 4 || m == 6 || m == 9 || m == 11 {
        30
    } else {
        31
    }
}

/// Strict order on dates: `a` names an earlier calendar day than `b`.
pub open spec fn date_lt(a: Date, b: Date) -> bool {
    ||| a.year < b.year
    ||| (a.year == b.year && a.month < b.month)
    ||| (a.year == b.year && a.month == b.month && a.day
        < b.day)
}

/// `a` names the same or an earlier calendar day than `b`.
pub open spec fn date_le(a: Date, b: Date) -> bool {
    date_lt(a, b) || a == b
}

/// Whether `self` is strictly before `other`.
impl Date {
    pub fn before(&self, other: &Date) -> (r: bool)
        ensures
            r == date_lt(*self, *other),
    {
        self.year < other.year || (self.year == other.year && self.month < other.month) || (
        self.year == other.year && self.month == other.month && self.day < other.day)
    }

    pub fn on_or_before(&self, other: &Date) -> (r: bool)
        ensures
            r == date_le(*self, *other),
    {
        !other.before(self)
    }
}

/// Days elapsed since 1 March of year 0 of the proleptic Gregorian calendar.
/// Every well-formed date lies after that day.
pub open spec fn spec_day_index(d: Date) -> int {
    let y = if d.month <= 2 {
        d.year - 1
    } else {
        d.year as int
    };
    let era = y / 400;
    let yoe = y - era * 400;
    let mp = (d.month + 9) % 12 as int;
    let doy = (153 * mp + 2) / 5 + d.day - 1;
    let doe = yoe * 365 + yoe / 4 - yoe / 100 + doy;
    era * 146097 + doe
}

/// The day index of a date, counted from 1 March of year 0.
pub fn day_index(d: &Date) -> (r: u32)
    requires
        d.wf(),
    ensures
        r == spec_day_index(*d),
{
    let y: u32 = if d.month() <= 2 {
        d.year() as u32 - 1
    } else {
        d.year() as u32
    };
    let era: u32 = y / 400;
    let yoe: u32 = y - era * 400;
    let mp: u32 = (d.month() as u32 + 9) % 12;
    let doy: u32 = (153 * mp + 2) / 5 + d.day() as u32 - 1;
    let doe: u32 = yoe * 365 + yoe / 4 - yoe / 100 + doy;
    era * 146097 + doe
}

/// The day of the week of `d`, counted from Monday as 0 up to Sunday as 6.
pub open spec fn spec_weekday_from_monday(d: Date) -> int {
    (spec_day_index(d) + 2) % 7
}

/// The calendar day before `d`. The first supported date is its own
/// predecessor, so that stepping backwards never leaves the supported range.
pub open spec fn spec_prev_day(d: Date) -> Date {
    if d.day > 1 {
        Date { year: d.year, month: d.month, day: (d.day - 1) as u8 }
    } else if d.month > 1 {
        Date {
            year: d.year,
            month: (d.month - 1) as u8,
            day: spec_days_in_month(d.year as int, d.month - 1) as u8,
        }
    } else if d.year > 1 {
        Date { year: (d.year - 1) as u16, month: 12, day: 31 }
    } else {
        d
    }
}

/// The date `k` days before `d`, never stepping before the first supported
/// date.
pub open spec fn spec_minus_days(d: Date, k: nat) -> Date
    decreases k,
{
    if k == 0 {
        d
    } else {
        spec_minus_days(spec_prev_day(d), (k - 1) as nat)
    }
}

proof fn lemma_prev_day_wf(d: Date)
    requires
        d.wf(),
    ensures
        spec_prev_day(d).wf(),
        date_le(spec_prev_day(d), d),
{
}

/// The calendar day before `d`.
pub fn prev_day(d: &Date) -> (r: Date)
    requires
        d.wf(),
    ensures
        r == spec_prev_day(*d),
        r.wf(),
{
    proof {
        lemma_prev_day_wf(*d);
    }
    if d.day > 1 {
        Date { year: d.year, month: d.month, day: d.day - 1 }
    } else if d.month > 1 {
        Date { year: d.year, month: d.month - 1, day: days_in_month(d.year, d.month - 1) }
    } else if d.year > 1 {
        Date { year: d.year - 1, month: 12, day: 31 }
    } else {
        *d
    }
}

/// The date `k` days before `d`.
pub fn minus_days(d: &Date, k: u32) -> (r: Date)
    requires
        d.wf(),
    ensures
        r == spec_minus_days(*d, k as nat),
        r.wf(),
{
    let mut cur: Date = *d;
    let mut i: u32 = 0;
    while i < k
        invariant
            cur.wf(),
            i <= k,
            spec_minus_days(*d, k as nat) == spec_minus_days(cur, (k - i) as nat),
        decreases k - i,
    {
        proof {
            lemma_prev_day_wf(cur);
        }
        cur = prev_day(&cur);
        i = i + 1;
    }
    cur
}

/// The reporting periods balances can be grouped by.
#[derive(Clone, Copy, Debug, PartialEq, Eq, Structural)]
pub enum ReportInterval {
    Daily,
    Weekly,
    Monthly,
}

/// The first day of the period of `interval` that contains `d`: the day
/// itself, the Monday of its week, or the first of its month.
pub open spec fn spec_truncate(interval: ReportInterval, d: Date) -> Date {
    match interval {
        ReportInterval::Daily => d,
        ReportInterval::Weekly => spec_minus_days(d, spec_weekday_from_monday(d) as nat),
        ReportInterval::Monthly => Date { year: d.year, month: d.month, day: 1 },
    }
}

/// Truncate `d` to the start of the period of `interval` that contains it.
pub fn truncate(interval: ReportInterval, d: &Date) -> (r: Date)
    requires
        d.wf(),
    ensures
        r == spec_truncate(interval, *d),
        r.wf(),
{
    match interval {
        ReportInterval::Daily => *d,
        ReportInterval::Weekly => {
            let idx = day_index(d);
            minus_days(d, (idx + 2) % 7)
        },
        ReportInterval::Monthly => Date { year: d.year, month: d.month, day: 1 },
    }
}

/// The day one calendar year before `d`, clamping 29 February to 28 February.
pub open spec fn spec_year_before(d: Date) -> Date {
    let y = (d.year - 1) as u16;
    let dim = spec_days_in_month(y as int, d.month as int);
    let day = if d.day <= dim {
        d.day
    } else {
        dim as u8
    };
    Date { year: y, month: d.month, day }
}

/// The day one calendar year before `d`.
pub fn year_before(d: &Date) -> (r: Date)
    requires
        d.wf(),
        d.year >= 2,
    ensures
        r == spec_year_before(*d),
        r.wf(),
{
    let y: u16 = d.year - 1;
    let dim = days_in_month(y, d.month);
    let day = if d.day <= dim {
        d.day
    } else {
        dim
    };
    Date { year: y, month: d.month, day }
}

} // verus!
