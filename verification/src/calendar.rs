//! Calendar dates of photos.
use vstd::prelude::*;
use crate::text::{push_char, push_str, signed_decimal, signed_decimal_string, zero_padded, zero_padded_string};

verus! {

/// The first and last years that a date may have.
pub open spec fn min_year() -> int {
    -262143
}

pub open spec fn max_year() -> int {
    262142
}

pub open spec fn is_leap_year(y: int) -> bool {
    (y % 4 == 0 && y % 100 != 0) || y % 400 == 0
}

pub open spec fn days_in_month(y: int, m: int) -> int {
    if m == 2 {
        if is_leap_year(y) {
            29
        } else {
            28
        }
    } else if m == 4 || m == 6 || m == 9 || m == 11 {
        30
    } else {
        31
    }
}

/// A day of the proleptic Gregorian calendar within the supported years.
pub open spec fn valid_ymd(y: int, m: int, d: int) -> bool {
    &&& min_year() <= y <= max_year()
    &&& 1 <= m <= 12
    &&& 1 <= d <= days_in_month(y, m)
}

/// A calendar date; it always names an existing day.
#[derive(Clone, Copy, Debug, PartialEq, Eq, Structural)]
pub struct Date {
    year: i32,
    month: u32,
    day: u32,
}

/// The position of a day of the proleptic Gregorian calendar in a count of
/// days (day 0 is 1 March of year 0). Years are counted from March, so that
/// a leap day ends its year; 400 years always have 146097 days.
pub open spec fn day_number(y: int, m: int, d: int) -> int {
    let ym = if m <= 2 {
        y - 1
    } else {
        y
    };
    let era = ym / 400;
    let yoe = ym - era * 400;
    let mp = if m > 2 {
        m - 3
    } else {
        m + 9
    };
    let doy = (153 * mp + 2) / 5 + d - 1;
    era * 146097 + yoe * 365 + yoe / 4 - yoe / 100 + doy
}

impl Date {
    #[verifier::type_invariant]
    spec fn valid(self) -> bool {
        valid_ymd(self.year as int, self.month as int, self.day as int)
    }

    pub closed spec fn y(self) -> int {
        self.year as int
    }

    pub closed spec fn m(self) -> int {
        self.month as int
    }

    pub closed spec fn d(self) -> int {
        self.day as int
    }

    /// The date of year `year`, month `month`, day `day`, when it exists.
    pub fn from_ymd_opt(year: i32, month: u32, day: u32) -> (r: Option<Date>)
        ensures
            match r {
                Some(d) => valid_ymd(year as int, month as int, day as int) && d.y() == year
                    && d.m() == month && d.d() == day,
                None => !valid_ymd(year as int, month as int, day as int),
            },
    {
        if chrono_date_exists(year, month, day) {
            Some(Date { year, month, day })
        } else {
            None
        }
    }

    pub fn year(&self) -> (r: i32)
        ensures
            r == self.y(),
    {
        self.year
    }

    pub fn month(&self) -> (r: u32)
        ensures
            r == self.m(),
            1 <= r <= 12,
    {
        proof {
            use_type_invariant(self);
        }
        self.month
    }

    pub fn day(&self) -> (r: u32)
        ensures
            r == self.d(),
            1 <= r <= 31,
    {
        proof {
            use_type_invariant(self);
        }
        self.day
    }

    /// The number of days from `earlier` to `self`.
    pub fn days_since(&self, earlier: &Date) -> (r: i64)
        ensures
            r == day_number(self.y(), self.m(), self.d()) - day_number(earlier.y(), earlier.m(), earlier.d()),
            self.y() == earlier.y() && self.m() == earlier.m() ==> r == self.d() - earlier.d(),
    {
        proof {
            use_type_invariant(self);
            use_type_invariant(earlier);
        }
        chrono_days_between(self.year, self.month, self.day, earlier.year, earlier.month, earlier.day)
    }
}

/// Calls `chrono::NaiveDate::from_ymd_opt`, which returns a date exactly for
/// an existing day of the proleptic Gregorian calendar whose year is within
/// chrono's range (`MIN_YEAR..=MAX_YEAR` of `chrono::naive::date`).
#[verifier::external_body]
fn chrono_date_exists(year: i32, month: u32, day: u32) -> (r: bool)
    ensures
        r == valid_ymd(year as int, month as int, day as int),
{
    chrono::NaiveDate::from_ymd_opt(year, month, day).is_some()
}

/// Calls `chrono::NaiveDate - chrono::NaiveDate` and `TimeDelta::num_days`
/// for two existing days: the exact number of days between them in the
/// proleptic Gregorian calendar.
#[verifier::external_body]
fn chrono_days_between(y1: i32, m1: u32, d1: u32, y2: i32, m2: u32, d2: u32) -> (r: i64)
    requires
        valid_ymd(y1 as int, m1 as int, d1 as int),
        valid_ymd(y2 as int, m2 as int, d2 as int),
    ensures
        r == day_number(y1 as int, m1 as int, d1 as int) - day_number(y2 as int, m2 as int, d2 as int),
{
    let a = chrono::NaiveDate::from_ymd_opt(y1, m1, d1).unwrap();
    let b = chrono::NaiveDate::from_ymd_opt(y2, m2, d2).unwrap();
    (a - b).num_days()
}

// ---------------------------------------------------------------------------
// Ordering
// ---------------------------------------------------------------------------

/// Dates are ordered by year, then month, then day.
pub open spec fn date_lt(a: Date, b: Date) -> bool {
    a.y() < b.y() || (a.y() == b.y() && (a.m() < b.m() || (a.m() == b.m() && a.d() < b.d())))
}

pub open spec fn date_le(a: Date, b: Date) -> bool {
    date_lt(a, b) || a == b
}

pub open spec fn same_month(a: Date, b: Date) -> bool {
    a.y() == b.y() && a.m() == b.m()
}

/// `date_lt` is a strict total order on dates.
pub proof fn lemma_date_order(a: Date, b: Date, c: Date)
    ensures
        !date_lt(a, a),
        date_lt(a, b) ==> !date_lt(b, a),
        date_lt(a, b) && date_lt(b, c) ==> date_lt(a, c),
        date_lt(a, b) || date_lt(b, a) || a == b,
        same_month(a, b) && same_month(b, c) ==> same_month(a, c),
{
}

pub fn date_less(a: &Date, b: &Date) -> (r: bool)
    ensures
        r == date_lt(*a, *b),
{
    a.year < b.year || (a.year == b.year && (a.month < b.month || (a.month == b.month && a.day
        < b.day)))
}

// ---------------------------------------------------------------------------
// Names
// ---------------------------------------------------------------------------

pub open spec fn month_name_spec(m: int) -> Seq<char> {
    if m == 1 {
        "January"@
    } else if m == 2 {
        "February"@
    } else if m == 3 {
        "March"@
    } else if m == 4 {
        "April"@
    } else if m == 5 {
        "May"@
    } else if m == 6 {
        "June"@
    } else if m == 7 {
        "July"@
    } else if m == 8 {
        "August"@
    } else if m == 9 {
        "September"@
    } else if m == 10 {
        "October"@
    } else if m == 11 {
        "November"@
    } else {
        "December"@
    }
}

/// The English name of a month.
pub fn month_name(month: u32) -> (r: &'static str)
    requires
        1 <= month <= 12,
    ensures
        r@ == month_name_spec(month as int),
{
    match month {
        1 => "January",
        2 => "February",
        3 => "March",
        4 => "April",
        5 => "May",
        6 => "June",
        7 => "July",
        8 => "August",
        9 => "September",
        10 => "October",
        11 => "November",
        _ => "December",
    }
}

/// `%Y`: four zero-padded digits for years 0..=9999, else a sign and at
/// least four digits.
pub open spec fn year_text(y: int) -> Seq<char> {
    if 0 <= y <= 9999 {
        zero_padded(y as nat, 4)
    } else if y < 0 {
        seq!['-'] + zero_padded((-y) as nat, 4)
    } else {
        seq!['+'] + zero_padded(y as nat, 4)
    }
}

/// `%Y-%m-%d`.
pub open spec fn iso_date(d: Date) -> Seq<char> {
    year_text(d.y()) + seq!['-'] + zero_padded(d.m() as nat, 2) + seq!['-'] + zero_padded(
        d.d() as nat,
        2,
    )
}

fn year_string(y: i32) -> (r: String)
    ensures
        r@ == year_text(y as int),
{
    if 0 <= y && y <= 9999 {
        zero_padded_string(y as u64, 4)
    } else {
        let mut r = String::new();
        let magnitude: u64 = if y < 0 {
            push_char(&mut r, '-');
            (-(y as i64)) as u64
        } else {
            push_char(&mut r, '+');
            y as u64
        };
        let digits = zero_padded_string(magnitude, 4);
        push_str(&mut r, digits.as_str());
        r
    }
}

/// Formats a date as `YYYY-MM-DD`.
pub fn iso_date_string(d: &Date) -> (r: String)
    ensures
        r@ == iso_date(*d),
{
    let mut r = year_string(d.year());
    push_char(&mut r, '-');
    let m = zero_padded_string(d.month() as u64, 2);
    push_str(&mut r, m.as_str());
    push_char(&mut r, '-');
    let day = zero_padded_string(d.day() as u64, 2);
    push_str(&mut r, day.as_str());
    r
}

/// `YYYY - MM Month`.
pub open spec fn spec_month_dir_name(d: Date) -> Seq<char> {
    signed_decimal(d.y()) + " - "@ + zero_padded(d.m() as nat, 2) + seq![' '] + month_name_spec(
        d.m(),
    )
}

/// The directory of a month: `2026 - 04 April`.
pub fn month_dir_name(date: &Date) -> (r: String)
    ensures
        r@ == spec_month_dir_name(*date),
{
    let mut r = signed_decimal_string(date.year() as i64);
    push_str(&mut r, " - ");
    let m = zero_padded_string(date.month() as u64, 2);
    push_str(&mut r, m.as_str());
    push_char(&mut r, ' ');
    push_str(&mut r, month_name(date.month()));
    r
}

/// `YYYY-MM-DD`, or `YYYY-MM-DD - YYYY-MM-DD` for a range.
pub open spec fn spec_day_dir_name(start: Date, end: Date) -> Seq<char> {
    if start == end {
        iso_date(start)
    } else {
        iso_date(start) + " - "@ + iso_date(end)
    }
}

/// The directory of a day or a range of days.
pub fn day_dir_name(start: &Date, end: &Date) -> (r: String)
    ensures
        r@ == spec_day_dir_name(*start, *end),
{
    if *start == *end {
        iso_date_string(start)
    } else {
        let mut r = iso_date_string(start);
        push_str(&mut r, " - ");
        let e = iso_date_string(end);
        push_str(&mut r, e.as_str());
        r
    }
}

} // verus!
