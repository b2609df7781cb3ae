//! Calendar time: Unix seconds to UTC date and time, and its ISO 8601 text.

use vstd::prelude::*;
use crate::text::{append_decimal, decimal, digit_char, digit_to_char, symbol_text};

verus! {

/// Gregorian leap year.
pub open spec fn is_leap(y: int) -> bool {
    y % 4 == 0 && (y % 100 != 0 || y % 400 == 0)
}

/// Number of leap years among years 1..=n.
pub open spec fn leaps_through(n: int) -> int {
    n / 4 - n / 100 + n / 400
}

/// Days from 1970-01-01 to January 1st of year `y`.
pub open spec fn days_before_year(y: int) -> int {
    365 * (y - 1970) + leaps_through(y - 1) - leaps_through(1969)
}

/// Days in month `m` (1 = January) of year `y`.
pub open spec fn month_length(y: int, m: int) -> int {
    if m == 2 {
        if is_leap(y) {
            29
        } else {
            28
        }
    } else if m == 4 || m == 6 || m == 9 || m == 11 {
        30
    } else {
        31
    }
}

/// Days from January 1st to the first day of month `m` of year `y`.
pub open spec fn days_before_month(y: int, m: int) -> int
    decreases m,
{
    if m <= 1 {
        0
    } else {
        days_before_month(y, m - 1) + month_length(y, m - 1)
    }
}

/// Days from 1970-01-01 to the given date.
pub open spec fn days_from_civil(y: int, m: int, d: int) -> int {
    days_before_year(y) + days_before_month(y, m) + d - 1
}

/// A UTC date and time with one-second resolution.
#[derive(Debug, Clone, Copy, PartialEq, Eq, Structural)]
pub struct UtcDateTime {
    pub year: u64,
    pub month: u8,
    pub day: u8,
    pub hour: u8,
    pub minute: u8,
    pub second: u8,
}

impl UtcDateTime {
    /// A real date from 1970 on, and a time of day.
    pub open spec fn valid(self) -> bool {
        &&& self.year >= 1970
        &&& 1 <= self.month <= 12
        &&& 1 <= self.day <= month_length(self.year as int, self.month as int)
        &&& self.hour < 24
        &&& self.minute < 60
        &&& self.second < 60
    }

    /// Seconds since 1970-01-01T00:00:00Z.
    pub open spec fn unix_seconds(self) -> int {
        days_from_civil(self.year as int, self.month as int, self.day as int) * 86400 + self.hour * 3600
            + self.minute * 60 + self.second
    }
}

/// Two decimal digits.
pub open spec fn two_digits(n: int) -> Seq<char> {
    seq![digit_char(n / 10), digit_char(n % 10)]
}

/// `YYYY-MM-DDTHH:MM:SSZ`.
pub open spec fn iso_text(dt: UtcDateTime) -> Seq<char> {
    decimal(dt.year as nat) + "-"@ + two_digits(dt.month as int) + "-"@ + two_digits(dt.day as int) + "T"@
        + two_digits(dt.hour as int) + ":"@ + two_digits(dt.minute as int) + ":"@ + two_digits(dt.second as int)
        + "Z"@
}

/// A leap year has 366 days, any other year 365.
pub proof fn lemma_year_length(y: int)
    requires
        y >= 1,
    ensures
        days_before_year(y + 1) - days_before_year(y) == if is_leap(y) {
            366int
        } else {
            365int
        },
{
}

/// The Gregorian calendar repeats every 400 years, which hold 146097 days.
pub proof fn lemma_four_centuries(y: int)
    requires
        y >= 1,
    ensures
        days_before_year(y + 400) - days_before_year(y) == 146097,
{
}

proof fn lemma_cycles(q: nat)
    ensures
        days_before_year(1970 + 400 * (q as int)) == 146097 * (q as int),
    decreases q,
{
    if q > 0 {
        lemma_cycles((q - 1) as nat);
        lemma_four_centuries(1970 + 400 * ((q - 1) as int));
    }
}

/// The twelve months fill the year exactly.
pub proof fn lemma_months_fill_year(y: int)
    ensures
        days_before_month(y, 13) == if is_leap(y) {
            366int
        } else {
            365int
        },
{
    reveal_with_fuel(days_before_month, 13);
}

proof fn lemma_months_increase(y: int, a: int, b: int)
    requires
        1 <= a <= b,
    ensures
        days_before_month(y, a) <= days_before_month(y, b),
    decreases b - a,
{
    if a < b {
        lemma_months_increase(y, a, b - 1);
    }
}

proof fn lemma_years_increase(a: int, b: int)
    requires
        1 <= a < b,
    ensures
        days_before_year(a + 1) <= days_before_year(b),
    decreases b - a,
{
    if a + 1 < b {
        lemma_years_increase(a, b - 1);
        lemma_year_length(b - 1);
    }
}

/// The day of a valid date lies within its year.
proof fn lemma_day_in_year(dt: UtcDateTime)
    requires
        dt.valid(),
    ensures
        days_before_year(dt.year as int) <= days_from_civil(dt.year as int, dt.month as int, dt.day as int)
            < days_before_year(dt.year as int + 1),
{
    let y = dt.year as int;
    let m = dt.month as int;
    lemma_months_increase(y, 1, m);
    lemma_months_increase(y, m + 1, 13);
    lemma_months_fill_year(y);
    lemma_year_length(y);
}

proof fn lemma_split_unique(q1: int, r1: int, q2: int, r2: int, d: int)
    by (nonlinear_arith)
    requires
        d > 0,
        0 <= r1 < d,
        0 <= r2 < d,
        q1 * d + r1 == q2 * d + r2,
    ensures
        q1 == q2,
        r1 == r2,
{
}

/// Two valid dates and times with the same Unix time are the same: the
/// calendar breakdown of a timestamp is unique.
pub proof fn lemma_unix_seconds_unique(a: UtcDateTime, b: UtcDateTime)
    requires
        a.valid(),
        b.valid(),
        a.unix_seconds() == b.unix_seconds(),
    ensures
        a == b,
{
    let da = days_from_civil(a.year as int, a.month as int, a.day as int);
    let db = days_from_civil(b.year as int, b.month as int, b.day as int);
    let ta = a.hour * 3600 + a.minute * 60 + a.second;
    let tb = b.hour * 3600 + b.minute * 60 + b.second;
    lemma_split_unique(da, ta, db, tb, 86400);
    lemma_split_unique(a.hour as int, a.minute * 60 + a.second, b.hour as int, b.minute * 60 + b.second, 3600);
    lemma_split_unique(a.minute as int, a.second as int, b.minute as int, b.second as int, 60);
    lemma_day_in_year(a);
    lemma_day_in_year(b);
    if a.year < b.year {
        lemma_years_increase(a.year as int, b.year as int);
    } else if b.year < a.year {
        lemma_years_increase(b.year as int, a.year as int);
    }
    let y = a.year as int;
    if a.month < b.month {
        lemma_months_increase(y, a.month + 1, b.month as int);
    } else if b.month < a.month {
        lemma_months_increase(y, b.month + 1, a.month as int);
    }
}

/// The UTC date and time of a Unix timestamp.
pub fn utc_from_unix(secs: u64) -> (dt: UtcDateTime)
    ensures
        dt.valid(),
        dt.unix_seconds() == secs,
{
    let days = secs / 86400;
    let rem = secs % 86400;
    let cycles = days / 146097;
    let mut r = days % 146097;
    let ghost r0 = r;
    let mut year: u64 = 1970 + 400 * cycles;
    let ghost base = year;
    proof {
        lemma_cycles(cycles as nat);
    }
    loop
        invariant
            days_before_year(year as int) + r == days,
            base <= year <= base + (r0 - r),
            r <= r0 < 146097,
            base == 1970 + 400 * cycles,
            cycles <= 0xffff_ffff,
        ensures
            r < days_before_year(year as int + 1) - days_before_year(year as int),
        decreases r,
    {
        proof {
            lemma_year_length(year as int);
        }
        let len: u64 = if year % 4 == 0 && (year % 100 != 0 || year % 400 == 0) {
            366
        } else {
            365
        };
        if r < len {
            break;
        }
        r = r - len;
        year = year + 1;
    }
    proof {
        lemma_year_length(year as int);
        lemma_months_fill_year(year as int);
    }
    let ghost doy = r;
    let mut month: u8 = 1;
    loop
        invariant
            days_before_month(year as int, month as int) + r == doy,
            doy < days_before_month(year as int, 13),
            1 <= month <= 12,
        ensures
            r < month_length(year as int, month as int),
        decreases r,
    {
        let leap = year % 4 == 0 && (year % 100 != 0 || year % 400 == 0);
        let len: u64 = if month == 2 {
            if leap {
                29
            } else {
                28
            }
        } else if month == 4 || month == 6 || month == 9 || month == 11 {
            30
        } else {
            31
        };
        assert(len == month_length(year as int, month as int));
        if r < len {
            break;
        }
        proof {
            if month == 12 {
                assert(days_before_month(year as int, 13) == days_before_month(year as int, 12) + month_length(
                    year as int,
                    12,
                ));
            }
        }
        r = r - len;
        month = month + 1;
    }
    let dt = UtcDateTime {
        year,
        month,
        day: (r + 1) as u8,
        hour: (rem / 3600) as u8,
        minute: (rem % 3600 / 60) as u8,
        second: (rem % 60) as u8,
    };
    assert(days_from_civil(year as int, month as int, (r + 1) as int) == days);
    assert(dt.unix_seconds() == days * 86400 + rem);
    dt
}

fn append_two_digits(out: &mut String, n: u8)
    requires
        n < 100,
    ensures
        final(out)@ == old(out)@ + two_digits(n as int),
{
    let hi = digit_to_char(n / 10);
    let lo = digit_to_char(n % 10);
    let ghost start = out@;
    out.append(symbol_text(hi));
    out.append(symbol_text(lo));
    assert(out@ =~= start + two_digits(n as int));
}

/// The ISO 8601 text of a UTC date and time, `YYYY-MM-DDTHH:MM:SSZ`.
pub fn iso8601(dt: &UtcDateTime) -> (s: String)
    requires
        dt.valid(),
    ensures
        s@ == iso_text(*dt),
{
    let mut s = String::new();
    append_decimal(&mut s, dt.year);
    s.append("-");
    append_two_digits(&mut s, dt.month);
    s.append("-");
    append_two_digits(&mut s, dt.day);
    s.append("T");
    append_two_digits(&mut s, dt.hour);
    s.append(":");
    append_two_digits(&mut s, dt.minute);
    s.append(":");
    append_two_digits(&mut s, dt.second);
    s.append("Z");
    assert(s@ =~= iso_text(*dt));
    s
}

/// The ISO 8601 UTC timestamp of a Unix time in seconds: the text of the one
/// valid date and time with that Unix time (see `lemma_unix_seconds_unique`).
pub fn iso8601_from_unix(secs: u64) -> (s: String)
    ensures
        exists|dt: UtcDateTime| dt.valid() && dt.unix_seconds() == secs && s@ == iso_text(dt),
{
    let dt = utc_from_unix(secs);
    iso8601(&dt)
}

} // verus!
