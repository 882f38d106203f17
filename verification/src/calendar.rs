use vstd::prelude::*;
use vstd::arithmetic::div_mod::{lemma_fundamental_div_mod, lemma_fundamental_div_mod_converse};
use vstd::string::{StringExecFns, StringSliceAdditionalSpecFns};

use crate::text::{
    append_number, append_padded_number, count_sep, dec_digits, digits_value, find_sep, is_digits,
    lemma_digits_value_nonneg, lemma_sep_count_none, lemma_sep_count_nonneg, lemma_sep_count_skip1,
    lemma_sep_count_split, lemma_split_two, padded_digits, parse_digits, sep_count, split_on,
};

verus! {

// ---------------------------------------------------------------------------
// Mathematical model: proleptic Gregorian calendar, day counts relative to
// 1970-01-01, year zero valid (and a leap year).
// ---------------------------------------------------------------------------

/// Whether a year is a leap year: divisible by 4 and not by 100, or by 400.
pub open spec fn is_leap_spec(y: int) -> bool {
    (y % 4 == 0 && y % 100 != 0) || y % 400 == 0
}

/// The number of days of a year.
pub open spec fn year_len(y: int) -> int {
    if is_leap_spec(y) {
        366
    } else {
        365
    }
}

/// Days from 1970-01-01 to the first day of year `y` (negative for earlier
/// years).  This recursive sum of year lengths is the reference meaning of
/// every day count in this module.
pub open spec fn days_to_year(y: int) -> int
    decreases
            (if y >= 1970 {
                y - 1970
            } else {
                1970 - y
            }),
{
    if y == 1970 {
        0
    } else if y > 1970 {
        days_to_year(y - 1) + year_len(y - 1)
    } else {
        days_to_year(y + 1) - year_len(y)
    }
}

/// The number of days of month `m` (1 to 12) in a leap or common year.
pub open spec fn days_in_month_spec(m: int, leap: bool) -> int {
    if m == 2 {
        if leap {
            29
        } else {
            28
        }
    } else if m == 4 || m == 6 || m == 9 || m == 11 {
        30
    } else {
        31
    }
}

/// Days from the first day of the year to the first day of month `m`.
pub open spec fn month_prefix(m: int, leap: bool) -> int {
    let base = if m <= 1 {
        0int
    } else if m == 2 {
        31
    } else if m == 3 {
        59
    } else if m == 4 {
        90
    } else if m == 5 {
        120
    } else if m == 6 {
        151
    } else if m == 7 {
        181
    } else if m == 8 {
        212
    } else if m == 9 {
        243
    } else if m == 10 {
        273
    } else if m == 11 {
        304
    } else if m == 12 {
        334
    } else {
        365
    };
    base + if leap && m >= 3 {
        1int
    } else {
        0int
    }
}

/// The month prefixes chain through the month lengths, and a whole year is
/// the prefix past month 12.
pub proof fn lemma_month_prefix_step(m: int, leap: bool)
    requires
        1 <= m <= 12,
    ensures
        month_prefix(m + 1, leap) == month_prefix(m, leap) + days_in_month_spec(m, leap),
        month_prefix(13, leap) == if leap { 366int } else { 365int },
{
}

/// The leap-year correction terms of the closed-form day count.
pub open spec fn leap_terms(x: int) -> int {
    x / 4 - x / 100 + x / 400
}

/// For a positive divisor, the quotient steps up by one exactly at the
/// multiples of the divisor.
proof fn lemma_div_step(x: int, d: int)
    requires
        d > 0,
    ensures
        x / d == (x - 1) / d + (if x % d == 0 { 1int } else { 0int }),
{
    lemma_fundamental_div_mod(x - 1, d);
    let q = (x - 1) / d;
    let r = (x - 1) % d;
    if r == d - 1 {
        assert(x == (q + 1) * d + 0) by (nonlinear_arith)
            requires
                x - 1 == d * q + r,
                r == d - 1,
        ;
        lemma_fundamental_div_mod_converse(x, d, q + 1, 0);
    } else {
        assert(x == q * d + (r + 1)) by (nonlinear_arith)
            requires
                x - 1 == d * q + r,
        ;
        lemma_fundamental_div_mod_converse(x, d, q, r + 1);
    }
}

/// Divisibility by 400 implies divisibility by 100, and by 100 implies by 4.
proof fn lemma_divides_chain(x: int)
    ensures
        x % 400 == 0 ==> x % 100 == 0,
        x % 100 == 0 ==> x % 4 == 0,
{
    if x % 400 == 0 {
        lemma_fundamental_div_mod(x, 400);
        let q = x / 400;
        assert(x == 100 * (4 * q) + 0) by (nonlinear_arith)
            requires
                x == 400 * q,
        ;
        lemma_fundamental_div_mod_converse(x, 100, 4 * q, 0);
    }
    if x % 100 == 0 {
        lemma_fundamental_div_mod(x, 100);
        let q = x / 100;
        assert(x == 4 * (25 * q) + 0) by (nonlinear_arith)
            requires
                x == 100 * q,
        ;
        lemma_fundamental_div_mod_converse(x, 4, 25 * q, 0);
    }
}

/// Closed form of `days_to_year`: a linear term plus the leap corrections.
pub proof fn lemma_days_to_year_closed(y: int)
    ensures
        days_to_year(y) == 365 * (y - 1970) + leap_terms(y - 1) - 477,
    decreases
            (if y >= 1970 {
                y - 1970
            } else {
                1970 - y
            }),
{
    if y == 1970 {
        lemma_fundamental_div_mod_converse(1969, 4, 492, 1);
        lemma_fundamental_div_mod_converse(1969, 100, 19, 69);
        lemma_fundamental_div_mod_converse(1969, 400, 4, 369);
    } else if y > 1970 {
        lemma_days_to_year_closed(y - 1);
        lemma_div_step(y - 1, 4);
        lemma_div_step(y - 1, 100);
        lemma_div_step(y - 1, 400);
        lemma_divides_chain(y - 1);
    } else {
        lemma_days_to_year_closed(y + 1);
        lemma_div_step(y, 4);
        lemma_div_step(y, 100);
        lemma_div_step(y, 400);
        lemma_divides_chain(y);
    }
}

/// The day count to a year's first day is within 365 and 366 times the
/// number of years between it and 1970.
pub proof fn lemma_days_to_year_bounds(y: int)
    ensures
        y >= 1970 ==> 365 * (y - 1970) <= days_to_year(y) <= 366 * (y - 1970),
        y <= 1970 ==> 366 * (y - 1970) <= days_to_year(y) <= 365 * (y - 1970),
    decreases
            (if y >= 1970 {
                y - 1970
            } else {
                1970 - y
            }),
{
    if y > 1970 {
        lemma_days_to_year_bounds(y - 1);
    } else if y < 1970 {
        lemma_days_to_year_bounds(y + 1);
    }
}

/// A later year's first day has a strictly later day count; each year in
/// between contributes at least 365 days.
pub proof fn lemma_days_to_year_mono(y1: int, y2: int)
    requires
        y1 <= y2,
    ensures
        days_to_year(y1) + 365 * (y2 - y1) <= days_to_year(y2),
    decreases y2 - y1,
{
    if y1 < y2 {
        lemma_days_to_year_mono(y1, y2 - 1);
    }
}

// ---------------------------------------------------------------------------
// Executable arithmetic helpers.
// ---------------------------------------------------------------------------

/// Checks whether the year is leap year.
pub fn is_leap_year(year: i32) -> (r: bool)
    ensures
        r == is_leap_spec(year as int),
{
    let y: i64 = year as i64;
    let a: u64 = if y >= 0 {
        y as u64
    } else {
        (-y) as u64
    };
    proof {
        lemma_abs_divides(y as int, 4);
        lemma_abs_divides(y as int, 100);
        lemma_abs_divides(y as int, 400);
    }
    (a % 4 == 0 && a % 100 != 0) || (a % 400 == 0)
}

/// A number and its negation are divisible by the same positive divisors.
proof fn lemma_abs_divides(x: int, d: int)
    requires
        d > 0,
    ensures
        (x % d == 0) <==> ((-x) % d == 0),
{
    if x % d == 0 {
        lemma_fundamental_div_mod(x, d);
        let q = x / d;
        assert(-x == (-q) * d + 0) by (nonlinear_arith)
            requires
                x == d * q,
        ;
        lemma_fundamental_div_mod_converse(-x, d, -q, 0);
    }
    if (-x) % d == 0 {
        lemma_fundamental_div_mod(-x, d);
        let q = (-x) / d;
        assert(x == (-q) * d + 0) by (nonlinear_arith)
            requires
                -x == d * q,
        ;
        lemma_fundamental_div_mod_converse(x, d, -q, 0);
    }
}

/// The number of days of a year.
pub fn year_len_exec(year: i32) -> (r: i64)
    ensures
        r as int == year_len(year as int),
{
    if is_leap_year(year) {
        366
    } else {
        365
    }
}

/// The leap-year correction terms for a non-negative count of years.
pub fn number_leap_years(n: i32) -> (r: i32)
    requires
        n >= 0,
    ensures
        r as int == leap_terms(n as int),
{
    let m = n as u32;
    let q4 = m / 4;
    let q100 = m / 100;
    let q400 = m / 400;
    proof {
        lemma_fundamental_div_mod(m as int, 4);
        lemma_fundamental_div_mod(m as int, 100);
        lemma_fundamental_div_mod(m as int, 400);
    }
    (q4 - q100 + q400) as i32
}

/// Floor division by a positive divisor, also for negative dividends.
fn floor_div(x: i64, d: i64) -> (r: i64)
    requires
        0 < d <= 1_000_000,
        -1_000_000_000_000 <= x <= 1_000_000_000_000,
    ensures
        r as int == (x as int) / (d as int),
        d * r <= x < d * r + d,
{
    proof {
        lemma_fundamental_div_mod(x as int, d as int);
    }
    if x >= 0 {
        ((x as u64) / (d as u64)) as i64
    } else {
        let a = (-x) as u64;
        let du = d as u64;
        let q = (a + du - 1) / du;
        proof {
            lemma_fundamental_div_mod(a as int, d as int);
            let di = d as int;
            let qa = (a as int) / di;
            let ra = (a as int) % di;
            if ra == 0 {
                assert(a + di - 1 == qa * di + (di - 1)) by (nonlinear_arith)
                    requires
                        a as int == di * qa + ra,
                        ra == 0,
                ;
                lemma_fundamental_div_mod_converse(a as int + di - 1, di, qa, di - 1);
                assert(x as int == (-qa) * di + 0) by (nonlinear_arith)
                    requires
                        a as int == di * qa,
                        x as int == -(a as int),
                ;
                lemma_fundamental_div_mod_converse(x as int, di, -qa, 0);
            } else {
                assert(a + di - 1 == (qa + 1) * di + (ra - 1)) by (nonlinear_arith)
                    requires
                        a as int == di * qa + ra,
                ;
                lemma_fundamental_div_mod_converse(a as int + di - 1, di, qa + 1, ra - 1);
                assert(x as int == (-qa - 1) * di + (di - ra)) by (nonlinear_arith)
                    requires
                        a as int == di * qa + ra,
                        x as int == -(a as int),
                ;
                lemma_fundamental_div_mod_converse(x as int, di, -qa - 1, di - ra);
            }
        }
        -(q as i64)
    }
}

/// Days from 1970-01-01 to the first day of year `y`, by the closed form.
fn days_to_year_exec(y: i64) -> (r: i64)
    requires
        -6_000_000 <= y <= 6_000_000,
    ensures
        r as int == days_to_year(y as int),
        -2_200_000_000 <= r <= 2_200_000_000,
{
    proof {
        lemma_days_to_year_closed(y as int);
    }
    let f4 = floor_div(y - 1, 4);
    let f100 = floor_div(y - 1, 100);
    let f400 = floor_div(y - 1, 400);
    365 * (y - 1970) + f4 - f100 + f400 - 477
}

// ---------------------------------------------------------------------------
// The structured calendar date.
// ---------------------------------------------------------------------------

/// Why a date or date text was rejected.
#[derive(Clone, Copy, PartialEq, Eq, Structural, Debug)]
pub enum DateInvalid {
    Month,
    Day,
    Year,
    Format,
}

/// A calendar date: year (any sign, zero valid), month 1 to 12, day 1 to the
/// month's length.
#[derive(Clone, Copy, PartialEq, Eq, Structural, Debug)]
pub struct Ymd {
    pub year: i32,
    pub month: i8,
    pub day: i8,
}

/// Largest year magnitude for which the day count arithmetic stays inside
/// 32-bit range.
pub const YEAR_LIMIT: i32 = 5_000_000;

impl Ymd {
    /// A well-formed date: the month exists and the day fits the month in
    /// this year.
    pub open spec fn wf(&self) -> bool {
        &&& 1 <= self.month <= 12
        &&& 1 <= self.day <= days_in_month_spec(
            self.month as int,
            is_leap_spec(self.year as int),
        )
    }

    /// The day count of this date: days since 1970-01-01.
    pub open spec fn to_days_spec(&self) -> int {
        days_to_year(self.year as int) + month_prefix(
            self.month as int,
            is_leap_spec(self.year as int),
        ) + self.day - 1
    }

    /// Create a new Ymd object.  Accepts exactly the well-formed dates and
    /// names the first field that is out of range.
    pub fn new(year: i32, month: i8, day: i8) -> (r: Result<Ymd, DateInvalid>)
        ensures
            match r {
                Ok(d) => d == (Ymd { year, month, day }) && d.wf(),
                Err(e) => {
                    &&& !(Ymd { year, month, day }).wf()
                    &&& e == (if !(1 <= month <= 12) {
                        DateInvalid::Month
                    } else {
                        DateInvalid::Day
                    })
                },
            },
    {
        if !(1 <= month && month <= 12) {
            return Err(DateInvalid::Month);
        }
        if !(day >= 1 && day <= Self::days_in_month(month, year)) {
            return Err(DateInvalid::Day);
        }
        Ok(Ymd { year, month, day })
    }

    /// Counts the number of days since 1970-01-01.
    pub fn to_days(&self) -> (r: i32)
        requires
            self.wf(),
            -YEAR_LIMIT <= self.year <= YEAR_LIMIT,
        ensures
            r as int == self.to_days_spec(),
    {
        proof {
            lemma_days_to_year_bounds(self.year as int);
        }
        let dty: i64 = days_to_year_exec(self.year as i64);
        let leap: bool = is_leap_year(self.year);
        let mp: i32 = Self::month_prefix_exec(self.month, leap);
        (dty + mp as i64 + self.day as i64 - 1) as i32
    }

    /// Days from the first day of the year to the first day of the month.
    fn month_prefix_exec(month: i8, leap: bool) -> (r: i32)
        requires
            1 <= month <= 12,
        ensures
            r as int == month_prefix(month as int, leap),
            0 <= r <= 335,
    {
        let base: i32 = match month {
            1 => 0,
            2 => 31,
            3 => 59,
            4 => 90,
            5 => 120,
            6 => 151,
            7 => 181,
            8 => 212,
            9 => 243,
            10 => 273,
            11 => 304,
            _ => 334,
        };
        if leap && month >= 3 {
            base + 1
        } else {
            base
        }
    }

    /// Create a Ymd from the number of days since 1970-01-01.  Total over
    /// the host-representable day range; `None` outside it.
    pub fn from_days(n: i64) -> (r: Option<Ymd>)
        ensures
            r is Some <==> -100_000_000 <= n <= 100_000_000,
            match r {
                Some(d) => {
                    &&& d.wf()
                    &&& d.to_days_spec() == n
                    &&& -285_000 <= d.year <= 285_000
                },
                None => true,
            },
    {
        if n < -100_000_000 || n > 100_000_000 {
            return None;
        }
        let mut year: i64 = 1970;
        let mut rem: i64 = n;
        while rem < 0
            invariant
                days_to_year(year as int) + rem == n,
                -100_000_000 <= n <= 100_000_000,
                year <= 1970,
                1970 - 280_000 <= year,
            decreases
                    (if rem < 0 {
                        -rem
                    } else {
                        0int
                    }),
        {
            proof {
                lemma_days_to_year_bounds(year as int);
            }
            let len: i64 = year_len_exec((year - 1) as i32);
            year = year - 1;
            rem = rem + len;
        }
        while rem >= year_len_exec(year as i32)
            invariant
                days_to_year(year as int) + rem == n,
                -100_000_000 <= n <= 100_000_000,
                0 <= rem,
                1970 - 280_000 <= year <= 1970 + 280_000,
            decreases rem,
        {
            proof {
                lemma_days_to_year_bounds(year as int);
            }
            let len: i64 = year_len_exec(year as i32);
            year = year + 1;
            rem = rem - len;
        }
        let leap: bool = is_leap_year(year as i32);
        let mut m: i8 = 1;
        while m < 12 && rem >= Self::month_prefix_exec(m + 1, leap) as i64
            invariant
                1 <= m <= 12,
                month_prefix(m as int, leap) <= rem,
                days_to_year(year as int) + rem == n,
                0 <= rem < year_len(year as int),
                leap == is_leap_spec(year as int),
                1970 - 280_000 <= year <= 1970 + 280_000,
            decreases 12 - m,
        {
            m = m + 1;
        }
        proof {
            lemma_month_prefix_step(m as int, leap);
        }
        let day: i8 = (rem - Self::month_prefix_exec(m, leap) as i64 + 1) as i8;
        Some(Ymd { year: year as i32, month: m, day })
    }

    /// Returns the number of days in a month, zero for a month that does not
    /// exist.
    pub fn days_in_month(month: i8, year: i32) -> (r: i8)
        ensures
            1 <= month <= 12 ==> r as int == days_in_month_spec(
                month as int,
                is_leap_spec(year as int),
            ),
            !(1 <= month <= 12) ==> r == 0,
    {
        match month {
            1 | 3 | 5 | 7 | 8 | 10 | 12 => 31,
            4 | 6 | 9 | 11 => 30,
            2 => {
                if is_leap_year(year) {
                    29
                } else {
                    28
                }
            },
            _ => 0,
        }
    }
}

// ---------------------------------------------------------------------------
// The host-facing date wrapper and its text forms.
// ---------------------------------------------------------------------------

/// Day counts inside this range are representable by the host's native date.
pub const MAX_JS_DATE: i32 = 100_000_000;

/// Appends a single minus/dash character.
fn append_dash(s: &mut String)
    ensures
        final (s)@ == old(s)@ + seq!['-'],
{
    proof {
        reveal_strlit("-");
    }
    s.append("-");
    proof {
        assert(final (s)@ =~= old(s)@ + seq!['-']);
    }
}

/// The canonical text of a date: `[-]YYYY-MM-DD`, the year zero-padded to at
/// least four digits, the sign present only for negative years.
pub open spec fn date_text_spec(d: Ymd) -> Seq<char> {
    let a = if d.year < 0 {
        -(d.year as int)
    } else {
        d.year as int
    };
    (if d.year < 0 {
        seq!['-']
    } else {
        Seq::<char>::empty()
    }) + padded_digits(a, 4) + seq!['-'] + padded_digits(d.month as int, 2) + seq!['-']
        + padded_digits(d.day as int, 2)
}

/// The text of a signed day count.
pub open spec fn int_text_spec(v: int) -> Seq<char> {
    if v < 0 {
        seq!['-'] + dec_digits(-v)
    } else {
        dec_digits(v)
    }
}

/// A date in both of its host representations: the day count since
/// 1970-01-01, and, when the count was derived from or converts to a
/// structured date, the year-month-day form.  `in_date` says whether the day
/// count fits the host's native date range.
pub struct LocalDateWrapper {
    /// Number of days since 1970-01-01.
    pub value: i32,
    pub date: Option<Ymd>,
    /// Whether `value` is representable as the host's native date.
    pub in_date: bool,
}

impl LocalDateWrapper {
    /// The two representations agree and the range flag is truthful.
    pub open spec fn wf(&self) -> bool {
        &&& match self.date {
            Some(d) => d.wf() && d.to_days_spec() == self.value as int && -YEAR_LIMIT
                <= d.year <= YEAR_LIMIT,
            None => true,
        }
        &&& self.in_date == (-MAX_JS_DATE <= self.value <= MAX_JS_DATE)
    }

    /// Create a new object from the day, month and year.
    pub fn new(day: i8, month: i8, year: i32) -> (r: Result<LocalDateWrapper, DateInvalid>)
        ensures
            match r {
                Ok(w) => {
                    &&& (Ymd { year, month, day }).wf()
                    &&& -YEAR_LIMIT <= year <= YEAR_LIMIT
                    &&& w.wf()
                    &&& w.date == Some(Ymd { year, month, day })
                    &&& w.value as int == (Ymd { year, month, day }).to_days_spec()
                },
                Err(e) => {
                    &&& !((Ymd { year, month, day }).wf() && -YEAR_LIMIT <= year <= YEAR_LIMIT)
                    &&& e == (if !(1 <= month <= 12) {
                        DateInvalid::Month
                    } else if !(Ymd { year, month, day }).wf() {
                        DateInvalid::Day
                    } else {
                        DateInvalid::Year
                    })
                },
            },
    {
        let date = match Ymd::new(year, month, day) {
            Ok(d) => d,
            Err(e) => {
                return Err(e);
            },
        };
        if year < -YEAR_LIMIT || year > YEAR_LIMIT {
            return Err(DateInvalid::Year);
        }
        let value = date.to_days();
        Ok(
            LocalDateWrapper {
                value,
                date: Some(date),
                in_date: -MAX_JS_DATE <= value && value <= MAX_JS_DATE,
            },
        )
    }

    /// Create a new object from a number of days since 1970-01-01.  The
    /// structured form is present exactly when the count is inside the
    /// host-representable range.
    pub fn new_day(value: i32) -> (r: LocalDateWrapper)
        ensures
            r.wf(),
            r.value == value,
            r.date is Some <==> -MAX_JS_DATE <= value <= MAX_JS_DATE,
            r.in_date == (-MAX_JS_DATE <= value <= MAX_JS_DATE),
    {
        let date = Ymd::from_days(value as i64);
        LocalDateWrapper { value, date, in_date: -MAX_JS_DATE <= value && value <= MAX_JS_DATE }
    }

    /// The structured year-month-day form, when the day count has one.
    pub fn get_date(&self) -> (r: Option<Ymd>)
        ensures
            r == self.date,
    {
        self.date
    }

    /// The driver's date value: the day count rebased so that the epoch sits
    /// at the middle of the unsigned range.
    pub fn get_cql_date(&self) -> (r: scylla::value::CqlDate)
        ensures
            r.0 as int == self.value as int + 2_147_483_648,
    {
        scylla::value::CqlDate((2_147_483_648i64 + self.value as i64) as u32)
    }

    /// Builds the wrapper back from the driver's rebased date value.
    pub fn from_cql_date(date: scylla::value::CqlDate) -> (r: LocalDateWrapper)
        ensures
            r.wf(),
            r.value as int == date.0 as int - 2_147_483_648,
            r.date is Some <==> -MAX_JS_DATE <= date.0 as int - 2_147_483_648 <= MAX_JS_DATE,
    {
        let value = (date.0 as i64 - 2_147_483_648) as i32;
        Self::new_day(value)
    }

    /// The text of this date: the structured form when present, otherwise
    /// the bare day count.
    pub open spec fn to_format_spec(&self) -> Seq<char> {
        match self.date {
            Some(d) => date_text_spec(d),
            None => int_text_spec(self.value as int),
        }
    }

    /// Formats the date as text.
    pub fn to_format(&self) -> (r: String)
        requires
            self.wf(),
        ensures
            r@ == self.to_format_spec(),
    {
        let mut s = String::new();
        match &self.date {
            Some(d) => {
                let y: i64 = d.year as i64;
                if y < 0 {
                    append_dash(&mut s);
                }
                let a: u64 = if y < 0 {
                    (-y) as u64
                } else {
                    y as u64
                };
                append_padded_number(&mut s, a, 4);
                append_dash(&mut s);
                append_padded_number(&mut s, d.month as u64, 2);
                append_dash(&mut s);
                append_padded_number(&mut s, d.day as u64, 2);
                proof {
                    assert(s@ =~= self.to_format_spec());
                }
            },
            None => {
                let v: i64 = self.value as i64;
                if v < 0 {
                    append_dash(&mut s);
                    append_number(&mut s, (-v) as u64);
                    proof {
                        assert(s@ =~= self.to_format_spec());
                    }
                } else {
                    append_number(&mut s, v as u64);
                }
            },
        }
        s
    }

    /// Returns the number of days since 1970-01-01 written in the text,
    /// which is either a bare day count or a `[-]Y-M-D` date.
    #[verifier::rlimit(60)]
    pub fn from_string(value: &str) -> (r: Result<i32, DateInvalid>)
        ensures
            match r {
                Ok(v) => date_from_string_spec(value.spec_bytes()) == Ok::<int, DateInvalid>(
                    v as int,
                ),
                Err(e) => date_from_string_spec(value.spec_bytes()) == Err::<int, DateInvalid>(e),
            },
    {
        let b = value.as_bytes();
        let ghost s = value.spec_bytes();
        let n = b.len();
        let c = count_sep(b, 45);
        let negative = n >= 1 && b[0] == 45;
        if c < 2 {
            let plus = n >= 1 && b[0] == 43;
            let start: usize = if negative || plus {
                1
            } else {
                0
            };
            let cap: u64 = if negative {
                2_147_483_648
            } else {
                2_147_483_647
            };
            proof {
                if start == 1 {
                    assert(s.subrange(1, n as int) =~= s.skip(1));
                } else {
                    assert(s.subrange(0, n as int) =~= s);
                }
            }
            match parse_digits(b, start, n, cap) {
                Some(v) => {
                    proof {
                        lemma_digits_value_nonneg(s.subrange(start as int, n as int));
                    }
                    if negative {
                        Ok((-(v as i64)) as i32)
                    } else {
                        Ok(v as i32)
                    }
                },
                None => {
                    proof {
                        if int_literal_ok(s) && -2_147_483_648 <= int_literal_value(s)
                            <= 2_147_483_647 {
                            if s[0] == 45 || s[0] == 43 {
                                lemma_digits_value_nonneg(s.skip(1));
                            } else {
                                lemma_digits_value_nonneg(s);
                            }
                        }
                    }
                    Err(DateInvalid::Format)
                },
            }
        } else if c <= 3 {
            let ghost body = if negative {
                s.skip(1)
            } else {
                s
            };
            let start: usize = if negative {
                1
            } else {
                0
            };
            proof {
                if negative {
                    lemma_sep_count_skip1(s, 45);
                }
                crate::text::lemma_split_on_len(body, 45);
            }
            if (negative && c != 3) || (!negative && c != 2) {
                return Err(DateInvalid::Format);
            }
            // The body holds exactly two separators; locate them.
            let d1 = find_sep(b, start, 45);
            proof {
                if d1 == n {
                    assert forall|k: int| 0 <= k < body.len() implies #[trigger] body[k]
                        != 45 by {
                        assert(body[k] == s[k + start]);
                    }
                    lemma_sep_count_none(body, 45);
                }
            }
            let d2 = find_sep(b, d1 + 1, 45);
            proof {
                if d1 < n && d2 == n {
                    assert(body[d1 - start] == 45);
                    lemma_sep_count_split(body, 45, d1 - start as int);
                    assert forall|k: int| 0 <= k < d1 - start implies #[trigger] body.take(
                        d1 - start as int,
                    )[k] != 45 by {
                        assert(body.take(d1 - start as int)[k] == s[k + start]);
                    }
                    lemma_sep_count_none(body.take(d1 - start as int), 45);
                    assert forall|k: int|
                        0 <= k < body.skip(d1 - start as int + 1).len() implies #[trigger] body.skip(
                        d1 - start as int + 1,
                    )[k] != 45 by {
                        assert(body.skip(d1 - start as int + 1)[k] == s[k + d1 + 1]);
                    }
                    lemma_sep_count_none(body.skip(d1 - start as int + 1), 45);
                }
            }
            let d3 = find_sep(b, d2 + 1, 45);
            proof {
                if d2 < n && d3 < n {
                    assert(body[d1 - start] == 45);
                    assert(body[d2 - start] == 45);
                    assert(body[d3 - start] == 45);
                    lemma_sep_count_split(body, 45, d3 - start as int);
                    lemma_sep_count_split(body.take(d3 - start as int), 45, d2 - start as int);
                    assert(body.take(d3 - start as int)[d2 - start] == 45);
                    assert(body.take(d3 - start as int).take(d2 - start as int)[d1 - start] == 45);
                    lemma_sep_count_split(
                        body.take(d3 - start as int).take(d2 - start as int),
                        45,
                        d1 - start as int,
                    );
                    lemma_sep_count_nonneg(
                        body.take(d3 - start as int).take(d2 - start as int).take(
                            d1 - start as int,
                        ),
                        45,
                    );
                    lemma_sep_count_nonneg(
                        body.take(d3 - start as int).take(d2 - start as int).skip(
                            d1 - start as int + 1,
                        ),
                        45,
                    );
                    lemma_sep_count_nonneg(body.take(d3 - start as int).skip(d2 - start as int + 1), 45);
                    lemma_sep_count_nonneg(body.skip(d3 - start as int + 1), 45);
                }
            }
            if d1 >= n || d2 >= n || d3 < n {
                return Err(DateInvalid::Format);
            }
            proof {
                assert forall|k: int|
                    0 <= k < body.len() && #[trigger] body[k] == 45 implies k == d1 - start || k
                    == d2 - start by {
                    assert(body[k] == s[k + start]);
                }
                lemma_split_two(body, 45, d1 - start as int, d2 - start as int);
                assert(body.subrange(0, d1 - start as int) =~= s.subrange(start as int, d1 as int));
                assert(body.subrange(d1 - start as int + 1, d2 - start as int) =~= s.subrange(
                    d1 as int + 1,
                    d2 as int,
                ));
                assert(body.subrange(d2 - start as int + 1, body.len() as int) =~= s.subrange(
                    d2 as int + 1,
                    n as int,
                ));
            }
            let yv = match parse_digits(b, start, d1, 2_147_483_647) {
                Some(v) => v,
                None => {
                    return Err(DateInvalid::Format);
                },
            };
            if d2 - (d1 + 1) < 1 || d2 - (d1 + 1) > 2 {
                return Err(DateInvalid::Format);
            }
            let mv = match parse_digits(b, d1 + 1, d2, 99) {
                Some(v) => v,
                None => {
                    return Err(DateInvalid::Format);
                },
            };
            if n - (d2 + 1) < 1 || n - (d2 + 1) > 2 {
                return Err(DateInvalid::Format);
            }
            let dv = match parse_digits(b, d2 + 1, n, 99) {
                Some(v) => v,
                None => {
                    return Err(DateInvalid::Format);
                },
            };
            if mv < 1 || mv > 12 || dv < 1 || dv > 31 {
                return Err(DateInvalid::Format);
            }
            let year: i64 = if negative {
                -(yv as i64)
            } else {
                yv as i64
            };
            let date = match Ymd::new(year as i32, mv as i8, dv as i8) {
                Ok(d) => d,
                Err(_) => {
                    return Err(DateInvalid::Day);
                },
            };
            if year < -(YEAR_LIMIT as i64) || year > YEAR_LIMIT as i64 {
                return Err(DateInvalid::Year);
            }
            Ok(date.to_days())
        } else {
            Err(DateInvalid::Format)
        }
    }
}

/// Whether the text is an optionally signed run of decimal digits.
pub open spec fn int_literal_ok(s: Seq<u8>) -> bool {
    ||| (s.len() >= 1 && is_digits(s))
    ||| (s.len() >= 2 && (s[0] == 43 || s[0] == 45) && is_digits(s.skip(1)))
}

/// The number written by an optionally signed run of decimal digits.
pub open spec fn int_literal_value(s: Seq<u8>) -> int {
    if s.len() >= 1 && s[0] == 45 {
        -digits_value(s.skip(1))
    } else if s.len() >= 1 && s[0] == 43 {
        digits_value(s.skip(1))
    } else {
        digits_value(s)
    }
}

/// What the date-text parser returns for any input: a bare day count for
/// text with fewer than two dashes, a day count computed from a strictly
/// patterned `[-]Y-M-D` literal, and otherwise the first applicable error:
/// malformed text, a day that does not exist in its month, or a year too
/// large for day-count arithmetic.
pub open spec fn date_from_string_spec(s: Seq<u8>) -> Result<int, DateInvalid> {
    let c = sep_count(s, 45);
    if c < 2 {
        if int_literal_ok(s) && -2_147_483_648 <= int_literal_value(s) <= 2_147_483_647 {
            Ok(int_literal_value(s))
        } else {
            Err(DateInvalid::Format)
        }
    } else if c <= 3 {
        let neg = s.len() >= 1 && s[0] == 45;
        let body = if neg {
            s.skip(1)
        } else {
            s
        };
        let parts = split_on(body, 45);
        if parts.len() != 3 {
            Err(DateInvalid::Format)
        } else {
            let ys = parts[0];
            let ms = parts[1];
            let ds = parts[2];
            if !(ys.len() >= 1 && is_digits(ys) && 1 <= ms.len() <= 2 && is_digits(ms) && 1
                <= ds.len() <= 2 && is_digits(ds)) {
                Err(DateInvalid::Format)
            } else if digits_value(ys) > 2_147_483_647 {
                Err(DateInvalid::Format)
            } else {
                let m = digits_value(ms);
                let d = digits_value(ds);
                if !(1 <= m <= 12 && 1 <= d <= 31) {
                    Err(DateInvalid::Format)
                } else {
                    let y = if neg {
                        -digits_value(ys)
                    } else {
                        digits_value(ys)
                    };
                    if d > days_in_month_spec(m, is_leap_spec(y)) {
                        Err(DateInvalid::Day)
                    } else if !(-YEAR_LIMIT <= y <= YEAR_LIMIT) {
                        Err(DateInvalid::Year)
                    } else {
                        Ok(
                            days_to_year(y) + month_prefix(m, is_leap_spec(y)) + d - 1,
                        )
                    }
                }
            }
        }
    } else {
        Err(DateInvalid::Format)
    }
}

// ---------------------------------------------------------------------------
// Round-trip laws of the day-count conversion.
// ---------------------------------------------------------------------------

/// A date's day count stays inside its year: at least the year's first day,
/// and before the next year's first day.
pub proof fn lemma_to_days_in_year(d: Ymd)
    requires
        d.wf(),
    ensures
        days_to_year(d.year as int) <= d.to_days_spec() < days_to_year(d.year as int) + year_len(
            d.year as int,
        ),
{
    lemma_month_prefix_step(d.month as int, is_leap_spec(d.year as int));
}

/// Two well-formed dates with the same day count are the same date, so
/// converting a date to its day count and back returns the same date: the
/// day-count conversion is injective on well-formed dates.
pub proof fn lemma_to_days_injective(a: Ymd, b: Ymd)
    requires
        a.wf(),
        b.wf(),
        a.to_days_spec() == b.to_days_spec(),
    ensures
        a == b,
{
    lemma_to_days_in_year(a);
    lemma_to_days_in_year(b);
    if a.year < b.year {
        lemma_days_to_year_mono(a.year as int + 1, b.year as int);
    } else if b.year < a.year {
        lemma_days_to_year_mono(b.year as int + 1, a.year as int);
    }
    assert(a.year == b.year);
    let leap = is_leap_spec(a.year as int);
    if a.month < b.month {
        lemma_month_prefix_step(a.month as int, leap);
        assert(month_prefix(a.month as int + 1, leap) <= month_prefix(b.month as int, leap));
    } else if b.month < a.month {
        lemma_month_prefix_step(b.month as int, leap);
        assert(month_prefix(b.month as int + 1, leap) <= month_prefix(a.month as int, leap));
    }
}

/// For every well-formed date within a hundred-thousand years of the epoch,
/// the day count is host-representable, and the date is the only well-formed
/// date with that day count: `from_days(to_days(d))` returns exactly `d`.
pub proof fn lemma_date_round_trip(d: Ymd)
    requires
        d.wf(),
        -100_000 <= d.year <= 100_000,
    ensures
        -100_000_000 <= d.to_days_spec() <= 100_000_000,
        forall|e: Ymd| e.wf() && e.to_days_spec() == d.to_days_spec() ==> e == d,
{
    lemma_days_to_year_bounds(d.year as int);
    lemma_to_days_in_year(d);
    assert forall|e: Ymd| e.wf() && e.to_days_spec() == d.to_days_spec() implies e == d by {
        lemma_to_days_injective(e, d);
    }
}

} // verus!

