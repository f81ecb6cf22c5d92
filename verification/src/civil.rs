//! Civil (wall-clock) dates and times, with the proleptic Gregorian
//! calendar rules: leap years, month lengths, day stepping and weekdays.
//! A `CivilTime` names what a user reads on a calendar and a clock; which
//! instant it denotes under a time zone is decided elsewhere.

use vstd::arithmetic::div_mod::{
    lemma_fundamental_div_mod, lemma_fundamental_div_mod_converse,
    lemma_mod_division_less_than_divisor, lemma_mod_multiples_vanish,
};
use vstd::prelude::*;

verus! {

/// A calendar date with a time of day, free of any time zone.
#[derive(Clone, Copy, Debug, PartialEq, Eq, Structural)]
pub struct CivilTime {
    pub year: i64,
    pub month: u8,
    pub day: u8,
    pub hour: u8,
    pub minute: u8,
    pub second: u8,
}

pub open spec fn is_leap_year(y: int) -> bool {
    y % 4 == 0 && (y % 100 != 0 || y % 400 == 0)
}

pub open spec fn days_in_month(y: int, m: int) -> int {
    if m == 2 {
        if is_leap_year(y) {
            29
        } else {
            28
        }
    } else if m == 4 || m == 6 || m == 9 || m == 11 {
        30
    } else {
        31
    }
}

/// The years this library works in: the range jiff's civil calendar
/// accepts, cut below 1 so that all day arithmetic stays non-negative.
pub open spec fn valid_date(y: int, m: int, d: int) -> bool {
    1 <= y <= 9999 && 1 <= m <= 12 && 1 <= d <= days_in_month(y, m)
}

impl CivilTime {
    /// The month and day fit the calendar and the clock fields are in
    /// range; the year is unconstrained (used for stepping past the cap).
    pub open spec fn date_in_range(self) -> bool {
        &&& 1 <= self.month <= 12
        &&& 1 <= self.day <= days_in_month(self.year as int, self.month as int)
        &&& self.hour <= 23
        &&& self.minute <= 59
        &&& self.second <= 59
    }

    pub open spec fn wf(self) -> bool {
        &&& self.date_in_range()
        &&& 1 <= self.year <= 9999
    }
}

/// The next calendar day, keeping the time of day. Steps past the year
/// cap (into year 10000) so that callers can detect the overflow.
pub open spec fn next_day(c: CivilTime) -> CivilTime {
    if (c.day as int) < days_in_month(c.year as int, c.month as int) {
        CivilTime { day: (c.day + 1) as u8, ..c }
    } else if c.month < 12 {
        CivilTime { month: (c.month + 1) as u8, day: 1, ..c }
    } else {
        CivilTime { year: (c.year + 1) as i64, month: 1, day: 1, ..c }
    }
}

pub open spec fn plus_days(c: CivilTime, k: nat) -> CivilTime
    decreases k,
{
    if k == 0 {
        c
    } else {
        plus_days(next_day(c), (k - 1) as nat)
    }
}

/// The leap-day correction term of the weekday congruence.
pub open spec fn year_term(y: int) -> int {
    y + y / 4 - y / 100 + y / 400
}

/// Month offsets of the weekday congruence, calibrated so that
/// `weekday_of` yields 0 for Monday.
pub open spec fn month_term(m: int) -> int {
    if m == 1 {
        0
    } else if m == 2 {
        3
    } else if m == 3 {
        2
    } else if m == 4 {
        5
    } else if m == 5 {
        0
    } else if m == 6 {
        3
    } else if m == 7 {
        5
    } else if m == 8 {
        1
    } else if m == 9 {
        4
    } else if m == 10 {
        6
    } else if m == 11 {
        2
    } else {
        4
    }
}

/// The weekday of a date, 0 = Monday .. 6 = Sunday.
pub open spec fn weekday_of_ymd(y: int, m: int, d: int) -> int {
    (year_term(if m < 3 { y - 1 } else { y }) + month_term(m) + d + 6) % 7
}

pub open spec fn weekday_of(c: CivilTime) -> int {
    weekday_of_ymd(c.year as int, c.month as int, c.day as int)
}

/// How the quotient by a positive constant moves when the dividend
/// steps down by one: it drops exactly at the multiples.
proof fn lemma_div_step(y: int, k: int)
    requires
        k >= 1,
    ensures
        y / k - (y - 1) / k == if y % k == 0 { 1int } else { 0int },
{
    lemma_fundamental_div_mod(y, k);
    lemma_mod_division_less_than_divisor(y, k);
    if y % k == 0 {
        assert(y - 1 == (y / k - 1) * k + (k - 1)) by (nonlinear_arith)
            requires
                y == k * (y / k),
                k >= 1,
        ;
        lemma_fundamental_div_mod_converse(y - 1, k, y / k - 1, k - 1);
    } else {
        assert(y - 1 == (y / k) * k + (y % k - 1)) by (nonlinear_arith)
            requires
                y == k * (y / k) + y % k,
                k >= 1,
        ;
        lemma_fundamental_div_mod_converse(y - 1, k, y / k, y % k - 1);
    }
}

/// Stepping the year adds one to the correction term, or two in a leap
/// year: the congruence sees exactly the inserted leap day.
proof fn lemma_year_term_step(y: int)
    ensures
        year_term(y) - year_term(y - 1) == if is_leap_year(y) { 2int } else { 1int },
{
    lemma_div_step(y, 4);
    lemma_div_step(y, 100);
    lemma_div_step(y, 400);
    lemma_mod_division_less_than_divisor(y, 4);
    lemma_mod_division_less_than_divisor(y, 100);
    lemma_mod_division_less_than_divisor(y, 400);
    if y % 100 == 0 {
        lemma_fundamental_div_mod(y, 100);
        lemma_fundamental_div_mod_converse(y, 4, 25 * (y / 100), 0);
    }
    if y % 400 == 0 {
        lemma_fundamental_div_mod(y, 400);
        lemma_fundamental_div_mod_converse(y, 100, 4 * (y / 400), 0);
    }
}

/// Mod-7 arithmetic: adding one inside or outside the remainder agrees.
proof fn lemma_mod7_shift(s: int, t: int)
    requires
        (t - s) % 7 == 1,
    ensures
        t % 7 == (s % 7 + 1) % 7,
{
    lemma_fundamental_div_mod(s, 7);
    lemma_fundamental_div_mod(t - s, 7);
    lemma_mod_division_less_than_divisor(s, 7);
    assert(t == 7 * (s / 7 + (t - s) / 7) + (s % 7 + 1)) by (nonlinear_arith)
        requires
            s == 7 * (s / 7) + s % 7,
            t - s == 7 * ((t - s) / 7) + 1,
    ;
    lemma_mod_multiples_vanish(s / 7 + (t - s) / 7, s % 7 + 1, 7);
}

/// Stepping one calendar day advances the weekday by one, cyclically.
pub proof fn lemma_weekday_next_day(c: CivilTime)
    requires
        c.date_in_range(),
        1 <= c.year <= 30000,
    ensures
        weekday_of(next_day(c)) == (weekday_of(c) + 1) % 7,
{
    let y = c.year as int;
    let m = c.month as int;
    let d = c.day as int;
    let n = next_day(c);
    let s = year_term(if m < 3 { y - 1 } else { y }) + month_term(m) + d + 6;
    let t = year_term(if n.month < 3 { n.year - 1 } else { n.year as int }) + month_term(
        n.month as int,
    ) + n.day + 6;
    if m == 2 && d == days_in_month(y, 2) {
        lemma_year_term_step(y);
    }
    assert((t - s) % 7 == 1);
    lemma_mod7_shift(s, t);
}

pub proof fn lemma_weekday_plus_days(c: CivilTime, k: nat)
    requires
        c.date_in_range(),
        1 <= c.year,
        c.year + k <= 30000,
        plus_days(c, k).date_in_range(),
    ensures
        weekday_of(plus_days(c, k)) == (weekday_of(c) + k) % 7,
    decreases k,
{
    lemma_mod_division_less_than_divisor(weekday_of(c) + k, 7);
    if k == 0 {
        lemma_fundamental_div_mod(weekday_of(c), 7);
        lemma_mod_division_less_than_divisor(year_term(
            if c.month < 3 { c.year - 1 } else { c.year as int },
        ) + month_term(c.month as int) + c.day + 6, 7);
        lemma_fundamental_div_mod_converse(
            weekday_of(c) + 0,
            7,
            0,
            weekday_of(c),
        );
    } else {
        lemma_weekday_next_day(c);
        assert(next_day(c).date_in_range());
        assert(next_day(c).year >= 1);
        lemma_weekday_plus_days(next_day(c), (k - 1) as nat);
        let w = weekday_of(c);
        lemma_mod_division_less_than_divisor(w + 1, 7);
        lemma_fundamental_div_mod((w + 1) % 7, 7);
        lemma_fundamental_div_mod(w + 1, 7);
        assert(weekday_of(plus_days(c, k)) == ((w + 1) % 7 + (k - 1)) % 7);
        assert(w + k == 7 * ((w + 1) / 7) + ((w + 1) % 7 + (k - 1)));
        lemma_mod_multiples_vanish((w + 1) / 7, (w + 1) % 7 + (k - 1), 7);
    }
}

/// Appending one day to a run of day steps is the same as stepping once
/// at the end.
pub proof fn lemma_plus_days_snoc(c: CivilTime, k: nat)
    ensures
        plus_days(c, k + 1) == next_day(plus_days(c, k)),
    decreases k,
{
    if k == 0 {
        assert(plus_days(next_day(c), 0) == next_day(c));
    } else {
        lemma_plus_days_snoc(next_day(c), (k - 1) as nat);
    }
}

pub fn leap_year(y: i64) -> (r: bool)
    requires
        y >= 0,
    ensures
        r == is_leap_year(y as int),
{
    y % 4 == 0 && (y % 100 != 0 || y % 400 == 0)
}

pub fn days_in_month_of(y: i64, m: u8) -> (r: u8)
    requires
        y >= 0,
        1 <= m <= 12,
    ensures
        r == days_in_month(y as int, m as int),
{
    if m == 2 {
        if leap_year(y) {
            29
        } else {
            28
        }
    } else if m == 4 || m == 6 || m == 9 || m == 11 {
        30
    } else {
        31
    }
}

fn month_term_of(m: u8) -> (r: u8)
    requires
        1 <= m <= 12,
    ensures
        r == month_term(m as int),
{
    match m {
        1 => 0,
        2 => 3,
        3 => 2,
        4 => 5,
        5 => 0,
        6 => 3,
        7 => 5,
        8 => 1,
        9 => 4,
        10 => 6,
        11 => 2,
        _ => 4,
    }
}

pub fn weekday_of_civil(c: &CivilTime) -> (r: u8)
    requires
        c.wf(),
    ensures
        r == weekday_of(*c),
        r <= 6,
{
    let yp: u64 = (if c.month < 3 {
        c.year - 1
    } else {
        c.year
    }) as u64;
    let mt = month_term_of(c.month);
    let s: u64 = yp + yp / 4 - yp / 100 + yp / 400 + (mt as u64) + (c.day as u64) + 6;
    (s % 7) as u8
}

pub fn next_day_of(c: &CivilTime) -> (r: CivilTime)
    requires
        c.date_in_range(),
        1 <= c.year <= 30000,
    ensures
        r == next_day(*c),
{
    if c.day < days_in_month_of(c.year, c.month) {
        CivilTime { day: c.day + 1, ..*c }
    } else if c.month < 12 {
        CivilTime { month: c.month + 1, day: 1, ..*c }
    } else {
        CivilTime { year: c.year + 1, month: 1, day: 1, ..*c }
    }
}

pub fn plus_days_of(c: &CivilTime, k: u8) -> (r: CivilTime)
    requires
        c.wf(),
        k <= 7,
    ensures
        r == plus_days(*c, k as nat),
        r.date_in_range(),
        c.year <= r.year <= c.year + k,
{
    let mut cur = *c;
    let mut i: u8 = 0;
    while i < k
        invariant
            i <= k,
            k <= 7,
            c.wf(),
            cur == plus_days(*c, i as nat),
            cur.date_in_range(),
            c.year <= cur.year <= c.year + i,
        decreases k - i,
    {
        proof {
            lemma_plus_days_snoc(*c, i as nat);
        }
        cur = next_day_of(&cur);
        i = i + 1;
    }
    cur
}

} // verus!
