//! The command grammar: a command is a `$`, a keyword, and arguments; a
//! time expression is a space-separated run of modifiers, where each
//! modifier is a duration run, a month count, a clock time, a date, a
//! weekday name, or a parenthesised branch of alternatives. The grammar
//! is specified by spec functions over the character sequence, and the
//! parser is proved to return exactly what they describe.

use crate::time::{apply_seq, mod_chain, TimeModifier, Timestamp};
use crate::store::TimeFormat;
use vstd::prelude::*;

verus! {

/// Why a command was rejected, with the position (in characters) of the
/// offending token.
#[derive(Debug, Clone, Copy, PartialEq, Eq)]
pub enum ParseTimeError {
    /// The text does not fit the grammar at this position.
    Syntax { position: usize },
    /// A run of digits at this position names a number too large to use.
    Number { position: usize },
    /// The time expression parsed, but a candidate time could not be
    /// computed on the calendar.
    Calendar,
}

pub open spec fn is_digit(c: char) -> bool {
    48 <= c as u32 <= 57
}

pub open spec fn digit_val(c: char) -> nat {
    (c as u32 - 48) as nat
}

/// The first position at or after `i` that does not hold a digit.
pub open spec fn digit_end(s: Seq<char>, i: int) -> int
    recommends
        0 <= i <= s.len(),
    decreases s.len() - i,
{
    if i < s.len() && is_digit(s[i]) {
        digit_end(s, i + 1)
    } else {
        i
    }
}

pub proof fn lemma_digit_end(s: Seq<char>, i: int)
    requires
        0 <= i <= s.len(),
    ensures
        i <= digit_end(s, i) <= s.len(),
        forall|j: int| i <= j < digit_end(s, i) ==> is_digit(s[j]),
        digit_end(s, i) < s.len() ==> !is_digit(s[digit_end(s, i)]),
    decreases s.len() - i,
{
    if i < s.len() && is_digit(s[i]) {
        lemma_digit_end(s, i + 1);
    }
}

/// The number the digits `s[i..e)` write in decimal.
pub open spec fn digits_val(s: Seq<char>, i: int, e: int) -> nat
    recommends
        0 <= i <= e <= s.len(),
    decreases e - i,
{
    if i >= e {
        0
    } else {
        digits_val(s, i, e - 1) * 10 + digit_val(s[e - 1])
    }
}

proof fn lemma_digits_val_monotone(s: Seq<char>, i: int, j: int, e: int)
    requires
        i <= j <= e,
    ensures
        digits_val(s, i, e) >= digits_val(s, i, j),
    decreases e - j,
{
    if j < e {
        lemma_digits_val_monotone(s, i, j, e - 1);
        assert(digits_val(s, i, e - 1) * 10 >= digits_val(s, i, e - 1)) by (nonlinear_arith);
    }
}

/// Read one decimal number. `end` is where the digits stop.
pub enum NumStep {
    /// No digit stands at the position.
    NoDigit,
    /// The digits name this value.
    Value(u64, usize),
    /// The digits name a value above `u64::MAX`.
    Overflow(usize),
}

fn char_at(s: &Vec<char>, i: usize) -> (c: char)
    requires
        i < s@.len(),
    ensures
        c == s@[i as int],
{
    s[i]
}

fn is_digit_at(s: &Vec<char>, i: usize) -> (r: bool)
    requires
        i < s@.len(),
    ensures
        r == is_digit(s@[i as int]),
{
    let c = s[i] as u32;
    48 <= c && c <= 57
}

/// Scan the digits at `i`, exactly as `digit_end` and `digits_val` say.
pub fn parse_num(s: &Vec<char>, i: usize) -> (r: NumStep)
    requires
        i <= s@.len(),
    ensures
        digit_end(s@, i as int) == i ==> r is NoDigit,
        digit_end(s@, i as int) > i && digits_val(s@, i as int, digit_end(s@, i as int))
            > u64::MAX ==> r is Overflow,
        r matches NumStep::Value(v, e) ==> e == digit_end(s@, i as int) && e > i && v
            == digits_val(s@, i as int, e as int),
        r is NoDigit ==> digit_end(s@, i as int) == i,
        r matches NumStep::Overflow(e) ==> e == digit_end(s@, i as int) && e > i && digits_val(
            s@,
            i as int,
            e as int,
        ) > u64::MAX,
{
    proof {
        lemma_digit_end(s@, i as int);
    }
    let mut j = i;
    let mut val: u64 = 0;
    let mut over = false;
    while j < s.len() && is_digit_at(s, j)
        invariant
            i <= j <= s@.len(),
            forall|k: int| i <= k < j ==> is_digit(s@[k]),
            digit_end(s@, j as int) == digit_end(s@, i as int),
            !over ==> val == digits_val(s@, i as int, j as int),
            over ==> digits_val(s@, i as int, j as int) > u64::MAX,
        decreases s@.len() - j,
    {
        let d = (char_at(s, j) as u32 - 48) as u64;
        if !over {
            if val > u64::MAX / 10 || 10 * val > u64::MAX - d {
                over = true;
                proof {
                    let g = digits_val(s@, i as int, j + 1);
                    assert(g == digits_val(s@, i as int, j as int) * 10 + digit_val(s@[j as int]));
                    assert(g > u64::MAX) by (nonlinear_arith)
                        requires
                            g == val * 10 + digit_val(s@[j as int]),
                            val > u64::MAX / 10 || 10 * val > u64::MAX - digit_val(s@[j as int]),
                            digit_val(s@[j as int]) < 10,
                            u64::MAX == 0xffff_ffff_ffff_ffff,
                    ;
                }
            } else {
                val = 10 * val + d;
            }
        } else {
            proof {
                lemma_digits_val_monotone(s@, i as int, j as int, j + 1);
            }
        }
        j = j + 1;
    }
    proof {
        assert(digit_end(s@, j as int) == j);
        assert(digit_end(s@, i as int) == j);
    }
    if j == i {
        NumStep::NoDigit
    } else if over {
        NumStep::Overflow(j)
    } else {
        NumStep::Value(val, j)
    }
}

/// Characters that end a plain modifier token.
pub open spec fn is_delim(c: char) -> bool {
    c == ' ' || c == ';' || c == ',' || c == '(' || c == ')'
}

/// The first position at or after `i` that holds a delimiter.
pub open spec fn token_end(s: Seq<char>, i: int) -> int
    recommends
        0 <= i <= s.len(),
    decreases s.len() - i,
{
    if i < s.len() && !is_delim(s[i]) {
        token_end(s, i + 1)
    } else {
        i
    }
}

fn is_delim_at(s: &Vec<char>, i: usize) -> (r: bool)
    requires
        i < s@.len(),
    ensures
        r == is_delim(s@[i as int]),
{
    let c = s[i];
    c == ' ' || c == ';' || c == ',' || c == '(' || c == ')'
}

/// Scan to the end of the plain token starting at `i`.
pub fn token_end_from(s: &Vec<char>, i: usize) -> (e: usize)
    requires
        i <= s@.len(),
    ensures
        e == token_end(s@, i as int),
        i <= e <= s@.len(),
{
    let mut j = i;
    while j < s.len() && !is_delim_at(s, j)
        invariant
            i <= j <= s@.len(),
            token_end(s@, j as int) == token_end(s@, i as int),
        decreases s@.len() - j,
    {
        j = j + 1;
    }
    j
}

/// Does `s[i..e)` spell exactly this literal?
fn match_lit(s: &Vec<char>, i: usize, e: usize, lit: &str) -> (r: bool)
    requires
        i <= e <= s@.len(),
    ensures
        r == (s@.subrange(i as int, e as int) == lit@),
{
    let n = lit.unicode_len();
    if e - i != n {
        proof {
            assert(s@.subrange(i as int, e as int).len() == e - i);
        }
        return false;
    }
    let mut j: usize = 0;
    while j < n
        invariant
            j <= n,
            n == e - i,
            i <= e <= s@.len(),
            n == lit@.len(),
            forall|k: int| 0 <= k < j ==> s@[i + k] == lit@[k],
        decreases n - j,
    {
        if char_at(s, i + j) != lit.get_char(j) {
            proof {
                assert(s@.subrange(i as int, e as int)[j as int] == s@[i + j]);
            }
            return false;
        }
        j = j + 1;
    }
    proof {
        assert(s@.subrange(i as int, e as int) =~= lit@);
    }
    true
}

/// Milliseconds of one duration unit letter.
pub open spec fn unit_ms(c: char) -> Option<u64> {
    if c == 'w' {
        Some(604800000u64)
    } else if c == 'd' {
        Some(86400000u64)
    } else if c == 'h' {
        Some(3600000u64)
    } else if c == 'm' {
        Some(60000u64)
    } else if c == 's' {
        Some(1000u64)
    } else {
        None
    }
}

fn unit_ms_of(c: char) -> (r: Option<u64>)
    ensures
        r == unit_ms(c),
{
    if c == 'w' {
        Some(604800000u64)
    } else if c == 'd' {
        Some(86400000u64)
    } else if c == 'h' {
        Some(3600000u64)
    } else if c == 'm' {
        Some(60000u64)
    } else if c == 's' {
        Some(1000u64)
    } else {
        None
    }
}

/// The outcome of trying one plain-modifier alternative on a token.
pub ghost enum PlainRes {
    /// The token is not of this shape.
    No,
    /// The token names this modifier.
    Got(TimeModifier),
    /// The token is of this shape, but a number in it (at the position)
    /// is too large.
    Bad(int),
}

pub enum PlainStep {
    No,
    Got(TimeModifier),
    Bad(usize),
}

pub open spec fn plain_res_of(r: PlainStep) -> PlainRes {
    match r {
        PlainStep::No => PlainRes::No,
        PlainStep::Got(m) => PlainRes::Got(m),
        PlainStep::Bad(p) => PlainRes::Bad(p as int),
    }
}

/// `<digits>"mo"` filling the token: a month count.
pub open spec fn alt_months(s: Seq<char>, i: int, e: int) -> PlainRes {
    let de = digit_end(s, i);
    if de == i {
        PlainRes::No
    } else if de + 2 == e && s[de] == 'm' && s[de + 1] == 'o' {
        if digits_val(s, i, de) > u64::MAX {
            PlainRes::Bad(i)
        } else {
            PlainRes::Got(TimeModifier::Months(digits_val(s, i, de) as u64))
        }
    } else {
        PlainRes::No
    }
}

/// One or more `<digits><unit>` runs filling the token, summed into one
/// delay; a sum or product beyond `u64::MAX` is an overflow.
pub open spec fn alt_delays(s: Seq<char>, i: int, e: int) -> PlainRes
    decreases e - i,
{
    let de = digit_end(s, i);
    if de <= i || de >= e {
        PlainRes::No
    } else {
        match unit_ms(s[de]) {
            None => PlainRes::No,
            Some(u) => if digits_val(s, i, de) > u64::MAX {
                PlainRes::Bad(i)
            } else {
                let v = digits_val(s, i, de) * u;
                if v > u64::MAX {
                    PlainRes::Bad(i)
                } else if de + 1 == e {
                    PlainRes::Got(TimeModifier::Delay(v as u64))
                } else {
                    match alt_delays(s, de + 1, e) {
                        PlainRes::No => PlainRes::No,
                        PlainRes::Bad(p) => PlainRes::Bad(p),
                        PlainRes::Got(m) => match m {
                            TimeModifier::Delay(rest) => if v + rest > u64::MAX {
                                PlainRes::Bad(i)
                            } else {
                                PlainRes::Got(TimeModifier::Delay((v + rest) as u64))
                            },
                            _ => PlainRes::No,
                        },
                    }
                }
            },
        }
    }
}

/// `<hour>[":"<minutes>]["am"|"pm"]` filling the token: a clock time.
/// With a suffix the hour is taken mod 12 (plus 12 for pm); with none,
/// mod 24.
pub open spec fn alt_time_of_day(s: Seq<char>, i: int, e: int) -> PlainRes {
    let de = digit_end(s, i);
    if de == i {
        PlainRes::No
    } else {
        let has_min = de < e && s[de] == ':' && digit_end(s, de + 1) > de + 1 && digit_end(
            s,
            de + 1,
        ) <= e;
        let j = if has_min {
            digit_end(s, de + 1)
        } else {
            de
        };
        let ok_none = j == e;
        let ok_am = j + 2 == e && s[j] == 'a' && s[j + 1] == 'm';
        let ok_pm = j + 2 == e && s[j] == 'p' && s[j + 1] == 'm';
        if !(ok_none || ok_am || ok_pm) {
            PlainRes::No
        } else if digits_val(s, i, de) > u64::MAX {
            PlainRes::Bad(i)
        } else if has_min && digits_val(s, de + 1, j) > u64::MAX {
            PlainRes::Bad(de + 1)
        } else {
            let hv = digits_val(s, i, de);
            let hour: nat = if ok_am {
                hv % 12
            } else if ok_pm {
                hv % 12 + 12
            } else {
                hv % 24
            };
            let minute: nat = if has_min {
                digits_val(s, de + 1, j)
            } else {
                0
            };
            PlainRes::Got(TimeModifier::TimeOfDay { hour: hour as u64, minute: minute as u64 })
        }
    }
}

/// `[<year>]"-"[<month>]"-"<day>` filling the token: a calendar date
/// with the year and month optional.
pub open spec fn alt_date(s: Seq<char>, i: int, e: int) -> PlainRes {
    let ye = digit_end(s, i);
    if !(ye < e && s[ye] == '-') {
        PlainRes::No
    } else {
        let ms = ye + 1;
        let me = digit_end(s, ms);
        if !(me < e && s[me] == '-') {
            PlainRes::No
        } else {
            let ds = me + 1;
            let de2 = digit_end(s, ds);
            if !(de2 == e && de2 > ds) {
                PlainRes::No
            } else if ye > i && digits_val(s, i, ye) > u64::MAX {
                PlainRes::Bad(i)
            } else if me > ms && digits_val(s, ms, me) > u64::MAX {
                PlainRes::Bad(ms)
            } else if digits_val(s, ds, de2) > u64::MAX {
                PlainRes::Bad(ds)
            } else {
                PlainRes::Got(
                    TimeModifier::Date {
                        year: if ye > i {
                            Some(digits_val(s, i, ye) as u64)
                        } else {
                            None
                        },
                        month: if me > ms {
                            Some(digits_val(s, ms, me) as u64)
                        } else {
                            None
                        },
                        day: digits_val(s, ds, de2) as u64,
                    },
                )
            }
        }
    }
}

/// A full English weekday name filling the token, lowercase or
/// capitalised and nothing else.
pub open spec fn alt_weekday(s: Seq<char>, i: int, e: int) -> PlainRes {
    let t = s.subrange(i, e);
    if t == "monday"@ || t == "Monday"@ {
        PlainRes::Got(TimeModifier::Weekday(0))
    } else if t == "tuesday"@ || t == "Tuesday"@ {
        PlainRes::Got(TimeModifier::Weekday(1))
    } else if t == "wednesday"@ || t == "Wednesday"@ {
        PlainRes::Got(TimeModifier::Weekday(2))
    } else if t == "thursday"@ || t == "Thursday"@ {
        PlainRes::Got(TimeModifier::Weekday(3))
    } else if t == "friday"@ || t == "Friday"@ {
        PlainRes::Got(TimeModifier::Weekday(4))
    } else if t == "saturday"@ || t == "Saturday"@ {
        PlainRes::Got(TimeModifier::Weekday(5))
    } else if t == "sunday"@ || t == "Sunday"@ {
        PlainRes::Got(TimeModifier::Weekday(6))
    } else {
        PlainRes::No
    }
}

/// One plain modifier on the token `s[i..e)`: the alternatives are tried
/// in a fixed order and the first whose shape fits decides.
pub open spec fn spec_parse_plain(s: Seq<char>, i: int, e: int) -> PlainRes {
    match alt_months(s, i, e) {
        PlainRes::No => match alt_delays(s, i, e) {
            PlainRes::No => match alt_time_of_day(s, i, e) {
                PlainRes::No => match alt_date(s, i, e) {
                    PlainRes::No => alt_weekday(s, i, e),
                    r => r,
                },
                r => r,
            },
            r => r,
        },
        r => r,
    }
}

fn months_of(s: &Vec<char>, i: usize, e: usize) -> (r: PlainStep)
    requires
        i <= e <= s@.len(),
    ensures
        plain_res_of(r) == alt_months(s@, i as int, e as int),
{
    proof {
        lemma_digit_end(s@, i as int);
    }
    match parse_num(s, i) {
        NumStep::NoDigit => PlainStep::No,
        NumStep::Value(v, de) => {
            if de < e && e - de == 2 && char_at(s, de) == 'm' && char_at(s, de + 1) == 'o' {
                PlainStep::Got(TimeModifier::Months(v))
            } else {
                PlainStep::No
            }
        },
        NumStep::Overflow(de) => {
            if de < e && e - de == 2 && char_at(s, de) == 'm' && char_at(s, de + 1) == 'o' {
                PlainStep::Bad(i)
            } else {
                PlainStep::No
            }
        },
    }
}

fn delays_of(s: &Vec<char>, i: usize, e: usize) -> (r: PlainStep)
    requires
        i <= e <= s@.len(),
    ensures
        plain_res_of(r) == alt_delays(s@, i as int, e as int),
    decreases e - i,
{
    proof {
        lemma_digit_end(s@, i as int);
    }
    match parse_num(s, i) {
        NumStep::NoDigit => PlainStep::No,
        NumStep::Value(v, de) => {
            if de >= e {
                return PlainStep::No;
            }
            match unit_ms_of(char_at(s, de)) {
                None => PlainStep::No,
                Some(u) => {
                    let prod = match v.checked_mul(u) {
                        Some(p) => p,
                        None => {
                            proof {
                                assert((v as nat) * (u as nat) > u64::MAX) by (nonlinear_arith)
                                    requires
                                        v * u > u64::MAX,
                                        v >= 0 && u >= 0,
                                ;
                            }
                            return PlainStep::Bad(i);
                        },
                    };
                    if de + 1 == e {
                        PlainStep::Got(TimeModifier::Delay(prod))
                    } else {
                        assert(i < de + 1 <= e);
                        match delays_of(s, de + 1, e) {
                            PlainStep::No => PlainStep::No,
                            PlainStep::Bad(p) => PlainStep::Bad(p),
                            PlainStep::Got(m) => match m {
                                TimeModifier::Delay(rest) => match prod.checked_add(rest) {
                                    Some(t) => PlainStep::Got(TimeModifier::Delay(t)),
                                    None => PlainStep::Bad(i),
                                },
                                _ => PlainStep::No,
                            },
                        }
                    }
                },
            }
        },
        NumStep::Overflow(de) => {
            if de >= e {
                return PlainStep::No;
            }
            match unit_ms_of(char_at(s, de)) {
                None => PlainStep::No,
                Some(_) => PlainStep::Bad(i),
            }
        },
    }
}

fn time_of_day_of(s: &Vec<char>, i: usize, e: usize) -> (r: PlainStep)
    requires
        i <= e <= s@.len(),
    ensures
        plain_res_of(r) == alt_time_of_day(s@, i as int, e as int),
{
    proof {
        lemma_digit_end(s@, i as int);
    }
    let (hour_over, de) = match parse_num(s, i) {
        NumStep::NoDigit => {
            return PlainStep::No;
        },
        NumStep::Value(_, de) => (false, de),
        NumStep::Overflow(de) => (true, de),
    };
    let (has_min, min_over, j) = if de < e && char_at(s, de) == ':' {
        proof {
            lemma_digit_end(s@, de + 1);
        }
        match parse_num(s, de + 1) {
            NumStep::NoDigit => (false, false, de),
            NumStep::Value(_, me) => {
                if me <= e {
                    (true, false, me)
                } else {
                    (false, false, de)
                }
            },
            NumStep::Overflow(me) => {
                if me <= e {
                    (true, true, me)
                } else {
                    (false, false, de)
                }
            },
        }
    } else {
        (false, false, de)
    };
    let ok_none = j == e;
    let ok_am = j < e && e - j == 2 && char_at(s, j) == 'a' && char_at(s, j + 1) == 'm';
    let ok_pm = j < e && e - j == 2 && char_at(s, j) == 'p' && char_at(s, j + 1) == 'm';
    if !(ok_none || ok_am || ok_pm) {
        return PlainStep::No;
    }
    if hour_over {
        return PlainStep::Bad(i);
    }
    if min_over {
        return PlainStep::Bad(de + 1);
    }
    let hv = match parse_num(s, i) {
        NumStep::Value(v, _) => v,
        _ => {
            return PlainStep::No;
        },
    };
    let minute: u64 = if has_min {
        match parse_num(s, de + 1) {
            NumStep::Value(v, _) => v,
            _ => {
                return PlainStep::No;
            },
        }
    } else {
        0
    };
    let hour: u64 = if ok_am {
        hv % 12
    } else if ok_pm {
        hv % 12 + 12
    } else {
        hv % 24
    };
    PlainStep::Got(TimeModifier::TimeOfDay { hour, minute })
}

fn date_of(s: &Vec<char>, i: usize, e: usize) -> (r: PlainStep)
    requires
        i <= e <= s@.len(),
    ensures
        plain_res_of(r) == alt_date(s@, i as int, e as int),
{
    proof {
        lemma_digit_end(s@, i as int);
    }
    let (year_over, ye) = match parse_num(s, i) {
        NumStep::NoDigit => (false, i),
        NumStep::Value(_, ye) => (false, ye),
        NumStep::Overflow(ye) => (true, ye),
    };
    if !(ye < e && char_at(s, ye) == '-') {
        return PlainStep::No;
    }
    let ms = ye + 1;
    proof {
        lemma_digit_end(s@, ms as int);
    }
    let (month_over, me) = match parse_num(s, ms) {
        NumStep::NoDigit => (false, ms),
        NumStep::Value(_, me) => (false, me),
        NumStep::Overflow(me) => (true, me),
    };
    if !(me < e && char_at(s, me) == '-') {
        return PlainStep::No;
    }
    let ds = me + 1;
    proof {
        lemma_digit_end(s@, ds as int);
    }
    let (day_over, de2) = match parse_num(s, ds) {
        NumStep::NoDigit => (false, ds),
        NumStep::Value(_, de2) => (false, de2),
        NumStep::Overflow(de2) => (true, de2),
    };
    if !(de2 == e && de2 > ds) {
        return PlainStep::No;
    }
    if year_over {
        return PlainStep::Bad(i);
    }
    if month_over {
        return PlainStep::Bad(ms);
    }
    if day_over {
        return PlainStep::Bad(ds);
    }
    let year = if ye > i {
        match parse_num(s, i) {
            NumStep::Value(v, _) => Some(v),
            _ => {
                return PlainStep::No;
            },
        }
    } else {
        None
    };
    let month = if me > ms {
        match parse_num(s, ms) {
            NumStep::Value(v, _) => Some(v),
            _ => {
                return PlainStep::No;
            },
        }
    } else {
        None
    };
    let day = match parse_num(s, ds) {
        NumStep::Value(v, _) => v,
        _ => {
            return PlainStep::No;
        },
    };
    PlainStep::Got(TimeModifier::Date { year, month, day })
}

fn weekday_of(s: &Vec<char>, i: usize, e: usize) -> (r: PlainStep)
    requires
        i <= e <= s@.len(),
    ensures
        plain_res_of(r) == alt_weekday(s@, i as int, e as int),
{
    if match_lit(s, i, e, "monday") || match_lit(s, i, e, "Monday") {
        PlainStep::Got(TimeModifier::Weekday(0))
    } else if match_lit(s, i, e, "tuesday") || match_lit(s, i, e, "Tuesday") {
        PlainStep::Got(TimeModifier::Weekday(1))
    } else if match_lit(s, i, e, "wednesday") || match_lit(s, i, e, "Wednesday") {
        PlainStep::Got(TimeModifier::Weekday(2))
    } else if match_lit(s, i, e, "thursday") || match_lit(s, i, e, "Thursday") {
        PlainStep::Got(TimeModifier::Weekday(3))
    } else if match_lit(s, i, e, "friday") || match_lit(s, i, e, "Friday") {
        PlainStep::Got(TimeModifier::Weekday(4))
    } else if match_lit(s, i, e, "saturday") || match_lit(s, i, e, "Saturday") {
        PlainStep::Got(TimeModifier::Weekday(5))
    } else if match_lit(s, i, e, "sunday") || match_lit(s, i, e, "Sunday") {
        PlainStep::Got(TimeModifier::Weekday(6))
    } else {
        PlainStep::No
    }
}

/// One plain modifier on the token `s[i..e)`, exactly as
/// `spec_parse_plain` describes it.
pub fn parse_plain(s: &Vec<char>, i: usize, e: usize) -> (r: PlainStep)
    requires
        i <= e <= s@.len(),
    ensures
        plain_res_of(r) == spec_parse_plain(s@, i as int, e as int),
{
    match months_of(s, i, e) {
        PlainStep::No => match delays_of(s, i, e) {
            PlainStep::No => match time_of_day_of(s, i, e) {
                PlainStep::No => match date_of(s, i, e) {
                    PlainStep::No => weekday_of(s, i, e),
                    r => r,
                },
                r => r,
            },
            r => r,
        },
        r => r,
    }
}

/// A surface unit of a time expression: one plain modifier, or a
/// parenthesised branch of alternatives, each of which begets its own
/// candidate sequence.
#[derive(Debug, PartialEq)]
pub enum Modifier {
    TimeModifier(TimeModifier),
    ModifierPermutations(Vec<TimeModifier>),
}

pub ghost enum ModSpec {
    Plain(TimeModifier),
    Branch(Seq<TimeModifier>),
}

impl View for Modifier {
    type V = ModSpec;

    open spec fn view(&self) -> ModSpec {
        match self {
            Modifier::TimeModifier(m) => ModSpec::Plain(*m),
            Modifier::ModifierPermutations(v) => ModSpec::Branch(v@),
        }
    }
}

/// A grammar failure: the position that could not be read.
pub ghost enum ErrSpec {
    Syntax(int),
    Number(int),
}

pub open spec fn err_view(e: ParseTimeError) -> ErrSpec {
    match e {
        ParseTimeError::Syntax { position } => ErrSpec::Syntax(position as int),
        ParseTimeError::Number { position } => ErrSpec::Number(position as int),
        ParseTimeError::Calendar => ErrSpec::Syntax(-1),
    }
}

/// The first position at or after `i` that does not hold a space.
pub open spec fn space_end(s: Seq<char>, i: int) -> int
    recommends
        0 <= i <= s.len(),
    decreases s.len() - i,
{
    if i < s.len() && s[i] == ' ' {
        space_end(s, i + 1)
    } else {
        i
    }
}

fn space_end_from(s: &Vec<char>, i: usize) -> (e: usize)
    requires
        i <= s@.len(),
    ensures
        e == space_end(s@, i as int),
        i <= e <= s@.len(),
{
    let mut j = i;
    while j < s.len() && char_at(s, j) == ' '
        invariant
            i <= j <= s@.len(),
            space_end(s@, j as int) == space_end(s@, i as int),
        decreases s@.len() - j,
    {
        j = j + 1;
    }
    j
}

/// The comma-separated alternatives of a branch, from the first element
/// to just past the closing parenthesis.
pub open spec fn spec_parse_branch_items(s: Seq<char>, i: int) -> Result<
    (Seq<TimeModifier>, int),
    ErrSpec,
>
    decreases s.len() - i,
{
    let e = token_end(s, i);
    match spec_parse_plain(s, i, e) {
        PlainRes::No => Err(ErrSpec::Syntax(i)),
        PlainRes::Bad(p) => Err(ErrSpec::Number(p)),
        PlainRes::Got(m) => if e < s.len() && s[e] == ')' {
            Ok((seq![m], e + 1))
        } else {
            let k = space_end(s, e);
            if k < s.len() && s[k] == ',' {
                let k2 = space_end(s, k + 1);
                if i < k2 <= s.len() {
                    match spec_parse_branch_items(s, k2) {
                        Ok((rest, e2)) => Ok((seq![m] + rest, e2)),
                        Err(x) => Err(x),
                    }
                } else {
                    Err(ErrSpec::Syntax(k))
                }
            } else {
                Err(ErrSpec::Syntax(k))
            }
        },
    }
}

fn parse_branch_items(s: &Vec<char>, i: usize) -> (r: Result<(Vec<TimeModifier>, usize), ParseTimeError>)
    requires
        i <= s@.len(),
    ensures
        r matches Ok((v, e)) ==> spec_parse_branch_items(s@, i as int) == Ok::<_, ErrSpec>(
            (v@, e as int),
        ) && i < e <= s@.len(),
        r matches Err(x) ==> spec_parse_branch_items(s@, i as int) == Err::<(Seq<TimeModifier>, int), _>(
            err_view(x),
        ) && !(x is Calendar),
    decreases s@.len() - i,
{
    let e = token_end_from(s, i);
    match parse_plain(s, i, e) {
        PlainStep::No => Err(ParseTimeError::Syntax { position: i }),
        PlainStep::Bad(p) => Err(ParseTimeError::Number { position: p }),
        PlainStep::Got(m) => {
            if e < s.len() && char_at(s, e) == ')' {
                let mut v: Vec<TimeModifier> = Vec::new();
                v.push(m);
                proof {
                    assert(v@ =~= seq![m]);
                }
                Ok((v, e + 1))
            } else {
                let k = space_end_from(s, e);
                if k < s.len() && char_at(s, k) == ',' {
                    let k2 = space_end_from(s, k + 1);
                    if i < k2 {
                        match parse_branch_items(s, k2) {
                            Ok((rest, e2)) => {
                                let mut v: Vec<TimeModifier> = Vec::new();
                                v.push(m);
                                let mut rest = rest;
                                let ghost restview = rest@;
                                v.append(&mut rest);
                                proof {
                                    assert(v@ =~= seq![m] + restview);
                                }
                                Ok((v, e2))
                            },
                            Err(x) => Err(x),
                        }
                    } else {
                        Err(ParseTimeError::Syntax { position: k })
                    }
                } else {
                    Err(ParseTimeError::Syntax { position: k })
                }
            }
        },
    }
}

/// One surface modifier: a branch at `(`, a plain token otherwise.
pub open spec fn spec_parse_modifier(s: Seq<char>, i: int) -> Result<(ModSpec, int), ErrSpec> {
    if i >= s.len() {
        Err(ErrSpec::Syntax(i))
    } else if s[i] == '(' {
        match spec_parse_branch_items(s, i + 1) {
            Ok((alts, e)) => Ok((ModSpec::Branch(alts), e)),
            Err(x) => Err(x),
        }
    } else {
        let e = token_end(s, i);
        match spec_parse_plain(s, i, e) {
            PlainRes::No => Err(ErrSpec::Syntax(i)),
            PlainRes::Bad(p) => Err(ErrSpec::Number(p)),
            PlainRes::Got(m) => Ok((ModSpec::Plain(m), e)),
        }
    }
}

fn parse_modifier(s: &Vec<char>, i: usize) -> (r: Result<(Modifier, usize), ParseTimeError>)
    requires
        i <= s@.len(),
    ensures
        r matches Ok((m, e)) ==> spec_parse_modifier(s@, i as int) == Ok::<_, ErrSpec>(
            (m@, e as int),
        ) && i <= e <= s@.len(),
        r matches Err(x) ==> spec_parse_modifier(s@, i as int) == Err::<(ModSpec, int), _>(
            err_view(x),
        ) && !(x is Calendar),
{
    if i >= s.len() {
        return Err(ParseTimeError::Syntax { position: i });
    }
    if char_at(s, i) == '(' {
        match parse_branch_items(s, i + 1) {
            Ok((alts, e)) => Ok((Modifier::ModifierPermutations(alts), e)),
            Err(x) => Err(x),
        }
    } else {
        let e = token_end_from(s, i);
        match parse_plain(s, i, e) {
            PlainStep::No => Err(ParseTimeError::Syntax { position: i }),
            PlainStep::Bad(p) => Err(ParseTimeError::Number { position: p }),
            PlainStep::Got(m) => Ok((Modifier::TimeModifier(m), e)),
        }
    }
}

/// A run of modifiers separated by single spaces. A space followed by
/// something that is not a modifier ends the run (the space is not
/// consumed), but an oversized number in it still aborts the parse.
pub open spec fn spec_parse_modifiers(s: Seq<char>, i: int) -> Result<(Seq<ModSpec>, int), ErrSpec>
    decreases s.len() - i,
{
    match spec_parse_modifier(s, i) {
        Err(x) => Err(x),
        Ok((m, e)) => if i < e && e < s.len() && s[e] == ' ' {
            match spec_parse_modifier(s, e + 1) {
                Err(ErrSpec::Number(p)) => Err(ErrSpec::Number(p)),
                Err(ErrSpec::Syntax(_)) => Ok((seq![m], e)),
                Ok(_) => match spec_parse_modifiers(s, e + 1) {
                    Ok((rest, e2)) => Ok((seq![m] + rest, e2)),
                    Err(x) => Err(x),
                },
            }
        } else {
            Ok((seq![m], e))
        },
    }
}

fn parse_modifiers(s: &Vec<char>, i: usize) -> (r: Result<(Vec<Modifier>, usize), ParseTimeError>)
    requires
        i <= s@.len(),
    ensures
        r matches Ok((v, e)) ==> spec_parse_modifiers(s@, i as int) == Ok::<_, ErrSpec>(
            (v@.map_values(|m: Modifier| m@), e as int),
        ) && i <= e <= s@.len(),
        r matches Err(x) ==> spec_parse_modifiers(s@, i as int) == Err::<(Seq<ModSpec>, int), _>(
            err_view(x),
        ) && !(x is Calendar),
    decreases s@.len() - i,
{
    match parse_modifier(s, i) {
        Err(x) => Err(x),
        Ok((m, e)) => {
            if i < e && e < s.len() && char_at(s, e) == ' ' {
                match parse_modifier(s, e + 1) {
                    Err(ParseTimeError::Number { position }) => Err(
                        ParseTimeError::Number { position },
                    ),
                    Err(_) => {
                        let mut v: Vec<Modifier> = Vec::new();
                        v.push(m);
                        proof {
                            assert(v@.map_values(|m: Modifier| m@) =~= seq![m@]);
                        }
                        Ok((v, e))
                    },
                    Ok(_) => match parse_modifiers(s, e + 1) {
                        Ok((rest, e2)) => {
                            let mut v: Vec<Modifier> = Vec::new();
                            let ghost mview = m@;
                            v.push(m);
                            let mut rest = rest;
                            let ghost restview = rest@.map_values(|m: Modifier| m@);
                            v.append(&mut rest);
                            proof {
                                assert(v@.map_values(|m: Modifier| m@) =~= seq![mview]
                                    + restview);
                            }
                            Ok((v, e2))
                        },
                        Err(x) => Err(x),
                    },
                }
            } else {
                let mut v: Vec<Modifier> = Vec::new();
                v.push(m);
                proof {
                    assert(v@.map_values(|m: Modifier| m@) =~= seq![m@]);
                }
                Ok((v, e))
            }
        },
    }
}

/// A run of plain modifiers separated by single spaces: what a
/// recurrence interval accepts, with no branches.
pub open spec fn spec_parse_plain_list(s: Seq<char>, i: int) -> Result<
    (Seq<TimeModifier>, int),
    ErrSpec,
>
    decreases s.len() - i,
{
    let e = token_end(s, i);
    match spec_parse_plain(s, i, e) {
        PlainRes::No => Err(ErrSpec::Syntax(i)),
        PlainRes::Bad(p) => Err(ErrSpec::Number(p)),
        PlainRes::Got(m) => if i < e && e < s.len() && s[e] == ' ' {
            match spec_parse_plain(s, e + 1, token_end(s, e + 1)) {
                PlainRes::Bad(p) => Err(ErrSpec::Number(p)),
                PlainRes::No => Ok((seq![m], e)),
                PlainRes::Got(_) => match spec_parse_plain_list(s, e + 1) {
                    Ok((rest, e2)) => Ok((seq![m] + rest, e2)),
                    Err(x) => Err(x),
                },
            }
        } else {
            Ok((seq![m], e))
        },
    }
}

fn parse_plain_list(s: &Vec<char>, i: usize) -> (r: Result<
    (Vec<TimeModifier>, usize),
    ParseTimeError,
>)
    requires
        i <= s@.len(),
    ensures
        r matches Ok((v, e)) ==> spec_parse_plain_list(s@, i as int) == Ok::<_, ErrSpec>(
            (v@, e as int),
        ) && i <= e <= s@.len(),
        r matches Err(x) ==> spec_parse_plain_list(s@, i as int) == Err::<(Seq<TimeModifier>, int), _>(
            err_view(x),
        ) && !(x is Calendar),
    decreases s@.len() - i,
{
    let e = token_end_from(s, i);
    match parse_plain(s, i, e) {
        PlainStep::No => Err(ParseTimeError::Syntax { position: i }),
        PlainStep::Bad(p) => Err(ParseTimeError::Number { position: p }),
        PlainStep::Got(m) => {
            if i < e && e < s.len() && char_at(s, e) == ' ' {
                let e2t = token_end_from(s, e + 1);
                match parse_plain(s, e + 1, e2t) {
                    PlainStep::Bad(p) => Err(ParseTimeError::Number { position: p }),
                    PlainStep::No => {
                        let mut v: Vec<TimeModifier> = Vec::new();
                        v.push(m);
                        proof {
                            assert(v@ =~= seq![m]);
                        }
                        Ok((v, e))
                    },
                    PlainStep::Got(_) => match parse_plain_list(s, e + 1) {
                        Ok((rest, e2)) => {
                            let mut v: Vec<TimeModifier> = Vec::new();
                            v.push(m);
                            let mut rest = rest;
                            let ghost restview = rest@;
                            v.append(&mut rest);
                            proof {
                                assert(v@ =~= seq![m] + restview);
                            }
                            Ok((v, e2))
                        },
                        Err(x) => Err(x),
                    },
                }
            } else {
                let mut v: Vec<TimeModifier> = Vec::new();
                v.push(m);
                proof {
                    assert(v@ =~= seq![m]);
                }
                Ok((v, e))
            }
        },
    }
}

/// One branch appended to every candidate: for each alternative in
/// order, a copy of every prior candidate with it at the end.
pub open spec fn branch_expand(acc: Seq<Seq<TimeModifier>>, alts: Seq<TimeModifier>) -> Seq<
    Seq<TimeModifier>,
>
    decreases alts.len(),
{
    if alts.len() == 0 {
        Seq::empty()
    } else {
        acc.map_values(|v: Seq<TimeModifier>| v.push(alts[0])) + branch_expand(
            acc,
            alts.drop_first(),
        )
    }
}

pub open spec fn expand_step(acc: Seq<Seq<TimeModifier>>, m: ModSpec) -> Seq<Seq<TimeModifier>> {
    match m {
        ModSpec::Plain(tm) => acc.map_values(|v: Seq<TimeModifier>| v.push(tm)),
        ModSpec::Branch(alts) => branch_expand(acc, alts),
    }
}

pub open spec fn expand_from(acc: Seq<Seq<TimeModifier>>, mods: Seq<ModSpec>) -> Seq<
    Seq<TimeModifier>,
>
    decreases mods.len(),
{
    if mods.len() == 0 {
        acc
    } else {
        expand_from(expand_step(acc, mods[0]), mods.drop_first())
    }
}

/// The candidate modifier sequences of a surface-modifier run: one empty
/// candidate to start with; a plain modifier extends every candidate; a
/// branch of k alternatives turns n candidates into n·k.
pub open spec fn expansion(mods: Seq<ModSpec>) -> Seq<Seq<TimeModifier>> {
    expand_from(seq![Seq::empty()], mods)
}

proof fn lemma_expand_from_snoc(acc: Seq<Seq<TimeModifier>>, mods: Seq<ModSpec>, m: ModSpec)
    ensures
        expand_from(acc, mods.push(m)) == expand_step(expand_from(acc, mods), m),
    decreases mods.len(),
{
    if mods.len() == 0 {
        assert(mods.push(m)[0] == m);
        assert(mods.push(m).drop_first() =~= Seq::<ModSpec>::empty());
        assert(expand_from(expand_step(acc, m), Seq::<ModSpec>::empty()) == expand_step(acc, m));
        assert(expand_from(acc, mods) == acc);
    } else {
        assert(mods.push(m)[0] == mods[0]);
        assert(mods.push(m).drop_first() =~= mods.drop_first().push(m));
        lemma_expand_from_snoc(expand_step(acc, mods[0]), mods.drop_first(), m);
        assert(expand_from(acc, mods.push(m)) == expand_from(
            expand_step(acc, mods[0]),
            mods.drop_first().push(m),
        ));
        assert(expand_from(acc, mods) == expand_from(expand_step(acc, mods[0]), mods.drop_first()));
    }
}

proof fn lemma_branch_expand_snoc(acc: Seq<Seq<TimeModifier>>, alts: Seq<TimeModifier>, a: TimeModifier)
    ensures
        branch_expand(acc, alts.push(a)) == branch_expand(acc, alts) + acc.map_values(
            |v: Seq<TimeModifier>| v.push(a),
        ),
    decreases alts.len(),
{
    if alts.len() == 0 {
        assert(alts.push(a)[0] == a);
        assert(alts.push(a).drop_first() =~= Seq::<TimeModifier>::empty());
        assert(branch_expand(acc, Seq::<TimeModifier>::empty()) =~= Seq::<Seq<TimeModifier>>::empty());
        assert(branch_expand(acc, alts.push(a)) =~= branch_expand(acc, alts) + acc.map_values(
            |v: Seq<TimeModifier>| v.push(a),
        ));
    } else {
        assert(alts.push(a)[0] == alts[0]);
        assert(alts.push(a).drop_first() =~= alts.drop_first().push(a));
        lemma_branch_expand_snoc(acc, alts.drop_first(), a);
        assert(branch_expand(acc, alts.push(a)) == acc.map_values(
            |v: Seq<TimeModifier>| v.push(alts.push(a)[0]),
        ) + branch_expand(acc, alts.drop_first().push(a)));
        assert(acc.map_values(|v: Seq<TimeModifier>| v.push(alts.push(a)[0])) =~= acc.map_values(
            |v: Seq<TimeModifier>| v.push(alts[0]),
        ));
        assert(branch_expand(acc, alts.push(a)) =~= branch_expand(acc, alts) + acc.map_values(
            |v: Seq<TimeModifier>| v.push(a),
        ));
    }
}

pub open spec fn seqs_view(v: Vec<Vec<TimeModifier>>) -> Seq<Seq<TimeModifier>> {
    v@.map_values(|x: Vec<TimeModifier>| x@)
}

fn push_all(acc: &Vec<Vec<TimeModifier>>, tm: TimeModifier) -> (r: Vec<Vec<TimeModifier>>)
    ensures
        seqs_view(r) == seqs_view(*acc).map_values(|v: Seq<TimeModifier>| v.push(tm)),
{
    let mut out: Vec<Vec<TimeModifier>> = Vec::new();
    let mut j: usize = 0;
    while j < acc.len()
        invariant
            j <= acc@.len(),
            out@.len() == j,
            forall|k: int| 0 <= k < j ==> out@[k]@ == acc@[k]@.push(tm),
        decreases acc@.len() - j,
    {
        let mut nv = acc[j].clone();
        proof {
            assert(nv@ =~= acc@[j as int]@);
        }
        nv.push(tm);
        out.push(nv);
        j = j + 1;
    }
    proof {
        assert forall|k: int| 0 <= k < acc@.len() implies seqs_view(out)[k] == seqs_view(*acc)
            .map_values(|v: Seq<TimeModifier>| v.push(tm))[k] by {
            assert(seqs_view(out)[k] == out@[k]@);
        }
        assert(seqs_view(out) =~= seqs_view(*acc).map_values(|v: Seq<TimeModifier>| v.push(tm)));
    }
    out
}

impl Modifier {
    /// Expand a surface-modifier run into its candidate sequences, in
    /// discovery order, exactly as `expansion` describes.
    pub fn into_time_modifiers(modifiers: Vec<Modifier>) -> (r: Vec<Vec<TimeModifier>>)
        ensures
            seqs_view(r) == expansion(modifiers@.map_values(|m: Modifier| m@)),
    {
        let ghost mview = modifiers@.map_values(|m: Modifier| m@);
        let mut acc: Vec<Vec<TimeModifier>> = Vec::new();
        acc.push(Vec::new());
        proof {
            assert(seqs_view(acc) =~= seq![Seq::<TimeModifier>::empty()]);
            assert(mview.subrange(0, 0) =~= Seq::<ModSpec>::empty());
        }
        let mut i: usize = 0;
        while i < modifiers.len()
            invariant
                i <= modifiers@.len(),
                mview == modifiers@.map_values(|m: Modifier| m@),
                seqs_view(acc) == expand_from(seq![Seq::<TimeModifier>::empty()], mview.subrange(0, i as int)),
            decreases modifiers@.len() - i,
        {
            proof {
                lemma_expand_from_snoc(
                    seq![Seq::<TimeModifier>::empty()],
                    mview.subrange(0, i as int),
                    mview[i as int],
                );
                assert(mview.subrange(0, i + 1) =~= mview.subrange(0, i as int).push(
                    mview[i as int],
                ));
            }
            match &modifiers[i] {
                Modifier::TimeModifier(tm) => {
                    acc = push_all(&acc, *tm);
                },
                Modifier::ModifierPermutations(alts) => {
                    let ghost accview = seqs_view(acc);
                    let mut out: Vec<Vec<TimeModifier>> = Vec::new();
                    let mut a: usize = 0;
                    proof {
                        assert(alts@.subrange(0, 0) =~= Seq::<TimeModifier>::empty());
                        assert(branch_expand(accview, alts@.subrange(0, 0)) =~= Seq::<
                            Seq<TimeModifier>,
                        >::empty());
                        assert(seqs_view(out) =~= Seq::<Seq<TimeModifier>>::empty());
                    }
                    while a < alts.len()
                        invariant
                            a <= alts@.len(),
                            accview == seqs_view(acc),
                            seqs_view(out) == branch_expand(accview, alts@.subrange(0, a as int)),
                        decreases alts@.len() - a,
                    {
                        let mut block = push_all(&acc, alts[a]);
                        let ghost blockview = seqs_view(block);
                        let ghost outview = seqs_view(out);
                        out.append(&mut block);
                        proof {
                            assert(seqs_view(out) =~= outview + blockview);
                            lemma_branch_expand_snoc(
                                accview,
                                alts@.subrange(0, a as int),
                                alts@[a as int],
                            );
                            assert(alts@.subrange(0, a + 1) =~= alts@.subrange(0, a as int).push(
                                alts@[a as int],
                            ));
                        }
                        a = a + 1;
                    }
                    proof {
                        assert(alts@.subrange(0, alts@.len() as int) =~= alts@);
                    }
                    acc = out;
                },
            }
            i = i + 1;
        }
        proof {
            assert(mview.subrange(0, mview.len() as int) =~= mview);
        }
        acc
    }
}

/// The number of candidate sequences a surface-modifier run expands to:
/// the product of its branches' sizes.
pub open spec fn candidate_count(mods: Seq<ModSpec>) -> nat
    decreases mods.len(),
{
    if mods.len() == 0 {
        1
    } else {
        (match mods[0] {
            ModSpec::Plain(_) => 1nat,
            ModSpec::Branch(alts) => alts.len(),
        }) * candidate_count(mods.drop_first())
    }
}

proof fn lemma_branch_expand_len(acc: Seq<Seq<TimeModifier>>, alts: Seq<TimeModifier>)
    ensures
        branch_expand(acc, alts).len() == acc.len() * alts.len(),
    decreases alts.len(),
{
    if alts.len() == 0 {
        assert(acc.len() * 0 == 0) by (nonlinear_arith);
    } else {
        lemma_branch_expand_len(acc, alts.drop_first());
        assert(acc.len() + acc.len() * (alts.len() - 1) == acc.len() * alts.len())
            by (nonlinear_arith);
    }
}

proof fn lemma_expand_from_len(acc: Seq<Seq<TimeModifier>>, mods: Seq<ModSpec>)
    ensures
        expand_from(acc, mods).len() == acc.len() * candidate_count(mods),
    decreases mods.len(),
{
    if mods.len() == 0 {
        assert(acc.len() * 1 == acc.len()) by (nonlinear_arith);
    } else {
        let stepped = expand_step(acc, mods[0]);
        lemma_expand_from_len(stepped, mods.drop_first());
        match mods[0] {
            ModSpec::Plain(_) => {
                assert(stepped.len() == acc.len());
                assert(acc.len() * (1 * candidate_count(mods.drop_first())) == acc.len()
                    * candidate_count(mods.drop_first())) by (nonlinear_arith);
            },
            ModSpec::Branch(alts) => {
                lemma_branch_expand_len(acc, alts);
                assert((acc.len() * alts.len()) * candidate_count(mods.drop_first()) == acc.len()
                    * (alts.len() * candidate_count(mods.drop_first()))) by (nonlinear_arith);
            },
        }
    }
}

/// Permutation-cardinality law: the expansion of a surface-modifier run
/// has exactly as many candidate sequences as the product of its
/// branches' sizes; in particular one branch of k alternatives among
/// plain modifiers yields exactly k candidates.
pub proof fn lemma_expansion_count(mods: Seq<ModSpec>)
    ensures
        expansion(mods).len() == candidate_count(mods),
{
    lemma_expand_from_len(seq![Seq::<TimeModifier>::empty()], mods);
    assert(1 * candidate_count(mods) == candidate_count(mods)) by (nonlinear_arith);
}

/// A parsed command, with a schedule's time expression already expanded
/// and resolved to candidate timestamps in discovery order.
#[derive(Debug, PartialEq)]
pub enum Command {
    ScheduleReminder(Vec<Timestamp>, String),
    CancelReminder(u64),
    SetInterval(u64, Vec<TimeModifier>),
    ClearInterval(u64),
    SetTimezone(String),
    SetTimeFormat(TimeFormat),
    ListReminders,
    Help,
}

/// The abstract content of a command, before times are resolved.
pub ghost enum CmdSpec {
    Schedule(Seq<ModSpec>, Seq<char>),
    Cancel(u64),
    SetIv(u64, Seq<TimeModifier>),
    ClearIv(u64),
    SetTz(Seq<char>),
    SetFmt(TimeFormat),
    List,
    Help,
}

/// The literal stands at position `i`.
pub open spec fn lit_at(s: Seq<char>, i: int, lit: Seq<char>) -> bool {
    i + lit.len() <= s.len() && s.subrange(i, i + lit.len()) == lit
}

/// The keyword follows the prefix and a space follows the keyword.
pub open spec fn kw_sp(s: Seq<char>, lit: Seq<char>) -> bool {
    lit_at(s, 1, lit) && 1 + lit.len() < s.len() && s[1 + lit.len() as int] == ' '
}

/// The keyword follows the prefix and the text ends with it.
pub open spec fn kw_end(s: Seq<char>, lit: Seq<char>) -> bool {
    lit_at(s, 1, lit) && s.len() == 1 + lit.len()
}

pub open spec fn spec_sched(s: Seq<char>, j: int) -> Result<CmdSpec, ErrSpec> {
    match spec_parse_modifiers(s, j) {
        Err(x) => Err(x),
        Ok((mods, e)) => if 0 <= e < s.len() && s[e] == ';' {
            let k = if e + 1 < s.len() && s[e + 1] == ' ' {
                e + 2
            } else {
                e + 1
            };
            if k < s.len() {
                Ok(CmdSpec::Schedule(mods, s.subrange(k, s.len() as int)))
            } else {
                Err(ErrSpec::Syntax(k))
            }
        } else {
            Err(ErrSpec::Syntax(e))
        },
    }
}

pub open spec fn spec_num_arg(s: Seq<char>, j: int) -> Result<(u64, int), ErrSpec> {
    let de = digit_end(s, j);
    if de <= j {
        Err(ErrSpec::Syntax(j))
    } else if digits_val(s, j, de) > u64::MAX {
        Err(ErrSpec::Number(j))
    } else {
        Ok((digits_val(s, j, de) as u64, de))
    }
}

pub open spec fn spec_id_end(s: Seq<char>, j: int) -> Result<u64, ErrSpec> {
    match spec_num_arg(s, j) {
        Err(x) => Err(x),
        Ok((id, de)) => if de == s.len() {
            Ok(id)
        } else {
            Err(ErrSpec::Syntax(de))
        },
    }
}

pub open spec fn spec_setiv(s: Seq<char>, j: int) -> Result<CmdSpec, ErrSpec> {
    match spec_num_arg(s, j) {
        Err(x) => Err(x),
        Ok((id, de)) => if de < s.len() && s[de] == ' ' {
            match spec_parse_plain_list(s, de + 1) {
                Ok((mods, e)) => if e == s.len() {
                    Ok(CmdSpec::SetIv(id, mods))
                } else {
                    Err(ErrSpec::Syntax(e))
                },
                Err(x) => Err(x),
            }
        } else {
            Err(ErrSpec::Syntax(de))
        },
    }
}

pub open spec fn spec_tz(s: Seq<char>, j: int) -> Result<CmdSpec, ErrSpec> {
    if j < s.len() {
        Ok(CmdSpec::SetTz(s.subrange(j, s.len() as int)))
    } else {
        Err(ErrSpec::Syntax(j))
    }
}

pub open spec fn spec_tf(s: Seq<char>, j: int) -> Result<CmdSpec, ErrSpec> {
    if s.subrange(j, s.len() as int) == "12h"@ {
        Ok(CmdSpec::SetFmt(TimeFormat::H12))
    } else if s.subrange(j, s.len() as int) == "24h"@ {
        Ok(CmdSpec::SetFmt(TimeFormat::H24))
    } else {
        Err(ErrSpec::Syntax(j))
    }
}

/// The whole command grammar: a `$`, then the first keyword arm whose
/// keyword (with its following space, or the end of text) fits, then
/// that arm's arguments.
pub open spec fn spec_parse_command(s: Seq<char>) -> Result<CmdSpec, ErrSpec> {
    if s.len() == 0 || s[0] != '$' {
        Err(ErrSpec::Syntax(0))
    } else if kw_sp(s, "r"@) {
        spec_sched(s, 2 + "r"@.len() as int)
    } else if kw_sp(s, "remindme"@) {
        spec_sched(s, 2 + "remindme"@.len() as int)
    } else if kw_sp(s, "reminder"@) {
        spec_sched(s, 2 + "reminder"@.len() as int)
    } else if kw_end(s, "h"@) || kw_end(s, "help"@) {
        Ok(CmdSpec::Help)
    } else if kw_sp(s, "setinterval"@) {
        spec_setiv(s, 2 + "setinterval"@.len() as int)
    } else if kw_sp(s, "si"@) {
        spec_setiv(s, 2 + "si"@.len() as int)
    } else if kw_sp(s, "clearinterval"@) {
        match spec_id_end(s, 2 + "clearinterval"@.len() as int) {
            Ok(id) => Ok(CmdSpec::ClearIv(id)),
            Err(x) => Err(x),
        }
    } else if kw_sp(s, "ci"@) {
        match spec_id_end(s, 2 + "ci"@.len() as int) {
            Ok(id) => Ok(CmdSpec::ClearIv(id)),
            Err(x) => Err(x),
        }
    } else if kw_sp(s, "cancelreminder"@) {
        match spec_id_end(s, 2 + "cancelreminder"@.len() as int) {
            Ok(id) => Ok(CmdSpec::Cancel(id)),
            Err(x) => Err(x),
        }
    } else if kw_sp(s, "cr"@) {
        match spec_id_end(s, 2 + "cr"@.len() as int) {
            Ok(id) => Ok(CmdSpec::Cancel(id)),
            Err(x) => Err(x),
        }
    } else if kw_end(s, "reminders"@) || kw_end(s, "rs"@) {
        Ok(CmdSpec::List)
    } else if kw_sp(s, "tz"@) {
        spec_tz(s, 2 + "tz"@.len() as int)
    } else if kw_sp(s, "timezone"@) {
        spec_tz(s, 2 + "timezone"@.len() as int)
    } else if kw_sp(s, "tf"@) {
        spec_tf(s, 2 + "tf"@.len() as int)
    } else if kw_sp(s, "timeformat"@) {
        spec_tf(s, 2 + "timeformat"@.len() as int)
    } else {
        Err(ErrSpec::Syntax(1))
    }
}

/// A schedule command resolved correctly: either every candidate
/// sequence was applied to `now` (one timestamp each, in order, the zone
/// kept), or the calendar refused one and the whole command fails with a
/// calendar error.
pub open spec fn schedule_ok(
    mods: Seq<ModSpec>,
    msg: Seq<char>,
    now: Timestamp,
    r: Result<Command, ParseTimeError>,
) -> bool {
    ||| r == Err::<Command, ParseTimeError>(ParseTimeError::Calendar)
    ||| {
        &&& r matches Ok(cmd)
        &&& cmd matches Command::ScheduleReminder(times, m)
        &&& m@ == msg
        &&& times@.len() == expansion(mods).len()
        &&& forall|k: int|
            0 <= k < times@.len() ==> mod_chain(expansion(mods)[k], now, #[trigger] times@[k])
                && times@[k].wf() && times@[k].tz@ == now.tz@
    }
}

/// What the parser must hand back for each abstract command.
pub open spec fn command_matches(
    c: CmdSpec,
    now: Timestamp,
    r: Result<Command, ParseTimeError>,
) -> bool {
    match c {
        CmdSpec::Schedule(mods, msg) => schedule_ok(mods, msg, now, r),
        CmdSpec::Cancel(id) => r == Ok::<Command, ParseTimeError>(Command::CancelReminder(id)),
        CmdSpec::SetIv(id, mods) => r matches Ok(cmd) && cmd matches Command::SetInterval(x, v)
            && x == id && v@ == mods,
        CmdSpec::ClearIv(id) => r == Ok::<Command, ParseTimeError>(Command::ClearInterval(id)),
        CmdSpec::SetTz(tz) => r matches Ok(cmd) && cmd matches Command::SetTimezone(t) && t@ == tz,
        CmdSpec::SetFmt(f) => r == Ok::<Command, ParseTimeError>(Command::SetTimeFormat(f)),
        CmdSpec::List => r == Ok::<Command, ParseTimeError>(Command::ListReminders),
        CmdSpec::Help => r == Ok::<Command, ParseTimeError>(Command::Help),
    }
}

/// Relies on `String::from_iter` (through `collect`): builds the string
/// holding exactly these characters in order.
#[verifier::external_body]
pub(crate) fn string_of_chars(v: &Vec<char>) -> (r: String)
    ensures
        r@ == v@,
{
    v.iter().collect()
}

/// The characters of a piece of text, for index-based parsing.
pub fn chars_of(text: &str) -> (r: Vec<char>)
    ensures
        r@ == text@,
{
    let n = text.unicode_len();
    let mut v: Vec<char> = Vec::new();
    let mut i: usize = 0;
    while i < n
        invariant
            i <= n,
            n == text@.len(),
            v@ == text@.subrange(0, i as int),
        decreases n - i,
    {
        v.push(text.get_char(i));
        proof {
            assert(v@ =~= text@.subrange(0, i + 1));
        }
        i = i + 1;
    }
    proof {
        assert(text@.subrange(0, n as int) =~= text@);
    }
    v
}

fn substring_string(s: &Vec<char>, i: usize, e: usize) -> (r: String)
    requires
        i <= e <= s@.len(),
    ensures
        r@ == s@.subrange(i as int, e as int),
{
    let mut v: Vec<char> = Vec::new();
    let mut j = i;
    while j < e
        invariant
            i <= j <= e <= s@.len(),
            v@ == s@.subrange(i as int, j as int),
        decreases e - j,
    {
        v.push(char_at(s, j));
        proof {
            assert(v@ =~= s@.subrange(i as int, j + 1));
        }
        j = j + 1;
    }
    string_of_chars(&v)
}

fn kw_sp_at(s: &Vec<char>, lit: &str) -> (r: Option<usize>)
    requires
        s@.len() >= 1,
    ensures
        r matches Some(j) ==> kw_sp(s@, lit@) && j == 2 + lit@.len(),
        r is None ==> !kw_sp(s@, lit@),
{
    let n = lit.unicode_len();
    if s.len() < 2 || n > s.len() - 2 {
        return None;
    }
    if match_lit(s, 1, 1 + n, lit) && char_at(s, 1 + n) == ' ' {
        Some(2 + n)
    } else {
        None
    }
}

fn kw_end_at(s: &Vec<char>, lit: &str) -> (r: bool)
    requires
        s@.len() >= 1,
    ensures
        r == kw_end(s@, lit@),
{
    let n = lit.unicode_len();
    if !(s.len() >= 1 && s.len() - 1 == n) {
        return false;
    }
    match_lit(s, 1, s.len(), lit)
}

fn sched_arm(s: &Vec<char>, j: usize, now: &Timestamp) -> (r: Result<Command, ParseTimeError>)
    requires
        j <= s@.len(),
        now.wf(),
    ensures
        spec_sched(s@, j as int) matches Err(er) ==> r matches Err(e) && err_view(e) == er && !(e
            is Calendar),
        spec_sched(s@, j as int) matches Ok(c) ==> command_matches(c, *now, r),
{
    let (mods, e) = match parse_modifiers(s, j) {
        Ok(p) => p,
        Err(x) => {
            return Err(x);
        },
    };
    if !(e < s.len() && char_at(s, e) == ';') {
        return Err(ParseTimeError::Syntax { position: e });
    }
    let k = if e + 1 < s.len() && char_at(s, e + 1) == ' ' {
        e + 2
    } else {
        e + 1
    };
    if !(k < s.len()) {
        return Err(ParseTimeError::Syntax { position: k });
    }
    let msg = substring_string(s, k, s.len());
    let ghost mview = mods@.map_values(|m: Modifier| m@);
    let seqs = Modifier::into_time_modifiers(mods);
    let mut times: Vec<Timestamp> = Vec::new();
    let mut q: usize = 0;
    while q < seqs.len()
        invariant
            q <= seqs@.len(),
            now.wf(),
            seqs_view(seqs) == expansion(mview),
            spec_sched(s@, j as int) == Ok::<CmdSpec, ErrSpec>(CmdSpec::Schedule(mview, msg@)),
            times@.len() == q,
            forall|k2: int|
                0 <= k2 < q ==> mod_chain(expansion(mview)[k2], *now, #[trigger] times@[k2])
                    && times@[k2].wf() && times@[k2].tz@ == now.tz@,
        decreases seqs@.len() - q,
    {
        match apply_seq(&seqs[q], now) {
            Ok(t) => {
                times.push(t);
            },
            Err(_) => {
                return Err(ParseTimeError::Calendar);
            },
        }
        q = q + 1;
    }
    Ok(Command::ScheduleReminder(times, msg))
}

fn id_arm(s: &Vec<char>, j: usize) -> (r: Result<u64, ParseTimeError>)
    requires
        j <= s@.len(),
    ensures
        spec_id_end(s@, j as int) matches Err(er) ==> r matches Err(e) && err_view(e) == er && !(e
            is Calendar),
        spec_id_end(s@, j as int) matches Ok(id) ==> r == Ok::<u64, ParseTimeError>(id),
{
    match parse_num(s, j) {
        NumStep::NoDigit => Err(ParseTimeError::Syntax { position: j }),
        NumStep::Overflow(_) => Err(ParseTimeError::Number { position: j }),
        NumStep::Value(id, de) => {
            if de == s.len() {
                Ok(id)
            } else {
                Err(ParseTimeError::Syntax { position: de })
            }
        },
    }
}

fn setiv_arm(s: &Vec<char>, j: usize) -> (r: Result<Command, ParseTimeError>)
    requires
        j <= s@.len(),
    ensures
        spec_setiv(s@, j as int) matches Err(er) ==> r matches Err(e) && err_view(e) == er && !(e
            is Calendar),
        spec_setiv(s@, j as int) matches Ok(c) ==> c matches CmdSpec::SetIv(id, mods) && (r matches
            Ok(cmd) && cmd matches Command::SetInterval(x, v) && x == id && v@ == mods),
{
    let (id, de) = match parse_num(s, j) {
        NumStep::NoDigit => {
            return Err(ParseTimeError::Syntax { position: j });
        },
        NumStep::Overflow(_) => {
            return Err(ParseTimeError::Number { position: j });
        },
        NumStep::Value(id, de) => (id, de),
    };
    if !(de < s.len() && char_at(s, de) == ' ') {
        return Err(ParseTimeError::Syntax { position: de });
    }
    match parse_plain_list(s, de + 1) {
        Err(x) => Err(x),
        Ok((mods, e)) => {
            if e == s.len() {
                Ok(Command::SetInterval(id, mods))
            } else {
                Err(ParseTimeError::Syntax { position: e })
            }
        },
    }
}

/// Parse one command against the grammar; a schedule's candidate times
/// are resolved against `now`. The result is exactly what
/// `spec_parse_command` and `command_matches` describe.
pub fn parse_command(text: &str, now: &Timestamp) -> (r: Result<Command, ParseTimeError>)
    requires
        now.wf(),
    ensures
        spec_parse_command(text@) matches Err(er) ==> r matches Err(e) && err_view(e) == er && !(e
            is Calendar),
        spec_parse_command(text@) matches Ok(c) ==> command_matches(c, *now, r),
{
    let s = chars_of(text);
    if s.len() == 0 || char_at(&s, 0) != '$' {
        return Err(ParseTimeError::Syntax { position: 0 });
    }
    match kw_sp_at(&s, "r") {
        Some(j) => {
            return sched_arm(&s, j, now);
        },
        None => {},
    }
    match kw_sp_at(&s, "remindme") {
        Some(j) => {
            return sched_arm(&s, j, now);
        },
        None => {},
    }
    match kw_sp_at(&s, "reminder") {
        Some(j) => {
            return sched_arm(&s, j, now);
        },
        None => {},
    }
    if kw_end_at(&s, "h") || kw_end_at(&s, "help") {
        return Ok(Command::Help);
    }
    match kw_sp_at(&s, "setinterval") {
        Some(j) => {
            return setiv_arm(&s, j);
        },
        None => {},
    }
    match kw_sp_at(&s, "si") {
        Some(j) => {
            return setiv_arm(&s, j);
        },
        None => {},
    }
    match kw_sp_at(&s, "clearinterval") {
        Some(j) => {
            return match id_arm(&s, j) {
                Ok(id) => Ok(Command::ClearInterval(id)),
                Err(x) => Err(x),
            };
        },
        None => {},
    }
    match kw_sp_at(&s, "ci") {
        Some(j) => {
            return match id_arm(&s, j) {
                Ok(id) => Ok(Command::ClearInterval(id)),
                Err(x) => Err(x),
            };
        },
        None => {},
    }
    match kw_sp_at(&s, "cancelreminder") {
        Some(j) => {
            return match id_arm(&s, j) {
                Ok(id) => Ok(Command::CancelReminder(id)),
                Err(x) => Err(x),
            };
        },
        None => {},
    }
    match kw_sp_at(&s, "cr") {
        Some(j) => {
            return match id_arm(&s, j) {
                Ok(id) => Ok(Command::CancelReminder(id)),
                Err(x) => Err(x),
            };
        },
        None => {},
    }
    if kw_end_at(&s, "reminders") || kw_end_at(&s, "rs") {
        return Ok(Command::ListReminders);
    }
    match kw_sp_at(&s, "tz") {
        Some(j) => {
            return tz_arm(&s, j);
        },
        None => {},
    }
    match kw_sp_at(&s, "timezone") {
        Some(j) => {
            return tz_arm(&s, j);
        },
        None => {},
    }
    match kw_sp_at(&s, "tf") {
        Some(j) => {
            return tf_arm(&s, j);
        },
        None => {},
    }
    match kw_sp_at(&s, "timeformat") {
        Some(j) => {
            return tf_arm(&s, j);
        },
        None => {},
    }
    Err(ParseTimeError::Syntax { position: 1 })
}

fn tz_arm(s: &Vec<char>, j: usize) -> (r: Result<Command, ParseTimeError>)
    requires
        j <= s@.len(),
    ensures
        spec_tz(s@, j as int) matches Err(er) ==> r matches Err(e) && err_view(e) == er && !(e
            is Calendar),
        spec_tz(s@, j as int) matches Ok(c) ==> c matches CmdSpec::SetTz(tz) && (r matches Ok(cmd)
            && cmd matches Command::SetTimezone(t) && t@ == tz),
{
    if j < s.len() {
        Ok(Command::SetTimezone(substring_string(s, j, s.len())))
    } else {
        Err(ParseTimeError::Syntax { position: j })
    }
}

fn tf_arm(s: &Vec<char>, j: usize) -> (r: Result<Command, ParseTimeError>)
    requires
        j <= s@.len(),
    ensures
        spec_tf(s@, j as int) matches Err(er) ==> r matches Err(e) && err_view(e) == er && !(e
            is Calendar),
        spec_tf(s@, j as int) matches Ok(c) ==> c matches CmdSpec::SetFmt(f) && r == Ok::<
            Command,
            ParseTimeError,
        >(Command::SetTimeFormat(f)),
{
    if match_lit(s, j, s.len(), "12h") {
        Ok(Command::SetTimeFormat(TimeFormat::H12))
    } else if match_lit(s, j, s.len(), "24h") {
        Ok(Command::SetTimeFormat(TimeFormat::H24))
    } else {
        Err(ParseTimeError::Syntax { position: j })
    }
}

} // verus!
