//! Rendering of numbers and times into user-facing text, specified
//! character by character.

use crate::civil::{weekday_of, CivilTime};
use crate::store::TimeFormat;
use crate::time::Timestamp;
use vstd::prelude::*;
use vstd::string::StringExecFns;

verus! {

pub open spec fn digit_char(d: int) -> char {
    if d == 0 {
        '0'
    } else if d == 1 {
        '1'
    } else if d == 2 {
        '2'
    } else if d == 3 {
        '3'
    } else if d == 4 {
        '4'
    } else if d == 5 {
        '5'
    } else if d == 6 {
        '6'
    } else if d == 7 {
        '7'
    } else if d == 8 {
        '8'
    } else {
        '9'
    }
}

/// The decimal spelling of a number, most significant digit first.
pub open spec fn dec_spec(n: nat) -> Seq<char>
    decreases n,
{
    if n < 10 {
        seq![digit_char(n as int)]
    } else {
        dec_spec(n / 10).push(digit_char((n % 10) as int))
    }
}

/// Two-digit zero-padded spelling, for days and minutes.
pub open spec fn two_dec_spec(n: nat) -> Seq<char> {
    if n < 10 {
        seq!['0'] + dec_spec(n)
    } else {
        dec_spec(n)
    }
}

fn digit_char_of(d: u64) -> (c: char)
    requires
        d <= 9,
    ensures
        c == digit_char(d as int),
{
    match d {
        0 => '0',
        1 => '1',
        2 => '2',
        3 => '3',
        4 => '4',
        5 => '5',
        6 => '6',
        7 => '7',
        8 => '8',
        _ => '9',
    }
}

fn push_dec(n: u64, out: &mut Vec<char>)
    ensures
        final(out)@ == old(out)@ + dec_spec(n as nat),
    decreases n,
{
    if n < 10 {
        out.push(digit_char_of(n));
        proof {
            assert(final(out)@ =~= old(out)@ + dec_spec(n as nat));
        }
    } else {
        push_dec(n / 10, out);
        out.push(digit_char_of(n % 10));
        proof {
            assert(final(out)@ =~= old(out)@ + dec_spec(n as nat));
        }
    }
}

/// The decimal spelling of a number.
pub fn dec_of(n: u64) -> (r: String)
    ensures
        r@ == dec_spec(n as nat),
{
    let mut v: Vec<char> = Vec::new();
    push_dec(n, &mut v);
    proof {
        assert(v@ =~= dec_spec(n as nat));
    }
    crate::parse::string_of_chars(&v)
}

pub fn two_dec_of(n: u64) -> (r: String)
    ensures
        r@ == two_dec_spec(n as nat),
{
    let mut v: Vec<char> = Vec::new();
    if n < 10 {
        v.push('0');
    }
    push_dec(n, &mut v);
    proof {
        assert(v@ =~= two_dec_spec(n as nat));
    }
    crate::parse::string_of_chars(&v)
}

pub open spec fn weekday_name(w: int) -> Seq<char> {
    if w == 0 {
        "Monday"@
    } else if w == 1 {
        "Tuesday"@
    } else if w == 2 {
        "Wednesday"@
    } else if w == 3 {
        "Thursday"@
    } else if w == 4 {
        "Friday"@
    } else if w == 5 {
        "Saturday"@
    } else {
        "Sunday"@
    }
}

pub open spec fn month_name(m: int) -> Seq<char> {
    if m == 1 {
        "January"@
    } else if m == 2 {
        "February"@
    } else if m == 3 {
        "March"@
    } else if m == 4 {
        "April"@
    } else if m == 5 {
        "May"@
    } else if m == 6 {
        "June"@
    } else if m == 7 {
        "July"@
    } else if m == 8 {
        "August"@
    } else if m == 9 {
        "September"@
    } else if m == 10 {
        "October"@
    } else if m == 11 {
        "November"@
    } else {
        "December"@
    }
}

fn weekday_name_of(w: u8) -> (r: &'static str)
    ensures
        r@ == weekday_name(w as int),
{
    match w {
        0 => "Monday",
        1 => "Tuesday",
        2 => "Wednesday",
        3 => "Thursday",
        4 => "Friday",
        5 => "Saturday",
        _ => "Sunday",
    }
}

fn month_name_of(m: u8) -> (r: &'static str)
    ensures
        r@ == month_name(m as int),
{
    match m {
        1 => "January",
        2 => "February",
        3 => "March",
        4 => "April",
        5 => "May",
        6 => "June",
        7 => "July",
        8 => "August",
        9 => "September",
        10 => "October",
        11 => "November",
        _ => "December",
    }
}

/// The text a timestamp shows as: weekday, date, clock time in the
/// chosen format, and the time zone name.
pub open spec fn time_text(c: CivilTime, tz: Seq<char>, fmt: TimeFormat) -> Seq<char> {
    let date_part = weekday_name(weekday_of(c)) + ", "@ + month_name(c.month as int) + " "@
        + two_dec_spec(c.day as nat) + ", "@ + dec_spec(c.year as nat) + " at "@;
    let clock_part = match fmt {
        TimeFormat::H12 => {
            let h12: nat = if c.hour % 12 == 0 {
                12
            } else {
                (c.hour % 12) as nat
            };
            dec_spec(h12) + ":"@ + two_dec_spec(c.minute as nat) + (if c.hour < 12 {
                "am"@
            } else {
                "pm"@
            })
        },
        TimeFormat::H24 => dec_spec(c.hour as nat) + ":"@ + two_dec_spec(c.minute as nat),
    };
    date_part + clock_part + " "@ + tz
}

/// Render a timestamp for a user, exactly as `time_text` says.
pub fn render_time(t: &Timestamp, fmt: TimeFormat) -> (r: String)
    requires
        t.wf(),
    ensures
        r@ == time_text(t.civil, t.tz@, fmt),
{
    let wd = crate::civil::weekday_of_civil(&t.civil);
    let mut out = String::new();
    out.append(weekday_name_of(wd));
    out.append(", ");
    out.append(month_name_of(t.civil.month));
    out.append(" ");
    out.append(two_dec_of(t.civil.day as u64).as_str());
    out.append(", ");
    out.append(dec_of(t.civil.year as u64).as_str());
    out.append(" at ");
    match fmt {
        TimeFormat::H12 => {
            let h12: u64 = if t.civil.hour % 12 == 0 {
                12
            } else {
                (t.civil.hour % 12) as u64
            };
            out.append(dec_of(h12).as_str());
            out.append(":");
            out.append(two_dec_of(t.civil.minute as u64).as_str());
            if t.civil.hour < 12 {
                out.append("am");
            } else {
                out.append("pm");
            }
        },
        TimeFormat::H24 => {
            out.append(dec_of(t.civil.hour as u64).as_str());
            out.append(":");
            out.append(two_dec_of(t.civil.minute as u64).as_str());
        },
    }
    out.append(" ");
    out.append(t.tz.as_str());
    proof {
        assert(out@ =~= time_text(t.civil, t.tz@, fmt));
    }
    out
}

} // verus!
