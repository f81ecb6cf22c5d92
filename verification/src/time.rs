//! The time-modifier engine: each modifier is a pure transformation of a
//! zoned timestamp. The civil-calendar part of every transformation is
//! computed and specified here exactly; only the correspondence between a
//! civil time and an instant (which needs the time zone database) is
//! delegated to jiff behind trusted wrappers.

use crate::civil::{
    days_in_month, days_in_month_of, plus_days, valid_date, weekday_of, CivilTime,
    lemma_weekday_plus_days, plus_days_of, weekday_of_civil,
};
use vstd::arithmetic::div_mod::{
    lemma_fundamental_div_mod, lemma_fundamental_div_mod_converse,
    lemma_mod_division_less_than_divisor,
};
use vstd::prelude::*;

verus! {

/// One unit of the time-expression vocabulary, applied left to right to
/// a base timestamp.
#[derive(Debug, Clone, Copy, PartialEq, Eq)]
pub enum TimeModifier {
    /// A fixed number of milliseconds, time-zone agnostic.
    Delay(u64),
    /// The first day of this weekday (0 = Monday .. 6 = Sunday) strictly
    /// after the base day, keeping the time of day.
    Weekday(i8),
    /// Same calendar day, hour and minute replaced, seconds zeroed.
    TimeOfDay { hour: u64, minute: u64 },
    /// Calendar date replaced; a missing year or month defaults to the
    /// base timestamp's.
    Date { year: Option<u64>, month: Option<u64>, day: u64 },
    /// Calendar-month addition with end-of-month clamping: a day of month
    /// with no mapping in the target month becomes that month's last day.
    Months(u64),
}

#[derive(Debug, Clone, Copy, PartialEq, Eq)]
pub enum CalendarError {
    /// The modifier names a date, clock time or weekday that the calendar
    /// does not have.
    Invalid,
    /// The result leaves the supported range of years or instants.
    OutOfRange,
}

/// What each modifier other than `Delay` does to a civil time; `None`
/// when the calendar has no such result.
pub open spec fn apply_civil(m: TimeModifier, c: CivilTime) -> Option<CivilTime> {
    match m {
        TimeModifier::Delay(_) => None,
        TimeModifier::TimeOfDay { hour, minute } => if hour <= 23 && minute <= 59 {
            Some(CivilTime { hour: hour as u8, minute: minute as u8, second: 0, ..c })
        } else {
            None
        },
        TimeModifier::Date { year, month, day } => {
            let y = match year {
                Some(y) => y as int,
                None => c.year as int,
            };
            let mo = match month {
                Some(mo) => mo as int,
                None => c.month as int,
            };
            if valid_date(y, mo, day as int) {
                Some(CivilTime { year: y as i64, month: mo as u8, day: day as u8, ..c })
            } else {
                None
            }
        },
        TimeModifier::Weekday(w) => if 0 <= w <= 6 {
            let k = (w - weekday_of(c) + 6) % 7 + 1;
            let r = plus_days(c, k as nat);
            if r.wf() {
                Some(r)
            } else {
                None
            }
        } else {
            None
        },
        TimeModifier::Months(n) => {
            let t = c.month - 1 + n;
            let y2 = c.year + t / 12;
            let m2 = t % 12 + 1;
            let d2 = if c.day <= days_in_month(y2, m2) {
                c.day as int
            } else {
                days_in_month(y2, m2)
            };
            if y2 <= 9999 {
                Some(CivilTime { year: y2 as i64, month: m2 as u8, day: d2 as u8, ..c })
            } else {
                None
            }
        },
    }
}

/// The civil step of one modifier, exactly as `apply_civil` describes it.
pub fn apply_civil_of(m: &TimeModifier, c: &CivilTime) -> (r: Result<CivilTime, CalendarError>)
    requires
        c.wf(),
        !(m is Delay),
    ensures
        r matches Ok(c2) ==> apply_civil(*m, *c) == Some(c2) && c2.wf(),
        r is Err <==> apply_civil(*m, *c) is None,
{
    match m {
        TimeModifier::Delay(_) => Err(CalendarError::Invalid),
        TimeModifier::TimeOfDay { hour, minute } => {
            if *hour <= 23 && *minute <= 59 {
                Ok(CivilTime { hour: *hour as u8, minute: *minute as u8, second: 0, ..*c })
            } else {
                Err(CalendarError::Invalid)
            }
        },
        TimeModifier::Date { year, month, day } => {
            let y: u64 = match year {
                Some(y) => *y,
                None => c.year as u64,
            };
            let mo: u64 = match month {
                Some(mo) => *mo,
                None => c.month as u64,
            };
            if 1 <= y && y <= 9999 && 1 <= mo && mo <= 12 && 1 <= *day && *day <= (days_in_month_of(
                y as i64,
                mo as u8,
            ) as u64) {
                Ok(CivilTime { year: y as i64, month: mo as u8, day: *day as u8, ..*c })
            } else {
                Err(CalendarError::Invalid)
            }
        },
        TimeModifier::Weekday(w) => {
            if 0 <= *w && *w <= 6 {
                let wd = weekday_of_civil(c);
                let k: u8 = ((*w as u8) + 6 - wd) % 7 + 1;
                let r = plus_days_of(c, k);
                if r.year <= 9999 {
                    Ok(r)
                } else {
                    Err(CalendarError::OutOfRange)
                }
            } else {
                Err(CalendarError::Invalid)
            }
        },
        TimeModifier::Months(n) => {
            if *n > 120000 {
                proof {
                    lemma_months_overflow(*c, *n);
                }
                Err(CalendarError::OutOfRange)
            } else {
                let t: u64 = (c.month as u64) - 1 + *n;
                let y2: i64 = c.year + (t / 12) as i64;
                let m2: u8 = (t % 12) as u8 + 1;
                let dim = days_in_month_of(y2, m2);
                let d2: u8 = if c.day <= dim {
                    c.day
                } else {
                    dim
                };
                if y2 <= 9999 {
                    Ok(CivilTime { year: y2, month: m2, day: d2, ..*c })
                } else {
                    Err(CalendarError::OutOfRange)
                }
            }
        },
    }
}

/// A zoned timestamp: an instant (milliseconds since the Unix epoch)
/// together with the civil time it was requested or read as, under an
/// IANA time zone name. The civil fields record the requested civil
/// time; the instant is jiff's resolution of it in that zone.
#[derive(Debug, PartialEq)]
pub struct Timestamp {
    pub epoch_ms: i64,
    pub civil: CivilTime,
    pub tz: String,
}

impl Timestamp {
    pub open spec fn wf(self) -> bool {
        self.civil.wf()
    }
}

impl Clone for Timestamp {
    fn clone(&self) -> (r: Self)
        ensures
            r == *self,
    {
        Timestamp { epoch_ms: self.epoch_ms, civil: self.civil, tz: self.tz.clone() }
    }
}

/// Relies on jiff's `tz::db().get`, `Timestamp::from_millisecond` and
/// `Timestamp::to_zoned`: reads back the civil fields jiff assigns to the
/// given instant in the named zone. jiff documents civil years within
/// -9999..=9999 and always-valid calendar dates and clock fields; nothing
/// else is assumed, since the result depends on the time zone database.
/// `None` when the zone name is unknown or the instant is out of range.
#[verifier::external_body]
fn civil_fields_of_epoch(epoch_ms: i64, tz: &str) -> (r: Option<CivilTime>)
    ensures
        r matches Some(c) ==> c.date_in_range() && -9999 <= c.year <= 9999,
{
    let zone = match jiff::tz::db().get(tz) {
        Ok(z) => z,
        Err(_) => return None,
    };
    let ts = match jiff::Timestamp::from_millisecond(epoch_ms) {
        Ok(t) => t,
        Err(_) => return None,
    };
    let z = ts.to_zoned(zone);
    let (year, month, day) = (z.year() as i64, z.month() as u8, z.day() as u8);
    let (hour, minute, second) = (z.hour() as u8, z.minute() as u8, z.second() as u8);
    Some(CivilTime { year, month, day, hour, minute, second })
}

/// Relies on jiff's `tz::db().get`, `civil::date(..).at(..)` and
/// `DateTime::to_zoned`: the instant jiff assigns to this civil time in
/// the named zone, with jiff's default handling of clock times that a
/// daylight-saving transition skips or repeats. The value depends on the
/// time zone database, so nothing is stated about it. `None` when the
/// zone name is unknown or jiff rejects the resolution.
#[verifier::external_body]
fn epoch_of_civil(c: &CivilTime, tz: &str) -> (r: Option<i64>)
    requires
        c.wf(),
{
    let zone = match jiff::tz::db().get(tz) {
        Ok(z) => z,
        Err(_) => return None,
    };
    let dt = jiff::civil::date(c.year as i16, c.month as i8, c.day as i8).at(
        c.hour as i8,
        c.minute as i8,
        c.second as i8,
        0,
    );
    match dt.to_zoned(zone) {
        Ok(z) => Some(z.timestamp().as_millisecond()),
        Err(_) => None,
    }
}

/// Relies on jiff's `Zoned::now` and `Zoned::with_time_zone`: the current
/// instant and its civil reading in the named zone, falling back to the
/// system zone when the name is unknown. The result depends on the clock,
/// so only jiff's documented field ranges are stated.
#[verifier::external_body]
fn now_fields(tz: &str) -> (r: (i64, CivilTime))
    ensures
        r.1.date_in_range() && -9999 <= r.1.year <= 9999,
{
    let zone = jiff::tz::db().get(tz).unwrap_or(jiff::tz::TimeZone::system());
    let z = jiff::Zoned::now().with_time_zone(zone);
    let (year, month, day) = (z.year() as i64, z.month() as u8, z.day() as u8);
    let (hour, minute, second) = (z.hour() as u8, z.minute() as u8, z.second() as u8);
    (z.timestamp().as_millisecond(), CivilTime { year, month, day, hour, minute, second })
}

impl Timestamp {
    /// The current moment in the named zone (or the system zone when the
    /// name is unknown); `None` only for clock readings outside the
    /// library's year range.
    pub fn now_in(tz: &str) -> (r: Option<Timestamp>)
        ensures
            r matches Some(t) ==> t.wf() && t.tz@ == tz@,
    {
        let (epoch_ms, civil) = now_fields(tz);
        if civil.year >= 1 {
            Some(Timestamp { epoch_ms, civil, tz: tz.to_owned() })
        } else {
            None
        }
    }

    /// The timestamp that names the given civil time in the given zone,
    /// with the instant resolved by jiff. `None` when the civil time is
    /// not well formed or the zone cannot resolve it.
    pub fn from_civil(c: CivilTime, tz: &str) -> (r: Option<Timestamp>)
        ensures
            r matches Some(t) ==> t.wf() && t.civil == c && t.tz@ == tz@,
            !c.wf() ==> r is None,
    {
        if !(1 <= c.year && c.year <= 9999 && 1 <= c.month && c.month <= 12 && 1 <= c.day
            && c.hour <= 23 && c.minute <= 59 && c.second <= 59) {
            return None;
        }
        if c.day > days_in_month_of(c.year, c.month) {
            return None;
        }
        match epoch_of_civil(&c, tz) {
            Some(epoch_ms) => Some(Timestamp { epoch_ms, civil: c, tz: tz.to_owned() }),
            None => None,
        }
    }
}

/// How one modifier relates a base timestamp to a result: the zone is
/// kept; a `Delay` moves the instant by exactly its milliseconds; every
/// other modifier rewrites the civil time as `apply_civil` says.
pub open spec fn mod_step(m: TimeModifier, a: Timestamp, b: Timestamp) -> bool {
    &&& b.tz@ == a.tz@
    &&& b.wf()
    &&& match m {
        TimeModifier::Delay(ms) => b.epoch_ms == a.epoch_ms + ms,
        _ => apply_civil(m, a.civil) == Some(b.civil),
    }
}

/// `mod_step` chained along a whole modifier sequence, left to right.
pub open spec fn mod_chain(mods: Seq<TimeModifier>, a: Timestamp, b: Timestamp) -> bool
    decreases mods.len(),
{
    if mods.len() == 0 {
        b == a
    } else {
        exists|mid: Timestamp|
            #[trigger] mod_step(mods[0], a, mid) && mod_chain(mods.drop_first(), mid, b)
    }
}

pub proof fn lemma_mod_chain_snoc(mods: Seq<TimeModifier>, m: TimeModifier, a: Timestamp, mid: Timestamp, b: Timestamp)
    requires
        mod_chain(mods, a, mid),
        mod_step(m, mid, b),
    ensures
        mod_chain(mods.push(m), a, b),
    decreases mods.len(),
{
    if mods.len() == 0 {
        assert(mods.push(m)[0] == m);
        assert(mods.push(m).drop_first() =~= Seq::<TimeModifier>::empty());
        assert(mod_chain(mods.push(m).drop_first(), b, b));
    } else {
        let mid0 = choose|mid0: Timestamp|
            #[trigger] mod_step(mods[0], a, mid0) && mod_chain(mods.drop_first(), mid0, mid);
        lemma_mod_chain_snoc(mods.drop_first(), m, mid0, mid, b);
        assert(mods.push(m).drop_first() =~= mods.drop_first().push(m));
        assert(mod_step(mods.push(m)[0], a, mid0));
    }
}

/// A one-modifier chain is exactly one step.
pub proof fn lemma_mod_chain_single(m: TimeModifier, a: Timestamp, b: Timestamp)
    requires
        mod_chain(seq![m], a, b),
    ensures
        mod_step(m, a, b),
{
    let mid = choose|mid: Timestamp|
        #[trigger] mod_step(seq![m][0], a, mid) && mod_chain(seq![m].drop_first(), mid, b);
    assert(seq![m].drop_first().len() == 0);
}

/// Clock-pinning law: whatever a candidate sequence does before it, a
/// final clock-time modifier fixes the result's hour and minute and
/// zeroes its seconds; so every candidate of an expression ending in a
/// clock time carries exactly that clock.
pub proof fn lemma_chain_ends_with_clock(mods: Seq<TimeModifier>, a: Timestamp, b: Timestamp)
    requires
        mod_chain(mods, a, b),
        mods.len() > 0,
        mods.last() matches TimeModifier::TimeOfDay { hour, minute } && hour <= 23 && minute
            <= 59,
    ensures
        mods.last() matches TimeModifier::TimeOfDay { hour, minute } ==> b.civil.hour == hour
            && b.civil.minute == minute && b.civil.second == 0,
    decreases mods.len(),
{
    let mid = choose|mid: Timestamp|
        #[trigger] mod_step(mods[0], a, mid) && mod_chain(mods.drop_first(), mid, b);
    if mods.len() == 1 {
        assert(mod_chain(mods.drop_first(), mid, b));
        assert(b == mid);
    } else {
        assert(mods.drop_first().last() == mods.last());
        lemma_chain_ends_with_clock(mods.drop_first(), mid, b);
    }
}

/// Apply one modifier to a zoned timestamp.
pub fn apply(m: &TimeModifier, ts: &Timestamp) -> (r: Result<Timestamp, CalendarError>)
    requires
        ts.wf(),
    ensures
        r matches Ok(t) ==> mod_step(*m, *ts, t),
        !(m is Delay) && apply_civil(*m, ts.civil) is None ==> r is Err,
        m matches TimeModifier::Delay(ms) && ts.epoch_ms + *ms > i64::MAX ==> r is Err,
{
    match m {
        TimeModifier::Delay(ms) => {
            if *ms > i64::MAX as u64 {
                return Err(CalendarError::OutOfRange);
            }
            let epoch2 = match ts.epoch_ms.checked_add(*ms as i64) {
                Some(e) => e,
                None => return Err(CalendarError::OutOfRange),
            };
            match civil_fields_of_epoch(epoch2, self_tz(ts)) {
                Some(civil) => {
                    if civil.year >= 1 {
                        Ok(Timestamp { epoch_ms: epoch2, civil, tz: ts.tz.clone() })
                    } else {
                        Err(CalendarError::OutOfRange)
                    }
                },
                None => Err(CalendarError::OutOfRange),
            }
        },
        _ => {
            let civil2 = match apply_civil_of(m, &ts.civil) {
                Ok(c) => c,
                Err(e) => return Err(e),
            };
            match epoch_of_civil(&civil2, self_tz(ts)) {
                Some(epoch_ms) => Ok(Timestamp { epoch_ms, civil: civil2, tz: ts.tz.clone() }),
                None => Err(CalendarError::OutOfRange),
            }
        },
    }
}

fn self_tz(ts: &Timestamp) -> (r: &str)
    ensures
        r@ == ts.tz@,
{
    ts.tz.as_str()
}

/// Apply a whole modifier sequence left to right: each modifier sees the
/// timestamp the previous one produced.
pub fn apply_seq(mods: &Vec<TimeModifier>, base: &Timestamp) -> (r: Result<
    Timestamp,
    CalendarError,
>)
    requires
        base.wf(),
    ensures
        r matches Ok(t) ==> mod_chain(mods@, *base, t) && t.wf() && t.tz@ == base.tz@,
{
    let mut cur = base.clone();
    let mut i: usize = 0;
    while i < mods.len()
        invariant
            i <= mods.len(),
            base.wf(),
            cur.wf(),
            cur.tz@ == base.tz@,
            mod_chain(mods@.subrange(0, i as int), *base, cur),
        decreases mods.len() - i,
    {
        let next = match apply(&mods[i], &cur) {
            Ok(t) => t,
            Err(e) => return Err(e),
        };
        proof {
            lemma_mod_chain_snoc(mods@.subrange(0, i as int), mods@[i as int], *base, cur, next);
            assert(mods@.subrange(0, i + 1) =~= mods@.subrange(0, i as int).push(mods@[i as int]));
        }
        cur = next;
        i = i + 1;
    }
    proof {
        assert(mods@.subrange(0, mods@.len() as int) =~= mods@);
    }
    Ok(cur)
}

/// Weekday law: `Weekday(w)` lands between one and seven days ahead of
/// the base day, on a day whose weekday is `w`; from a base day already
/// on weekday `w` it lands exactly seven days ahead, never on the base
/// day itself.
pub proof fn lemma_weekday_modifier(c: CivilTime, w: i8, r: CivilTime)
    requires
        c.wf(),
        apply_civil(TimeModifier::Weekday(w), c) == Some(r),
    ensures
        1 <= (w - weekday_of(c) + 6) % 7 + 1 <= 7,
        r == plus_days(c, ((w - weekday_of(c) + 6) % 7 + 1) as nat),
        weekday_of(r) == w,
        weekday_of(c) == w ==> r == plus_days(c, 7),
{
    let wd = weekday_of(c);
    assert(0 <= wd < 7) by {
        lemma_mod_division_less_than_divisor(
            crate::civil::year_term(
                if c.month < 3 {
                    c.year - 1
                } else {
                    c.year as int
                },
            ) + crate::civil::month_term(c.month as int) + c.day + 6,
            7,
        );
    }
    let s = w - wd + 6;
    if s < 7 {
        lemma_fundamental_div_mod_converse(s, 7, 0, s);
    } else {
        lemma_fundamental_div_mod_converse(s, 7, 1, s - 7);
    }
    let k = s % 7 + 1;
    assert(1 <= k <= 7);
    lemma_weekday_plus_days(c, k as nat);
    assert(weekday_of(r) == (wd + k) % 7);
    if wd + k < 7 {
        lemma_fundamental_div_mod_converse(wd + k, 7, 0, wd + k);
    } else {
        lemma_fundamental_div_mod_converse(wd + k, 7, 1, wd + k - 7);
    }
}

/// Interval progression law: a reminder whose interval is the single
/// modifier `Delay(d)`, fired over and over, advances its trigger
/// instant by exactly `d` milliseconds each firing: the `i`th trigger
/// sits at the first plus `i` times `d`.
pub proof fn lemma_delay_progression(d: u64, ts: Seq<Timestamp>)
    requires
        ts.len() >= 1,
        forall|i: int|
            0 <= i < ts.len() - 1 ==> mod_chain(
                seq![TimeModifier::Delay(d)],
                #[trigger] ts[i],
                ts[i + 1],
            ),
    ensures
        forall|i: int| 0 <= i < ts.len() ==> #[trigger] ts[i].epoch_ms == ts[0].epoch_ms + i * d,
    decreases ts.len(),
{
    if ts.len() > 1 {
        let n = ts.len() - 1;
        lemma_delay_progression(d, ts.drop_last());
        assert forall|i: int| 0 <= i < n implies ts.drop_last()[i] == ts[i] by {}
        lemma_mod_chain_single(TimeModifier::Delay(d), ts[n - 1], ts[n]);
        assert(ts[n].epoch_ms == ts[n - 1].epoch_ms + d);
        assert((n - 1) * d + d == n * d) by (nonlinear_arith);
        assert forall|i: int| 0 <= i < ts.len() implies #[trigger] ts[i].epoch_ms == ts[0].epoch_ms
            + i * d by {
            if i < n {
                assert(ts.drop_last()[i] == ts[i]);
                assert(ts.drop_last()[0] == ts[0]);
            }
        }
    }
}

/// A month count so large that the target year must pass the cap.
proof fn lemma_months_overflow(c: CivilTime, n: u64)
    requires
        c.wf(),
        n > 120000,
    ensures
        apply_civil(TimeModifier::Months(n), c) is None,
{
    let t = c.month - 1 + n;
    assert(t >= 120000);
    assert(t / 12 >= 10000) by {
        lemma_fundamental_div_mod(t, 12);
        lemma_mod_division_less_than_divisor(t, 12);
    }
}

} // verus!
