use remindme::civil::CivilTime;
use remindme::render::{dec_of, render_time, two_dec_of};
use remindme::store::TimeFormat;
use remindme::time::{apply, apply_seq, CalendarError, TimeModifier, Timestamp};

fn civil(year: i64, month: u8, day: u8, hour: u8, minute: u8, second: u8) -> CivilTime {
    CivilTime { year, month, day, hour, minute, second }
}

fn ny(c: CivilTime) -> Timestamp {
    Timestamp::from_civil(c, "America/New_York").expect("civil time should resolve")
}

#[test]
fn epoch_of_known_civil_time() {
    // 2001-03-06 15:00 in New York is 2001-03-06 20:00 UTC.
    let t = ny(civil(2001, 3, 6, 15, 0, 0));
    assert_eq!(t.epoch_ms, 983908800000);
    assert_eq!(t.civil, civil(2001, 3, 6, 15, 0, 0));
    assert_eq!(t.tz, "America/New_York");
}

#[test]
fn delay_moves_the_instant_exactly() {
    let t = ny(civil(2001, 3, 6, 15, 0, 0));
    let r = apply(&TimeModifier::Delay(86400000), &t).unwrap();
    assert_eq!(r.epoch_ms, t.epoch_ms + 86400000);
    // No transition that week: the civil reading moves one day too.
    assert_eq!(r.civil, civil(2001, 3, 7, 15, 0, 0));
}

#[test]
fn weekday_from_same_weekday_is_seven_days_later() {
    // 2001-03-06 was a Tuesday; Weekday(Tuesday) never stays put.
    let t = ny(civil(2001, 3, 6, 9, 30, 0));
    let r = apply(&TimeModifier::Weekday(1), &t).unwrap();
    assert_eq!(r.civil, civil(2001, 3, 13, 9, 30, 0));
}

#[test]
fn weekday_advances_to_next_occurrence() {
    // From Tuesday to Friday (ordinal 4) is three days.
    let t = ny(civil(2001, 3, 6, 9, 30, 0));
    let r = apply(&TimeModifier::Weekday(4), &t).unwrap();
    assert_eq!(r.civil, civil(2001, 3, 9, 9, 30, 0));
}

#[test]
fn time_of_day_replaces_clock_and_zeroes_seconds() {
    let t = ny(civil(2001, 3, 6, 9, 30, 59));
    let r = apply(&TimeModifier::TimeOfDay { hour: 15, minute: 45 }, &t).unwrap();
    assert_eq!(r.civil, civil(2001, 3, 6, 15, 45, 0));
}

#[test]
fn date_defaults_missing_parts_to_the_base() {
    let t = ny(civil(2001, 3, 6, 9, 30, 15));
    let r = apply(&TimeModifier::Date { year: None, month: None, day: 20 }, &t).unwrap();
    assert_eq!(r.civil, civil(2001, 3, 20, 9, 30, 15));
    let r2 = apply(&TimeModifier::Date { year: Some(2002), month: Some(7), day: 4 }, &t).unwrap();
    assert_eq!(r2.civil, civil(2002, 7, 4, 9, 30, 15));
}

#[test]
fn invalid_date_is_a_calendar_error() {
    let t = ny(civil(2001, 3, 6, 9, 30, 0));
    let r = apply(&TimeModifier::Date { year: None, month: Some(2), day: 30 }, &t);
    assert_eq!(r, Err(CalendarError::Invalid));
}

#[test]
fn invalid_clock_is_a_calendar_error() {
    let t = ny(civil(2001, 3, 6, 9, 30, 0));
    let r = apply(&TimeModifier::TimeOfDay { hour: 99, minute: 0 }, &t);
    assert_eq!(r, Err(CalendarError::Invalid));
}

#[test]
fn months_clamp_to_the_end_of_month() {
    let t = ny(civil(2001, 1, 31, 12, 0, 0));
    let r = apply(&TimeModifier::Months(1), &t).unwrap();
    assert_eq!(r.civil, civil(2001, 2, 28, 12, 0, 0));
    let leap = ny(civil(2004, 1, 31, 12, 0, 0));
    let rl = apply(&TimeModifier::Months(1), &leap).unwrap();
    assert_eq!(rl.civil, civil(2004, 2, 29, 12, 0, 0));
}

#[test]
fn months_roll_the_year() {
    let t = ny(civil(2001, 11, 15, 12, 0, 0));
    let r = apply(&TimeModifier::Months(3), &t).unwrap();
    assert_eq!(r.civil, civil(2002, 2, 15, 12, 0, 0));
}

#[test]
fn months_far_out_of_range_fail() {
    let t = ny(civil(2001, 1, 1, 0, 0, 0));
    let r = apply(&TimeModifier::Months(1000000), &t);
    assert_eq!(r, Err(CalendarError::OutOfRange));
}

#[test]
fn modifiers_apply_left_to_right() {
    // One week ahead, then the next Tuesday after that point.
    let t = ny(civil(2001, 3, 6, 9, 0, 0));
    let mods = vec![TimeModifier::Delay(7 * 86400000), TimeModifier::Weekday(1)];
    let r = apply_seq(&mods, &t).unwrap();
    assert_eq!(r.civil, civil(2001, 3, 20, 9, 0, 0));
}

#[test]
fn repeated_delay_progresses_arithmetically() {
    let t0 = ny(civil(2001, 3, 6, 15, 0, 0));
    let day = 86400000;
    let mut cur = t0.clone();
    for n in 1..=5i64 {
        cur = apply(&TimeModifier::Delay(day as u64), &cur).unwrap();
        assert_eq!(cur.epoch_ms, t0.epoch_ms + n * day);
    }
}

#[test]
fn rendering_shows_weekday_date_and_clock() {
    let t = ny(civil(2001, 3, 6, 15, 0, 0));
    assert_eq!(
        render_time(&t, TimeFormat::H12),
        "Tuesday, March 06, 2001 at 3:00pm America/New_York"
    );
    assert_eq!(
        render_time(&t, TimeFormat::H24),
        "Tuesday, March 06, 2001 at 15:00 America/New_York"
    );
    let morning = ny(civil(2001, 3, 7, 0, 5, 0));
    assert_eq!(
        render_time(&morning, TimeFormat::H12),
        "Wednesday, March 07, 2001 at 12:05am America/New_York"
    );
}

#[test]
fn decimal_rendering_is_exact() {
    assert_eq!(dec_of(0), "0");
    assert_eq!(dec_of(2001), "2001");
    assert_eq!(dec_of(u64::MAX), "18446744073709551615");
    assert_eq!(two_dec_of(6), "06");
    assert_eq!(two_dec_of(59), "59");
}

#[test]
fn unknown_zone_does_not_resolve() {
    let r = Timestamp::from_civil(civil(2001, 3, 6, 15, 0, 0), "Nowhere/Special");
    assert!(r.is_none());
}

#[test]
fn now_in_returns_the_requested_zone() {
    let t = Timestamp::now_in("America/New_York").unwrap();
    assert_eq!(t.tz, "America/New_York");
    assert!(t.civil.year >= 2020);
}
