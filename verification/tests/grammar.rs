use remindme::civil::CivilTime;
use remindme::parse::{parse_command, Command, Modifier, ParseTimeError};
use remindme::store::TimeFormat;
use remindme::time::{TimeModifier, Timestamp};

fn base() -> Timestamp {
    Timestamp::from_civil(
        CivilTime { year: 2001, month: 3, day: 1, hour: 0, minute: 0, second: 0 },
        "America/New_York",
    )
    .unwrap()
}

fn schedule(text: &str) -> (Vec<Timestamp>, String) {
    match parse_command(text, &base()).unwrap() {
        Command::ScheduleReminder(times, msg) => (times, msg),
        other => panic!("expected a schedule command, got {:?}", other),
    }
}

#[test]
fn schedule_with_duration_run() {
    let (times, msg) = schedule("$r 1w1h5m3s; water the plants");
    assert_eq!(times.len(), 1);
    let expect = 7 * 86400000 + 3600000 + 5 * 60000 + 3000;
    assert_eq!(times[0].epoch_ms, base().epoch_ms + expect);
    assert_eq!(msg, "water the plants");
}

#[test]
fn schedule_keyword_spellings() {
    for kw in ["r", "remindme", "reminder"] {
        let (times, msg) = schedule(&format!("${kw} 1d; x"));
        assert_eq!(times.len(), 1);
        assert_eq!(times[0].epoch_ms, base().epoch_ms + 86400000);
        assert_eq!(msg, "x");
    }
}

#[test]
fn clock_time_forms() {
    let (t, _) = schedule("$r 3pm; a");
    assert_eq!((t[0].civil.hour, t[0].civil.minute, t[0].civil.second), (15, 0, 0));
    let (t, _) = schedule("$r 3:30pm; a");
    assert_eq!((t[0].civil.hour, t[0].civil.minute), (15, 30));
    let (t, _) = schedule("$r 21:00; a");
    assert_eq!((t[0].civil.hour, t[0].civil.minute), (21, 0));
    let (t, _) = schedule("$r 12am; a");
    assert_eq!(t[0].civil.hour, 0);
    let (t, _) = schedule("$r 12pm; a");
    assert_eq!(t[0].civil.hour, 12);
}

#[test]
fn date_forms() {
    let (t, _) = schedule("$r 2001-03-06; a");
    assert_eq!((t[0].civil.year, t[0].civil.month, t[0].civil.day), (2001, 3, 6));
    let (t, _) = schedule("$r --20; a");
    assert_eq!((t[0].civil.year, t[0].civil.month, t[0].civil.day), (2001, 3, 20));
    let (t, _) = schedule("$r -7-4; a");
    assert_eq!((t[0].civil.year, t[0].civil.month, t[0].civil.day), (2001, 7, 4));
}

#[test]
fn weekday_names_both_spellings() {
    let (t, _) = schedule("$r tuesday; a");
    assert_eq!((t[0].civil.month, t[0].civil.day), (3, 6));
    let (t, _) = schedule("$r Tuesday; a");
    assert_eq!((t[0].civil.month, t[0].civil.day), (3, 6));
    // Base 2001-03-01 is a Thursday; thursday lands a full week later.
    let (t, _) = schedule("$r thursday; a");
    assert_eq!((t[0].civil.month, t[0].civil.day), (3, 8));
}

#[test]
fn months_modifier() {
    let (t, _) = schedule("$r 1mo; a");
    assert_eq!((t[0].civil.year, t[0].civil.month, t[0].civil.day), (2001, 4, 1));
}

#[test]
fn permutations_expand_in_discovery_order() {
    let (t, msg) = schedule("$r (1d,2d) 3pm; pay rent");
    assert_eq!(t.len(), 2);
    assert_eq!((t[0].civil.day, t[0].civil.hour, t[0].civil.minute), (2, 15, 0));
    assert_eq!((t[1].civil.day, t[1].civil.hour, t[1].civil.minute), (3, 15, 0));
    assert_eq!(msg, "pay rent");
}

#[test]
fn permutations_with_padded_commas() {
    let (t, _) = schedule("$r (1d , 2d ,3d); a");
    assert_eq!(t.len(), 3);
}

#[test]
fn two_branches_multiply() {
    let (t, _) = schedule("$r (1d,2d) (3pm,4pm); a");
    assert_eq!(t.len(), 4);
    let hours: Vec<u8> = t.iter().map(|x| x.civil.hour).collect();
    assert_eq!(hours, vec![15, 15, 16, 16]);
}

#[test]
fn expansion_is_the_iterative_cross_product() {
    let mods = vec![
        Modifier::ModifierPermutations(vec![TimeModifier::Delay(1), TimeModifier::Delay(2)]),
        Modifier::TimeModifier(TimeModifier::Delay(9)),
    ];
    let seqs = Modifier::into_time_modifiers(mods);
    assert_eq!(
        seqs,
        vec![
            vec![TimeModifier::Delay(1), TimeModifier::Delay(9)],
            vec![TimeModifier::Delay(2), TimeModifier::Delay(9)],
        ]
    );
}

#[test]
fn other_commands_parse() {
    let now = base();
    assert_eq!(parse_command("$cr 3", &now).unwrap(), Command::CancelReminder(3));
    assert_eq!(parse_command("$cancelreminder 12", &now).unwrap(), Command::CancelReminder(12));
    assert_eq!(parse_command("$ci 0", &now).unwrap(), Command::ClearInterval(0));
    assert_eq!(parse_command("$clearinterval 7", &now).unwrap(), Command::ClearInterval(7));
    assert_eq!(parse_command("$rs", &now).unwrap(), Command::ListReminders);
    assert_eq!(parse_command("$reminders", &now).unwrap(), Command::ListReminders);
    assert_eq!(parse_command("$h", &now).unwrap(), Command::Help);
    assert_eq!(parse_command("$help", &now).unwrap(), Command::Help);
    assert_eq!(
        parse_command("$tz America/Chicago", &now).unwrap(),
        Command::SetTimezone("America/Chicago".to_string())
    );
    assert_eq!(
        parse_command("$tf 24h", &now).unwrap(),
        Command::SetTimeFormat(TimeFormat::H24)
    );
    assert_eq!(
        parse_command("$tf 12h", &now).unwrap(),
        Command::SetTimeFormat(TimeFormat::H12)
    );
}

#[test]
fn set_interval_parses_plain_modifiers() {
    let cmd = parse_command("$si 2 1d 3pm", &base()).unwrap();
    assert_eq!(
        cmd,
        Command::SetInterval(
            2,
            vec![TimeModifier::Delay(86400000), TimeModifier::TimeOfDay { hour: 15, minute: 0 }]
        )
    );
    let cmd = parse_command("$setinterval 0 1mo", &base()).unwrap();
    assert_eq!(cmd, Command::SetInterval(0, vec![TimeModifier::Months(1)]));
}

#[test]
fn syntax_errors_name_the_position() {
    let now = base();
    assert_eq!(
        parse_command("hello", &now),
        Err(ParseTimeError::Syntax { position: 0 })
    );
    assert_eq!(
        parse_command("$frobnicate", &now),
        Err(ParseTimeError::Syntax { position: 1 })
    );
    assert_eq!(
        parse_command("$r notatime; x", &now),
        Err(ParseTimeError::Syntax { position: 3 })
    );
    // A schedule needs its message.
    assert_eq!(
        parse_command("$r 1d;", &now),
        Err(ParseTimeError::Syntax { position: 6 })
    );
    // An id must be numeric.
    assert_eq!(
        parse_command("$cr x", &now),
        Err(ParseTimeError::Syntax { position: 4 })
    );
}

#[test]
fn oversized_numbers_are_number_errors() {
    let now = base();
    assert_eq!(
        parse_command("$r 99999999999999999999d; x", &now),
        Err(ParseTimeError::Number { position: 3 })
    );
    assert_eq!(
        parse_command("$cr 99999999999999999999", &now),
        Err(ParseTimeError::Number { position: 4 })
    );
}

#[test]
fn delay_sum_overflow_is_a_number_error() {
    let now = base();
    assert_eq!(
        parse_command("$r 18446744073709551615s; x", &now),
        Err(ParseTimeError::Number { position: 3 })
    );
}
