use remindme::civil::CivilTime;
use remindme::handler::{handle_command, CommandError};
use remindme::parse::{parse_command, Command};
use remindme::persist::{
    merge_legacy_timezones, restore_preferences, restore_reminders, snapshot_preferences,
    snapshot_reminders,
};
use remindme::sched::tick;
use remindme::store::{PreferenceStore, Reminder, ReminderStore, TimeFormat};
use remindme::time::{TimeModifier, Timestamp};

fn civil(year: i64, month: u8, day: u8, hour: u8, minute: u8, second: u8) -> CivilTime {
    CivilTime { year, month, day, hour, minute, second }
}

fn ny(c: CivilTime) -> Timestamp {
    Timestamp::from_civil(c, "America/New_York").unwrap()
}

fn rem(t: Timestamp, message: &str) -> Reminder {
    Reminder { time: t, message: message.to_string(), interval: None }
}

fn run(user: u64, text: &str, rs: &mut ReminderStore, ps: &mut PreferenceStore) -> Result<String, CommandError> {
    let now = ny(civil(2001, 1, 1, 0, 0, 0));
    let cmd = parse_command(text, &now).expect("command should parse");
    handle_command(user, cmd, rs, ps)
}

#[test]
fn schedule_and_list_scenario() {
    let mut rs = ReminderStore::new();
    let mut ps = PreferenceStore::new();
    let resp = run(7, "$r 2001-03-06 3pm; pay rent", &mut rs, &mut ps).unwrap();
    assert_eq!(
        resp,
        "Scheduled reminder for Tuesday, March 06, 2001 at 3:00pm America/New_York (#0)"
    );
    let listing = run(7, "$rs", &mut rs, &mut ps).unwrap();
    assert_eq!(
        listing,
        "0: Tuesday, March 06, 2001 at 3:00pm America/New_York - pay rent"
    );
}

#[test]
fn listing_without_reminders() {
    let mut rs = ReminderStore::new();
    let mut ps = PreferenceStore::new();
    assert_eq!(run(7, "$rs", &mut rs, &mut ps).unwrap(), "No reminders");
}

#[test]
fn collection_stays_sorted_under_mixed_operations() {
    let mut rs = ReminderStore::new();
    let times = [30i64, 10, 20, 5, 25];
    for (k, e) in times.iter().enumerate() {
        let mut t = ny(civil(2001, 1, 1, 0, 0, 0));
        t.epoch_ms = *e;
        rs.add(1, rem(t, &format!("m{k}")));
    }
    rs.remove_at(1, 2).unwrap();
    rs.set_interval(1, 0, vec![TimeModifier::Delay(1)]).unwrap();
    let list = rs.list(1).unwrap();
    let epochs: Vec<i64> = list.iter().map(|r| r.time.epoch_ms).collect();
    assert_eq!(epochs, vec![5, 10, 25, 30]);
}

#[test]
fn equal_instants_keep_insertion_order() {
    let mut rs = ReminderStore::new();
    let t = ny(civil(2001, 1, 1, 12, 0, 0));
    let p0 = rs.add(1, rem(t.clone(), "first"));
    let p1 = rs.add(1, rem(t.clone(), "second"));
    assert_eq!((p0, p1), (0, 1));
    let list = rs.list(1).unwrap();
    assert_eq!((list[0].message.as_str(), list[1].message.as_str()), ("first", "second"));
}

#[test]
fn positional_ids_shift_after_cancel() {
    let mut rs = ReminderStore::new();
    let mut ps = PreferenceStore::new();
    run(7, "$r 2001-03-06 3pm; A", &mut rs, &mut ps).unwrap();
    run(7, "$r 2001-03-07 3pm; B", &mut rs, &mut ps).unwrap();
    let resp = run(7, "$cr 0", &mut rs, &mut ps).unwrap();
    assert_eq!(resp, "Removed reminder 'A'");
    let list = rs.list(7).unwrap();
    assert_eq!(list.len(), 1);
    assert_eq!(list[0].message, "B");
    let resp = run(7, "$cr 0", &mut rs, &mut ps).unwrap();
    assert_eq!(resp, "Removed reminder 'B'");
}

#[test]
fn invalid_ids_are_rejected() {
    let mut rs = ReminderStore::new();
    let mut ps = PreferenceStore::new();
    assert_eq!(run(7, "$cr 5", &mut rs, &mut ps), Err(CommandError::InvalidID(5)));
    assert_eq!(run(7, "$ci 0", &mut rs, &mut ps), Err(CommandError::InvalidID(0)));
    assert_eq!(run(7, "$si 2 1d", &mut rs, &mut ps), Err(CommandError::InvalidID(2)));
    assert_eq!(CommandError::InvalidID(5).text(), "Invalid reminder ID: 5");
}

#[test]
fn interval_set_and_cleared() {
    let mut rs = ReminderStore::new();
    let mut ps = PreferenceStore::new();
    run(7, "$r 2001-03-06 3pm; water", &mut rs, &mut ps).unwrap();
    let resp = run(7, "$si 0 1d", &mut rs, &mut ps).unwrap();
    assert_eq!(resp, "Set interval for reminder 'water' (#0)");
    assert_eq!(
        rs.list(7).unwrap()[0].interval,
        Some(vec![TimeModifier::Delay(86400000)])
    );
    let listing = run(7, "$rs", &mut rs, &mut ps).unwrap();
    assert_eq!(
        listing,
        "0: Tuesday, March 06, 2001 at 3:00pm America/New_York - water \
         (Repeats at Wednesday, March 07, 2001 at 3:00pm America/New_York)"
    );
    let resp = run(7, "$ci 0", &mut rs, &mut ps).unwrap();
    assert_eq!(resp, "Cleared interval for reminder 'water' (#0)");
    assert_eq!(rs.list(7).unwrap()[0].interval, None);
}

#[test]
fn preferences_default_and_update() {
    let mut rs = ReminderStore::new();
    let mut ps = PreferenceStore::new();
    let p = ps.get(9);
    assert_eq!(p.timezone, "America/New_York");
    assert_eq!(p.time_format, TimeFormat::H12);
    assert_eq!(run(9, "$tz America/Chicago", &mut rs, &mut ps).unwrap(), "Timezone set");
    assert_eq!(run(9, "$tf 24h", &mut rs, &mut ps).unwrap(), "Time format set");
    let p = ps.get(9);
    assert_eq!(p.timezone, "America/Chicago");
    assert_eq!(p.time_format, TimeFormat::H24);
}

#[test]
fn listing_honours_the_time_format() {
    let mut rs = ReminderStore::new();
    let mut ps = PreferenceStore::new();
    run(7, "$tf 24h", &mut rs, &mut ps).unwrap();
    run(7, "$r 2001-03-06 3pm; pay rent", &mut rs, &mut ps).unwrap();
    let listing = run(7, "$rs", &mut rs, &mut ps).unwrap();
    assert_eq!(
        listing,
        "0: Tuesday, March 06, 2001 at 15:00 America/New_York - pay rent"
    );
}

#[test]
fn help_lists_the_commands() {
    let mut rs = ReminderStore::new();
    let mut ps = PreferenceStore::new();
    let help = run(7, "$h", &mut rs, &mut ps).unwrap();
    assert!(help.contains("Commands:"));
    assert!(help.contains("`$cr <id>` - Cancel a reminder"));
    assert!(help.starts_with("Time modifier examples:"));
}

#[test]
fn snapshot_restore_round_trip() {
    let mut rs = ReminderStore::new();
    for (u, e, msg) in [(1u64, 20i64, "a"), (1, 10, "b"), (2, 5, "c"), (1, 15, "d")] {
        let mut t = ny(civil(2001, 1, 1, 0, 0, 0));
        t.epoch_ms = e;
        let mut r = rem(t, msg);
        if msg == "b" {
            r.interval = Some(vec![TimeModifier::Delay(60000)]);
        }
        rs.add(u, r);
    }
    let records = snapshot_reminders(&rs);
    assert_eq!(records.len(), 4);
    let restored = restore_reminders(records);
    for u in [1u64, 2] {
        assert_eq!(rs.list(u).unwrap(), restored.list(u).unwrap());
    }
    assert!(restored.list(3).is_none());
}

#[test]
fn preferences_round_trip() {
    let mut ps = PreferenceStore::new();
    ps.set_timezone(1, "America/Chicago".to_string());
    ps.set_time_format(2, TimeFormat::H24);
    let pairs = snapshot_preferences(&ps);
    assert_eq!(pairs.len(), 2);
    let restored = restore_preferences(pairs);
    for u in [1u64, 2] {
        assert_eq!(ps.get(u), restored.get(u));
    }
}

#[test]
fn legacy_timezones_fold_into_preferences() {
    let mut ps = PreferenceStore::new();
    ps.set_time_format(4, TimeFormat::H24);
    merge_legacy_timezones(
        &mut ps,
        vec![(4, "Europe/Berlin".to_string()), (5, "Asia/Tokyo".to_string())],
    );
    assert_eq!(ps.get(4).timezone, "Europe/Berlin");
    assert_eq!(ps.get(4).time_format, TimeFormat::H24);
    assert_eq!(ps.get(5).timezone, "Asia/Tokyo");
    assert_eq!(ps.get(5).time_format, TimeFormat::H12);
}

#[test]
fn tick_fires_due_reminders_in_order() {
    let mut rs = ReminderStore::new();
    let t0 = ny(civil(2001, 3, 6, 15, 0, 0));
    let later = ny(civil(2030, 1, 1, 0, 0, 0));
    let mut early = t0.clone();
    early.epoch_ms = t0.epoch_ms - 1000;
    rs.add(7, rem(early, "first"));
    rs.add(7, rem(t0.clone(), "second"));
    rs.add(7, rem(later, "far away"));
    let notes = tick(&mut rs, t0.epoch_ms);
    let texts: Vec<&str> = notes.iter().map(|n| n.message.as_str()).collect();
    assert_eq!(texts, vec!["Reminder: first", "Reminder: second"]);
    assert!(notes.iter().all(|n| n.user == 7));
    let list = rs.list(7).unwrap();
    assert_eq!(list.len(), 1);
    assert_eq!(list[0].message, "far away");
}

#[test]
fn recurring_reminder_progresses_one_interval_per_firing() {
    let mut rs = ReminderStore::new();
    let t0 = ny(civil(2001, 3, 6, 15, 0, 0));
    let day = 86400000i64;
    let mut r = rem(t0.clone(), "daily");
    r.interval = Some(vec![TimeModifier::Delay(day as u64)]);
    rs.add(7, r);
    for n in 1..=3i64 {
        let due = rs.list(7).unwrap()[0].time.epoch_ms;
        let notes = tick(&mut rs, due);
        assert_eq!(notes.len(), 1);
        assert_eq!(notes[0].message, "Reminder: daily");
        let list = rs.list(7).unwrap();
        assert_eq!(list.len(), 1);
        assert_eq!(list[0].time.epoch_ms, t0.epoch_ms + n * day);
        assert_eq!(list[0].interval, Some(vec![TimeModifier::Delay(day as u64)]));
    }
}

#[test]
fn one_shot_reminder_fires_once_and_is_gone() {
    let mut rs = ReminderStore::new();
    let t0 = ny(civil(2001, 3, 6, 15, 0, 0));
    rs.add(7, rem(t0.clone(), "once"));
    let notes = tick(&mut rs, t0.epoch_ms);
    assert_eq!(notes.len(), 1);
    assert_eq!(rs.list(7).unwrap().len(), 0);
    let notes = tick(&mut rs, t0.epoch_ms + 1);
    assert!(notes.is_empty());
}
