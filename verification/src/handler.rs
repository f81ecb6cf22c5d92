//! The command handler: each parsed command mutates the reminder and
//! preference stores and yields a user-facing response, both pinned down
//! exactly (a listing that must consult the time zone database for its
//! recurrence times is pinned in all other respects).

use crate::render::{dec_spec, dec_of, render_time, time_text};
use crate::store::{
    list_of, prefs_of, upper_bound, PreferenceStore, Preferences, Reminder, ReminderStore,
    ReminderView, TimeFormat,
};
use crate::time::{CalendarError, Timestamp};
use crate::parse::Command;
use vstd::prelude::*;
use vstd::string::StringExecFns;

verus! {

/// What a command can fail with: a positional id that names no
/// reminder, or a calendar computation that the time zone database
/// refused.
#[derive(Debug, Clone, Copy, PartialEq, Eq)]
pub enum CommandError {
    InvalidID(u64),
    Calendar(CalendarError),
}

pub open spec fn error_text(e: CommandError) -> Seq<char> {
    match e {
        CommandError::InvalidID(id) => "Invalid reminder ID: "@ + dec_spec(id as nat),
        CommandError::Calendar(_) => "Time computation error"@,
    }
}

impl CommandError {
    /// The message shown to the user for this error.
    pub fn text(&self) -> (r: String)
        ensures
            r@ == error_text(*self),
    {
        match self {
            CommandError::InvalidID(id) => {
                let mut out = String::new();
                out.append("Invalid reminder ID: ");
                out.append(dec_of(*id).as_str());
                proof {
                    assert(out@ =~= error_text(*self));
                }
                out
            },
            CommandError::Calendar(_) => "Time computation error".to_owned(),
        }
    }
}

/// The view of the reminder a schedule command stores for one candidate.
pub open spec fn rv_of(t: Timestamp, msg: Seq<char>) -> ReminderView {
    ReminderView {
        epoch_ms: t.epoch_ms as int,
        civil: t.civil,
        tz: t.tz@,
        message: msg,
        interval: None,
    }
}

pub open spec fn sched_line(t: Timestamp, pos: nat, fmt: TimeFormat) -> Seq<char> {
    "Scheduled reminder for "@ + time_text(t.civil, t.tz@, fmt) + " (#"@ + dec_spec(pos) + ")"@
}

/// The store and response after scheduling the first `n` candidates in
/// order: each is inserted at its stable sorted position, and one line
/// per candidate names its time and the id it got.
pub open spec fn sched_upto(
    m0: Map<u64, Seq<ReminderView>>,
    user: u64,
    times: Seq<Timestamp>,
    msg: Seq<char>,
    fmt: TimeFormat,
    n: int,
) -> (Map<u64, Seq<ReminderView>>, Seq<char>)
    decreases n,
{
    if n <= 0 {
        (m0, Seq::empty())
    } else {
        let (m, txt) = sched_upto(m0, user, times, msg, fmt, n - 1);
        let l = list_of(m, user);
        let rv = rv_of(times[n - 1], msg);
        let pos = upper_bound(l, rv.epoch_ms);
        let line = sched_line(times[n - 1], pos as nat, fmt);
        (
            m.insert(user, l.insert(pos, rv)),
            if n == 1 {
                line
            } else {
                txt + "\n"@ + line
            },
        )
    }
}

pub open spec fn plain_line(i: nat, rv: ReminderView, fmt: TimeFormat) -> Seq<char> {
    dec_spec(i) + ": "@ + time_text(rv.civil, rv.tz, fmt) + " - "@ + rv.message
}

/// The listing of the first `n` reminders without recurrence clauses,
/// one numbered line each.
pub open spec fn lines_upto(l: Seq<ReminderView>, fmt: TimeFormat, n: int) -> Seq<char>
    decreases n,
{
    if n <= 0 {
        Seq::empty()
    } else if n == 1 {
        plain_line(0, l[0], fmt)
    } else {
        lines_upto(l, fmt, n - 1) + "\n"@ + plain_line((n - 1) as nat, l[n - 1], fmt)
    }
}

pub open spec fn no_intervals(l: Seq<ReminderView>) -> bool {
    forall|k: int| 0 <= k < l.len() ==> (#[trigger] l[k]).interval is None
}

/// Handle one command against the stores, returning the response text.
/// Every store change and every response is stated here; only the
/// recurrence clause of a listing, which the time zone database decides,
/// is left open.
pub fn handle_command(
    user: u64,
    command: Command,
    reminders: &mut ReminderStore,
    prefs: &mut PreferenceStore,
) -> (r: Result<String, CommandError>)
    requires
        old(reminders).wf(),
        old(prefs).wf(),
        command matches Command::ScheduleReminder(times, _) ==> forall|k: int|
            0 <= k < times@.len() ==> (#[trigger] times@[k]).wf(),
    ensures
        final(reminders).wf(),
        final(prefs).wf(),
        ({
            let fmt = prefs_of(old(prefs)@, user).time_format;
            match command {
                Command::ScheduleReminder(times, message) => {
                    let (fm, txt) = sched_upto(
                        old(reminders)@,
                        user,
                        times@,
                        message@,
                        fmt,
                        times@.len() as int,
                    );
                    &&& final(reminders)@ == fm
                    &&& final(prefs)@ == old(prefs)@
                    &&& r matches Ok(resp) && resp@ == txt
                },
                Command::CancelReminder(id) => {
                    &&& final(prefs)@ == old(prefs)@
                    &&& if id < list_of(old(reminders)@, user).len() {
                        &&& final(reminders)@ == old(reminders)@.insert(
                            user,
                            list_of(old(reminders)@, user).remove(id as int),
                        )
                        &&& r matches Ok(resp) && resp@ == "Removed reminder '"@ + list_of(
                            old(reminders)@,
                            user,
                        )[id as int].message + "'"@
                    } else {
                        &&& final(reminders)@ == old(reminders)@
                        &&& r == Err::<String, CommandError>(CommandError::InvalidID(id))
                    }
                },
                Command::SetInterval(id, mods) => {
                    &&& final(prefs)@ == old(prefs)@
                    &&& if id < list_of(old(reminders)@, user).len() {
                        let old_rv = list_of(old(reminders)@, user)[id as int];
                        let new_rv = ReminderView { interval: Some(mods@), ..old_rv };
                        &&& final(reminders)@ == old(reminders)@.insert(
                            user,
                            list_of(old(reminders)@, user).update(id as int, new_rv),
                        )
                        &&& r matches Ok(resp) && resp@ == "Set interval for reminder '"@
                            + old_rv.message + "' (#"@ + dec_spec(id as nat) + ")"@
                    } else {
                        &&& final(reminders)@ == old(reminders)@
                        &&& r == Err::<String, CommandError>(CommandError::InvalidID(id))
                    }
                },
                Command::ClearInterval(id) => {
                    &&& final(prefs)@ == old(prefs)@
                    &&& if id < list_of(old(reminders)@, user).len() {
                        let old_rv = list_of(old(reminders)@, user)[id as int];
                        let new_rv = ReminderView { interval: None, ..old_rv };
                        &&& final(reminders)@ == old(reminders)@.insert(
                            user,
                            list_of(old(reminders)@, user).update(id as int, new_rv),
                        )
                        &&& r matches Ok(resp) && resp@ == "Cleared interval for reminder '"@
                            + old_rv.message + "' (#"@ + dec_spec(id as nat) + ")"@
                    } else {
                        &&& final(reminders)@ == old(reminders)@
                        &&& r == Err::<String, CommandError>(CommandError::InvalidID(id))
                    }
                },
                Command::ListReminders => {
                    let l = list_of(old(reminders)@, user);
                    &&& final(reminders)@ == old(reminders)@
                    &&& final(prefs)@ == old(prefs)@
                    &&& l.len() == 0 ==> (r matches Ok(resp) && resp@ == "No reminders"@)
                    &&& l.len() > 0 && no_intervals(l) ==> (r matches Ok(resp) && resp@
                        == lines_upto(l, fmt, l.len() as int))
                    &&& r matches Err(e) ==> (e is Calendar && !no_intervals(l))
                },
                Command::SetTimezone(tz) => {
                    &&& final(reminders)@ == old(reminders)@
                    &&& final(prefs)@ == old(prefs)@.insert(
                        user,
                        crate::store::PreferencesView {
                            timezone: tz@,
                            ..prefs_of(old(prefs)@, user)
                        },
                    )
                    &&& r matches Ok(resp) && resp@ == "Timezone set"@
                },
                Command::SetTimeFormat(f) => {
                    &&& final(reminders)@ == old(reminders)@
                    &&& final(prefs)@ == old(prefs)@.insert(
                        user,
                        crate::store::PreferencesView {
                            time_format: f,
                            ..prefs_of(old(prefs)@, user)
                        },
                    )
                    &&& r matches Ok(resp) && resp@ == "Time format set"@
                },
                Command::Help => {
                    &&& final(reminders)@ == old(reminders)@
                    &&& final(prefs)@ == old(prefs)@
                    &&& r matches Ok(resp) && resp@ == help_text()
                },
            }
        }),
{
    let preferences = prefs.get(user);
    let fmt = preferences.time_format;
    match command {
        Command::ScheduleReminder(times, message) => {
            let ghost m0 = reminders@;
            let mut out = String::new();
            let mut i: usize = 0;
            while i < times.len()
                invariant
                    command matches Command::ScheduleReminder(ts, ms) && ts@ == times@ && ms@
                        == message@,
                    prefs.wf(),
                    prefs@ == old(prefs)@,
                    m0 == old(reminders)@,
                    fmt == prefs_of(old(prefs)@, user).time_format,
                    i <= times@.len(),
                    reminders.wf(),
                    forall|k: int| 0 <= k < times@.len() ==> (#[trigger] times@[k]).wf(),
                    (reminders@, out@) == sched_upto(m0, user, times@, message@, fmt, i as int),
                decreases times@.len() - i,
            {
                let t = times[i].clone();
                let msg = message.clone();
                let rem = Reminder { time: t, message: msg, interval: None };
                let ghost rv = rem@;
                let pos = reminders.add(user, rem);
                let line_time = render_time(&times[i], fmt);
                let mut line = String::new();
                line.append("Scheduled reminder for ");
                line.append(line_time.as_str());
                line.append(" (#");
                line.append(dec_of(pos as u64).as_str());
                line.append(")");
                proof {
                    assert(rv == rv_of(times@[i as int], message@));
                    assert(line@ =~= sched_line(
                        times@[i as int],
                        upper_bound(list_of(sched_upto(m0, user, times@, message@, fmt, i as int).0, user), rv.epoch_ms) as nat,
                        fmt,
                    ));
                }
                if i == 0 {
                    out = line;
                } else {
                    out.append("\n");
                    out.append(line.as_str());
                }
                proof {
                    assert(out@ =~= sched_upto(m0, user, times@, message@, fmt, i + 1).1);
                }
                i = i + 1;
            }
            Ok(out)
        },
        Command::CancelReminder(id) => {
            proof {
                reminders.lemma_wf_lists();
            }
            if id > usize::MAX as u64 {
                return Err(CommandError::InvalidID(id));
            }
            match reminders.remove_at(user, id as usize) {
                Ok(rem) => {
                    let mut out = String::new();
                    out.append("Removed reminder '");
                    out.append(rem.message.as_str());
                    out.append("'");
                    proof {
                        assert(out@ =~= "Removed reminder '"@ + list_of(old(reminders)@, user)[
                            id as int
                        ].message + "'"@);
                    }
                    Ok(out)
                },
                Err(()) => Err(CommandError::InvalidID(id)),
            }
        },
        Command::SetInterval(id, mods) => {
            proof {
                reminders.lemma_wf_lists();
            }
            if id > usize::MAX as u64 {
                return Err(CommandError::InvalidID(id));
            }
            match reminders.set_interval(user, id as usize, mods) {
                Ok(rem) => {
                    let mut out = String::new();
                    out.append("Set interval for reminder '");
                    out.append(rem.message.as_str());
                    out.append("' (#");
                    out.append(dec_of(id).as_str());
                    out.append(")");
                    proof {
                        assert(out@ =~= "Set interval for reminder '"@ + list_of(
                            old(reminders)@,
                            user,
                        )[id as int].message + "' (#"@ + dec_spec(id as nat) + ")"@);
                    }
                    Ok(out)
                },
                Err(()) => Err(CommandError::InvalidID(id)),
            }
        },
        Command::ClearInterval(id) => {
            proof {
                reminders.lemma_wf_lists();
            }
            if id > usize::MAX as u64 {
                return Err(CommandError::InvalidID(id));
            }
            match reminders.clear_interval(user, id as usize) {
                Ok(rem) => {
                    let mut out = String::new();
                    out.append("Cleared interval for reminder '");
                    out.append(rem.message.as_str());
                    out.append("' (#");
                    out.append(dec_of(id).as_str());
                    out.append(")");
                    proof {
                        assert(out@ =~= "Cleared interval for reminder '"@ + list_of(
                            old(reminders)@,
                            user,
                        )[id as int].message + "' (#"@ + dec_spec(id as nat) + ")"@);
                    }
                    Ok(out)
                },
                Err(()) => Err(CommandError::InvalidID(id)),
            }
        },
        Command::ListReminders => {
            let list = match reminders.list(user) {
                Some(l) => l,
                None => {
                    return Ok("No reminders".to_owned());
                },
            };
            let ghost lv = reminders@[user];
            proof {
                reminders.lemma_wf_lists();
            }
            if list.len() == 0 {
                return Ok("No reminders".to_owned());
            }
            let mut out = String::new();
            let mut idx: usize = 0;
            while idx < list.len()
                invariant
                    command is ListReminders,
                    idx <= list@.len(),
                    reminders.wf(),
                    prefs.wf(),
                    reminders@ == old(reminders)@,
                    prefs@ == old(prefs)@,
                    reminders@.contains_key(user),
                    lv == reminders@[user],
                    lv.len() > 0,
                    crate::store::valid_times(lv),
                    crate::store::list_view(*list) == lv,
                    no_intervals(lv) ==> out@ == lines_upto(lv, fmt, idx as int),
                decreases list@.len() - idx,
            {
                proof {
                    assert(lv[idx as int] == list@[idx as int]@);
                    assert(lv[idx as int].civil.wf());
                }
                let line_time = render_time(&list[idx].time, fmt);
                if idx > 0 {
                    out.append("\n");
                }
                out.append(dec_of(idx as u64).as_str());
                out.append(": ");
                out.append(line_time.as_str());
                out.append(" - ");
                out.append(list[idx].message.as_str());
                match &list[idx].interval {
                    None => {},
                    Some(iv) => {
                        match crate::time::apply_seq(iv, &list[idx].time) {
                            Ok(end) => {
                                out.append(" (Repeats at ");
                                out.append(render_time(&end, fmt).as_str());
                                out.append(")");
                            },
                            Err(e) => {
                                proof {
                                    assert(lv[idx as int].interval is Some);
                                }
                                return Err(CommandError::Calendar(e));
                            },
                        }
                    },
                }
                proof {
                    if no_intervals(lv) {
                        assert(lv[idx as int].interval is None);
                        assert(out@ =~= lines_upto(lv, fmt, idx + 1));
                    }
                }
                idx = idx + 1;
            }
            Ok(out)
        },
        Command::SetTimezone(tz) => {
            prefs.set_timezone(user, tz);
            Ok("Timezone set".to_owned())
        },
        Command::SetTimeFormat(f) => {
            prefs.set_time_format(user, f);
            Ok("Time format set".to_owned())
        },
        Command::Help => Ok(help_of()),
    }
}

/// The help message, line by line.
pub open spec fn help_text() -> Seq<char> {
    "Time modifier examples:"@ + "\n"@ + "1d - 1 day from now"@ + "\n"@
        + "1w1h5m3s - 1 week, 1 hour, 5 minutes, 3 seconds from now"@ + "\n"@ + "3pm - 3:00 PM"@
        + "\n"@ + "3:30pm - 3:30 PM"@ + "\n"@ + "21:00 - 9:00 PM"@ + "\n"@
        + "2001-03-06 - March 6th, 2001"@ + "\n"@ + "1mo - 1 month"@ + "\n"@
        + "tuesday - Tuesday"@ + "\n"@ + "1w tuesday - The next Tuesday in 1 week"@ + "\n"@ + ""@
        + "\n"@ + "Commands:"@ + "\n"@
        + "`$r|remindme|reminder <modifiers>; message` - Schedule a reminder"@ + "\n"@
        + "`$cr <id>` - Cancel a reminder"@ + "\n"@ + "`$rs|reminders` - List reminders"@ + "\n"@
        + "`$si|setinterval <id> <modifiers>` - Set a reminder to be repeated on an interval"@
        + "\n"@ + "`$ci|clearinterval <id>` - Clear the interval of a reminder"@ + "\n"@
        + "`$h|help` - Show help"@ + "\n"@ + "`$tz|timezone <timezone> - Set your timezone`"@
        + "\n"@ + "`$tf|timeformat <12h|24h> - Set your preferred time format`"@
}

fn help_of() -> (r: String)
    ensures
        r@ == help_text(),
{
    let mut out = String::new();
    out.append("Time modifier examples:");
    out.append("\n");
    out.append("1d - 1 day from now");
    out.append("\n");
    out.append("1w1h5m3s - 1 week, 1 hour, 5 minutes, 3 seconds from now");
    out.append("\n");
    out.append("3pm - 3:00 PM");
    out.append("\n");
    out.append("3:30pm - 3:30 PM");
    out.append("\n");
    out.append("21:00 - 9:00 PM");
    out.append("\n");
    out.append("2001-03-06 - March 6th, 2001");
    out.append("\n");
    out.append("1mo - 1 month");
    out.append("\n");
    out.append("tuesday - Tuesday");
    out.append("\n");
    out.append("1w tuesday - The next Tuesday in 1 week");
    out.append("\n");
    out.append("");
    out.append("\n");
    out.append("Commands:");
    out.append("\n");
    out.append("`$r|remindme|reminder <modifiers>; message` - Schedule a reminder");
    out.append("\n");
    out.append("`$cr <id>` - Cancel a reminder");
    out.append("\n");
    out.append("`$rs|reminders` - List reminders");
    out.append("\n");
    out.append("`$si|setinterval <id> <modifiers>` - Set a reminder to be repeated on an interval");
    out.append("\n");
    out.append("`$ci|clearinterval <id>` - Clear the interval of a reminder");
    out.append("\n");
    out.append("`$h|help` - Show help");
    out.append("\n");
    out.append("`$tz|timezone <timezone> - Set your timezone`");
    out.append("\n");
    out.append("`$tf|timeformat <12h|24h> - Set your preferred time format`");
    proof {
        assert(out@ =~= help_text());
    }
    out
}

} // verus!
