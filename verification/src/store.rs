//! The reminder store: per-user collections of reminders, kept sorted
//! ascending by trigger instant at all times. A reminder's id is its
//! current index in that sorted collection, so inserting or removing
//! shifts which reminder a given id names.

use crate::civil::CivilTime;
use crate::time::{TimeModifier, Timestamp};
use vstd::prelude::*;
use vstd::seq_lib::*;

verus! {

broadcast use vstd::std_specs::hash::group_hash_axioms;

/// A scheduled reminder: when to fire, what to say, and an optional
/// recurrence interval (a modifier sequence applied to the trigger time).
#[derive(Debug, PartialEq)]
pub struct Reminder {
    pub time: Timestamp,
    pub message: String,
    pub interval: Option<Vec<TimeModifier>>,
}

/// The mathematical content of a reminder.
pub ghost struct ReminderView {
    pub epoch_ms: int,
    pub civil: CivilTime,
    pub tz: Seq<char>,
    pub message: Seq<char>,
    pub interval: Option<Seq<TimeModifier>>,
}

impl View for Reminder {
    type V = ReminderView;

    open spec fn view(&self) -> ReminderView {
        ReminderView {
            epoch_ms: self.time.epoch_ms as int,
            civil: self.time.civil,
            tz: self.time.tz@,
            message: self.message@,
            interval: match self.interval {
                Some(v) => Some(v@),
                None => None,
            },
        }
    }
}

impl Clone for Reminder {
    fn clone(&self) -> (r: Self)
        ensures
            r@ == self@,
    {
        let interval = match &self.interval {
            Some(v) => {
                let c = v.clone();
                proof {
                    assert(c@ =~= v@);
                }
                Some(c)
            },
            None => None,
        };
        Reminder { time: self.time.clone(), message: self.message.clone(), interval }
    }
}

/// The sort invariant: ascending by trigger instant.
pub open spec fn sorted_by_time(s: Seq<ReminderView>) -> bool {
    forall|i: int, j: int| 0 <= i < j < s.len() ==> s[i].epoch_ms <= s[j].epoch_ms
}

/// Every stored trigger time carries a well-formed civil reading.
pub open spec fn valid_times(s: Seq<ReminderView>) -> bool {
    forall|i: int| 0 <= i < s.len() ==> (#[trigger] s[i]).civil.wf()
}

/// Where a stable ascending insert puts a reminder with trigger instant
/// `e`: after every element at most `e`, before the rest.
pub open spec fn upper_bound(s: Seq<ReminderView>, e: int) -> int
    decreases s.len(),
{
    if s.len() == 0 {
        0
    } else if s[0].epoch_ms <= e {
        1 + upper_bound(s.drop_first(), e)
    } else {
        0
    }
}

pub proof fn lemma_upper_bound_char(s: Seq<ReminderView>, e: int, p: int)
    requires
        0 <= p <= s.len(),
        forall|j: int| 0 <= j < p ==> s[j].epoch_ms <= e,
        p == s.len() || s[p as int].epoch_ms > e,
        sorted_by_time(s),
    ensures
        upper_bound(s, e) == p,
    decreases s.len(),
{
    if s.len() == 0 {
    } else if s[0].epoch_ms <= e {
        assert(p > 0);
        let t = s.drop_first();
        assert(sorted_by_time(t)) by {
            assert(forall|i: int, j: int|
                0 <= i < j < t.len() ==> t[i] == s[i + 1] && t[j] == s[j + 1]);
        }
        assert(forall|j: int| 0 <= j < p - 1 ==> t[j] == s[j + 1] && t[j].epoch_ms <= e);
        if p < s.len() {
            assert(t[p - 1] == s[p as int]);
        }
        lemma_upper_bound_char(t, e, p - 1);
    } else {
        assert(p == 0);
    }
}

/// In a sorted collection, `upper_bound` splits the due prefix from the
/// rest: everything before it is at most `e`, everything from it on is
/// later.
pub proof fn lemma_upper_bound_props(s: Seq<ReminderView>, e: int)
    requires
        sorted_by_time(s),
    ensures
        0 <= upper_bound(s, e) <= s.len(),
        forall|j: int| 0 <= j < upper_bound(s, e) ==> s[j].epoch_ms <= e,
        upper_bound(s, e) == s.len() || s[upper_bound(s, e)].epoch_ms > e,
    decreases s.len(),
{
    if s.len() > 0 && s[0].epoch_ms <= e {
        let t = s.drop_first();
        assert(sorted_by_time(t)) by {
            assert(forall|i: int, j: int|
                0 <= i < j < t.len() ==> t[i] == s[i + 1] && t[j] == s[j + 1]);
        }
        lemma_upper_bound_props(t, e);
        assert(forall|j: int| 1 <= j < upper_bound(s, e) ==> s[j] == t[j - 1]);
        if upper_bound(s, e) < s.len() {
            assert(s[upper_bound(s, e)] == t[upper_bound(t, e)]);
        }
    }
}

/// Inserting at the stable position keeps the collection sorted.
proof fn lemma_insert_sorted(s: Seq<ReminderView>, rv: ReminderView, p: int)
    requires
        sorted_by_time(s),
        0 <= p <= s.len(),
        forall|j: int| 0 <= j < p ==> s[j].epoch_ms <= rv.epoch_ms,
        p == s.len() || s[p as int].epoch_ms > rv.epoch_ms,
    ensures
        sorted_by_time(s.insert(p, rv)),
{
    let n = s.insert(p, rv);
    s.insert_ensures(p, rv);
    assert forall|i: int, j: int| 0 <= i < j < n.len() implies n[i].epoch_ms <= n[j].epoch_ms by {
        if i < p && j < p {
        } else if i == p && j > p {
            assert(n[j] == s[j - 1]);
            assert(s[p as int].epoch_ms <= s[j - 1].epoch_ms || p == j - 1);
        } else if j == p {
            assert(n[i] == s[i]);
        } else if i < p && j > p {
            assert(n[i] == s[i] && n[j] == s[j - 1]);
            if p < j - 1 {
                assert(s[p as int].epoch_ms <= s[j - 1].epoch_ms);
            }
        } else if i > p && j > p {
            assert(n[i] == s[i - 1] && n[j] == s[j - 1]);
        }
    }
}

/// The per-user reminder collections of all users.
pub struct ReminderStore {
    users: Vec<u64>,
    map: std::collections::HashMap<u64, Vec<Reminder>>,
}

pub open spec fn list_view(l: Vec<Reminder>) -> Seq<ReminderView> {
    l@.map_values(|r: Reminder| r@)
}

impl View for ReminderStore {
    type V = Map<u64, Seq<ReminderView>>;

    closed spec fn view(&self) -> Map<u64, Seq<ReminderView>> {
        self.map@.map_values(|l: Vec<Reminder>| list_view(l))
    }
}

/// The list a user has, an empty one when the store has none for them.
pub open spec fn list_of(m: Map<u64, Seq<ReminderView>>, user: u64) -> Seq<ReminderView> {
    if m.contains_key(user) {
        m[user]
    } else {
        Seq::empty()
    }
}

impl ReminderStore {
    /// The store's invariant: the user index names exactly the keys,
    /// without repetition, and every collection is sorted with
    /// well-formed trigger times.
    pub closed spec fn wf(self) -> bool {
        &&& self.map@.dom() == self.users@.to_set()
        &&& forall|i: int, j: int|
            0 <= i < j < self.users@.len() ==> self.users@[i] != self.users@[j]
        &&& forall|u: u64|
            #[trigger] self@.contains_key(u) ==> sorted_by_time(self@[u]) && valid_times(self@[u])
    }

    pub fn new() -> (r: ReminderStore)
        ensures
            r.wf(),
            r@ == Map::<u64, Seq<ReminderView>>::empty(),
    {
        let r = ReminderStore { users: Vec::new(), map: std::collections::HashMap::new() };
        proof {
            assert(r.map@.dom() =~= r.users@.to_set());
            assert(r@ =~= Map::<u64, Seq<ReminderView>>::empty());
        }
        r
    }

    /// The users that have a collection, in insertion order: every key
    /// of the store once, and nothing else.
    pub fn users(&self) -> (r: &Vec<u64>)
        requires
            self.wf(),
        ensures
            r@.to_set() == self@.dom(),
            forall|i: int, j: int| 0 <= i < j < r@.len() ==> r@[i] != r@[j],
    {
        &self.users
    }

    /// What the invariant gives every caller: each collection is sorted,
    /// holds well-formed trigger times, and fits in memory.
    pub proof fn lemma_wf_lists(&self)
        requires
            self.wf(),
        ensures
            forall|u: u64|
                #[trigger] self@.contains_key(u) ==> sorted_by_time(self@[u]) && valid_times(
                    self@[u],
                ) && self@[u].len() <= usize::MAX,
    {
        broadcast use vstd::std_specs::vec::axiom_spec_len;

        assert forall|u: u64| #[trigger] self@.contains_key(u) implies sorted_by_time(self@[u])
            && valid_times(self@[u]) && self@[u].len() <= usize::MAX by {
            let v = self.map@[u];
            assert(vstd::std_specs::vec::spec_vec_len(&v) == v@.len());
            assert(self@[u].len() == v@.len());
        }
    }

    /// Insert a reminder into its user's collection, keeping it sorted
    /// ascending by trigger instant; equal instants keep insertion order.
    /// Returns the position the reminder now occupies: its id.
    pub fn add(&mut self, user: u64, r: Reminder) -> (pos: usize)
        requires
            old(self).wf(),
            r.time.wf(),
        ensures
            final(self).wf(),
            pos == upper_bound(list_of(old(self)@, user), r@.epoch_ms),
            pos <= list_of(old(self)@, user).len(),
            final(self)@ == old(self)@.insert(user, list_of(old(self)@, user).insert(pos as int, r@)),
    {
        let ghost old_map = self@;
        let ghost lv = list_of(old_map, user);
        let known = self.map.contains_key(&user);
        proof {
            assert(old_map.contains_key(user) == self.map@.contains_key(user));
        }
        if !known {
            proof {
                broadcast use vstd::seq_lib::group_seq_properties;
            }
            self.users.push(user);
        }
        let mut list = match self.map.remove(&user) {
            Some(l) => l,
            None => Vec::new(),
        };
        proof {
            assert(list_view(list) =~= lv);
        }
        let e = r.time.epoch_ms;
        let mut pos: usize = 0;
        while pos < list.len() && list[pos].time.epoch_ms <= e
            invariant
                pos <= list.len(),
                list_view(list) == lv,
                forall|j: int| 0 <= j < pos ==> lv[j].epoch_ms <= e,
            decreases list.len() - pos,
        {
            assert(lv[pos as int].epoch_ms == list@[pos as int]@.epoch_ms);
            pos = pos + 1;
        }
        proof {
            assert(pos == list.len() || lv[pos as int].epoch_ms > e);
            assert(sorted_by_time(lv) && valid_times(lv)) by {
                if old_map.contains_key(user) {
                    assert(old_map.contains_key(user));
                }
            }
            lemma_upper_bound_char(lv, e as int, pos as int);
            lemma_insert_sorted(lv, r@, pos as int);
        }
        list.insert(pos, r);
        proof {
            list@.insert_ensures(pos as int, r);
            lv.insert_ensures(pos as int, r@);
            assert(list_view(list) =~= lv.insert(pos as int, r@));
        }
        self.map.insert(user, list);
        proof {
            assert(self@ =~= old_map.insert(user, lv.insert(pos as int, r@)));
            assert(self.map@.dom() =~= self.users@.to_set()) by {
                broadcast use vstd::seq_lib::group_seq_properties;
                assert(old(self).map@.dom() == old(self).users@.to_set());
            }
            assert(valid_times(lv.insert(pos as int, r@))) by {
                lv.insert_ensures(pos as int, r@);
            }
            assert forall|u: u64| #[trigger] self@.contains_key(u) implies sorted_by_time(self@[u])
                && valid_times(self@[u]) by {
                if u != user {
                    assert(old_map.contains_key(u) && old_map[u] == self@[u]);
                }
            }
        }
        pos
    }

    /// A user's collection, in ascending trigger order; `None` for a
    /// user the store has never seen.
    pub fn list(&self, user: u64) -> (r: Option<&Vec<Reminder>>)
        requires
            self.wf(),
        ensures
            r matches Some(l) ==> self@.contains_key(user) && list_view(*l) == self@[user],
            r is None <==> !self@.contains_key(user),
    {
        match self.map.get(&user) {
            Some(l) => Some(l),
            None => None,
        }
    }

    /// Remove the reminder at position `idx` of the user's collection;
    /// later reminders shift down by one. `Err` exactly when no such
    /// position exists.
    pub fn remove_at(&mut self, user: u64, idx: usize) -> (r: Result<Reminder, ()>)
        requires
            old(self).wf(),
        ensures
            final(self).wf(),
            r is Ok <==> idx < list_of(old(self)@, user).len(),
            r matches Ok(rem) ==> rem@ == list_of(old(self)@, user)[idx as int] && final(self)@
                == old(self)@.insert(user, list_of(old(self)@, user).remove(idx as int)),
            r is Err ==> final(self)@ == old(self)@,
    {
        let ghost old_map = self@;
        let ghost lv = list_of(old_map, user);
        let mut list = match self.map.remove(&user) {
            Some(l) => l,
            None => {
                proof {
                    assert(self.map@ =~= old(self).map@);
                    assert(self@ =~= old_map);
                }
                return Err(());
            },
        };
        proof {
            assert(list_view(list) =~= lv);
        }
        if idx >= list.len() {
            self.map.insert(user, list);
            proof {
                assert(self.map@ =~= old(self).map@);
                assert(self@ =~= old_map);
            }
            return Err(());
        }
        let rem = list.remove(idx);
        proof {
            list@.insert(0, rem).remove_ensures(0);
            lv.remove_ensures(idx as int);
            assert(list_view(list) =~= lv.remove(idx as int));
        }
        self.map.insert(user, list);
        proof {
            assert(self@ =~= old_map.insert(user, lv.remove(idx as int)));
            assert(self.map@.dom() =~= old(self).map@.dom());
            assert(sorted_by_time(lv) && valid_times(lv));
            assert(sorted_by_time(lv.remove(idx as int)) && valid_times(lv.remove(idx as int)))
                by {
                lv.remove_ensures(idx as int);
            }
            assert forall|u: u64| #[trigger] self@.contains_key(u) implies sorted_by_time(self@[u])
                && valid_times(self@[u]) by {
                if u != user {
                    assert(old_map.contains_key(u) && old_map[u] == self@[u]);
                }
            }
        }
        Ok(rem)
    }

    /// Replace the interval of the reminder at position `idx`, leaving
    /// its trigger time and message alone; the collection keeps its
    /// order. Returns the reminder as it now stands; `Err` exactly when
    /// no such position exists.
    fn put_interval(&mut self, user: u64, idx: usize, interval: Option<Vec<TimeModifier>>) -> (r:
        Result<Reminder, ()>)
        requires
            old(self).wf(),
        ensures
            final(self).wf(),
            r is Ok <==> idx < list_of(old(self)@, user).len(),
            r matches Ok(rem) ==> {
                let old_rv = list_of(old(self)@, user)[idx as int];
                let new_rv = ReminderView {
                    interval: match interval {
                        Some(v) => Some(v@),
                        None => None,
                    },
                    ..old_rv
                };
                rem@ == new_rv && final(self)@ == old(self)@.insert(
                    user,
                    list_of(old(self)@, user).update(idx as int, new_rv),
                )
            },
            r is Err ==> final(self)@ == old(self)@,
    {
        let ghost old_map = self@;
        let ghost lv = list_of(old_map, user);
        let mut list = match self.map.remove(&user) {
            Some(l) => l,
            None => {
                proof {
                    assert(self.map@ =~= old(self).map@);
                    assert(self@ =~= old_map);
                }
                return Err(());
            },
        };
        proof {
            assert(list_view(list) =~= lv);
        }
        if idx >= list.len() {
            self.map.insert(user, list);
            proof {
                assert(self.map@ =~= old(self).map@);
                assert(self@ =~= old_map);
            }
            return Err(());
        }
        let prev = list.remove(idx);
        let updated = Reminder { time: prev.time, message: prev.message, interval };
        let rem = updated.clone();
        let ghost new_rv = updated@;
        list.insert(idx, updated);
        proof {
            lv.remove_ensures(idx as int);
            lv.remove(idx as int).insert_ensures(idx as int, new_rv);
            assert(list_view(list) =~= lv.remove(idx as int).insert(idx as int, new_rv));
            assert(lv.remove(idx as int).insert(idx as int, new_rv) =~= lv.update(
                idx as int,
                new_rv,
            ));
        }
        self.map.insert(user, list);
        proof {
            assert(self@ =~= old_map.insert(user, lv.update(idx as int, new_rv)));
            assert(sorted_by_time(lv) && valid_times(lv));
            assert(new_rv.epoch_ms == lv[idx as int].epoch_ms);
            assert(sorted_by_time(lv.update(idx as int, new_rv)));
            assert(valid_times(lv.update(idx as int, new_rv)));
            assert forall|u: u64| #[trigger] self@.contains_key(u) implies sorted_by_time(self@[u])
                && valid_times(self@[u]) by {
                if u != user {
                    assert(old_map.contains_key(u) && old_map[u] == self@[u]);
                }
            }
        }
        Ok(rem)
    }

    /// Give the reminder at position `idx` a recurrence interval.
    pub fn set_interval(&mut self, user: u64, idx: usize, modifiers: Vec<TimeModifier>) -> (r:
        Result<Reminder, ()>)
        requires
            old(self).wf(),
        ensures
            final(self).wf(),
            r is Ok <==> idx < list_of(old(self)@, user).len(),
            r matches Ok(rem) ==> {
                let old_rv = list_of(old(self)@, user)[idx as int];
                let new_rv = ReminderView { interval: Some(modifiers@), ..old_rv };
                rem@ == new_rv && final(self)@ == old(self)@.insert(
                    user,
                    list_of(old(self)@, user).update(idx as int, new_rv),
                )
            },
            r is Err ==> final(self)@ == old(self)@,
    {
        self.put_interval(user, idx, Some(modifiers))
    }

    /// Take away the recurrence interval of the reminder at position
    /// `idx`: it will fire once and be gone.
    pub fn clear_interval(&mut self, user: u64, idx: usize) -> (r: Result<Reminder, ()>)
        requires
            old(self).wf(),
        ensures
            final(self).wf(),
            r is Ok <==> idx < list_of(old(self)@, user).len(),
            r matches Ok(rem) ==> {
                let old_rv = list_of(old(self)@, user)[idx as int];
                let new_rv = ReminderView { interval: None, ..old_rv };
                rem@ == new_rv && final(self)@ == old(self)@.insert(
                    user,
                    list_of(old(self)@, user).update(idx as int, new_rv),
                )
            },
            r is Err ==> final(self)@ == old(self)@,
    {
        self.put_interval(user, idx, None)
    }
}

/// How a clock time is shown to a user.
#[derive(Debug, Clone, Copy, PartialEq, Eq)]
pub enum TimeFormat {
    H12,
    H24,
}

/// Per-user settings: the time zone reminders are read in, and the
/// display format for listed times.
#[derive(Debug, PartialEq)]
pub struct Preferences {
    pub timezone: String,
    pub time_format: TimeFormat,
}

pub ghost struct PreferencesView {
    pub timezone: Seq<char>,
    pub time_format: TimeFormat,
}

impl View for Preferences {
    type V = PreferencesView;

    open spec fn view(&self) -> PreferencesView {
        PreferencesView { timezone: self.timezone@, time_format: self.time_format }
    }
}

impl Clone for Preferences {
    fn clone(&self) -> (r: Self)
        ensures
            r@ == self@,
    {
        Preferences { timezone: self.timezone.clone(), time_format: self.time_format }
    }
}

/// The settings a user has before writing any.
pub open spec fn default_preferences() -> PreferencesView {
    PreferencesView { timezone: "America/New_York"@, time_format: TimeFormat::H12 }
}

impl Default for Preferences {
    fn default() -> (r: Self)
        ensures
            r@ == default_preferences(),
    {
        Preferences { timezone: "America/New_York".to_owned(), time_format: TimeFormat::H12 }
    }
}

/// The settings of a user, the defaults when none are stored.
pub open spec fn prefs_of(m: Map<u64, PreferencesView>, user: u64) -> PreferencesView {
    if m.contains_key(user) {
        m[user]
    } else {
        default_preferences()
    }
}

/// The per-user settings of all users.
pub struct PreferenceStore {
    users: Vec<u64>,
    map: std::collections::HashMap<u64, Preferences>,
}

impl View for PreferenceStore {
    type V = Map<u64, PreferencesView>;

    closed spec fn view(&self) -> Map<u64, PreferencesView> {
        self.map@.map_values(|p: Preferences| p@)
    }
}

impl PreferenceStore {
    pub closed spec fn wf(self) -> bool {
        &&& self.map@.dom() == self.users@.to_set()
        &&& forall|i: int, j: int|
            0 <= i < j < self.users@.len() ==> self.users@[i] != self.users@[j]
    }

    pub fn new() -> (r: PreferenceStore)
        ensures
            r.wf(),
            r@ == Map::<u64, PreferencesView>::empty(),
    {
        let r = PreferenceStore { users: Vec::new(), map: std::collections::HashMap::new() };
        proof {
            assert(r.map@.dom() =~= r.users@.to_set());
            assert(r@ =~= Map::<u64, PreferencesView>::empty());
        }
        r
    }

    /// The users that have stored settings, each once.
    pub fn users(&self) -> (r: &Vec<u64>)
        requires
            self.wf(),
        ensures
            r@.to_set() == self@.dom(),
            forall|i: int, j: int| 0 <= i < j < r@.len() ==> r@[i] != r@[j],
    {
        &self.users
    }

    /// A user's settings; the defaults when they never stored any.
    pub fn get(&self, user: u64) -> (r: Preferences)
        requires
            self.wf(),
        ensures
            r@ == prefs_of(self@, user),
    {
        match self.map.get(&user) {
            Some(p) => p.clone(),
            None => Preferences::default(),
        }
    }

    /// Store new settings for a user wholesale.
    pub fn put(&mut self, user: u64, prefs: Preferences)
        requires
            old(self).wf(),
        ensures
            final(self).wf(),
            final(self)@ == old(self)@.insert(user, prefs@),
    {
        let known = self.map.contains_key(&user);
        if !known {
            self.users.push(user);
        }
        self.map.insert(user, prefs);
        proof {
            broadcast use vstd::seq_lib::group_seq_properties;

            assert(self@ =~= old(self)@.insert(user, prefs@));
            assert(self.map@.dom() =~= self.users@.to_set());
        }
    }

    /// Point a user's reminders at a time zone, keeping their display
    /// format (the default format when they had no settings).
    pub fn set_timezone(&mut self, user: u64, timezone: String)
        requires
            old(self).wf(),
        ensures
            final(self).wf(),
            final(self)@ == old(self)@.insert(
                user,
                PreferencesView { timezone: timezone@, ..prefs_of(old(self)@, user) },
            ),
    {
        let prev = self.get(user);
        self.put(user, Preferences { timezone, time_format: prev.time_format });
    }

    /// Choose how times are displayed for a user, keeping their zone.
    pub fn set_time_format(&mut self, user: u64, time_format: TimeFormat)
        requires
            old(self).wf(),
        ensures
            final(self).wf(),
            final(self)@ == old(self)@.insert(
                user,
                PreferencesView { time_format: time_format, ..prefs_of(old(self)@, user) },
            ),
    {
        let prev = self.get(user);
        self.put(user, Preferences { timezone: prev.timezone, time_format });
    }
}

} // verus!
