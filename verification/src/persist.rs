//! Snapshot persistence: the whole reminder store flattens into a flat
//! sequence of `{user, reminder}` records and rebuilds from one, and the
//! preference store flattens into `{user, preferences}` pairs. Restoring
//! re-sorts every collection, so the invariant holds whatever order the
//! records come back in; restoring a snapshot of a well-formed store
//! reproduces it exactly, which is proved here.

use crate::store::{
    list_of, list_view, lemma_upper_bound_char, sorted_by_time, upper_bound, PreferenceStore,
    Preferences, PreferencesView, Reminder, ReminderStore, ReminderView,
};
use vstd::prelude::*;

verus! {

/// One persisted record: a reminder and the user it belongs to.
#[derive(Debug, PartialEq)]
pub struct UserReminder {
    pub user: u64,
    pub reminder: Reminder,
}

pub open spec fn pair_views(v: Seq<UserReminder>) -> Seq<(u64, ReminderView)> {
    v.map_values(|ur: UserReminder| (ur.user, ur.reminder@))
}

/// The records of one user, in record order.
pub open spec fn user_records(p: Seq<(u64, ReminderView)>, u: u64) -> Seq<ReminderView>
    decreases p.len(),
{
    if p.len() == 0 {
        Seq::empty()
    } else if p[0].0 == u {
        seq![p[0].1] + user_records(p.drop_first(), u)
    } else {
        user_records(p.drop_first(), u)
    }
}

proof fn lemma_user_records_snoc(p: Seq<(u64, ReminderView)>, x: (u64, ReminderView), u: u64)
    ensures
        user_records(p.push(x), u) == if x.0 == u {
            user_records(p, u).push(x.1)
        } else {
            user_records(p, u)
        },
    decreases p.len(),
{
    if p.len() == 0 {
        assert(p.push(x)[0] == x);
        assert(p.push(x).drop_first() =~= Seq::<(u64, ReminderView)>::empty());
        assert(user_records(Seq::<(u64, ReminderView)>::empty(), u) =~= Seq::<
            ReminderView,
        >::empty());
        if x.0 == u {
            assert(user_records(p.push(x), u) =~= user_records(p, u).push(x.1));
        }
    } else {
        assert(p.push(x)[0] == p[0]);
        assert(p.push(x).drop_first() =~= p.drop_first().push(x));
        lemma_user_records_snoc(p.drop_first(), x, u);
        if x.0 == u {
            if p[0].0 == u {
                assert(user_records(p.push(x), u) =~= user_records(p, u).push(x.1));
            }
        }
    }
}

/// Flatten a store into records: each user's collection in order, users
/// one after another. Which records belong to a user is exactly their
/// collection.
pub fn snapshot_reminders(store: &ReminderStore) -> (r: Vec<UserReminder>)
    requires
        store.wf(),
    ensures
        forall|u: u64|
            user_records(pair_views(r@), u) == #[trigger] list_of(store@, u),
{
    let mut out: Vec<UserReminder> = Vec::new();
    let users = store.users();
    let ghost uv = users@;
    let mut i: usize = 0;
    proof {
        store.lemma_wf_lists();
    }
    while i < users.len()
        invariant
            i <= uv.len(),
            store.wf(),
            uv == users@,
            uv.to_set() == store@.dom(),
            forall|a: int, b: int| 0 <= a < b < uv.len() ==> uv[a] != uv[b],
            forall|k: int|
                0 <= k < i ==> user_records(pair_views(out@), uv[k]) == #[trigger] list_of(
                    store@,
                    uv[k],
                ),
            forall|u: u64|
                !uv.subrange(0, i as int).contains(u) ==> user_records(pair_views(out@), u)
                    == Seq::<ReminderView>::empty(),
        decreases uv.len() - i,
    {
        let user = users[i];
        let list = match store.list(user) {
            Some(l) => l,
            None => {
                proof {
                    assert(uv.to_set().contains(user));
                }
                unreached()
            },
        };
        let ghost lv = list_view(*list);
        proof {
            assert forall|u: u64| !uv.subrange(0, i + 1).contains(u) implies !uv.subrange(
                0,
                i as int,
            ).contains(u) && u != uv[i as int] by {
                if uv.subrange(0, i as int).contains(u) {
                    let w = choose|w: int| 0 <= w < i && uv.subrange(0, i as int)[w] == u;
                    assert(uv.subrange(0, i + 1)[w] == u);
                }
                if u == uv[i as int] {
                    assert(uv.subrange(0, i + 1)[i as int] == u);
                }
            }
        }
        let mut j: usize = 0;
        while j < list.len()
            invariant
                j <= list@.len(),
                store.wf(),
                lv == list_view(*list),
                lv == list_of(store@, uv[i as int]),
                i < uv.len(),
                uv.to_set() == store@.dom(),
                forall|a: int, b: int| 0 <= a < b < uv.len() ==> uv[a] != uv[b],
                user == uv[i as int],
                user_records(pair_views(out@), user) == lv.subrange(0, j as int),
                forall|k: int|
                    0 <= k < i ==> user_records(pair_views(out@), uv[k]) == #[trigger] list_of(
                        store@,
                        uv[k],
                    ),
                forall|u: u64|
                    !uv.subrange(0, i + 1).contains(u) ==> user_records(pair_views(out@), u)
                        == Seq::<ReminderView>::empty(),
            decreases list@.len() - j,
        {
            let ghost before = pair_views(out@);
            let rec = UserReminder { user, reminder: list[j].clone() };
            let ghost x = (rec.user, rec.reminder@);
            out.push(rec);
            proof {
                assert(pair_views(out@) =~= before.push(x));
                lemma_user_records_snoc(before, x, user);
                assert(lv[j as int] == list@[j as int]@);
                assert(user_records(pair_views(out@), user) =~= lv.subrange(0, j + 1));
                assert forall|u: u64| u != user implies user_records(pair_views(out@), u)
                    == user_records(before, u) by {
                    lemma_user_records_snoc(before, x, u);
                }
                assert forall|k: int| 0 <= k < i implies user_records(pair_views(out@), uv[k])
                    == #[trigger] list_of(store@, uv[k]) by {
                    assert(uv[k] != user);
                }
                assert forall|u: u64| !uv.subrange(0, i + 1).contains(u) implies user_records(
                    pair_views(out@),
                    u,
                ) == Seq::<ReminderView>::empty() by {
                    if u == uv[i as int] {
                        assert(uv.subrange(0, i + 1)[i as int] == u);
                    }
                    assert(u != user);
                    lemma_user_records_snoc(before, x, u);
                }
            }
            j = j + 1;
        }
        proof {
            assert(lv.subrange(0, lv.len() as int) =~= lv);
            assert forall|k: int| 0 <= k < i + 1 implies user_records(pair_views(out@), uv[k])
                == #[trigger] list_of(store@, uv[k]) by {
                if k < i {
                } else {
                    assert(uv.to_set().contains(user));
                    assert(store@.contains_key(user));
                }
            }
            assert forall|u: u64| !uv.subrange(0, i + 1).contains(u) implies user_records(
                pair_views(out@),
                u,
            ) == Seq::<ReminderView>::empty() by {
                assert(!uv.subrange(0, i as int).contains(u) && u != uv[i as int]) by {
                    if uv.subrange(0, i as int).contains(u) {
                        let w = choose|w: int|
                            0 <= w < i && uv.subrange(0, i as int)[w] == u;
                        assert(uv.subrange(0, i + 1)[w] == u);
                    }
                    if u == uv[i as int] {
                        assert(uv.subrange(0, i + 1)[i as int] == u);
                    }
                }
            }
        }
        i = i + 1;
    }
    proof {
        assert forall|u: u64| true implies user_records(pair_views(out@), u) == #[trigger] list_of(
            store@,
            u,
        ) by {
            assert(uv.subrange(0, uv.len() as int) =~= uv);
            if uv.contains(u) {
                let k = choose|k: int| 0 <= k < uv.len() && uv[k] == u;
            } else {
                assert(!uv.to_set().contains(u));
                assert(!store@.contains_key(u));
            }
        }
    }
    out
}

/// One record folded into a store under restore: a sorted insert into
/// its user's collection.
pub open spec fn restore_step(
    m: Map<u64, Seq<ReminderView>>,
    x: (u64, ReminderView),
) -> Map<u64, Seq<ReminderView>> {
    let l = list_of(m, x.0);
    m.insert(x.0, l.insert(upper_bound(l, x.1.epoch_ms), x.1))
}

/// All records folded in, first to last.
pub open spec fn restore_map(
    m: Map<u64, Seq<ReminderView>>,
    p: Seq<(u64, ReminderView)>,
) -> Map<u64, Seq<ReminderView>>
    decreases p.len(),
{
    if p.len() == 0 {
        m
    } else {
        restore_map(restore_step(m, p[0]), p.drop_first())
    }
}

/// Rebuild a store from records: every record is inserted at its sorted
/// position, so the invariant holds whatever order the records arrive
/// in.
pub fn restore_reminders(records: Vec<UserReminder>) -> (r: ReminderStore)
    requires
        forall|k: int| 0 <= k < records@.len() ==> (#[trigger] records@[k]).reminder.time.wf(),
    ensures
        r.wf(),
        r@ == restore_map(Map::empty(), pair_views(records@)),
{
    let ghost pv = pair_views(records@);
    let mut store = ReminderStore::new();
    proof {
        assert(pv.skip(0) =~= pv);
    }
    let mut i: usize = 0;
    while i < records.len()
        invariant
            i <= records@.len(),
            pv == pair_views(records@),
            forall|k: int| 0 <= k < records@.len() ==> (#[trigger] records@[k]).reminder.time.wf(),
            store.wf(),
            restore_map(store@, pv.skip(i as int)) == restore_map(Map::empty(), pv),
        decreases records@.len() - i,
    {
        let rec = records[i].clone_record();
        let ghost before = store@;
        store.add(rec.user, rec.reminder);
        proof {
            assert(pv.skip(i as int)[0] == (records@[i as int].user, records@[i as int].reminder@));
            assert(store@ =~= restore_step(before, pv.skip(i as int)[0]));
            assert(pv.skip(i as int).drop_first() =~= pv.skip(i + 1));
        }
        i = i + 1;
    }
    proof {
        assert(pv.skip(pv.len() as int) =~= Seq::<(u64, ReminderView)>::empty());
    }
    store
}

impl UserReminder {
    fn clone_record(&self) -> (r: UserReminder)
        ensures
            r.user == self.user && r.reminder@ == self.reminder@,
    {
        UserReminder { user: self.user, reminder: self.reminder.clone() }
    }
}

/// Inserting the items of an ascending run one after another into an
/// empty collection gives that run back unchanged: what restore does to
/// a snapshot of one user.
pub open spec fn insert_fold(l: Seq<ReminderView>, items: Seq<ReminderView>) -> Seq<ReminderView>
    decreases items.len(),
{
    if items.len() == 0 {
        l
    } else {
        insert_fold(
            l.insert(upper_bound(l, items[0].epoch_ms), items[0]),
            items.drop_first(),
        )
    }
}

/// Restoring touches each user's collection independently: the rebuilt
/// collection of a user is the fold of exactly their records.
pub proof fn lemma_restore_per_user(
    m: Map<u64, Seq<ReminderView>>,
    p: Seq<(u64, ReminderView)>,
    u: u64,
)
    ensures
        list_of(restore_map(m, p), u) == insert_fold(list_of(m, u), user_records(p, u)),
    decreases p.len(),
{
    if p.len() > 0 {
        lemma_restore_per_user(restore_step(m, p[0]), p.drop_first(), u);
        if p[0].0 == u {
            assert(user_records(p, u)[0] == p[0].1);
            assert(user_records(p, u).drop_first() =~= user_records(p.drop_first(), u));
            assert(list_of(restore_step(m, p[0]), u) == list_of(m, u).insert(
                upper_bound(list_of(m, u), p[0].1.epoch_ms),
                p[0].1,
            ));
        } else {
            assert(list_of(restore_step(m, p[0]), u) == list_of(m, u));
        }
    }
}

/// Folding an ascending run into an ascending prefix that sits at or
/// below it appends it in order.
proof fn lemma_rebuild_sorted(pre: Seq<ReminderView>, rest: Seq<ReminderView>)
    requires
        sorted_by_time(pre + rest),
    ensures
        insert_fold(pre, rest) == pre + rest,
    decreases rest.len(),
{
    if rest.len() == 0 {
        assert(pre + rest =~= pre);
    } else {
        let x = rest[0];
        let all = pre + rest;
        assert(forall|j: int| 0 <= j < pre.len() ==> all[j] == pre[j]);
        assert(all[pre.len() as int] == x);
        assert(forall|j: int| 0 <= j < pre.len() ==> pre[j].epoch_ms <= x.epoch_ms);
        assert(sorted_by_time(pre)) by {
            assert(forall|a: int, b: int|
                0 <= a < b < pre.len() ==> pre[a] == all[a] && pre[b] == all[b]);
        }
        lemma_upper_bound_char(pre, x.epoch_ms, pre.len() as int);
        assert(pre.insert(pre.len() as int, x) =~= pre.push(x));
        assert(pre.push(x) + rest.drop_first() =~= pre + rest);
        lemma_rebuild_sorted(pre.push(x), rest.drop_first());
    }
}

/// Round-trip law: restoring a snapshot of a well-formed store gives
/// every user exactly the reminders they had, in the same order, and no
/// user anything else.
pub proof fn lemma_snapshot_round_trip(
    store: Map<u64, Seq<ReminderView>>,
    p: Seq<(u64, ReminderView)>,
    u: u64,
)
    requires
        user_records(p, u) == list_of(store, u),
        sorted_by_time(list_of(store, u)),
    ensures
        list_of(restore_map(Map::empty(), p), u) == list_of(store, u),
{
    lemma_restore_per_user(Map::empty(), p, u);
    assert(list_of(Map::<u64, Seq<ReminderView>>::empty(), u) == Seq::<ReminderView>::empty());
    assert(Seq::<ReminderView>::empty() + list_of(store, u) =~= list_of(store, u));
    lemma_rebuild_sorted(Seq::empty(), list_of(store, u));
}

/// Flatten the preference store into `{user, preferences}` pairs, each
/// user exactly once.
pub fn snapshot_preferences(prefs: &PreferenceStore) -> (r: Vec<(u64, Preferences)>)
    requires
        prefs.wf(),
    ensures
        forall|a: int, b: int| 0 <= a < b < r@.len() ==> r@[a].0 != r@[b].0,
        forall|k: int|
            0 <= k < r@.len() ==> prefs@.contains_key(#[trigger] r@[k].0) && r@[k].1@ == prefs@[r@[
                k
            ].0],
        forall|u: u64| #[trigger] prefs@.contains_key(u) ==> exists|k: int|
            0 <= k < r@.len() && r@[k].0 == u,
{
    let users = prefs.users();
    let ghost uv = users@;
    let mut out: Vec<(u64, Preferences)> = Vec::new();
    let mut i: usize = 0;
    while i < users.len()
        invariant
            i <= uv.len(),
            prefs.wf(),
            uv == users@,
            uv.to_set() == prefs@.dom(),
            forall|a: int, b: int| 0 <= a < b < uv.len() ==> uv[a] != uv[b],
            out@.len() == i,
            forall|k: int| 0 <= k < i ==> (#[trigger] out@[k]).0 == uv[k],
            forall|k: int|
                0 <= k < i ==> prefs@.contains_key(#[trigger] out@[k].0) && out@[k].1@
                    == prefs@[out@[k].0],
        decreases uv.len() - i,
    {
        let user = users[i];
        proof {
            assert(uv.to_set().contains(user));
        }
        let p = prefs.get(user);
        out.push((user, p));
        i = i + 1;
    }
    proof {
        assert forall|u: u64| #[trigger] prefs@.contains_key(u) implies exists|k: int|
            0 <= k < out@.len() && out@[k].0 == u by {
            assert(uv.to_set().contains(u));
            let k = choose|k: int| 0 <= k < uv.len() && uv[k] == u;
            assert(out@[k].0 == u);
        }
    }
    out
}

/// What restoring preference pairs yields: later pairs win, though a
/// snapshot never repeats a user.
pub open spec fn prefs_map(
    m: Map<u64, PreferencesView>,
    p: Seq<(u64, PreferencesView)>,
) -> Map<u64, PreferencesView>
    decreases p.len(),
{
    if p.len() == 0 {
        m
    } else {
        prefs_map(m.insert(p[0].0, p[0].1), p.drop_first())
    }
}

pub open spec fn pref_pair_views(v: Seq<(u64, Preferences)>) -> Seq<(u64, PreferencesView)> {
    v.map_values(|x: (u64, Preferences)| (x.0, x.1@))
}

/// Rebuild the preference store from pairs.
pub fn restore_preferences(records: Vec<(u64, Preferences)>) -> (r: PreferenceStore)
    ensures
        r.wf(),
        r@ == prefs_map(Map::empty(), pref_pair_views(records@)),
{
    let ghost pv = pref_pair_views(records@);
    let mut store = PreferenceStore::new();
    proof {
        assert(pv.skip(0) =~= pv);
    }
    let mut i: usize = 0;
    while i < records.len()
        invariant
            i <= records@.len(),
            pv == pref_pair_views(records@),
            store.wf(),
            prefs_map(store@, pv.skip(i as int)) == prefs_map(Map::empty(), pv),
        decreases records@.len() - i,
    {
        let (user, p) = (records[i].0, records[i].1.clone());
        let ghost before = store@;
        store.put(user, p);
        proof {
            assert(pv.skip(i as int)[0] == (records@[i as int].0, records@[i as int].1@));
            assert(store@ =~= before.insert(pv.skip(i as int)[0].0, pv.skip(i as int)[0].1));
            assert(pv.skip(i as int).drop_first() =~= pv.skip(i + 1));
        }
        i = i + 1;
    }
    proof {
        assert(pv.skip(pv.len() as int) =~= Seq::<(u64, PreferencesView)>::empty());
    }
    store
}

/// What folding legacy timezone records into settings yields: each
/// entry points that user at its zone, keeping any display format they
/// already chose.
pub open spec fn legacy_fold(
    m: Map<u64, PreferencesView>,
    p: Seq<(u64, Seq<char>)>,
) -> Map<u64, PreferencesView>
    decreases p.len(),
{
    if p.len() == 0 {
        m
    } else {
        legacy_fold(
            m.insert(
                p[0].0,
                PreferencesView { timezone: p[0].1, ..crate::store::prefs_of(m, p[0].0) },
            ),
            p.drop_first(),
        )
    }
}

/// Fold a legacy timezone-only record set into the settings, once: each
/// entry becomes that user's timezone, with their display format kept.
pub fn merge_legacy_timezones(prefs: &mut PreferenceStore, entries: Vec<(u64, String)>)
    requires
        old(prefs).wf(),
    ensures
        final(prefs).wf(),
        final(prefs)@ == legacy_fold(
            old(prefs)@,
            entries@.map_values(|x: (u64, String)| (x.0, x.1@)),
        ),
{
    let ghost pv = entries@.map_values(|x: (u64, String)| (x.0, x.1@));
    proof {
        assert(pv.skip(0) =~= pv);
    }
    let mut i: usize = 0;
    while i < entries.len()
        invariant
            i <= entries@.len(),
            pv == entries@.map_values(|x: (u64, String)| (x.0, x.1@)),
            prefs.wf(),
            legacy_fold(prefs@, pv.skip(i as int)) == legacy_fold(old(prefs)@, pv),
        decreases entries@.len() - i,
    {
        let (user, tz) = (entries[i].0, entries[i].1.clone());
        let ghost before = prefs@;
        prefs.set_timezone(user, tz);
        proof {
            assert(pv.skip(i as int)[0] == (entries@[i as int].0, entries@[i as int].1@));
            assert(prefs@ =~= before.insert(
                pv.skip(i as int)[0].0,
                PreferencesView {
                    timezone: pv.skip(i as int)[0].1,
                    ..crate::store::prefs_of(before, pv.skip(i as int)[0].0)
                },
            ));
            assert(pv.skip(i as int).drop_first() =~= pv.skip(i as int + 1));
        }
        i = i + 1;
    }
    proof {
        assert(pv.skip(pv.len() as int) =~= Seq::<(u64, Seq<char>)>::empty());
    }
}

/// Round-trip law for preferences: restoring pairs that name each user
/// once with their stored settings gives back exactly the same map.
pub proof fn lemma_prefs_round_trip(
    m0: Map<u64, PreferencesView>,
    store: Map<u64, PreferencesView>,
    p: Seq<(u64, PreferencesView)>,
)
    requires
        forall|a: int, b: int| 0 <= a < b < p.len() ==> p[a].0 != p[b].0,
        forall|k: int|
            0 <= k < p.len() ==> store.contains_key(#[trigger] p[k].0) && p[k].1 == store[p[k].0],
        forall|u: u64| #[trigger] store.contains_key(u) ==> m0.contains_key(u) || exists|k: int|
            0 <= k < p.len() && p[k].0 == u,
        forall|u: u64| #[trigger] m0.contains_key(u) ==> store.contains_key(u) && m0[u] == store[u],
    ensures
        prefs_map(m0, p) == store,
    decreases p.len(),
{
    if p.len() == 0 {
        assert(m0 =~= store);
    } else {
        let m1 = m0.insert(p[0].0, p[0].1);
        assert forall|u: u64| #[trigger] store.contains_key(u) implies m1.contains_key(u) || exists|
            k: int,
        | 0 <= k < p.drop_first().len() && p.drop_first()[k].0 == u by {
            if !m1.contains_key(u) {
                let k = choose|k: int| 0 <= k < p.len() && p[k].0 == u;
                assert(k != 0);
                assert(p.drop_first()[k - 1].0 == u);
            }
        }
        assert(forall|k: int|
            0 <= k < p.drop_first().len() ==> p.drop_first()[k] == p[k + 1]);
        lemma_prefs_round_trip(m1, store, p.drop_first());
    }
}

} // verus!
