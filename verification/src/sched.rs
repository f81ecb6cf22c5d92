//! The scheduler tick: for every user, the due prefix of the sorted
//! collection (trigger instant at or before now) fires, each due
//! recurring reminder is replaced by its successor, and one notification
//! per firing is produced, in ascending trigger order per user. A
//! successor that is already due fires on a later tick, which keeps each
//! tick's work bounded.

use crate::persist::insert_fold;
use crate::store::{
    list_of, sorted_by_time, upper_bound, lemma_upper_bound_props, Reminder, ReminderStore,
    ReminderView,
};
use crate::time::{apply_seq, mod_chain};
use vstd::prelude::*;
use vstd::string::StringExecFns;

verus! {

/// A message to deliver to a user.
#[derive(Debug, PartialEq)]
pub struct Notification {
    pub user: u64,
    pub message: String,
}

pub open spec fn note_views(v: Seq<Notification>) -> Seq<(u64, Seq<char>)> {
    v.map_values(|n: Notification| (n.user, n.message@))
}

/// The notifications of one user, in order.
pub open spec fn user_notes(p: Seq<(u64, Seq<char>)>, u: u64) -> Seq<Seq<char>>
    decreases p.len(),
{
    if p.len() == 0 {
        Seq::empty()
    } else if p[0].0 == u {
        seq![p[0].1] + user_notes(p.drop_first(), u)
    } else {
        user_notes(p.drop_first(), u)
    }
}

proof fn lemma_user_notes_snoc(p: Seq<(u64, Seq<char>)>, x: (u64, Seq<char>), u: u64)
    ensures
        user_notes(p.push(x), u) == if x.0 == u {
            user_notes(p, u).push(x.1)
        } else {
            user_notes(p, u)
        },
    decreases p.len(),
{
    if p.len() == 0 {
        assert(p.push(x)[0] == x);
        assert(p.push(x).drop_first() =~= Seq::<(u64, Seq<char>)>::empty());
        assert(user_notes(Seq::<(u64, Seq<char>)>::empty(), u) =~= Seq::<Seq<char>>::empty());
        if x.0 == u {
            assert(user_notes(p.push(x), u) =~= user_notes(p, u).push(x.1));
        }
    } else {
        assert(p.push(x)[0] == p[0]);
        assert(p.push(x).drop_first() =~= p.drop_first().push(x));
        lemma_user_notes_snoc(p.drop_first(), x, u);
        if x.0 == u && p[0].0 == u {
            assert(user_notes(p.push(x), u) =~= user_notes(p, u).push(x.1));
        }
    }
}

/// The text a firing reminder sends.
pub open spec fn note_text(rv: ReminderView) -> Seq<char> {
    "Reminder: "@ + rv.message
}

pub open spec fn due_notes(l: Seq<ReminderView>, d: int) -> Seq<Seq<char>> {
    l.subrange(0, d).map_values(|rv: ReminderView| note_text(rv))
}

/// One reminder's successor: its interval applied to its own trigger
/// time. `None` for a one-shot reminder, and `None` when the calendar or
/// the zone refuses the computation, which silently ends the recurrence.
pub fn successor_of(rem: &Reminder) -> (r: Option<Reminder>)
    requires
        rem.time.wf(),
    ensures
        rem@.interval is None ==> r is None,
        r matches Some(s) ==> rem@.interval matches Some(iv) && mod_chain(iv, rem.time, s.time)
            && s.time.wf() && s@.message == rem@.message && s@.interval == rem@.interval,
{
    match &rem.interval {
        None => None,
        Some(iv) => match apply_seq(iv, &rem.time) {
            Ok(t) => {
                let iv2 = iv.clone();
                proof {
                    assert(iv2@ =~= iv@);
                }
                Some(Reminder { time: t, message: rem.message.clone(), interval: Some(iv2) })
            },
            Err(_) => None,
        },
    }
}

/// A successor candidate that may join the collection after a firing:
/// the recurrence of some due reminder, keeping its message and interval.
pub open spec fn justified_successor(l: Seq<ReminderView>, d: int, a: ReminderView) -> bool {
    exists|j: int|
        0 <= j < d && (#[trigger] l[j]).interval is Some && a.message == l[j].message && a.interval
            == l[j].interval && a.civil.wf()
}

/// One scheduler pass over every user: fire the due prefix, insert the
/// successors of due recurring reminders, and report one notification
/// per firing, in ascending trigger order within each user.
pub fn tick(store: &mut ReminderStore, now_ms: i64) -> (notes: Vec<Notification>)
    requires
        old(store).wf(),
    ensures
        final(store).wf(),
        final(store)@.dom() == old(store)@.dom(),
        forall|u: u64|
            user_notes(note_views(notes@), u) == due_notes(
                #[trigger] list_of(old(store)@, u),
                upper_bound(list_of(old(store)@, u), now_ms as int),
            ),
        forall|u: u64| #[trigger]
            old(store)@.contains_key(u) ==> ({
                let l = list_of(old(store)@, u);
                let d = upper_bound(l, now_ms as int);
                exists|added: Seq<ReminderView>|
                    #![auto]
                    final(store)@[u] == insert_fold(l.skip(d), added) && forall|k: int|
                        0 <= k < added.len() ==> justified_successor(l, d, #[trigger] added[k])
            }),
{
    let mut notes: Vec<Notification> = Vec::new();
    let mut users: Vec<u64> = Vec::new();
    {
        let su = store.users();
        let ghost uv0 = su@;
        let mut j: usize = 0;
        while j < su.len()
            invariant
                j <= uv0.len(),
                uv0 == su@,
                users@ == uv0.subrange(0, j as int),
            decreases uv0.len() - j,
        {
            users.push(su[j]);
            proof {
                assert(users@ =~= uv0.subrange(0, j + 1));
            }
            j = j + 1;
        }
        proof {
            assert(users@ =~= uv0);
        }
    }
    let ghost uv = users@;
    proof {
        store.lemma_wf_lists();
    }
    let mut i: usize = 0;
    while i < users.len()
        invariant
            i <= uv.len(),
            uv == users@,
            old(store).wf(),
            store.wf(),
            store@.dom() == old(store)@.dom(),
            uv.to_set() == old(store)@.dom(),
            forall|a: int, b: int| 0 <= a < b < uv.len() ==> uv[a] != uv[b],
            forall|k: int|
                0 <= k < i ==> user_notes(note_views(notes@), uv[k]) == due_notes(
                    #[trigger] list_of(old(store)@, uv[k]),
                    upper_bound(list_of(old(store)@, uv[k]), now_ms as int),
                ),
            forall|u: u64|
                !uv.subrange(0, i as int).contains(u) ==> user_notes(note_views(notes@), u)
                    == Seq::<Seq<char>>::empty(),
            forall|k: int|
                0 <= k < i ==> tick_done(old(store)@, store@, uv[k], now_ms as int),
            forall|u: u64|
                !uv.subrange(0, i as int).contains(u) ==> list_of(store@, u) == list_of(
                    old(store)@,
                    u,
                ),
        decreases uv.len() - i,
    {
        let user = users[i];
        proof {
            assert(uv.to_set().contains(user));
            assert(!uv.subrange(0, i as int).contains(user)) by {
                if uv.subrange(0, i as int).contains(user) {
                    let w = choose|w: int| 0 <= w < i && uv.subrange(0, i as int)[w] == user;
                }
            }
        }
        let ghost m_entry = store@;
        let ghost n_entry = note_views(notes@);
        let ghost l0 = list_of(old(store)@, user);
        let ghost d = upper_bound(l0, now_ms as int);
        proof {
            old(store).lemma_wf_lists();
            assert(old(store)@.contains_key(user));
            lemma_upper_bound_props(l0, now_ms as int);
        }
        // fire the due prefix
        let mut fired: Vec<Reminder> = Vec::new();
        loop
            invariant
                store.wf(),
                store@.dom() == old(store)@.dom(),
                store@.contains_key(user),
                sorted_by_time(l0),
                l0 == list_of(old(store)@, user),
                d == upper_bound(l0, now_ms as int),
                0 <= d <= l0.len(),
                forall|j: int| 0 <= j < d ==> l0[j].epoch_ms <= now_ms,
                d == l0.len() || l0[d as int].epoch_ms > now_ms,
                fired@.len() <= d,
                list_of(store@, user) == l0.skip(fired@.len() as int),
                forall|k: int|
                    0 <= k < fired@.len() ==> (#[trigger] fired@[k])@ == l0[k]
                        && fired@[k].time.wf(),
                forall|u: u64| u != user ==> list_of(store@, u) == list_of(m_entry, u),
            ensures
                fired@.len() == d,
                list_of(store@, user) == l0.skip(d as int),
                store.wf(),
                store@.dom() == old(store)@.dom(),
                store@.contains_key(user),
                forall|k: int|
                    0 <= k < d ==> (#[trigger] fired@[k])@ == l0[k] && fired@[k].time.wf(),
                forall|u: u64| u != user ==> list_of(store@, u) == list_of(m_entry, u),
            decreases l0.len() - fired@.len(),
        {
            let due = match store.list(user) {
                Some(l) => l.len() > 0 && l[0].time.epoch_ms <= now_ms,
                None => false,
            };
            proof {
                let rest = l0.skip(fired@.len() as int);
                if fired@.len() < d {
                    assert(rest[0] == l0[fired@.len() as int]);
                    assert(rest[0].epoch_ms <= now_ms);
                    assert(due);
                } else {
                    if rest.len() > 0 {
                        assert(rest[0] == l0[d as int]);
                    }
                    assert(!due);
                }
            }
            if !due {
                break;
            }
            proof {
                store.lemma_wf_lists();
            }
            let rem = match store.remove_at(user, 0) {
                Ok(r) => r,
                Err(()) => {
                    proof {
                        assert(false);
                    }
                    break;
                },
            };
            proof {
                assert(l0.skip(fired@.len() as int).remove(0) =~= l0.skip(fired@.len() as int + 1));
                assert(rem@ == l0[fired@.len() as int]);
                assert(rem@.civil.wf());
            }
            fired.push(rem);
        }
        // replace due recurring reminders and notify
        let mut q: usize = 0;
        let ghost mut added: Seq<ReminderView> = Seq::empty();
        proof {
            assert(insert_fold(l0.skip(d as int), added) == l0.skip(d as int));
            assert(due_notes(l0, q as int) =~= Seq::<Seq<char>>::empty());
            assert(n_entry == note_views(notes@));
            assert(user_notes(n_entry, user) =~= Seq::<Seq<char>>::empty()) by {
                assert(user_notes(note_views(notes@), user) == Seq::<Seq<char>>::empty());
            }
        }
        while q < fired.len()
            invariant
                q <= fired@.len(),
                fired@.len() == d,
                store.wf(),
                store@.dom() == old(store)@.dom(),
                store@.contains_key(user),
                sorted_by_time(l0),
                l0 == list_of(old(store)@, user),
                d == upper_bound(l0, now_ms as int),
                0 <= d <= l0.len(),
                forall|k: int|
                    0 <= k < d ==> (#[trigger] fired@[k])@ == l0[k] && fired@[k].time.wf(),
                list_of(store@, user) == insert_fold(l0.skip(d as int), added),
                forall|k: int|
                    0 <= k < added.len() ==> justified_successor(l0, d as int, #[trigger] added[k]),
                user_notes(note_views(notes@), user) == due_notes(l0, q as int),
                forall|u: u64|
                    u != user ==> user_notes(note_views(notes@), u) == user_notes(n_entry, u),
                forall|u: u64| u != user ==> list_of(store@, u) == list_of(m_entry, u),
            decreases fired@.len() - q,
        {
            let rem = &fired[q];
            match successor_of(rem) {
                Some(s) => {
                    let ghost before = list_of(store@, user);
                    let ghost sv = s@;
                    store.add(user, s);
                    proof {
                        assert(list_of(store@, user) == before.insert(
                            upper_bound(before, sv.epoch_ms),
                            sv,
                        ));
                        assert(insert_fold(l0.skip(d as int), added.push(sv)) == list_of(
                            store@,
                            user,
                        )) by {
                            lemma_insert_fold_snoc(l0.skip(d as int), added, sv);
                        }
                        assert(justified_successor(l0, d as int, sv)) by {
                            assert(l0[q as int].interval is Some);
                        }
                        added = added.push(sv);
                    }
                },
                None => {},
            }
            let mut msg = String::new();
            msg.append("Reminder: ");
            msg.append(fired[q].message.as_str());
            let ghost nb = note_views(notes@);
            notes.push(Notification { user, message: msg });
            proof {
                assert(note_views(notes@) =~= nb.push((user, "Reminder: "@ + l0[q as int].message)));
                lemma_user_notes_snoc(nb, (user, "Reminder: "@ + l0[q as int].message), user);
                assert(user_notes(note_views(notes@), user) =~= due_notes(l0, q + 1));
                assert forall|u: u64| u != user implies user_notes(note_views(notes@), u)
                    == user_notes(n_entry, u) by {
                    lemma_user_notes_snoc(nb, (user, "Reminder: "@ + l0[q as int].message), u);
                }
            }
            q = q + 1;
        }
        proof {
            assert(tick_done(old(store)@, store@, user, now_ms as int)) by {
                assert(list_of(store@, user) == insert_fold(l0.skip(d as int), added));
            }
            assert forall|k: int| 0 <= k < i + 1 implies tick_done(
                old(store)@,
                store@,
                uv[k],
                now_ms as int,
            ) by {
                if k < i {
                    assert(uv[k] != user);
                    assert(tick_done(old(store)@, m_entry, uv[k], now_ms as int));
                    let lk = list_of(old(store)@, uv[k]);
                    let dk = upper_bound(lk, now_ms as int);
                    let a = choose|a: Seq<ReminderView>|
                        #![auto]
                        list_of(m_entry, uv[k]) == insert_fold(lk.skip(dk), a) && forall|kk: int|
                            0 <= kk < a.len() ==> justified_successor(lk, dk, a[kk]);
                    assert(list_of(store@, uv[k]) == list_of(m_entry, uv[k]));
                    assert(list_of(store@, uv[k]) == insert_fold(lk.skip(dk), a));
                }
            }
            assert forall|u: u64| !uv.subrange(0, i + 1).contains(u) implies user_notes(
                note_views(notes@),
                u,
            ) == Seq::<Seq<char>>::empty() && list_of(store@, u) == list_of(old(store)@, u) by {
                if u == uv[i as int] {
                    assert(uv.subrange(0, i + 1)[i as int] == u);
                }
                assert(!uv.subrange(0, i as int).contains(u)) by {
                    if uv.subrange(0, i as int).contains(u) {
                        let w = choose|w: int| 0 <= w < i && uv.subrange(0, i as int)[w] == u;
                        assert(uv.subrange(0, i + 1)[w] == u);
                    }
                }
                assert(u != user);
                assert(user_notes(note_views(notes@), u) == user_notes(n_entry, u));
                assert(user_notes(n_entry, u) == Seq::<Seq<char>>::empty());
                assert(list_of(store@, u) == list_of(m_entry, u));
                assert(list_of(m_entry, u) == list_of(old(store)@, u));
            }
            assert forall|k: int| 0 <= k < i + 1 implies user_notes(note_views(notes@), uv[k])
                == due_notes(
                #[trigger] list_of(old(store)@, uv[k]),
                upper_bound(list_of(old(store)@, uv[k]), now_ms as int),
            ) by {
                if k < i {
                    assert(uv[k] != user);
                    assert(user_notes(note_views(notes@), uv[k]) == user_notes(n_entry, uv[k]));
                }
            }
        }
        i = i + 1;
    }
    proof {
        assert(uv.subrange(0, uv.len() as int) =~= uv);
        assert forall|u: u64| true implies user_notes(note_views(notes@), u) == due_notes(
            #[trigger] list_of(old(store)@, u),
            upper_bound(list_of(old(store)@, u), now_ms as int),
        ) by {
            if uv.contains(u) {
                let k = choose|k: int| 0 <= k < uv.len() && uv[k] == u;
            } else {
                assert(!uv.to_set().contains(u));
                assert(!old(store)@.contains_key(u));
                assert(list_of(old(store)@, u) == Seq::<ReminderView>::empty());
                assert(due_notes(Seq::empty(), upper_bound(Seq::empty(), now_ms as int)) =~= Seq::<
                    Seq<char>,
                >::empty());
            }
        }
        assert forall|u: u64| #[trigger] old(store)@.contains_key(u) implies ({
            let l = list_of(old(store)@, u);
            let d = upper_bound(l, now_ms as int);
            exists|added: Seq<ReminderView>|
                #![auto]
                store@[u] == insert_fold(l.skip(d), added) && forall|k: int|
                    0 <= k < added.len() ==> justified_successor(l, d, #[trigger] added[k])
        }) by {
            assert(uv.to_set().contains(u));
            let k = choose|k: int| 0 <= k < uv.len() && uv[k] == u;
            assert(tick_done(old(store)@, store@, u, now_ms as int));
        }
    }
    notes
}

/// One user's collection after their firings: the not-yet-due rest, plus
/// some justified successors at their sorted positions.
pub open spec fn tick_done(
    m0: Map<u64, Seq<ReminderView>>,
    m1: Map<u64, Seq<ReminderView>>,
    u: u64,
    now: int,
) -> bool {
    let l = list_of(m0, u);
    let d = upper_bound(l, now);
    exists|added: Seq<ReminderView>|
        #![auto]
        list_of(m1, u) == insert_fold(l.skip(d), added) && forall|k: int|
            0 <= k < added.len() ==> justified_successor(l, d, #[trigger] added[k])
}

proof fn lemma_insert_fold_snoc(l: Seq<ReminderView>, items: Seq<ReminderView>, x: ReminderView)
    ensures
        insert_fold(l, items.push(x)) == {
            let b = insert_fold(l, items);
            b.insert(upper_bound(b, x.epoch_ms), x)
        },
    decreases items.len(),
{
    if items.len() == 0 {
        assert(items.push(x)[0] == x);
        assert(items.push(x).drop_first() =~= Seq::<ReminderView>::empty());
        let li = l.insert(upper_bound(l, x.epoch_ms), x);
        assert(insert_fold(li, Seq::<ReminderView>::empty()) == li);
        assert(insert_fold(l, items) == l);
    } else {
        assert(items.push(x)[0] == items[0]);
        assert(items.push(x).drop_first() =~= items.drop_first().push(x));
        let l1 = l.insert(upper_bound(l, items[0].epoch_ms), items[0]);
        lemma_insert_fold_snoc(l1, items.drop_first(), x);
        assert(insert_fold(l, items.push(x)) == insert_fold(l1, items.drop_first().push(x)));
        assert(insert_fold(l, items) == insert_fold(l1, items.drop_first()));
    }
}

} // verus!
