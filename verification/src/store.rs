//! The notification store: a mapping from caller-assigned id to notification
//! record, with insert, single and batch removal, a pending snapshot, an
//! atomic drain of the due records, and clear.

use vstd::prelude::*;
use crate::model::{
    Record, due_part, filtered, ids_of, lemma_contains_push, lemma_filtered_listing,
    lemma_map_of_contains, lemma_map_of_index, lemma_map_of_push, lemma_map_of_remove,
    lemma_unique_push, lemma_unique_remove, listing_of, map_of, pending_part, unique_ids,
    without_ids,
};

verus! {

/// One scheduled notification. `schedule_at` is an absolute time in
/// milliseconds since the Unix epoch, UTC; `extra` is an opaque structured
/// payload, serialised as text and passed through unmodified.
pub struct ScheduledNotification {
    pub id: i32,
    pub title: String,
    pub body: String,
    pub schedule_at: i64,
    pub extra: Option<String>,
}

impl View for ScheduledNotification {
    type V = Record;

    open spec fn view(&self) -> Record {
        Record {
            id: self.id,
            title: self.title@,
            body: self.body@,
            schedule_at: self.schedule_at,
            extra: match self.extra {
                Some(s) => Some(s@),
                None => None,
            },
        }
    }
}

impl ScheduledNotification {
    /// A copy of the record, equal to it in the model.
    pub fn duplicate(&self) -> (r: Self)
        ensures
            r@ == self@,
    {
        ScheduledNotification {
            id: self.id,
            title: self.title.clone(),
            body: self.body.clone(),
            schedule_at: self.schedule_at,
            extra: match &self.extra {
                Some(s) => Some(s.clone()),
                None => None,
            },
        }
    }
}

/// The images of a sequence of records.
pub open spec fn views_of(s: Seq<ScheduledNotification>) -> Seq<Record> {
    s.map_values(|n: ScheduledNotification| n@)
}

/// The notification store. It owns the id-to-record mapping exclusively and
/// is the single source of truth for not-yet-delivered notifications.
pub struct NotificationScheduler {
    notifications: Vec<ScheduledNotification>,
}

impl View for NotificationScheduler {
    type V = Map<i32, Record>;

    closed spec fn view(&self) -> Map<i32, Record> {
        map_of(views_of(self.notifications@))
    }
}

impl NotificationScheduler {
    /// No two stored records share an id.
    pub closed spec fn wf(&self) -> bool {
        unique_ids(views_of(self.notifications@))
    }

    /// An empty store.
    pub fn new() -> (r: Self)
        ensures
            r.wf(),
            r@ == Map::<i32, Record>::empty(),
    {
        let r = NotificationScheduler { notifications: Vec::new() };
        proof {
            assert(views_of(r.notifications@) =~= Seq::<Record>::empty());
        }
        r
    }

    /// Inserts `n`, overwriting any prior record with the same id. There are
    /// no error conditions.
    pub fn add(&mut self, n: ScheduledNotification)
        requires
            old(self).wf(),
        ensures
            final(self).wf(),
            final(self)@ == old(self)@.insert(n.id, n@),
    {
        let ghost m0 = self@;
        let ghost nv = n@;
        let _ = self.remove(n.id);
        let ghost s1 = views_of(self.notifications@);
        self.notifications.push(n);
        proof {
            assert(views_of(self.notifications@) =~= s1.push(nv));
            lemma_map_of_push(s1, nv);
            lemma_map_of_contains(s1, nv.id);
            assert forall|t: int| 0 <= t < s1.len() implies (#[trigger] s1[t].id) != nv.id by {
                if s1[t].id == nv.id {
                    assert(exists|i: int| #![auto] 0 <= i < s1.len() && s1[i].id == nv.id);
                }
            }
            lemma_unique_push(s1, nv);
            assert(m0.remove(nv.id).insert(nv.id, nv) =~= m0.insert(nv.id, nv));
        }
    }

    /// Removes and returns the record with id `id`; an absent id is a no-op,
    /// not an error.
    pub fn remove(&mut self, id: i32) -> (r: Option<ScheduledNotification>)
        requires
            old(self).wf(),
        ensures
            final(self).wf(),
            final(self)@ == old(self)@.remove(id),
            old(self)@.contains_key(id) ==> (r matches Some(n) && n@ == old(self)@[id]),
            !old(self)@.contains_key(id) ==> r is None,
    {
        let ghost s0 = views_of(self.notifications@);
        let mut i: usize = 0;
        while i < self.notifications.len()
            invariant
                self.notifications@ == old(self).notifications@,
                old(self).wf(),
                s0 == views_of(self.notifications@),
                i <= self.notifications.len(),
                forall|t: int| #![trigger s0[t]] 0 <= t < i ==> s0[t].id != id,
            decreases self.notifications.len() - i,
        {
            proof {
                assert(s0[i as int] == self.notifications@[i as int]@);
            }
            if self.notifications[i].id == id {
                let ghost iv = i as int;
                let ghost before = self.notifications@;
                let n = self.notifications.remove(i);
                proof {
                    assert(s0[iv].id == id);
                    assert(views_of(self.notifications@).len() == s0.remove(iv).len());
                    assert forall|p: int| 0 <= p < views_of(self.notifications@).len()
                        implies views_of(self.notifications@)[p] == s0.remove(iv)[p] by {
                        if p < iv {
                            assert(self.notifications@[p] == before[p]);
                        } else {
                            assert(self.notifications@[p] == before[p + 1]);
                        }
                    }
                    assert(views_of(self.notifications@) =~= s0.remove(iv));
                    lemma_map_of_remove(s0, iv);
                    lemma_unique_remove(s0, iv);
                    lemma_map_of_index(s0, iv);
                }
                return Some(n);
            }
            i += 1;
        }
        proof {
            assert(s0.len() == self.notifications@.len());
            lemma_map_of_contains(s0, id);
            assert(!self@.contains_key(id));
            assert(self@ =~= self@.remove(id));
        }
        None
    }

    /// Removes every id of `ids`; ids that are absent are tolerated silently.
    pub fn remove_many(&mut self, ids: &Vec<i32>)
        requires
            old(self).wf(),
        ensures
            final(self).wf(),
            final(self)@ == without_ids(old(self)@, ids@),
    {
        let ghost m0 = self@;
        let mut j: usize = 0;
        proof {
            assert(self@ =~= without_ids(m0, ids@.take(0)));
        }
        while j < ids.len()
            invariant
                self.wf(),
                j <= ids.len(),
                self@ == without_ids(m0, ids@.take(j as int)),
            decreases ids.len() - j,
        {
            let ghost pre = self@;
            let _ = self.remove(ids[j]);
            proof {
                let jv = j as int;
                assert(ids@.take(jv + 1) =~= ids@.take(jv).push(ids@[jv]));
                assert forall|k: i32| true implies
                    (ids@.take(jv + 1).contains(k)
                        <==> (ids@.take(jv).contains(k) || k == ids@[jv])) by {
                    lemma_contains_push(ids@.take(jv), ids@[jv], k);
                }
                assert(self@ =~= without_ids(m0, ids@.take(jv + 1)));
            }
            j += 1;
        }
        proof {
            assert(ids@.take(ids@.len() as int) =~= ids@);
        }
    }

    /// A snapshot of every record scheduled strictly after `now`, each once,
    /// in unspecified order. The store itself is unchanged.
    pub fn get_pending(&self, now: i64) -> (r: Vec<ScheduledNotification>)
        requires
            self.wf(),
        ensures
            listing_of(views_of(r@), pending_part(self@, now)),
    {
        let ghost s0 = views_of(self.notifications@);
        let mut out: Vec<ScheduledNotification> = Vec::new();
        let mut i: usize = 0;
        while i < self.notifications.len()
            invariant
                self.wf(),
                s0 == views_of(self.notifications@),
                i <= self.notifications.len(),
                views_of(out@) == filtered(s0.take(i as int), now, false),
            decreases self.notifications.len() - i,
        {
            proof {
                assert(s0[i as int] == self.notifications@[i as int]@);
                assert(s0.take(i as int + 1).drop_last() =~= s0.take(i as int));
                assert(s0.take(i as int + 1).last() == s0[i as int]);
            }
            if self.notifications[i].schedule_at > now {
                let d = self.notifications[i].duplicate();
                proof {
                    assert(d@ == s0[i as int]);
                }
                out.push(d);
                proof {
                    assert(views_of(out@) =~= filtered(s0.take(i as int + 1), now, false));
                }
            } else {
                proof {
                    assert(views_of(out@) == filtered(s0.take(i as int + 1), now, false));
                }
            }
            i += 1;
        }
        proof {
            assert(s0.len() == self.notifications@.len());
            assert(s0.take(s0.len() as int) =~= s0);
            lemma_filtered_listing(s0, now, false);
        }
        out
    }

    /// Atomically removes and returns every record due at `now` — scheduled at
    /// or before it — each once, in unspecified order. Exactly the records
    /// scheduled strictly after `now` remain.
    #[verifier::rlimit(50)]
    pub fn get_due(&mut self, now: i64) -> (due: Vec<ScheduledNotification>)
        requires
            old(self).wf(),
        ensures
            final(self).wf(),
            final(self)@ == pending_part(old(self)@, now),
            listing_of(views_of(due@), due_part(old(self)@, now)),
    {
        let ghost m0 = self@;
        let ghost s0 = views_of(self.notifications@);

        // First pass: collect the ids of the due records.
        let mut due_ids: Vec<i32> = Vec::new();
        let mut i: usize = 0;
        while i < self.notifications.len()
            invariant
                self.notifications@ == old(self).notifications@,
                self.wf(),
                s0 == views_of(self.notifications@),
                i <= self.notifications.len(),
                due_ids@ == ids_of(filtered(s0.take(i as int), now, true)),
            decreases self.notifications.len() - i,
        {
            proof {
                assert(s0[i as int] == self.notifications@[i as int]@);
                assert(s0.take(i as int + 1).drop_last() =~= s0.take(i as int));
                assert(s0.take(i as int + 1).last() == s0[i as int]);
            }
            if self.notifications[i].schedule_at <= now {
                due_ids.push(self.notifications[i].id);
                proof {
                    assert(due_ids@ =~= ids_of(filtered(s0.take(i as int + 1), now, true)));
                }
            } else {
                proof {
                    assert(due_ids@ == ids_of(filtered(s0.take(i as int + 1), now, true)));
                }
            }
            i += 1;
        }

        // What the first pass collected, in the language of the map model.
        proof {
            assert(s0.len() == self.notifications@.len());
            assert(s0.take(s0.len() as int) =~= s0);
            lemma_filtered_listing(s0, now, true);
            let fd = filtered(s0, now, true);
            let d = due_part(m0, now);
            assert(m0 == map_of(s0));
            assert forall|t1: int, t2: int|
                #![trigger due_ids@[t1], due_ids@[t2]]
                0 <= t1 < t2 < due_ids@.len() implies due_ids@[t1] != due_ids@[t2] by {
                assert(due_ids@[t1] == fd[t1].id);
                assert(due_ids@[t2] == fd[t2].id);
            }
            assert forall|k: i32| #[trigger] due_ids@.contains(k)
                implies m0.contains_key(k) && m0[k].schedule_at <= now && m0[k].id == k by {
                let t = choose|t: int| 0 <= t < due_ids@.len() && due_ids@[t] == k;
                assert(due_ids@[t] == fd[t].id);
                assert(d.contains_key(fd[t].id) && d[fd[t].id] == fd[t]);
            }
            assert forall|k: i32| (#[trigger] m0.contains_key(k)) && m0[k].schedule_at <= now
                implies due_ids@.contains(k) by {
                assert(d.contains_key(k));
                let t = choose|t: int| #![auto] 0 <= t < fd.len() && fd[t].id == k;
                assert(due_ids@[t] == fd[t].id);
            }
            assert(due_ids@.take(0) =~= Seq::<i32>::empty());
        }

        // Second pass: remove each collected id, gathering the records.
        let mut due: Vec<ScheduledNotification> = Vec::new();
        let mut j: usize = 0;
        while j < due_ids.len()
            invariant
                self.wf(),
                j <= due_ids.len(),
                due@.len() == j,
                forall|t1: int, t2: int| #![trigger due_ids@[t1], due_ids@[t2]]
                    0 <= t1 < t2 < due_ids@.len() ==> due_ids@[t1] != due_ids@[t2],
                forall|k: i32| #[trigger] due_ids@.contains(k)
                    ==> m0.contains_key(k) && m0[k].schedule_at <= now && m0[k].id == k,
                forall|k: i32| (#[trigger] m0.contains_key(k)) && m0[k].schedule_at <= now
                    ==> due_ids@.contains(k),
                forall|k: i32| #[trigger] self@.contains_key(k)
                    <==> (m0.contains_key(k) && !due_ids@.take(j as int).contains(k)),
                forall|k: i32| #[trigger] self@.contains_key(k) ==> self@[k] == m0[k],
                forall|t: int| #![trigger due@[t]]
                    0 <= t < j ==> due@[t]@ == m0[due_ids@[t]],
            decreases due_ids.len() - j,
        {
            let id = due_ids[j];
            let ghost jv = j as int;
            proof {
                assert(due_ids@.contains(id));
                assert(!due_ids@.take(jv).contains(id)) by {
                    if due_ids@.take(jv).contains(id) {
                        let t = choose|t: int| 0 <= t < jv && due_ids@.take(jv)[t] == id;
                        assert(due_ids@[t] == due_ids@[jv]);
                    }
                }
                assert(self@.contains_key(id));
            }
            match self.remove(id) {
                Some(n) => {
                    due.push(n);
                    proof {
                        assert(due@[due@.len() - 1]@ == m0[id]);
                    }
                },
                None => {
                    proof {
                        assert(false);
                    }
                },
            }
            proof {
                assert(due_ids@.take(jv + 1) =~= due_ids@.take(jv).push(id));
                assert forall|k: i32| true implies
                    (due_ids@.take(jv + 1).contains(k)
                        <==> (due_ids@.take(jv).contains(k) || k == id)) by {
                    lemma_contains_push(due_ids@.take(jv), id, k);
                }
            }
            j += 1;
        }

        proof {
            let p = pending_part(m0, now);
            let d = due_part(m0, now);
            let vd = views_of(due@);
            assert(due_ids@.take(due_ids@.len() as int) =~= due_ids@);

            // The store keeps exactly the pending part.
            assert forall|k: i32| true implies
                (self@.contains_key(k) <==> p.contains_key(k)) by {
                if m0.contains_key(k) {
                    if m0[k].schedule_at <= now {
                        assert(due_ids@.contains(k));
                    }
                }
            }
            assert(self@ =~= p);

            // The returned records list exactly the due part.
            assert forall|t: int| 0 <= t < vd.len()
                implies d.contains_key(#[trigger] vd[t].id) && d[vd[t].id] == vd[t] by {
                assert(due@[t]@ == m0[due_ids@[t]]);
                assert(due_ids@.contains(due_ids@[t]));
                assert(vd[t] == due@[t]@);
            }
            assert forall|k: i32| #[trigger] d.contains_key(k)
                implies exists|t: int| #![auto] 0 <= t < vd.len() && vd[t].id == k by {
                assert(m0.contains_key(k) && m0[k].schedule_at <= now);
                assert(due_ids@.contains(k));
                let t = choose|t: int| 0 <= t < due_ids@.len() && due_ids@[t] == k;
                assert(vd[t] == due@[t]@);
                assert(vd[t].id == k);
            }
            assert forall|t1: int, t2: int|
                #![trigger vd[t1].id, vd[t2].id]
                0 <= t1 < t2 < vd.len() implies vd[t1].id != vd[t2].id by {
                assert(vd[t1] == due@[t1]@);
                assert(vd[t2] == due@[t2]@);
                assert(due_ids@.contains(due_ids@[t1]));
                assert(due_ids@.contains(due_ids@[t2]));
                assert(vd[t1].id == due_ids@[t1]);
                assert(vd[t2].id == due_ids@[t2]);
            }
        }
        due
    }

    /// Empties the store unconditionally.
    pub fn clear(&mut self)
        requires
            old(self).wf(),
        ensures
            final(self).wf(),
            final(self)@ == Map::<i32, Record>::empty(),
    {
        self.notifications.clear();
        proof {
            assert(views_of(self.notifications@) =~= Seq::<Record>::empty());
        }
    }
}

} // verus!
