//! The command surface over the store, and the poll step that the delivery
//! loop runs on its fixed interval. Each operation reads the clock at most
//! once; a cancellation that races a poll for the same id may lose the race,
//! which is an accepted property of the design.

use vstd::prelude::*;
use crate::clock::now_millis;
use crate::model::{Record, due_part, listing_of, pending_part, without_ids};
use crate::store::{NotificationScheduler, ScheduledNotification, views_of};

verus! {

/// Seconds the delivery loop sleeps between two polls of the store.
pub const POLL_INTERVAL_SECS: u64 = 10;

/// The name of the in-process event that carries a delivered record to the
/// presentation layer.
pub fn delivery_event_name() -> (r: &'static str)
    ensures
        r@ == "notification-received"@,
{
    "notification-received"
}

/// Schedules `n`: inserts or overwrites by id. Always succeeds.
pub fn schedule_notification(
    store: &mut NotificationScheduler,
    n: ScheduledNotification,
) -> (r: Result<(), String>)
    requires
        old(store).wf(),
    ensures
        final(store).wf(),
        r is Ok,
        final(store)@ == old(store)@.insert(n.id, n@),
{
    store.add(n);
    Ok(())
}

/// Cancels the notification with id `id`. Succeeds whether or not such a
/// record exists.
pub fn cancel_notification(
    store: &mut NotificationScheduler,
    id: i32,
) -> (r: Result<(), String>)
    requires
        old(store).wf(),
    ensures
        final(store).wf(),
        r is Ok,
        final(store)@ == old(store)@.remove(id),
{
    let _ = store.remove(id);
    Ok(())
}

/// Cancels every id of `ids`; absent ids are tolerated silently. Always
/// succeeds.
pub fn cancel_notifications(
    store: &mut NotificationScheduler,
    ids: &Vec<i32>,
) -> (r: Result<(), String>)
    requires
        old(store).wf(),
    ensures
        final(store).wf(),
        r is Ok,
        final(store)@ == without_ids(old(store)@, ids@),
{
    store.remove_many(ids);
    Ok(())
}

/// A snapshot of the records still pending at the time of the call: those
/// scheduled strictly after the clock reading the call takes.
pub fn get_pending_notifications(
    store: &NotificationScheduler,
) -> (r: Result<Vec<ScheduledNotification>, String>)
    requires
        store.wf(),
    ensures
        r is Ok,
        exists|now: i64| #![trigger pending_part(store@, now)]
            listing_of(views_of(r.unwrap()@), pending_part(store@, now)),
{
    let now = now_millis();
    Ok(store.get_pending(now))
}

/// One poll step of the delivery loop: drains and returns the records due at
/// the time of the call, leaving exactly the ones still pending then.
pub fn poll_due_notifications(
    store: &mut NotificationScheduler,
) -> (due: Vec<ScheduledNotification>)
    requires
        old(store).wf(),
    ensures
        final(store).wf(),
        exists|now: i64| #![auto]
            listing_of(views_of(due@), due_part(old(store)@, now))
                && final(store)@ == pending_part(old(store)@, now),
{
    let now = now_millis();
    store.get_due(now)
}

/// Empties the store unconditionally. Always succeeds.
pub fn clear_all_notifications(store: &mut NotificationScheduler) -> (r: Result<(), String>)
    requires
        old(store).wf(),
    ensures
        final(store).wf(),
        r is Ok,
        final(store)@ == Map::<i32, Record>::empty(),
{
    store.clear();
    Ok(())
}

} // verus!
