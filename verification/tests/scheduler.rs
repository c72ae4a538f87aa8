use notification_scheduler::commands;
use notification_scheduler::setup::{set_complete, SetupState, SetupTask};
use notification_scheduler::store::{NotificationScheduler, ScheduledNotification};

fn record(id: i32, schedule_at: i64) -> ScheduledNotification {
    ScheduledNotification {
        id,
        title: format!("title {}", id),
        body: format!("body {}", id),
        schedule_at,
        extra: None,
    }
}

fn sorted_ids(records: &[ScheduledNotification]) -> Vec<i32> {
    let mut ids: Vec<i32> = records.iter().map(|n| n.id).collect();
    ids.sort();
    ids
}

#[test]
fn pending_tracks_adds_minus_removes() {
    let mut store = NotificationScheduler::new();
    store.add(record(1, 1_000));
    store.add(record(2, 2_000));
    store.add(record(3, 3_000));
    store.remove(2);
    let pending = store.get_pending(0);
    assert_eq!(sorted_ids(&pending), vec![1, 3]);
    store.remove(1);
    store.remove(7);
    let pending = store.get_pending(0);
    assert_eq!(sorted_ids(&pending), vec![3]);
}

#[test]
fn get_due_partitions_the_store() {
    let mut store = NotificationScheduler::new();
    store.add(record(1, 50));
    store.add(record(2, 100));
    store.add(record(3, 150));
    store.add(record(4, 200));
    let due = store.get_due(100);
    assert_eq!(sorted_ids(&due), vec![1, 2]);
    let pending = store.get_pending(100);
    assert_eq!(sorted_ids(&pending), vec![3, 4]);
    // Nothing was lost and nothing was counted twice.
    let drained_rest = store.get_due(i64::MAX);
    assert_eq!(sorted_ids(&drained_rest), vec![3, 4]);
    assert!(store.get_pending(i64::MIN).is_empty());
}

#[test]
fn remove_is_idempotent() {
    let mut store = NotificationScheduler::new();
    store.add(record(9, 500));
    let first = store.remove(9);
    assert!(first.is_some());
    assert_eq!(first.unwrap().id, 9);
    let second = store.remove(9);
    assert!(second.is_none());
}

#[test]
fn boundary_at_now_is_due_not_pending() {
    let mut store = NotificationScheduler::new();
    store.add(record(5, 1_234));
    assert!(store.get_pending(1_234).is_empty());
    let due = store.get_due(1_234);
    assert_eq!(sorted_ids(&due), vec![5]);
}

#[test]
fn single_record_lifecycle() {
    let t: i64 = 10_000;
    let mut store = NotificationScheduler::new();
    store.add(record(1, t));
    let before = store.get_pending(t - 1);
    assert_eq!(sorted_ids(&before), vec![1]);
    let due = store.get_due(t);
    assert_eq!(sorted_ids(&due), vec![1]);
    assert!(store.get_pending(t).is_empty());
    assert!(store.get_pending(t - 1).is_empty());
}

#[test]
fn re_adding_an_id_overwrites_the_record() {
    let mut store = NotificationScheduler::new();
    let mut first = record(1, 1_000);
    first.body = String::from("first body");
    let mut second = record(1, 1_000);
    second.body = String::from("second body");
    store.add(first);
    store.add(second);
    let pending = store.get_pending(0);
    assert_eq!(pending.len(), 1);
    assert_eq!(pending[0].id, 1);
    assert_eq!(pending[0].body, "second body");
}

#[test]
fn clear_all_empties_due_and_pending() {
    let mut store = NotificationScheduler::new();
    for id in 1..=5 {
        store.add(record(id, i64::from(id) * 100));
    }
    let cleared = commands::clear_all_notifications(&mut store);
    assert!(cleared.is_ok());
    assert!(store.get_pending(0).is_empty());
    assert!(store.get_due(i64::MAX).is_empty());
}

#[test]
fn cancel_nonexistent_id_succeeds() {
    let mut store = NotificationScheduler::new();
    let outcome = commands::cancel_notification(&mut store, 42);
    assert!(outcome.is_ok());
}

#[test]
fn cancel_many_tolerates_absent_ids() {
    let mut store = NotificationScheduler::new();
    store.add(record(1, 100));
    store.add(record(2, 200));
    store.add(record(3, 300));
    let ids: Vec<i32> = vec![2, 99, 3];
    let outcome = commands::cancel_notifications(&mut store, &ids);
    assert!(outcome.is_ok());
    let pending = store.get_pending(0);
    assert_eq!(sorted_ids(&pending), vec![1]);
}

#[test]
fn schedule_command_inserts_record() {
    let mut store = NotificationScheduler::new();
    let outcome = commands::schedule_notification(&mut store, record(7, 700));
    assert!(outcome.is_ok());
    let pending = store.get_pending(0);
    assert_eq!(sorted_ids(&pending), vec![7]);
}

#[test]
fn extra_payload_passes_through_unmodified() {
    let mut store = NotificationScheduler::new();
    let mut n = record(1, 100);
    n.extra = Some(String::from("{\"kind\":\"reminder\"}"));
    store.add(n);
    let pending = store.get_pending(0);
    assert_eq!(pending.len(), 1);
    assert_eq!(pending[0].extra.as_deref(), Some("{\"kind\":\"reminder\"}"));
    let due = store.get_due(100);
    assert_eq!(due.len(), 1);
    assert_eq!(due[0].extra.as_deref(), Some("{\"kind\":\"reminder\"}"));
}

#[test]
fn clock_classifies_past_as_due_and_far_future_as_pending() {
    let mut store = NotificationScheduler::new();
    // Scheduled at the epoch: due at any plausible present time.
    store.add(record(1, 0));
    // Scheduled at the end of time: pending at any plausible present time.
    store.add(record(2, i64::MAX));
    let due = commands::poll_due_notifications(&mut store);
    assert_eq!(sorted_ids(&due), vec![1]);
    let pending = commands::get_pending_notifications(&store).unwrap();
    assert_eq!(sorted_ids(&pending), vec![2]);
}

#[test]
fn frontend_completion_shows_main_window() {
    let mut state = SetupState::new();
    let show_main = set_complete(&mut state, SetupTask::Frontend);
    assert!(show_main);
    assert!(state.frontend_task);
    assert!(!state.backend_task);
}

#[test]
fn backend_completion_alone_keeps_splash() {
    let mut state = SetupState::new();
    let show_main = set_complete(&mut state, SetupTask::Backend);
    assert!(!show_main);
    assert!(!state.frontend_task);
    assert!(state.backend_task);
    let show_main = set_complete(&mut state, SetupTask::Frontend);
    assert!(show_main);
}

#[test]
fn delivery_constants_match_the_design() {
    assert_eq!(commands::delivery_event_name(), "notification-received");
    assert_eq!(commands::POLL_INTERVAL_SECS, 10);
}
