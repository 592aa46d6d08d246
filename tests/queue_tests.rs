use operator::backoff::{backoff_delay, retry_delay_secs, BASE_DELAY_SECS, MAX_DELAY_SECS};
use operator::key::ReconcileKey;
use operator::queue::{Pop, WorkQueue};

fn k(name: &str) -> ReconcileKey {
    ReconcileKey::new("default".to_string(), name.to_string())
}

fn pop(q: &mut WorkQueue, now: u64) -> Option<ReconcileKey> {
    match q.get(now) {
        Pop::Ready(key) => Some(key),
        _ => None,
    }
}

#[test]
fn repeated_adds_leave_one_item() {
    let mut q = WorkQueue::new(BASE_DELAY_SECS, MAX_DELAY_SECS);
    q.add_after(k("a"), 50);
    q.add_after(k("a"), 30);
    q.add_after(k("a"), 40);
    q.add(k("a"), 35);
    assert_eq!(q.pending_len(), 1);
    assert_eq!(q.ready_time(&k("a")), Some(30));
    let first = pop(&mut q, 30).unwrap();
    assert_eq!(first.name, "a");
    assert!(pop(&mut q, 100).is_none());
}

#[test]
fn ready_sooner_wins_over_later_retry() {
    let mut q = WorkQueue::new(5, 1000);
    q.add_after(k("a"), 100);
    assert!(pop(&mut q, 10).is_none());
    q.add(k("a"), 10);
    assert_eq!(q.ready_time(&k("a")), Some(10));
    assert!(pop(&mut q, 10).is_some());
}

#[test]
fn re_added_while_processing_comes_back_once() {
    let mut q = WorkQueue::new(5, 1000);
    q.add(k("a"), 0);
    let a = pop(&mut q, 0).unwrap();
    assert!(q.is_processing(&a));
    q.add(k("a"), 1);
    q.add(k("a"), 2);
    assert_eq!(q.pending_len(), 0);
    assert!(pop(&mut q, 5).is_none());
    q.done(&a);
    assert!(!q.is_processing(&a));
    assert_eq!(q.pending_len(), 1);
    assert_eq!(q.ready_time(&a), Some(1));
    assert!(pop(&mut q, 5).is_some());
    assert!(pop(&mut q, 5).is_none());
}

#[test]
fn done_without_re_add_drops_the_key() {
    let mut q = WorkQueue::new(5, 1000);
    q.add(k("a"), 0);
    let a = pop(&mut q, 0).unwrap();
    q.done(&a);
    assert_eq!(q.pending_len(), 0);
}

#[test]
fn distinct_keys_are_queued_separately() {
    let mut q = WorkQueue::new(5, 1000);
    q.add(k("a"), 0);
    q.add(k("b"), 0);
    q.add(ReconcileKey::new("other".to_string(), "a".to_string()), 0);
    assert_eq!(q.pending_len(), 3);
}

#[test]
fn backoff_doubles_up_to_the_cap_and_resets() {
    let mut q = WorkQueue::new(5, 1000);
    let mut delays = Vec::new();
    for _ in 0..10 {
        delays.push(q.add_rate_limited(k("a"), 0));
    }
    assert_eq!(delays, vec![5, 10, 20, 40, 80, 160, 320, 640, 1000, 1000]);
    assert_eq!(q.failures_of(&k("a")), 10);
    assert_eq!(q.ready_time(&k("a")), Some(5));
    q.forget(&k("a"));
    assert_eq!(q.failures_of(&k("a")), 0);
    assert_eq!(q.add_rate_limited(k("a"), 100), 5);
}

#[test]
fn backoff_schedules_at_now_plus_delay() {
    let mut q = WorkQueue::new(5, 1000);
    q.add(k("a"), 0);
    let a = pop(&mut q, 0).unwrap();
    assert_eq!(q.add_rate_limited(a.duplicate(), 100), 5);
    q.done(&a);
    assert_eq!(q.ready_time(&a), Some(105));
    let a = pop(&mut q, 105).unwrap();
    assert_eq!(q.add_rate_limited(a.duplicate(), 200), 10);
    q.done(&a);
    assert_eq!(q.ready_time(&a), Some(210));
}

#[test]
fn backoff_formula_values() {
    assert_eq!(backoff_delay(5, 1000, 0), 5);
    assert_eq!(backoff_delay(5, 1000, 3), 40);
    assert_eq!(backoff_delay(5, 1000, 7), 640);
    assert_eq!(backoff_delay(5, 1000, 8), 1000);
    assert_eq!(backoff_delay(5, 1000, u32::MAX), 1000);
    assert_eq!(backoff_delay(2000, 1000, 0), 1000);
    assert_eq!(backoff_delay(1, u64::MAX, 64), u64::MAX);
    assert_eq!(backoff_delay(1, u64::MAX, 63), 1u64 << 63);
    assert_eq!(backoff_delay(0, 1000, 5), 0);
    assert_eq!(retry_delay_secs(2), 20);
}

#[test]
fn backoff_deadline_saturates() {
    let mut q = WorkQueue::new(5, 1000);
    assert_eq!(q.add_rate_limited(k("a"), u64::MAX - 2), 5);
    assert_eq!(q.ready_time(&k("a")), Some(u64::MAX));
}

#[test]
fn shutdown_refuses_new_keys_and_drains() {
    let mut q = WorkQueue::new(5, 1000);
    q.add(k("a"), 0);
    let a = pop(&mut q, 0).unwrap();
    q.shutdown();
    q.add(k("b"), 0);
    assert_eq!(q.pending_len(), 0);
    assert!(matches!(q.get(0), Pop::Wait));
    q.done(&a);
    assert!(matches!(q.get(0), Pop::Closed));
}
