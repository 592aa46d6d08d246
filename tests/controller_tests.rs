use operator::cache::{EventKind, Listed, WatchCache};
use operator::controller::{
    classify, on_owned_event, on_primary_event, settle, FailureKind, ReconcileResult, WriteOutcome,
    CONFLICT_RETRY_SECS,
};
use operator::crds::{App, AppSpec, ValidationError};
use operator::key::ReconcileKey;
use operator::ownership::OwnershipIndex;
use operator::queue::{Pop, WorkQueue};
use operator::reconciler::{reconcile, OwnerMarker, WriteAction};
use operator::registrar::{
    registration_request, registration_step, RegistrationOutcome, RegistrationStep,
};

fn k(name: &str) -> ReconcileKey {
    ReconcileKey::new("default".to_string(), name.to_string())
}

fn marker(kind: &str, owner: &str) -> OwnerMarker {
    OwnerMarker { kind: kind.to_string(), key: k(owner), uid: "u".to_string() }
}

#[test]
fn classify_each_outcome() {
    let ok: Result<WriteAction, ValidationError> = Ok(WriteAction::NoWrite);
    let bad: Result<WriteAction, ValidationError> = Err(ValidationError::PortOutOfRange);
    assert_eq!(classify(&ok, WriteOutcome::Applied), ReconcileResult::Converged);
    assert_eq!(
        classify(&ok, WriteOutcome::Conflict),
        ReconcileResult::Requeue { after_secs: CONFLICT_RETRY_SECS }
    );
    assert_eq!(classify(&ok, WriteOutcome::Unreachable), ReconcileResult::Failed(FailureKind::Transient));
    assert_eq!(classify(&ok, WriteOutcome::Rejected), ReconcileResult::Failed(FailureKind::Permanent));
    assert_eq!(classify(&ok, WriteOutcome::Malformed), ReconcileResult::Failed(FailureKind::Permanent));
    assert_eq!(classify(&bad, WriteOutcome::Applied), ReconcileResult::Failed(FailureKind::Permanent));
}

#[test]
fn settle_paths() {
    let mut q = WorkQueue::new(5, 1000);
    q.add(k("a"), 0);
    let a = match q.get(0) {
        Pop::Ready(x) => x,
        _ => panic!("expected a key"),
    };
    settle(&mut q, &a, ReconcileResult::Failed(FailureKind::Transient), 10, None);
    assert_eq!(q.ready_time(&a), Some(15));
    assert_eq!(q.failures_of(&a), 1);
    assert!(!q.is_processing(&a));

    let a = match q.get(15) {
        Pop::Ready(x) => x,
        _ => panic!("expected a key"),
    };
    settle(&mut q, &a, ReconcileResult::Requeue { after_secs: 1 }, 20, None);
    assert_eq!(q.ready_time(&a), Some(21));
    assert_eq!(q.failures_of(&a), 1);

    let a = match q.get(21) {
        Pop::Ready(x) => x,
        _ => panic!("expected a key"),
    };
    settle(&mut q, &a, ReconcileResult::Converged, 30, Some(300));
    assert_eq!(q.ready_time(&a), Some(330));
    assert_eq!(q.failures_of(&a), 0);

    let a = match q.get(330) {
        Pop::Ready(x) => x,
        _ => panic!("expected a key"),
    };
    settle(&mut q, &a, ReconcileResult::Converged, 400, None);
    assert_eq!(q.pending_len(), 0);
}

#[test]
fn deleting_owned_workload_heals_it() {
    let owner = k("web");
    let app = App::new("uid-9".to_string(), AppSpec::new("web".to_string(), "img:v1".to_string(), 8080));
    let w = match reconcile(&owner, Some(&app), None) {
        Ok(WriteAction::Create(w)) => w,
        _ => panic!("expected a create"),
    };
    let mut index = OwnershipIndex::new();
    let mut q = WorkQueue::new(5, 1000);
    let owned = k("web-workload");
    let got = on_owned_event(&mut index, &mut q, &owned, EventKind::Added, Some(&w.owner), 0);
    assert_eq!(got.unwrap().name, "web");
    let a = match q.get(0) {
        Pop::Ready(x) => x,
        _ => panic!("expected a key"),
    };
    q.done(&a);
    let got = on_owned_event(&mut index, &mut q, &owned, EventKind::Deleted, None, 5);
    assert_eq!(got.unwrap().name, "web");
    assert_eq!(q.ready_time(&owner), Some(5));
    assert!(index.owner_of(&owned).is_none());
    let again = match reconcile(&owner, Some(&app), None) {
        Ok(WriteAction::Create(w2)) => w2,
        _ => panic!("expected a create"),
    };
    assert_eq!(again.image, w.image);
    assert_eq!(again.port, w.port);
    assert_eq!(again.owner.key.name, w.owner.key.name);
    assert_eq!(again.owner.uid, w.owner.uid);
    let got = on_owned_event(&mut index, &mut q, &owned, EventKind::Deleted, None, 6);
    assert!(got.is_none());
}

#[test]
fn foreign_or_missing_markers_are_ignored() {
    let mut index = OwnershipIndex::new();
    let mut q = WorkQueue::new(5, 1000);
    let m = marker("SomethingElse", "x");
    assert!(on_owned_event(&mut index, &mut q, &k("o"), EventKind::Added, Some(&m), 0).is_none());
    assert!(on_owned_event(&mut index, &mut q, &k("o"), EventKind::Modified, None, 0).is_none());
    assert_eq!(q.pending_len(), 0);
    let m = marker("ScaledHTTPApp", "x");
    let got = index.record_if_owned(&k("o"), Some(&m)).unwrap();
    assert_eq!(got.name, "x");
    assert_eq!(index.owner_of(&k("o")).unwrap().name, "x");
}

#[test]
fn primary_event_enqueues_key() {
    let mut q = WorkQueue::new(5, 1000);
    on_primary_event(&mut q, &k("a"), 7);
    on_primary_event(&mut q, &k("a"), 9);
    assert_eq!(q.pending_len(), 1);
    assert_eq!(q.ready_time(&k("a")), Some(7));
}

#[test]
fn cache_filters_stale_and_duplicate_events() {
    let mut c: WatchCache<u32> = WatchCache::new();
    assert_eq!(c.observe(k("a"), 5, Some(1)), Some(EventKind::Added));
    assert_eq!(c.observe(k("a"), 5, Some(2)), None);
    assert_eq!(c.observe(k("a"), 4, Some(3)), None);
    assert_eq!(c.get(&k("a")), Some(&1));
    assert_eq!(c.observe(k("a"), 7, Some(4)), Some(EventKind::Modified));
    assert_eq!(c.get(&k("a")), Some(&4));
    assert_eq!(c.observe(k("a"), 8, None), Some(EventKind::Deleted));
    assert_eq!(c.get(&k("a")), None);
    assert_eq!(c.observe(k("a"), 6, Some(5)), None);
    assert_eq!(c.get(&k("a")), None);
    assert_eq!(c.version_of(&k("a")), Some(8));
    assert_eq!(c.observe(k("b"), 1, None), None);
    assert_eq!(c.version_of(&k("b")), Some(1));
}

#[test]
fn registration_request_and_retries() {
    let r = registration_request();
    assert_eq!(r.resource_name, "scaledhttpapps.keda.sh");
    assert_eq!(r.field_manager, "keda-http-operator");
    assert!(!r.force);
    assert!(!r.dry_run);
    assert_eq!(registration_step(1, RegistrationOutcome::Registered), RegistrationStep::Start);
    assert_eq!(
        registration_step(1, RegistrationOutcome::Unreachable),
        RegistrationStep::RetryAfter { secs: 2 }
    );
    assert_eq!(registration_step(5, RegistrationOutcome::Unreachable), RegistrationStep::Fatal);
    assert_eq!(registration_step(1, RegistrationOutcome::Conflict), RegistrationStep::Fatal);
    assert_eq!(registration_step(1, RegistrationOutcome::Refused), RegistrationStep::Fatal);
}

fn listed(name: &str, rv: u64, v: u32) -> Listed<u32> {
    Listed { key: k(name), resource_version: rv, object: v }
}

#[test]
fn relist_synthesizes_deletes_and_updates() {
    let mut c: WatchCache<u32> = WatchCache::new();
    c.observe(k("a"), 1, Some(10));
    c.observe(k("b"), 2, Some(20));
    c.observe(k("c"), 3, Some(30));
    let events = c.relist(vec![listed("a", 1, 10), listed("c", 9, 31), listed("d", 4, 40)]);
    assert_eq!(c.get(&k("a")), Some(&10));
    assert_eq!(c.get(&k("b")), None);
    assert_eq!(c.get(&k("c")), Some(&31));
    assert_eq!(c.get(&k("d")), Some(&40));
    let summary: Vec<(String, EventKind)> = events.iter().map(|e| (e.key.name.clone(), e.kind)).collect();
    assert_eq!(
        summary,
        vec![
            ("b".to_string(), EventKind::Deleted),
            ("c".to_string(), EventKind::Modified),
            ("d".to_string(), EventKind::Added),
        ]
    );
}

#[test]
fn relist_of_empty_listing_deletes_everything() {
    let mut c: WatchCache<u32> = WatchCache::new();
    c.observe(k("a"), 1, Some(10));
    let events = c.relist(Vec::new());
    assert_eq!(events.len(), 1);
    assert_eq!(events[0].kind, EventKind::Deleted);
    assert_eq!(c.get(&k("a")), None);
    assert_eq!(c.version_of(&k("a")), Some(1));
}
