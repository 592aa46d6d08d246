use operator::crds::{App, AppSpec, ValidationError};
use operator::key::ReconcileKey;
use operator::reconciler::{reconcile, Workload, WriteAction};

fn key() -> ReconcileKey {
    ReconcileKey::new("default".to_string(), "web".to_string())
}

fn app(image: &str, port: u32) -> App {
    App::new(
        "uid-1".to_string(),
        AppSpec::new("web".to_string(), image.to_string(), port),
    )
}

fn created(plan: Result<WriteAction, ValidationError>) -> Workload {
    match plan {
        Ok(WriteAction::Create(w)) => w,
        _ => panic!("expected a create"),
    }
}

#[test]
fn example_scenario_create_then_update_image() {
    let k = key();
    let v1 = app("example/web:v1", 8080);
    let w = created(reconcile(&k, Some(&v1), None));
    assert_eq!(w.image, "example/web:v1");
    assert_eq!(w.port, 8080);
    assert_eq!(w.owner.kind, "ScaledHTTPApp");
    assert_eq!(w.owner.key.namespace, "default");
    assert_eq!(w.owner.key.name, "web");
    assert_eq!(w.owner.uid, "uid-1");

    let v2 = app("example/web:v2", 8080);
    match reconcile(&k, Some(&v2), Some(&w)) {
        Ok(WriteAction::Update(p)) => {
            assert_eq!(p.image, Some("example/web:v2".to_string()));
            assert_eq!(p.port, None);
        },
        _ => panic!("expected an update"),
    }
}

#[test]
fn second_reconcile_issues_no_write() {
    let k = key();
    let a = app("example/web:v1", 8080);
    let w = created(reconcile(&k, Some(&a), None));
    assert!(matches!(reconcile(&k, Some(&a), Some(&w)), Ok(WriteAction::NoWrite)));
}

#[test]
fn update_applied_converges_and_is_idempotent() {
    let k = key();
    let old = app("example/web:v1", 8080);
    let mut w = created(reconcile(&k, Some(&old), None));
    let new = app("example/web:v3", 9090);
    match reconcile(&k, Some(&new), Some(&w)) {
        Ok(WriteAction::Update(p)) => {
            assert_eq!(p.image, Some("example/web:v3".to_string()));
            assert_eq!(p.port, Some(9090));
            w.image = p.image.unwrap();
            w.port = p.port.unwrap();
        },
        _ => panic!("expected an update"),
    }
    assert_eq!(w.image, "example/web:v3");
    assert_eq!(w.port, 9090);
    assert!(matches!(reconcile(&k, Some(&new), Some(&w)), Ok(WriteAction::NoWrite)));
}

#[test]
fn port_only_change_leaves_image_alone() {
    let k = key();
    let w = created(reconcile(&k, Some(&app("img", 80)), None));
    match reconcile(&k, Some(&app("img", 81)), Some(&w)) {
        Ok(WriteAction::Update(p)) => {
            assert_eq!(p.image, None);
            assert_eq!(p.port, Some(81));
        },
        _ => panic!("expected an update"),
    }
}

#[test]
fn deleted_primary_needs_no_write() {
    let k = key();
    let w = created(reconcile(&k, Some(&app("img", 80)), None));
    assert!(matches!(reconcile(&k, None, Some(&w)), Ok(WriteAction::NoWrite)));
    assert!(matches!(reconcile(&k, None, None), Ok(WriteAction::NoWrite)));
}

#[test]
fn out_of_range_ports_are_rejected() {
    let k = key();
    assert!(matches!(reconcile(&k, Some(&app("img", 0)), None), Err(ValidationError::PortOutOfRange)));
    assert!(matches!(
        reconcile(&k, Some(&app("img", 65536)), None),
        Err(ValidationError::PortOutOfRange)
    ));
    assert!(matches!(reconcile(&k, Some(&app("img", 65535)), None), Ok(WriteAction::Create(_))));
    assert!(matches!(reconcile(&k, Some(&app("img", 1)), None), Ok(WriteAction::Create(_))));
}

#[test]
fn validate_checks_port_bounds() {
    assert_eq!(AppSpec::new("a".to_string(), "i".to_string(), 8080).validate(), Ok(()));
    assert_eq!(
        AppSpec::new("a".to_string(), "i".to_string(), 0).validate(),
        Err(ValidationError::PortOutOfRange)
    );
    assert_eq!(
        AppSpec::new("a".to_string(), "i".to_string(), 100000).validate(),
        Err(ValidationError::PortOutOfRange)
    );
}
