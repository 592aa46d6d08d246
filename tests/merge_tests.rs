use operator::merge::{apply_merge, Field, ManagedField};

fn f(path: &str, value: &str) -> Field {
    Field { path: path.to_string(), value: value.to_string() }
}

fn m(path: &str, value: &str, manager: &str) -> ManagedField {
    ManagedField { path: path.to_string(), value: value.to_string(), manager: manager.to_string() }
}

fn summary(v: &[ManagedField]) -> Vec<(String, String, String)> {
    v.iter().map(|x| (x.path.clone(), x.value.clone(), x.manager.clone())).collect()
}

fn me() -> String {
    "keda-http-operator".to_string()
}

#[test]
fn first_apply_adds_every_field() {
    let desired = vec![f("spec.group", "keda.sh"), f("spec.scope", "Namespaced")];
    let r = apply_merge(&desired, &Vec::new(), &me(), &Vec::new()).unwrap();
    assert_eq!(
        summary(&r),
        vec![
            ("spec.group".to_string(), "keda.sh".to_string(), me()),
            ("spec.scope".to_string(), "Namespaced".to_string(), me()),
        ]
    );
}

#[test]
fn reapplying_the_same_fields_changes_nothing() {
    let desired = vec![f("spec.group", "keda.sh"), f("spec.scope", "Namespaced")];
    let first = apply_merge(&desired, &Vec::new(), &me(), &Vec::new()).unwrap();
    let last: Vec<String> = desired.iter().map(|x| x.path.clone()).collect();
    let second = apply_merge(&desired, &last, &me(), &first).unwrap();
    assert_eq!(summary(&second), summary(&first));
}

#[test]
fn another_managers_value_is_a_conflict() {
    let desired = vec![f("spec.group", "keda.sh"), f("spec.scope", "Namespaced")];
    let current = vec![m("spec.group", "keda.sh", "other"), m("spec.scope", "Cluster", "other")];
    assert_eq!(apply_merge(&desired, &Vec::new(), &me(), &current).err(), Some("spec.scope".to_string()));
}

#[test]
fn same_value_of_another_manager_is_shared() {
    let desired = vec![f("spec.group", "keda.sh")];
    let current = vec![m("spec.group", "keda.sh", "other"), m("metadata.labels.x", "1", "other")];
    let r = apply_merge(&desired, &Vec::new(), &me(), &current).unwrap();
    assert_eq!(
        summary(&r),
        vec![
            ("spec.group".to_string(), "keda.sh".to_string(), me()),
            ("metadata.labels.x".to_string(), "1".to_string(), "other".to_string()),
        ]
    );
}

#[test]
fn fields_no_longer_wanted_are_removed() {
    let desired = vec![f("spec.group", "keda.sh")];
    let last = vec!["spec.group".to_string(), "spec.old".to_string()];
    let current = vec![
        m("spec.group", "keda.sh", &me()),
        m("spec.old", "x", &me()),
        m("spec.kept", "y", "other"),
    ];
    let r = apply_merge(&desired, &last, &me(), &current).unwrap();
    assert_eq!(
        summary(&r),
        vec![
            ("spec.group".to_string(), "keda.sh".to_string(), me()),
            ("spec.kept".to_string(), "y".to_string(), "other".to_string()),
        ]
    );
}

#[test]
fn own_field_takes_the_new_value() {
    let desired = vec![f("spec.version", "v2")];
    let current = vec![m("spec.version", "v1", &me())];
    let r = apply_merge(&desired, &vec!["spec.version".to_string()], &me(), &current).unwrap();
    assert_eq!(summary(&r), vec![("spec.version".to_string(), "v2".to_string(), me())]);
}
