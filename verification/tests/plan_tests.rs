use helm_resource::chart::Chart;
use helm_resource::error::HelmError;
use helm_resource::plan::{compute_plan, diff, normalize, sequence_plan, DiffMode, Op};

fn chart(release: &str, name: &str, version: Option<&str>) -> Chart {
    Chart {
        release: release.to_string(),
        name: name.to_string(),
        version: version.map(|v| v.to_string()),
    }
}

#[test]
fn install_new_release() {
    let deployed = vec![chart("a", "nginx", Some("1.0"))];
    let desired = vec![chart("a", "nginx", Some("1.0")), chart("b", "redis", None)];
    let plan = diff(&deployed, &desired);
    assert_eq!(plan.to_install, vec![chart("b", "redis", None)]);
    assert_eq!(plan.to_upgrade, Vec::<Chart>::new());
    assert_eq!(plan.to_delete, Vec::<Chart>::new());
}

#[test]
fn upgrade_changed_and_delete_vanished() {
    let deployed = vec![chart("a", "nginx", Some("1.0")), chart("b", "redis", None)];
    let desired = vec![chart("a", "nginx", Some("2.0"))];
    let plan = diff(&deployed, &desired);
    assert_eq!(plan.to_install, Vec::<Chart>::new());
    assert_eq!(plan.to_upgrade, vec![chart("a", "nginx", Some("2.0"))]);
    assert_eq!(plan.to_delete, vec![chart("b", "redis", None)]);
}

#[test]
fn empty_desired_deletes_everything() {
    let deployed = vec![
        chart("a", "nginx", Some("1.0")),
        chart("b", "redis", None),
        chart("c", "postgres", Some("9.6")),
    ];
    let desired = Vec::new();
    let plan = diff(&deployed, &desired);
    assert_eq!(plan.to_install, Vec::<Chart>::new());
    assert_eq!(plan.to_upgrade, Vec::<Chart>::new());
    assert_eq!(plan.to_delete, deployed);
}

#[test]
fn converged_state_yields_empty_plan() {
    let state = vec![chart("a", "nginx", Some("1.0")), chart("b", "redis", None)];
    let plan = compute_plan(&state, &state, DiffMode::Strict);
    assert!(plan.to_install.is_empty());
    assert!(plan.to_upgrade.is_empty());
    assert!(plan.to_delete.is_empty());
}

#[test]
fn force_reconcile_reissues_identical_entries() {
    let state = vec![chart("a", "nginx", Some("1.0")), chart("b", "redis", None)];
    let plan = compute_plan(&state, &state, DiffMode::ForceReconcile);
    assert!(plan.to_install.is_empty());
    assert_eq!(plan.to_upgrade, state);
    assert!(plan.to_delete.is_empty());
}

#[test]
fn disjoint_sets_install_all_delete_all() {
    let deployed = vec![chart("x", "nginx", Some("1.0")), chart("y", "redis", None)];
    let desired = vec![chart("p", "etcd", Some("3.4")), chart("q", "vault", None)];
    let plan = diff(&deployed, &desired);
    assert_eq!(plan.to_install, desired);
    assert_eq!(plan.to_upgrade, Vec::<Chart>::new());
    assert_eq!(plan.to_delete, deployed);
}

#[test]
fn version_change_alone_is_an_upgrade() {
    let deployed = vec![chart("a", "nginx", Some("1.0"))];
    let desired = vec![chart("a", "nginx", None)];
    let plan = diff(&deployed, &desired);
    assert_eq!(plan.to_upgrade, vec![chart("a", "nginx", None)]);
    assert!(plan.to_install.is_empty());
    assert!(plan.to_delete.is_empty());
}

#[test]
fn operations_run_upgrades_then_installs_then_deletes() {
    let deployed = vec![chart("a", "nginx", Some("1.0")), chart("b", "redis", None)];
    let desired = vec![chart("c", "etcd", None), chart("a", "nginx", Some("2.0"))];
    let plan = diff(&deployed, &desired);
    let ops = sequence_plan(&plan);
    assert_eq!(
        ops,
        vec![
            Op::Upgrade(chart("a", "nginx", Some("2.0"))),
            Op::Install(chart("c", "etcd", None)),
            Op::Delete("b".to_string()),
        ]
    );
}

#[test]
fn normalize_accepts_unique_releases() {
    let desired = vec![chart("a", "nginx", Some("1.0")), chart("b", "redis", None)];
    let normalized = normalize(desired).unwrap();
    assert_eq!(
        normalized,
        vec![chart("a", "nginx", Some("1.0")), chart("b", "redis", None)]
    );
}

#[test]
fn normalize_rejects_duplicate_release() {
    let desired = vec![
        chart("a", "nginx", Some("1.0")),
        chart("b", "redis", None),
        chart("a", "nginx", Some("2.0")),
    ];
    match normalize(desired) {
        Err(HelmError::DuplicateRelease(k)) => assert_eq!(k, "a"),
        other => panic!("expected a duplicate-release error, got {:?}", other),
    }
}
