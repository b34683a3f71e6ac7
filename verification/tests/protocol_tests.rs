use helm_resource::chart::Chart;
use helm_resource::digest::compute_digest;
use helm_resource::error::HelmError;
use helm_resource::helm::Helm;
use helm_resource::plan::{DiffMode, Op};
use helm_resource::protocol::{request_check, request_in, request_out, Config, Source};

fn chart(release: &str, name: &str, version: Option<&str>) -> Chart {
    Chart {
        release: release.to_string(),
        name: name.to_string(),
        version: version.map(|v| v.to_string()),
    }
}

fn helm() -> Helm {
    Helm {
        namespace: "prod".to_string(),
        server: "https://cluster.example:6443".to_string(),
        username: "admin".to_string(),
        password: "SECRET-REDACTED".to_string(),
    }
}

fn config(skip_tls_verify: Option<bool>, ca_data: Option<&str>) -> Config {
    Config {
        url: "https://cluster.example:6443".to_string(),
        username: "admin".to_string(),
        password: "SECRET-REDACTED".to_string(),
        namespace: "prod".to_string(),
        skip_tls_verify,
        ca_data: ca_data.map(|c| c.to_string()),
    }
}

#[test]
fn check_replies_with_one_version_holding_the_digest() {
    let deployed = vec![chart("a", "nginx", Some("1.0"))];
    let reply = request_check(&deployed);
    assert_eq!(reply.len(), 1);
    assert_eq!(reply[0].digest, compute_digest(&deployed));
}

#[test]
fn fetch_replies_with_digest_and_deployed_charts() {
    let deployed = vec![chart("a", "nginx", Some("1.0")), chart("b", "redis", None)];
    let expected_digest = compute_digest(&deployed);
    let reply = request_in(deployed);
    assert_eq!(reply.version.digest, expected_digest);
    assert_eq!(
        reply.metadata,
        vec![chart("a", "nginx", Some("1.0")), chart("b", "redis", None)]
    );
}

#[test]
fn convergence_orders_upgrades_before_deletes() {
    let deployed = vec![chart("a", "nginx", Some("1.0")), chart("b", "redis", None)];
    let desired = vec![chart("a", "nginx", Some("2.0"))];
    let ops = request_out(&deployed, desired, DiffMode::Strict).unwrap();
    assert_eq!(
        ops,
        vec![
            Op::Upgrade(chart("a", "nginx", Some("2.0"))),
            Op::Delete("b".to_string()),
        ]
    );
}

#[test]
fn convergence_under_force_reissues_unchanged_releases() {
    let deployed = vec![chart("a", "nginx", Some("1.0"))];
    let desired = vec![chart("a", "nginx", Some("1.0")), chart("b", "redis", None)];
    let ops = request_out(&deployed, desired, DiffMode::ForceReconcile).unwrap();
    assert_eq!(
        ops,
        vec![
            Op::Upgrade(chart("a", "nginx", Some("1.0"))),
            Op::Install(chart("b", "redis", None)),
        ]
    );
}

#[test]
fn convergence_rejects_duplicate_desired_releases() {
    let deployed = Vec::new();
    let desired = vec![chart("a", "nginx", Some("1.0")), chart("a", "nginx", Some("2.0"))];
    match request_out(&deployed, desired, DiffMode::Strict) {
        Err(HelmError::DuplicateRelease(k)) => assert_eq!(k, "a"),
        other => panic!("expected a duplicate-release error, got {:?}", other),
    }
}

#[test]
fn validate_rejects_missing_trust_material() {
    assert_eq!(config(None, None).validate(), Err(HelmError::NoCaData));
    assert_eq!(config(Some(false), None).validate(), Err(HelmError::NoCaData));
}

#[test]
fn validate_accepts_explicit_skip_or_trust_material() {
    assert_eq!(config(Some(true), None).validate(), Ok(()));
    assert_eq!(config(None, Some("PEMDATA")).validate(), Ok(()));
    assert_eq!(config(Some(false), Some("PEMDATA")).validate(), Ok(()));
}

#[test]
fn source_converts_into_config_field_for_field() {
    let source = Source {
        url: "https://cluster.example:6443".to_string(),
        username: "admin".to_string(),
        password: "SECRET-REDACTED".to_string(),
        namespace: "prod".to_string(),
        skip_tls_verify: Some(true),
        ca_data: None,
    };
    let config = Config::from(source);
    assert_eq!(config.url, "https://cluster.example:6443");
    assert_eq!(config.namespace, "prod");
    assert_eq!(config.skip_tls_verify, Some(true));
    assert_eq!(config.ca_data, None);
}

#[test]
fn error_messages_name_the_failure() {
    assert_eq!(
        HelmError::NoCaData.message(),
        "No ca data given and skip_tls_verify = false"
    );
    assert_eq!(
        HelmError::CmdFailed("helm list".to_string()).message(),
        "could not run command `helm list`"
    );
    assert_eq!(
        HelmError::DuplicateRelease("a".to_string()).message(),
        "duplicate release `a`"
    );
}

#[test]
fn upgrade_command_with_version() {
    let cmd = helm().upgrade(&chart("a", "nginx", Some("1.0")));
    assert_eq!(cmd, "helm upgrade -i --namespace prod --version 1.0 a stable/nginx");
}

#[test]
fn upgrade_command_without_version() {
    let cmd = helm().upgrade(&chart("a", "nginx", None));
    assert_eq!(cmd, "helm upgrade -i --namespace prod a stable/nginx");
}

#[test]
fn install_command_with_version() {
    let cmd = helm().install(&chart("b", "redis", Some("5.0")));
    assert_eq!(cmd, "helm install --replace --namespace prod --version 5.0 -n b stable/redis");
}

#[test]
fn install_command_without_version() {
    let cmd = helm().install(&chart("b", "redis", None));
    assert_eq!(cmd, "helm install --replace --namespace prod -n b stable/redis");
}

#[test]
fn delete_command_names_the_release() {
    let cmd = helm().delete("b");
    assert_eq!(cmd, "helm delete b");
}
