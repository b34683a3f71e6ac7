use helm_resource::chart::Chart;
use helm_resource::digest::compute_digest;

fn chart(release: &str, name: &str, version: Option<&str>) -> Chart {
    Chart {
        release: release.to_string(),
        name: name.to_string(),
        version: version.map(|v| v.to_string()),
    }
}

#[test]
fn digest_of_empty_state_is_the_hash_of_empty_text() {
    let digest = compute_digest(&Vec::new());
    assert_eq!(digest, "d41d8cd98f00b204e9800998ecf8427e");
}

#[test]
fn digest_is_32_lowercase_hex_characters() {
    let charts = vec![chart("a", "nginx", Some("1.0"))];
    let digest = compute_digest(&charts);
    assert_eq!(digest.len(), 32);
    assert!(digest.chars().all(|c| c.is_ascii_hexdigit() && !c.is_ascii_uppercase()));
}

#[test]
fn digest_ignores_listing_order() {
    let one = vec![
        chart("a", "nginx", Some("1.0")),
        chart("b", "redis", None),
        chart("c", "etcd", Some("3.4")),
    ];
    let other = vec![
        chart("c", "etcd", Some("3.4")),
        chart("a", "nginx", Some("1.0")),
        chart("b", "redis", None),
    ];
    assert_eq!(compute_digest(&one), compute_digest(&other));
}

#[test]
fn digest_is_deterministic() {
    let charts = vec![chart("a", "nginx", Some("1.0")), chart("b", "redis", None)];
    assert_eq!(compute_digest(&charts), compute_digest(&charts));
}

#[test]
fn digest_changes_when_a_version_changes() {
    let old = vec![chart("a", "nginx", Some("1.0")), chart("b", "redis", None)];
    let new = vec![chart("a", "nginx", Some("1.1")), chart("b", "redis", None)];
    assert_ne!(compute_digest(&old), compute_digest(&new));
}

#[test]
fn digest_changes_when_a_chart_is_added() {
    let old = vec![chart("a", "nginx", Some("1.0"))];
    let new = vec![chart("a", "nginx", Some("1.0")), chart("b", "redis", None)];
    assert_ne!(compute_digest(&old), compute_digest(&new));
}

#[test]
fn digest_distinguishes_absent_from_empty_version() {
    let absent = vec![chart("a", "nginx", None)];
    let empty = vec![chart("a", "nginx", Some(""))];
    assert_ne!(compute_digest(&absent), compute_digest(&empty));
}

#[test]
fn digest_distinguishes_field_boundaries() {
    let one = vec![chart("ab", "c", None)];
    let other = vec![chart("a", "bc", None)];
    assert_ne!(compute_digest(&one), compute_digest(&other));
}
