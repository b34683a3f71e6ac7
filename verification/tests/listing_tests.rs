use helm_resource::chart::Chart;
use helm_resource::error::HelmError;
use helm_resource::helm::Helm;

fn helm() -> Helm {
    Helm {
        namespace: "default".to_string(),
        server: "https://cluster.example:6443".to_string(),
        username: "admin".to_string(),
        password: "SECRET-REDACTED".to_string(),
    }
}

fn chart(release: &str, name: &str, version: Option<&str>) -> Chart {
    Chart {
        release: release.to_string(),
        name: name.to_string(),
        version: version.map(|v| v.to_string()),
    }
}

#[test]
fn list_parses_release_name_and_version_columns() {
    let listing = "NAME\tREVISION\tCHART\nmyapp\t1\tnginx-1.2.3\ncache\t4\tredis-5.0.1";
    let charts = helm().list(listing).unwrap();
    assert_eq!(
        charts,
        vec![
            chart("myapp", "nginx", Some("1.2.3")),
            chart("cache", "redis", Some("5.0.1")),
        ]
    );
}

#[test]
fn list_takes_first_and_last_column_of_each_line() {
    let listing = "HEADER\nrel  1   DEPLOYED   extra   postgres-9.6.2";
    let charts = helm().list(listing).unwrap();
    assert_eq!(charts, vec![chart("rel", "postgres", Some("9.6.2"))]);
}

#[test]
fn list_splits_the_chart_column_at_its_last_dash() {
    let listing = "HEADER\nrel\t1\tmy-chart-name-0.2.0";
    let charts = helm().list(listing).unwrap();
    assert_eq!(charts, vec![chart("rel", "my-chart-name", Some("0.2.0"))]);
}

#[test]
fn list_of_empty_text_is_empty() {
    assert_eq!(helm().list("").unwrap(), Vec::<Chart>::new());
}

#[test]
fn list_of_header_alone_is_empty() {
    assert_eq!(helm().list("NAME\tREVISION\tCHART\n").unwrap(), Vec::<Chart>::new());
}

#[test]
fn list_accepts_a_trailing_newline() {
    let listing = "HEADER\nrel\t1\tnginx-1.0\n";
    let charts = helm().list(listing).unwrap();
    assert_eq!(charts, vec![chart("rel", "nginx", Some("1.0"))]);
}

#[test]
fn list_rejects_a_chart_column_without_a_dash() {
    let listing = "HEADER\nrel\t1\tnginx";
    match helm().list(listing) {
        Err(HelmError::WrongKubeApiFormat(text)) => assert_eq!(text, listing),
        other => panic!("expected a malformed-listing error, got {:?}", other),
    }
}

#[test]
fn list_rejects_a_blank_line() {
    let listing = "HEADER\n\nrel\t1\tnginx-1.0";
    assert!(matches!(
        helm().list(listing),
        Err(HelmError::WrongKubeApiFormat(_))
    ));
}
