use pdrift::lockfile::{normalize_name, parse_lockfile, snapshot_from_tables, LockfileError};

#[test]
fn test_normalize_lowercase() {
    assert_eq!(normalize_name("Django"), "django");
    assert_eq!(normalize_name("REQUESTS"), "requests");
}

#[test]
fn test_normalize_hyphen_to_underscore() {
    assert_eq!(normalize_name("some-package"), "some_package");
    assert_eq!(normalize_name("flask-cors"), "flask_cors");
}

#[test]
fn test_normalize_period_to_underscore() {
    assert_eq!(normalize_name("zope.interface"), "zope_interface");
}

#[test]
fn test_normalize_already_normalized() {
    assert_eq!(normalize_name("requests"), "requests");
    assert_eq!(normalize_name("pytest"), "pytest");
}

#[test]
fn test_normalize_mixed_case_and_separators() {
    assert_eq!(normalize_name("Some-Package.Name"), "some_package_name");
}

#[test]
fn test_parse_simple_lockfile() {
    let lock_content = r#"[[package]]
name = "requests"
version = "2.31.0"
description = "Python HTTP library"
"#;

    let result = parse_lockfile(lock_content).unwrap();

    assert!(result.contains_key("requests"));
    assert_eq!(result.get("requests").unwrap().name, "requests");
    assert_eq!(result.get("requests").unwrap().version, "2.31.0");
}

#[test]
fn test_normalize_package_names() {
    let lock_content = r#"[[package]]
name = "Django-CORS-Headers"
version = "4.0.0"
"#;

    let result = parse_lockfile(lock_content).unwrap();

    assert!(result.contains_key("django_cors_headers"));
    assert_eq!(result.get("django_cors_headers").unwrap().name, "Django-CORS-Headers");
}

#[test]
fn test_invalid_toml() {
    let result = parse_lockfile("this is not valid TOML {{{");
    assert!(result.is_err());
}

#[test]
fn test_empty_lockfile() {
    let result = parse_lockfile("").unwrap();
    assert!(result.is_empty());
}

#[test]
fn test_lockfile_without_packages() {
    let lock_content = r#"[metadata]
lock-version = "2.0"
python-versions = "^3.12"
"#;

    let result = parse_lockfile(lock_content).unwrap();
    assert!(result.is_empty());
}

#[test]
fn test_missing_name_field() {
    let lock_content = r#"[[package]]
version = "1.0.0"
"#;

    let result = parse_lockfile(lock_content);
    assert!(result.is_err());
}

#[test]
fn test_missing_version_field() {
    let lock_content = r#"[[package]]
name = "mypackage"
"#;

    let result = parse_lockfile(lock_content);
    assert!(result.is_err());
}

#[test]
fn parse_reports_which_field_is_missing() {
    let no_name = parse_lockfile("[[package]]\nversion = \"1.0.0\"\n");
    assert!(matches!(no_name, Err(LockfileError::MissingName)));
    let no_version = parse_lockfile("[[package]]\nname = \"a\"\n");
    assert!(matches!(no_version, Err(LockfileError::MissingVersion)));
    let malformed = parse_lockfile("[[package]\n");
    assert!(matches!(malformed, Err(LockfileError::Malformed(_))));
}

#[test]
fn parse_later_entry_replaces_earlier_of_same_key() {
    let content = "[[package]]\nname = \"Foo-Bar\"\nversion = \"1.0\"\n\n[[package]]\nname = \"foo.bar\"\nversion = \"2.0\"\n";
    let result = parse_lockfile(content).unwrap();
    assert_eq!(result.len(), 1);
    assert_eq!(result.get("foo_bar").unwrap().name, "foo.bar");
    assert_eq!(result.get("foo_bar").unwrap().version, "2.0");
}

#[test]
fn parse_keys_every_package_by_normalized_name() {
    let content = "[[package]]\nname = \"Zope.Interface\"\nversion = \"5.0\"\n\n[[package]]\nname = \"requests\"\nversion = \"2.31.0\"\n";
    let result = parse_lockfile(content).unwrap();
    assert_eq!(result.len(), 2);
    assert_eq!(result.key_at(0), "zope_interface");
    assert_eq!(result.key_at(1), "requests");
}

#[test]
fn normalize_changes_only_case_and_separators() {
    assert_eq!(normalize_name(""), "");
    assert_eq!(normalize_name("a_b-c.D"), "a_b_c_d");
}

#[test]
fn tables_first_incomplete_table_decides_the_error() {
    let tables = vec![
        (Some("a".to_string()), Some("1.0".to_string())),
        (Some("b".to_string()), None),
        (None, Some("2.0".to_string())),
    ];
    assert!(matches!(snapshot_from_tables(&tables), Err(LockfileError::MissingVersion)));
    let tables = vec![(None, None), (Some("b".to_string()), None)];
    assert!(matches!(snapshot_from_tables(&tables), Err(LockfileError::MissingName)));
}

#[test]
fn tables_last_table_of_a_key_wins() {
    let tables = vec![
        (Some("Foo.Bar".to_string()), Some("1.0".to_string())),
        (Some("other".to_string()), Some("3.0".to_string())),
        (Some("foo-bar".to_string()), Some("2.0".to_string())),
    ];
    let s = snapshot_from_tables(&tables).unwrap();
    assert_eq!(s.len(), 2);
    assert_eq!(s.get("foo_bar").unwrap().name, "foo-bar");
    assert_eq!(s.get("foo_bar").unwrap().version, "2.0");
    assert_eq!(s.get("other").unwrap().version, "3.0");
    assert!(snapshot_from_tables(&Vec::new()).unwrap().is_empty());
}

#[test]
fn parse_non_string_fields_count_as_missing() {
    let r = parse_lockfile("[[package]]\nname = 5\nversion = \"1.0\"\n");
    assert!(matches!(r, Err(LockfileError::MissingName)));
    let r = parse_lockfile("package = 3\n");
    assert!(r.unwrap().is_empty());
}
