use pdrift::cli::exit_code;
use pdrift::compare::{compare_packages, is_breaking_bump, VersionBump};
use pdrift::lockfile::{LockedPackage, Snapshot};
use pdrift::output::{format_text, json_report};
use pdrift::version::{is_breaking, Version};

fn snapshot(entries: &[(&str, &str, &str)]) -> Snapshot {
    let mut s = Snapshot::new();
    for (key, name, version) in entries {
        s.insert(
            key.to_string(),
            LockedPackage {
                name: name.to_string(),
                version: version.to_string(),
            },
        );
    }
    s
}

fn bump(name: &str, old: &str, new: &str, breaking: bool) -> VersionBump {
    VersionBump {
        package_name: name.to_string(),
        old_version: old.to_string(),
        new_version: new.to_string(),
        is_breaking: breaking,
    }
}

#[test]
fn same_version_is_never_breaking() {
    for v in ["0.0.0", "0.3.1", "1.0.0", "1!2.0.0", "2.0.0a1", "10"] {
        assert!(!is_breaking_bump(v, v).unwrap());
    }
}

#[test]
fn major_rise_is_breaking_whatever_the_rest() {
    assert!(is_breaking_bump("1.9.9", "2.0.0").unwrap());
    assert!(is_breaking_bump("1.0.0", "2.0.0.post1").unwrap());
    assert!(is_breaking_bump("3", "4.5").unwrap());
}

#[test]
fn zero_major_minor_rise_is_breaking() {
    assert!(is_breaking_bump("0.1", "0.2.0").unwrap());
    assert!(is_breaking_bump("0.0.9", "0.1.0").unwrap());
    assert!(!is_breaking_bump("0.1.0", "0.1.9").unwrap());
}

#[test]
fn downgrades_are_not_breaking() {
    assert!(!is_breaking_bump("3.0.0", "2.9.9").unwrap());
    assert!(!is_breaking_bump("0.3.0", "0.2.5").unwrap());
    assert!(!is_breaking_bump("1.2.3", "1.2.2").unwrap());
}

#[test]
fn epoch_alone_is_not_consulted() {
    assert!(!is_breaking_bump("1.0.0", "1!1.0.0").unwrap());
    assert!(!is_breaking_bump("1!1.0.0", "2!1.1.0").unwrap());
}

#[test]
fn missing_segments_read_as_zero() {
    assert!(!is_breaking_bump("1", "1.0.0").unwrap());
    assert!(is_breaking_bump("0", "0.1").unwrap());
}

#[test]
fn version_parse_reads_epoch_and_release() {
    let v = Version::parse("1!2.3.4rc1").unwrap();
    assert_eq!(v.epoch, 1);
    assert_eq!(v.release, vec![2, 3, 4]);
    let w = Version::parse("0.10").unwrap();
    assert_eq!(w.epoch, 0);
    assert_eq!(w.release, vec![0, 10]);
    assert!(is_breaking(&Version::parse("0.9").unwrap(), &w));
}

#[test]
fn unparseable_versions_are_errors() {
    assert_eq!(Version::parse("").unwrap_err().input, "");
    assert_eq!(Version::parse("not-a-version").unwrap_err().input, "not-a-version");
    assert_eq!(is_breaking_bump("garbage", "1.0").unwrap_err().input, "garbage");
    assert_eq!(is_breaking_bump("1.0", "garbage").unwrap_err().input, "garbage");
    assert_eq!(is_breaking_bump("bad", "worse").unwrap_err().input, "bad");
}

#[test]
fn compare_reports_parse_failure_of_changed_version() {
    let old = snapshot(&[("a", "a", "1.0"), ("b", "b", "oops")]);
    let new = snapshot(&[("a", "a", "1.0"), ("b", "b", "2.0")]);
    assert_eq!(compare_packages(&old, &new).unwrap_err().input, "oops");
}

#[test]
fn compare_ignores_unchanged_malformed_versions() {
    let old = snapshot(&[("a", "a", "not a version"), ("b", "b", "1.0")]);
    let new = snapshot(&[("a", "a", "not a version"), ("b", "b", "1.1")]);
    let bumps = compare_packages(&old, &new).unwrap();
    assert_eq!(bumps, vec![bump("b", "1.0", "1.1", false)]);
}

#[test]
fn compare_skips_keys_in_one_snapshot_only() {
    let old = snapshot(&[("gone", "gone", "1.0"), ("kept", "kept", "1.0")]);
    let new = snapshot(&[("added", "added", "2.0"), ("kept", "kept", "2.0")]);
    let bumps = compare_packages(&old, &new).unwrap();
    assert_eq!(bumps, vec![bump("kept", "1.0", "2.0", true)]);
}

#[test]
fn compare_sorts_case_insensitively_and_keeps_old_names() {
    let old = snapshot(&[
        ("zope_interface", "zope.interface", "4.0"),
        ("django_cors_headers", "Django-CORS-Headers", "3.0"),
        ("attrs", "attrs", "21.0"),
        ("babel", "Babel", "2.0"),
    ]);
    let new = snapshot(&[
        ("zope_interface", "Zope.Interface", "5.0"),
        ("django_cors_headers", "django-cors-headers", "4.0"),
        ("attrs", "attrs", "21.1"),
        ("babel", "babel", "2.1"),
    ]);
    let bumps = compare_packages(&old, &new).unwrap();
    let names: Vec<&str> = bumps.iter().map(|b| b.package_name.as_str()).collect();
    assert_eq!(names, vec!["attrs", "Babel", "Django-CORS-Headers", "zope.interface"]);
}

#[test]
fn compare_scenarios() {
    let cases = [
        ("urllib3", "1.26.0", "2.0.0", true),
        ("requests", "2.31.0", "2.32.0", false),
        ("pkg", "0.9.0", "0.10.0", true),
        ("pkg", "1!1.0.0", "1!2.0.0", true),
    ];
    for (name, old_v, new_v, breaking) in cases {
        let old = snapshot(&[(name, name, old_v)]);
        let new = snapshot(&[(name, name, new_v)]);
        let bumps = compare_packages(&old, &new).unwrap();
        assert_eq!(bumps, vec![bump(name, old_v, new_v, breaking)]);
    }
}

#[test]
fn empty_snapshots_give_nothing() {
    let bumps = compare_packages(&Snapshot::new(), &Snapshot::new()).unwrap();
    assert!(bumps.is_empty());
    assert_eq!(format_text(&bumps, false), "No breaking changes detected.");
    assert_eq!(format_text(&bumps, true), "No breaking changes detected.");
    let report = json_report(&bumps, true);
    assert!(report.breaking_changes.is_empty());
    assert!(report.non_breaking_changes.is_none());
    assert_eq!(exit_code(&bumps), 0);
}

#[test]
fn snapshot_insert_replaces_same_key() {
    let mut s = snapshot(&[("a", "a", "1.0")]);
    s.insert(
        "a".to_string(),
        LockedPackage {
            name: "A".to_string(),
            version: "2.0".to_string(),
        },
    );
    assert_eq!(s.len(), 1);
    assert_eq!(s.get("a").unwrap().version, "2.0");
    assert!(s.get("b").is_none());
}

#[test]
fn text_report_exact_layout() {
    let bumps = vec![
        bump("alpha", "0.1.0", "0.2.0", true),
        bump("beta", "1.0.0", "2.0.0", true),
        bump("gamma", "1.0.0", "1.1.0", false),
    ];
    assert_eq!(
        format_text(&bumps, false),
        "Breaking changes detected:\n  alpha: 0.1.0 → 0.2.0 (0.x MINOR)\n  beta: 1.0.0 → 2.0.0 (MAJOR)\n2 breaking change(s) found."
    );
    assert_eq!(
        format_text(&bumps, true),
        "Breaking changes detected:\n  alpha: 0.1.0 → 0.2.0 (0.x MINOR)\n  beta: 1.0.0 → 2.0.0 (MAJOR)\n2 breaking change(s) found.\n\nNon-breaking changes:\n  gamma: 1.0.0 → 1.1.0"
    );
}

#[test]
fn text_report_only_non_breaking() {
    let bumps = vec![bump("gamma", "1.0.0", "1.1.0", false)];
    assert_eq!(format_text(&bumps, false), "No breaking changes detected.");
    assert_eq!(format_text(&bumps, true), "Non-breaking changes:\n  gamma: 1.0.0 → 1.1.0");
}

#[test]
fn text_report_counts_past_nine() {
    let bumps: Vec<VersionBump> = (0..12).map(|i| bump(&format!("p{}", i), "1", "2", true)).collect();
    assert!(format_text(&bumps, false).ends_with("\n12 breaking change(s) found."));
}

#[test]
fn json_report_counts_breaking_bumps() {
    let bumps = vec![
        bump("a", "1.0", "2.0", true),
        bump("b", "1.0", "1.1", false),
        bump("c", "0.1", "0.2", true),
    ];
    let report = json_report(&bumps, false);
    assert_eq!(report.breaking_changes.len(), 2);
    assert_eq!(report.breaking_changes[1].package, "c");
    assert_eq!(report.breaking_changes[1].old_version, "0.1");
    assert_eq!(report.breaking_changes[1].new_version, "0.2");
    assert!(report.non_breaking_changes.is_none());
    let with_all = json_report(&bumps, true);
    let others = with_all.non_breaking_changes.unwrap();
    assert_eq!(others.len(), 1);
    assert_eq!(others[0].package, "b");
}

#[test]
fn exit_code_follows_breaking_bumps() {
    assert_eq!(exit_code(&[bump("a", "1", "1.1", false)]), 0);
    assert_eq!(exit_code(&[bump("a", "1", "1.1", false), bump("b", "1", "2", true)]), 1);
}
