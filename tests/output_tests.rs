use pdrift::compare::VersionBump;
use pdrift::output::format_text;

// Tests for format_text

#[test]
fn test_formats_breaking_change() {
    let bumps = vec![VersionBump {
        package_name: "pkg".to_string(),
        old_version: "1.0.0".to_string(),
        new_version: "2.0.0".to_string(),
        is_breaking: true,
    }];

    let result = format_text(&bumps, false);

    assert!(result.contains("pkg"));
    assert!(result.contains("1.0.0"));
    assert!(result.contains("2.0.0"));
}

#[test]
fn test_formats_multiple_breaking_changes() {
    let bumps = vec![
        VersionBump {
            package_name: "pkg1".to_string(),
            old_version: "1.0.0".to_string(),
            new_version: "2.0.0".to_string(),
            is_breaking: true,
        },
        VersionBump {
            package_name: "pkg2".to_string(),
            old_version: "0.5.0".to_string(),
            new_version: "0.6.0".to_string(),
            is_breaking: true,
        },
    ];

    let result = format_text(&bumps, false);

    assert!(result.contains("pkg1"));
    assert!(result.contains("pkg2"));
    assert!(result.contains("2 breaking"));
}

#[test]
fn test_shows_count() {
    let bumps = vec![
        VersionBump {
            package_name: "pkg1".to_string(),
            old_version: "1.0.0".to_string(),
            new_version: "2.0.0".to_string(),
            is_breaking: true,
        },
        VersionBump {
            package_name: "pkg2".to_string(),
            old_version: "2.0.0".to_string(),
            new_version: "3.0.0".to_string(),
            is_breaking: true,
        },
    ];

    let result = format_text(&bumps, false);

    assert!(result.contains("2 breaking"));
}

#[test]
fn test_empty_when_no_breaking_changes() {
    let bumps: Vec<VersionBump> = vec![];

    let result = format_text(&bumps, false);

    assert!(result.to_lowercase().contains("no breaking") || result.trim().is_empty());
}
