use changelog::extract::Change;
use changelog::forge::ForgeError;
use changelog::forge::build_updates;
use changelog::forge::normalize_versions;
use changelog::forge::parse_tag;
use changelog::parse::Section;

fn release(name: &str, timestamp: i64, sections: Vec<(&str, Vec<&str>)>) -> Change {
    Change {
        is_release: true,
        name: name.to_string(),
        hash: "feed".to_string(),
        timestamp,
        sections: sections
            .into_iter()
            .map(|(n, cs)| Section {
                name: n.to_string(),
                changes: cs.into_iter().map(|c| c.to_string()).collect(),
            })
            .collect(),
    }
}

#[test]
fn tag_parts_split_on_dashes() {
    let tp = parse_tag("v1.19.2-1.4.0").unwrap();
    assert_eq!(tp.ecosystem, "1.19.2");
    assert_eq!(tp.component, "1.4.0");
    assert!(!tp.has_suffix);
}

#[test]
fn tag_suffix_is_detected() {
    let tp = parse_tag("v1.19-1.4.0-beta").unwrap();
    assert_eq!(tp.ecosystem, "1.19");
    assert_eq!(tp.component, "1.4.0");
    assert!(tp.has_suffix);
}

#[test]
fn tag_without_component_is_malformed() {
    assert!(matches!(parse_tag("v1.19"), Err(ForgeError::MalformedTag)));
}

#[test]
fn versions_are_filtered_and_padded() {
    let catalog = vec![
        ("1.19".to_string(), "release".to_string()),
        ("1.19.1".to_string(), "release".to_string()),
        ("22w14a".to_string(), "snapshot".to_string()),
    ];
    let versions = normalize_versions(&catalog);
    assert_eq!(versions, vec!["1.19.0".to_string(), "1.19.1".to_string()]);
}

#[test]
fn newest_release_settles_latest_and_recommended() {
    // changes come sorted newest first
    let changes = vec![
        release("v1.19-2.0-beta", 300, vec![("added", vec!["beta thing"])]),
        release("v1.19-1.5", 200, vec![("fixed", vec!["old fix"])]),
    ];
    let versions = vec!["1.19.0".to_string(), "1.19.1".to_string()];
    let updates = build_updates(&changes, &versions).unwrap();

    // `.0` keys are collapsed back
    let latest: Vec<(String, String)> = updates.latest.clone();
    assert_eq!(
        latest,
        vec![
            ("1.19".to_string(), "2.0".to_string()),
            ("1.19.1".to_string(), "2.0".to_string()),
        ]
    );
    // the beta release never becomes recommended
    assert_eq!(
        updates.recommended,
        vec![
            ("1.19".to_string(), "1.5".to_string()),
            ("1.19.1".to_string(), "1.5".to_string()),
        ]
    );
    let entry = updates.entries.iter().find(|e| e.version == "1.19").unwrap();
    let texts: Vec<(String, String)> = entry.mods.clone();
    assert_eq!(
        texts,
        vec![
            ("2.0".to_string(), "### Added\n  - beta thing\n".to_string()),
            ("1.5".to_string(), "### Fixed\n  - old fix\n".to_string()),
        ]
    );
}

#[test]
fn non_release_changes_are_ignored() {
    let mut unreleased = release("main", 400, vec![("added", vec!["wip"])]);
    unreleased.is_release = false;
    let changes = vec![unreleased, release("v1.19-1.5", 200, vec![("fixed", vec!["x"])])];
    let versions = vec!["1.19.0".to_string()];
    let updates = build_updates(&changes, &versions).unwrap();
    assert_eq!(updates.latest, vec![("1.19".to_string(), "1.5".to_string())]);
}

#[test]
fn malformed_release_tag_aborts() {
    let changes = vec![release("oops", 100, vec![("a", vec!["b"])])];
    let versions = vec!["1.19.0".to_string()];
    assert!(build_updates(&changes, &versions).is_err());
}

#[test]
fn unmatched_versions_gain_nothing() {
    let changes = vec![release("v1.19-1.5", 200, vec![("fixed", vec!["x"])])];
    let versions = vec!["1.20.0".to_string()];
    let updates = build_updates(&changes, &versions).unwrap();
    assert!(updates.entries.is_empty());
    assert!(updates.latest.is_empty());
    assert!(updates.recommended.is_empty());
}
