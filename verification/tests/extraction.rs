use changelog::extract::Change;
use changelog::extract::ExtractError;
use changelog::extract::ExtractOutput;
use changelog::extract::RefInput;
use changelog::extract::RootSpec;
use changelog::extract::extract_changelog;
use changelog::graph::Commit;

fn commit(hash: &str, parents: Vec<usize>, time: i64, body: &str) -> Commit {
    Commit { hash: hash.to_string(), parents, time, body: body.to_string() }
}

fn reference(name: &str, target: usize, tag_time: Option<i64>) -> RefInput {
    RefInput { name: name.to_string(), target, tag_time }
}

/// Root R, tag v1.0 two commits after R, trunk one commit after v1.0.
fn sample() -> (Vec<Commit>, Vec<RefInput>) {
    let commits = vec![
        commit("aaa0", vec![], 100, ""),
        commit("bbb1", vec![0], 200, "Fixed:\n  - crash on load\n"),
        commit("ccc2", vec![1], 300, "Added:\n  - new feature\n"),
    ];
    let refs = vec![
        reference("refs/heads/main", 2, None),
        reference("refs/tags/v1.0", 1, None),
    ];
    (commits, refs)
}

fn section_pairs(ch: &Change) -> Vec<(String, Vec<String>)> {
    ch.sections.iter().map(|s| (s.name.clone(), s.changes.clone())).collect()
}

#[test]
fn two_records_unreleased_first() {
    let (commits, refs) = sample();
    let out = extract_changelog(&commits, &refs, RootSpec::NoRoot).unwrap();
    assert_eq!(out.changes.len(), 2);
    let first = &out.changes[0];
    assert!(!first.is_release);
    assert_eq!(first.name, "main");
    assert_eq!(first.hash, "ccc2");
    assert_eq!(first.timestamp, 300);
    assert_eq!(section_pairs(first), vec![("added".to_string(), vec!["new feature".to_string()])]);
    let second = &out.changes[1];
    assert!(second.is_release);
    assert_eq!(second.name, "v1.0");
    assert_eq!(second.hash, "bbb1");
    assert_eq!(second.timestamp, 200);
    assert_eq!(
        section_pairs(second),
        vec![("fixed".to_string(), vec!["crash on load".to_string()])]
    );
    assert!(out.skipped.is_empty());
}

#[test]
fn annotated_tag_time_wins_over_commit_time() {
    let (commits, mut refs) = sample();
    refs[1].tag_time = Some(250);
    let out = extract_changelog(&commits, &refs, RootSpec::NoRoot).unwrap();
    assert_eq!(out.changes[1].timestamp, 250);
}

#[test]
fn maintenance_tip_on_tagged_commit_is_abandoned() {
    let (commits, mut refs) = sample();
    refs.push(reference("refs/heads/backport/1.0", 1, None));
    let out = extract_changelog(&commits, &refs, RootSpec::NoRoot).unwrap();
    assert_eq!(out.changes.len(), 2);
    assert!(out.changes.iter().all(|c| c.name != "backport/1.0"));
    assert_eq!(out.skipped, vec!["backport/1.0".to_string()]);
}

#[test]
fn trunk_tip_already_released_is_absent() {
    let commits = vec![
        commit("aaa0", vec![], 100, ""),
        commit("bbb1", vec![0], 200, "Fixed:\n  - crash on load\n"),
    ];
    let refs = vec![
        reference("refs/heads/main", 1, None),
        reference("refs/tags/v1.0", 1, None),
    ];
    let out = extract_changelog(&commits, &refs, RootSpec::NoRoot).unwrap();
    assert_eq!(out.changes.len(), 1);
    assert!(out.changes[0].is_release);
    assert_eq!(out.changes[0].name, "v1.0");
    assert_eq!(out.skipped, vec!["main".to_string()]);
}

#[test]
fn orphan_bullet_aborts_whole_extraction() {
    let commits = vec![commit("aaa0", vec![], 100, "  - orphan bullet")];
    let refs = vec![reference("refs/heads/main", 0, None)];
    let err = extract_changelog(&commits, &refs, RootSpec::NoRoot).unwrap_err();
    match err {
        ExtractError::MalformedTrailer(t) => assert_eq!(t, "orphan bullet"),
        other => panic!("expected a malformed trailer, got {:?}", other),
    }
}

#[test]
fn unresolved_root_is_fatal() {
    let (commits, refs) = sample();
    let err = extract_changelog(&commits, &refs, RootSpec::Unresolved).unwrap_err();
    assert!(matches!(err, ExtractError::InvalidRoot));
}

#[test]
fn out_of_range_root_is_fatal() {
    let (commits, refs) = sample();
    let err = extract_changelog(&commits, &refs, RootSpec::At(9)).unwrap_err();
    assert!(matches!(err, ExtractError::InvalidRoot));
}

#[test]
fn root_hides_its_ancestry() {
    let (commits, refs) = sample();
    // root at the tagged commit: the tag itself is entirely behind the
    // root and is skipped silently; trunk keeps only its own commit
    let out = extract_changelog(&commits, &refs, RootSpec::At(1)).unwrap();
    assert_eq!(out.changes.len(), 1);
    assert_eq!(out.changes[0].name, "main");
    assert!(out.skipped.is_empty());
}

#[test]
fn first_parent_line_skips_merged_branch_bodies() {
    // c3 is a merge: first parent c1 (mainline), second parent c2 (feature)
    let commits = vec![
        commit("aaa0", vec![], 100, ""),
        commit("bbb1", vec![0], 200, "Fixed:\n  - mainline fix\n"),
        commit("ccc2", vec![0], 250, "Added:\n  - feature branch note\n"),
        commit("ddd3", vec![1, 2], 300, "Added:\n  - merge note\n"),
    ];
    let refs = vec![reference("refs/heads/main", 3, None)];
    let out = extract_changelog(&commits, &refs, RootSpec::NoRoot).unwrap();
    assert_eq!(out.changes.len(), 1);
    let pairs = section_pairs(&out.changes[0]);
    assert_eq!(
        pairs,
        vec![
            ("added".to_string(), vec!["merge note".to_string()]),
            ("fixed".to_string(), vec!["mainline fix".to_string()]),
        ]
    );
}

#[test]
fn prose_only_walk_is_skipped_with_diagnostic() {
    let commits = vec![commit("aaa0", vec![], 100, "just prose\n")];
    let refs = vec![reference("refs/heads/main", 0, None)];
    let out = extract_changelog(&commits, &refs, RootSpec::NoRoot).unwrap();
    assert!(out.changes.is_empty());
    assert_eq!(out.skipped, vec!["main".to_string()]);
}

#[test]
fn output_is_sorted_by_descending_timestamp() {
    let commits = vec![
        commit("a", vec![], 50, "A:\n  - a\n"),
        commit("b", vec![], 300, "B:\n  - b\n"),
        commit("c", vec![], 200, "C:\n  - c\n"),
    ];
    let refs = vec![
        reference("refs/tags/v0.1", 0, None),
        reference("refs/tags/v0.2", 1, None),
        reference("refs/tags/v0.3", 2, None),
    ];
    let out = extract_changelog(&commits, &refs, RootSpec::NoRoot).unwrap();
    let stamps: Vec<i64> = out.changes.iter().map(|c| c.timestamp).collect();
    assert_eq!(stamps, vec![300, 200, 50]);
    for w in out.changes.windows(2) {
        assert!(w[0].timestamp >= w[1].timestamp);
    }
}

#[test]
fn equal_timestamps_keep_encounter_order() {
    let commits = vec![
        commit("a", vec![], 100, "A:\n  - a\n"),
        commit("b", vec![], 100, "B:\n  - b\n"),
    ];
    let refs = vec![
        reference("refs/tags/v1", 0, None),
        reference("refs/tags/v2", 1, None),
    ];
    let out = extract_changelog(&commits, &refs, RootSpec::NoRoot).unwrap();
    assert_eq!(out.changes[0].name, "v1");
    assert_eq!(out.changes[1].name, "v2");
}

fn snapshot_of(out: &ExtractOutput) -> Vec<(bool, String, String, i64, Vec<(String, Vec<String>)>)> {
    out.changes
        .iter()
        .map(|c| (c.is_release, c.name.clone(), c.hash.clone(), c.timestamp, section_pairs(c)))
        .collect()
}

#[test]
fn extraction_twice_is_identical() {
    let (commits, refs) = sample();
    let first = extract_changelog(&commits, &refs, RootSpec::NoRoot).unwrap();
    let second = extract_changelog(&commits, &refs, RootSpec::NoRoot).unwrap();
    assert_eq!(snapshot_of(&first), snapshot_of(&second));
    assert_eq!(first.skipped, second.skipped);
}

#[test]
fn empty_root_argument_counts_as_absent() {
    let args = changelog::extract::Args { root_commit: Some(String::new()) };
    assert!(args.effective_root().is_none());
    let args = changelog::extract::Args { root_commit: Some("HEAD~2".to_string()) };
    assert_eq!(args.effective_root(), Some(&"HEAD~2".to_string()));
    let args = changelog::extract::Args { root_commit: None };
    assert!(args.effective_root().is_none());
}
