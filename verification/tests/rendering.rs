use changelog::extract::Change;
use changelog::notes::Changeset;
use changelog::parse::Section;
use changelog::render::Args;
use changelog::render::format_header;
use changelog::render::write_full_section;
use changelog::render::write_section;

fn section(name: &str, changes: Vec<&str>) -> Section {
    Section {
        name: name.to_string(),
        changes: changes.into_iter().map(|c| c.to_string()).collect(),
    }
}

fn change(sections: Vec<Section>) -> Change {
    Change {
        is_release: true,
        name: "v1.0".to_string(),
        hash: "cafe1234".to_string(),
        timestamp: 0,
        sections,
    }
}

#[test]
fn sections_render_as_headings_and_bullets() {
    let ch = change(vec![
        section("added", vec!["new feature"]),
        section("fixed", vec!["crash on load", "another"]),
    ]);
    let mut out = String::new();
    write_section(&mut out, &ch, "");
    assert_eq!(
        out,
        "### Added\n  - new feature\n### Fixed\n  - crash on load\n  - another\n"
    );
}

#[test]
fn issue_numbers_become_links() {
    let ch = change(vec![section("fixed", vec!["fix #12 and #345"])]);
    let mut out = String::new();
    write_section(&mut out, &ch, "https://example.test/i/{number}");
    assert_eq!(
        out,
        "### Fixed\n  - fix https://example.test/i/12 and https://example.test/i/345\n"
    );
}

#[test]
fn empty_issue_format_leaves_numbers_alone() {
    let ch = change(vec![section("fixed", vec!["fix #12"])]);
    let mut out = String::new();
    write_section(&mut out, &ch, "");
    assert_eq!(out, "### Fixed\n  - fix #12\n");
}

#[test]
fn header_substitutes_name_hash_and_timestamp() {
    let ch = change(vec![section("fixed", vec!["x"])]);
    let header = format_header("{name} ({hash}) on {timestamp}", "%Y-%m-%d", &ch).unwrap();
    assert_eq!(header, "v1.0 (cafe1234) on 1970-01-01");
}

fn args(tag_format: &str, unreleased: &str, issue: &str) -> Args {
    Args {
        changelog: "-".to_string(),
        tag_format: tag_format.to_string(),
        date_format: "%Y-%m-%d".to_string(),
        issue_format: issue.to_string(),
        unreleased_header: unreleased.to_string(),
        only_last: false,
        template: None,
    }
}

#[test]
fn full_section_renders_header_body_and_blank_line() {
    let ch = change(vec![section("fixed", vec!["crash"])]);
    let mut out = String::new();
    write_full_section(&mut out, &args("{name} - {timestamp}", "unreleased", ""), &ch).unwrap();
    assert_eq!(out, "## v1.0 - 1970-01-01\n### Fixed\n  - crash\n\n");
}

#[test]
fn record_without_sections_renders_nothing() {
    let ch = change(vec![]);
    let mut out = String::new();
    write_full_section(&mut out, &args("{name}", "unreleased", ""), &ch).unwrap();
    assert_eq!(out, "");
}

#[test]
fn unreleased_record_uses_the_other_header() {
    let mut ch = change(vec![section("added", vec!["x"])]);
    ch.is_release = false;
    let mut out = String::new();
    write_full_section(&mut out, &args("{name}", "Unreleased changes", ""), &ch).unwrap();
    assert_eq!(out, "## Unreleased changes\n### Added\n  - x\n\n");
}

#[test]
fn notes_header_knows_tag_and_short_hash() {
    let cs = Changeset {
        hash: "0123456789abcdef".to_string(),
        timestamp: 86400,
        sections: vec![section("fixed", vec!["y"])],
    };
    let header = changelog::notes::format_header(
        "{tag} {short_hash} {timestamp}",
        "%Y-%m-%d",
        &cs,
        Some("v2.0"),
    )
    .unwrap();
    assert_eq!(header, "v2.0 0123456 1970-01-02");
}

#[test]
fn notes_full_section_renders_without_issue_rewrite() {
    let cs = Changeset {
        hash: "0123456789abcdef".to_string(),
        timestamp: 0,
        sections: vec![section("fixed", vec!["see #1"])],
    };
    let mut out = String::new();
    changelog::notes::write_full_section(&mut out, "{tag}", "%Y", &cs, Some("v2.0")).unwrap();
    assert_eq!(out, "## v2.0\n### Fixed\n  - see #1\n\n");
}

#[test]
fn unformattable_timestamp_is_an_error() {
    // far outside chrono's calendar range
    let mut ch = change(vec![section("fixed", vec!["x"])]);
    ch.timestamp = i64::MAX;
    assert!(matches!(
        format_header("{timestamp}", "%Y", &ch),
        Err(changelog::render::RenderError::InvalidTimestamp)
    ));
    let mut out = String::from("kept");
    assert!(write_full_section(&mut out, &args("{timestamp}", "u", ""), &ch).is_err());
    assert_eq!(out, "kept");
}

#[test]
fn notes_unformattable_timestamp_is_an_error() {
    let cs = Changeset {
        hash: "abc".to_string(),
        timestamp: i64::MAX,
        sections: vec![section("fixed", vec!["x"])],
    };
    assert!(changelog::notes::format_header("{timestamp}", "%Y", &cs, None).is_err());
    let mut out = String::new();
    assert!(changelog::notes::write_full_section(&mut out, "{timestamp}", "%Y", &cs, None).is_err());
    assert_eq!(out, "");
}
