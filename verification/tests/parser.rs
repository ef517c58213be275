use changelog::parse::ParseState;
use changelog::parse::parse_commit_body;

fn names(st: &ParseState) -> Vec<String> {
    st.sections.iter().map(|s| s.name.clone()).collect()
}

fn items(st: &ParseState, name: &str) -> Vec<String> {
    st.sections
        .iter()
        .find(|s| s.name == name)
        .map(|s| s.changes.clone())
        .unwrap_or_default()
}

#[test]
fn header_opens_lowercased_category() {
    let mut st = ParseState::new();
    let r = parse_commit_body(&mut st, "Added:\nsome prose\n  - new feature\n");
    assert!(r.is_ok());
    assert_eq!(names(&st), vec!["added".to_string()]);
    assert_eq!(items(&st, "added"), vec!["new feature".to_string()]);
}

#[test]
fn bullet_attaches_to_nearest_preceding_header() {
    let mut st = ParseState::new();
    let r = parse_commit_body(&mut st, "Fixed:\n  - one\nAdded:\n  - two\n  - three\n");
    assert!(r.is_ok());
    assert_eq!(items(&st, "fixed"), vec!["one".to_string()]);
    assert_eq!(items(&st, "added"), vec!["two".to_string(), "three".to_string()]);
}

#[test]
fn section_order_is_lexicographic_not_input_order() {
    let mut st = ParseState::new();
    let r = parse_commit_body(&mut st, "Zeta:\n  - z\nAlpha:\n  - a\n");
    assert!(r.is_ok());
    assert_eq!(names(&st), vec!["alpha".to_string(), "zeta".to_string()]);
}

#[test]
fn reopened_category_appends_in_order() {
    let mut st = ParseState::new();
    let r = parse_commit_body(&mut st, "A:\n  - one\nB:\n  - b\nA:\n  - two\n");
    assert!(r.is_ok());
    assert_eq!(items(&st, "a"), vec!["one".to_string(), "two".to_string()]);
    assert_eq!(items(&st, "b"), vec!["b".to_string()]);
}

#[test]
fn category_carries_across_commit_bodies() {
    let mut st = ParseState::new();
    assert!(parse_commit_body(&mut st, "Fixed:\n").is_ok());
    assert!(parse_commit_body(&mut st, "  - from the next commit\n").is_ok());
    assert_eq!(items(&st, "fixed"), vec!["from the next commit".to_string()]);
}

#[test]
fn orphan_bullet_is_a_parse_error() {
    let mut st = ParseState::new();
    let r = parse_commit_body(&mut st, "  - orphan bullet");
    assert_eq!(r.unwrap_err(), "orphan bullet".to_string());
}

#[test]
fn ordinary_prose_is_ignored() {
    let mut st = ParseState::new();
    let r = parse_commit_body(&mut st, "just a subject line\n\nand a paragraph\n");
    assert!(r.is_ok());
    assert!(st.sections.is_empty());
}

#[test]
fn header_line_wins_over_bullet_shape() {
    // a line that both starts like a bullet and ends in a colon opens a
    // category named after the whole prefix
    let mut st = ParseState::new();
    let r = parse_commit_body(&mut st, "  - odd:\n  - kept\n");
    assert!(r.is_ok());
    assert_eq!(names(&st), vec!["  - odd".to_string()]);
    assert_eq!(items(&st, "  - odd"), vec!["kept".to_string()]);
}
