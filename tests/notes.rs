use breezy::config::{ReleaseCategory, ReleaseConfig};
use breezy::notes::{build_release_notes, release_marker, sort_by_merge_date, PullRequestInfo};

fn pr(number: u64, title: &str, merged_at: Option<&str>, labels: &[&str]) -> PullRequestInfo {
    PullRequestInfo {
        number,
        title: title.to_string(),
        merged_at: merged_at.map(|s| s.to_string()),
        labels: labels.iter().map(|s| s.to_string()).collect(),
    }
}

fn config(categories: Vec<ReleaseCategory>, exclude: &[&str], template: &str) -> ReleaseConfig {
    ReleaseConfig {
        language: None,
        tag_template: None,
        name_template: None,
        categories,
        exclude_labels: exclude.iter().map(|s| s.to_string()).collect(),
        change_template: template.to_string(),
        template: None,
    }
}

fn cat(title: &str, level: u8, labels: &[&str]) -> ReleaseCategory {
    ReleaseCategory {
        title: title.to_string(),
        heading_level: level,
        labels: labels.iter().map(|s| s.to_string()).collect(),
    }
}

const MARKER: &str = "<!-- breezy:branch=main -->";

#[test]
fn marker_names_the_branch() {
    assert_eq!(release_marker("main"), MARKER);
    assert_eq!(release_marker("release/1.x"), "<!-- breezy:branch=release/1.x -->");
}

#[test]
fn end_to_end_categorized_body() {
    let cfg = config(vec![cat("Features", 2, &["feature"])], &[], "$TITLE");
    let prs = vec![pr(1, "Add X", Some("t1"), &["feature"]), pr(2, "Fix Y", Some("t2"), &[])];
    let body = build_release_notes(MARKER, &Some(cfg), &prs);
    assert_eq!(body, "<!-- breezy:branch=main -->\n\n## Features\nAdd X\n\nFix Y");
}

#[test]
fn no_pull_requests_gives_marker_alone() {
    assert_eq!(build_release_notes(MARKER, &None, &[]), MARKER);
    let cfg = config(vec![cat("Features", 2, &["feature"])], &["skip"], "- $TITLE");
    assert_eq!(build_release_notes(MARKER, &Some(cfg), &[]), MARKER);
    let cfg = config(vec![], &[], "- $TITLE");
    assert_eq!(build_release_notes(MARKER, &Some(cfg), &[]), MARKER);
}

#[test]
fn uncategorized_lists_titles_oldest_first_once() {
    let prs = vec![
        pr(3, "Third", Some("2024-03-01T00:00:00Z"), &[]),
        pr(1, "First", Some("2024-01-01T00:00:00Z"), &[]),
        pr(2, "Second", Some("2024-02-01T00:00:00Z"), &[]),
        pr(1, "First again", Some("2024-04-01T00:00:00Z"), &[]),
    ];
    let body = build_release_notes(MARKER, &None, &prs);
    assert_eq!(body, format!("{MARKER}\n\nFirst\nSecond\nThird"));
}

#[test]
fn repeated_list_gives_the_same_body() {
    let prs = vec![
        pr(7, "Seven", Some("2024-01-02"), &["feature"]),
        pr(5, "Five", Some("2024-01-01"), &[]),
    ];
    let mut twice = prs.clone();
    twice.extend(prs.clone());
    let cfg = config(vec![cat("Features", 3, &["feature"])], &[], "* $TITLE");
    assert_eq!(
        build_release_notes(MARKER, &Some(cfg.clone()), &prs),
        build_release_notes(MARKER, &Some(cfg), &twice)
    );
    assert_eq!(build_release_notes(MARKER, &None, &prs), build_release_notes(MARKER, &None, &twice));
}

#[test]
fn missing_merge_time_sorts_first_and_ties_keep_input_order() {
    let prs = vec![
        pr(1, "B", Some("2024-01-01"), &[]),
        pr(2, "A", None, &[]),
        pr(3, "C", Some("2024-01-01"), &[]),
    ];
    assert_eq!(sort_by_merge_date(&prs), vec![1, 0, 2]);
    assert_eq!(build_release_notes(MARKER, &None, &prs), format!("{MARKER}\n\nA\nB\nC"));
}

#[test]
fn excluded_label_wins_over_category() {
    let cfg = config(vec![cat("Features", 2, &["feature"])], &["skip-changelog"], "$TITLE");
    let prs = vec![
        pr(1, "Hidden", Some("t1"), &["feature", "Skip-Changelog"]),
        pr(2, "Shown", Some("t2"), &["feature"]),
    ];
    assert_eq!(build_release_notes(MARKER, &Some(cfg.clone()), &prs), format!("{MARKER}\n\n## Features\nShown"));
    let only_hidden = vec![pr(1, "Hidden", Some("t1"), &["feature", "skip-changelog"])];
    assert_eq!(build_release_notes(MARKER, &Some(cfg), &only_hidden), MARKER);
}

#[test]
fn first_matching_category_wins_and_order_is_declared_order() {
    let cfg = config(
        vec![cat("Breaking", 1, &["breaking"]), cat("Features", 2, &["feature"]), cat("Chores", 3, &["chore"])],
        &[],
        "- $TITLE (#$TITLE)",
    );
    let prs = vec![
        pr(1, "Both", Some("2024-01-03"), &["FEATURE", "breaking"]),
        pr(2, "Feat", Some("2024-01-01"), &["feature"]),
        pr(3, "Other", Some("2024-01-02"), &["docs"]),
    ];
    let body = build_release_notes(MARKER, &Some(cfg), &prs);
    assert_eq!(
        body,
        format!("{MARKER}\n\n# Breaking\n- Both (#Both)\n\n## Features\n- Feat (#Feat)\n\n- Other (#Other)")
    );
}

#[test]
fn change_template_applies_without_categories() {
    let cfg = config(vec![], &["feature"], "* $TITLE");
    let prs = vec![pr(4, "Docs", Some("t"), &["feature"])];
    assert_eq!(build_release_notes(MARKER, &Some(cfg), &prs), format!("{MARKER}\n\n* Docs"));
}
