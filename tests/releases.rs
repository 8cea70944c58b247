use breezy::releases::{select_draft_releases, select_latest_published_release, ReleaseInfo};

const MARKER: &str = "<!-- breezy:branch=main -->";

fn release(id: u64, draft: bool, body: Option<&str>, created: &str, published: Option<&str>, branch: &str) -> ReleaseInfo {
    ReleaseInfo {
        id,
        draft,
        body: body.map(|s| s.to_string()),
        created_at: created.to_string(),
        published_at: published.map(|s| s.to_string()),
        target_commitish: branch.to_string(),
    }
}

#[test]
fn newest_owned_draft_is_primary() {
    let releases = vec![
        release(1, true, Some(MARKER), "2024-01-01", None, "main"),
        release(2, true, Some(MARKER), "2024-02-01", None, "main"),
    ];
    let selection = select_draft_releases(&releases, MARKER);
    assert_eq!(selection.primary, Some(2));
    assert_eq!(selection.extras, vec![1]);
}

#[test]
fn drafts_of_other_branches_and_published_ones_are_ignored() {
    let releases = vec![
        release(1, true, Some("<!-- breezy:branch=dev -->"), "2024-05-01", None, "dev"),
        release(2, false, Some(MARKER), "2024-06-01", Some("2024-06-02"), "main"),
        release(3, true, None, "2024-07-01", None, "main"),
        release(4, true, Some("notes\n<!-- breezy:branch=main -->\nmore"), "2024-01-01", None, "main"),
        release(5, true, Some(MARKER), "2024-03-01", None, "main"),
        release(6, true, Some(MARKER), "2024-03-01", None, "main"),
    ];
    let selection = select_draft_releases(&releases, MARKER);
    assert_eq!(selection.primary, Some(5));
    assert_eq!(selection.extras, vec![6, 4]);
}

#[test]
fn no_owned_draft_means_create() {
    let releases = vec![release(1, false, Some(MARKER), "2024-01-01", None, "main")];
    let selection = select_draft_releases(&releases, MARKER);
    assert_eq!(selection.primary, None);
    assert!(selection.extras.is_empty());
    assert_eq!(select_draft_releases(&[], MARKER).primary, None);
}

#[test]
fn baseline_is_latest_published_on_branch() {
    let releases = vec![
        release(1, false, None, "2023-12-01", Some("2024-01-01"), "main"),
        release(2, false, None, "2023-12-02", Some("2024-03-01"), "main"),
        release(3, false, None, "2023-12-03", Some("2024-06-01"), "dev"),
    ];
    assert_eq!(select_latest_published_release(&releases, "main"), Some(1));
    assert_eq!(select_latest_published_release(&releases, "dev"), Some(2));
    assert_eq!(select_latest_published_release(&releases, "ma"), None);
}

#[test]
fn baseline_falls_back_to_creation_time_and_skips_drafts() {
    let releases = vec![
        release(1, false, None, "2024-05-01", None, "main"),
        release(2, false, None, "2024-01-01", Some("2024-04-01"), "main"),
        release(3, true, None, "2024-09-01", None, "main"),
    ];
    assert_eq!(select_latest_published_release(&releases, "main"), Some(0));
    assert_eq!(select_latest_published_release(&[], "main"), None);
}
