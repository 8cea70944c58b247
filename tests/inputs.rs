use breezy::inputs::{alternate_input_key, input_key, parse_repository, required_input};

#[test]
fn input_keys_are_upper_case_with_underscores() {
    assert_eq!(input_key("branch"), "INPUT_BRANCH");
    assert_eq!(input_key("tag prefix"), "INPUT_TAG_PREFIX");
    assert_eq!(input_key("github-token"), "INPUT_GITHUB-TOKEN");
}

#[test]
fn alternate_key_replaces_dashes() {
    assert_eq!(alternate_input_key("INPUT_GITHUB-TOKEN").as_deref(), Some("INPUT_GITHUB_TOKEN"));
    assert_eq!(alternate_input_key("INPUT_BRANCH"), None);
}

#[test]
fn required_input_is_trimmed_and_checked() {
    assert_eq!(required_input("branch", Some("  main ".to_string())).unwrap(), "main");
    let err = required_input("branch", Some("   ".to_string())).unwrap_err();
    assert_eq!(err.name, "branch");
    assert_eq!(err.message(), "Missing required input: branch");
    assert!(required_input("language", None).is_err());
}

#[test]
fn repository_splits_at_first_slash() {
    assert_eq!(parse_repository("octo/repo"), Some(("octo".to_string(), "repo".to_string())));
    assert_eq!(parse_repository("octo/repo/x"), Some(("octo".to_string(), "repo/x".to_string())));
    assert_eq!(parse_repository("octo"), None);
    assert_eq!(parse_repository("/repo"), None);
    assert_eq!(parse_repository("octo/"), None);
}
