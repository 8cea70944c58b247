use breezy::config::{ConfigError, RawCategory, RawConfig, ReleaseConfig};
use breezy::config::normalize_labels;
use serde_yaml::Value;

fn text(v: &Value, key: &str) -> Option<String> {
    v.get(key).and_then(|x| x.as_str()).map(|s| s.to_string())
}

fn list(v: &Value, key: &str) -> Option<Vec<String>> {
    v.get(key).and_then(|x| x.as_sequence()).map(|items| {
        items.iter().filter_map(|i| i.as_str()).map(|s| s.to_string()).collect()
    })
}

fn parse_config(yaml: &str) -> Result<ReleaseConfig, ConfigError> {
    let doc: Value = serde_yaml::from_str(yaml).unwrap();
    let categories = doc.get("categories").and_then(|c| c.as_sequence()).map(|items| {
        items
            .iter()
            .map(|c| RawCategory {
                title: text(c, "title"),
                h1: text(c, "h1"),
                h2: text(c, "h2"),
                h3: text(c, "h3"),
                labels: list(c, "labels"),
                label: text(c, "label"),
            })
            .collect()
    });
    ReleaseConfig::from_raw(RawConfig {
        language: text(&doc, "language"),
        tag_template: text(&doc, "tag-template"),
        name_template: text(&doc, "name-template"),
        categories,
        exclude_labels: list(&doc, "exclude-labels"),
        change_template: text(&doc, "change-template"),
        template: text(&doc, "template"),
    })
}

fn empty_raw() -> RawConfig {
    RawConfig {
        language: None,
        tag_template: None,
        name_template: None,
        categories: None,
        exclude_labels: None,
        change_template: None,
        template: None,
    }
}

fn category(title: Option<&str>, h1: Option<&str>, h2: Option<&str>, h3: Option<&str>) -> RawCategory {
    RawCategory {
        title: title.map(|s| s.to_string()),
        h1: h1.map(|s| s.to_string()),
        h2: h2.map(|s| s.to_string()),
        h3: h3.map(|s| s.to_string()),
        labels: None,
        label: Some("x".to_string()),
    }
}

#[test]
fn parses_title_as_h2() {
    let config = parse_config(
        r#"
categories:
  - title: Features
    labels:
      - feature
"#,
    )
    .unwrap();

    assert_eq!(config.categories[0].title, "Features");
    assert_eq!(config.categories[0].heading_level, 2);
}

#[test]
fn parses_explicit_heading_levels() {
    let config = parse_config(
        r#"
categories:
  - h1: Breaking Changes
    label: breaking
  - h2: Features
    label: feature
  - h3: Maintenance
    label: chore
"#,
    )
    .unwrap();

    assert_eq!(config.categories[0].heading_level, 1);
    assert_eq!(config.categories[0].title, "Breaking Changes");
    assert_eq!(config.categories[1].heading_level, 2);
    assert_eq!(config.categories[1].title, "Features");
    assert_eq!(config.categories[2].heading_level, 3);
    assert_eq!(config.categories[2].title, "Maintenance");
}

#[test]
fn rejects_multiple_heading_fields() {
    let result = parse_config(
        r#"
categories:
  - title: Features
    h2: Duplicate
    label: feature
"#,
    );

    assert!(result.is_err());
}

#[test]
fn rejects_missing_heading_field() {
    let result = parse_config(
        r#"
categories:
  - labels:
      - feature
"#,
    );

    assert!(result.is_err());
}

#[test]
fn heading_errors_name_their_kind() {
    let mut raw = empty_raw();
    raw.categories = Some(vec![category(None, None, None, None)]);
    assert_eq!(ReleaseConfig::from_raw(raw).unwrap_err(), ConfigError::MissingHeading);

    let mut raw = empty_raw();
    raw.categories = Some(vec![category(None, Some("A"), None, Some("B"))]);
    assert_eq!(ReleaseConfig::from_raw(raw).unwrap_err(), ConfigError::MultipleHeadings);
    assert_eq!(
        ConfigError::MultipleHeadings.message(),
        "Category must include only one of: title, h1, h2, h3."
    );
}

#[test]
fn first_bad_category_decides_the_error() {
    let mut raw = empty_raw();
    raw.categories = Some(vec![
        category(Some("Ok"), None, None, None),
        category(Some("A"), Some("B"), None, None),
        category(None, None, None, None),
    ]);
    assert_eq!(ReleaseConfig::from_raw(raw).unwrap_err(), ConfigError::MultipleHeadings);
}

#[test]
fn each_single_heading_field_gives_its_level() {
    let cases = [
        (category(Some("T"), None, None, None), 2u8),
        (category(None, Some("T"), None, None), 1u8),
        (category(None, None, Some("T"), None), 2u8),
        (category(None, None, None, Some("T")), 3u8),
    ];
    for (c, level) in cases {
        let mut raw = empty_raw();
        raw.categories = Some(vec![c]);
        let cfg = ReleaseConfig::from_raw(raw).unwrap();
        assert_eq!(cfg.categories[0].title, "T");
        assert_eq!(cfg.categories[0].heading_level, level);
    }
}

#[test]
fn labels_are_trimmed_lowered_and_merged() {
    let config = parse_config(
        r#"
language: " Rust "
tag-template: " v$VERSION "
categories:
  - title: Fixes
    labels:
      - " Bug "
      - ""
    label: HOTFIX
exclude-labels:
  - " Skip-Changelog"
  - "   "
"#,
    )
    .unwrap();
    assert_eq!(config.categories[0].labels, vec!["bug".to_string(), "hotfix".to_string()]);
    assert_eq!(config.exclude_labels, vec!["skip-changelog".to_string()]);
    assert_eq!(config.language.as_deref(), Some("rust"));
    assert_eq!(config.tag_template.as_deref(), Some("v$VERSION"));
    assert_eq!(config.name_template, None);
}

#[test]
fn change_template_defaults_when_absent_or_blank() {
    let cfg = ReleaseConfig::from_raw(empty_raw()).unwrap();
    assert_eq!(cfg.change_template, "$TITLE");
    assert!(cfg.categories.is_empty());

    let mut raw = empty_raw();
    raw.change_template = Some("   ".to_string());
    assert_eq!(ReleaseConfig::from_raw(raw).unwrap().change_template, "$TITLE");

    let mut raw = empty_raw();
    raw.change_template = Some("  - $TITLE  ".to_string());
    assert_eq!(ReleaseConfig::from_raw(raw).unwrap().change_template, "- $TITLE");
}

#[test]
fn normalize_labels_drops_empty_ones() {
    let labels = vec![" Feature ".to_string(), "".to_string(), "BUG".to_string(), "  ".to_string()];
    assert_eq!(normalize_labels(&labels), vec!["feature".to_string(), "bug".to_string()]);
}
