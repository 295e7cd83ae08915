//! The record model: status, links, parsing, serialization.

use std::collections::HashSet;

use git_adr::adr::{Adr, AdrFrontmatter, AdrLink, AdrStatus};

#[test]
fn test_status_display() {
    assert_eq!(AdrStatus::Proposed.to_text(), "proposed");
    assert_eq!(AdrStatus::Accepted.to_text(), "accepted");
    assert_eq!(AdrStatus::Deprecated.to_text(), "deprecated");
    assert_eq!(AdrStatus::Superseded.to_text(), "superseded");
    assert_eq!(AdrStatus::Rejected.to_text(), "rejected");
}

#[test]
fn test_status_parse() {
    assert_eq!("proposed".parse::<AdrStatus>().unwrap(), AdrStatus::Proposed);
    assert_eq!("ACCEPTED".parse::<AdrStatus>().unwrap(), AdrStatus::Accepted);
    assert_eq!("Deprecated".parse::<AdrStatus>().unwrap(), AdrStatus::Deprecated);
    assert_eq!("SUPERSEDED".parse::<AdrStatus>().unwrap(), AdrStatus::Superseded);
    assert_eq!("rejected".parse::<AdrStatus>().unwrap(), AdrStatus::Rejected);
}

#[test]
fn test_status_parse_invalid() {
    let result = "invalid".parse::<AdrStatus>();
    assert!(result.is_err());
}

#[test]
fn test_status_default() {
    let status = AdrStatus::default();
    assert_eq!(status, AdrStatus::Proposed);
}

#[test]
fn test_status_hash() {
    let mut set = HashSet::new();
    set.insert(AdrStatus::Proposed);
    set.insert(AdrStatus::Accepted);
    assert_eq!(set.len(), 2);
    set.insert(AdrStatus::Proposed);
    assert_eq!(set.len(), 2);
}

#[test]
fn test_adr_link() {
    let link = AdrLink { rel: "supersedes".to_string(), target: "ADR-0001".to_string() };
    assert_eq!(link.rel, "supersedes");
    assert_eq!(link.target, "ADR-0001");
}

#[test]
fn test_adr_new() {
    let adr = Adr::new("ADR-0001".to_string(), "Test Title".to_string());
    assert_eq!(adr.id, "ADR-0001");
    assert_eq!(adr.title(), "Test Title");
    assert_eq!(*adr.status(), AdrStatus::Proposed);
    assert!(adr.commit.is_empty());
    assert!(adr.body.is_empty());
}

#[test]
fn test_adr_from_markdown() {
    let content = "---\ntitle: Use Rust for CLI\nstatus: proposed\ntags:\n  - architecture\n  - rust\n---\n\n## Context\n\nWe need to decide on a language for the CLI.\n";
    let adr = Adr::from_markdown("ADR-0001".to_string(), "abc123".to_string(), content).unwrap();
    assert_eq!(adr.title(), "Use Rust for CLI");
    assert_eq!(*adr.status(), AdrStatus::Proposed);
    assert!(adr.has_tag("rust"));
    assert!(adr.has_tag("architecture"));
    assert!(!adr.has_tag("python"));
}

#[test]
fn test_adr_from_markdown_with_date() {
    let content = "---\ndate: '2025-12-15'\nformat: nygard\nid: 00000000-use-adrs\nstatus: accepted\ntags:\n- documentation\n- process\ntitle: Use Architecture Decision Records\n---\n\n# Use Architecture Decision Records\n\n## Status\n\naccepted\n";
    let adr = Adr::from_markdown("ADR-0000".to_string(), "abc123".to_string(), content)
        .expect("Failed to parse ADR");
    assert_eq!(adr.title(), "Use Architecture Decision Records");
    assert_eq!(*adr.status(), AdrStatus::Accepted);
    let d = adr.frontmatter.date.expect("date parsed");
    assert_eq!(d.year, 2025);
    assert_eq!(d.month, 12);
    assert_eq!(d.day, 15);
}

#[test]
fn test_adr_from_markdown_no_frontmatter() {
    let content = "No frontmatter here";
    let result = Adr::from_markdown("ADR-0001".to_string(), "abc123".to_string(), content);
    assert!(result.is_err());
}

#[test]
fn test_adr_from_markdown_unclosed_frontmatter() {
    let content = "---\ntitle: Unclosed\nstatus: proposed\nNo closing marker\n";
    let result = Adr::from_markdown("ADR-0001".to_string(), "abc123".to_string(), content);
    assert!(result.is_err());
}

#[test]
fn test_adr_to_markdown() {
    let mut adr = Adr::new("ADR-0001".to_string(), "Test Title".to_string());
    adr.body = "Body content here.".to_string();
    let markdown = adr.to_markdown().expect("Should serialize");
    assert!(markdown.contains("---"));
    assert!(markdown.contains("title: Test Title"));
    assert!(markdown.contains("Body content here."));
}

#[test]
fn test_adr_has_tag_case_insensitive() {
    let mut adr = Adr::new("ADR-0001".to_string(), "Test".to_string());
    adr.frontmatter.tags = vec!["Architecture".to_string()];
    assert!(adr.has_tag("architecture"));
    assert!(adr.has_tag("ARCHITECTURE"));
    assert!(adr.has_tag("Architecture"));
}

#[test]
fn test_adr_frontmatter_default() {
    let fm = AdrFrontmatter::default();
    assert!(fm.id.is_none());
    assert!(fm.title.is_empty());
    assert_eq!(fm.status, AdrStatus::Proposed);
    assert!(fm.tags.is_empty());
    assert!(fm.authors.is_empty());
    assert!(fm.deciders.is_empty());
    assert!(fm.links.is_empty());
}

#[test]
fn test_adr_from_markdown_invalid_yaml() {
    let content = "---\ntitle: [invalid yaml\nstatus: proposed\n---\n\nBody\n";
    let result = Adr::from_markdown("ADR-0001".to_string(), "abc123".to_string(), content);
    assert!(result.is_err());
}

#[test]
fn test_adr_frontmatter_with_all_fields() {
    let content = "---\nid: ADR-0001\ntitle: Test ADR\nstatus: accepted\ndate: 2025-12-15\ntags:\n  - test\n  - example\nauthors:\n  - Alice\ndeciders:\n  - Bob\nlinks:\n  - rel: supersedes\n    target: ADR-0000\nformat: nygard\nsupersedes: ADR-0000\nsuperseded_by: ADR-0002\ncustom_field: custom_value\n---\n\nBody content\n";
    let adr = Adr::from_markdown("ADR-0001".to_string(), "abc123".to_string(), content)
        .expect("Should parse");
    assert_eq!(adr.frontmatter.id, Some("ADR-0001".to_string()));
    assert_eq!(adr.frontmatter.authors, vec!["Alice"]);
    assert_eq!(adr.frontmatter.deciders, vec!["Bob"]);
    assert_eq!(adr.frontmatter.format, Some("nygard".to_string()));
    assert_eq!(adr.frontmatter.supersedes, Some("ADR-0000".to_string()));
    assert_eq!(adr.frontmatter.superseded_by, Some("ADR-0002".to_string()));
    assert_eq!(adr.frontmatter.links.len(), 1);
    assert_eq!(adr.frontmatter.links[0].rel, "supersedes");
    assert_eq!(adr.frontmatter.links[0].target, "ADR-0000");
    assert!(adr.frontmatter.custom.iter().any(|(k, v)| k == "custom_field" && v == "custom_value"));
}

// The round trip: a serialized record parses back field-equal.
#[test]
fn test_markdown_round_trip_rich_record() {
    let mut adr = Adr::new("ADR-0042".to_string(), "Use a queue".to_string());
    adr.commit = "deadbeef".to_string();
    adr.body = "## Context\n\nSome body with --- dashes inside.\n\n- a list".to_string();
    adr.frontmatter.tags = vec!["queue".to_string(), "infra".to_string()];
    adr.frontmatter.authors = vec!["Alice".to_string()];
    adr.frontmatter.deciders = vec!["Bob".to_string(), "Carol".to_string()];
    adr.frontmatter.links =
        vec![AdrLink { rel: "supersedes".to_string(), target: "ADR-0001".to_string() }];
    adr.frontmatter.format = Some("nygard".to_string());
    adr.frontmatter.supersedes = Some("ADR-0001".to_string());
    adr.frontmatter.superseded_by = None;
    adr.frontmatter.status = AdrStatus::Accepted;
    adr.frontmatter.custom = vec![("team".to_string(), "platform".to_string())];
    // The emitted form is date-only, so a time of day would be dropped.
    adr.frontmatter.date = git_adr::date::parse_date_str("2025-06-01");
    let text = adr.to_markdown().expect("serializes");
    let back = Adr::from_markdown(adr.id.clone(), adr.commit.clone(), &text).expect("parses back");
    assert_eq!(back.frontmatter.id, adr.frontmatter.id);
    assert_eq!(back.frontmatter.title, adr.frontmatter.title);
    assert_eq!(back.frontmatter.status, adr.frontmatter.status);
    assert_eq!(back.frontmatter.date, adr.frontmatter.date);
    assert_eq!(back.frontmatter.tags, adr.frontmatter.tags);
    assert_eq!(back.frontmatter.authors, adr.frontmatter.authors);
    assert_eq!(back.frontmatter.deciders, adr.frontmatter.deciders);
    assert_eq!(back.frontmatter.links, adr.frontmatter.links);
    assert_eq!(back.frontmatter.format, adr.frontmatter.format);
    assert_eq!(back.frontmatter.supersedes, adr.frontmatter.supersedes);
    assert_eq!(back.frontmatter.superseded_by, adr.frontmatter.superseded_by);
    assert_eq!(back.frontmatter.custom, adr.frontmatter.custom);
    assert_eq!(back.body, adr.body);
}

// Dates wider than a day parse from a timestamp and emit date-only.
#[test]
fn test_date_timestamp_parse() {
    let d = git_adr::date::parse_date_str("2025-12-15T10:30:00Z").expect("parses");
    assert_eq!((d.year, d.month, d.day, d.hour, d.minute, d.second), (2025, 12, 15, 10, 30, 0));
    assert_eq!(git_adr::date::date_to_string(&d), "2025-12-15");
}

#[test]
fn test_date_offset_normalized() {
    // Half past midnight east of the date line rolls back a day.
    let d = git_adr::date::parse_date_str("2026-01-01T00:30:00+02:00").expect("parses");
    assert_eq!((d.year, d.month, d.day, d.hour, d.minute), (2025, 12, 31, 22, 30));
}

#[test]
fn test_date_fractional_seconds() {
    let d = git_adr::date::parse_date_str("2025-12-15T10:30:00.123456Z").expect("parses");
    assert_eq!((d.year, d.month, d.day, d.hour, d.minute, d.second), (2025, 12, 15, 10, 30, 0));
    let e = git_adr::date::parse_date_str("2025-12-15T10:30:00.5+01:00").expect("parses");
    assert_eq!((e.hour, e.minute), (9, 30));
    assert!(git_adr::date::parse_date_str("2025-12-15T10:30:00.Z").is_none());
}

#[test]
fn test_parse_error_messages_name_the_condition() {
    let no_open = Adr::from_markdown("a".into(), "c".into(), "No frontmatter here").unwrap_err();
    assert!(no_open.message().contains("must start with a frontmatter block"));
    let no_close =
        Adr::from_markdown("a".into(), "c".into(), "---\ntitle: Unclosed\n").unwrap_err();
    assert!(no_close.message().contains("must be closed"));
}

#[test]
fn test_invalid_status_lists_valid_values() {
    match "bogus".parse::<AdrStatus>() {
        Err(git_adr::Error::InvalidStatus { status, valid }) => {
            assert_eq!(status, "bogus");
            assert_eq!(valid, vec!["proposed", "accepted", "deprecated", "superseded", "rejected"]);
        }
        _ => panic!("expected the typed status error"),
    }
}

#[test]
fn test_date_invalid_rejected() {
    assert!(git_adr::date::parse_date_str("invalid-date-format").is_none());
    assert!(git_adr::date::parse_date_str("2025-13-01").is_none());
    assert!(git_adr::date::parse_date_str("2025-02-30").is_none());
}
