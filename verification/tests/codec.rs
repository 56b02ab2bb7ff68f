use mems::mem::{Mem, ParseError};
use mems::time::{parse_ts, Timestamp};

#[test]
fn test_parse_basic() {
    let content = r#"---
title: Test Document
created-at: 2025-01-19T12:00:00Z
updated-at: 2025-01-19T12:00:00Z
---
Hello, world!"#;

    let mem = Mem::parse("test".to_string(), content).unwrap();
    assert_eq!(mem.title, "Test Document");
    assert_eq!(mem.content, "Hello, world!");
    assert!(mem.tags.is_empty());
}

#[test]
fn test_parse_with_tags() {
    let content = r#"---
title: Tagged Document
created-at: 2025-01-19T12:00:00Z
updated-at: 2025-01-19T12:00:00Z
tags:
  - rust
  - cli
---
Content with tags."#;

    let mem = Mem::parse("test".to_string(), content).unwrap();
    assert_eq!(mem.title, "Tagged Document");
    assert_eq!(mem.tags, vec!["rust", "cli"]);
    assert_eq!(mem.content, "Content with tags.");
}

#[test]
fn test_parse_multiline_content() {
    let content = r#"---
title: Multiline
created-at: 2025-01-19T12:00:00Z
updated-at: 2025-01-19T12:00:00Z
---
First paragraph.

Second paragraph.

## Heading

More content."#;

    let mem = Mem::parse("test".to_string(), content).unwrap();
    assert!(mem.content.contains("First paragraph."));
    assert!(mem.content.contains("## Heading"));
}

#[test]
fn test_parse_missing_frontmatter() {
    let content = "Just some text without frontmatter.";
    let result = Mem::parse("test".to_string(), content);
    assert!(result.is_err());
}

#[test]
fn test_parse_unclosed_frontmatter() {
    let content = "---\ntitle: Test\nNo closing delimiter";
    let result = Mem::parse("test".to_string(), content);
    assert!(result.is_err());
}

#[test]
fn test_serialize_roundtrip() {
    let original = Mem::new(
        "test/doc".to_string(),
        "Roundtrip Test".to_string(),
        "Test content here.".to_string(),
    )
    .with_tags(vec!["tag1".to_string(), "tag2".to_string()]);

    let serialized = original.serialize();
    let parsed = Mem::parse("test/doc".to_string(), &serialized).unwrap();

    assert_eq!(parsed.title, original.title);
    assert_eq!(parsed.tags, original.tags);
    assert_eq!(parsed.content, original.content);
    // Timestamps may have slight precision differences, so check they're close
    assert_eq!(
        parsed.created_at.epoch_seconds(),
        original.created_at.epoch_seconds()
    );
}

#[test]
fn test_new_sets_timestamps() {
    let mem = Mem::new(
        "test".to_string(),
        "Title".to_string(),
        "Content".to_string(),
    );

    // Timestamps should be recent (within last second)
    let now = chrono::Utc::now().timestamp();
    assert!(now - mem.created_at.epoch_seconds() < 1);
    assert!(now - mem.updated_at.epoch_seconds() < 1);
}

#[test]
fn test_parse_error_kinds() {
    assert_eq!(
        Mem::parse("p".to_string(), "no marker").unwrap_err(),
        ParseError::MalformedHeader
    );
    assert_eq!(
        Mem::parse("p".to_string(), "---\ntitle: x\nnever closed").unwrap_err(),
        ParseError::UnterminatedHeader
    );
    let bad_ts = "---\ntitle: x\ncreated-at: not-a-time\nupdated-at: 2025-01-19T12:00:00Z\n---\nbody";
    assert_eq!(
        Mem::parse("p".to_string(), bad_ts).unwrap_err(),
        ParseError::InvalidMetadata
    );
    let missing_keys = "---\nname: x\n---\nbody";
    assert_eq!(
        Mem::parse("p".to_string(), missing_keys).unwrap_err(),
        ParseError::InvalidMetadata
    );
}

#[test]
fn test_roundtrip_empty_body() {
    let m = Mem::new("a".to_string(), "T".to_string(), "".to_string());
    let parsed = Mem::parse("a".to_string(), &m.serialize()).unwrap();
    assert_eq!(parsed.content, "");
    assert_eq!(parsed.title, "T");
}

#[test]
fn test_roundtrip_body_with_delimiter_lines() {
    let body = "above\n---\nbelow\n\n---";
    let m = Mem::new("a".to_string(), "T".to_string(), body.to_string());
    let parsed = Mem::parse("a".to_string(), &m.serialize()).unwrap();
    assert_eq!(parsed.content, body);
}

#[test]
fn test_roundtrip_body_leading_newline() {
    let body = "\nstarts blank";
    let m = Mem::new("a".to_string(), "T".to_string(), body.to_string());
    let parsed = Mem::parse("a".to_string(), &m.serialize()).unwrap();
    assert_eq!(parsed.content, body);
}

#[test]
fn test_roundtrip_duplicate_and_empty_title() {
    let m = Mem::new("a".to_string(), "".to_string(), "x".to_string())
        .with_tags(vec!["t".to_string(), "t".to_string()]);
    let parsed = Mem::parse("a".to_string(), &m.serialize()).unwrap();
    assert_eq!(parsed.title, "");
    assert_eq!(parsed.tags, vec!["t", "t"]);
}

#[test]
fn test_timestamp_wire_form() {
    let ts = Timestamp {
        year: 2025,
        month: 1,
        day: 19,
        hour: 12,
        minute: 0,
        second: 0,
    };
    assert_eq!(ts.render(), "2025-01-19T12:00:00Z");
    assert_eq!(parse_ts("2025-01-19T12:00:00Z"), Some(ts));
    assert_eq!(parse_ts("2025-01-19 12:00:00"), None);
    assert_eq!(parse_ts("2025-02-30T00:00:00Z"), None);
    assert_eq!(parse_ts("2024-02-29T23:59:59Z").is_some(), true);
}

#[test]
fn test_timestamp_epoch_seconds() {
    let ts = Timestamp {
        year: 1970,
        month: 1,
        day: 1,
        hour: 0,
        minute: 0,
        second: 1,
    };
    assert_eq!(ts.epoch_seconds(), 1);
    let ts2 = Timestamp {
        year: 2025,
        month: 1,
        day: 19,
        hour: 12,
        minute: 0,
        second: 0,
    };
    assert_eq!(ts2.epoch_seconds(), 1737288000);
}

#[test]
fn test_touch_keeps_created_at() {
    let mut m = Mem::new("a".to_string(), "T".to_string(), "x".to_string());
    let created = m.created_at;
    m.touch();
    assert_eq!(m.created_at, created);
    assert!(m.created_at.epoch_seconds() <= m.updated_at.epoch_seconds());
}

#[test]
fn test_derive_title_replaces_separators() {
    assert_eq!(mems::mem::derive_title("arch/decisions/adr-001"), "adr 001");
    assert_eq!(mems::mem::derive_title("some_doc-name"), "some doc name");
    assert_eq!(mems::mem::derive_title("plain"), "plain");
}

#[test]
fn test_parse_tag_list_trims() {
    assert_eq!(mems::mem::parse_tag_list(" a , b,c "), vec!["a", "b", "c"]);
    assert_eq!(mems::mem::parse_tag_list("one"), vec!["one"]);
}

#[test]
fn test_apply_edit_selective() {
    let mut m = Mem::new("a".to_string(), "Old".to_string(), "old body".to_string());
    let created = m.created_at;
    m.apply_edit(Some("new body".to_string()), None, Some("x, y".to_string()));
    assert_eq!(m.title, "Old");
    assert_eq!(m.content, "new body");
    assert_eq!(m.tags, vec!["x", "y"]);
    assert_eq!(m.created_at, created);
}
