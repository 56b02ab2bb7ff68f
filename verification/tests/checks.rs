use mems::hier::render_tree;
use mems::lint::{lint_mems, IssueKind};
use mems::mem::Mem;
use mems::query::{filter_stale, find_matches};
use mems::store::Storage;
use mems::time::Timestamp;

fn store_with(paths: &[(&str, &str, &str)]) -> Storage {
    let mut st = Storage::new(".mems".to_string());
    for (p, title, body) in paths {
        st.write_mem(&Mem::new(p.to_string(), title.to_string(), body.to_string()))
            .unwrap();
    }
    st
}

#[test]
fn test_lint_broken_link_reported_once() {
    let mut st = store_with(&[("with-link", "W", "See [other](nonexistent.md)")]);
    st.write_mem(&Mem::new(
        "clean".to_string(),
        "C".to_string(),
        "no links".to_string(),
    ))
    .unwrap();
    let mems = st.list_mems().unwrap();
    let issues = lint_mems(&st, &mems);
    assert_eq!(issues.len(), 1);
    assert_eq!(issues[0].path, "with-link");
    assert_eq!(issues[0].kind, IssueKind::BrokenLink);
    assert_eq!(issues[0].target, "nonexistent.md");
}

#[test]
fn test_lint_existing_sibling_link_is_fine() {
    let st = store_with(&[
        ("dir/source", "S", "See [it](sibling.md)"),
        ("dir/sibling", "T", "content"),
    ]);
    let mems = st.list_mems().unwrap();
    let issues = lint_mems(&st, &mems);
    assert!(issues.is_empty());
}

#[test]
fn test_lint_ignores_external_and_plain_links() {
    let st = store_with(&[(
        "doc",
        "D",
        "A [site](http://example.com/x.md) and [page](other.html).",
    )]);
    let mems = st.list_mems().unwrap();
    assert!(lint_mems(&st, &mems).is_empty());
}

#[test]
fn test_lint_blank_title_and_body() {
    let st = store_with(&[("empty-title", "  ", "has text"), ("empty-body", "T", "   ")]);
    let mems = st.list_mems().unwrap();
    let issues = lint_mems(&st, &mems);
    assert_eq!(issues.len(), 2);
    assert_eq!(issues[0].path, "empty-body");
    assert_eq!(issues[0].kind, IssueKind::EmptyContent);
    assert_eq!(issues[1].path, "empty-title");
    assert_eq!(issues[1].kind, IssueKind::EmptyTitle);
}

#[test]
fn test_lint_nested_brackets_in_label() {
    let st = store_with(&[("doc", "D", "A [a [b] c](gone.md) link.")]);
    let mems = st.list_mems().unwrap();
    let issues = lint_mems(&st, &mems);
    assert_eq!(issues.len(), 1);
    assert_eq!(issues[0].target, "gone.md");
}

#[test]
fn test_tree_rendering() {
    let st = store_with(&[
        ("arch/decisions/adr-001", "Decision 1", "c"),
        ("arch/decisions/adr-002", "Decision 2", "c"),
        ("top", "Top", "c"),
    ]);
    let mems = st.list_mems().unwrap();
    let lines = render_tree(&mems, ".mems");
    let expected = vec![
        ".mems/",
        "├── arch/",
        "│   └── decisions/",
        "│       ├── adr-001 - Decision 1",
        "│       └── adr-002 - Decision 2",
        "└── top - Top",
    ];
    assert_eq!(lines, expected);
}

#[test]
fn test_find_is_case_insensitive() {
    let st = store_with(&[
        ("rust-notes", "Rust Notes", "Rust programming language notes"),
        ("python-notes", "Python Notes", "Python programming language notes"),
    ]);
    let mems = st.list_mems().unwrap();
    let hits = find_matches(mems, "RUST");
    assert_eq!(hits.len(), 1);
    assert_eq!(hits[0].path, "rust-notes");

    let mems = st.list_mems().unwrap();
    let all = find_matches(mems, "programming");
    assert_eq!(all.len(), 2);
}

#[test]
fn test_filter_stale_threshold() {
    let old_doc = {
        let mut m = Mem::new("old".to_string(), "O".to_string(), "c".to_string());
        m.created_at = Timestamp {
            year: 2020,
            month: 1,
            day: 1,
            hour: 0,
            minute: 0,
            second: 0,
        };
        m.updated_at = m.created_at;
        m
    };
    let fresh = Mem::new("fresh".to_string(), "F".to_string(), "c".to_string());
    let now = mems::time::now();
    let stale = filter_stale(vec![old_doc, fresh], &now, 90);
    assert_eq!(stale.len(), 1);
    assert_eq!(stale[0].path, "old");
}

#[test]
fn test_stale_boundary_is_exclusive() {
    let base = Timestamp {
        year: 2025,
        month: 1,
        day: 1,
        hour: 0,
        minute: 0,
        second: 0,
    };
    let mut m = Mem::new("doc".to_string(), "T".to_string(), "c".to_string());
    m.updated_at = base;
    // exactly ten days later: not yet beyond a ten-day threshold
    let now = Timestamp {
        year: 2025,
        month: 1,
        day: 11,
        hour: 0,
        minute: 0,
        second: 0,
    };
    assert!(filter_stale(vec![m.clone()], &now, 10).is_empty());
    let just_past = Timestamp {
        year: 2025,
        month: 1,
        day: 11,
        hour: 0,
        minute: 0,
        second: 1,
    };
    assert_eq!(filter_stale(vec![m], &just_past, 10).len(), 1);
}

#[test]
fn test_ls_line_shape() {
    let m = Mem::new("a/b".to_string(), "Title".to_string(), "c".to_string())
        .with_tags(vec!["t1".to_string(), "t2".to_string()]);
    assert_eq!(mems::render::ls_line(&m), "a/b: Title [t1, t2]");
    let bare = Mem::new("x".to_string(), "X".to_string(), "c".to_string());
    assert_eq!(mems::render::ls_line(&bare), "x: X");
}

#[test]
fn test_show_text_shape() {
    let m = Mem::new("a".to_string(), "Head".to_string(), "body text".to_string())
        .with_tags(vec!["one".to_string()]);
    assert_eq!(
        mems::render::show_text(&m),
        "# Head\n\nTags: one\n\nbody text\n"
    );
}

#[test]
fn test_dump_text_shape() {
    let m = Mem::new("doc".to_string(), "D".to_string(), "body".to_string());
    let text = mems::render::dump_text(&vec![m]);
    let rule: String = format!("<!-- {} -->\n", "═".repeat(67));
    let expected = format!("{rule}<!-- doc -->\n{rule}\n# D\n\nbody\n\n");
    assert_eq!(text, expected);
}
