use mems::mem::Mem;
use mems::store::{temp_name, StoreError, Storage};

fn setup_storage() -> Storage {
    Storage::new(".mems".to_string())
}

#[test]
fn test_write_and_read_mem() {
    let storage = setup_storage();
    let mut storage = storage;

    let mem = Mem::new(
        "test-doc".to_string(),
        "Test Document".to_string(),
        "Hello, world!".to_string(),
    );

    storage.write_mem(&mem).unwrap();
    let loaded = storage.read_mem("test-doc").unwrap();

    assert_eq!(loaded.title, "Test Document");
    assert_eq!(loaded.content, "Hello, world!");
}

#[test]
fn test_write_creates_directories() {
    let mut storage = setup_storage();

    let mem = Mem::new(
        "arch/decisions/adr-001".to_string(),
        "ADR-001".to_string(),
        "Architecture decision.".to_string(),
    );

    storage.write_mem(&mem).unwrap();
    assert!(storage.mem_exists("arch/decisions/adr-001"));
    assert!(storage.dir_exists("arch"));
    assert!(storage.dir_exists("arch/decisions"));
}

#[test]
fn test_delete_mem() {
    let mut storage = setup_storage();

    let mem = Mem::new(
        "to-delete".to_string(),
        "Delete Me".to_string(),
        "Content".to_string(),
    );

    storage.write_mem(&mem).unwrap();
    assert!(storage.mem_exists("to-delete"));

    storage.delete_mem("to-delete").unwrap();
    assert!(!storage.mem_exists("to-delete"));
}

#[test]
fn test_delete_cleans_empty_dirs() {
    let mut storage = setup_storage();

    let mem = Mem::new(
        "a/b/c/doc".to_string(),
        "Nested".to_string(),
        "Content".to_string(),
    );

    storage.write_mem(&mem).unwrap();
    storage.delete_mem("a/b/c/doc").unwrap();

    // Parent directories should be cleaned up
    assert!(!storage.dir_exists("a"));
}

#[test]
fn test_list_mems() {
    let mut storage = setup_storage();

    storage
        .write_mem(&Mem::new(
            "doc1".to_string(),
            "Doc 1".to_string(),
            "Content 1".to_string(),
        ))
        .unwrap();

    storage
        .write_mem(&Mem::new(
            "dir/doc2".to_string(),
            "Doc 2".to_string(),
            "Content 2".to_string(),
        ))
        .unwrap();

    let mems = storage.list_mems().unwrap();
    assert_eq!(mems.len(), 2);

    let paths: Vec<_> = mems.iter().map(|m| m.path.as_str()).collect();
    assert!(paths.contains(&"dir/doc2"));
    assert!(paths.contains(&"doc1"));
}

#[test]
fn test_list_mems_excludes_archive() {
    let mut storage = setup_storage();

    storage
        .write_mem(&Mem::new(
            "active".to_string(),
            "Active".to_string(),
            "Content".to_string(),
        ))
        .unwrap();

    storage.archive_mem("active").unwrap();

    let mems = storage.list_mems().unwrap();
    assert!(mems.is_empty());
}

#[test]
fn test_archive_mem() {
    let mut storage = setup_storage();

    let mem = Mem::new(
        "to-archive".to_string(),
        "Archive Me".to_string(),
        "Content".to_string(),
    );

    storage.write_mem(&mem).unwrap();
    storage.archive_mem("to-archive").unwrap();

    assert!(!storage.mem_exists("to-archive"));
    assert!(storage.file_at("archive/to-archive.md").is_some());
}

#[test]
fn test_archive_nested_mem() {
    let mut storage = setup_storage();

    let mem = Mem::new(
        "a/b/nested".to_string(),
        "Nested".to_string(),
        "Content".to_string(),
    );

    storage.write_mem(&mem).unwrap();
    storage.archive_mem("a/b/nested").unwrap();

    assert!(!storage.mem_exists("a/b/nested"));
    assert!(storage.file_at("archive/a/b/nested.md").is_some());
}

#[test]
fn test_read_nonexistent() {
    let storage = setup_storage();
    let result = storage.read_mem("nonexistent");
    assert!(result.is_err());
}

#[test]
fn test_delete_nonexistent() {
    let mut storage = setup_storage();
    let result = storage.delete_mem("nonexistent");
    assert!(result.is_err());
}

#[test]
fn test_list_sorted_by_path() {
    let mut storage = setup_storage();
    for p in ["b/x", "a/y", "a/z"] {
        storage
            .write_mem(&Mem::new(p.to_string(), "T".to_string(), "c".to_string()))
            .unwrap();
    }
    let mems = storage.list_mems().unwrap();
    let paths: Vec<_> = mems.iter().map(|m| m.path.as_str()).collect();
    assert_eq!(paths, vec!["a/y", "a/z", "b/x"]);
}

#[test]
fn test_archive_preserves_document() {
    let mut storage = setup_storage();
    let mem = Mem::new("keep".to_string(), "Kept".to_string(), "the body".to_string())
        .with_tags(vec!["t1".to_string()]);
    storage.write_mem(&mem).unwrap();
    let before = storage.read_mem("keep").unwrap();
    storage.archive_mem("keep").unwrap();

    assert!(!storage.mem_exists("keep"));
    let raw = storage.file_at("archive/keep.md").unwrap();
    let restored = Mem::parse("keep".to_string(), &raw).unwrap();
    assert_eq!(restored.title, before.title);
    assert_eq!(restored.tags, before.tags);
    assert_eq!(restored.content, before.content);
    assert_eq!(
        restored.created_at.epoch_seconds(),
        before.created_at.epoch_seconds()
    );
    assert_eq!(
        restored.updated_at.epoch_seconds(),
        before.updated_at.epoch_seconds()
    );
}

#[test]
fn test_archived_documents_never_listed() {
    let mut storage = setup_storage();
    // a fully valid document placed under the archive subtree by hand
    let text = Mem::new("ghost".to_string(), "G".to_string(), "x".to_string()).serialize();
    storage.put_file("archive/ghost.md".to_string(), text);
    assert!(storage.list_mems().unwrap().is_empty());
}

#[test]
fn test_listing_skips_hidden_and_temp() {
    let mut storage = setup_storage();
    let good = Mem::new("seen".to_string(), "S".to_string(), "x".to_string()).serialize();
    storage.put_file("seen.md".to_string(), good);
    let hidden = Mem::new(".secret/h".to_string(), "H".to_string(), "x".to_string()).serialize();
    storage.put_file(".secret/h.md".to_string(), hidden);
    storage.put_file("seen.md.12ab34cd.tmp".to_string(), "partial".to_string());
    let mems = storage.list_mems().unwrap();
    let paths: Vec<_> = mems.iter().map(|m| m.path.as_str()).collect();
    assert_eq!(paths, vec!["seen"]);
}

#[test]
fn test_listing_skips_undecodable() {
    let mut storage = setup_storage();
    storage.put_file("broken.md".to_string(), "not a document".to_string());
    let good = Mem::new("fine".to_string(), "F".to_string(), "x".to_string()).serialize();
    storage.put_file("fine.md".to_string(), good);
    let mems = storage.list_mems().unwrap();
    assert_eq!(mems.len(), 1);
    assert_eq!(mems[0].path, "fine");
}

#[test]
fn test_list_mems_under_prefix() {
    let mut storage = setup_storage();
    for p in ["docs/one", "notes/two", "docs/deep/three"] {
        storage
            .write_mem(&Mem::new(p.to_string(), "T".to_string(), "c".to_string()))
            .unwrap();
    }
    let mems = storage.list_mems_under("docs").unwrap();
    let paths: Vec<_> = mems.iter().map(|m| m.path.as_str()).collect();
    assert_eq!(paths, vec!["docs/deep/three", "docs/one"]);
}

#[test]
fn test_delete_prunes_only_empty_dirs() {
    let mut storage = setup_storage();
    storage
        .write_mem(&Mem::new("a/b/doc".to_string(), "T".to_string(), "c".to_string()))
        .unwrap();
    storage
        .write_mem(&Mem::new("a/c/doc2".to_string(), "T".to_string(), "c".to_string()))
        .unwrap();
    storage.delete_mem("a/b/doc").unwrap();
    assert!(!storage.dir_exists("a/b"));
    assert!(storage.dir_exists("a"));
    assert!(storage.dir_exists("a/c"));
}

#[test]
fn test_corrupt_file_read_error() {
    let mut storage = setup_storage();
    storage.put_file("bad.md".to_string(), "garbage".to_string());
    assert_eq!(storage.read_mem("bad").unwrap_err(), StoreError::Corrupt);
}

#[test]
fn test_add_refuses_duplicate_without_force() {
    let mut storage = setup_storage();
    storage
        .add("dup", "First".to_string(), None, None, false)
        .unwrap();
    assert_eq!(
        storage
            .add("dup", "Second".to_string(), None, None, false)
            .unwrap_err(),
        StoreError::AlreadyExists
    );
    storage
        .add("dup", "Second".to_string(), None, None, true)
        .unwrap();
    assert_eq!(storage.read_mem("dup").unwrap().content, "Second");
}

#[test]
fn test_add_derives_title_and_tags() {
    let mut storage = setup_storage();
    storage
        .add(
            "notes/my-first_note",
            "body".to_string(),
            None,
            Some("a, b".to_string()),
            false,
        )
        .unwrap();
    let m = storage.read_mem("notes/my-first_note").unwrap();
    assert_eq!(m.title, "my first note");
    assert_eq!(m.tags, vec!["a", "b"]);
}

#[test]
fn test_edit_updates_fields() {
    let mut storage = setup_storage();
    storage
        .add("e", "old".to_string(), Some("Old Title".to_string()), None, false)
        .unwrap();
    let created = storage.read_mem("e").unwrap().created_at;
    storage
        .edit("e", Some("new".to_string()), None, None)
        .unwrap();
    let m = storage.read_mem("e").unwrap();
    assert_eq!(m.content, "new");
    assert_eq!(m.title, "Old Title");
    assert_eq!(m.created_at, created);
    assert_eq!(
        storage.edit("missing", None, None, None).unwrap_err(),
        StoreError::NotFound
    );
}

#[test]
fn test_temp_name_shape() {
    assert_eq!(temp_name("doc.md", 0x1234abcd), "doc.md.1234abcd.tmp");
    assert_eq!(temp_name("x", 0), "x.00000000.tmp");
}

#[test]
fn test_root_is_kept() {
    let storage = Storage::new("somewhere/.mems".to_string());
    assert_eq!(storage.root().as_str(), "somewhere/.mems");
}

#[test]
fn test_mem_path_resolution() {
    let storage = Storage::new(".mems".to_string());
    assert_eq!(storage.mem_path("a/b"), ".mems/a/b.md");
    assert_eq!(storage.mem_path("doc"), ".mems/doc.md");
}

#[test]
fn test_archive_subtree_walkable_explicitly() {
    let mut storage = setup_storage();
    storage
        .write_mem(&Mem::new("gone".to_string(), "G".to_string(), "x".to_string()))
        .unwrap();
    storage.archive_mem("gone").unwrap();
    let archived = storage.list_mems_under("archive").unwrap();
    assert_eq!(archived.len(), 1);
    assert_eq!(archived[0].path, "archive/gone");
}
