use rhp::files::{sort_entries, traversal, FileStore, OUTSIDE_FOLDER};

#[test]
fn resolve_joins_relative_path() {
    let store = FileStore::new("/srv/files".to_string());
    assert_eq!(store.resolve("hello.txt"), Some("/srv/files/hello.txt".to_string()));
    assert_eq!(
        store.resolve("nested/deep/file.txt"),
        Some("/srv/files/nested/deep/file.txt".to_string())
    );
}

#[test]
fn resolve_rejects_parent_components() {
    let store = FileStore::new("/srv/files".to_string());
    assert_eq!(store.resolve("../secret"), None);
    assert_eq!(store.resolve("a/../../b"), None);
    assert_eq!(store.resolve("a/.."), None);
}

#[test]
fn resolve_rejects_absolute_paths() {
    let store = FileStore::new("/srv/files".to_string());
    assert_eq!(store.resolve("/etc/hostname"), None);
    assert_eq!(store.resolve("/root.txt"), None);
}

#[test]
fn resolve_empty_path_is_root() {
    let store = FileStore::new("/srv/files".to_string());
    assert_eq!(store.resolve(""), Some("/srv/files/".to_string()));
    let slash_root = FileStore::new("/srv/files/".to_string());
    assert_eq!(slash_root.resolve("x"), Some("/srv/files/x".to_string()));
}

#[test]
fn resolve_allows_dots_in_names() {
    let store = FileStore::new("/srv".to_string());
    assert_eq!(store.resolve("..hidden"), Some("/srv/..hidden".to_string()));
    assert_eq!(store.resolve("a/./b"), Some("/srv/a/./b".to_string()));
}

#[test]
fn traversal_finds_parent_components_only() {
    assert!(traversal("/a/../b"));
    assert!(traversal(".."));
    assert!(!traversal("/a/..b/c"));
    assert!(!traversal("/a/b.."));
}

#[test]
fn listing_is_sorted_by_name() {
    let entries = vec![
        ("sub".to_string(), true),
        ("b.txt".to_string(), false),
        ("a.txt".to_string(), false),
    ];
    assert_eq!(
        sort_entries(entries),
        vec![
            ("a.txt".to_string(), false),
            ("b.txt".to_string(), false),
            ("sub".to_string(), true),
        ]
    );
}

#[test]
fn outside_error_mentions_outside() {
    assert!(OUTSIDE_FOLDER.contains("outside"));
    let store = FileStore::new("/r".to_string());
    assert_eq!(store.root(), "/r");
}

#[test]
fn resolve_refuses_exactly_parent_components() {
    for root in ["/srv/files", "/srv/files/", "/"] {
        let store = FileStore::new(root.to_string());
        for rel in ["a..", "..a", "a/..b/c", ".../x", "./x", "x/."] {
            assert!(store.resolve(rel).is_some(), "{root} {rel}");
            assert!(!traversal(rel));
        }
        for rel in ["..", "x/..", "x/../y", "../"] {
            assert_eq!(store.resolve(rel), None, "{root} {rel}");
            assert!(traversal(rel));
        }
        assert!(store.resolve("ok.txt").unwrap().starts_with(root));
    }
}
