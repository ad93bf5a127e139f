use arca::hash::{StoreEntryHash, HASH_LEN};
use arca::layout::{StorePath, StoreRoot};

#[test]
fn default_path_ends_with_arca_dir() {
    let root = StoreRoot::default_for_user(Some("/home/someone".to_string()));
    let s = root.0.clone();
    assert!(s.ends_with(".arca"), "expected path ending in .arca, got {s}");
    let fallback = StoreRoot::default_for_user(None);
    assert!(fallback.0.ends_with(".arca"), "expected path ending in .arca, got {}", fallback.0);
}

#[test]
fn entry_tree_appends_hex() {
    let root = StoreRoot("/tmp/arca-test".to_string());
    let hash = StoreEntryHash([0u8; HASH_LEN]);
    let path = root.entry_tree(hash);
    let expected = format!("/tmp/arca-test/{}", "0".repeat(HASH_LEN * 2));
    assert_eq!(path, expected);
}

#[test]
fn index_db_path_is_inside_root() {
    let root = StoreRoot("/tmp/arca-test".to_string());
    let idx = root.index_db_path();
    assert_eq!(idx, "/tmp/arca-test/index.redb");
}

#[test]
fn default_root_paths() {
    assert_eq!(StoreRoot::default_for_user(Some("/home/u".to_string())).0, "/home/u/.arca");
    assert_eq!(StoreRoot::default_for_user(Some("/home/u/".to_string())).0, "/home/u/.arca");
    assert_eq!(StoreRoot::default_for_user(Some(String::new())).0, ".arca");
    assert_eq!(StoreRoot::default_for_user(None).0, "./.arca");
}

#[test]
fn join_does_not_double_the_separator() {
    let root = StoreRoot("/srv/arca/".to_string());
    assert_eq!(root.index_db_path(), "/srv/arca/index.redb");
    let empty = StoreRoot(String::new());
    assert_eq!(empty.index_db_path(), "index.redb");
}

#[test]
fn entry_tree_uses_lowercase_hex_high_nibble_first() {
    let root = StoreRoot("/a".to_string());
    let mut bytes = [0u8; HASH_LEN];
    bytes[0] = 0xab;
    bytes[31] = 0x0f;
    let path = root.entry_tree(StoreEntryHash(bytes));
    let expected = format!("/a/ab{}0f", "0".repeat(60));
    assert_eq!(path, expected);
}

#[test]
fn store_exists_needs_root_and_index() {
    let root = StoreRoot("/x".to_string());
    assert!(root.store_exists(true, true));
    assert!(!root.store_exists(true, false));
    assert!(!root.store_exists(false, true));
    assert!(!root.store_exists(false, false));
}

#[test]
fn store_path_as_path() {
    let p = StorePath("/x/y".to_string());
    assert_eq!(p.as_path(), "/x/y");
}
