use arca::bundle::BundlePolicy;
use arca::content_hash;
use arca::error::Error;
use arca::hash::StoreEntryHash;
use arca::index::{IndexRow, Reachability};
use arca::layout::StoreRoot;
use arca::reader::{StoreReader, StoreReaderHandle};
use arca::writer::{StoreWriter, StoreWriterHandle};

fn row(byte: u8, narhash: Option<&str>) -> IndexRow {
    IndexRow {
        hash: StoreEntryHash([byte; 32]),
        byte_len: byte as u64 * 10,
        built_at_rev: byte as u64,
        source_narhash: narhash.map(|s| s.to_string()),
        reachability: Reachability::Live,
    }
}

#[test]
fn reader_open_requires_valid_root() {
    let r = StoreReaderHandle::open(StoreRoot("/nowhere".to_string()), false, vec![]);
    match r {
        Err(Error::UninitialisedRoot(p)) => assert_eq!(p, "/nowhere"),
        _ => panic!("expected UninitialisedRoot"),
    }
}

#[test]
fn reader_open_rejects_duplicate_rows() {
    let r = StoreReaderHandle::open(StoreRoot("/s".to_string()), true, vec![row(1, None), row(1, None)]);
    assert!(matches!(r, Err(Error::Index(_))));
}

#[test]
fn reader_answers_from_the_index() {
    let reader = StoreReaderHandle::open(
        StoreRoot("/s".to_string()),
        true,
        vec![row(1, Some("sha256-x")), row(2, None)],
    )
    .unwrap();
    assert!(reader.contains(StoreEntryHash([1; 32])).unwrap());
    assert!(!reader.contains(StoreEntryHash([3; 32])).unwrap());
    let path = reader.resolve(StoreEntryHash([2; 32])).unwrap();
    assert_eq!(path.as_path(), format!("/s/{}", "02".repeat(32)));
    assert!(matches!(
        reader.resolve(StoreEntryHash([9; 32])),
        Err(Error::UnknownHash(h)) if h == StoreEntryHash([9; 32])
    ));
    let entries = reader.entries().unwrap();
    assert_eq!(entries, vec![StoreEntryHash([1; 32]), StoreEntryHash([2; 32])]);
    let meta = reader.metadata(StoreEntryHash([1; 32])).unwrap();
    assert_eq!(meta.byte_len, 10);
    assert_eq!(meta.built_at_rev, 1);
    assert_eq!(meta.source_narhash.as_deref(), Some("sha256-x"));
    assert!(reader.metadata(StoreEntryHash([7; 32])).is_err());
}

#[test]
fn writer_dedups_and_deletes() {
    let mut writer = StoreWriterHandle::open(StoreRoot("/s".to_string()), true, vec![]).unwrap();
    let tree = b"canonical tree encoding";
    let h = writer.put_tree(tree, Some("sha256-n".to_string()), 4).unwrap();
    assert_eq!(h.0, content_hash(tree));
    assert_eq!(writer.index_rows().len(), 1);
    let again = writer.put_tree(tree, None, 9).unwrap();
    assert_eq!(again, h);
    assert_eq!(writer.index_rows().len(), 1);
    let first = &writer.index_rows()[0];
    assert_eq!(first.built_at_rev, 4);
    assert_eq!(first.byte_len, tree.len() as u64);
    assert_eq!(first.reachability, Reachability::Live);
    writer.delete(h).unwrap();
    assert!(writer.index_rows().is_empty());
    assert!(matches!(writer.delete(h), Err(Error::UnknownHash(x)) if x == h));
}

#[test]
fn writer_open_checks_root_and_rows() {
    assert!(matches!(
        StoreWriterHandle::open(StoreRoot("/w".to_string()), false, vec![]),
        Err(Error::UninitialisedRoot(_))
    ));
    assert!(matches!(
        StoreWriterHandle::open(StoreRoot("/w".to_string()), true, vec![row(5, None), row(5, None)]),
        Err(Error::Index(_))
    ));
}

#[test]
fn linux_default_policy_normalises_everything() {
    let p = BundlePolicy::linux_default();
    assert!(p.normalise_timestamps && p.strip_build_id && p.rewrite_rpath);
    let d = BundlePolicy::default();
    assert!(!d.normalise_timestamps && !d.strip_build_id && !d.rewrite_rpath);
}

fn count_known<R: StoreReader>(reader: &R, hashes: &[StoreEntryHash]) -> usize {
    hashes.iter().filter(|h| reader.contains(**h).unwrap()).count()
}

#[test]
fn reader_through_its_trait() {
    let reader = StoreReaderHandle::open(StoreRoot("/t".to_string()), true, vec![row(4, None)]).unwrap();
    assert_eq!(count_known(&reader, &[StoreEntryHash([4; 32]), StoreEntryHash([5; 32])]), 1);
}
