//! Index DB for arca.
//!
//! Maps `StoreEntryHash → { tree_path, byte_len, built_at_rev,
//! source_narhash, reachability_state }`. The index does not hold the file
//! contents — just metadata about each entry. A list of rows is a valid
//! index when no two rows share a hash.
use vstd::prelude::*;

use crate::error::Error;
use crate::hash::StoreEntryHash;
use crate::layout::StoreRoot;
use crate::store::ContentHash;

verus! {

/// Reachability-from-sema status for GC coordination.
#[derive(Clone, Copy, Debug, Eq, PartialEq, Structural)]
pub enum Reachability {
    /// Referenced by at least one live sema record.
    Live,
    /// Not referenced; eligible for GC after a grace period.
    Unreferenced,
    /// Marked but not yet collected (sweep in progress).
    PendingGc,
}

/// One row of the index.
#[derive(Clone, Debug)]
pub struct IndexRow {
    pub hash: StoreEntryHash,
    pub byte_len: u64,
    pub built_at_rev: u64,
    pub source_narhash: Option<String>,
    pub reachability: Reachability,
}

/// Read-only handle to the index DB.
pub trait IndexReader {
    fn get(&self, hash: StoreEntryHash) -> Result<Option<IndexRow>, Error>;

    fn iter(&self) -> Result<Vec<IndexRow>, Error>;
}

/// Write-side handle; lives inside the privileged writer.
pub trait IndexWriter: Send {
    fn insert(&mut self, row: IndexRow) -> Result<(), Error>;

    fn set_reachability(&mut self, hash: StoreEntryHash, r: Reachability) -> Result<(), Error>;

    fn remove(&mut self, hash: StoreEntryHash) -> Result<(), Error>;
}

/// No two rows share a hash.
pub open spec fn rows_distinct(rows: Seq<IndexRow>) -> bool {
    forall|i: int, j: int| 0 <= i < j < rows.len() ==> rows[i].hash@ != rows[j].hash@
}

/// Row `i` exists and has hash `h`.
pub open spec fn row_has_hash(rows: Seq<IndexRow>, h: Seq<u8>, i: int) -> bool {
    0 <= i < rows.len() && rows[i].hash@ == h
}

/// Some row has hash `h`.
pub open spec fn index_has(rows: Seq<IndexRow>, h: Seq<u8>) -> bool {
    exists|i: int| row_has_hash(rows, h, i)
}

/// The row with hash `h` (meaningful when `index_has(rows, h)`).
pub open spec fn index_row(rows: Seq<IndexRow>, h: Seq<u8>) -> IndexRow {
    rows[choose|i: int| row_has_hash(rows, h, i)]
}

/// In a valid index, the row found under a hash is the one that has it.
pub proof fn lemma_index_row(rows: Seq<IndexRow>, i: int)
    requires
        rows_distinct(rows),
        0 <= i < rows.len(),
    ensures
        index_has(rows, rows[i].hash@),
        index_row(rows, rows[i].hash@) == rows[i],
{
    assert(row_has_hash(rows, rows[i].hash@, i));
    let j = choose|j: int| row_has_hash(rows, rows[i].hash@, j);
    if j < i {
        assert(rows[j].hash@ != rows[i].hash@);
    } else if i < j {
        assert(rows[i].hash@ != rows[j].hash@);
    }
}

/// Compares two hashes byte by byte.
pub(crate) fn same_hash(a: &ContentHash, b: &ContentHash) -> (r: bool)
    ensures
        r == (a@ == b@),
{
    let mut i: usize = 0;
    while i < 32
        invariant
            i <= 32,
            forall|j: int| 0 <= j < i ==> a@[j] == b@[j],
        decreases 32 - i,
    {
        if a[i] != b[i] {
            return false;
        }
        i = i + 1;
    }
    assert(a@ =~= b@);
    true
}

/// Items that are stored under a content hash.
pub(crate) trait HashKeyed {
    /// The hash the item is stored under.
    spec fn key(&self) -> Seq<u8>;

    /// The hash the item is stored under.
    fn key_bytes(&self) -> (b: &ContentHash)
        ensures
            b@ == self.key(),
    ;
}

impl HashKeyed for IndexRow {
    open spec fn key(&self) -> Seq<u8> {
        self.hash@
    }

    fn key_bytes(&self) -> (b: &ContentHash) {
        &self.hash.0
    }
}

/// The position of the first item stored under `hash`, if any.
pub(crate) fn find_by_hash<T: HashKeyed>(items: &Vec<T>, hash: &ContentHash) -> (r: Option<usize>)
    ensures
        match r {
            Some(i) => i < items@.len() && items@[i as int].key() == hash@,
            None => forall|j: int| 0 <= j < items@.len() ==> items@[j].key() != hash@,
        },
{
    let mut i: usize = 0;
    while i < items.len()
        invariant
            i <= items@.len(),
            forall|j: int| 0 <= j < i ==> items@[j].key() != hash@,
        decreases items@.len() - i,
    {
        if same_hash(items[i].key_bytes(), hash) {
            return Some(i);
        }
        i = i + 1;
    }
    None
}

/// The position of the row with hash `hash`, if any.
pub(crate) fn find_row(rows: &Vec<IndexRow>, hash: &StoreEntryHash) -> (r: Option<usize>)
    ensures
        match r {
            Some(i) => i < rows@.len() && rows@[i as int].hash@ == hash@ && index_has(rows@, hash@),
            None => !index_has(rows@, hash@),
        },
{
    let r = find_by_hash(rows, &hash.0);
    proof {
        match r {
            Some(i) => {
                assert(row_has_hash(rows@, hash@, i as int));
            },
            None => {
                if index_has(rows@, hash@) {
                    let j = choose|j: int| row_has_hash(rows@, hash@, j);
                    assert(rows@[j].key() == rows@[j].hash@);
                }
            },
        }
    }
    r
}

/// Whether no two rows share a hash.
pub(crate) fn check_rows_distinct(rows: &Vec<IndexRow>) -> (r: bool)
    ensures
        r == rows_distinct(rows@),
{
    let mut i: usize = 0;
    while i < rows.len()
        invariant
            i <= rows@.len(),
            forall|a: int, b: int| 0 <= a < b < rows@.len() && a < i ==> rows@[a].hash@ != rows@[b].hash@,
        decreases rows@.len() - i,
    {
        let mut j: usize = i + 1;
        while j < rows.len()
            invariant
                i < rows@.len(),
                i + 1 <= j <= rows@.len(),
                forall|a: int, b: int|
                    0 <= a < b < rows@.len() && a < i ==> rows@[a].hash@ != rows@[b].hash@,
                forall|b: int| i < b < j ==> rows@[i as int].hash@ != rows@[b].hash@,
            decreases rows@.len() - j,
        {
            if same_hash(&rows[i].hash.0, &rows[j].hash.0) {
                return false;
            }
            j = j + 1;
        }
        i = i + 1;
    }
    true
}

/// Checks what opening a store needs: the root must be a valid store and
/// no two index rows may share a hash. Gives the root and rows back when so.
pub(crate) fn check_store(root: StoreRoot, root_is_valid: bool, rows: Vec<IndexRow>) -> (r: Result<
    (StoreRoot, Vec<IndexRow>),
    Error,
>)
    ensures
        !root_is_valid ==> (r matches Err(Error::UninitialisedRoot(p)) && p@ == root.0@),
        root_is_valid && !rows_distinct(rows@) ==> r matches Err(Error::Index(_)),
        root_is_valid && rows_distinct(rows@) ==> (r matches Ok((rt, rs)) && rt.0@ == root.0@
            && rs@ == rows@),
{
    if !root_is_valid {
        return Err(Error::UninitialisedRoot(root.0));
    }
    if !check_rows_distinct(&rows) {
        return Err(Error::Index("two index rows share a hash".to_owned()));
    }
    Ok((root, rows))
}

/// A copy of an optional text.
pub(crate) fn copy_text(t: &Option<String>) -> (r: Option<String>)
    ensures
        r == *t,
{
    match t {
        Some(s) => Some(s.clone()),
        None => None,
    }
}

} // verus!
