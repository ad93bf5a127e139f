//! Reader-side API for arca.
//!
//! Public — any process can read the store. Reads need no daemon
//! round-trip: the index rows are read from the index DB (read-only), and
//! entry paths are plain filesystem paths derived from the layout.
use vstd::prelude::*;

use crate::error::Error;
use crate::hash::{hex_encode, StoreEntryHash};
use crate::index::{
    check_store, copy_text, find_row, index_has, index_row, lemma_index_row, rows_distinct,
    IndexRow,
};
use crate::layout::{join_path, StorePath, StoreRoot};

verus! {

/// Read-only handle to an arca directory.
///
/// A reader is described by the path of its store root and by the rows of
/// the store's index.
pub trait StoreReader {
    /// The path of the store root.
    spec fn root_path(&self) -> Seq<char>;

    /// The rows of the store's index.
    spec fn rows(&self) -> Seq<IndexRow>;

    /// Does the given hash exist in this store?
    fn contains(&self, hash: StoreEntryHash) -> (r: Result<bool, Error>)
        ensures
            r matches Ok(b) ==> b == index_has(self.rows(), hash@),
    ;

    /// Resolve a store-entry hash to its top-level tree path.
    /// Error if the hash is unknown.
    fn resolve(&self, hash: StoreEntryHash) -> (r: Result<StorePath, Error>)
        ensures
            r matches Ok(p) ==> index_has(self.rows(), hash@) && p.0@ == join_path(
                self.root_path(),
                hex_encode(hash@),
            ),
            !index_has(self.rows(), hash@) ==> r is Err,
    ;

    /// Every entry currently in the store, in index order.
    fn entries(&self) -> (r: Result<Vec<StoreEntryHash>, Error>)
        ensures
            r matches Ok(v) ==> v@.len() == self.rows().len() && forall|i: int|
                0 <= i < v@.len() ==> #[trigger] v@[i] == self.rows()[i].hash,
    ;

    /// Metadata for a given entry.
    fn metadata(&self, hash: StoreEntryHash) -> (r: Result<EntryMetadata, Error>)
        ensures
            r matches Ok(m) ==> index_has(self.rows(), hash@) && m.hash == hash && m.byte_len
                == index_row(self.rows(), hash@).byte_len && m.built_at_rev == index_row(
                self.rows(),
                hash@,
            ).built_at_rev && m.source_narhash == index_row(self.rows(), hash@).source_narhash,
            !index_has(self.rows(), hash@) ==> r is Err,
    ;
}

/// Metadata stored in the index per entry.
#[derive(Clone, Debug)]
pub struct EntryMetadata {
    pub hash: StoreEntryHash,
    pub byte_len: u64,
    pub built_at_rev: u64,
    /// nix narhash, for provenance
    pub source_narhash: Option<String>,
}

/// The metadata that the index row `row` records.
pub open spec fn metadata_of(row: IndexRow, m: EntryMetadata) -> bool {
    &&& m.hash == row.hash
    &&& m.byte_len == row.byte_len
    &&& m.built_at_rev == row.built_at_rev
    &&& m.source_narhash == row.source_narhash
}

/// Concrete reader over a store at `root`, holding the rows of its index.
pub struct StoreReaderHandle {
    root: StoreRoot,
    index: Vec<IndexRow>,
}

impl StoreReaderHandle {
    #[verifier::type_invariant]
    spec fn well_formed(self) -> bool {
        rows_distinct(self.index@)
    }

    /// Opens the store at `root`, given whether the root is a valid store
    /// (see `StoreRoot::store_exists`) and the rows read from its index DB.
    ///
    /// Fails with `UninitialisedRoot` when the root is not a valid store,
    /// and with `Index` when two rows share a hash.
    pub fn open(root: StoreRoot, root_is_valid: bool, rows: Vec<IndexRow>) -> (r: Result<
        Self,
        Error,
    >)
        ensures
            !root_is_valid ==> (r matches Err(Error::UninitialisedRoot(p)) && p@ == root.0@),
            root_is_valid && !rows_distinct(rows@) ==> r matches Err(Error::Index(_)),
            root_is_valid && rows_distinct(rows@) ==> (r matches Ok(h) && h.root_path() == root.0@
                && h.rows() == rows@),
    {
        let (root, index) = check_store(root, root_is_valid, rows)?;
        Ok(StoreReaderHandle { root, index })
    }
}

impl StoreReader for StoreReaderHandle {
    closed spec fn root_path(&self) -> Seq<char> {
        self.root.0@
    }

    closed spec fn rows(&self) -> Seq<IndexRow> {
        self.index@
    }

    fn contains(&self, hash: StoreEntryHash) -> (r: Result<bool, Error>)
        ensures
            r matches Ok(b) && b == index_has(self.rows(), hash@),
    {
        Ok(find_row(&self.index, &hash).is_some())
    }

    fn resolve(&self, hash: StoreEntryHash) -> (r: Result<StorePath, Error>)
        ensures
            index_has(self.rows(), hash@) ==> (r matches Ok(p) && p.0@ == join_path(
                self.root_path(),
                hex_encode(hash@),
            )),
            !index_has(self.rows(), hash@) ==> (r matches Err(Error::UnknownHash(h)) && h == hash),
    {
        match find_row(&self.index, &hash) {
            Some(_) => Ok(StorePath(self.root.entry_tree(hash))),
            None => Err(Error::UnknownHash(hash)),
        }
    }

    fn entries(&self) -> (r: Result<Vec<StoreEntryHash>, Error>)
        ensures
            r matches Ok(v) && v@.len() == self.rows().len() && forall|i: int|
                0 <= i < v@.len() ==> #[trigger] v@[i] == self.rows()[i].hash,
    {
        let mut v: Vec<StoreEntryHash> = Vec::new();
        let mut i: usize = 0;
        while i < self.index.len()
            invariant
                i <= self.index@.len(),
                v@.len() == i,
                forall|j: int| 0 <= j < i ==> #[trigger] v@[j] == self.index@[j].hash,
            decreases self.index@.len() - i,
        {
            v.push(self.index[i].hash);
            i = i + 1;
        }
        Ok(v)
    }

    fn metadata(&self, hash: StoreEntryHash) -> (r: Result<EntryMetadata, Error>)
        ensures
            index_has(self.rows(), hash@) ==> (r matches Ok(m) && metadata_of(
                index_row(self.rows(), hash@),
                m,
            )),
            index_has(self.rows(), hash@) ==> (r matches Ok(m) && m.hash == hash && m.byte_len
                == index_row(self.rows(), hash@).byte_len && m.built_at_rev == index_row(
                self.rows(),
                hash@,
            ).built_at_rev && m.source_narhash == index_row(self.rows(), hash@).source_narhash),
            !index_has(self.rows(), hash@) ==> (r matches Err(Error::UnknownHash(h)) && h == hash),
    {
        proof {
            use_type_invariant(self);
        }
        match find_row(&self.index, &hash) {
            Some(i) => {
                let row = &self.index[i];
                proof {
                    lemma_index_row(self.index@, i as int);
                    broadcast use vstd::array::group_array_axioms;

                    assert(row.hash.0 =~= hash.0);
                }
                Ok(
                    EntryMetadata {
                        hash: row.hash,
                        byte_len: row.byte_len,
                        built_at_rev: row.built_at_rev,
                        source_narhash: copy_text(&row.source_narhash),
                    },
                )
            },
            None => Err(Error::UnknownHash(hash)),
        }
    }
}

} // verus!
