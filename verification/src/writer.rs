//! Writer-side API for arca.
//!
//! In-process only — lives inside the privileged writer, which validates
//! capability tokens before a `StoreWriter` is handed out. The writer reads
//! the tree, canonicalises it (normalised timestamps, stable orderings) and
//! moves it into place; the library decides its hash and what the index
//! records of it.
use vstd::prelude::*;

use crate::error::Error;
use crate::hash::StoreEntryHash;
use crate::index::{
    check_store, find_row, index_has, index_row, lemma_index_row, row_has_hash, rows_distinct, IndexRow, Reachability,
};
use crate::layout::StoreRoot;
use crate::store::{blake3_digest, content_hash};

verus! {

/// Write-side handle to an arca directory.
///
/// A writer is described by the path of its store root and by the rows of
/// the store's index.
pub trait StoreWriter: Send {
    /// The path of the store root.
    spec fn root_path(&self) -> Seq<char>;

    /// The rows of the store's index.
    spec fn rows(&self) -> Seq<IndexRow>;

    /// Place a tree under its blake3 hash.
    ///
    /// `canonical_tree` is the canonical encoding of the tree (normalised
    /// timestamps, stable orderings), so the hash is deterministic. The
    /// index records the new entry and the hash is returned. If the hash
    /// already exists, dedup wins and the input tree is discarded.
    fn put_tree(
        &mut self,
        canonical_tree: &[u8],
        source_narhash: Option<String>,
        built_at_rev: u64,
    ) -> (r: Result<StoreEntryHash, Error>)
        ensures
            match r {
                Ok(h) => {
                    &&& h@ == blake3_digest(canonical_tree@)
                    &&& put_tree_rows(
                        old(self).rows(),
                        final(self).rows(),
                        canonical_tree@,
                        source_narhash,
                        built_at_rev,
                    )
                },
                Err(_) => final(self).rows() == old(self).rows(),
            },
            final(self).root_path() == old(self).root_path(),
    ;

    /// Delete an entry. Typically criome-driven GC; requires a capability
    /// token (validated upstream of this call).
    fn delete(&mut self, hash: StoreEntryHash) -> (r: Result<(), Error>)
        ensures
            r is Ok ==> delete_rows(old(self).rows(), final(self).rows(), hash@),
            r is Err ==> final(self).rows() == old(self).rows(),
            !index_has(old(self).rows(), hash@) ==> r is Err,
            final(self).root_path() == old(self).root_path(),
    ;
}

/// `new` is the index after placing a tree whose canonical encoding is
/// `tree` into the index `old`: unchanged when an entry with blake3 of
/// `tree` is already indexed (dedup wins); else `old` with one more row at
/// the end, which records that hash, the encoding's length, the revision
/// and narhash given, and starts `Live` (the tree was written for a record
/// that references it).
pub open spec fn put_tree_rows(
    old: Seq<IndexRow>,
    new: Seq<IndexRow>,
    tree: Seq<u8>,
    source_narhash: Option<String>,
    built_at_rev: u64,
) -> bool {
    let h = blake3_digest(tree);
    if index_has(old, h) {
        new == old
    } else {
        &&& new.len() == old.len() + 1
        &&& new.drop_last() == old
        &&& new.last().hash@ == h
        &&& new.last().byte_len == tree.len()
        &&& new.last().built_at_rev == built_at_rev
        &&& new.last().source_narhash == source_narhash
        &&& new.last().reachability == Reachability::Live
    }
}

/// `new` is the index `old` without the row whose hash is `h`.
pub open spec fn delete_rows(old: Seq<IndexRow>, new: Seq<IndexRow>, h: Seq<u8>) -> bool {
    exists|i: int| row_has_hash(old, h, i) && new == old.remove(i)
}

/// Placing a tree indexes its hash and keeps the index valid.
pub proof fn lemma_put_tree_indexes(
    old: Seq<IndexRow>,
    new: Seq<IndexRow>,
    tree: Seq<u8>,
    source_narhash: Option<String>,
    built_at_rev: u64,
)
    requires
        rows_distinct(old),
        put_tree_rows(old, new, tree, source_narhash, built_at_rev),
    ensures
        index_has(new, blake3_digest(tree)),
        rows_distinct(new),
        forall|h: Seq<u8>| index_has(old, h) ==> index_has(new, h),
{
    let h = blake3_digest(tree);
    if !index_has(old, h) {
        assert(row_has_hash(new, h, new.len() - 1));
        assert forall|i: int, j: int| 0 <= i < j < new.len() implies new[i].hash@ != new[j].hash@ by {
            if j == new.len() - 1 {
                assert(old[i] == new[i]);
                if old[i].hash@ == h {
                    assert(row_has_hash(old, h, i));
                }
            } else {
                assert(old[i] == new[i] && old[j] == new[j]);
            }
        }
        assert forall|g: Seq<u8>| index_has(old, g) implies index_has(new, g) by {
            let i = choose|i: int| row_has_hash(old, g, i);
            assert(old[i] == new[i]);
            assert(row_has_hash(new, g, i));
        }
    }
}

/// Placing a tree that was not yet indexed records, under its blake3 hash,
/// the nix narhash and revision passed in, the length of its canonical
/// encoding, and `Live`: the metadata that a later lookup reads back.
pub proof fn lemma_put_tree_records_metadata(
    old: Seq<IndexRow>,
    new: Seq<IndexRow>,
    tree: Seq<u8>,
    source_narhash: Option<String>,
    built_at_rev: u64,
)
    requires
        rows_distinct(old),
        !index_has(old, blake3_digest(tree)),
        put_tree_rows(old, new, tree, source_narhash, built_at_rev),
    ensures
        index_has(new, blake3_digest(tree)),
        new.len() == old.len() + 1,
        index_row(new, blake3_digest(tree)).hash@ == blake3_digest(tree),
        index_row(new, blake3_digest(tree)).source_narhash == source_narhash,
        index_row(new, blake3_digest(tree)).byte_len == tree.len(),
        index_row(new, blake3_digest(tree)).built_at_rev == built_at_rev,
        index_row(new, blake3_digest(tree)).reachability == Reachability::Live,
        forall|i: int| 0 <= i < old.len() ==> new[i] == old[i],
{
    lemma_put_tree_indexes(old, new, tree, source_narhash, built_at_rev);
    lemma_index_row(new, new.len() - 1);
    assert forall|i: int| 0 <= i < old.len() implies new[i] == old[i] by {
        assert(new.drop_last()[i] == new[i]);
    }
}

/// Dedup wins: placing the same tree a second time changes nothing,
/// whatever revision or narhash comes with it.
pub proof fn lemma_put_tree_dedup(
    first: Seq<IndexRow>,
    second: Seq<IndexRow>,
    third: Seq<IndexRow>,
    tree: Seq<u8>,
    narhash_a: Option<String>,
    rev_a: u64,
    narhash_b: Option<String>,
    rev_b: u64,
)
    requires
        rows_distinct(first),
        put_tree_rows(first, second, tree, narhash_a, rev_a),
        put_tree_rows(second, third, tree, narhash_b, rev_b),
    ensures
        third == second,
{
    lemma_put_tree_indexes(first, second, tree, narhash_a, rev_a);
}

/// Deleting removes exactly the entry deleted, and keeps the index valid.
pub proof fn lemma_delete_removes(old: Seq<IndexRow>, new: Seq<IndexRow>, h: Seq<u8>)
    requires
        rows_distinct(old),
        delete_rows(old, new, h),
    ensures
        !index_has(new, h),
        rows_distinct(new),
        forall|g: Seq<u8>| g != h ==> (index_has(new, g) <==> index_has(old, g)),
{
    let i = choose|i: int| row_has_hash(old, h, i) && new == old.remove(i);
    assert forall|a: int, b: int| 0 <= a < b < new.len() implies new[a].hash@ != new[b].hash@ by {
        let a0 = if a < i { a } else { a + 1 };
        let b0 = if b < i { b } else { b + 1 };
        assert(new[a] == old[a0] && new[b] == old[b0]);
    }
    if index_has(new, h) {
        let k = choose|k: int| row_has_hash(new, h, k);
        let k0 = if k < i { k } else { k + 1 };
        assert(new[k] == old[k0]);
    }
    assert forall|g: Seq<u8>| g != h implies (index_has(new, g) <==> index_has(old, g)) by {
        if index_has(new, g) {
            let k = choose|k: int| row_has_hash(new, g, k);
            let k0 = if k < i { k } else { k + 1 };
            assert(new[k] == old[k0]);
            assert(row_has_hash(old, g, k0));
        }
        if index_has(old, g) {
            let k = choose|k: int| row_has_hash(old, g, k);
            assert(k != i);
            let k1 = if k < i { k } else { k - 1 };
            assert(new[k1] == old[k]);
            assert(row_has_hash(new, g, k1));
        }
    }
}

/// Deleting a freshly placed tree gives back the index as it was before.
pub proof fn lemma_delete_undoes_put_tree(
    before: Seq<IndexRow>,
    placed: Seq<IndexRow>,
    after: Seq<IndexRow>,
    tree: Seq<u8>,
    source_narhash: Option<String>,
    built_at_rev: u64,
)
    requires
        rows_distinct(before),
        !index_has(before, blake3_digest(tree)),
        put_tree_rows(before, placed, tree, source_narhash, built_at_rev),
        delete_rows(placed, after, blake3_digest(tree)),
    ensures
        after == before,
{
    let h = blake3_digest(tree);
    lemma_put_tree_indexes(before, placed, tree, source_narhash, built_at_rev);
    let i = choose|i: int| row_has_hash(placed, h, i) && after == placed.remove(i);
    if i < placed.len() - 1 {
        assert(placed[i] == before[i]);
        assert(row_has_hash(before, h, i));
    }
    assert(after =~= before);
}

/// Concrete writer over a store at `root`, holding the rows of its index.
///
/// Only one `StoreWriterHandle` should be alive per store root at a time;
/// enforcement is the writer process's responsibility.
pub struct StoreWriterHandle {
    root: StoreRoot,
    index: Vec<IndexRow>,
}

impl StoreWriterHandle {
    #[verifier::type_invariant]
    spec fn well_formed(self) -> bool {
        rows_distinct(self.index@)
    }

    /// Opens the store at `root` for writing, given whether the root is a
    /// valid store (see `StoreRoot::store_exists`) and the rows read from
    /// its index DB.
    ///
    /// Fails with `UninitialisedRoot` when the root is not a valid store,
    /// and with `Index` when two rows share a hash.
    pub fn open(root: StoreRoot, root_is_valid: bool, rows: Vec<IndexRow>) -> (r: Result<
        Self,
        Error,
    >)
        ensures
            !root_is_valid ==> (r matches Err(Error::UninitialisedRoot(p)) && p@ == root.0@),
            root_is_valid && !rows_distinct(rows@) ==> r matches Err(Error::Index(_)),
            root_is_valid && rows_distinct(rows@) ==> (r matches Ok(h) && h.root_path() == root.0@
                && h.rows() == rows@),
    {
        let (root, index) = check_store(root, root_is_valid, rows)?;
        Ok(StoreWriterHandle { root, index })
    }

    /// The rows of the index, for the writer to persist.
    pub fn index_rows(&self) -> (rows: &Vec<IndexRow>)
        ensures
            rows@ == self.rows(),
            rows_distinct(rows@),
    {
        proof {
            use_type_invariant(self);
        }
        &self.index
    }
}

impl StoreWriter for StoreWriterHandle {
    closed spec fn root_path(&self) -> Seq<char> {
        self.root.0@
    }

    closed spec fn rows(&self) -> Seq<IndexRow> {
        self.index@
    }

    fn put_tree(
        &mut self,
        canonical_tree: &[u8],
        source_narhash: Option<String>,
        built_at_rev: u64,
    ) -> (r: Result<StoreEntryHash, Error>)
        ensures
            r is Ok,
            index_has(final(self).rows(), blake3_digest(canonical_tree@)),
            !index_has(old(self).rows(), blake3_digest(canonical_tree@)) ==> {
                let row = index_row(final(self).rows(), blake3_digest(canonical_tree@));
                &&& row.source_narhash == source_narhash
                &&& row.byte_len == canonical_tree@.len()
                &&& row.built_at_rev == built_at_rev
                &&& row.reachability == Reachability::Live
            },
            index_has(old(self).rows(), blake3_digest(canonical_tree@)) ==> final(self).rows()
                == old(self).rows(),
    {
        proof {
            use_type_invariant(&*self);
        }
        let hash = StoreEntryHash(content_hash(canonical_tree));
        match find_row(&self.index, &hash) {
            Some(_) => {},
            None => {
                let row = IndexRow {
                    hash,
                    byte_len: canonical_tree.len() as u64,
                    built_at_rev,
                    source_narhash,
                    reachability: Reachability::Live,
                };
                let ghost before = self.index@;
                proof {
                    assert forall|j: int| 0 <= j < before.len() implies before[j].hash@ != hash@ by {
                        assert(row_has_hash(before, before[j].hash@, j));
                    }
                    assert(before.push(row).drop_last() =~= before);
                }
                let mut rows = Vec::new();
                std::mem::swap(&mut rows, &mut self.index);
                rows.push(row);
                self.index = rows;
            },
        }
        proof {
            use_type_invariant(&*self);
            if !index_has(old(self).rows(), hash@) {
                lemma_put_tree_records_metadata(
                    old(self).rows(),
                    self.index@,
                    canonical_tree@,
                    source_narhash,
                    built_at_rev,
                );
            } else {
                lemma_put_tree_indexes(
                    old(self).rows(),
                    self.index@,
                    canonical_tree@,
                    source_narhash,
                    built_at_rev,
                );
            }
        }
        Ok(hash)
    }

    fn delete(&mut self, hash: StoreEntryHash) -> (r: Result<(), Error>)
        ensures
            r is Ok <==> index_has(old(self).rows(), hash@),
            r matches Err(e) ==> e == Error::UnknownHash(hash),
    {
        proof {
            use_type_invariant(&*self);
        }
        match find_row(&self.index, &hash) {
            Some(i) => {
                let ghost before = self.index@;
                proof {
                    assert(row_has_hash(before, hash@, i as int));
                }
                let mut rows = Vec::new();
                std::mem::swap(&mut rows, &mut self.index);
                rows.remove(i);
                proof {
                    assert forall|a: int, b: int| 0 <= a < b < rows@.len() implies rows@[a].hash@
                        != rows@[b].hash@ by {
                        let a0 = if a < i { a } else { a + 1 };
                        let b0 = if b < i { b } else { b + 1 };
                        assert(rows@[a] == before[a0]);
                        assert(rows@[b] == before[b0]);
                    }
                }
                self.index = rows;
                Ok(())
            },
            None => Err(Error::UnknownHash(hash)),
        }
    }
}

} // verus!
