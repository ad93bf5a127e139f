//! Filesystem layout conventions for an arca directory.
//!
//! Default root: `$HOME/.arca/`.
//!
//! ```text
//! ~/.arca/
//!   <hex-hash>/                  # one subdirectory per entry
//!     bin/<name>                 # executables (rpath into sibling /lib)
//!     lib/<libX>.so              # shared libs (rpath absolute into arca)
//!     share/...                  # data files
//!   index.redb                   # hash → { path, metadata, reachability }
//! ```
//!
//! Paths are held as text. Paths inside an entry are normal unix; the entry
//! as a whole is addressed by its blake3, printed in lowercase hexadecimal.
use vstd::prelude::*;

use crate::hash::{hex_encode, lemma_hex_round_trip, StoreEntryHash};

verus! {

/// File name of the index database inside a store root.
pub const INDEX_DB_FILE: &'static str = "index.redb";

/// Name of the store directory inside a user's home directory.
pub const STORE_DIR_NAME: &'static str = ".arca";

/// Directory used in place of the home directory when none is known.
pub const FALLBACK_BASE: &'static str = ".";

/// The path of the relative `component` inside the directory `base`, as
/// `Path::join` forms it: the component alone when `base` is empty, else
/// `base` and the component with one `/` between them.
pub open spec fn join_path(base: Seq<char>, component: Seq<char>) -> Seq<char> {
    if base.len() == 0 {
        component
    } else if base.last() == '/' {
        base + component
    } else {
        base + seq!['/'] + component
    }
}

/// A joined path starts with the directory and ends with the component; when
/// the directory is not empty, the character just before the component is a
/// `/`, and at most one character is added between the two.
pub proof fn lemma_join_path_shape(base: Seq<char>, component: Seq<char>)
    ensures
        join_path(base, component).take(base.len() as int) == base,
        join_path(base, component).skip(
            join_path(base, component).len() - component.len(),
        ) == component,
        base.len() > 0 ==> join_path(base, component)[join_path(base, component).len()
            - component.len() - 1] == '/',
        join_path(base, component).len() == base.len() + component.len() + if base.len() > 0
            && base.last() != '/' {
            1int
        } else {
            0int
        },
{
    let p = join_path(base, component);
    assert(p.take(base.len() as int) =~= base);
    assert(p.skip(p.len() - component.len()) =~= component);
}

/// Joining a component to a directory keeps the component: two components
/// joined to the same directory give the same path only when they are equal.
pub proof fn lemma_join_path_injective(base: Seq<char>, a: Seq<char>, b: Seq<char>)
    requires
        join_path(base, a) == join_path(base, b),
    ensures
        a == b,
{
    let pa = join_path(base, a);
    let pb = join_path(base, b);
    let n = if base.len() == 0 {
        0
    } else if base.last() == '/' {
        base.len()
    } else {
        base.len() + 1
    };
    assert(a =~= pa.skip(n as int));
    assert(b =~= pb.skip(n as int));
}

/// Hash is canonical identity: entries with different hashes live at
/// different paths under a root.
pub proof fn lemma_entry_paths_distinct(root: Seq<char>, a: StoreEntryHash, b: StoreEntryHash)
    requires
        join_path(root, hex_encode(a@)) == join_path(root, hex_encode(b@)),
    ensures
        a@ == b@,
{
    lemma_join_path_injective(root, hex_encode(a@), hex_encode(b@));
    lemma_hex_round_trip(a@);
    lemma_hex_round_trip(b@);
}

fn join_component(base: &str, component: &str) -> (p: String)
    ensures
        p@ == join_path(base@, component@),
{
    let mut p = base.to_owned();
    let n = base.unicode_len();
    if n > 0 && base.get_char(n - 1) != '/' {
        proof {
            reveal_strlit("/");
        }
        p.append("/");
    }
    p.append(component);
    p
}

/// Root of an arca directory.
#[derive(Clone, Debug)]
pub struct StoreRoot(pub String);

/// A resolved filesystem path inside arca (entry root, bin, lib, or leaf).
/// Kept distinct from bare text so the type surface distinguishes
/// arca-resolved paths from arbitrary ones.
#[derive(Clone, Debug)]
pub struct StorePath(pub String);

impl StoreRoot {
    /// The default root: `<home>/.arca`, where `home` is the user's home
    /// directory (`$HOME`); falls back to `./.arca` when it is unknown.
    pub fn default_for_user(home: Option<String>) -> (r: Self)
        ensures
            r.0@ == join_path(
                match home {
                    Some(h) => h@,
                    None => FALLBACK_BASE@,
                },
                STORE_DIR_NAME@,
            ),
    {
        let base = match home {
            Some(h) => h,
            None => FALLBACK_BASE.to_owned(),
        };
        StoreRoot(join_component(base.as_str(), STORE_DIR_NAME))
    }

    /// Path to the subdirectory that holds a given entry's tree.
    pub fn entry_tree(&self, hash: StoreEntryHash) -> (p: String)
        ensures
            p@ == join_path(self.0@, hex_encode(hash@)),
    {
        let hex = hash.to_hex();
        join_component(self.0.as_str(), hex.as_str())
    }

    /// Path to the index DB file.
    pub fn index_db_path(&self) -> (p: String)
        ensures
            p@ == join_path(self.0@, INDEX_DB_FILE@),
    {
        join_component(self.0.as_str(), INDEX_DB_FILE)
    }

    /// Does this store root exist and look valid, given what the filesystem
    /// says of the root directory and of the index file?
    ///
    /// Valid = the root directory exists AND the index DB file exists. A
    /// store with no entries but an empty index is still valid; a store with
    /// entries but no index is not.
    pub fn store_exists(&self, root_is_dir: bool, index_db_is_file: bool) -> (valid: bool)
        ensures
            valid == (root_is_dir && index_db_is_file),
    {
        root_is_dir && index_db_is_file
    }
}

impl StorePath {
    /// The path as text.
    pub fn as_path(&self) -> (p: &str)
        ensures
            p@ == self.0@,
    {
        self.0.as_str()
    }
}

} // verus!
