//! Bundle a `/nix/store` output into arca.
//!
//! During the bootstrap era, most artifacts enter arca via this path:
//! the writer walks a nix build's output closure, rewrites RPATHs from
//! `/nix/store/.../lib` to absolute arca paths, strips timestamps and other
//! non-determinism so the bundle is bit-reproducible, and hands the
//! canonicalised tree to `StoreWriter::put_tree`.
use vstd::prelude::*;

use crate::error::Error;
use crate::hash::StoreEntryHash;

verus! {

/// A closure of nix-store paths to be bundled in together. The root path
/// is typically the build output; dependency paths are the transitive
/// closure that RPATHs point at.
#[derive(Clone, Debug)]
pub struct NixClosure<'a> {
    pub root: &'a str,
    pub deps: Vec<&'a str>,
    pub source_narhash: Option<String>,
}

/// Bundle step — takes a nix-store closure, produces an arca entry.
/// Implemented by the privileged writer.
pub trait BundleFromNix {
    fn bundle(&mut self, closure: NixClosure<'_>) -> Result<StoreEntryHash, Error>;
}

/// Deterministic-bundling policy — what to normalise before hashing.
#[derive(Clone, Copy, Debug, Default)]
pub struct BundlePolicy {
    /// Reset atime/mtime/ctime to a fixed epoch.
    pub normalise_timestamps: bool,
    /// Strip build-id from ELF `.note.gnu.build-id`.
    pub strip_build_id: bool,
    /// Rewrite RPATHs to absolute arca paths.
    pub rewrite_rpath: bool,
}

impl BundlePolicy {
    /// Sensible defaults for Linux ELF bundling: normalise everything.
    pub fn linux_default() -> (p: Self)
        ensures
            p.normalise_timestamps,
            p.strip_build_id,
            p.rewrite_rpath,
    {
        Self { normalise_timestamps: true, strip_build_id: true, rewrite_rpath: true }
    }
}

} // verus!
