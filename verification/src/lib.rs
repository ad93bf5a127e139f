//! arca — content-addressed filesystem for artifact trees.
//!
//! An analogue to the nix-store, hashed by blake3. Holds real unix files
//! and directory trees under hash-derived paths, organised into stores under
//! `~/.arca/<store>/`.
//!
//! This library holds the reader API, the on-disk layout, the index model
//! and an in-memory content-addressed store. Each operation's contract is
//! stated over a mathematical model: the store as a map from hash to
//! (kind, bytes), the index as a sequence of rows, paths and hashes as
//! texts. The filesystem and the index database are read by the caller,
//! which hands the library plain values.
//!
//! # Design invariants
//!
//! - Identity is blake3 of the canonical content.
//! - The index maps `StoreEntryHash → { path, metadata, reachability }`;
//!   it does not contain the files.
//! - Writes go through `StoreWriter`; reads go through `StoreReader`.
pub mod bundle;
pub mod error;
pub mod hash;
pub mod index;
pub mod layout;
pub mod reader;
pub mod store;
pub mod writer;

pub use error::Error;
pub use hash::StoreEntryHash;
pub use reader::StoreReader;
pub use store::{content_hash, ContentHash, MemoryStore, Store};
pub use writer::StoreWriter;
