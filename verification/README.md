# arca

A content-addressed store for artifact trees, hashed by blake3, written in
Verus.

- `src/` — the verified library: hashes and their hexadecimal form
  (`hash`), path layout (`layout`), the in-memory object store and the
  `Store` trait (`store`), the index model (`index`), the reader and writer
  handles (`reader`, `writer`), bundling types (`bundle`) and errors
  (`error`).
- `app/` — the `arca-daemon` binary: reads the environment and the
  filesystem and hands the library plain values.
- `tests/` — tests run against the compiled library.
