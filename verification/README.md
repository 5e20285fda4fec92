# dindex

Compact storage of many versions of text files, with its behaviour proved in Verus.

A `DIndex` keeps the distinct lines of every stored version of a file in one
line table, and for each version a key: a list of line ranges that, joined by
newlines, rebuild the version. Versions are identified by the SHA-256 digest of
their text and chained to their predecessor and successor. Several indexes are
stored together, compressed, in a `DPack`; a `DPackIndex` records which pack
holds which index. Snapshots record the version of every file of a directory
tree and are themselves stored as versions of a snapshot index.

## Layout

- `src/` — the verified library.
  - `dindex` — the index, its stored form and the laws that relate them
    (a read gives back what an insert wrote, reading back the stored form
    gives the index, inserting keeps every earlier version).
  - `dpack_manager` — packs, the pack index and the choice of the pack that
    takes new indexes.
  - `snap_manager` — snapshots and their text form.
  - `index_manager`, `blob_manager` — one compressed file per index or per blob version.
  - `manager` — a plain line table keyed by line ranges.
  - `text`, `codec`, `hex_text` — splitting and joining text, reading and
    writing bytes, hex text.
  - `digest`, `compression` — SHA-256 (`sha2`) and zstd (`zstd`), behind
    small trusted wrappers.
- `app/` — the command line (`indexer`, `snap`, `re`) and the file system
  work around the library.
- `tests/` — tests of the library.
