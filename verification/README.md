# light_vector_db

A local-first vector database: fixed-dimension collections of embedding vectors
with cosine-similarity search, metadata filters, an exact or approximate index,
and a single-file binary format. It does not generate embeddings; the application
supplies them.

The library under `src/` is verified with Verus. What each function does is
stated in its contract, and what holds of the whole is stated and proved as
public proof functions:

- `src/float/` — single-precision arithmetic on bit patterns, correctly rounded.
  Numbers go in and out with `F32::from_bits` and `F32::to_bits`.
- `src/record.rs`, `src/records.rs` — records, metadata, and records by id.
- `src/distance.rs`, `src/ranking.rs`, `src/query.rs` — cosine similarity, the
  order of hits, exact search.
- `src/index/` — the `VectorIndex` trait, the exact index, and the approximate
  small-world graph.
- `src/storage/` — the `.lvdb` format: layout, writing, reading, checksums,
  quantization, and the proofs that what is written is read back, that damage is
  noticed, and that quantization loses little.
- `src/db.rs`, `src/mmap.rs` — the collection, and read-only search in place.
- `src/consistency.rs`, `src/exactness.rs`, `src/persistence.rs` — what holds of
  every collection, search and file.
- `src/cli.rs`, `src/text.rs` — the arguments of the command-line tool.

One thing is taken on trust: that `String::from_utf8` of the standard library
accepts exactly valid UTF-8 (`text_from_utf8` in `src/storage/wire.rs`).

The `lvdb` tool under `app/` does the rest: files, memory maps, JSON and printing.

```text
lvdb create  notes.lvdb --dim 3 --index hnsw
lvdb create  small.lvdb --dim 3 --encoding int8
lvdb insert  notes.lvdb --id 1 --vector 0.9,0.1,0 --text "the cat sat" --meta topic=animals
lvdb search  notes.lvdb --vector 0.85,0.15,0.05 -k 3
lvdb search  notes.lvdb --vector 0.85,0.15,0.05 --filter topic=animals --mmap
lvdb delete  notes.lvdb --id 1
lvdb compact notes.lvdb
lvdb stats   notes.lvdb
lvdb export  notes.lvdb notes.json
lvdb import  notes.json notes.lvdb
```
