# rustsptag

Building blocks of a SPANN/SPTAG-style approximate nearest-neighbour index,
verified with Verus.

- `src/` is the verified library: the byte layouts of the index file, posting
  lists, batch files, ball trees, graphs and the SPTAG-BKT index file, each with
  a proof that reading back what was written gives the same value; the
  deduplication table and the candidate gathering of searches; the integer
  steps of tree construction (grouping ids by cluster, splitting ids by a
  projection plane) and the head selection walk; ground-truth parsing and
  recall counting; the fields of the JSON settings file beside an index.
  Calls into zstd go through small trusted wrappers in
  `src/spann/compression.rs`, the JSON parse and field reads through
  small wrappers in `src/spann/meta.rs`, and the decimal form of the process id through one in
  `src/spann/batch.rs`.
- `app/` is ordinary Rust around it: floating-point distances, quantizers and
  k-means, the search and build loops that need them, file and direct I/O,
  and the async readers.
- `tests/` exercises the library on concrete values.
