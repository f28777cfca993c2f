# oxen

The core logic of the Oxen data version control command-line tool, written in
Verus and verified: how file versions are encoded for the version store, the
index of files dropped offline, line blame, log paging, status reports, line
diffs, and the decisions of the `reset`, `cat` and `show` commands.

- `src/` is the verified library. Each module states its contracts over
  mathematical views (`Seq`, `Map`-like lookups, spec functions) and proves
  them; the public proof functions (`lemma_*`) state the laws that relate
  several operations, such as decoding what was encoded giving the content
  back (the decompressor is trusted to read back any frame the compressor
  wrote), or restoring a dropped file leaving the offline index as it was.
- Calls into `zstd`, `similar` and `xxhash-rust` sit behind small trusted
  wrappers whose doc comments say what is assumed of them. The version
  store's content hash is taken to be the lower-case hexadecimal XXH3-128
  digest of the content; the repository layer's own hasher is not part of
  this crate, so that choice is this crate's assumption.
- `tests/` runs the library on concrete scenarios.
- `app/` holds the command-line layer: argument parsing with `clap`, JSON
  output and files on disk. The commands talk to the repository (commit
  history, trees, staging area, version store) through the `Repository`
  trait, which `app/` declares but does not implement: that layer is not
  part of this crate, and `app/` has no `main`.
