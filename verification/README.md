# suffix_fst

The sidecar formats of a suffix-indexed full-text segment, verified with Verus:
what each file holds, how it is written and read, how a segment's tokens are
collected, how a shard dictionary gives tokens their ids, and how the files of
several segments or generations are merged.

- `src/` is the library. Every function states what it returns; the byte layout
  of each file is a specification function, and public proof functions state
  what holds across functions, such as that a read gives back what was written.
- `tests/` runs the library on concrete values.
- `app/` is the ordinary Rust around it: directories, locks, threads, the
  environment, messages, and the engine that encodes the FST itself.

The FST is not part of the library. Where its contents matter, the library takes
them as terms in ascending order (`suffix_terms`), or calls a function that the
caller hands in.
