# cntl

A small version control system with content-addressable storage. Objects
(blobs, trees, commits) are encoded in the postcard wire format, addressed by
their BLAKE3 hash and kept in SQLite databases.

Layout:

- `src/` — the verified library:
  - `wire.rs`: the object encoding, its decoders, and the round-trip and
    injectivity laws;
  - `object.rs`: object types, hashing, and loading stored objects by type;
  - `hex.rs`: hash rendering;
  - `order.rs`: byte-wise text order and sorting by name;
  - `config.rs`: argument checks, lookup precedence and listings of settings;
  - `status.rs`: binary detection and the changes between the working tree
    and HEAD;
  - `tree.rs`: walking stored trees and building trees from a directory,
    with the laws that tie the two together;
  - `commit.rs`: new commits, HEAD, and the history walk of the log;
  - `refs.rs`: HEAD as a symbolic ref to a branch, its resolution to a
    commit, and what a commit does to the refs;
  - `restore.rs`: what each restored file gets back from HEAD;
  - `diff.rs`: the per-file diff output;
  - `cli.rs`: the commands and what each asks for.
- `app/` — the program: argument parsing, databases, the file system, the
  clock, and the loops that load objects for the walks in `src/`.
- `tests/` — tests of the library, including a cross-check of the encoding
  against the `postcard` crate.
