# cargo-machete-nk

Finds the dependencies that Rust packages declare and do not use, and takes them out of their
manifests if asked to.

- `src/` is the library. Verus proves every function in it against its contract.
- `app/` is the program around the library: command line, file system, threads.
- `tests/` runs the library on concrete values.

The library models paths by the rules of Unix: a path is a byte string, and its meaning is the
list of its components (`src/path.rs`).

Of what other crates compute, the library states what it relies on next to the call: BLAKE3
hashes and hexadecimal digits in `src/checksum.rs`, TOML documents in `src/manifest.rs`, random
identifiers in `src/db.rs`, and UTF-8 in `src/text.rs`.
