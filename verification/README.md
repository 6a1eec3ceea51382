# gapped

Offline file synchronizer for systems without a network connection, with a
verified core.

A snapshot records the state of a directory tree. A diff bundles what changed
since a snapshot: metadata and file content, in one file or split over several of
limited size. Applying a diff on another machine brings its copy of the tree to
the new state; verifying a diff simulates that without writing.

## Layout

- `src/` is the library, written and proved in Verus. It does no I/O: files come
  in as bytes that are fed, and go out as bytes that are handed out.
  - `model/`: relative paths, entries, changes, and maps keyed by path.
  - `format/`: the file format. `writer` and `reader` are streaming; `checksum` and
    `compression` hold the contracts of XXH3-128 and Zstandard; `roundtrip` proves
    that what is written is read back.
  - `fs/`: turning what a walk finds into sorted entries, and hashes.
  - `commands/`: computing, splitting, reading, simulating, applying and verifying
    diffs. `sync`, `shape`, `phases`, `layout`, `sizes`, `readback` and `whole`
    prove what these promise together.
  - `parallel.rs`: the order in which files are read ahead.
- `app/` is the command line program: arguments, files, threads, system calls and
  MessagePack.
- `tests/` run the library on concrete values.

## What is proved

- A file that was written is read back record by record, a wrong checksum is
  refused with both checksums, and a file that was cut is found to be too short.
- The diff between two states leads from the old state to the new one, names only
  paths that differ, in their order, and does so in the order in which it is
  applied. Exchanging the states exchanges additions and removals.
- A diff that is split over files loses nothing, puts something into every file,
  and is put together again from its files. Before compression each file keeps to
  the size limit, checksum and all, where the limit leaves room for a header and
  any one change.
- Reading the changes of a diff does not look at file content.
- Verifying finds nothing exactly if the simulated state conforms to the expected
  one.
- The hash of a directory depends only on what lies below it.

What is trusted beyond the verifier: the contracts of `Xxh3` in
`src/format/checksum.rs` and of the streaming adapters of `zstd` in
`src/format/compression.rs`. Making an encoder or a decoder succeeds; nothing
promises that the encoder takes what is written or that the decoder takes a
stream. What one of them fails on is reported as such, and nothing else is.
