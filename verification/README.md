# carsync

CarSync synchronises a source file or directory to a local or SSH
destination, deciding per file whether to copy by metadata or by SHA-256
checksum, and optionally carrying file data zstd-compressed or as a
block-level delta.

The library in `src/` is written in Verus: each function carries a
`requires`/`ensures` contract over mathematical models (sequences, integers,
spec functions), and the proof functions named `lemma_*` state properties
that hold across calls. `app/` is the command-line program around it: argument
parsing, the file system, SSH and `scp`, worker threads and the progress bar.

Modules of the library:

- `delta`: block signatures of a destination file and the plan of a delta
  transfer (which blocks are reused, which are sent).
- `digest`: SHA-256 checksums of contents and of blocks (via `sha2`).
- `compress`: a transfer of contents through zstd (via `zstd`).
- `remote`: `user@host:path` endpoints, remote path joins and shell quoting.
- `probe`: reading the output of `stat`, `sha256sum` and `find` run remotely.
- `dirs`: the remote directories to create before copying a tree.
- `posix_path`: the parent of a path, as `Path::parent` gives it on Unix.
- `hex`, `size`, `text`: hexadecimal decoding, human-readable sizes, and the
  character-level text handling the others build on.
- `plan`: the decisions of a synchronisation (what to check, copy, delete).
- `stats`: the counters of a synchronisation and how they merge.
