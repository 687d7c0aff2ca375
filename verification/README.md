# cache-doctor

Read-only evidence collection for offline Cargo cache diagnosis, written in
Verus. The scanner inspects filenames, bounded metadata files, lockfiles and
artifact hashes, and reports what is present, absent or unverifiable. It never
invokes Cargo, contacts a registry or reads credential values.

## Layout

- `src/` is the verified library.
  - `scan.rs`: `ScanState`, the scanner's decisions. A caller walking the
    filesystem asks it whether to visit each directory entry, what to
    do with each file, and hands back what it read. Its type invariant holds
    the entry, error and finding bounds, the ordered index and the
    once-only authentication note.
  - `finish.rs`: the report: artifacts matched to index records and their
    SHA-256 digests checked, lockfile packages checked against the index and
    the artifacts, stale index files found, everything sorted.
  - `report.rs`: the report types, their models, the text explanation and
    the bound on a serialized report.
  - `index.rs`, `lockfile.rs`: registry index records and `Cargo.lock`
    packages.
  - `digest.rs`: SHA-256 (through `sha2`) rendered as lowercase hex (through
    `hex`).
  - `order.rs`, `text.rs`: stable sorting by text keys and text utilities.
  - `laws.rs`: properties of every report and every scan step.
- `app/` is the command-line tool: the filesystem walk, JSON rendering with
  serde, and argument handling with clap.
- `tests/` runs the library on in-memory fixtures and on parsing inputs.
