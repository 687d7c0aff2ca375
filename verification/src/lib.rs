//! Read-only evidence collection for offline Cargo cache diagnosis.
//!
//! The scanner never invokes Cargo, contacts a registry, or reads credential
//! values. It inspects filenames, bounded metadata files, lockfiles, and
//! artifact hashes, then reports what is present, absent, or unverifiable.
//!
//! The library holds the scanner's decisions and parsers: a caller walks the
//! filesystem, asking a `ScanState` what to do with each entry and handing
//! back what it read, then turns the state into a `CacheReport`.

pub mod text;
pub mod order;
pub mod digest;
pub mod index;
pub mod lockfile;
pub mod report;
pub mod scan;
pub mod finish;
pub mod laws;
pub mod outcomes;

pub use report::{
    ArtifactObservation, CacheReport, ConfigSummary, Finding, LockfileSummary, MAX_REPORT_BYTES,
    SCHEMA_VERSION, ScanOptions, bounded_report, explain_report,
};
pub use scan::{
    FileAction, FsOperation, MAX_ARTIFACT_HASH_BYTES, MAX_ERRORS, MAX_FINDINGS,
    MAX_METADATA_FILE_BYTES, MAX_SCAN_FILES, ScanState, check_read_bound, display_path,
    entry_order,
};
