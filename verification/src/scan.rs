//! The scanner's decisions.
//!
//! A scan walks a cache directory; the walk itself (listing directories,
//! reading metadata and files) is done by the caller, which asks this state
//! what to do at each step and hands back what it read. The state decides the
//! bounds, classifies files, parses what was read, and finally turns the
//! collected evidence into a `CacheReport`.

use vstd::prelude::*;
use crate::text::{
    chars_of, contains, contains_str, copy_chars, decimal, ends_with, ends_with_str, eq_chars,
    eq_str, find_char, lemma_text_lt_asymmetric, push_chars, push_decimal, push_str,
    record_sep, split_by, split_pieces, starts_with, starts_with_str, string_from_chars, texts,
};
use crate::order::{key_lt, lemma_key_lt_order};
use crate::index::{IndexRecord, RecordModel, index_record, parse_index_line, record_model, records};
use crate::lockfile::{locked_packages, parse_lockfile};
use crate::report::{CacheReport, ConfigSummary, LockfileSummary, SCHEMA_VERSION, ScanOptions};
use crate::order::{is_stable_order, key_view, positions, stable_order, stable_order_exec};
use crate::finish::{
    LockCheck, Observation, add_finding_pair, add_findings_exec, artifacts_of, check_packages,
    check_stale, count_verified_exec, digest_planned, final_report, findings_of, first_match_exec,
    file_name_exec, has_artifact_exec, has_record_exec, notes_exec, observation_model,
    observation_models, observe_all, observe_exec, read_model, sort_artifacts, sort_observations,
    sort_texts_exec, strings_of,
};
use crate::report::ArtifactModel;
use crate::laws::{law_report_consistent, report_consistent};

verus! {

/// Largest number of filesystem entries a scan visits.
pub const MAX_SCAN_FILES: usize = 512;

/// Largest number of errors a report keeps.
pub const MAX_ERRORS: usize = 32;

/// Largest number of findings a report keeps.
pub const MAX_FINDINGS: usize = 512;

/// Largest artifact that is hashed, in bytes.
pub const MAX_ARTIFACT_HASH_BYTES: u64 = 67108864;

/// Largest configuration, lockfile or index file that is read, in bytes.
pub const MAX_METADATA_FILE_BYTES: u64 = 1048576;

// ---------------------------------------------------------------------------
// Models and rules
// ---------------------------------------------------------------------------

/// The lockfile a scan has read.
pub struct LockModel {
    pub path: Seq<char>,
    pub packages: Seq<(Seq<char>, Seq<char>)>,
    pub modified: Option<i128>,
}

/// What a scan has collected so far.
pub struct ScanModel {
    pub root: Seq<char>,
    pub offline: bool,
    pub scan_count: usize,
    pub errors: Seq<Seq<char>>,
    pub findings: Seq<(Seq<char>, Seq<char>)>,
    pub index: Seq<RecordModel>,
    pub artifacts: Seq<(Seq<char>, u64)>,
    pub lockfile: Option<LockModel>,
    pub source_replacement: bool,
    pub credentials: bool,
    pub auth_assumptions: Seq<Seq<char>>,
    pub index_mtimes: Seq<(Seq<char>, Option<i128>)>,
}

/// A path as reports show it: backslashes become slashes, and the empty
/// path is `.`.
pub open spec fn display_text(lossy: Seq<char>) -> Seq<char> {
    let r = lossy.map_values(|c: char| if c == '\\' { '/' } else { c });
    if r.len() == 0 {
        "."@
    } else {
        r
    }
}

/// `errors` with `e` added, unless it already holds `MAX_ERRORS` errors.
pub open spec fn capped_errors(errors: Seq<Seq<char>>, e: Seq<char>) -> Seq<Seq<char>> {
    if errors.len() < MAX_ERRORS {
        errors.push(e)
    } else {
        errors
    }
}

/// `findings` with one added, unless it already holds `MAX_FINDINGS`.
pub open spec fn capped_findings(
    findings: Seq<(Seq<char>, Seq<char>)>,
    f: (Seq<char>, Seq<char>),
) -> Seq<(Seq<char>, Seq<char>)> {
    if findings.len() < MAX_FINDINGS {
        findings.push(f)
    } else {
        findings
    }
}

/// `m` with the error `e` recorded.
pub open spec fn with_error(m: ScanModel, e: Seq<char>) -> ScanModel {
    ScanModel { errors: capped_errors(m.errors, e), ..m }
}

/// The error for a scan that reached its bound.
pub open spec fn scan_bound_message() -> Seq<char> {
    "scan exceeds "@ + decimal(MAX_SCAN_FILES as nat) + " filesystem entries"@
}

/// A filesystem operation that failed.
#[derive(Debug, Clone, PartialEq, Eq)]
pub enum FsOperation {
    /// Listing the directory at this relative path.
    ReadDir(String),
    /// Reading one entry of a directory listing.
    ReadDirEntry,
    /// Reading the metadata of this relative path.
    Metadata(String),
}

/// How the error for a failed operation begins.
pub open spec fn operation_text(op: FsOperation) -> Seq<char> {
    match op {
        FsOperation::ReadDir(p) => "read_dir "@ + display_text(p@),
        FsOperation::ReadDirEntry => "read_dir entry"@,
        FsOperation::Metadata(p) => "metadata "@ + display_text(p@),
    }
}

/// The error recorded for a failed read: what was attempted, then the
/// operating system's message.
pub open spec fn failure_message(operation: Seq<char>, error: Seq<char>) -> Seq<char> {
    operation + ": "@ + error
}

/// What the caller is asked to do with a file.
#[derive(Debug, Clone, Copy, PartialEq, Eq)]
pub enum FileAction {
    /// Nothing.
    Skip,
    /// Nothing: a credentials file, whose presence is recorded and whose
    /// contents are never read.
    Credentials,
    /// Nothing now: a `.crate` artifact, recorded for hashing at the end.
    Artifact,
    /// Read it (bounded) and hand it to `inspect_config`.
    ReadConfig,
    /// Read it (bounded) and hand it to `record_lockfile`.
    ReadLockfile,
    /// Read its modification time and contents (bounded) and hand them to
    /// `inspect_index`.
    ReadIndex,
}

/// Whether a relative path lies in a registry index or its cache.
pub open spec fn in_index_tree(relative: Seq<char>) -> bool {
    ||| starts_with(relative, "index/"@)
    ||| contains(relative, "/index/"@)
    ||| starts_with(relative, ".cache/"@)
    ||| contains(relative, "/.cache/"@)
}

/// What to do with the file `name` at `relative`.
pub open spec fn file_action(m: ScanModel, name: Seq<char>, relative: Seq<char>) -> FileAction {
    if name == "credentials"@ || name == "credentials.toml"@ {
        FileAction::Credentials
    } else if name == "config"@ || name == "config.toml"@ {
        FileAction::ReadConfig
    } else if name == "Cargo.lock"@ && m.lockfile is None {
        FileAction::ReadLockfile
    } else if ends_with(name, ".crate"@) {
        FileAction::Artifact
    } else if in_index_tree(display_text(relative)) {
        FileAction::ReadIndex
    } else {
        FileAction::Skip
    }
}

/// The note recorded when configuration mentions a registry or a source.
pub open spec fn auth_note() -> Seq<char> {
    "registry or source configuration may require authentication; credential values were not read"@
}

/// `m` after reading configuration text `c`.
pub open spec fn config_update(m: ScanModel, c: Seq<char>) -> ScanModel {
    ScanModel {
        source_replacement: m.source_replacement || contains(c, "replace-with"@) || contains(
            c,
            "[source."@,
        ),
        auth_assumptions: if (contains(c, "registry"@) || contains(c, "source"@))
            && !m.auth_assumptions.contains(auth_note()) {
            m.auth_assumptions.push(auth_note())
        } else {
            m.auth_assumptions
        },
        ..m
    }
}

/// The key an index record is found by.
pub open spec fn record_key(r: RecordModel) -> (Seq<char>, Seq<char>) {
    (r.name, r.version)
}

/// The index, ordered by key with no key twice, as a `BTreeMap` holds it.
pub open spec fn index_sorted(idx: Seq<RecordModel>) -> bool {
    forall|i: int, j: int|
        0 <= i < j < idx.len() ==> key_lt(record_key(#[trigger] idx[i]), record_key(#[trigger] idx[j]))
}

/// `idx` with `r` inserted by key, replacing a record with the same key, as
/// `BTreeMap::insert` does.
pub open spec fn index_insert(idx: Seq<RecordModel>, r: RecordModel) -> Seq<RecordModel>
    decreases idx.len(),
{
    if idx.len() == 0 {
        seq![r]
    } else if record_key(idx[0]) == record_key(r) {
        seq![r] + idx.drop_first()
    } else if key_lt(record_key(r), record_key(idx[0])) {
        seq![r] + idx
    } else {
        seq![idx[0]] + index_insert(idx.drop_first(), r)
    }
}

/// The records that the lines `lines` hold, in order.
pub open spec fn records_of(lines: Seq<Seq<char>>) -> Seq<RecordModel>
    decreases lines.len(),
{
    if lines.len() == 0 {
        Seq::empty()
    } else {
        match index_record(lines.last()) {
            Some(r) => records_of(lines.drop_last()).push(r),
            None => records_of(lines.drop_last()),
        }
    }
}

/// `idx` with `recs` inserted one after another.
pub open spec fn insert_all(idx: Seq<RecordModel>, recs: Seq<RecordModel>) -> Seq<RecordModel>
    decreases recs.len(),
{
    if recs.len() == 0 {
        idx
    } else {
        index_insert(insert_all(idx, recs.drop_last()), recs.last())
    }
}

/// `m` after reading index file `rel` with text `c`.
pub open spec fn index_update(m: ScanModel, rel: Seq<char>, c: Seq<char>) -> ScanModel {
    let recs = records_of(split_by(c, record_sep()));
    ScanModel {
        index: insert_all(m.index, recs),
        findings: if recs.len() == 0 && c.contains('{') {
            capped_findings(
                m.findings,
                (
                    "malformed_metadata"@,
                    "index file "@ + rel + " contained no readable package records"@,
                ),
            )
        } else {
            m.findings
        },
        ..m
    }
}

/// A scan of `root` (its lossy text) that has collected nothing yet.
pub open spec fn initial_scan(root: Seq<char>, offline: bool) -> ScanModel {
    ScanModel {
        root: display_text(root),
        offline,
        scan_count: 0,
        errors: Seq::empty(),
        findings: Seq::empty(),
        index: Seq::empty(),
        artifacts: Seq::empty(),
        lockfile: None,
        source_replacement: false,
        credentials: false,
        auth_assumptions: Seq::empty(),
        index_mtimes: Seq::empty(),
    }
}

/// `m` after checking that its root exists and is a directory.
pub open spec fn after_root_check(m: ScanModel, exists: bool, is_dir: bool) -> ScanModel {
    if !exists {
        with_error(m, "cache root "@ + m.root + " does not exist"@)
    } else if !is_dir {
        with_error(m, "cache root "@ + m.root + " is not a directory"@)
    } else {
        m
    }
}

/// `m` after asking to visit a directory entry.
pub open spec fn after_entry(m: ScanModel) -> ScanModel {
    if m.scan_count < MAX_SCAN_FILES {
        ScanModel { scan_count: (m.scan_count + 1) as usize, ..m }
    } else {
        with_error(m, scan_bound_message())
    }
}

/// `m` after classifying the file `name` at `relative`, of `bytes` bytes.
pub open spec fn after_file(m: ScanModel, name: Seq<char>, relative: Seq<char>, bytes: u64) -> ScanModel {
    match file_action(m, name, relative) {
        FileAction::Credentials => ScanModel { credentials: true, ..m },
        FileAction::Artifact => ScanModel {
            artifacts: m.artifacts.push((display_text(relative), bytes)),
            ..m
        },
        _ => m,
    }
}

/// What a bounded read handed back: the text, or the error's message.
pub open spec fn read_text(r: Result<String, String>) -> Result<Seq<char>, Seq<char>> {
    match r {
        Ok(t) => Ok(t@),
        Err(e) => Err(e@),
    }
}

/// `m` after reading the configuration file at `path`.
pub open spec fn after_config(m: ScanModel, path: Seq<char>, read: Result<Seq<char>, Seq<char>>) -> ScanModel {
    match read {
        Ok(c) => config_update(m, c),
        Err(e) => with_error(m, failure_message("read config "@ + display_text(path), e)),
    }
}

/// `m` after reading the lockfile at `relative`; only the first lockfile counts.
pub open spec fn after_lockfile(
    m: ScanModel,
    relative: Seq<char>,
    modified: Option<i128>,
    read: Result<Seq<char>, Seq<char>>,
) -> ScanModel {
    if m.lockfile is Some {
        m
    } else {
        match read {
            Ok(c) => ScanModel {
                lockfile: Some(
                    LockModel { path: display_text(relative), packages: locked_packages(c), modified },
                ),
                ..m
            },
            Err(e) => with_error(m, failure_message("read lockfile "@ + display_text(relative), e)),
        }
    }
}

/// `m` after reading the index file at `relative`: its modification time is
/// kept whether or not the read succeeded.
pub open spec fn after_index(
    m: ScanModel,
    relative: Seq<char>,
    modified: Option<i128>,
    read: Result<Seq<char>, Seq<char>>,
) -> ScanModel {
    let rel = display_text(relative);
    let seen = ScanModel { index_mtimes: m.index_mtimes.push((rel, modified)), ..m };
    match read {
        Ok(c) => index_update(seen, rel, c),
        Err(e) => with_error(seen, failure_message("read index "@ + rel, e)),
    }
}

/// The scan's bounds hold.
pub open spec fn within_bounds(m: ScanModel) -> bool {
    &&& m.scan_count <= MAX_SCAN_FILES
    &&& m.errors.len() <= MAX_ERRORS
    &&& m.findings.len() <= MAX_FINDINGS
    &&& index_sorted(m.index)
    &&& m.auth_assumptions.no_duplicates()
}

// ---------------------------------------------------------------------------
// Lemmas
// ---------------------------------------------------------------------------

/// Inserting at the position that the ordering picks: replace a record with
/// the same key, else insert; the index stays ordered.
pub proof fn lemma_index_insert_at(idx: Seq<RecordModel>, r: RecordModel, p: int)
    requires
        index_sorted(idx),
        0 <= p <= idx.len(),
        forall|i: int| 0 <= i < p ==> key_lt(record_key(#[trigger] idx[i]), record_key(r)),
        p < idx.len() ==> !key_lt(record_key(idx[p]), record_key(r)),
    ensures
        index_insert(idx, r) == if p < idx.len() && record_key(idx[p]) == record_key(r) {
            idx.update(p, r)
        } else {
            idx.insert(p, r)
        },
        index_sorted(index_insert(idx, r)),
    decreases p,
{
    if p == 0 {
        if idx.len() == 0 {
            assert(index_insert(idx, r) =~= idx.insert(0, r));
        } else if record_key(idx[0]) == record_key(r) {
            assert(index_insert(idx, r) =~= idx.update(0, r));
        } else {
            lemma_key_lt_order(record_key(idx[0]), record_key(r), record_key(r));
            assert(index_insert(idx, r) =~= idx.insert(0, r));
        }
    } else {
        let rest = idx.drop_first();
        lemma_key_lt_order(record_key(idx[0]), record_key(r), record_key(r));
        assert(index_sorted(rest)) by {
            assert forall|i: int, j: int| 0 <= i < j < rest.len() implies key_lt(
                record_key(#[trigger] rest[i]),
                record_key(#[trigger] rest[j]),
            ) by {
                assert(rest[i] == idx[i + 1]);
                assert(rest[j] == idx[j + 1]);
            }
        }
        assert forall|i: int| 0 <= i < p - 1 implies key_lt(record_key(#[trigger] rest[i]), record_key(r)) by {
            assert(rest[i] == idx[i + 1]);
        }
        lemma_index_insert_at(rest, r, p - 1);
        if p < idx.len() && record_key(idx[p]) == record_key(r) {
            assert(index_insert(idx, r) =~= idx.update(p, r));
        } else {
            assert(index_insert(idx, r) =~= idx.insert(p, r));
        }
    }
    let res = index_insert(idx, r);
    if p < idx.len() && record_key(idx[p]) == record_key(r) {
        assert forall|i: int, j: int| 0 <= i < j < res.len() implies key_lt(
            record_key(#[trigger] res[i]),
            record_key(#[trigger] res[j]),
        ) by {
            assert(record_key(res[i]) == record_key(idx[i]));
            assert(record_key(res[j]) == record_key(idx[j]));
        }
    } else {
        assert forall|i: int, j: int| 0 <= i < j < res.len() implies key_lt(
            record_key(#[trigger] res[i]),
            record_key(#[trigger] res[j]),
        ) by {
            if p < idx.len() {
                lemma_key_lt_order(record_key(idx[p]), record_key(r), record_key(r));
            }
            if i < p && j < p {
                assert(res[i] == idx[i] && res[j] == idx[j]);
            } else if i < p && j == p {
                assert(res[i] == idx[i]);
            } else if i < p {
                assert(res[i] == idx[i] && res[j] == idx[j - 1]);
                lemma_key_lt_order(record_key(idx[i]), record_key(r), record_key(idx[j - 1]));
                if j - 1 > p {
                    lemma_key_lt_order(record_key(r), record_key(idx[p]), record_key(idx[j - 1]));
                }
            } else if i == p {
                assert(res[j] == idx[j - 1]);
                if j - 1 > p {
                    lemma_key_lt_order(record_key(r), record_key(idx[p]), record_key(idx[j - 1]));
                }
            } else {
                assert(res[i] == idx[i - 1] && res[j] == idx[j - 1]);
            }
        }
    }
}

// ---------------------------------------------------------------------------
// State
// ---------------------------------------------------------------------------

struct LockfileScan {
    path: Vec<char>,
    packages: Vec<(Vec<char>, Vec<char>)>,
    modified: Option<i128>,
}

/// The evidence a scan has collected so far.
pub struct ScanState {
    root: Vec<char>,
    offline: bool,
    scan_count: usize,
    errors: Vec<Vec<char>>,
    findings: Vec<(Vec<char>, Vec<char>)>,
    index: Vec<IndexRecord>,
    artifacts: Vec<(Vec<char>, u64)>,
    lockfile: Option<LockfileScan>,
    source_replacement: bool,
    credentials: bool,
    auth_assumptions: Vec<Vec<char>>,
    index_mtimes: Vec<(Vec<char>, Option<i128>)>,
}

spec fn lock_model(l: Option<LockfileScan>) -> Option<LockModel> {
    match l {
        Some(l) => Some(
            LockModel {
                path: l.path@,
                packages: crate::order::key_view(l.packages@),
                modified: l.modified,
            },
        ),
        None => None,
    }
}

spec fn artifact_paths(v: Seq<(Vec<char>, u64)>) -> Seq<(Seq<char>, u64)> {
    v.map_values(|a: (Vec<char>, u64)| (a.0@, a.1))
}

spec fn mtimes(v: Seq<(Vec<char>, Option<i128>)>) -> Seq<(Seq<char>, Option<i128>)> {
    v.map_values(|a: (Vec<char>, Option<i128>)| (a.0@, a.1))
}

impl View for ScanState {
    type V = ScanModel;

    closed spec fn view(&self) -> ScanModel {
        ScanModel {
            root: self.root@,
            offline: self.offline,
            scan_count: self.scan_count,
            errors: texts(self.errors@),
            findings: crate::order::key_view(self.findings@),
            index: records(self.index@),
            artifacts: artifact_paths(self.artifacts@),
            lockfile: lock_model(self.lockfile),
            source_replacement: self.source_replacement,
            credentials: self.credentials,
            auth_assumptions: texts(self.auth_assumptions@),
            index_mtimes: mtimes(self.index_mtimes@),
        }
    }
}

/// The text whose characters are the bytes of `b`, one for one; texts made
/// this way compare as the bytes do, lexicographically.
pub open spec fn byte_text(b: Seq<u8>) -> Seq<char> {
    b.map_values(|x: u8| x as char)
}

/// Sort keys of directory entry names given as bytes.
pub open spec fn name_keys(names: Seq<Vec<u8>>) -> Seq<(Seq<char>, Seq<char>)> {
    names.map_values(|n: Vec<u8>| (byte_text(n@), Seq::<char>::empty()))
}

/// The names of directory entries as bytes.
pub open spec fn name_bytes(names: Seq<Vec<u8>>) -> Seq<Seq<u8>> {
    names.map_values(|n: Vec<u8>| n@)
}

/// The names, as bytes, in the order in which `entry_order` visits them.
pub open spec fn visit_order(names: Seq<Vec<u8>>) -> Seq<Seq<u8>> {
    stable_order(name_keys(names)).map_values(|i: int| names[i]@)
}

/// The order in which directory entries are visited: by name, compared as
/// bytes (as `OsString` compares on Unix), ties in listing order.
pub fn entry_order(names: &Vec<Vec<u8>>) -> (o: Vec<usize>)
    ensures
        positions(o@) == stable_order(name_keys(names@)),
        is_stable_order(name_keys(names@), positions(o@)),
{
    let ghost nk = name_keys(names@);
    let mut keys: Vec<(Vec<char>, Vec<char>)> = Vec::new();
    let mut i: usize = 0;
    while i < names.len()
        invariant
            nk == name_keys(names@),
            i <= names.len(),
            key_view(keys@) == nk.take(i as int),
        decreases names.len() - i,
    {
        let name = &names[i];
        let mut text: Vec<char> = Vec::new();
        let mut j: usize = 0;
        while j < name.len()
            invariant
                *name == names@[i as int],
                j <= name.len(),
                text@ == byte_text(name@.take(j as int)),
            decreases name.len() - j,
        {
            text.push(name[j] as char);
            assert(byte_text(name@.take(j + 1)) =~= byte_text(name@.take(j as int)).push(name@[j as int] as char));
            j = j + 1;
        }
        assert(name@.take(name.len() as int) =~= name@);
        let ghost before = keys@;
        keys.push((text, Vec::new()));
        assert(key_view(keys@) =~= nk.take(i + 1)) by {
            assert(key_view(keys@) =~= key_view(before).push((byte_text(names@[i as int]@), Seq::<char>::empty())));
        }
        i = i + 1;
    }
    assert(nk.take(names.len() as int) =~= nk);
    stable_order_exec(&keys)
}

/// The error for a file longer than the read bound.
pub open spec fn read_bound_message(limit: u64) -> Seq<char> {
    "file exceeds "@ + decimal(limit as nat) + " byte bound"@
}

/// Hold a read of `len` bytes to `limit`: within it, nothing to report;
/// beyond it, the error message.
pub fn check_read_bound(len: u64, limit: u64) -> (r: Result<(), String>)
    ensures
        len <= limit ==> r is Ok,
        len > limit ==> (r matches Err(e) && e@ == read_bound_message(limit)),
{
    if len > limit {
        let mut message = chars_of("file exceeds ");
        push_decimal(&mut message, limit);
        push_str(&mut message, " byte bound");
        return Err(string_from_chars(&message));
    }
    Ok(())
}

/// The path as reports show it.
pub fn display_path(lossy: &str) -> (r: Vec<char>)
    ensures
        r@ == display_text(lossy@),
{
    let s = chars_of(lossy);
    let mut r: Vec<char> = Vec::new();
    let mut i: usize = 0;
    while i < s.len()
        invariant
            i <= s.len(),
            r@ == s@.take(i as int).map_values(|c: char| if c == '\\' { '/' } else { c }),
        decreases s.len() - i,
    {
        let c = s[i];
        r.push(if c == '\\' { '/' } else { c });
        assert(s@.take(i + 1) =~= s@.take(i as int).push(c));
        assert(r@ =~= s@.take(i + 1).map_values(|c: char| if c == '\\' { '/' } else { c }));
        i = i + 1;
    }
    assert(s@.take(s.len() as int) =~= s@);
    if r.len() == 0 {
        return chars_of(".");
    }
    r
}

/// Whether a relative path lies in a registry index or its cache.
pub fn is_index_path(relative: &Vec<char>) -> (r: bool)
    ensures
        r == in_index_tree(relative@),
{
    starts_with_str(relative, "index/") || contains_str(relative, "/index/") || starts_with_str(
        relative,
        ".cache/",
    ) || contains_str(relative, "/.cache/")
}

fn push_error(errors: &mut Vec<Vec<char>>, e: Vec<char>)
    ensures
        texts(final(errors)@) == capped_errors(texts(old(errors)@), e@),
{
    if errors.len() < MAX_ERRORS {
        let ghost before = errors@;
        errors.push(e);
        assert(texts(errors@) =~= texts(before).push(e@));
    }
}

fn add_finding(findings: &mut Vec<(Vec<char>, Vec<char>)>, kind: &str, detail: Vec<char>)
    ensures
        crate::order::key_view(final(findings)@) == capped_findings(
            crate::order::key_view(old(findings)@),
            (kind@, detail@),
        ),
{
    if findings.len() < MAX_FINDINGS {
        let ghost before = findings@;
        let k = chars_of(kind);
        findings.push((k, detail));
        assert(crate::order::key_view(findings@) =~= crate::order::key_view(before).push(
            (kind@, detail@),
        ));
    }
}

/// `operation` followed by `": "` and `error`.
fn failure_text(mut operation: Vec<char>, error: &str) -> (r: Vec<char>)
    ensures
        r@ == failure_message(operation@, error@),
{
    let ghost op = operation@;
    push_str(&mut operation, ": ");
    push_str(&mut operation, error);
    assert(operation@ =~= op + ": "@ + error@);
    operation
}

impl ScanState {
    #[verifier::type_invariant]
    spec fn inv(self) -> bool {
        within_bounds(self@)
    }

    /// A scan of `root` (its lossy text) that has collected nothing yet.
    pub fn new(root: &str, options: &ScanOptions) -> (s: Self)
        ensures
            s@ == initial_scan(root@, options.offline),
    {
        let s = ScanState {
            root: display_path(root),
            offline: options.offline,
            scan_count: 0,
            errors: Vec::new(),
            findings: Vec::new(),
            index: Vec::new(),
            artifacts: Vec::new(),
            lockfile: None,
            source_replacement: false,
            credentials: false,
            auth_assumptions: Vec::new(),
            index_mtimes: Vec::new(),
        };
        assert(s@.errors =~= Seq::<Seq<char>>::empty());
        assert(s@.findings =~= Seq::<(Seq<char>, Seq<char>)>::empty());
        assert(s@.index =~= Seq::<RecordModel>::empty());
        assert(s@.artifacts =~= Seq::<(Seq<char>, u64)>::empty());
        assert(s@.auth_assumptions =~= Seq::<Seq<char>>::empty());
        assert(s@.index_mtimes =~= Seq::<(Seq<char>, Option<i128>)>::empty());
        s
    }

    /// Whether the root can be scanned; a missing root or one that is not a
    /// directory is recorded as an error.
    pub fn check_root(&mut self, exists: bool, is_dir: bool) -> (scan: bool)
        ensures
            scan == (exists && is_dir),
            final(self)@ == after_root_check(old(self)@, exists, is_dir),
    {
        proof {
            use_type_invariant(&*self);
        }
        if !exists {
            let mut message = chars_of("cache root ");
            push_chars(&mut message, &self.root);
            push_str(&mut message, " does not exist");
            self.record(message);
            false
        } else if !is_dir {
            let mut message = chars_of("cache root ");
            push_chars(&mut message, &self.root);
            push_str(&mut message, " is not a directory");
            self.record(message);
            false
        } else {
            true
        }
    }

    fn record(&mut self, message: Vec<char>)
        ensures
            final(self)@ == with_error(old(self)@, message@),
    {
        proof {
            use_type_invariant(&*self);
        }
        let mut errors = Vec::new();
        std::mem::swap(&mut errors, &mut self.errors);
        push_error(&mut errors, message);
        self.errors = errors;
    }

    /// Whether the next directory entry may be visited, counting it; at the
    /// entry bound the entry is left out and the bound is recorded as an
    /// error instead. The bound is only ever recorded here, where an entry is
    /// actually left out: listing a directory, even at the bound, records
    /// nothing.
    pub fn next_entry(&mut self) -> (go: bool)
        ensures
            go == (old(self)@.scan_count < MAX_SCAN_FILES),
            final(self)@ == after_entry(old(self)@),
    {
        proof {
            use_type_invariant(&*self);
        }
        if self.scan_count >= MAX_SCAN_FILES {
            let mut message = chars_of("scan exceeds ");
            push_decimal(&mut message, MAX_SCAN_FILES as u64);
            push_str(&mut message, " filesystem entries");
            self.record(message);
            false
        } else {
            self.scan_count = self.scan_count + 1;
            true
        }
    }

    /// Record that a filesystem operation failed with the message `error`.
    pub fn record_error(&mut self, operation: &FsOperation, error: &str)
        ensures
            final(self)@ == with_error(old(self)@, failure_message(operation_text(*operation), error@)),
    {
        proof {
            use_type_invariant(&*self);
        }
        let op = match operation {
            FsOperation::ReadDir(p) => {
                let mut t = chars_of("read_dir ");
                let d = display_path(p.as_str());
                push_chars(&mut t, &d);
                t
            },
            FsOperation::ReadDirEntry => chars_of("read_dir entry"),
            FsOperation::Metadata(p) => {
                let mut t = chars_of("metadata ");
                let d = display_path(p.as_str());
                push_chars(&mut t, &d);
                t
            },
        };
        let message = failure_text(op, error);
        self.record(message);
    }

    /// Classify the regular file `name` at `relative` (lossy texts) of
    /// `bytes` bytes, recording credentials presence and artifacts.
    pub fn scan_file(&mut self, name: &str, relative: &str, bytes: u64) -> (action: FileAction)
        ensures
            action == file_action(old(self)@, name@, relative@),
            final(self)@ == after_file(old(self)@, name@, relative@, bytes),
    {
        proof {
            use_type_invariant(&*self);
        }
        let n = chars_of(name);
        if eq_str(&n, "credentials") || eq_str(&n, "credentials.toml") {
            self.credentials = true;
            return FileAction::Credentials;
        }
        if eq_str(&n, "config") || eq_str(&n, "config.toml") {
            return FileAction::ReadConfig;
        }
        if eq_str(&n, "Cargo.lock") && self.lockfile.is_none() {
            return FileAction::ReadLockfile;
        }
        let rel = display_path(relative);
        if ends_with_str(&n, ".crate") {
            let mut artifacts = Vec::new();
            std::mem::swap(&mut artifacts, &mut self.artifacts);
            let ghost before = artifacts@;
            artifacts.push((rel, bytes));
            assert(artifact_paths(artifacts@) =~= artifact_paths(before).push(
                (display_text(relative@), bytes),
            ));
            self.artifacts = artifacts;
            return FileAction::Artifact;
        }
        if is_index_path(&rel) {
            return FileAction::ReadIndex;
        }
        FileAction::Skip
    }

    /// Take in what reading the configuration file at `path` (lossy text)
    /// gave: its text, or the read's error message.
    pub fn inspect_config(&mut self, path: &str, contents: Result<String, String>)
        ensures
            final(self)@ == after_config(old(self)@, path@, read_text(contents)),
    {
        proof {
            use_type_invariant(&*self);
        }
        match contents {
            Ok(c) => {
                let text = chars_of(c.as_str());
                if contains_str(&text, "replace-with") || contains_str(&text, "[source.") {
                    self.source_replacement = true;
                }
                if contains_str(&text, "registry") || contains_str(&text, "source") {
                    let mut note = Vec::new();
                    push_str(
                        &mut note,
                        "registry or source configuration may require authentication; credential values were not read",
                    );
                    let mut present = false;
                    let mut i: usize = 0;
                    while i < self.auth_assumptions.len()
                        invariant
                            i <= self.auth_assumptions.len(),
                            note@ == auth_note(),
                            present == texts(self.auth_assumptions@).take(i as int).contains(
                                auth_note(),
                            ),
                        decreases self.auth_assumptions.len() - i,
                    {
                        let ghost seen = texts(self.auth_assumptions@).take(i as int);
                        let ghost item = self.auth_assumptions@[i as int]@;
                        if eq_chars(&self.auth_assumptions[i], &note) {
                            present = true;
                        }
                        assert(texts(self.auth_assumptions@).take(i + 1) =~= seen.push(item));
                        assert(seen.push(item).contains(auth_note()) == (seen.contains(auth_note())
                            || item == auth_note())) by {
                            if seen.contains(auth_note()) {
                                let k = choose|k: int| 0 <= k < seen.len() && seen[k] == auth_note();
                                assert(seen.push(item)[k] == auth_note());
                            }
                            if item == auth_note() {
                                assert(seen.push(item)[seen.len() as int] == auth_note());
                            }
                            if seen.push(item).contains(auth_note()) {
                                let k = choose|k: int|
                                    0 <= k < seen.push(item).len() && seen.push(item)[k] == auth_note();
                                if k < seen.len() {
                                    assert(seen[k] == auth_note());
                                }
                            }
                        }
                        i = i + 1;
                    }
                    assert(texts(self.auth_assumptions@).take(i as int) =~= texts(
                        self.auth_assumptions@,
                    ));
                    if !present {
                        let mut notes = Vec::new();
                        std::mem::swap(&mut notes, &mut self.auth_assumptions);
                        let ghost before = notes@;
                        notes.push(note);
                        assert(texts(notes@) =~= texts(before).push(auth_note()));
                        assert(texts(notes@).no_duplicates()) by {
                            let t = texts(notes@);
                            assert forall|a: int, b: int| 0 <= a < t.len() && 0 <= b < t.len() && a != b implies t[a] != t[b] by {
                                if a == t.len() - 1 {
                                    assert(texts(before)[b] == t[b]);
                                } else if b == t.len() - 1 {
                                    assert(texts(before)[a] == t[a]);
                                } else {
                                    assert(texts(before)[a] == t[a] && texts(before)[b] == t[b]);
                                }
                            }
                        }
                        self.auth_assumptions = notes;
                    }
                }
            },
            Err(e) => {
                let mut op = chars_of("read config ");
                let d = display_path(path);
                push_chars(&mut op, &d);
                let message = failure_text(op, e.as_str());
                self.record(message);
            },
        }
    }

    /// Take in what reading the lockfile at `relative` (lossy text), last
    /// modified at `modified` (nanoseconds from the Unix epoch), gave: its
    /// text, or the read's error message. Only the first lockfile counts.
    pub fn record_lockfile(&mut self, relative: &str, modified: Option<i128>, contents: Result<String, String>)
        ensures
            final(self)@ == after_lockfile(old(self)@, relative@, modified, read_text(contents)),
    {
        proof {
            use_type_invariant(&*self);
        }
        if self.lockfile.is_some() {
            return;
        }
        let rel = display_path(relative);
        match contents {
            Ok(c) => {
                let text = chars_of(c.as_str());
                let packages = parse_lockfile(&text);
                self.lockfile = Some(LockfileScan { path: rel, packages, modified });
            },
            Err(e) => {
                let mut op = chars_of("read lockfile ");
                push_chars(&mut op, &rel);
                let message = failure_text(op, e.as_str());
                self.record(message);
            },
        }
    }

    /// Take in what reading the index file at `relative` (lossy text) gave:
    /// its modification time (nanoseconds from the Unix epoch), and its text
    /// or the read's error message.
    pub fn inspect_index(&mut self, relative: &str, modified: Option<i128>, contents: Result<String, String>)
        ensures
            final(self)@ == after_index(old(self)@, relative@, modified, read_text(contents)),
    {
        proof {
            use_type_invariant(&*self);
        }
        let rel = display_path(relative);
        let mut seen = Vec::new();
        std::mem::swap(&mut seen, &mut self.index_mtimes);
        let ghost before = seen@;
        seen.push((copy_chars(&rel), modified));
        assert(mtimes(seen@) =~= mtimes(before).push((rel@, modified)));
        self.index_mtimes = seen;
        match contents {
            Ok(c) => {
                let text = chars_of(c.as_str());
                let lines = split_pieces(&text, true);
                let ghost all = texts(lines@);
                let mut index: Vec<IndexRecord> = Vec::new();
                std::mem::swap(&mut index, &mut self.index);
                let ghost start = records(index@);
                let mut parsed: usize = 0;
                let mut i: usize = 0;
                assert(all.take(0) =~= Seq::<Seq<char>>::empty());
                while i < lines.len()
                    invariant
                        all == texts(lines@),
                        all == split_by(text@, record_sep()),
                        i <= lines.len(),
                        index_sorted(records(index@)),
                        records(index@) == insert_all(start, records_of(all.take(i as int))),
                        parsed == records_of(all.take(i as int)).len(),
                        parsed <= i,
                    decreases lines.len() - i,
                {
                    assert(all.take(i + 1).drop_last() =~= all.take(i as int));
                    assert(all.take(i + 1).last() == lines@[i as int]@);
                    let ghost recs = records_of(all.take(i as int));
                    match parse_index_line(&lines[i]) {
                        Some(r) => {
                            let ghost rm = record_model(r);
                            assert(records_of(all.take(i + 1)) == recs.push(rm));
                            assert(recs.push(rm).drop_last() =~= recs);
                            insert_record(&mut index, r);
                            parsed = parsed + 1;
                        },
                        None => {
                            assert(records_of(all.take(i + 1)) == recs);
                        },
                    }
                    i = i + 1;
                }
                assert(all.take(lines.len() as int) =~= all);
                self.index = index;
                if parsed == 0 && find_char(&text, '{').is_some() {
                    let mut detail = chars_of("index file ");
                    push_chars(&mut detail, &rel);
                    push_str(&mut detail, " contained no readable package records");
                    let mut findings = Vec::new();
                    std::mem::swap(&mut findings, &mut self.findings);
                    add_finding(&mut findings, "malformed_metadata", detail);
                    self.findings = findings;
                }
                proof {
                    if parsed == 0 {
                        text@.index_of_first_ensures('{');
                    }
                }
            },
            Err(e) => {
                let mut op = chars_of("read index ");
                push_chars(&mut op, &rel);
                let message = failure_text(op, e.as_str());
                self.record(message);
            },
        }
    }

    /// For each recorded artifact, whether it is to be read for its digest:
    /// it matches an index record and is within the hash bound.
    pub fn hash_plan(&self) -> (plan: Vec<bool>)
        ensures
            plan@.len() == self@.artifacts.len(),
            forall|i: int|
                0 <= i < plan@.len() ==> plan@[i] == digest_planned(self@.index, #[trigger] self@.artifacts[i]),
    {
        let mut plan: Vec<bool> = Vec::new();
        let mut i: usize = 0;
        while i < self.artifacts.len()
            invariant
                i <= self.artifacts.len(),
                plan@.len() == i,
                forall|j: int|
                    0 <= j < i ==> plan@[j] == digest_planned(self@.index, #[trigger] self@.artifacts[j]),
            decreases self.artifacts.len() - i,
        {
            let file = file_name_exec(&self.artifacts[i].0);
            let matched = first_match_exec(&self.index, &file);
            assert(self@.artifacts[i as int] == (self.artifacts@[i as int].0@, self.artifacts@[i as int].1));
            plan.push(matched.is_some() && self.artifacts[i].1 <= MAX_ARTIFACT_HASH_BYTES);
            i = i + 1;
        }
        plan
    }

    /// The report for what the scan collected, given what reading the
    /// artifacts for their digests handed back (`reads[i]` for artifact `i`,
    /// present exactly where `hash_plan` says so).
    pub fn finalize_report(self, reads: Vec<Option<Result<Vec<u8>, String>>>) -> (report: CacheReport)
        requires
            reads@.len() == self@.artifacts.len(),
            forall|i: int|
                0 <= i < reads@.len() ==> ((#[trigger] reads@[i]) is Some <==> digest_planned(
                    self@.index,
                    self@.artifacts[i],
                )),
        ensures
            report@ == final_report(self@, reads@.map_values(|r: Option<Result<Vec<u8>, String>>| read_model(r))),
            report_consistent(report@),
    {
        proof {
            use_type_invariant(&self);
        }
        let ghost m = self@;
        let ghost rm = reads@.map_values(|r: Option<Result<Vec<u8>, String>>| read_model(r));
        let ScanState {
            root,
            offline,
            scan_count,
            errors,
            findings,
            index,
            artifacts,
            lockfile,
            source_replacement,
            credentials,
            auth_assumptions,
            index_mtimes,
        } = self;
        let mut findings = findings;
        // Artifacts, in scan order.
        let mut observations: Vec<Observation> = Vec::new();
        let mut i: usize = 0;
        assert(m.artifacts.take(0) =~= Seq::<(Seq<char>, u64)>::empty());
        assert(observation_models(observations@) =~= Seq::<ArtifactModel>::empty());
        while i < artifacts.len()
            invariant
                m.index == records(index@),
                m.artifacts == artifact_paths(artifacts@),
                rm == reads@.map_values(|r: Option<Result<Vec<u8>, String>>| read_model(r)),
                reads@.len() == artifacts.len(),
                i <= artifacts.len(),
                (observation_models(observations@), key_view(findings@)) == observe_all(
                    m.index,
                    m.artifacts.take(i as int),
                    rm.take(i as int),
                    m.findings,
                ),
            decreases artifacts.len() - i,
        {
            assert(m.artifacts.take(i + 1).drop_last() =~= m.artifacts.take(i as int));
            assert(rm.take(i + 1).drop_last() =~= rm.take(i as int));
            assert(m.artifacts.take(i + 1).last() == (artifacts@[i as int].0@, artifacts@[i as int].1));
            assert(rm.take(i + 1).last() == read_model(reads@[i as int]));
            let (o, new) = observe_exec(&index, &artifacts[i].0, artifacts[i].1, &reads[i]);
            let ghost before = observations@;
            observations.push(o);
            assert(observation_models(observations@) =~= observation_models(before).push(observation_model(o)));
            add_findings_exec(&mut findings, &new);
            i = i + 1;
        }
        assert(m.artifacts.take(artifacts.len() as int) =~= m.artifacts);
        assert(rm.take(artifacts.len() as int) =~= rm);
        let ghost observed = observe_all(m.index, m.artifacts, rm, m.findings);
        let sorted = sort_observations(&observations);
        let ghost arts = sort_artifacts(observed.0);
        assert(observation_models(sorted@) == arts);
        // Lockfile packages and stale index files.
        let mut missing_artifact_count: usize = 0;
        let mut lockfile_package_count: usize = 0;
        let mut summary: Option<LockfileSummary> = None;
        match &lockfile {
            Some(l) => {
                let ghost pk = key_view(l.packages@);
                let ghost f0 = key_view(findings@);
                let mut missing_metadata: usize = 0;
                let mut missing_artifacts: usize = 0;
                let mut k: usize = 0;
                assert(pk.take(0) =~= Seq::<(Seq<char>, Seq<char>)>::empty());
                while k < l.packages.len()
                    invariant
                        m.index == records(index@),
                        index_sorted(m.index),
                        arts == observation_models(sorted@),
                        pk == key_view(l.packages@),
                        k <= l.packages.len(),
                        missing_metadata <= k,
                        missing_artifacts <= k,
                        check_packages(m.index, arts, pk.take(k as int), f0) == (LockCheck {
                            missing_metadata: missing_metadata as nat,
                            missing_artifacts: missing_artifacts as nat,
                            findings: key_view(findings@),
                        }),
                    decreases l.packages.len() - k,
                {
                    assert(pk.take(k + 1).drop_last() =~= pk.take(k as int));
                    let ghost p = pk[k as int];
                    assert(pk.take(k + 1).last() == p);
                    let name = &l.packages[k].0;
                    let version = &l.packages[k].1;
                    assert(p == (name@, version@));
                    if !has_record_exec(&index, name, version) {
                        missing_metadata = missing_metadata + 1;
                        let mut detail = chars_of("lockfile package ");
                        push_chars(&mut detail, name);
                        push_str(&mut detail, " ");
                        push_chars(&mut detail, version);
                        push_str(&mut detail, " is absent from the index");
                        add_finding_pair(&mut findings, (chars_of("missing_transitive_metadata"), detail));
                    }
                    if !has_artifact_exec(&sorted, name, version) {
                        missing_artifacts = missing_artifacts + 1;
                        let mut detail = chars_of("lockfile package ");
                        push_chars(&mut detail, name);
                        push_str(&mut detail, " ");
                        push_chars(&mut detail, version);
                        push_str(&mut detail, " has no cached artifact");
                        add_finding_pair(&mut findings, (chars_of("artifact_missing"), detail));
                    }
                    k = k + 1;
                }
                assert(pk.take(l.packages.len() as int) =~= pk);
                let ghost f1 = key_view(findings@);
                let ghost mt = mtimes(index_mtimes@);
                let mut j: usize = 0;
                assert(mt.take(0) =~= Seq::<(Seq<char>, Option<i128>)>::empty());
                while j < index_mtimes.len()
                    invariant
                        mt == mtimes(index_mtimes@),
                        j <= index_mtimes.len(),
                        key_view(findings@) == check_stale(mt.take(j as int), l.modified, f1),
                    decreases index_mtimes.len() - j,
                {
                    assert(mt.take(j + 1).drop_last() =~= mt.take(j as int));
                    assert(mt.take(j + 1).last() == (index_mtimes@[j as int].0@, index_mtimes@[j as int].1));
                    match (index_mtimes[j].1, l.modified) {
                        (Some(index_time), Some(lock_time)) => {
                            if index_time < lock_time {
                                let mut detail = chars_of("index file ");
                                push_chars(&mut detail, &index_mtimes[j].0);
                                push_str(&mut detail, " predates the lockfile");
                                add_finding_pair(&mut findings, (chars_of("stale_index"), detail));
                            }
                        },
                        _ => {},
                    }
                    j = j + 1;
                }
                assert(mt.take(index_mtimes.len() as int) =~= mt);
                missing_artifact_count = missing_artifacts;
                lockfile_package_count = l.packages.len();
                summary = Some(
                    LockfileSummary {
                        path: string_from_chars(&l.path),
                        package_count: l.packages.len(),
                        missing_metadata,
                        missing_artifacts,
                    },
                );
            },
            None => {},
        }
        if source_replacement && !credentials {
            add_finding_pair(
                &mut findings,
                (
                    chars_of("authentication_assumption"),
                    chars_of(
                        "source replacement is configured but no credentials file is present; values were not read",
                    ),
                ),
            );
        }
        let sorted_findings = crate::order::sorted_pairs(&findings);
        let sorted_errors = sort_texts_exec(&errors);
        let verified_artifact_count = count_verified_exec(&sorted);
        let notes = notes_exec(offline);
        let report = CacheReport {
            schema_version: SCHEMA_VERSION,
            ecosystem: string_from_chars(&chars_of("cargo")),
            root: string_from_chars(&root),
            offline,
            complete: errors.len() == 0,
            scan_count,
            artifact_count: sorted.len(),
            metadata_record_count: index.len(),
            lockfile_package_count,
            verified_artifact_count,
            missing_artifact_count,
            artifacts: artifacts_of(&sorted),
            lockfile: summary,
            config: ConfigSummary {
                source_replacement_detected: source_replacement,
                credentials_file_present: credentials,
                auth_assumptions: strings_of(&auth_assumptions),
            },
            findings: findings_of(&sorted_findings),
            errors: strings_of(&sorted_errors),
            notes: strings_of(&notes),
        };
        let ghost expected = final_report(m, rm);
        assert(report@.findings == expected.findings);
        assert(report@.artifacts == expected.artifacts);
        assert(report@.errors == expected.errors);
        assert(report@.notes == expected.notes);
        assert(report@.config == expected.config);
        assert(report@.lockfile == expected.lockfile);
        proof {
            assert(m.artifacts.len() == artifacts@.len());
            law_report_consistent(m, rm);
        }
        report
    }
}

/// Insert `r` into the ordered index, replacing a record with the same key.
fn insert_record(index: &mut Vec<IndexRecord>, r: IndexRecord)
    requires
        index_sorted(records(old(index)@)),
    ensures
        records(final(index)@) == index_insert(records(old(index)@), record_model(r)),
        index_sorted(records(final(index)@)),
{
    let ghost idx = records(index@);
    let ghost rk = record_key(record_model(r));
    let mut lo: usize = 0;
    let mut hi: usize = index.len();
    while lo < hi
        invariant
            idx == records(index@),
            index_sorted(idx),
            rk == record_key(record_model(r)),
            lo <= hi <= index.len(),
            forall|t: int| 0 <= t < lo ==> key_lt(record_key(#[trigger] idx[t]), rk),
            forall|t: int| hi <= t < index.len() ==> !key_lt(record_key(#[trigger] idx[t]), rk),
        decreases hi - lo,
    {
        let mid = lo + (hi - lo) / 2;
        let mk = (copy_chars(&index[mid].name), copy_chars(&index[mid].version));
        let k = (copy_chars(&r.name), copy_chars(&r.version));
        assert(record_key(idx[mid as int]) == (mk.0@, mk.1@));
        if crate::order::key_lt_exec(&mk, &k) {
            assert forall|t: int| 0 <= t <= mid implies key_lt(record_key(#[trigger] idx[t]), rk) by {
                if t < mid {
                    lemma_key_lt_order(record_key(idx[t]), record_key(idx[mid as int]), rk);
                }
            }
            lo = mid + 1;
        } else {
            assert forall|t: int| mid <= t < index.len() implies !key_lt(
                record_key(#[trigger] idx[t]),
                rk,
            ) by {
                if t > mid {
                    lemma_key_lt_order(record_key(idx[mid as int]), record_key(idx[t]), rk);
                }
            }
            hi = mid;
        }
    }
    proof {
        lemma_index_insert_at(idx, record_model(r), lo as int);
    }
    let same = lo < index.len() && eq_chars(&index[lo].name, &r.name) && eq_chars(
        &index[lo].version,
        &r.version,
    );
    if same {
        index.set(lo, r);
        assert(records(index@) =~= idx.update(lo as int, record_model(r)));
    } else {
        index.insert(lo, r);
        assert(records(index@) =~= idx.insert(lo as int, record_model(r)));
    }
}

} // verus!
