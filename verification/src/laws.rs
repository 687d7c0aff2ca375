//! Properties that every report and every scan step has.

use vstd::prelude::*;
use crate::text::text_lt;
use crate::order::{
    key_lt, keys_sorted, lemma_key_lt_order, lemma_sorted_keys, lemma_sorted_keys_ignore_input_order,
    lemma_sorted_keys_same_elements, lemma_stable_order_exists, sorted_keys, stable_order,
    is_stable_order,
};
use crate::index::RecordModel;
use crate::digest::{hex_lower, sha256};
use crate::report::{ArtifactModel, ReportModel};
use crate::scan::{
    FileAction, MAX_ERRORS, MAX_FINDINGS, MAX_SCAN_FILES, MAX_ARTIFACT_HASH_BYTES, ScanModel,
    after_config, after_entry, after_file, after_index, after_lockfile,
    after_root_check, byte_text, capped_errors, capped_findings, file_action, initial_scan,
    name_bytes, name_keys, operation_text, failure_message, visit_order, with_error,
    within_bounds, FsOperation,  
};
use crate::finish::{
    LockCheck, add_findings, auth_finding, check_package, check_packages, check_stale, count_verified, file_name_of, final_report,
    first_match, observe, observe_all, path_keys, report_notes, sort_artifacts, sort_texts,
};

verus! {

/// Texts in non-decreasing order.
pub open spec fn texts_sorted(v: Seq<Seq<char>>) -> bool {
    forall|i: int, j: int| 0 <= i < j < v.len() ==> !text_lt(#[trigger] v[j], #[trigger] v[i])
}

/// Artifacts in non-decreasing order of path.
pub open spec fn artifacts_sorted(v: Seq<ArtifactModel>) -> bool {
    forall|i: int, j: int| 0 <= i < j < v.len() ==> !text_lt(#[trigger] v[j].path, #[trigger] v[i].path)
}

/// A report's counts agree with its lists, its bounds hold, no authentication
/// assumption is listed twice, and its lists are sorted.
pub open spec fn report_consistent(r: ReportModel) -> bool {
    &&& r.artifact_count == r.artifacts.len()
    &&& r.verified_artifact_count == verified_artifacts(r.artifacts).len()
    &&& r.complete == (r.errors.len() == 0)
    &&& r.lockfile_package_count == match r.lockfile {
        Some(l) => l.package_count,
        None => 0,
    }
    &&& r.missing_artifact_count == match r.lockfile {
        Some(l) => l.missing_artifacts,
        None => 0,
    }
    &&& r.scan_count <= MAX_SCAN_FILES
    &&& r.errors.len() <= MAX_ERRORS
    &&& r.findings.len() <= MAX_FINDINGS
    &&& r.config.auth_assumptions.no_duplicates()
    &&& keys_sorted(r.findings)
    &&& texts_sorted(r.errors)
    &&& artifacts_sorted(r.artifacts)
}

proof fn lemma_add_findings_bound(fs: Seq<(Seq<char>, Seq<char>)>, new: Seq<(Seq<char>, Seq<char>)>)
    requires
        fs.len() <= MAX_FINDINGS,
    ensures
        add_findings(fs, new).len() <= MAX_FINDINGS,
    decreases new.len(),
{
    if new.len() > 0 {
        lemma_add_findings_bound(fs, new.drop_last());
    }
}

proof fn lemma_observe_all_bounds(
    idx: Seq<RecordModel>,
    arts: Seq<(Seq<char>, u64)>,
    reads: Seq<Option<Result<Seq<u8>, Seq<char>>>>,
    fs: Seq<(Seq<char>, Seq<char>)>,
)
    requires
        fs.len() <= MAX_FINDINGS,
    ensures
        observe_all(idx, arts, reads, fs).0.len() == arts.len(),
        observe_all(idx, arts, reads, fs).1.len() <= MAX_FINDINGS,
    decreases arts.len(),
{
    if arts.len() > 0 {
        lemma_observe_all_bounds(idx, arts.drop_last(), reads.drop_last(), fs);
        let prev = observe_all(idx, arts.drop_last(), reads.drop_last(), fs);
        lemma_add_findings_bound(prev.1, observe(idx, arts.last(), reads.last()).1);
    }
}

proof fn lemma_check_packages_bounds(
    idx: Seq<RecordModel>,
    obs: Seq<ArtifactModel>,
    pkgs: Seq<(Seq<char>, Seq<char>)>,
    fs: Seq<(Seq<char>, Seq<char>)>,
)
    requires
        fs.len() <= MAX_FINDINGS,
    ensures
        check_packages(idx, obs, pkgs, fs).findings.len() <= MAX_FINDINGS,
    decreases pkgs.len(),
{
    if pkgs.len() > 0 {
        lemma_check_packages_bounds(idx, obs, pkgs.drop_last(), fs);
    }
}

proof fn lemma_check_stale_bounds(
    mtimes: Seq<(Seq<char>, Option<i128>)>,
    lock_mtime: Option<i128>,
    fs: Seq<(Seq<char>, Seq<char>)>,
)
    requires
        fs.len() <= MAX_FINDINGS,
    ensures
        check_stale(mtimes, lock_mtime, fs).len() <= MAX_FINDINGS,
    decreases mtimes.len(),
{
    if mtimes.len() > 0 {
        lemma_check_stale_bounds(mtimes.drop_last(), lock_mtime, fs);
    }
}

proof fn lemma_sort_artifacts(obs: Seq<ArtifactModel>)
    ensures
        sort_artifacts(obs).len() == obs.len(),
        artifacts_sorted(sort_artifacts(obs)),
{
    let pk = path_keys(obs);
    lemma_sorted_keys(pk);
    let o = stable_order(pk);
    let r = sort_artifacts(obs);
    assert forall|i: int, j: int| 0 <= i < j < r.len() implies !text_lt(#[trigger] r[j].path, #[trigger] r[i].path) by {
        assert(sorted_keys(pk)[i] == pk[o[i]]);
        assert(sorted_keys(pk)[j] == pk[o[j]]);
        assert(r[i] == obs[o[i]]);
        assert(r[j] == obs[o[j]]);
        assert(!key_lt(sorted_keys(pk)[j], sorted_keys(pk)[i]));
    }
}

proof fn lemma_count_verified_bound(obs: Seq<ArtifactModel>)
    ensures
        count_verified(obs) <= obs.len(),
    decreases obs.len(),
{
    if obs.len() > 0 {
        lemma_count_verified_bound(obs.drop_last());
    }
}

/// The artifacts whose checksum status is exactly `verified`, in order.
pub open spec fn verified_artifacts(v: Seq<ArtifactModel>) -> Seq<ArtifactModel> {
    v.filter(|a: ArtifactModel| a.status == "verified"@)
}

/// The verified count of a list of observations is the number of them whose
/// status is exactly `verified`.
pub proof fn law_verified_count_counts_verified(obs: Seq<ArtifactModel>)
    ensures
        count_verified(obs) == verified_artifacts(obs).len(),
        verified_artifacts(obs).len() <= obs.len(),
    decreases obs.len(),
{
    if obs.len() > 0 {
        let init = obs.drop_last();
        law_verified_count_counts_verified(init);
        assert(init.push(obs.last()) =~= obs);
        init.lemma_filter_push(obs.last(), |a: ArtifactModel| a.status == "verified"@);
    } else {
        assert(obs.filter(|a: ArtifactModel| a.status == "verified"@).len() == 0) by {
            reveal(Seq::filter);
        }
    }
}

proof fn lemma_sort_texts(v: Seq<Seq<char>>)
    ensures
        sort_texts(v).len() == v.len(),
        texts_sorted(sort_texts(v)),
{
    let kv = v.map_values(|t: Seq<char>| (t, Seq::<char>::empty()));
    lemma_sorted_keys(kv);
    let r = sort_texts(v);
    assert forall|i: int, j: int| 0 <= i < j < r.len() implies !text_lt(#[trigger] r[j], #[trigger] r[i]) by {
        assert(!key_lt(sorted_keys(kv)[j], sorted_keys(kv)[i]));
        assert(sorted_keys(kv)[i].1 == Seq::<char>::empty());
    }
}

/// Every report is consistent: its counts agree with its lists
/// (`artifact_count`, `verified_artifact_count`, the lockfile counts),
/// `complete` holds exactly when no error was recorded, the scan, error and
/// finding bounds hold, no authentication assumption is listed twice, and
/// findings, errors and artifacts are sorted.
pub proof fn law_report_consistent(m: ScanModel, reads: Seq<Option<Result<Seq<u8>, Seq<char>>>>)
    requires
        within_bounds(m),
        m.artifacts.len() <= usize::MAX,
    ensures
        report_consistent(final_report(m, reads)),
{
    let r = final_report(m, reads);
    lemma_observe_all_bounds(m.index, m.artifacts, reads, m.findings);
    let observed = observe_all(m.index, m.artifacts, reads, m.findings);
    lemma_sort_artifacts(observed.0);
    let arts = sort_artifacts(observed.0);
    let after_lock = match m.lockfile {
        Some(l) => {
            lemma_check_packages_bounds(m.index, arts, l.packages, observed.1);
            let c = check_packages(m.index, arts, l.packages, observed.1);
            lemma_check_stale_bounds(m.index_mtimes, l.modified, c.findings);
            check_stale(m.index_mtimes, l.modified, c.findings)
        },
        None => observed.1,
    };
    let all = if m.source_replacement && !m.credentials {
        capped_findings(after_lock, crate::finish::auth_finding())
    } else {
        after_lock
    };
    lemma_sorted_keys(all);
    lemma_sort_texts(m.errors);
    assert(r.artifacts == arts);
    lemma_count_verified_bound(arts);
    law_verified_count_counts_verified(arts);
    assert(r.findings == sorted_keys(all));
}

/// The artifact matches an index record with a checksum, was read within the
/// hash bound, and the lowercase hex SHA-256 of what was read is that checksum.
pub open spec fn digest_matches(
    idx: Seq<RecordModel>,
    art: (Seq<char>, u64),
    read: Option<Result<Seq<u8>, Seq<char>>>,
) -> bool {
    match (first_match(idx, file_name_of(art.0)), read) {
        (Some(rec), Some(Ok(data))) => {
            &&& art.1 <= MAX_ARTIFACT_HASH_BYTES
            &&& data.len() <= MAX_ARTIFACT_HASH_BYTES
            &&& rec.checksum == Some(hex_lower(sha256(data)))
        },
        _ => false,
    }
}

/// An artifact is `verified` exactly when it matches an index record with a
/// checksum, was read within the hash bound, and the lowercase hex SHA-256 of
/// what was read equals that checksum.
pub proof fn law_verified_means_digest_matches(
    idx: Seq<RecordModel>,
    art: (Seq<char>, u64),
    read: Option<Result<Seq<u8>, Seq<char>>>,
)
    ensures
        observe(idx, art, read).0.status == "verified"@ <==> digest_matches(idx, art, read),
{
    reveal_strlit("verified");
    reveal_strlit("size_limit");
    reveal_strlit("checksum_mismatch");
    reveal_strlit("metadata_missing");
    reveal_strlit("unreadable");
    assert("verified"@ != "size_limit"@) by {
        assert("verified"@[0] != "size_limit"@[0]);
    }
    assert("verified"@ != "checksum_mismatch"@) by {
        assert("verified"@[0] != "checksum_mismatch"@[0]);
    }
    assert("verified"@ != "metadata_missing"@) by {
        assert("verified"@[0] != "metadata_missing"@[0]);
    }
    assert("verified"@ != "unreadable"@) by {
        assert("verified"@[0] != "unreadable"@[0]);
    }
}

/// A credentials file is never read: the scanner records that one is present
/// and asks for nothing else.
pub proof fn law_credentials_presence_only(m: ScanModel, name: Seq<char>, relative: Seq<char>)
    requires
        name == "credentials"@ || name == "credentials.toml"@,
    ensures
        file_action(m, name, relative) == FileAction::Credentials,
{
}

/// `m` with its offline flag set to `offline`.
pub open spec fn with_offline(m: ScanModel, offline: bool) -> ScanModel {
    ScanModel { offline, ..m }
}

/// The offline flag marks the report and changes nothing else: every scan
/// step treats the evidence the same whatever the flag, and two reports on the
/// same evidence differ only in `offline` and in the operator's note.
pub proof fn law_offline_only_marks(
    m: ScanModel,
    offline: bool,
    exists: bool,
    is_dir: bool,
    error: Seq<char>,
    name: Seq<char>,
    relative: Seq<char>,
    bytes: u64,
    modified: Option<i128>,
    read: Result<Seq<char>, Seq<char>>,
    reads: Seq<Option<Result<Seq<u8>, Seq<char>>>>,
)
    ensures
        file_action(with_offline(m, offline), name, relative) == file_action(m, name, relative),
        after_root_check(with_offline(m, offline), exists, is_dir) == with_offline(
            after_root_check(m, exists, is_dir),
            offline,
        ),
        with_error(with_offline(m, offline), error) == with_offline(with_error(m, error), offline),
        after_entry(with_offline(m, offline)) == with_offline(after_entry(m), offline),
        after_file(with_offline(m, offline), name, relative, bytes) == with_offline(
            after_file(m, name, relative, bytes),
            offline,
        ),
        after_config(with_offline(m, offline), relative, read) == with_offline(
            after_config(m, relative, read),
            offline,
        ),
        after_lockfile(with_offline(m, offline), relative, modified, read) == with_offline(
            after_lockfile(m, relative, modified, read),
            offline,
        ),
        after_index(with_offline(m, offline), relative, modified, read) == with_offline(
            after_index(m, relative, modified, read),
            offline,
        ),
        final_report(with_offline(m, offline), reads) == (ReportModel {
            offline,
            notes: report_notes(offline),
            ..final_report(m, reads)
        }),
{
}

/// One step of a scan, as the caller reports it to `ScanState`: each variant
/// is one method call with its arguments.
pub enum ScanEvent {
    /// `check_root`.
    RootChecked { exists: bool, is_dir: bool },
    /// `next_entry`.
    Entry,
    /// `record_error`.
    Failed { operation: FsOperation, error: Seq<char> },
    /// `scan_file`.
    File { name: Seq<char>, relative: Seq<char>, bytes: u64 },
    /// `inspect_config`.
    Config { path: Seq<char>, read: Result<Seq<char>, Seq<char>> },
    /// `record_lockfile`.
    Lockfile { relative: Seq<char>, modified: Option<i128>, read: Result<Seq<char>, Seq<char>> },
    /// `inspect_index`.
    Index { relative: Seq<char>, modified: Option<i128>, read: Result<Seq<char>, Seq<char>> },
}

/// The scan `m` after one event: the new state that the method's contract
/// fixes.
pub open spec fn step(m: ScanModel, e: ScanEvent) -> ScanModel {
    match e {
        ScanEvent::RootChecked { exists, is_dir } => after_root_check(m, exists, is_dir),
        ScanEvent::Entry => after_entry(m),
        ScanEvent::Failed { operation, error } => with_error(
            m,
            failure_message(operation_text(operation), error),
        ),
        ScanEvent::File { name, relative, bytes } => after_file(m, name, relative, bytes),
        ScanEvent::Config { path, read } => after_config(m, path, read),
        ScanEvent::Lockfile { relative, modified, read } => after_lockfile(m, relative, modified, read),
        ScanEvent::Index { relative, modified, read } => after_index(m, relative, modified, read),
    }
}

/// The scan `m` after the events, in order.
pub open spec fn replay(m: ScanModel, events: Seq<ScanEvent>) -> ScanModel
    decreases events.len(),
{
    if events.len() == 0 {
        m
    } else {
        step(replay(m, events.drop_last()), events.last())
    }
}

/// The report of a scan of `root` that saw `events` and whose artifact reads
/// handed back `reads`.
pub open spec fn scan_report(
    root: Seq<char>,
    offline: bool,
    events: Seq<ScanEvent>,
    reads: Seq<Option<Result<Seq<u8>, Seq<char>>>>,
) -> ReportModel {
    final_report(replay(initial_scan(root, offline), events), reads)
}

/// A repeated scan gives an equal report: two scans of the same root with the
/// same options that see the same events (as a walk of an unchanged tree
/// does) and read the same artifact bytes end in equal states and give
/// reports equal field by field, in the same order of artifacts, findings
/// and errors.
pub proof fn law_repeated_scan_is_equal(
    root1: Seq<char>,
    root2: Seq<char>,
    offline1: bool,
    offline2: bool,
    events1: Seq<ScanEvent>,
    events2: Seq<ScanEvent>,
    reads1: Seq<Option<Result<Seq<u8>, Seq<char>>>>,
    reads2: Seq<Option<Result<Seq<u8>, Seq<char>>>>,
)
    requires
        root1 == root2,
        offline1 == offline2,
        events1 == events2,
        reads1 == reads2,
    ensures
        replay(initial_scan(root1, offline1), events1) == replay(initial_scan(root2, offline2), events2),
        scan_report(root1, offline1, events1, reads1) == scan_report(root2, offline2, events2, reads2),
{
}

/// The order in which directory entries are visited does not depend on the
/// order in which the listing returns them: the same distinct names, listed
/// in any two orders, are visited in one order.
pub proof fn law_visit_order_ignores_listing_order(a: Seq<Vec<u8>>, b: Seq<Vec<u8>>)
    requires
        name_bytes(a).no_duplicates(),
        name_bytes(b).no_duplicates(),
        a.len() == b.len(),
        forall|x: Seq<u8>| #[trigger] name_bytes(a).contains(x) <==> name_bytes(b).contains(x),
    ensures
        visit_order(a) == visit_order(b),
{
    let ka = name_keys(a);
    let kb = name_keys(b);
    lemma_keys_of_distinct_names(a);
    lemma_keys_of_distinct_names(b);
    assert forall|k: (Seq<char>, Seq<char>)| #[trigger] ka.contains(k) <==> kb.contains(k) by {
        if ka.contains(k) {
            let i = choose|i: int| 0 <= i < ka.len() && ka[i] == k;
            assert(name_bytes(a)[i] == a[i]@);
            assert(name_bytes(a).contains(a[i]@));
            assert(name_bytes(b).contains(a[i]@));
            let j = choose|j: int| 0 <= j < b.len() && name_bytes(b)[j] == a[i]@;
            assert(kb[j] == k);
        }
        if kb.contains(k) {
            let j = choose|j: int| 0 <= j < kb.len() && kb[j] == k;
            assert(name_bytes(b)[j] == b[j]@);
            assert(name_bytes(b).contains(b[j]@));
            assert(name_bytes(a).contains(b[j]@));
            let i = choose|i: int| 0 <= i < a.len() && name_bytes(a)[i] == b[j]@;
            assert(ka[i] == k);
        }
    }
    lemma_sorted_keys_ignore_input_order(ka, kb);
    lemma_sorted_keys(ka);
    lemma_sorted_keys(kb);
    lemma_stable_order_exists(ka);
    lemma_stable_order_exists(kb);
    let oa = stable_order(ka);
    let ob = stable_order(kb);
    assert forall|t: int| 0 <= t < oa.len() implies visit_order(a)[t] == visit_order(b)[t] by {
        assert(sorted_keys(ka)[t] == sorted_keys(kb)[t]);
        assert(ka[oa[t]] == (byte_text(a[oa[t]]@), Seq::<char>::empty()));
        assert(kb[ob[t]] == (byte_text(b[ob[t]]@), Seq::<char>::empty()));
        lemma_byte_text_injective(a[oa[t]]@, b[ob[t]]@);
    }
    assert(visit_order(a) =~= visit_order(b));
}

proof fn lemma_byte_text_injective(x: Seq<u8>, y: Seq<u8>)
    requires
        byte_text(x) == byte_text(y),
    ensures
        x == y,
{
    assert(x.len() == byte_text(x).len());
    assert(y.len() == byte_text(y).len());
    assert forall|i: int| 0 <= i < x.len() implies x[i] == y[i] by {
        assert(byte_text(x)[i] == x[i] as char);
        assert(byte_text(y)[i] == y[i] as char);
        assert((x[i] as char) as u32 == x[i] as u32);
        assert((y[i] as char) as u32 == y[i] as u32);
    }
    assert(x =~= y);
}

proof fn lemma_keys_of_distinct_names(a: Seq<Vec<u8>>)
    requires
        name_bytes(a).no_duplicates(),
    ensures
        name_keys(a).no_duplicates(),
        name_keys(a).len() == a.len(),
{
    let ka = name_keys(a);
    assert forall|i: int, j: int| 0 <= i < ka.len() && 0 <= j < ka.len() && i != j implies ka[i] != ka[j] by {
        if ka[i] == ka[j] {
            lemma_byte_text_injective(a[i]@, a[j]@);
            assert(name_bytes(a)[i] == name_bytes(a)[j]);
        }
    }
}

/// Recording an error keeps the earlier errors, in order, and holds the list
/// to `MAX_ERRORS`: the error is added exactly when there is room for it.
pub proof fn law_errors_are_kept_and_capped(m: ScanModel, e: Seq<char>)
    requires
        m.errors.len() <= MAX_ERRORS,
    ensures
        with_error(m, e).errors == if m.errors.len() < MAX_ERRORS {
            m.errors.push(e)
        } else {
            m.errors
        },
        with_error(m, e).errors.len() <= MAX_ERRORS,
        with_error(m, e).errors.subrange(0, m.errors.len() as int) == m.errors,
{
    assert(capped_errors(m.errors, e).subrange(0, m.errors.len() as int) =~= m.errors);
}

/// Adding a finding keeps the earlier findings, in order, and holds the list
/// to `MAX_FINDINGS`: the finding is added exactly when there is room for it.
pub proof fn law_findings_are_kept_and_capped(
    findings: Seq<(Seq<char>, Seq<char>)>,
    f: (Seq<char>, Seq<char>),
)
    requires
        findings.len() <= MAX_FINDINGS,
    ensures
        capped_findings(findings, f) == if findings.len() < MAX_FINDINGS {
            findings.push(f)
        } else {
            findings
        },
        capped_findings(findings, f).len() <= MAX_FINDINGS,
        capped_findings(findings, f).subrange(0, findings.len() as int) == findings,
{
    assert(capped_findings(findings, f).subrange(0, findings.len() as int) =~= findings);
}

/// Some observed artifact is the package `p`: its package is `p.0` (named)
/// and its version `p.1`.
pub open spec fn artifact_cached(obs: Seq<ArtifactModel>, p: (Seq<char>, Seq<char>)) -> bool {
    exists|i: int|
        0 <= i < obs.len() && obs[i].package.len() > 0 && #[trigger] obs[i].package == p.0
            && obs[i].version == p.1
}

/// Some index record is the package `p`: its name is `p.0` and its version
/// `p.1`.
pub open spec fn package_indexed(idx: Seq<RecordModel>, p: (Seq<char>, Seq<char>)) -> bool {
    exists|i: int| 0 <= i < idx.len() && #[trigger] idx[i].name == p.0 && idx[i].version == p.1
}

/// The lockfile packages without a cached artifact of their exact version.
pub open spec fn uncached_packages(
    obs: Seq<ArtifactModel>,
    pkgs: Seq<(Seq<char>, Seq<char>)>,
) -> Seq<(Seq<char>, Seq<char>)> {
    pkgs.filter(|p: (Seq<char>, Seq<char>)| !artifact_cached(obs, p))
}

/// The lockfile packages without an index record of their exact version.
pub open spec fn unindexed_packages(
    idx: Seq<RecordModel>,
    pkgs: Seq<(Seq<char>, Seq<char>)>,
) -> Seq<(Seq<char>, Seq<char>)> {
    pkgs.filter(|p: (Seq<char>, Seq<char>)| !package_indexed(idx, p))
}

/// The finding for a lockfile package without a cached artifact.
pub open spec fn artifact_missing_finding(p: (Seq<char>, Seq<char>)) -> (Seq<char>, Seq<char>) {
    ("artifact_missing"@, "lockfile package "@ + p.0 + " "@ + p.1 + " has no cached artifact"@)
}

proof fn lemma_check_packages_grows(
    idx: Seq<RecordModel>,
    obs: Seq<ArtifactModel>,
    pkgs: Seq<(Seq<char>, Seq<char>)>,
    fs: Seq<(Seq<char>, Seq<char>)>,
)
    ensures
        check_packages(idx, obs, pkgs, fs).findings.len() <= fs.len() + 2 * pkgs.len(),
    decreases pkgs.len(),
{
    if pkgs.len() > 0 {
        lemma_check_packages_grows(idx, obs, pkgs.drop_last(), fs);
    }
}

/// Checking lockfile packages counts, in `missing_artifacts`, exactly the
/// packages that no observed artifact of the same name and version stands
/// for, and in `missing_metadata` exactly those that no index record of the
/// same name and version stands for; while the findings bound leaves room,
/// each package without a cached artifact gets its `artifact_missing`
/// finding, and the findings already made are kept.
pub proof fn law_lockfile_packages_are_checked_by_version(
    idx: Seq<RecordModel>,
    obs: Seq<ArtifactModel>,
    pkgs: Seq<(Seq<char>, Seq<char>)>,
    fs: Seq<(Seq<char>, Seq<char>)>,
)
    ensures
        check_packages(idx, obs, pkgs, fs).missing_artifacts == uncached_packages(obs, pkgs).len(),
        check_packages(idx, obs, pkgs, fs).missing_metadata == unindexed_packages(idx, pkgs).len(),
        uncached_packages(obs, pkgs).len() <= pkgs.len(),
        unindexed_packages(idx, pkgs).len() <= pkgs.len(),
        fs.len() <= check_packages(idx, obs, pkgs, fs).findings.len(),
        check_packages(idx, obs, pkgs, fs).findings.subrange(0, fs.len() as int) == fs,
        fs.len() + 2 * pkgs.len() <= MAX_FINDINGS ==> forall|k: int|
            0 <= k < pkgs.len() && !artifact_cached(obs, pkgs[k]) ==> #[trigger] check_packages(
                idx,
                obs,
                pkgs,
                fs,
            ).findings.contains(artifact_missing_finding(pkgs[k])),
    decreases pkgs.len(),
{
    let r = check_packages(idx, obs, pkgs, fs);
    if pkgs.len() == 0 {
        reveal(Seq::filter);
        assert(r.findings.subrange(0, fs.len() as int) =~= fs);
    } else {
        let init = pkgs.drop_last();
        let p = pkgs.last();
        law_lockfile_packages_are_checked_by_version(idx, obs, init, fs);
        lemma_check_packages_grows(idx, obs, init, fs);
        assert(init.push(p) =~= pkgs);
        init.lemma_filter_push(p, |q: (Seq<char>, Seq<char>)| !artifact_cached(obs, q));
        init.lemma_filter_push(p, |q: (Seq<char>, Seq<char>)| !package_indexed(idx, q));
        let c = check_packages(idx, obs, init, fs);
        assert(crate::finish::has_artifact(obs, p) <==> artifact_cached(obs, p)) by {
            if crate::finish::has_artifact(obs, p) {
                let i = choose|i: int|
                    0 <= i < obs.len() && #[trigger] obs[i].package.len() > 0 && obs[i].package == p.0
                        && obs[i].version == p.1;
                assert(obs[i].package == p.0);
            }
            if artifact_cached(obs, p) {
                let i = choose|i: int|
                    0 <= i < obs.len() && obs[i].package.len() > 0 && #[trigger] obs[i].package == p.0
                        && obs[i].version == p.1;
                assert(obs[i].package.len() > 0);
            }
        }
        assert(crate::finish::has_record(idx, p) <==> package_indexed(idx, p)) by {
            if crate::finish::has_record(idx, p) {
                let i = choose|i: int| 0 <= i < idx.len() && #[trigger] idx[i].name == p.0 && idx[i].version == p.1;
                assert(idx[i].name == p.0);
            }
        }
        // The findings only ever grow at the end.
        let c1f = if !package_indexed(idx, p) {
            capped_findings(c.findings, crate::finish::absent_from_index(p))
        } else {
            c.findings
        };
        assert(c1f.subrange(0, c.findings.len() as int) =~= c.findings);
        assert(r.findings.subrange(0, c1f.len() as int) =~= c1f) by {
            if !artifact_cached(obs, p) {
                assert(capped_findings(c1f, crate::finish::without_artifact(p)).subrange(
                    0,
                    c1f.len() as int,
                ) =~= c1f);
            }
        }
        assert(r.findings.subrange(0, fs.len() as int) =~= fs) by {
            assert(c.findings.subrange(0, fs.len() as int) =~= fs);
            assert(r.findings.subrange(0, c.findings.len() as int) =~= c.findings);
            assert(fs.len() <= c.findings.len());
            assert(forall|t: int| 0 <= t < fs.len() ==> r.findings[t] == c.findings[t]);
        }
        if fs.len() + 2 * pkgs.len() <= MAX_FINDINGS {
            assert forall|k: int|
                0 <= k < pkgs.len() && !artifact_cached(obs, pkgs[k]) implies #[trigger] r.findings.contains(
                artifact_missing_finding(pkgs[k]),
            ) by {
                assert(r.findings.subrange(0, c.findings.len() as int) =~= c.findings);
                if k < init.len() {
                    assert(init[k] == pkgs[k]);
                    assert(c.findings.contains(artifact_missing_finding(init[k])));
                    let t = choose|t: int| 0 <= t < c.findings.len() && c.findings[t] == artifact_missing_finding(init[k]);
                    assert(r.findings[t] == c.findings[t]);
                } else {
                    assert(pkgs[k] == p);
                    assert(c1f.len() < MAX_FINDINGS);
                    assert(r.findings == c1f.push(crate::finish::without_artifact(p)));
                    assert(r.findings[c1f.len() as int] == artifact_missing_finding(p));
                }
            }
        }
    }
}

/// In every report with a lockfile, `missing_artifact_count` and the
/// lockfile's `missing_artifacts` are the number of lockfile packages that
/// no reported artifact of the same name and version stands for, and
/// `missing_metadata` the number that no index record of the same name and
/// version stands for.
pub proof fn law_report_missing_counts(m: ScanModel, reads: Seq<Option<Result<Seq<u8>, Seq<char>>>>)
    requires
        m.lockfile matches Some(l) && l.packages.len() <= usize::MAX,
    ensures
        ({
            let r = final_report(m, reads);
            let l = m.lockfile->Some_0;
            &&& r.missing_artifact_count == uncached_packages(r.artifacts, l.packages).len()
            &&& r.lockfile matches Some(s) && s.missing_artifacts == uncached_packages(
                r.artifacts,
                l.packages,
            ).len() && s.missing_metadata == unindexed_packages(m.index, l.packages).len()
        }),
{
    let r = final_report(m, reads);
    let l = m.lockfile->Some_0;
    let observed = observe_all(m.index, m.artifacts, reads, m.findings);
    let arts = sort_artifacts(observed.0);
    assert(r.artifacts == arts);
    law_lockfile_packages_are_checked_by_version(m.index, arts, l.packages, observed.1);
}

/// The finding for an index file older than the lockfile.
pub open spec fn stale_finding(path: Seq<char>) -> (Seq<char>, Seq<char>) {
    ("stale_index"@, "index file "@ + path + " predates the lockfile"@)
}

/// The index file `entry` (its path and modification time) was modified
/// before the lockfile: both times are known and the index's is earlier.
pub open spec fn predates(entry: (Seq<char>, Option<i128>), lock: Option<i128>) -> bool {
    &&& entry.1 is Some
    &&& lock is Some
    &&& entry.1->Some_0 < lock->Some_0
}

/// Looking for stale index files keeps the findings already made and adds
/// exactly one `stale_index` finding per index file modified before the
/// lockfile, in order, while the findings bound leaves room; an index file
/// with an unknown time, or no lockfile time, is never called stale.
pub proof fn law_stale_index_files(
    mtimes: Seq<(Seq<char>, Option<i128>)>,
    lock: Option<i128>,
    fs: Seq<(Seq<char>, Seq<char>)>,
)
    requires
        fs.len() <= MAX_FINDINGS,
    ensures
        fs.len() <= check_stale(mtimes, lock, fs).len() <= MAX_FINDINGS,
        check_stale(mtimes, lock, fs).subrange(0, fs.len() as int) == fs,
        forall|k: int|
            0 <= k < mtimes.len() && predates(#[trigger] mtimes[k], lock) ==> check_stale(mtimes, lock, fs).contains(
                stale_finding(mtimes[k].0),
            ) || check_stale(mtimes, lock, fs).len() == MAX_FINDINGS,
        forall|j: int|
            fs.len() <= j < check_stale(mtimes, lock, fs).len() ==> exists|k: int|
                0 <= k < mtimes.len() && predates(#[trigger] mtimes[k], lock) && #[trigger] check_stale(
                    mtimes,
                    lock,
                    fs,
                )[j] == stale_finding(mtimes[k].0),
    decreases mtimes.len(),
{
    let r = check_stale(mtimes, lock, fs);
    if mtimes.len() == 0 {
        assert(r.subrange(0, fs.len() as int) =~= fs);
    } else {
        let init = mtimes.drop_last();
        let e = mtimes.last();
        law_stale_index_files(init, lock, fs);
        let f = check_stale(init, lock, fs);
        assert(e == mtimes[mtimes.len() - 1]);
        if predates(e, lock) {
            assert(r == capped_findings(f, stale_finding(e.0)));
        } else {
            assert(r == f);
        }
        assert(r.subrange(0, f.len() as int) =~= f);
        assert(r.subrange(0, fs.len() as int) =~= fs) by {
            assert(forall|t: int| 0 <= t < fs.len() ==> r[t] == f[t]);
            assert(f.subrange(0, fs.len() as int) =~= fs);
        }
        assert forall|k: int|
            0 <= k < mtimes.len() && predates(#[trigger] mtimes[k], lock) implies r.contains(
            stale_finding(mtimes[k].0),
        ) || r.len() == MAX_FINDINGS by {
            if k < init.len() {
                assert(init[k] == mtimes[k]);
                if f.contains(stale_finding(init[k].0)) {
                    let t = choose|t: int| 0 <= t < f.len() && f[t] == stale_finding(init[k].0);
                    assert(r[t] == f[t]);
                }
            } else if f.len() < MAX_FINDINGS {
                assert(r[f.len() as int] == stale_finding(e.0));
            }
        }
        assert forall|j: int| fs.len() <= j < r.len() implies exists|k: int|
            0 <= k < mtimes.len() && predates(#[trigger] mtimes[k], lock) && #[trigger] r[j] == stale_finding(
                mtimes[k].0,
            ) by {
            if j < f.len() {
                let k = choose|k: int|
                    0 <= k < init.len() && predates(#[trigger] init[k], lock) && f[j] == stale_finding(
                        init[k].0,
                    );
                assert(mtimes[k] == init[k]);
                assert(r[j] == f[j]);
            } else {
                assert(mtimes[mtimes.len() - 1] == e);
            }
        }
    }
}

/// `fs` stands first in `r`.
pub open spec fn kept_first(fs: Seq<(Seq<char>, Seq<char>)>, r: Seq<(Seq<char>, Seq<char>)>) -> bool {
    fs.len() <= r.len() && r.subrange(0, fs.len() as int) == fs
}

proof fn lemma_kept_first_trans(
    a: Seq<(Seq<char>, Seq<char>)>,
    b: Seq<(Seq<char>, Seq<char>)>,
    c: Seq<(Seq<char>, Seq<char>)>,
)
    requires
        kept_first(a, b),
        kept_first(b, c),
    ensures
        kept_first(a, c),
{
    assert(forall|t: int| 0 <= t < a.len() ==> c[t] == b[t] && b[t] == a[t]);
    assert(c.subrange(0, a.len() as int) =~= a);
}

proof fn lemma_kept_first_contains(fs: Seq<(Seq<char>, Seq<char>)>, r: Seq<(Seq<char>, Seq<char>)>, x: (Seq<char>, Seq<char>))
    requires
        kept_first(fs, r),
        fs.contains(x),
    ensures
        r.contains(x),
{
    let t = choose|t: int| 0 <= t < fs.len() && fs[t] == x;
    assert(r.subrange(0, fs.len() as int)[t] == r[t]);
}

proof fn lemma_capped_kept(fs: Seq<(Seq<char>, Seq<char>)>, f: (Seq<char>, Seq<char>))
    ensures
        kept_first(fs, capped_findings(fs, f)),
{
    assert(capped_findings(fs, f).subrange(0, fs.len() as int) =~= fs);
}

proof fn lemma_add_findings_kept(fs: Seq<(Seq<char>, Seq<char>)>, new: Seq<(Seq<char>, Seq<char>)>)
    ensures
        kept_first(fs, add_findings(fs, new)),
    decreases new.len(),
{
    if new.len() == 0 {
        assert(fs.subrange(0, fs.len() as int) =~= fs);
    } else {
        lemma_add_findings_kept(fs, new.drop_last());
        lemma_capped_kept(add_findings(fs, new.drop_last()), new.last());
        lemma_kept_first_trans(fs, add_findings(fs, new.drop_last()), add_findings(fs, new));
    }
}

proof fn lemma_observe_all_kept(
    idx: Seq<RecordModel>,
    arts: Seq<(Seq<char>, u64)>,
    reads: Seq<Option<Result<Seq<u8>, Seq<char>>>>,
    fs: Seq<(Seq<char>, Seq<char>)>,
)
    ensures
        kept_first(fs, observe_all(idx, arts, reads, fs).1),
    decreases arts.len(),
{
    if arts.len() == 0 {
        assert(fs.subrange(0, fs.len() as int) =~= fs);
    } else {
        lemma_observe_all_kept(idx, arts.drop_last(), reads.drop_last(), fs);
        let prev = observe_all(idx, arts.drop_last(), reads.drop_last(), fs);
        lemma_add_findings_kept(prev.1, observe(idx, arts.last(), reads.last()).1);
        lemma_kept_first_trans(fs, prev.1, observe_all(idx, arts, reads, fs).1);
    }
}

/// What the report's findings hold: every finding made during the scan
/// (such as `malformed_metadata`) is kept; the `authentication_assumption`
/// finding is there whenever source replacement was detected without a
/// credentials file; and each index file modified before the lockfile has
/// its `stale_index` finding. A finding can only be missing when the report
/// already holds `MAX_FINDINGS` findings.
pub proof fn law_report_findings(m: ScanModel, reads: Seq<Option<Result<Seq<u8>, Seq<char>>>>)
    requires
        within_bounds(m),
    ensures
        forall|f: (Seq<char>, Seq<char>)| #[trigger] m.findings.contains(f) ==> final_report(m, reads).findings.contains(f),
        m.source_replacement && !m.credentials ==> final_report(m, reads).findings.contains(auth_finding())
            || final_report(m, reads).findings.len() == MAX_FINDINGS,
        m.lockfile is Some ==> forall|k: int|
            0 <= k < m.index_mtimes.len() && predates(#[trigger] m.index_mtimes[k], m.lockfile->Some_0.modified)
                ==> final_report(m, reads).findings.contains(stale_finding(m.index_mtimes[k].0))
                || final_report(m, reads).findings.len() == MAX_FINDINGS,
{
    let r = final_report(m, reads);
    lemma_observe_all_bounds(m.index, m.artifacts, reads, m.findings);
    lemma_observe_all_kept(m.index, m.artifacts, reads, m.findings);
    let observed = observe_all(m.index, m.artifacts, reads, m.findings);
    let arts = sort_artifacts(observed.0);
    let after_lock = match m.lockfile {
        Some(l) => check_stale(m.index_mtimes, l.modified, check_packages(m.index, arts, l.packages, observed.1).findings),
        None => observed.1,
    };
    if m.lockfile is Some {
        let l = m.lockfile->Some_0;
        let c = check_packages(m.index, arts, l.packages, observed.1);
        law_lockfile_packages_are_checked_by_version(m.index, arts, l.packages, observed.1);
        lemma_check_packages_bounds(m.index, arts, l.packages, observed.1);
        law_stale_index_files(m.index_mtimes, l.modified, c.findings);
        lemma_kept_first_trans(observed.1, c.findings, after_lock);
    } else {
        assert(after_lock.subrange(0, after_lock.len() as int) =~= after_lock);
    }
    lemma_kept_first_trans(m.findings, observed.1, after_lock);
    assert(after_lock.len() <= MAX_FINDINGS);
    let all = if m.source_replacement && !m.credentials {
        capped_findings(after_lock, auth_finding())
    } else {
        after_lock
    };
    if m.source_replacement && !m.credentials {
        lemma_capped_kept(after_lock, auth_finding());
    } else {
        assert(after_lock.subrange(0, after_lock.len() as int) =~= after_lock);
    }
    assert(kept_first(after_lock, all));
    lemma_sorted_keys_same_elements(all);
    lemma_sorted_keys(all);
    assert(r.findings == sorted_keys(all));
    assert forall|f: (Seq<char>, Seq<char>)| #[trigger] m.findings.contains(f) implies r.findings.contains(f) by {
        lemma_kept_first_trans(m.findings, after_lock, all);
        lemma_kept_first_contains(m.findings, all, f);
    }
    if m.source_replacement && !m.credentials {
        if after_lock.len() < MAX_FINDINGS {
            assert(all[after_lock.len() as int] == auth_finding());
            assert(all.contains(auth_finding()));
        }
    }
    if m.lockfile is Some {
        let l = m.lockfile->Some_0;
        assert forall|k: int|
            0 <= k < m.index_mtimes.len() && predates(#[trigger] m.index_mtimes[k], l.modified) implies r.findings.contains(
            stale_finding(m.index_mtimes[k].0),
        ) || r.findings.len() == MAX_FINDINGS by {
            if after_lock.contains(stale_finding(m.index_mtimes[k].0)) {
                lemma_kept_first_contains(after_lock, all, stale_finding(m.index_mtimes[k].0));
            }
        }
    }
}

proof fn lemma_observe_all_at(
    idx: Seq<RecordModel>,
    arts: Seq<(Seq<char>, u64)>,
    reads: Seq<Option<Result<Seq<u8>, Seq<char>>>>,
    fs: Seq<(Seq<char>, Seq<char>)>,
)
    requires
        reads.len() == arts.len(),
    ensures
        observe_all(idx, arts, reads, fs).0.len() == arts.len(),
        forall|k: int|
            0 <= k < arts.len() ==> #[trigger] observe_all(idx, arts, reads, fs).0[k] == observe(
                idx,
                arts[k],
                reads[k],
            ).0,
    decreases arts.len(),
{
    if arts.len() > 0 {
        lemma_observe_all_at(idx, arts.drop_last(), reads.drop_last(), fs);
        let obs = observe_all(idx, arts, reads, fs).0;
        let prev = observe_all(idx, arts.drop_last(), reads.drop_last(), fs).0;
        assert forall|k: int| 0 <= k < arts.len() implies #[trigger] obs[k] == observe(idx, arts[k], reads[k]).0 by {
            if k < arts.len() - 1 {
                assert(obs[k] == prev[k]);
                assert(arts.drop_last()[k] == arts[k]);
                assert(reads.drop_last()[k] == reads[k]);
            }
        }
    }
}

/// The report has one artifact observation per recorded artifact, and no
/// other: each recorded artifact is observed (as `law_artifact_observation`
/// says) from its own read, and each reported observation is of a recorded
/// artifact. Only their order changes, to that of their paths.
pub proof fn law_report_artifacts(m: ScanModel, reads: Seq<Option<Result<Seq<u8>, Seq<char>>>>)
    requires
        reads.len() == m.artifacts.len(),
    ensures
        final_report(m, reads).artifacts.len() == m.artifacts.len(),
        forall|k: int|
            0 <= k < m.artifacts.len() ==> exists|j: int|
                0 <= j < final_report(m, reads).artifacts.len() && #[trigger] final_report(m, reads).artifacts[j]
                    == observe(m.index, #[trigger] m.artifacts[k], reads[k]).0,
        forall|j: int|
            0 <= j < final_report(m, reads).artifacts.len() ==> exists|k: int|
                0 <= k < m.artifacts.len() && #[trigger] final_report(m, reads).artifacts[j] == observe(
                    m.index,
                    #[trigger] m.artifacts[k],
                    reads[k],
                ).0,
{
    let r = final_report(m, reads);
    lemma_observe_all_at(m.index, m.artifacts, reads, m.findings);
    let obs = observe_all(m.index, m.artifacts, reads, m.findings).0;
    let pk = path_keys(obs);
    lemma_stable_order_exists(pk);
    let o = stable_order(pk);
    assert(is_stable_order(pk, o));
    assert(r.artifacts == sort_artifacts(obs));
    assert(r.artifacts.len() == o.len());
    assert forall|k: int| 0 <= k < m.artifacts.len() implies exists|j: int|
        0 <= j < r.artifacts.len() && #[trigger] r.artifacts[j] == observe(m.index, #[trigger] m.artifacts[k], reads[k]).0 by {
        assert(o.contains(k));
        let t = choose|t: int| 0 <= t < o.len() && #[trigger] o[t] == k;
        assert(r.artifacts[t] == obs[k]);
        assert(obs[k] == observe(m.index, m.artifacts[k], reads[k]).0);
    }
    assert forall|j: int| 0 <= j < r.artifacts.len() implies exists|k: int|
        0 <= k < m.artifacts.len() && #[trigger] r.artifacts[j] == observe(m.index, #[trigger] m.artifacts[k], reads[k]).0 by {
        let k = o[j];
        assert(0 <= k < obs.len());
        assert(r.artifacts[j] == obs[k]);
        assert(obs[k] == observe(m.index, m.artifacts[k], reads[k]).0);
    }
}

/// The report's errors are the errors recorded during the scan: as many as
/// were recorded, every recorded error among them and nothing else; the
/// report is complete exactly when none was recorded.
pub proof fn law_report_errors(m: ScanModel, reads: Seq<Option<Result<Seq<u8>, Seq<char>>>>)
    ensures
        final_report(m, reads).errors.len() == m.errors.len(),
        forall|e: Seq<char>| #[trigger] final_report(m, reads).errors.contains(e) <==> m.errors.contains(e),
        final_report(m, reads).complete <==> m.errors.len() == 0,
{
    let r = final_report(m, reads);
    let kv = m.errors.map_values(|t: Seq<char>| (t, Seq::<char>::empty()));
    lemma_sorted_keys(kv);
    lemma_sorted_keys_same_elements(kv);
    let sk = sorted_keys(kv);
    assert(r.errors == sk.map_values(|k: (Seq<char>, Seq<char>)| k.0));
    assert forall|e: Seq<char>| #[trigger] r.errors.contains(e) <==> m.errors.contains(e) by {
        if r.errors.contains(e) {
            let t = choose|t: int| 0 <= t < r.errors.len() && r.errors[t] == e;
            assert(sk.contains(sk[t]));
            assert(kv.contains(sk[t]));
            let i = choose|i: int| 0 <= i < kv.len() && kv[i] == sk[t];
            assert(m.errors[i] == e);
        }
        if m.errors.contains(e) {
            let i = choose|i: int| 0 <= i < m.errors.len() && m.errors[i] == e;
            assert(kv[i] == (e, Seq::<char>::empty()));
            assert(kv.contains(kv[i]));
            assert(sk.contains(kv[i]));
            let t = choose|t: int| 0 <= t < sk.len() && sk[t] == kv[i];
            assert(r.errors[t] == e);
        }
    }
}

} // verus!
