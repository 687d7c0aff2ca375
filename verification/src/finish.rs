//! Turning collected evidence into a report: artifacts are matched to index
//! records and their digests checked, lockfile packages are checked against
//! the index and the artifacts, and everything is sorted.

use vstd::prelude::*;
use crate::text::{
    chars_of, copy_chars, decimal, eq_chars, push_chars, push_decimal, push_str, rfind_char,
    slice_chars, string_from_chars, texts,
};
use crate::order::{
    is_stable_order, key_view, permute, positions, sorted_keys, sorted_pairs, stable_order,
    stable_order_exec,
};
use crate::index::{IndexRecord, RecordModel, record_model, records};
use crate::digest::{hex_lower, sha256, sha256_hex};
use crate::report::{
    ArtifactModel, ArtifactObservation, ConfigModel, Finding, LockfileModel, ReportModel, SCHEMA_VERSION,
    strings,
};
use crate::scan::{MAX_ARTIFACT_HASH_BYTES, MAX_FINDINGS, ScanModel, capped_findings, index_sorted, record_key};
use crate::order::{key_lt, lemma_key_lt_order};

verus! {

// ---------------------------------------------------------------------------
// Rules
// ---------------------------------------------------------------------------

/// What reading an artifact for its digest handed back: nothing (not read),
/// its bytes, or the error's message.
pub open spec fn read_model(r: Option<Result<Vec<u8>, String>>) -> Option<Result<Seq<u8>, Seq<char>>> {
    match r {
        Some(Ok(b)) => Some(Ok(b@)),
        Some(Err(e)) => Some(Err(e@)),
        None => None,
    }
}

/// The last component of a `/`-separated path.
pub open spec fn file_name_of(path: Seq<char>) -> Seq<char> {
    match path.index_of_last('/') {
        Some(p) => path.subrange(p + 1, path.len() as int),
        None => path,
    }
}

/// The artifact file name of an index record: `name-version.crate`.
pub open spec fn crate_file(r: RecordModel) -> Seq<char> {
    r.name + "-"@ + r.version + ".crate"@
}

/// The first index record, in key order, whose artifact file name is `file`.
pub open spec fn first_match(idx: Seq<RecordModel>, file: Seq<char>) -> Option<RecordModel>
    decreases idx.len(),
{
    if idx.len() == 0 {
        None
    } else if crate_file(idx[0]) == file {
        Some(idx[0])
    } else {
        first_match(idx.drop_first(), file)
    }
}

/// Whether the artifact `(path, bytes)` is read for its digest: it matches an
/// index record and is within the hash bound.
pub open spec fn digest_planned(idx: Seq<RecordModel>, art: (Seq<char>, u64)) -> bool {
    first_match(idx, file_name_of(art.0)) is Some && art.1 <= MAX_ARTIFACT_HASH_BYTES
}

/// The checksum status of a matched artifact whose digest, in lowercase hex,
/// is `actual`, and the findings it raises.
pub open spec fn digest_status(
    rec: RecordModel,
    path: Seq<char>,
    actual: Seq<char>,
) -> (Seq<char>, Seq<(Seq<char>, Seq<char>)>) {
    match rec.checksum {
        Some(expected) => if expected == actual {
            ("verified"@, Seq::empty())
        } else {
            (
                "checksum_mismatch"@,
                seq![("checksum_mismatch"@, "artifact "@ + path + " does not match index checksum"@)],
            )
        },
        None => (
            "metadata_missing"@,
            seq![("metadata_missing"@, "index record for "@ + path + " has no checksum"@)],
        ),
    }
}

/// The checksum status of a matched artifact and the findings it raises.
pub open spec fn hash_status(
    rec: RecordModel,
    path: Seq<char>,
    bytes: u64,
    read: Option<Result<Seq<u8>, Seq<char>>>,
) -> (Seq<char>, Seq<(Seq<char>, Seq<char>)>) {
    let too_large = ("size_limit"@, seq![("hash_limit"@, "artifact "@ + path + " exceeds hash bound"@)]);
    if bytes > MAX_ARTIFACT_HASH_BYTES {
        too_large
    } else {
        match read {
            Some(Ok(data)) => if data.len() > MAX_ARTIFACT_HASH_BYTES {
                too_large
            } else {
                digest_status(rec, path, hex_lower(sha256(data)))
            },
            Some(Err(e)) => (
                "unreadable"@,
                seq![("artifact_unreadable"@, "artifact "@ + path + ": "@ + e)],
            ),
            None => ("unreadable"@, seq![("artifact_unreadable"@, "artifact "@ + path + ": "@)]),
        }
    }
}

/// The observation of one artifact and the findings it raises, in order.
pub open spec fn observe(
    idx: Seq<RecordModel>,
    art: (Seq<char>, u64),
    read: Option<Result<Seq<u8>, Seq<char>>>,
) -> (ArtifactModel, Seq<(Seq<char>, Seq<char>)>) {
    let path = art.0;
    let bytes = art.1;
    match first_match(idx, file_name_of(path)) {
        None => (
            ArtifactModel {
                path,
                package: Seq::empty(),
                version: Seq::empty(),
                bytes,
                status: "metadata_missing"@,
            },
            seq![("metadata_missing"@, "no index metadata matches artifact "@ + path)],
        ),
        Some(rec) => {
            let (status, found) = hash_status(rec, path, bytes, read);
            let found = if rec.yanked {
                found.push(
                    (
                        "yanked_metadata"@,
                        "index marks "@ + rec.name + " "@ + rec.version + " as yanked"@,
                    ),
                )
            } else {
                found
            };
            (ArtifactModel { path, package: rec.name, version: rec.version, bytes, status }, found)
        },
    }
}

/// `fs` with `new` added one by one, each within the findings bound.
pub open spec fn add_findings(
    fs: Seq<(Seq<char>, Seq<char>)>,
    new: Seq<(Seq<char>, Seq<char>)>,
) -> Seq<(Seq<char>, Seq<char>)>
    decreases new.len(),
{
    if new.len() == 0 {
        fs
    } else {
        capped_findings(add_findings(fs, new.drop_last()), new.last())
    }
}

/// The observations of the artifacts in scan order, and the findings after
/// them, starting from `fs`.
pub open spec fn observe_all(
    idx: Seq<RecordModel>,
    arts: Seq<(Seq<char>, u64)>,
    reads: Seq<Option<Result<Seq<u8>, Seq<char>>>>,
    fs: Seq<(Seq<char>, Seq<char>)>,
) -> (Seq<ArtifactModel>, Seq<(Seq<char>, Seq<char>)>)
    decreases arts.len(),
{
    if arts.len() == 0 {
        (Seq::empty(), fs)
    } else {
        let (obs, found) = observe_all(idx, arts.drop_last(), reads.drop_last(), fs);
        let (o, new) = observe(idx, arts.last(), reads.last());
        (obs.push(o), add_findings(found, new))
    }
}

/// Sort keys of observations: the path.
pub open spec fn path_keys(obs: Seq<ArtifactModel>) -> Seq<(Seq<char>, Seq<char>)> {
    obs.map_values(|a: ArtifactModel| (a.path, Seq::<char>::empty()))
}

/// Observations sorted by path.
pub open spec fn sort_artifacts(obs: Seq<ArtifactModel>) -> Seq<ArtifactModel> {
    permute(obs, stable_order(path_keys(obs)))
}

/// Whether the index holds a record for the package `p`.
pub open spec fn has_record(idx: Seq<RecordModel>, p: (Seq<char>, Seq<char>)) -> bool {
    exists|i: int| 0 <= i < idx.len() && #[trigger] idx[i].name == p.0 && idx[i].version == p.1
}

/// Whether an observed artifact belongs to the package `p`.
pub open spec fn has_artifact(obs: Seq<ArtifactModel>, p: (Seq<char>, Seq<char>)) -> bool {
    exists|i: int|
        0 <= i < obs.len() && #[trigger] obs[i].package.len() > 0 && obs[i].package == p.0
            && obs[i].version == p.1
}

/// The outcome of checking lockfile packages.
pub struct LockCheck {
    pub missing_metadata: nat,
    pub missing_artifacts: nat,
    pub findings: Seq<(Seq<char>, Seq<char>)>,
}

/// The finding for a package the index lacks.
pub open spec fn absent_from_index(p: (Seq<char>, Seq<char>)) -> (Seq<char>, Seq<char>) {
    ("missing_transitive_metadata"@, "lockfile package "@ + p.0 + " "@ + p.1 + " is absent from the index"@)
}

/// The finding for a package without a cached artifact.
pub open spec fn without_artifact(p: (Seq<char>, Seq<char>)) -> (Seq<char>, Seq<char>) {
    ("artifact_missing"@, "lockfile package "@ + p.0 + " "@ + p.1 + " has no cached artifact"@)
}

/// One lockfile package checked.
pub open spec fn check_package(
    idx: Seq<RecordModel>,
    obs: Seq<ArtifactModel>,
    c: LockCheck,
    p: (Seq<char>, Seq<char>),
) -> LockCheck {
    let c1 = if !has_record(idx, p) {
        LockCheck {
            missing_metadata: c.missing_metadata + 1,
            findings: capped_findings(c.findings, absent_from_index(p)),
            ..c
        }
    } else {
        c
    };
    if !has_artifact(obs, p) {
        LockCheck {
            missing_artifacts: c1.missing_artifacts + 1,
            findings: capped_findings(c1.findings, without_artifact(p)),
            ..c1
        }
    } else {
        c1
    }
}

/// The lockfile packages checked in order, starting from the findings `fs`.
pub open spec fn check_packages(
    idx: Seq<RecordModel>,
    obs: Seq<ArtifactModel>,
    pkgs: Seq<(Seq<char>, Seq<char>)>,
    fs: Seq<(Seq<char>, Seq<char>)>,
) -> LockCheck
    decreases pkgs.len(),
{
    if pkgs.len() == 0 {
        LockCheck { missing_metadata: 0, missing_artifacts: 0, findings: fs }
    } else {
        check_package(idx, obs, check_packages(idx, obs, pkgs.drop_last(), fs), pkgs.last())
    }
}

/// Index files that predate the lockfile, found in order.
pub open spec fn check_stale(
    mtimes: Seq<(Seq<char>, Option<i128>)>,
    lock_mtime: Option<i128>,
    fs: Seq<(Seq<char>, Seq<char>)>,
) -> Seq<(Seq<char>, Seq<char>)>
    decreases mtimes.len(),
{
    if mtimes.len() == 0 {
        fs
    } else {
        let f = check_stale(mtimes.drop_last(), lock_mtime, fs);
        let entry = mtimes.last();
        match (entry.1, lock_mtime) {
            (Some(index_time), Some(lock_time)) => if index_time < lock_time {
                capped_findings(f, ("stale_index"@, "index file "@ + entry.0 + " predates the lockfile"@))
            } else {
                f
            },
            _ => f,
        }
    }
}

/// The finding for source replacement without a credentials file.
pub open spec fn auth_finding() -> (Seq<char>, Seq<char>) {
    (
        "authentication_assumption"@,
        "source replacement is configured but no credentials file is present; values were not read"@,
    )
}

/// How many observations have the status `verified`.
pub open spec fn count_verified(obs: Seq<ArtifactModel>) -> nat
    decreases obs.len(),
{
    if obs.len() == 0 {
        0
    } else {
        count_verified(obs.drop_last()) + if obs.last().status == "verified"@ {
            1nat
        } else {
            0nat
        }
    }
}

/// Texts sorted.
pub open spec fn sort_texts(v: Seq<Seq<char>>) -> Seq<Seq<char>> {
    sorted_keys(v.map_values(|t: Seq<char>| (t, Seq::<char>::empty()))).map_values(
        |k: (Seq<char>, Seq<char>)| k.0,
    )
}

/// The notes every report carries, and the offline note when selected.
pub open spec fn report_notes(offline: bool) -> Seq<Seq<char>> {
    let base = seq![
        "no network, Cargo command, registry login, or package installation was performed"@,
        "artifact hashes are checked only up to "@ + decimal(MAX_ARTIFACT_HASH_BYTES as nat) + " bytes"@,
        "credential file presence is recorded without reading credential values"@,
    ];
    if offline {
        base.push(
            "offline mode was selected by the operator; the scanner itself never uses the network"@,
        )
    } else {
        base
    }
}

/// The report for the evidence `m`, given what reading the artifacts for
/// their digests handed back (`reads[i]` for `m.artifacts[i]`).
pub open spec fn final_report(m: ScanModel, reads: Seq<Option<Result<Seq<u8>, Seq<char>>>>) -> ReportModel {
    let observed = observe_all(m.index, m.artifacts, reads, m.findings);
    let artifacts = sort_artifacts(observed.0);
    let lock = match m.lockfile {
        Some(l) => Some(check_packages(m.index, artifacts, l.packages, observed.1)),
        None => None,
    };
    let after_lock = match (m.lockfile, lock) {
        (Some(l), Some(c)) => check_stale(m.index_mtimes, l.modified, c.findings),
        _ => observed.1,
    };
    let all = if m.source_replacement && !m.credentials {
        capped_findings(after_lock, auth_finding())
    } else {
        after_lock
    };
    ReportModel {
        schema_version: SCHEMA_VERSION,
        ecosystem: "cargo"@,
        root: m.root,
        offline: m.offline,
        complete: m.errors.len() == 0,
        scan_count: m.scan_count,
        artifact_count: artifacts.len() as usize,
        metadata_record_count: m.index.len() as usize,
        lockfile_package_count: match m.lockfile {
            Some(l) => l.packages.len() as usize,
            None => 0,
        },
        verified_artifact_count: count_verified(artifacts) as usize,
        missing_artifact_count: match lock {
            Some(c) => c.missing_artifacts as usize,
            None => 0,
        },
        artifacts,
        lockfile: match (m.lockfile, lock) {
            (Some(l), Some(c)) => Some(
                LockfileModel {
                    path: l.path,
                    package_count: l.packages.len() as usize,
                    missing_metadata: c.missing_metadata as usize,
                    missing_artifacts: c.missing_artifacts as usize,
                },
            ),
            _ => None,
        },
        config: ConfigModel {
            source_replacement_detected: m.source_replacement,
            credentials_file_present: m.credentials,
            auth_assumptions: m.auth_assumptions,
        },
        findings: sorted_keys(all),
        errors: sort_texts(m.errors),
        notes: report_notes(m.offline),
    }
}

// ---------------------------------------------------------------------------
// Executable pieces
// ---------------------------------------------------------------------------

/// An artifact observation while a report is assembled.
pub struct Observation {
    pub path: Vec<char>,
    pub package: Vec<char>,
    pub version: Vec<char>,
    pub bytes: u64,
    pub status: Vec<char>,
}

pub open spec fn observation_model(o: Observation) -> ArtifactModel {
    ArtifactModel {
        path: o.path@,
        package: o.package@,
        version: o.version@,
        bytes: o.bytes,
        status: o.status@,
    }
}

pub open spec fn observation_models(v: Seq<Observation>) -> Seq<ArtifactModel> {
    v.map_values(|o: Observation| observation_model(o))
}

/// The last component of a `/`-separated path.
pub fn file_name_exec(path: &Vec<char>) -> (r: Vec<char>)
    ensures
        r@ == file_name_of(path@),
{
    match rfind_char(path, '/') {
        Some(p) => slice_chars(path, p + 1, path.len()),
        None => copy_chars(path),
    }
}

/// Whether `file` is the artifact file name of `rec`.
fn is_crate_file(rec: &IndexRecord, file: &Vec<char>) -> (r: bool)
    ensures
        r == (crate_file(record_model(*rec)) == file@),
{
    let mut expected = copy_chars(&rec.name);
    push_str(&mut expected, "-");
    push_chars(&mut expected, &rec.version);
    push_str(&mut expected, ".crate");
    eq_chars(&expected, file)
}

/// The position of the first index record whose artifact file name is `file`.
pub fn first_match_exec(index: &Vec<IndexRecord>, file: &Vec<char>) -> (r: Option<usize>)
    ensures
        r matches Some(i) ==> i < index.len() && first_match(records(index@), file@) == Some(
            record_model(index@[i as int]),
        ),
        r is None ==> first_match(records(index@), file@) is None,
{
    let ghost idx = records(index@);
    let mut i: usize = 0;
    assert(idx.skip(0) =~= idx);
    while i < index.len()
        invariant
            idx == records(index@),
            i <= index.len(),
            first_match(idx, file@) == first_match(idx.skip(i as int), file@),
        decreases index.len() - i,
    {
        assert(idx.skip(i as int)[0] == record_model(index@[i as int]));
        if is_crate_file(&index[i], file) {
            return Some(i);
        }
        assert(idx.skip(i as int).drop_first() =~= idx.skip(i + 1));
        i = i + 1;
    }
    None
}

/// `text` followed by `rest`.
fn joined(text: &str, rest: &Vec<char>) -> (r: Vec<char>)
    ensures
        r@ == text@ + rest@,
{
    let mut r = chars_of(text);
    push_chars(&mut r, rest);
    r
}

/// `a`, then `b`, then `c`.
fn joined3(a: &str, b: &Vec<char>, c: &str) -> (r: Vec<char>)
    ensures
        r@ == a@ + b@ + c@,
{
    let mut r = chars_of(a);
    push_chars(&mut r, b);
    push_str(&mut r, c);
    r
}

/// A one-finding list.
fn one_finding(kind: &str, detail: Vec<char>) -> (r: Vec<(Vec<char>, Vec<char>)>)
    ensures
        key_view(r@) == seq![(kind@, detail@)],
{
    let mut r = Vec::new();
    r.push((chars_of(kind), detail));
    assert(key_view(r@) =~= seq![(kind@, detail@)]);
    r
}

/// The checksum status of a matched artifact whose digest, in lowercase hex,
/// is `actual`, and the findings it raises.
pub fn digest_status_exec(
    rec: &IndexRecord,
    path: &Vec<char>,
    actual: &Vec<char>,
) -> (r: (Vec<char>, Vec<(Vec<char>, Vec<char>)>))
    ensures
        (r.0@, key_view(r.1@)) == digest_status(record_model(*rec), path@, actual@),
{
    match &rec.checksum {
        Some(expected) => {
            if eq_chars(expected, actual) {
                let found: Vec<(Vec<char>, Vec<char>)> = Vec::new();
                assert(key_view(found@) =~= Seq::<(Seq<char>, Seq<char>)>::empty());
                (chars_of("verified"), found)
            } else {
                (
                    chars_of("checksum_mismatch"),
                    one_finding("checksum_mismatch", joined3("artifact ", path, " does not match index checksum")),
                )
            }
        },
        None => (
            chars_of("metadata_missing"),
            one_finding("metadata_missing", joined3("index record for ", path, " has no checksum")),
        ),
    }
}

/// The checksum status of a matched artifact and the findings it raises.
fn hash_status_exec(
    rec: &IndexRecord,
    path: &Vec<char>,
    bytes: u64,
    read: &Option<Result<Vec<u8>, String>>,
) -> (r: (Vec<char>, Vec<(Vec<char>, Vec<char>)>))
    ensures
        (r.0@, key_view(r.1@)) == hash_status(record_model(*rec), path@, bytes, read_model(*read)),
{
    let too_large = bytes > MAX_ARTIFACT_HASH_BYTES || match read {
        Some(Ok(data)) => data.len() as u64 > MAX_ARTIFACT_HASH_BYTES,
        _ => false,
    };
    if too_large {
        return (chars_of("size_limit"), one_finding("hash_limit", joined3("artifact ", path, " exceeds hash bound")));
    }
    match read {
        Some(Ok(data)) => {
            let actual = sha256_hex(data.as_slice());
            digest_status_exec(rec, path, &actual)
        },
        Some(Err(e)) => {
            let mut detail = joined3("artifact ", path, ": ");
            let msg = chars_of(e.as_str());
            push_chars(&mut detail, &msg);
            (chars_of("unreadable"), one_finding("artifact_unreadable", detail))
        },
        None => (chars_of("unreadable"), one_finding("artifact_unreadable", joined3("artifact ", path, ": "))),
    }
}

/// The observation of one artifact and the findings it raises, in order.
pub fn observe_exec(
    index: &Vec<IndexRecord>,
    path: &Vec<char>,
    bytes: u64,
    read: &Option<Result<Vec<u8>, String>>,
) -> (r: (Observation, Vec<(Vec<char>, Vec<char>)>))
    ensures
        (observation_model(r.0), key_view(r.1@)) == observe(records(index@), (path@, bytes), read_model(*read)),
{
    let file = file_name_exec(path);
    match first_match_exec(index, &file) {
        None => {
            let o = Observation {
                path: copy_chars(path),
                package: Vec::new(),
                version: Vec::new(),
                bytes,
                status: chars_of("metadata_missing"),
            };
            assert(o.package@ =~= Seq::<char>::empty());
            assert(o.version@ =~= Seq::<char>::empty());
            (o, one_finding("metadata_missing", joined("no index metadata matches artifact ", path)))
        },
        Some(i) => {
            let rec = &index[i];
            let (status, mut found) = hash_status_exec(rec, path, bytes, read);
            if rec.yanked {
                let mut detail = joined("index marks ", &rec.name);
                push_str(&mut detail, " ");
                push_chars(&mut detail, &rec.version);
                push_str(&mut detail, " as yanked");
                let ghost before = found@;
                found.push((chars_of("yanked_metadata"), detail));
                assert(key_view(found@) =~= key_view(before).push(
                    (
                        "yanked_metadata"@,
                        "index marks "@ + rec.name@ + " "@ + rec.version@ + " as yanked"@,
                    ),
                ));
            }
            let o = Observation {
                path: copy_chars(path),
                package: copy_chars(&rec.name),
                version: copy_chars(&rec.version),
                bytes,
                status,
            };
            (o, found)
        },
    }
}

/// Add a finding within the findings bound.
pub fn add_finding_pair(findings: &mut Vec<(Vec<char>, Vec<char>)>, f: (Vec<char>, Vec<char>))
    ensures
        key_view(final(findings)@) == capped_findings(key_view(old(findings)@), (f.0@, f.1@)),
{
    if findings.len() < MAX_FINDINGS {
        let ghost before = findings@;
        let ghost fv = (f.0@, f.1@);
        findings.push(f);
        assert(key_view(findings@) =~= key_view(before).push(fv));
    }
}

/// Add findings one by one within the findings bound.
pub fn add_findings_exec(findings: &mut Vec<(Vec<char>, Vec<char>)>, new: &Vec<(Vec<char>, Vec<char>)>)
    ensures
        key_view(final(findings)@) == add_findings(key_view(old(findings)@), key_view(new@)),
{
    let ghost start = key_view(findings@);
    let ghost nv = key_view(new@);
    let mut k: usize = 0;
    assert(nv.take(0) =~= Seq::<(Seq<char>, Seq<char>)>::empty());
    while k < new.len()
        invariant
            nv == key_view(new@),
            k <= new.len(),
            key_view(findings@) == add_findings(start, nv.take(k as int)),
        decreases new.len() - k,
    {
        let f = (copy_chars(&new[k].0), copy_chars(&new[k].1));
        assert(nv.take(k + 1).drop_last() =~= nv.take(k as int));
        assert(nv.take(k + 1).last() == (f.0@, f.1@));
        add_finding_pair(findings, f);
        k = k + 1;
    }
    assert(nv.take(k as int) =~= nv);
}

/// Whether the ordered index holds a record for `name` and `version`.
pub fn has_record_exec(index: &Vec<IndexRecord>, name: &Vec<char>, version: &Vec<char>) -> (r: bool)
    requires
        index_sorted(records(index@)),
    ensures
        r == has_record(records(index@), (name@, version@)),
{
    let ghost idx = records(index@);
    let ghost pk = (name@, version@);
    let k = (copy_chars(name), copy_chars(version));
    let mut lo: usize = 0;
    let mut hi: usize = index.len();
    while lo < hi
        invariant
            idx == records(index@),
            index_sorted(idx),
            pk == (name@, version@),
            (k.0@, k.1@) == pk,
            lo <= hi <= index.len(),
            forall|t: int| 0 <= t < lo ==> key_lt(record_key(#[trigger] idx[t]), pk),
            forall|t: int| hi <= t < index.len() ==> !key_lt(record_key(#[trigger] idx[t]), pk),
        decreases hi - lo,
    {
        let mid = lo + (hi - lo) / 2;
        let mk = (copy_chars(&index[mid].name), copy_chars(&index[mid].version));
        assert(record_key(idx[mid as int]) == (mk.0@, mk.1@));
        if crate::order::key_lt_exec(&mk, &k) {
            assert forall|t: int| 0 <= t <= mid implies key_lt(record_key(#[trigger] idx[t]), pk) by {
                if t < mid {
                    lemma_key_lt_order(record_key(idx[t]), record_key(idx[mid as int]), pk);
                }
            }
            lo = mid + 1;
        } else {
            assert forall|t: int| mid <= t < index.len() implies !key_lt(
                record_key(#[trigger] idx[t]),
                pk,
            ) by {
                if t > mid {
                    lemma_key_lt_order(record_key(idx[mid as int]), record_key(idx[t]), pk);
                }
            }
            hi = mid;
        }
    }
    let found = lo < index.len() && eq_chars(&index[lo].name, name) && eq_chars(&index[lo].version, version);
    proof {
        if found {
            assert(idx[lo as int].name == pk.0 && idx[lo as int].version == pk.1);
        } else {
            assert forall|i: int| 0 <= i < idx.len() implies !(#[trigger] idx[i].name == pk.0 && idx[i].version
                == pk.1) by {
                lemma_key_lt_order(record_key(idx[i]), pk, pk);
                if i > lo {
                    lemma_key_lt_order(record_key(idx[lo as int]), record_key(idx[i]), pk);
                }
                if idx[i].name == pk.0 && idx[i].version == pk.1 {
                    assert(record_key(idx[i]) == pk);
                }
            }
        }
    }
    found
}

/// Whether an observation belongs to the package `name` `version`.
pub fn has_artifact_exec(obs: &Vec<Observation>, name: &Vec<char>, version: &Vec<char>) -> (r: bool)
    ensures
        r == has_artifact(observation_models(obs@), (name@, version@)),
{
    let ghost om = observation_models(obs@);
    let mut i: usize = 0;
    while i < obs.len()
        invariant
            om == observation_models(obs@),
            i <= obs.len(),
            forall|j: int|
                0 <= j < i ==> !(#[trigger] om[j].package.len() > 0 && om[j].package == name@
                    && om[j].version == version@),
        decreases obs.len() - i,
    {
        assert(om[i as int] == observation_model(obs@[i as int]));
        if obs[i].package.len() > 0 && eq_chars(&obs[i].package, name) && eq_chars(&obs[i].version, version) {
            assert(om[i as int].package.len() > 0 && om[i as int].package == name@ && om[i as int].version
                == version@);
            return true;
        }
        i = i + 1;
    }
    false
}

/// A copy of an observation.
fn copy_observation(o: &Observation) -> (r: Observation)
    ensures
        observation_model(r) == observation_model(*o),
{
    Observation {
        path: copy_chars(&o.path),
        package: copy_chars(&o.package),
        version: copy_chars(&o.version),
        bytes: o.bytes,
        status: copy_chars(&o.status),
    }
}

/// Observations sorted by path, ties in their input order.
pub fn sort_observations(obs: &Vec<Observation>) -> (r: Vec<Observation>)
    ensures
        observation_models(r@) == sort_artifacts(observation_models(obs@)),
{
    let ghost om = observation_models(obs@);
    let mut keys: Vec<(Vec<char>, Vec<char>)> = Vec::new();
    let mut i: usize = 0;
    while i < obs.len()
        invariant
            om == observation_models(obs@),
            i <= obs.len(),
            key_view(keys@) == path_keys(om).take(i as int),
        decreases obs.len() - i,
    {
        let ghost before = keys@;
        keys.push((copy_chars(&obs[i].path), Vec::new()));
        assert(key_view(keys@) =~= path_keys(om).take(i + 1)) by {
            assert(key_view(keys@) =~= key_view(before).push((obs@[i as int].path@, Seq::<char>::empty())));
        }
        i = i + 1;
    }
    assert(path_keys(om).take(obs.len() as int) =~= path_keys(om));
    let o = stable_order_exec(&keys);
    let ghost po = positions(o@);
    let mut r: Vec<Observation> = Vec::new();
    let mut t: usize = 0;
    while t < o.len()
        invariant
            om == observation_models(obs@),
            po == positions(o@),
            po == stable_order(path_keys(om)),
            is_stable_order(path_keys(om), po),
            t <= o.len(),
            observation_models(r@) == permute(om, po).take(t as int),
        decreases o.len() - t,
    {
        let i = o[t];
        assert(po[t as int] == i as int);
        let ghost before = r@;
        r.push(copy_observation(&obs[i]));
        assert(observation_models(r@) =~= permute(om, po).take(t + 1)) by {
            assert(observation_models(r@) =~= observation_models(before).push(om[i as int]));
        }
        t = t + 1;
    }
    assert(permute(om, po).take(o.len() as int) =~= permute(om, po));
    r
}

/// Texts sorted.
pub fn sort_texts_exec(v: &Vec<Vec<char>>) -> (r: Vec<Vec<char>>)
    ensures
        texts(r@) == sort_texts(texts(v@)),
{
    let ghost tv = texts(v@);
    let ghost kv = tv.map_values(|t: Seq<char>| (t, Seq::<char>::empty()));
    let mut keys: Vec<(Vec<char>, Vec<char>)> = Vec::new();
    let mut i: usize = 0;
    while i < v.len()
        invariant
            tv == texts(v@),
            kv == tv.map_values(|t: Seq<char>| (t, Seq::<char>::empty())),
            i <= v.len(),
            key_view(keys@) == kv.take(i as int),
        decreases v.len() - i,
    {
        let ghost before = keys@;
        keys.push((copy_chars(&v[i]), Vec::new()));
        assert(key_view(keys@) =~= kv.take(i + 1)) by {
            assert(key_view(keys@) =~= key_view(before).push((v@[i as int]@, Seq::<char>::empty())));
        }
        i = i + 1;
    }
    assert(kv.take(v.len() as int) =~= kv);
    let sorted = sorted_pairs(&keys);
    let ghost sv = key_view(sorted@);
    let mut r: Vec<Vec<char>> = Vec::new();
    let mut t: usize = 0;
    while t < sorted.len()
        invariant
            sv == key_view(sorted@),
            t <= sorted.len(),
            texts(r@) == sv.map_values(|k: (Seq<char>, Seq<char>)| k.0).take(t as int),
        decreases sorted.len() - t,
    {
        let ghost before = r@;
        r.push(copy_chars(&sorted[t].0));
        assert(texts(r@) =~= sv.map_values(|k: (Seq<char>, Seq<char>)| k.0).take(t + 1)) by {
            assert(texts(r@) =~= texts(before).push(sorted@[t as int].0@));
        }
        t = t + 1;
    }
    assert(sv.map_values(|k: (Seq<char>, Seq<char>)| k.0).take(sorted.len() as int) =~= sv.map_values(
        |k: (Seq<char>, Seq<char>)| k.0,
    ));
    r
}

/// How many observations have the status `verified`.
pub fn count_verified_exec(obs: &Vec<Observation>) -> (r: usize)
    ensures
        r == count_verified(observation_models(obs@)),
{
    let ghost om = observation_models(obs@);
    let mut n: usize = 0;
    let mut i: usize = 0;
    assert(om.take(0) =~= Seq::<ArtifactModel>::empty());
    while i < obs.len()
        invariant
            om == observation_models(obs@),
            i <= obs.len(),
            n == count_verified(om.take(i as int)),
            n <= i,
        decreases obs.len() - i,
    {
        assert(om.take(i + 1).drop_last() =~= om.take(i as int));
        assert(om.take(i + 1).last() == observation_model(obs@[i as int]));
        if crate::text::eq_str(&obs[i].status, "verified") {
            n = n + 1;
        }
        i = i + 1;
    }
    assert(om.take(obs.len() as int) =~= om);
    n
}

/// Strings made from texts.
pub fn strings_of(v: &Vec<Vec<char>>) -> (r: Vec<String>)
    ensures
        strings(r@) == texts(v@),
{
    let mut r: Vec<String> = Vec::new();
    let mut i: usize = 0;
    while i < v.len()
        invariant
            i <= v.len(),
            strings(r@) == texts(v@).take(i as int),
        decreases v.len() - i,
    {
        let ghost before = r@;
        r.push(string_from_chars(&v[i]));
        assert(strings(r@) =~= texts(v@).take(i + 1)) by {
            assert(strings(r@) =~= strings(before).push(v@[i as int]@));
        }
        i = i + 1;
    }
    assert(texts(v@).take(v.len() as int) =~= texts(v@));
    r
}

/// Findings made from pairs of texts.
pub fn findings_of(v: &Vec<(Vec<char>, Vec<char>)>) -> (r: Vec<Finding>)
    ensures
        r@.map_values(|f: Finding| f@) == key_view(v@),
{
    let mut r: Vec<Finding> = Vec::new();
    let mut i: usize = 0;
    while i < v.len()
        invariant
            i <= v.len(),
            r@.map_values(|f: Finding| f@) == key_view(v@).take(i as int),
        decreases v.len() - i,
    {
        let ghost before = r@;
        let f = Finding { kind: string_from_chars(&v[i].0), detail: string_from_chars(&v[i].1) };
        r.push(f);
        assert(r@.map_values(|f: Finding| f@) =~= key_view(v@).take(i + 1)) by {
            assert(r@.map_values(|f: Finding| f@) =~= before.map_values(|f: Finding| f@).push(
                (v@[i as int].0@, v@[i as int].1@),
            ));
        }
        i = i + 1;
    }
    assert(key_view(v@).take(v.len() as int) =~= key_view(v@));
    r
}

/// Artifact observations for the report.
pub fn artifacts_of(v: &Vec<Observation>) -> (r: Vec<ArtifactObservation>)
    ensures
        r@.map_values(|a: ArtifactObservation| a@) == observation_models(v@),
{
    let mut r: Vec<ArtifactObservation> = Vec::new();
    let mut i: usize = 0;
    while i < v.len()
        invariant
            i <= v.len(),
            r@.map_values(|a: ArtifactObservation| a@) == observation_models(v@).take(i as int),
        decreases v.len() - i,
    {
        let ghost before = r@;
        let o = &v[i];
        let a = ArtifactObservation {
            path: string_from_chars(&o.path),
            package: string_from_chars(&o.package),
            version: string_from_chars(&o.version),
            bytes: o.bytes,
            checksum_status: string_from_chars(&o.status),
        };
        r.push(a);
        assert(r@.map_values(|a: ArtifactObservation| a@) =~= observation_models(v@).take(i + 1)) by {
            assert(r@.map_values(|a: ArtifactObservation| a@) =~= before.map_values(
                |a: ArtifactObservation| a@,
            ).push(observation_model(v@[i as int])));
        }
        i = i + 1;
    }
    assert(observation_models(v@).take(v.len() as int) =~= observation_models(v@));
    r
}

/// The notes of a report.
pub fn notes_exec(offline: bool) -> (r: Vec<Vec<char>>)
    ensures
        texts(r@) == report_notes(offline),
{
    let mut r: Vec<Vec<char>> = Vec::new();
    r.push(chars_of("no network, Cargo command, registry login, or package installation was performed"));
    let mut second = chars_of("artifact hashes are checked only up to ");
    push_decimal(&mut second, MAX_ARTIFACT_HASH_BYTES);
    push_str(&mut second, " bytes");
    r.push(second);
    r.push(chars_of("credential file presence is recorded without reading credential values"));
    if offline {
        r.push(chars_of("offline mode was selected by the operator; the scanner itself never uses the network"));
    }
    assert(texts(r@) =~= report_notes(offline));
    r
}

} // verus!
