use serde_json::Value;
use cache_doctor::{
    CacheReport, FileAction, FsOperation, ScanOptions, ScanState, bounded_report, entry_order,
    explain_report, MAX_ARTIFACT_HASH_BYTES, MAX_ERRORS, MAX_SCAN_FILES,
};

/// SHA-256 of `abc`, lowercase hex.
const ABC_SHA256: &str = "ba7816bf8f01cfea414140de5dae2223b00361a396177a9cb410ff61f20015ad";

/// A directory tree held in memory, standing for a cache fixture.
enum Node {
    Dir(Vec<(String, Node)>),
    File(Vec<u8>, i128),
}

fn dir(entries: Vec<(&str, Node)>) -> Node {
    Node::Dir(entries.into_iter().map(|(n, e)| (n.to_string(), e)).collect())
}

fn file(contents: &[u8], modified: i128) -> Node {
    Node::File(contents.to_vec(), modified)
}

fn text(data: &[u8]) -> Result<String, String> {
    String::from_utf8(data.to_vec()).map_err(|e| e.to_string())
}

/// Walks `node` the way the command-line tool walks a directory.
fn walk(state: &mut ScanState, node: &Node, relative: &str, artifacts: &mut Vec<Vec<u8>>) {
    let entries = match node {
        Node::Dir(entries) => entries,
        Node::File(..) => return,
    };
    let names: Vec<Vec<u8>> = entries.iter().map(|(n, _)| n.as_bytes().to_vec()).collect();
    for i in entry_order(&names) {
        if !state.next_entry() {
            return;
        }
        let (name, child) = &entries[i];
        let child_relative = if relative.is_empty() {
            name.clone()
        } else {
            format!("{relative}/{name}")
        };
        match child {
            Node::Dir(_) => walk(state, child, &child_relative, artifacts),
            Node::File(data, modified) => {
                match state.scan_file(name, &child_relative, data.len() as u64) {
                    FileAction::Artifact => artifacts.push(data.clone()),
                    FileAction::ReadConfig => {
                        state.inspect_config(&format!("/fixture/{child_relative}"), text(data))
                    }
                    FileAction::ReadLockfile => {
                        state.record_lockfile(&child_relative, Some(*modified), text(data))
                    }
                    FileAction::ReadIndex => {
                        state.inspect_index(&child_relative, Some(*modified), text(data))
                    }
                    FileAction::Credentials | FileAction::Skip => {}
                }
            }
        }
    }
}

fn scan(root: &Node, offline: bool) -> CacheReport {
    let mut state = ScanState::new("/fixture", &ScanOptions { offline });
    let mut artifacts = Vec::new();
    if state.check_root(true, true) {
        walk(&mut state, root, "", &mut artifacts);
    }
    let plan = state.hash_plan();
    let reads = plan
        .iter()
        .zip(artifacts)
        .map(|(planned, data)| if *planned { Some(Ok(data)) } else { None })
        .collect();
    state.finalize_report(reads)
}

fn package_lock(name: &str, version: &str) -> String {
    format!("[[package]]\nname = \"{name}\"\nversion = \"{version}\"\n")
}

fn record(name: &str, version: &str, checksum: &str) -> String {
    format!("{{\"name\":\"{name}\",\"vers\":\"{version}\",\"cksum\":\"{checksum}\",\"yanked\":false}}\n")
}

fn artifact_fixture(contents: &[u8], checksum: &str) -> Node {
    dir(vec![
        ("Cargo.lock", file(package_lock("demo", "1.0.0").as_bytes(), 10)),
        (
            "registry",
            dir(vec![
                ("cache", dir(vec![("demo-1.0.0.crate", file(contents, 5))])),
                ("index", dir(vec![("demo", file(record("demo", "1.0.0", checksum).as_bytes(), 20))])),
            ]),
        ),
    ])
}

fn object(fields: Vec<(&str, Value)>) -> Value {
    let mut object = serde_json::Map::new();
    for (key, value) in fields {
        object.insert(key.to_string(), value);
    }
    Value::Object(object)
}

/// The report as the command-line tool renders it: a JSON object holding
/// every field of the report, held to the output bound.
fn report_json(report: &CacheReport) -> Result<String, String> {
    let artifacts: Vec<Value> = report
        .artifacts
        .iter()
        .map(|a| {
            object(vec![
                ("path", Value::from(a.path.clone())),
                ("package", Value::from(a.package.clone())),
                ("version", Value::from(a.version.clone())),
                ("bytes", Value::from(a.bytes)),
                ("checksum_status", Value::from(a.checksum_status.clone())),
            ])
        })
        .collect();
    let lockfile = match &report.lockfile {
        Some(l) => object(vec![
            ("path", Value::from(l.path.clone())),
            ("package_count", Value::from(l.package_count)),
            ("missing_metadata", Value::from(l.missing_metadata)),
            ("missing_artifacts", Value::from(l.missing_artifacts)),
        ]),
        None => Value::Null,
    };
    let config = object(vec![
        ("source_replacement_detected", Value::from(report.config.source_replacement_detected)),
        ("credentials_file_present", Value::from(report.config.credentials_file_present)),
        ("auth_assumptions", Value::from(report.config.auth_assumptions.clone())),
    ]);
    let findings: Vec<Value> = report
        .findings
        .iter()
        .map(|f| {
            object(vec![("kind", Value::from(f.kind.clone())), ("detail", Value::from(f.detail.clone()))])
        })
        .collect();
    let rendered = object(vec![
        ("schema_version", Value::from(report.schema_version)),
        ("ecosystem", Value::from(report.ecosystem.clone())),
        ("root", Value::from(report.root.clone())),
        ("offline", Value::from(report.offline)),
        ("complete", Value::from(report.complete)),
        ("scan_count", Value::from(report.scan_count)),
        ("artifact_count", Value::from(report.artifact_count)),
        ("metadata_record_count", Value::from(report.metadata_record_count)),
        ("lockfile_package_count", Value::from(report.lockfile_package_count)),
        ("verified_artifact_count", Value::from(report.verified_artifact_count)),
        ("missing_artifact_count", Value::from(report.missing_artifact_count)),
        ("artifacts", Value::from(artifacts)),
        ("lockfile", lockfile),
        ("config", config),
        ("findings", Value::from(findings)),
        ("errors", Value::from(report.errors.clone())),
        ("notes", Value::from(report.notes.clone())),
    ]);
    bounded_report(serde_json::to_string(&rendered).map_err(|e| e.to_string())?)
}

#[test]
fn complete_offline_cache_is_verified() {
    let report = scan(&artifact_fixture(b"abc", ABC_SHA256), true);
    assert!(report.complete);
    assert!(report.offline);
    assert_eq!(report.verified_artifact_count, 1);
    assert_eq!(report.missing_artifact_count, 0);
}

#[test]
fn artifact_without_metadata_is_reported() {
    let root = dir(vec![(
        "registry",
        dir(vec![("cache", dir(vec![("demo-1.0.0.crate", file(b"crate", 1))]))]),
    )]);
    let report = scan(&root, false);
    assert!(report.findings.iter().any(|finding| finding.kind == "metadata_missing"));
}

#[test]
fn metadata_without_artifact_is_reported() {
    let root = dir(vec![
        ("Cargo.lock", file(package_lock("demo", "1.0.0").as_bytes(), 2)),
        (
            "registry",
            dir(vec![(
                "index",
                dir(vec![("demo", file(b"{\"name\":\"demo\",\"vers\":\"1.0.0\",\"cksum\":\"abc\"}\n", 3))]),
            )]),
        ),
    ]);
    let report = scan(&root, false);
    assert!(report.findings.iter().any(|finding| finding.kind == "artifact_missing"));
}

#[test]
fn wrong_checksum_is_reported() {
    let report = scan(&artifact_fixture(b"crate", &"0".repeat(64)), false);
    assert!(report.findings.iter().any(|finding| finding.kind == "checksum_mismatch"));
}

#[test]
fn private_source_does_not_read_credentials() {
    let root = dir(vec![
        (
            ".cargo",
            dir(vec![(
                "config.toml",
                file(
                    b"[source.crates-io]\nreplace-with = \"private\"\n[source.private]\nregistry = \"https://example.invalid\"\n",
                    1,
                ),
            )]),
        ),
        ("credentials.toml", file(b"token = \"secret\"\n", 1)),
    ]);
    let report = scan(&root, false);
    assert!(report.config.source_replacement_detected);
    assert!(report.config.credentials_file_present);
    assert!(!report.findings.iter().any(|finding| finding.detail.contains("secret")));
}

#[test]
fn stale_index_is_reported_against_newer_lockfile() {
    let root = dir(vec![
        ("Cargo.lock", file(package_lock("demo", "1.0.0").as_bytes(), 200)),
        (
            "registry",
            dir(vec![(
                "index",
                dir(vec![("demo", file(b"{\"name\":\"demo\",\"vers\":\"1.0.0\",\"cksum\":\"abc\"}\n", 100))]),
            )]),
        ),
    ]);
    let report = scan(&root, false);
    assert!(report.findings.iter().any(|finding| finding.kind == "stale_index"));
}

#[test]
fn malformed_cache_file_is_reported() {
    let root = dir(vec![(
        "registry",
        dir(vec![("index", dir(vec![("bad", file(b"{not valid metadata}\n", 1))]))]),
    )]);
    let report = scan(&root, false);
    assert!(report.findings.iter().any(|finding| finding.kind == "malformed_metadata"));
}

#[test]
fn scan_bound_and_report_are_deterministic() {
    let root = dir(vec![(
        "registry",
        dir(vec![("cache", dir(vec![("a-1.0.0.crate", file(b"a", 1))]))]),
    )]);
    let first = scan(&root, false);
    let second = scan(&root, false);
    assert_eq!(first, second);
    assert!(report_json(&first).is_ok());
    assert_eq!(report_json(&first), report_json(&second));
}

#[test]
fn scan_bound_is_reported() {
    let entries: Vec<(String, Node)> = (0..=MAX_SCAN_FILES)
        .map(|index| (format!("entry-{index}.crate"), file(b"x", 1)))
        .collect();
    let root = dir(vec![("registry", dir(vec![("cache", Node::Dir(entries))]))]);
    let report = scan(&root, false);
    assert!(!report.complete);
    assert!(report.errors.iter().any(|error| error.contains("scan exceeds")));
    assert_eq!(report.scan_count, MAX_SCAN_FILES);
    assert_eq!(report.errors, vec!["scan exceeds 512 filesystem entries".to_string()]);
}

#[test]
fn verified_artifact_report_is_exact() {
    let report = scan(&artifact_fixture(b"abc", ABC_SHA256), false);
    assert_eq!(report.schema_version, 1);
    assert_eq!(report.ecosystem, "cargo");
    assert_eq!(report.root, "/fixture");
    assert_eq!(report.scan_count, 6);
    assert_eq!(report.artifact_count, 1);
    assert_eq!(report.metadata_record_count, 1);
    assert_eq!(report.lockfile_package_count, 1);
    let artifact = &report.artifacts[0];
    assert_eq!(artifact.path, "registry/cache/demo-1.0.0.crate");
    assert_eq!(artifact.package, "demo");
    assert_eq!(artifact.version, "1.0.0");
    assert_eq!(artifact.bytes, 3);
    assert_eq!(artifact.checksum_status, "verified");
    let lockfile = report.lockfile.as_ref().unwrap();
    assert_eq!(lockfile.path, "Cargo.lock");
    assert_eq!(lockfile.package_count, 1);
    assert_eq!(lockfile.missing_metadata, 0);
    assert_eq!(lockfile.missing_artifacts, 0);
    assert!(report.findings.is_empty());
    assert_eq!(report.notes.len(), 3);
    assert_eq!(report.notes[1], "artifact hashes are checked only up to 67108864 bytes");
}

#[test]
fn offline_note_is_added() {
    let report = scan(&dir(vec![]), true);
    assert_eq!(report.notes.len(), 4);
    assert_eq!(
        report.notes[3],
        "offline mode was selected by the operator; the scanner itself never uses the network"
    );
    assert!(report.complete);
    assert_eq!(report.scan_count, 0);
}

#[test]
fn missing_root_is_an_error() {
    let mut state = ScanState::new("/nowhere\\cache", &ScanOptions::default());
    assert!(!state.check_root(false, false));
    let report = state.finalize_report(Vec::new());
    assert!(!report.complete);
    assert_eq!(report.root, "/nowhere/cache");
    assert_eq!(report.errors, vec!["cache root /nowhere/cache does not exist".to_string()]);
}

#[test]
fn root_that_is_a_file_is_an_error() {
    let mut state = ScanState::new("", &ScanOptions::default());
    assert!(!state.check_root(true, false));
    let report = state.finalize_report(Vec::new());
    assert_eq!(report.root, ".");
    assert_eq!(report.errors, vec!["cache root . is not a directory".to_string()]);
}

#[test]
fn filesystem_errors_are_recorded_sorted_and_capped() {
    let mut state = ScanState::new("/fixture", &ScanOptions::default());
    state.record_error(&FsOperation::Metadata("b\\x".to_string()), "denied");
    state.record_error(&FsOperation::ReadDir(String::new()), "gone");
    state.record_error(&FsOperation::ReadDirEntry, "broken");
    let report = state.finalize_report(Vec::new());
    assert_eq!(
        report.errors,
        vec![
            "metadata b/x: denied".to_string(),
            "read_dir .: gone".to_string(),
            "read_dir entry: broken".to_string(),
        ]
    );
    let mut state = ScanState::new("/fixture", &ScanOptions::default());
    for index in 0..40 {
        state.record_error(&FsOperation::ReadDirEntry, &format!("{index:02}"));
    }
    let report = state.finalize_report(Vec::new());
    assert_eq!(report.errors.len(), MAX_ERRORS);
    assert_eq!(report.errors[0], "read_dir entry: 00");
    assert_eq!(report.errors[31], "read_dir entry: 31");
}

#[test]
fn read_failures_are_recorded() {
    let mut state = ScanState::new("/fixture", &ScanOptions::default());
    assert_eq!(state.scan_file("config", "config", 4), FileAction::ReadConfig);
    state.inspect_config("/fixture/config", Err("denied".to_string()));
    assert_eq!(state.scan_file("Cargo.lock", "Cargo.lock", 4), FileAction::ReadLockfile);
    state.record_lockfile("Cargo.lock", None, Err("file exceeds 1048576 byte bound".to_string()));
    assert_eq!(state.scan_file("demo", "index/demo", 4), FileAction::ReadIndex);
    state.inspect_index("index/demo", None, Err("invalid".to_string()));
    let report = state.finalize_report(Vec::new());
    assert_eq!(
        report.errors,
        vec![
            "read config /fixture/config: denied".to_string(),
            "read index index/demo: invalid".to_string(),
            "read lockfile Cargo.lock: file exceeds 1048576 byte bound".to_string(),
        ]
    );
    assert!(report.lockfile.is_none());
}

#[test]
fn file_actions_follow_names_and_places() {
    let mut state = ScanState::new("/fixture", &ScanOptions::default());
    assert_eq!(state.scan_file("credentials", "credentials", 9), FileAction::Credentials);
    assert_eq!(state.scan_file("config.toml", ".cargo/config.toml", 9), FileAction::ReadConfig);
    assert_eq!(state.scan_file("x.crate", "cache/x.crate", 9), FileAction::Artifact);
    assert_eq!(state.scan_file("serde", "registry/index/se/serde", 9), FileAction::ReadIndex);
    assert_eq!(state.scan_file("serde", ".cache/se/serde", 9), FileAction::ReadIndex);
    assert_eq!(state.scan_file("serde", "registry/src/serde", 9), FileAction::Skip);
    assert_eq!(state.scan_file("Cargo.lock", "Cargo.lock", 9), FileAction::ReadLockfile);
    state.record_lockfile("Cargo.lock", None, Ok(String::new()));
    assert_eq!(state.scan_file("Cargo.lock", "index/Cargo.lock", 9), FileAction::ReadIndex);
    assert_eq!(state.scan_file("Cargo.lock", "other/Cargo.lock", 9), FileAction::Skip);
}

#[test]
fn yanked_record_and_missing_checksum_are_reported() {
    let root = dir(vec![(
        "registry",
        dir(vec![
            ("cache", dir(vec![("demo-1.0.0.crate", file(b"abc", 1))])),
            (
                "index",
                dir(vec![("demo", file(b"{\"name\":\"demo\",\"vers\":\"1.0.0\",\"yanked\":true}\n", 1))]),
            ),
        ]),
    )]);
    let report = scan(&root, false);
    assert_eq!(report.artifacts[0].checksum_status, "metadata_missing");
    let findings: Vec<(String, String)> =
        report.findings.iter().map(|f| (f.kind.clone(), f.detail.clone())).collect();
    assert_eq!(
        findings,
        vec![
            (
                "metadata_missing".to_string(),
                "index record for registry/cache/demo-1.0.0.crate has no checksum".to_string()
            ),
            ("yanked_metadata".to_string(), "index marks demo 1.0.0 as yanked".to_string()),
        ]
    );
}

#[test]
fn oversized_artifact_is_not_hashed() {
    let mut state = ScanState::new("/fixture", &ScanOptions::default());
    assert_eq!(
        state.scan_file("demo-1.0.0.crate", "demo-1.0.0.crate", MAX_ARTIFACT_HASH_BYTES + 1),
        FileAction::Artifact
    );
    assert_eq!(state.scan_file("demo", "index/demo", 10), FileAction::ReadIndex);
    state.inspect_index("index/demo", None, Ok(record("demo", "1.0.0", ABC_SHA256)));
    assert_eq!(state.hash_plan(), vec![false]);
    let report = state.finalize_report(vec![None]);
    assert_eq!(report.artifacts[0].checksum_status, "size_limit");
    assert_eq!(report.findings[0].kind, "hash_limit");
    assert_eq!(report.findings[0].detail, "artifact demo-1.0.0.crate exceeds hash bound");
}

#[test]
fn unreadable_artifact_is_reported() {
    let mut state = ScanState::new("/fixture", &ScanOptions::default());
    state.scan_file("demo-1.0.0.crate", "c/demo-1.0.0.crate", 3);
    state.inspect_index("index/demo", None, Ok(record("demo", "1.0.0", ABC_SHA256)));
    assert_eq!(state.hash_plan(), vec![true]);
    let report = state.finalize_report(vec![Some(Err("permission denied".to_string()))]);
    assert_eq!(report.artifacts[0].checksum_status, "unreadable");
    assert_eq!(report.findings[0].kind, "artifact_unreadable");
    assert_eq!(report.findings[0].detail, "artifact c/demo-1.0.0.crate: permission denied");
}

#[test]
fn authentication_assumption_without_credentials() {
    let root = dir(vec![(
        "config",
        file(b"[source.crates-io]\nreplace-with = \"mirror\"\n", 1),
    )]);
    let report = scan(&root, false);
    assert!(report.config.source_replacement_detected);
    assert!(!report.config.credentials_file_present);
    assert_eq!(
        report.config.auth_assumptions,
        vec![
            "registry or source configuration may require authentication; credential values were not read"
                .to_string()
        ]
    );
    assert_eq!(report.findings.len(), 1);
    assert_eq!(report.findings[0].kind, "authentication_assumption");
}

#[test]
fn repeated_index_record_counts_once() {
    let mut state = ScanState::new("/fixture", &ScanOptions::default());
    let lines = format!(
        "{}{}\0{}",
        record("b", "1.0.0", "x"),
        record("a", "2.0.0", "y"),
        record("b", "1.0.0", "z")
    );
    state.inspect_index("index/x", None, Ok(lines));
    let report = state.finalize_report(Vec::new());
    assert_eq!(report.metadata_record_count, 2);
    assert!(report.findings.is_empty());
}

#[test]
fn lockfile_packages_are_checked_in_order() {
    let mut state = ScanState::new("/fixture", &ScanOptions::default());
    let lock = "version = 3\n\n[[package]]\nname = \"zeta\"\nversion = \"1.0.0\"\r\n\n[[package]]\nname = \"alpha\"\nversion = \"0.1.0\"\n";
    state.record_lockfile("Cargo.lock", Some(5), Ok(lock.to_string()));
    state.inspect_index("index/alpha", Some(1), Ok(record("alpha", "0.1.0", "c")));
    let report = state.finalize_report(Vec::new());
    let lockfile = report.lockfile.as_ref().unwrap();
    assert_eq!(lockfile.package_count, 2);
    assert_eq!(lockfile.missing_metadata, 1);
    assert_eq!(lockfile.missing_artifacts, 2);
    assert_eq!(report.missing_artifact_count, 2);
    let details: Vec<&str> = report.findings.iter().map(|f| f.detail.as_str()).collect();
    assert_eq!(
        details,
        vec![
            "lockfile package alpha 0.1.0 has no cached artifact",
            "lockfile package zeta 1.0.0 has no cached artifact",
            "lockfile package zeta 1.0.0 is absent from the index",
            "index file index/alpha predates the lockfile",
        ]
    );
}

#[test]
fn directory_entries_are_visited_in_byte_order() {
    let names: Vec<Vec<u8>> = vec![b"b".to_vec(), b"a0".to_vec(), b"B".to_vec(), b"a".to_vec(), vec![0xff]];
    assert_eq!(entry_order(&names), vec![2, 3, 1, 0, 4]);
}

#[test]
fn explanation_lists_findings_and_errors() {
    let mut state = ScanState::new("/c", &ScanOptions::default());
    state.scan_file("x-1.0.0.crate", "x-1.0.0.crate", 1);
    state.record_error(&FsOperation::ReadDirEntry, "oops");
    let report = state.finalize_report(vec![None]);
    assert_eq!(
        explain_report(&report),
        "root: /c\noffline: false\ncomplete: false\nscanned: 0\nartifacts: 1\nmetadata records: 0\n\
lockfile packages: 0\nverified artifacts: 0\nmissing artifacts: 0\nsource replacement: false\n\
credentials file present: false\nfindings:\n- [metadata_missing] no index metadata matches artifact x-1.0.0.crate\n\
errors:\n- read_dir entry: oops"
    );
}

#[test]
fn explanation_of_clean_report_has_no_lists() {
    let report = scan(&dir(vec![]), false);
    let text = explain_report(&report);
    assert!(text.contains("complete: true"));
    assert!(!text.contains("findings:"));
    assert!(!text.contains("errors:"));
    assert_eq!(text.lines().count(), 11);
}

#[test]
fn offline_flag_only_marks_the_report() {
    let fixture = artifact_fixture(b"abc", "0");
    let plain = scan(&fixture, false);
    let marked = scan(&fixture, true);
    assert!(!plain.offline);
    assert!(marked.offline);
    assert_eq!(plain.notes.len() + 1, marked.notes.len());
    assert_eq!(plain.notes[..], marked.notes[..3]);
    let mut unmarked = marked.clone();
    unmarked.offline = false;
    unmarked.notes.pop();
    assert_eq!(unmarked, plain);
}

#[test]
fn authentication_note_is_recorded_once() {
    let root = dir(vec![
        ("a", dir(vec![("config", file(b"[registry]\ndefault = \"x\"\n", 1))])),
        ("b", dir(vec![("config.toml", file(b"[source.y]\n", 1))])),
        ("c", dir(vec![("config", file(b"[net]\noffline = true\n", 1))])),
    ]);
    let report = scan(&root, false);
    assert_eq!(report.config.auth_assumptions.len(), 1);
    assert!(report.config.source_replacement_detected);
    assert_eq!(report.findings.len(), 1);
    assert_eq!(report.findings[0].kind, "authentication_assumption");
}

#[test]
fn index_predating_lockfile_needs_both_times() {
    let mut state = ScanState::new("/fixture", &ScanOptions::default());
    state.record_lockfile("Cargo.lock", Some(10), Ok(String::new()));
    state.inspect_index("index/a", Some(10), Ok(String::new()));
    state.inspect_index("index/b", None, Ok(String::new()));
    state.inspect_index("index/c", Some(9), Ok(String::new()));
    let report = state.finalize_report(Vec::new());
    let details: Vec<&str> = report.findings.iter().map(|f| f.detail.as_str()).collect();
    assert_eq!(details, vec!["index file index/c predates the lockfile"]);
    let mut state = ScanState::new("/fixture", &ScanOptions::default());
    state.record_lockfile("Cargo.lock", None, Ok(String::new()));
    state.inspect_index("index/c", Some(9), Ok(String::new()));
    assert!(state.finalize_report(Vec::new()).findings.is_empty());
}

#[test]
fn findings_are_capped() {
    let mut state = ScanState::new("/fixture", &ScanOptions::default());
    let mut reads = Vec::new();
    for index in 0..600 {
        let name = format!("p{index:03}-1.crate");
        state.scan_file(&name, &name, 1);
        reads.push(None);
    }
    let report = state.finalize_report(reads);
    assert_eq!(report.artifact_count, 600);
    assert_eq!(report.findings.len(), cache_doctor::MAX_FINDINGS);
    assert_eq!(report.findings[0].detail, "no index metadata matches artifact p000-1.crate");
    assert_eq!(report.findings[511].detail, "no index metadata matches artifact p511-1.crate");
}

#[test]
fn inspect_json_and_offline_text_work() {
    let root = dir(vec![(
        "Cargo.lock",
        file(b"[[package]]\nname = \"demo\"\nversion = \"1.0.0\"\n", 1),
    )]);
    let report = scan(&root, false);
    assert!(report.complete);
    let json: Value = serde_json::from_str(&report_json(&report).unwrap()).unwrap();
    assert_eq!(json["ecosystem"], "cargo");
    assert_eq!(json["offline"], false);
    assert!(explain_report(&report).contains("complete:"));
}

#[test]
fn missing_cargo_home_returns_report_not_panic() {
    let mut state = ScanState::new("/tmp/missing", &ScanOptions::default());
    assert!(!state.check_root(false, false));
    let report = state.finalize_report(Vec::new());
    assert!(!report.complete);
    let json: Value = serde_json::from_str(&report_json(&report).unwrap()).unwrap();
    assert_eq!(json["complete"], false);
}

#[test]
fn cargo_offline_scan_does_not_need_path_helpers() {
    let report = scan(&dir(vec![]), true);
    let json: Value = serde_json::from_str(&report_json(&report).unwrap()).unwrap();
    assert_eq!(json["offline"], true);
    assert_eq!(json["complete"], true);
}

#[test]
fn empty_directory_at_the_bound_leaves_nothing_out() {
    let mut entries: Vec<(String, Node)> = (0..MAX_SCAN_FILES - 1)
        .map(|index| (format!("f{index:03}"), file(b"x", 1)))
        .collect();
    entries.push(("z".to_string(), Node::Dir(Vec::new())));
    let report = scan(&Node::Dir(entries), false);
    assert!(report.complete);
    assert!(report.errors.is_empty());
    assert_eq!(report.scan_count, MAX_SCAN_FILES);
}

#[test]
fn entry_past_the_bound_is_reported_once_per_open_directory() {
    let mut entries: Vec<(String, Node)> = (0..MAX_SCAN_FILES - 1)
        .map(|index| (format!("f{index:03}"), file(b"x", 1)))
        .collect();
    entries.push(("y".to_string(), dir(vec![("inner", file(b"x", 1))])));
    entries.push(("z".to_string(), file(b"x", 1)));
    let report = scan(&Node::Dir(entries), false);
    assert!(!report.complete);
    assert_eq!(report.scan_count, MAX_SCAN_FILES);
    assert_eq!(
        report.errors,
        vec![
            "scan exceeds 512 filesystem entries".to_string(),
            "scan exceeds 512 filesystem entries".to_string()
        ]
    );
}

#[test]
fn visiting_order_ignores_listing_order() {
    let first: Vec<Vec<u8>> = vec![b"b".to_vec(), b"a0".to_vec(), b"B".to_vec(), b"a".to_vec()];
    let second: Vec<Vec<u8>> = vec![b"a".to_vec(), b"B".to_vec(), b"b".to_vec(), b"a0".to_vec()];
    let visit = |names: &Vec<Vec<u8>>| -> Vec<Vec<u8>> {
        entry_order(names).into_iter().map(|i| names[i].clone()).collect()
    };
    assert_eq!(visit(&first), visit(&second));
    assert_eq!(visit(&first), vec![b"B".to_vec(), b"a".to_vec(), b"a0".to_vec(), b"b".to_vec()]);
    let tree = |order: &[usize]| {
        let all = [
            ("Cargo.lock", package_lock("demo", "1.0.0")),
            ("config", "[source.x]\n".to_string()),
            ("demo-1.0.0.crate", "abc".to_string()),
        ];
        Node::Dir(order.iter().map(|&i| (all[i].0.to_string(), file(all[i].1.as_bytes(), 1))).collect())
    };
    assert_eq!(scan(&tree(&[0, 1, 2]), false), scan(&tree(&[2, 0, 1]), false));
}
