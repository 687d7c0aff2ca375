//! What the scanner's operations give, stated over their inputs and results:
//! how index files are cut into records, what configuration text records,
//! what the report's counts count, and what each line of the explanation
//! shows.

use vstd::prelude::*;
use crate::text::{
    bool_text, contains, ends_with, is_whitespace, starts_with, trim, decimal, digit_char, join, lemma_split_at_separator, lemma_split_plain,
    newline_sep, record_sep, split_by,
};
use crate::report::{
    ArtifactModel, ReportModel, error_line, finding_line, error_lines, explanation, explanation_lines, finding_lines, lemma_join_push,
    summary_lines,
};
use crate::index::{RecordModel, index_record, json_fragment};
use crate::lockfile::{LockScan, lock_scan, lock_step, locked_packages, packages_in_file_order, toml_string};
use crate::order::{keys_sorted, lemma_sorted_keys, lemma_sorted_keys_same_elements, sorted_keys};
use crate::digest::{hex_lower, sha256};
use crate::finish::{crate_file, digest_planned, file_name_of, first_match, observe};
use crate::order::{key_lt, lemma_key_lt_order};
use crate::scan::{
    index_insert, index_sorted, record_key, after_entry, after_root_check, capped_errors,
    MAX_SCAN_FILES, MAX_ERRORS, FileAction, MAX_ARTIFACT_HASH_BYTES, ScanModel, after_file, display_text, file_action, after_config, auth_note, index_update, insert_all, records_of, within_bounds,
};

verus! {

// ---------------------------------------------------------------------------
// Index files
// ---------------------------------------------------------------------------

/// A separator of index records: a newline or a NUL.
pub open spec fn is_record_separator(c: char) -> bool {
    c == '\n' || c == '\0'
}

/// Text holding no record separator.
pub open spec fn one_piece(s: Seq<char>) -> bool {
    forall|i: int| 0 <= i < s.len() ==> !is_record_separator(#[trigger] s[i])
}

/// Each piece of an index file between separators is read on its own,
/// whichever separator stands between pieces: two pieces joined by a newline
/// or by a NUL give the records of the first piece and then of the second,
/// inserted in that order, and the two separators give the same scan.
pub proof fn law_index_pieces_are_read_apart(
    m: ScanModel,
    rel: Seq<char>,
    a: Seq<char>,
    s: char,
    b: Seq<char>,
)
    requires
        is_record_separator(s),
        one_piece(a),
        one_piece(b),
    ensures
        index_update(m, rel, a.push(s) + b).index == insert_all(m.index, records_of(seq![a, b])),
        index_update(m, rel, a.push('\0') + b) == index_update(m, rel, a.push('\n') + b),
{
    lemma_split_plain(a, record_sep());
    lemma_split_plain(b, record_sep());
    lemma_split_at_separator(a, s, b, record_sep());
    lemma_split_at_separator(a, '\0', b, record_sep());
    lemma_split_at_separator(a, '\n', b, record_sep());
    assert(seq![a] + seq![b] =~= seq![a, b]);
    let c0 = a.push('\0') + b;
    let c1 = a.push('\n') + b;
    assert(c0.len() == c1.len());
    assert forall|k: int| 0 <= k < c0.len() && k != a.len() implies c0[k] == c1[k] by {
        if k < a.len() {
            assert(c0[k] == a[k] && c1[k] == a[k]);
        } else {
            assert(c0[k] == b[k - a.len() - 1] && c1[k] == b[k - a.len() - 1]);
        }
    }
    assert(c0.contains('{') == c1.contains('{')) by {
        if c0.contains('{') {
            let k = choose|k: int| 0 <= k < c0.len() && c0[k] == '{';
            assert(c1[k] == '{');
        }
        if c1.contains('{') {
            let k = choose|k: int| 0 <= k < c1.len() && c1[k] == '{';
            assert(c0[k] == '{');
        }
    }
}

// ---------------------------------------------------------------------------
// Configuration
// ---------------------------------------------------------------------------

/// Reading configuration text records the authentication note exactly when
/// the text mentions `registry` or `source`, and then holds it exactly once;
/// source replacement is detected exactly when the text mentions
/// `replace-with` or `[source.`, and once detected stays detected.
pub proof fn law_config_text_decides_assumptions(m: ScanModel, path: Seq<char>, c: Seq<char>)
    requires
        within_bounds(m),
    ensures
        ({
            let after = after_config(m, path, Ok(c));
            &&& (contains(c, "registry"@) || contains(c, "source"@)) ==> {
                &&& after.auth_assumptions.contains(auth_note())
                &&& after.auth_assumptions.no_duplicates()
                &&& forall|t: Seq<char>| #[trigger] after.auth_assumptions.contains(t) ==> t == auth_note()
                    || m.auth_assumptions.contains(t)
            }
            &&& !(contains(c, "registry"@) || contains(c, "source"@)) ==> after.auth_assumptions
                == m.auth_assumptions
            &&& after.source_replacement == (m.source_replacement || contains(c, "replace-with"@)
                || contains(c, "[source."@))
            &&& after.errors == m.errors
        }),
{
    let after = after_config(m, path, Ok(c));
    if (contains(c, "registry"@) || contains(c, "source"@)) && !m.auth_assumptions.contains(auth_note()) {
        let n = m.auth_assumptions.push(auth_note());
        assert(n[m.auth_assumptions.len() as int] == auth_note());
        assert forall|a: int, b: int| 0 <= a < n.len() && 0 <= b < n.len() && a != b implies n[a] != n[b] by {
            if a == n.len() - 1 {
                assert(m.auth_assumptions[b] == n[b]);
                assert(m.auth_assumptions.contains(n[b]));
            } else if b == n.len() - 1 {
                assert(m.auth_assumptions[a] == n[a]);
            } else {
                assert(m.auth_assumptions[a] == n[a] && m.auth_assumptions[b] == n[b]);
            }
        }
        assert forall|t: Seq<char>| #[trigger] n.contains(t) implies t == auth_note()
            || m.auth_assumptions.contains(t) by {
            let k = choose|k: int| 0 <= k < n.len() && n[k] == t;
            if k < m.auth_assumptions.len() {
                assert(m.auth_assumptions[k] == t);
            }
        }
    }
}

// ---------------------------------------------------------------------------
// Explanation
// ---------------------------------------------------------------------------

/// Text holding no newline.
pub open spec fn one_line(s: Seq<char>) -> bool {
    forall|i: int| 0 <= i < s.len() ==> #[trigger] s[i] != '\n'
}

/// The lines of a text: its pieces between newlines.
pub open spec fn lines_of(s: Seq<char>) -> Seq<Seq<char>> {
    split_by(s, newline_sep())
}

proof fn lemma_one_line_concat(a: Seq<char>, b: Seq<char>)
    requires
        one_line(a),
        one_line(b),
    ensures
        one_line(a + b),
{
    assert forall|i: int| 0 <= i < (a + b).len() implies #[trigger] (a + b)[i] != '\n' by {
        if i < a.len() {
            assert((a + b)[i] == a[i]);
        } else {
            assert((a + b)[i] == b[i - a.len()]);
        }
    }
}

proof fn lemma_decimal_one_line(n: nat)
    ensures
        one_line(decimal(n)),
    decreases n,
{
    if n >= 10 {
        lemma_decimal_one_line(n / 10);
        let d = digit_char(n % 10);
        assert(d as u32 == 48 + n % 10);
        lemma_one_line_concat(decimal(n / 10), seq![d]);
        assert(decimal(n / 10) + seq![d] =~= decimal(n));
    } else {
        assert(digit_char(n) as u32 == 48 + n);
    }
}

proof fn lemma_bool_text_one_line(b: bool)
    ensures
        one_line(bool_text(b)),
{
}

/// Joining two nonempty lists of lines: the first joined, the separator, the
/// second joined.
proof fn lemma_join_concat(p: Seq<Seq<char>>, q: Seq<Seq<char>>, sep: Seq<char>)
    requires
        p.len() > 0,
    ensures
        q.len() > 0 ==> join(p + q, sep) == join(p, sep) + sep + join(q, sep),
        q.len() == 0 ==> join(p + q, sep) == join(p, sep),
    decreases q.len(),
{
    if q.len() == 0 {
        assert(p + q =~= p);
    } else if q.len() == 1 {
        assert(p + q =~= p.push(q[0]));
        lemma_join_push(p, q[0], sep);
    } else {
        let q0 = q.drop_last();
        lemma_join_concat(p, q0, sep);
        assert(p + q =~= (p + q0).push(q.last()));
        assert(q0.push(q.last()) =~= q);
        lemma_join_push(p + q0, q.last(), sep);
        lemma_join_push(q0, q.last(), sep);
    }
}

/// Lines without newlines, joined with newlines, split back into themselves.
proof fn lemma_lines_of_join(lines: Seq<Seq<char>>)
    requires
        lines.len() > 0,
        forall|k: int| 0 <= k < lines.len() ==> one_line(#[trigger] lines[k]),
    ensures
        lines_of(join(lines, "\n"@)) == lines,
    decreases lines.len(),
{
    reveal_strlit("\n");
    if lines.len() == 1 {
        lemma_split_plain(lines[0], newline_sep());
        assert(seq![lines[0]] =~= lines);
    } else {
        let init = lines.drop_last();
        lemma_lines_of_join(init);
        lemma_join_push(init, lines.last(), "\n"@);
        assert(init.push(lines.last()) =~= lines);
        assert(join(init, "\n"@) + "\n"@ + lines.last() =~= join(init, "\n"@).push('\n') + lines.last());
        lemma_split_at_separator(join(init, "\n"@), '\n', lines.last(), newline_sep());
        lemma_split_plain(lines.last(), newline_sep());
        assert(init + seq![lines.last()] =~= lines);
    }
}

proof fn lemma_summary_one_line(r: ReportModel)
    requires
        one_line(r.root),
    ensures
        forall|k: int| 0 <= k < summary_lines(r).len() ==> one_line(#[trigger] summary_lines(r)[k]),
{
    reveal_strlit("root: ");
    reveal_strlit("offline: ");
    reveal_strlit("complete: ");
    reveal_strlit("scanned: ");
    reveal_strlit("artifacts: ");
    reveal_strlit("metadata records: ");
    reveal_strlit("lockfile packages: ");
    reveal_strlit("verified artifacts: ");
    reveal_strlit("missing artifacts: ");
    reveal_strlit("source replacement: ");
    reveal_strlit("credentials file present: ");
    let head = summary_lines(r);
    lemma_decimal_one_line(r.scan_count as nat);
    lemma_decimal_one_line(r.artifact_count as nat);
    lemma_decimal_one_line(r.metadata_record_count as nat);
    lemma_decimal_one_line(r.lockfile_package_count as nat);
    lemma_decimal_one_line(r.verified_artifact_count as nat);
    lemma_decimal_one_line(r.missing_artifact_count as nat);
    lemma_bool_text_one_line(r.offline);
    lemma_bool_text_one_line(r.complete);
    lemma_bool_text_one_line(r.config.source_replacement_detected);
    lemma_bool_text_one_line(r.config.credentials_file_present);
    assert forall|k: int| 0 <= k < head.len() implies one_line(#[trigger] head[k]) by {
        if k == 0 {
            lemma_one_line_concat("root: "@, r.root);
        } else if k == 1 {
            lemma_one_line_concat("offline: "@, bool_text(r.offline));
        } else if k == 2 {
            lemma_one_line_concat("complete: "@, bool_text(r.complete));
        } else if k == 3 {
            lemma_one_line_concat("scanned: "@, decimal(r.scan_count as nat));
        } else if k == 4 {
            lemma_one_line_concat("artifacts: "@, decimal(r.artifact_count as nat));
        } else if k == 5 {
            lemma_one_line_concat("metadata records: "@, decimal(r.metadata_record_count as nat));
        } else if k == 6 {
            lemma_one_line_concat("lockfile packages: "@, decimal(r.lockfile_package_count as nat));
        } else if k == 7 {
            lemma_one_line_concat("verified artifacts: "@, decimal(r.verified_artifact_count as nat));
        } else if k == 8 {
            lemma_one_line_concat("missing artifacts: "@, decimal(r.missing_artifact_count as nat));
        } else if k == 9 {
            lemma_one_line_concat(
                "source replacement: "@,
                bool_text(r.config.source_replacement_detected),
            );
        } else {
            lemma_one_line_concat(
                "credentials file present: "@,
                bool_text(r.config.credentials_file_present),
            );
        }
    }
}

/// Each of the first eleven lines of a report's explanation shows the field
/// its label names: the root, the offline flag, completeness, the scan
/// count, the artifact, metadata record, lockfile package, verified and
/// missing artifact counts (in decimal), then source replacement and
/// credentials presence (`true` or `false`). The root is the one text that
/// could break a line, so it is taken to hold no newline.
pub proof fn law_explanation_lines_show_their_fields(r: ReportModel)
    requires
        one_line(r.root),
    ensures
        lines_of(explanation(r)).len() >= 11,
        lines_of(explanation(r))[0] == "root: "@ + r.root,
        lines_of(explanation(r))[1] == "offline: "@ + bool_text(r.offline),
        lines_of(explanation(r))[2] == "complete: "@ + bool_text(r.complete),
        lines_of(explanation(r))[3] == "scanned: "@ + decimal(r.scan_count as nat),
        lines_of(explanation(r))[4] == "artifacts: "@ + decimal(r.artifact_count as nat),
        lines_of(explanation(r))[5] == "metadata records: "@ + decimal(r.metadata_record_count as nat),
        lines_of(explanation(r))[6] == "lockfile packages: "@ + decimal(r.lockfile_package_count as nat),
        lines_of(explanation(r))[7] == "verified artifacts: "@ + decimal(r.verified_artifact_count as nat),
        lines_of(explanation(r))[8] == "missing artifacts: "@ + decimal(r.missing_artifact_count as nat),
        lines_of(explanation(r))[9] == "source replacement: "@ + bool_text(
            r.config.source_replacement_detected,
        ),
        lines_of(explanation(r))[10] == "credentials file present: "@ + bool_text(
            r.config.credentials_file_present,
        ),
{
    reveal_strlit("\n");
    reveal_strlit("root: ");
    reveal_strlit("offline: ");
    reveal_strlit("complete: ");
    reveal_strlit("scanned: ");
    reveal_strlit("artifacts: ");
    reveal_strlit("metadata records: ");
    reveal_strlit("lockfile packages: ");
    reveal_strlit("verified artifacts: ");
    reveal_strlit("missing artifacts: ");
    reveal_strlit("source replacement: ");
    reveal_strlit("credentials file present: ");
    let head = summary_lines(r);
    let tail = finding_lines(r) + error_lines(r);
    lemma_summary_one_line(r);
    lemma_lines_of_join(head);
    assert(explanation_lines(r) =~= head + tail);
    lemma_join_concat(head, tail, "\n"@);
    if tail.len() > 0 {
        assert(join(head, "\n"@) + "\n"@ + join(tail, "\n"@) =~= join(head, "\n"@).push('\n') + join(
            tail,
            "\n"@,
        ));
        lemma_split_at_separator(join(head, "\n"@), '\n', join(tail, "\n"@), newline_sep());
        crate::text::lemma_split_nonempty(join(tail, "\n"@), newline_sep());
    }
}

// ---------------------------------------------------------------------------
// Artifacts
// ---------------------------------------------------------------------------

/// `f` is the last component of the `/`-separated `path`.
pub open spec fn last_component_is(path: Seq<char>, f: Seq<char>) -> bool {
    &&& !f.contains('/')
    &&& (path == f || (path.len() > f.len() && path == path.subrange(
        0,
        path.len() - f.len() - 1,
    ) + seq!['/'] + f))
}

/// `rec` is the index record of the artifact at `path`: the path's last
/// component is `name-version.crate`.
pub open spec fn record_names_artifact(rec: RecordModel, path: Seq<char>) -> bool {
    last_component_is(path, rec.name + "-"@ + rec.version + ".crate"@)
}

/// What an artifact matched to `rec` is observed as: too large to hash (by
/// its size or by what was read) is `size_limit`; a failed read is
/// `unreadable` with the error in its finding; otherwise the lowercase hex
/// SHA-256 of what was read is compared with the record's checksum:
/// `verified` when equal, `checksum_mismatch` when not, `metadata_missing`
/// without a checksum. A yanked record adds its `yanked_metadata` finding.
pub open spec fn matched_observation(
    rec: RecordModel,
    art: (Seq<char>, u64),
    read: Option<Result<Seq<u8>, Seq<char>>>,
    o: ArtifactModel,
    found: Seq<(Seq<char>, Seq<char>)>,
) -> bool {
    &&& o.package == rec.name
    &&& o.version == rec.version
    &&& match read {
        Some(Ok(d)) => if art.1 > MAX_ARTIFACT_HASH_BYTES || d.len() > MAX_ARTIFACT_HASH_BYTES {
            o.status == "size_limit"@
        } else {
            o.status == match rec.checksum {
                None => "metadata_missing"@,
                Some(c) => if c == hex_lower(sha256(d)) {
                    "verified"@
                } else {
                    "checksum_mismatch"@
                },
            }
        },
        Some(Err(e)) => if art.1 > MAX_ARTIFACT_HASH_BYTES {
            o.status == "size_limit"@
        } else {
            &&& o.status == "unreadable"@
            &&& found.contains(("artifact_unreadable"@, "artifact "@ + art.0 + ": "@ + e))
        },
        None => art.1 > MAX_ARTIFACT_HASH_BYTES ==> o.status == "size_limit"@,
    }
    &&& rec.yanked ==> found.contains(
        ("yanked_metadata"@, "index marks "@ + rec.name + " "@ + rec.version + " as yanked"@),
    )
}

/// The last component of a path is what follows its last `/`.
pub proof fn lemma_file_name_of(path: Seq<char>, f: Seq<char>)
    ensures
        file_name_of(path) == f <==> last_component_is(path, f),
{
    path.index_of_last_ensures('/');
    match path.index_of_last('/') {
        Some(p) => {
            let tail = path.subrange(p + 1, path.len() as int);
            assert(!tail.contains('/')) by {
                if tail.contains('/') {
                    let k = choose|k: int| 0 <= k < tail.len() && tail[k] == '/';
                    assert(path[p + 1 + k] == '/');
                }
            }
            assert(path =~= path.subrange(0, path.len() - tail.len() - 1) + seq!['/'] + tail);
            if last_component_is(path, f) {
                if path == f {
                    assert(f[p] == '/');
                } else {
                    let q = path.len() - f.len() - 1;
                    assert(path[q] == '/');
                    if p > q {
                        assert(f[p - q - 1] == path[p]);
                    }
                    if p < q {
                        assert(path[q] == '/');
                    }
                    assert(p == q);
                    assert(tail =~= f);
                }
            }
        },
        None => {
            if last_component_is(path, f) && path != f {
                let q = path.len() - f.len() - 1;
                assert(path[q] == '/');
                assert(path.contains('/'));
            }
        },
    }
}

proof fn lemma_first_match(idx: Seq<RecordModel>, file: Seq<char>)
    ensures
        first_match(idx, file) matches Some(rec) ==> exists|i: int|
            0 <= i < idx.len() && #[trigger] idx[i] == rec && crate_file(rec) == file,
        first_match(idx, file) is None ==> forall|i: int|
            0 <= i < idx.len() ==> crate_file(#[trigger] idx[i]) != file,
    decreases idx.len(),
{
    if idx.len() > 0 {
        let rest = idx.drop_first();
        lemma_first_match(rest, file);
        if crate_file(idx[0]) != file {
            if first_match(rest, file) is Some {
                let rec = first_match(rest, file)->Some_0;
                let i = choose|i: int| 0 <= i < rest.len() && #[trigger] rest[i] == rec && crate_file(rec) == file;
                assert(idx[i + 1] == rec);
            } else {
                assert forall|i: int| 0 <= i < idx.len() implies crate_file(#[trigger] idx[i]) != file by {
                    if i > 0 {
                        assert(idx[i] == rest[i - 1]);
                    }
                }
            }
        } else {
            assert(idx[0] == idx[0]);
        }
    }
}

/// How one artifact is observed: its path and size are kept; when no index
/// record names it, it is `metadata_missing` with no package and the
/// finding saying so; otherwise it takes the package and version of an
/// index record that names it, and its status follows that record, its size
/// and what reading it gave.
pub proof fn law_artifact_observation(
    idx: Seq<RecordModel>,
    art: (Seq<char>, u64),
    read: Option<Result<Seq<u8>, Seq<char>>>,
)
    ensures
        observe(idx, art, read).0.path == art.0,
        observe(idx, art, read).0.bytes == art.1,
        (forall|i: int| 0 <= i < idx.len() ==> !record_names_artifact(#[trigger] idx[i], art.0)) ==> {
            &&& observe(idx, art, read).0.status == "metadata_missing"@
            &&& observe(idx, art, read).0.package.len() == 0
            &&& observe(idx, art, read).0.version.len() == 0
            &&& observe(idx, art, read).1 == seq![
                ("metadata_missing"@, "no index metadata matches artifact "@ + art.0),
            ]
        },
        (exists|i: int| 0 <= i < idx.len() && record_names_artifact(#[trigger] idx[i], art.0)) ==> exists|i: int|
            0 <= i < idx.len() && record_names_artifact(#[trigger] idx[i], art.0) && matched_observation(
                idx[i],
                art,
                read,
                observe(idx, art, read).0,
                observe(idx, art, read).1,
            ),
{
    let file = file_name_of(art.0);
    lemma_first_match(idx, file);
    assert forall|i: int| 0 <= i < idx.len() implies (record_names_artifact(#[trigger] idx[i], art.0)
        <==> crate_file(idx[i]) == file) by {
        lemma_file_name_of(art.0, crate_file(idx[i]));
    }
    let (o, found) = observe(idx, art, read);
    if first_match(idx, file) is Some {
        let rec = first_match(idx, file)->Some_0;
        let i = choose|i: int| 0 <= i < idx.len() && #[trigger] idx[i] == rec && crate_file(rec) == file;
        assert(record_names_artifact(idx[i], art.0));
        if rec.yanked {
            assert(found.last() == (
                "yanked_metadata"@,
                "index marks "@ + rec.name + " "@ + rec.version + " as yanked"@,
            ));
            assert(found.contains(found.last()));
        }
        if art.1 <= MAX_ARTIFACT_HASH_BYTES && read is Some && read->Some_0 is Err {
            let e = read->Some_0->Err_0;
            let f = ("artifact_unreadable"@, "artifact "@ + art.0 + ": "@ + e);
            assert(found[0] == f);
            assert(found.contains(f));
        }
        assert(matched_observation(idx[i], art, read, o, found));
    }
}

// ---------------------------------------------------------------------------
// Files
// ---------------------------------------------------------------------------

/// What the scanner asks for each file, by its name and place: credentials
/// files are only noted as present; `config` and `config.toml` are read as
/// configuration; the first `Cargo.lock` is read as the lockfile; other
/// `.crate` files are recorded as artifacts with their path (as reports
/// show it) and size; files under an `index/` or `.cache/` directory are
/// read as index files; nothing else is read. Only noting credentials and
/// recording artifacts change the scan.
pub proof fn law_file_actions(m: ScanModel, name: Seq<char>, relative: Seq<char>, bytes: u64)
    ensures
        (name == "credentials"@ || name == "credentials.toml"@) ==> {
            &&& file_action(m, name, relative) == FileAction::Credentials
            &&& after_file(m, name, relative, bytes) == (ScanModel { credentials: true, ..m })
        },
        (name == "config"@ || name == "config.toml"@) ==> file_action(m, name, relative)
            == FileAction::ReadConfig,
        (name == "Cargo.lock"@ && (m.lockfile is None)) ==> file_action(m, name, relative)
            == FileAction::ReadLockfile,
        file_action(m, name, relative) == FileAction::Artifact <==> (ends_with(name, ".crate"@) && name
            != "credentials"@ && name != "credentials.toml"@ && name != "config"@ && name
            != "config.toml"@ && !(name == "Cargo.lock"@ && (m.lockfile is None))),
        file_action(m, name, relative) == FileAction::Artifact ==> after_file(m, name, relative, bytes)
            == (ScanModel { artifacts: m.artifacts.push((display_text(relative), bytes)), ..m }),
        file_action(m, name, relative) == FileAction::ReadIndex ==> {
            let d = display_text(relative);
            &&& !ends_with(name, ".crate"@)
            &&& (starts_with(d, "index/"@) || contains(d, "/index/"@) || starts_with(d, ".cache/"@)
                || contains(d, "/.cache/"@))
        },
        file_action(m, name, relative) != FileAction::Credentials && file_action(m, name, relative)
            != FileAction::Artifact ==> after_file(m, name, relative, bytes) == m,
{
    reveal_strlit("credentials");
    reveal_strlit("credentials.toml");
    reveal_strlit("config");
    reveal_strlit("config.toml");
    reveal_strlit("Cargo.lock");
    reveal_strlit(".crate");
    if name == "config"@ {
        assert(name != "credentials"@) by {
            assert(name[2] != "credentials"@[2]);
        }
    }
    if name == "config.toml"@ {
        assert(name != "credentials"@) by {
            assert(name[2] != "credentials"@[2]);
        }
        assert(name != "credentials.toml"@) by {
            assert(name[2] != "credentials.toml"@[2]);
        }
    }
    if name == "Cargo.lock"@ {
        assert(name != "credentials"@) by {
            assert(name[0] != "credentials"@[0]);
        }
        assert(name != "credentials.toml"@) by {
            assert(name[0] != "credentials.toml"@[0]);
        }
        assert(name != "config"@) by {
            assert(name[0] != "config"@[0]);
        }
        assert(name != "config.toml"@) by {
            assert(name[0] != "config.toml"@[0]);
        }
    }
}

// ---------------------------------------------------------------------------
// Lockfiles
// ---------------------------------------------------------------------------

/// The line `key = "value"`.
pub open spec fn toml_line(key: Seq<char>, value: Seq<char>) -> Seq<char> {
    key + " = \""@ + value + "\""@
}

/// The lines of a lockfile block for the package `p`.
pub open spec fn package_block(p: (Seq<char>, Seq<char>)) -> Seq<Seq<char>> {
    seq!["[[package]]"@, toml_line("name"@, p.0), toml_line("version"@, p.1)]
}

/// The lines of a lockfile holding one block per package, in order.
pub open spec fn lockfile_lines(pkgs: Seq<(Seq<char>, Seq<char>)>) -> Seq<Seq<char>>
    decreases pkgs.len(),
{
    if pkgs.len() == 0 {
        Seq::empty()
    } else {
        lockfile_lines(pkgs.drop_last()) + package_block(pkgs.last())
    }
}

/// The value of a `key = "value"` line is read back exactly, whatever the
/// value holds.
pub proof fn law_toml_string_reads_value(key: Seq<char>, value: Seq<char>)
    ensures
        toml_string(toml_line(key, value), key) == Some(value),
{
    reveal_strlit(" = \"");
    reveal_strlit("\"");
    let line = toml_line(key, value);
    let prefix = key + " = \""@;
    assert(line =~= prefix + (value + "\""@));
    assert(line.subrange(0, prefix.len() as int) =~= prefix);
    let rest = line.subrange(prefix.len() as int, line.len() as int);
    assert(rest =~= value + "\""@);
    assert(rest.subrange(rest.len() - 1, rest.len() as int) =~= "\""@);
    assert(rest.subrange(0, rest.len() - 1) =~= value);
}

proof fn lemma_block_lines(p: (Seq<char>, Seq<char>))
    ensures
        trim("[[package]]"@) == "[[package]]"@,
        trim(toml_line("name"@, p.0)) == toml_line("name"@, p.0),
        trim(toml_line("version"@, p.1)) == toml_line("version"@, p.1),
        toml_line("name"@, p.0) != "[[package]]"@,
        toml_line("version"@, p.1) != "[[package]]"@,
        toml_string(toml_line("name"@, p.0), "name"@) == Some(p.0),
        toml_string(toml_line("version"@, p.1), "name"@) is None,
        toml_string(toml_line("version"@, p.1), "version"@) == Some(p.1),
{
    reveal_strlit("[[package]]");
    reveal_strlit("name");
    reveal_strlit("version");
    reveal_strlit(" = \"");
    reveal_strlit("\"");
    law_toml_string_reads_value("name"@, p.0);
    law_toml_string_reads_value("version"@, p.1);
    let h = "[[package]]"@;
    let n = toml_line("name"@, p.0);
    let v = toml_line("version"@, p.1);
    assert(n[0] == 'n');
    assert(v[0] == 'v');
    assert(n.last() == '"');
    assert(v.last() == '"');
    assert(!is_whitespace(h[0]) && !is_whitespace(h.last()));
    assert(!is_whitespace(n[0]) && !is_whitespace(n.last()));
    assert(!is_whitespace(v[0]) && !is_whitespace(v.last()));
    assert(n != h) by {
        assert(n[0] != h[0]);
    }
    assert(v != h) by {
        assert(v[0] != h[0]);
    }
    let np = "name"@ + " = \""@;
    assert(!(np.len() <= v.len() && v.subrange(0, np.len() as int) == np)) by {
        if np.len() <= v.len() && v.subrange(0, np.len() as int) == np {
            assert(v.subrange(0, np.len() as int)[0] == v[0]);
            assert(np[0] == 'n');
        }
    }
}

proof fn lemma_lock_scan_blocks(pkgs: Seq<(Seq<char>, Seq<char>)>)
    requires
        pkgs.len() > 0,
    ensures
        lock_scan(lockfile_lines(pkgs)) == (LockScan {
            name: Some(pkgs.last().0),
            version: Some(pkgs.last().1),
            packages: pkgs.drop_last(),
        }),
    decreases pkgs.len(),
{
    let init = pkgs.drop_last();
    let p = pkgs.last();
    let before = lockfile_lines(init);
    lemma_block_lines(p);
    let l = lockfile_lines(pkgs);
    let l1 = before.push("[[package]]"@);
    let l2 = l1.push(toml_line("name"@, p.0));
    assert(l =~= l2.push(toml_line("version"@, p.1)));
    assert(l.drop_last() =~= l2);
    assert(l2.drop_last() =~= l1);
    assert(l1.drop_last() =~= before);
    let s0 = lock_scan(before);
    if init.len() > 0 {
        lemma_lock_scan_blocks(init);
        assert(init.drop_last().push(init.last()) =~= init);
        assert(crate::lockfile::close_package(s0) == init);
    } else {
        assert(before =~= Seq::<Seq<char>>::empty());
        assert(pkgs.drop_last() =~= Seq::<(Seq<char>, Seq<char>)>::empty());
        assert(crate::lockfile::close_package(s0) == init);
    }
    let s1 = lock_step(s0, "[[package]]"@);
    assert(lock_scan(l1) == s1);
    assert(s1 == (LockScan { name: None, version: None, packages: init }));
    let s2 = lock_step(s1, toml_line("name"@, p.0));
    assert(lock_scan(l2) == s2);
    assert(s2 == (LockScan { name: Some(p.0), version: None, packages: init }));
    let s3 = lock_step(s2, toml_line("version"@, p.1));
    assert(lock_scan(l) == s3);
}

proof fn lemma_lockfile_lines_one_line(pkgs: Seq<(Seq<char>, Seq<char>)>)
    requires
        forall|k: int| 0 <= k < pkgs.len() ==> one_line(#[trigger] pkgs[k].0) && one_line(pkgs[k].1),
    ensures
        forall|k: int| 0 <= k < lockfile_lines(pkgs).len() ==> one_line(#[trigger] lockfile_lines(pkgs)[k]),
        lockfile_lines(pkgs).len() == 3 * pkgs.len(),
    decreases pkgs.len(),
{
    reveal_strlit("[[package]]");
    reveal_strlit("name");
    reveal_strlit("version");
    reveal_strlit(" = \"");
    reveal_strlit("\"");
    if pkgs.len() > 0 {
        let init = pkgs.drop_last();
        let p = pkgs.last();
        assert(forall|k: int| 0 <= k < init.len() ==> init[k] == pkgs[k]);
        lemma_lockfile_lines_one_line(init);
        assert(p == pkgs[pkgs.len() - 1]);
        lemma_one_line_concat("name"@, " = \""@);
        lemma_one_line_concat("name"@ + " = \""@, p.0);
        lemma_one_line_concat("name"@ + " = \""@ + p.0, "\""@);
        lemma_one_line_concat("version"@, " = \""@);
        lemma_one_line_concat("version"@ + " = \""@, p.1);
        lemma_one_line_concat("version"@ + " = \""@ + p.1, "\""@);
        let b = package_block(p);
        let l = lockfile_lines(pkgs);
        let prev = lockfile_lines(init);
        assert forall|k: int| 0 <= k < l.len() implies one_line(#[trigger] l[k]) by {
            if k < prev.len() {
                assert(l[k] == prev[k]);
            } else {
                assert(l[k] == b[k - prev.len()]);
            }
        }
    }
}

/// A lockfile made of one `[[package]]` block per package, each with its
/// `name = "..."` and `version = "..."` lines, is read as exactly those
/// packages, sorted by name, then version. Names and versions are taken to
/// hold no newline, which would break their lines.
pub proof fn law_lockfile_blocks_are_read(pkgs: Seq<(Seq<char>, Seq<char>)>)
    requires
        forall|k: int| 0 <= k < pkgs.len() ==> one_line(#[trigger] pkgs[k].0) && one_line(pkgs[k].1),
    ensures
        packages_in_file_order(join(lockfile_lines(pkgs), "\n"@)) == pkgs,
        locked_packages(join(lockfile_lines(pkgs), "\n"@)) == sorted_keys(pkgs),
        keys_sorted(locked_packages(join(lockfile_lines(pkgs), "\n"@))),
        forall|p: (Seq<char>, Seq<char>)| #[trigger] locked_packages(join(lockfile_lines(pkgs), "\n"@)).contains(p)
            <==> pkgs.contains(p),
{
    let text = join(lockfile_lines(pkgs), "\n"@);
    lemma_lockfile_lines_one_line(pkgs);
    if pkgs.len() == 0 {
        assert(lockfile_lines(pkgs) =~= Seq::<Seq<char>>::empty());
        assert(text =~= Seq::<char>::empty());
        lemma_split_plain(text, newline_sep());
        let lines = split_by(text, newline_sep());
        assert(lines.drop_last() =~= Seq::<Seq<char>>::empty());
        reveal_strlit("[[package]]");
        reveal_strlit("name");
        reveal_strlit("version");
        reveal_strlit(" = \"");
        assert(lines == seq![Seq::<char>::empty()]);
        assert(lines.last() =~= Seq::<char>::empty());
        assert(trim(lines.last()) =~= Seq::<char>::empty());
        assert(trim(lines.last()) != "[[package]]"@);
        assert(toml_string(trim(lines.last()), "name"@) is None);
        assert(toml_string(trim(lines.last()), "version"@) is None);
        assert(lock_scan(lines) == lock_step(lock_scan(lines.drop_last()), lines.last()));
        assert(pkgs =~= Seq::<(Seq<char>, Seq<char>)>::empty());
    } else {
        lemma_lines_of_join(lockfile_lines(pkgs));
        assert(split_by(text, newline_sep()) == lockfile_lines(pkgs));
        lemma_lock_scan_blocks(pkgs);
        assert(pkgs.drop_last().push(pkgs.last()) =~= pkgs);
        assert(crate::lockfile::close_package(lock_scan(lockfile_lines(pkgs))) == pkgs);
    }
    lemma_sorted_keys(pkgs);
    lemma_sorted_keys_same_elements(pkgs);
}

/// The number of lines that lists `n` items under a heading: none when there
/// are no items.
pub open spec fn listed_lines(n: nat) -> nat {
    if n == 0 {
        0
    } else {
        n + 1
    }
}

/// After the eleven field lines, an explanation lists the findings, under
/// the heading `findings:`, one `- [kind] detail` line each in the report's
/// order, and then the errors, under `errors:`, one `- error` line each; a
/// list with nothing in it is left out with its heading. Texts are taken to
/// hold no newline, which would break their lines.
pub proof fn law_explanation_lists_findings_then_errors(r: ReportModel)
    requires
        one_line(r.root),
        forall|i: int| 0 <= i < r.findings.len() ==> one_line(#[trigger] r.findings[i].0) && one_line(
            r.findings[i].1,
        ),
        forall|i: int| 0 <= i < r.errors.len() ==> one_line(#[trigger] r.errors[i]),
    ensures
        lines_of(explanation(r)).len() == 11 + listed_lines(r.findings.len()) + listed_lines(r.errors.len()),
        r.findings.len() > 0 ==> lines_of(explanation(r))[11] == "findings:"@,
        forall|i: int|
            0 <= i < r.findings.len() ==> lines_of(explanation(r))[12 + i] == "- ["@ + (#[trigger] r.findings[i]).0
                + "] "@ + r.findings[i].1,
        r.errors.len() > 0 ==> lines_of(explanation(r))[11 + listed_lines(r.findings.len()) as int] == "errors:"@,
        forall|i: int|
            0 <= i < r.errors.len() ==> lines_of(explanation(r))[12 + listed_lines(r.findings.len()) as int + i] == "- "@
                + #[trigger] r.errors[i],
{
    reveal_strlit("findings:");
    reveal_strlit("errors:");
    reveal_strlit("- [");
    reveal_strlit("] ");
    reveal_strlit("- ");
    law_explanation_lines_show_their_fields(r);
    let head = summary_lines(r);
    let fl = finding_lines(r);
    let el = error_lines(r);
    let all = explanation_lines(r);
    assert(all =~= head + fl + el);
    lemma_summary_one_line(r);
    assert forall|k: int| 0 <= k < fl.len() implies one_line(#[trigger] fl[k]) by {
        if k > 0 {
            let f = r.findings[k - 1];
            assert(fl[k] == finding_line(f));
            lemma_one_line_concat("- ["@, f.0);
            lemma_one_line_concat("- ["@ + f.0, "] "@);
            lemma_one_line_concat("- ["@ + f.0 + "] "@, f.1);
        }
    }
    assert forall|k: int| 0 <= k < el.len() implies one_line(#[trigger] el[k]) by {
        if k > 0 {
            assert(el[k] == error_line(r.errors[k - 1]));
            lemma_one_line_concat("- "@, r.errors[k - 1]);
        }
    }
    assert forall|k: int| 0 <= k < all.len() implies one_line(#[trigger] all[k]) by {
        if k < head.len() {
            assert(all[k] == head[k]);
        } else if k < head.len() + fl.len() {
            assert(all[k] == fl[k - head.len()]);
        } else {
            assert(all[k] == el[k - head.len() - fl.len()]);
        }
    }
    lemma_lines_of_join(all);
    assert(lines_of(explanation(r)) == all);
    assert forall|i: int| 0 <= i < r.findings.len() implies lines_of(explanation(r))[12 + i] == "- ["@
        + (#[trigger] r.findings[i]).0 + "] "@ + r.findings[i].1 by {
        assert(all[12 + i] == fl[1 + i]);
    }
    assert forall|i: int| 0 <= i < r.errors.len() implies lines_of(explanation(r))[12 + listed_lines(
        r.findings.len(),
    ) as int + i] == "- "@ + #[trigger] r.errors[i] by {
        assert(all[12 + listed_lines(r.findings.len()) as int + i] == el[1 + i]);
    }
}

// ---------------------------------------------------------------------------
// The index
// ---------------------------------------------------------------------------

/// Two records are of the same package version: same name, same version.
pub open spec fn same_package(a: RecordModel, b: RecordModel) -> bool {
    a.name == b.name && a.version == b.version
}

/// Adding a record to the index works as a map keyed by name and version
/// does: afterwards the index holds the new record, keeps every record of
/// another package version, and holds nothing else; a record of the same
/// package version is replaced.
pub proof fn law_index_insert_replaces_same_version(idx: Seq<RecordModel>, r: RecordModel)
    requires
        index_sorted(idx),
    ensures
        index_insert(idx, r).contains(r),
        forall|x: RecordModel| #[trigger] idx.contains(x) && !same_package(x, r) ==> index_insert(idx, r).contains(x),
        forall|y: RecordModel|
            #[trigger] index_insert(idx, r).contains(y) ==> y == r || (idx.contains(y) && !same_package(y, r)),
    decreases idx.len(),
{
    let res = index_insert(idx, r);
    if idx.len() == 0 {
        assert(res == seq![r]);
        assert(res[0] == r);
    } else {
        let rest = idx.drop_first();
        let h = idx[0];
        assert(idx =~= seq![h] + rest);
        assert forall|i: int| 0 <= i < rest.len() implies key_lt(record_key(h), record_key(#[trigger] rest[i])) by {
            assert(rest[i] == idx[i + 1]);
        }
        assert(index_sorted(rest)) by {
            assert forall|i: int, j: int| 0 <= i < j < rest.len() implies key_lt(
                record_key(#[trigger] rest[i]),
                record_key(#[trigger] rest[j]),
            ) by {
                assert(rest[i] == idx[i + 1] && rest[j] == idx[j + 1]);
            }
        }
        if record_key(h) == record_key(r) {
            assert(res == seq![r] + rest);
            assert(res[0] == r);
            assert forall|x: RecordModel| #[trigger] idx.contains(x) && !same_package(x, r) implies res.contains(x) by {
                let i = choose|i: int| 0 <= i < idx.len() && idx[i] == x;
                assert(i != 0);
                assert(res[i] == x);
            }
            assert forall|y: RecordModel| #[trigger] res.contains(y) implies y == r || (idx.contains(y) && !same_package(y, r)) by {
                let i = choose|i: int| 0 <= i < res.len() && res[i] == y;
                if i > 0 {
                    assert(rest[i - 1] == y);
                    assert(idx[i] == y);
                    lemma_key_lt_order(record_key(h), record_key(y), record_key(h));
                }
            }
        } else if key_lt(record_key(r), record_key(h)) {
            assert(res == seq![r] + idx);
            assert(res[0] == r);
            assert forall|x: RecordModel| #[trigger] idx.contains(x) && !same_package(x, r) implies res.contains(x) by {
                let i = choose|i: int| 0 <= i < idx.len() && idx[i] == x;
                assert(res[i + 1] == x);
            }
            assert forall|y: RecordModel| #[trigger] res.contains(y) implies y == r || (idx.contains(y) && !same_package(y, r)) by {
                let i = choose|i: int| 0 <= i < res.len() && res[i] == y;
                if i > 0 {
                    assert(idx[i - 1] == y);
                    if i - 1 > 0 {
                        assert(rest[i - 2] == y);
                        lemma_key_lt_order(record_key(r), record_key(h), record_key(y));
                    }
                    lemma_key_lt_order(record_key(r), record_key(y), record_key(r));
                }
            }
        } else {
            law_index_insert_replaces_same_version(rest, r);
            let sub = index_insert(rest, r);
            assert(res == seq![h] + sub);
            assert(sub.contains(r));
            let k = choose|k: int| 0 <= k < sub.len() && sub[k] == r;
            assert(res[k + 1] == r);
            assert forall|x: RecordModel| #[trigger] idx.contains(x) && !same_package(x, r) implies res.contains(x) by {
                let i = choose|i: int| 0 <= i < idx.len() && idx[i] == x;
                if i == 0 {
                    assert(res[0] == x);
                } else {
                    assert(rest[i - 1] == x);
                    assert(rest.contains(x));
                    assert(sub.contains(x));
                    let t = choose|t: int| 0 <= t < sub.len() && sub[t] == x;
                    assert(res[t + 1] == x);
                }
            }
            assert forall|y: RecordModel| #[trigger] res.contains(y) implies y == r || (idx.contains(y) && !same_package(y, r)) by {
                let i = choose|i: int| 0 <= i < res.len() && res[i] == y;
                if i == 0 {
                    assert(idx[0] == y);
                } else {
                    assert(sub[i - 1] == y);
                    assert(sub.contains(y));
                    if y != r {
                        let t = choose|t: int| 0 <= t < rest.len() && rest[t] == y;
                        assert(idx[t + 1] == y);
                    }
                }
            }
        }
    }
}

// ---------------------------------------------------------------------------
// Entries and the root
// ---------------------------------------------------------------------------

/// The error recorded when an entry is left out at the bound.
pub open spec fn entry_bound_error() -> Seq<char> {
    "scan exceeds 512 filesystem entries"@
}

/// The scan after asking to visit `n` entries, one after another.
pub open spec fn visit_entries(m: ScanModel, n: nat) -> ScanModel
    decreases n,
{
    if n == 0 {
        m
    } else {
        after_entry(visit_entries(m, (n - 1) as nat))
    }
}

/// Visiting entries counts each one until `MAX_SCAN_FILES` are counted;
/// every entry asked for beyond that is left out and records the bound
/// error, so the bound error is there exactly when more entries were asked
/// for than the bound allows. Nothing else in the scan changes.
pub proof fn law_entries_are_counted_up_to_the_bound(m: ScanModel, n: nat)
    requires
        m.scan_count <= MAX_SCAN_FILES,
        m.errors.len() == 0,
    ensures
        visit_entries(m, n).scan_count == if m.scan_count + n <= MAX_SCAN_FILES {
            m.scan_count + n
        } else {
            MAX_SCAN_FILES as int
        },
        visit_entries(m, n).errors.contains(entry_bound_error()) <==> m.scan_count + n > MAX_SCAN_FILES,
        forall|i: int| 0 <= i < visit_entries(m, n).errors.len() ==> #[trigger] visit_entries(m, n).errors[i]
            == entry_bound_error(),
        (ScanModel { scan_count: m.scan_count, errors: m.errors, ..visit_entries(m, n) }) == m,
    decreases n,
{
    reveal_strlit("scan exceeds ");
    reveal_strlit(" filesystem entries");
    reveal_strlit("scan exceeds 512 filesystem entries");
    assert(crate::scan::scan_bound_message() =~= entry_bound_error()) by {
        assert(decimal(512) =~= seq!['5', '1', '2']) by {
            assert(decimal(51) =~= seq!['5', '1']) by {
                assert(decimal(5) =~= seq!['5']);
            }
        }
    }
    if n > 0 {
        law_entries_are_counted_up_to_the_bound(m, (n - 1) as nat);
        let prev = visit_entries(m, (n - 1) as nat);
        if prev.scan_count >= MAX_SCAN_FILES {
            let e = prev.errors;
            let e2 = capped_errors(e, entry_bound_error());
            if e.len() < MAX_ERRORS {
                assert(e2[e.len() as int] == entry_bound_error());
            } else {
                assert(e.len() > 0);
                assert(e[0] == entry_bound_error());
            }
            assert(e2.contains(entry_bound_error()));
        }
    }
}

/// The root is scanned exactly when it exists and is a directory; otherwise
/// the one error recorded names the root and what is wrong with it.
pub proof fn law_root_check(m: ScanModel, exists: bool, is_dir: bool)
    ensures
        exists && is_dir ==> after_root_check(m, exists, is_dir) == m,
        !exists ==> after_root_check(m, exists, is_dir) == (ScanModel {
            errors: capped_errors(m.errors, "cache root "@ + m.root + " does not exist"@),
            ..m
        }),
        exists && !is_dir ==> after_root_check(m, exists, is_dir) == (ScanModel {
            errors: capped_errors(m.errors, "cache root "@ + m.root + " is not a directory"@),
            ..m
        }),
{
}

// ---------------------------------------------------------------------------
// Texts
// ---------------------------------------------------------------------------

/// The number that a text of decimal digits stands for.
pub open spec fn digits_value(s: Seq<char>) -> int
    decreases s.len(),
{
    if s.len() == 0 {
        0
    } else {
        digits_value(s.drop_last()) * 10 + (s.last() as int - 48)
    }
}

/// Decimal rendering writes `n` in base ten: nonempty, every character a
/// digit `0`..`9`, no leading zero unless `n` is zero, and the digits stand
/// for `n`.
pub proof fn law_decimal_writes_the_number(n: nat)
    ensures
        decimal(n).len() > 0,
        forall|i: int| 0 <= i < decimal(n).len() ==> 48 <= #[trigger] decimal(n)[i] as int <= 57,
        decimal(n)[0] == '0' ==> n == 0,
        digits_value(decimal(n)) == n,
    decreases n,
{
    if n < 10 {
        assert(decimal(n) == seq![digit_char(n)]);
        assert(digit_char(n) as int == 48 + n);
        assert(decimal(n).drop_last() =~= Seq::<char>::empty());
        assert(digits_value(decimal(n).drop_last()) == 0);
        assert(decimal(n).last() == digit_char(n));
    } else {
        law_decimal_writes_the_number(n / 10);
        let prev = decimal(n / 10);
        let d = digit_char(n % 10);
        assert(d as int == 48 + n % 10);
        assert(decimal(n) == prev.push(d));
        assert(decimal(n).drop_last() =~= prev);
        assert(decimal(n)[0] == prev[0]);
        assert forall|i: int| 0 <= i < decimal(n).len() implies 48 <= #[trigger] decimal(n)[i] as int <= 57 by {
            if i < prev.len() {
                assert(decimal(n)[i] == prev[i]);
            }
        }
        assert((n / 10) * 10 + n % 10 == n) by (nonlinear_arith);
        assert(decimal(n).last() == d);
        assert(digits_value(decimal(n)) == digits_value(prev) * 10 + (d as int - 48));
        assert(n / 10 > 0);
    }
}

/// The JSON fragment of a line runs from its first `{` to its last `}`: it
/// is the part of the line between them, both included, and there is none
/// when the line lacks either or the last `}` comes before the first `{`.
pub proof fn law_json_fragment_spans_braces(line: Seq<char>)
    ensures
        json_fragment(line) matches Some(f) ==> exists|start: int, end: int| {
            &&& 0 <= start <= end < line.len()
            &&& line[start] == '{'
            &&& line[end] == '}'
            &&& (forall|i: int| 0 <= i < start ==> line[i] != '{')
            &&& (forall|i: int| end < i < line.len() ==> line[i] != '}')
            &&& #[trigger] line.subrange(start, end + 1) == f
        },
        json_fragment(line) is None <==> (!line.contains('{') || !line.contains('}') || exists|s: int, e: int|
            0 <= e < s < line.len() && #[trigger] line[s] == '{' && #[trigger] line[e] == '}'
                && (forall|i: int| 0 <= i < s ==> line[i] != '{') && (forall|i: int|
                e < i < line.len() ==> line[i] != '}')),
{
    line.index_of_first_ensures('{');
    line.index_of_last_ensures('}');
    match (line.index_of_first('{'), line.index_of_last('}')) {
        (Some(s), Some(e)) => {
            if e < s {
                assert(line[s] == '{' && line[e] == '}');
            } else {
                assert(line.subrange(s, e + 1) == json_fragment(line)->Some_0);
                assert forall|s2: int, e2: int|
                    0 <= e2 < s2 < line.len() && #[trigger] line[s2] == '{' && #[trigger] line[e2] == '}'
                        && (forall|i: int| 0 <= i < s2 ==> line[i] != '{') && (forall|i: int|
                        e2 < i < line.len() ==> line[i] != '}') implies false by {
                    if s2 > s {
                        assert(line[s] != '{');
                    }
                    if e2 < e {
                        assert(line[e] != '}');
                    }
                }
            }
        },
        _ => {},
    }
}

/// Paths as reports show them use `/` only and are never empty: backslashes
/// become slashes, everything else is kept, and an empty path shows as `.`.
pub proof fn law_display_text(lossy: Seq<char>)
    ensures
        display_text(lossy).len() > 0,
        forall|i: int| 0 <= i < display_text(lossy).len() ==> #[trigger] display_text(lossy)[i] != '\\',
        lossy.len() > 0 ==> display_text(lossy).len() == lossy.len() && forall|i: int|
            0 <= i < lossy.len() ==> #[trigger] display_text(lossy)[i] == if lossy[i] == '\\' {
                '/'
            } else {
                lossy[i]
            },
        lossy.len() == 0 ==> display_text(lossy) == "."@,
{
    reveal_strlit(".");
}

/// An index file raises `malformed_metadata` only when no piece of it is a
/// record: text without `{` never raises it, and neither does text whose
/// last piece (after a newline or NUL) holds a record.
pub proof fn law_malformed_only_without_records(
    m: ScanModel,
    rel: Seq<char>,
    a: Seq<char>,
    s: char,
    b: Seq<char>,
    c: Seq<char>,
)
    requires
        is_record_separator(s),
        one_piece(b),
        index_record(b) is Some,
    ensures
        index_update(m, rel, a.push(s) + b).findings == m.findings,
        !c.contains('{') ==> index_update(m, rel, c).findings == m.findings,
{
    lemma_split_plain(b, record_sep());
    lemma_split_at_separator(a, s, b, record_sep());
    let pieces = split_by(a, record_sep()) + seq![b];
    assert(pieces.drop_last() =~= split_by(a, record_sep()));
    assert(pieces.last() == b);
}

/// An artifact is read for its digest exactly when an index record names
/// it and its size is within the hash bound.
pub proof fn law_artifact_read_for_digest(idx: Seq<RecordModel>, art: (Seq<char>, u64))
    ensures
        digest_planned(idx, art) <==> (exists|i: int|
            0 <= i < idx.len() && record_names_artifact(#[trigger] idx[i], art.0))
            && art.1 <= MAX_ARTIFACT_HASH_BYTES,
{
    let file = file_name_of(art.0);
    lemma_first_match(idx, file);
    assert forall|i: int| 0 <= i < idx.len() implies (record_names_artifact(#[trigger] idx[i], art.0)
        <==> crate_file(idx[i]) == file) by {
        lemma_file_name_of(art.0, crate_file(idx[i]));
    }
    if first_match(idx, file) is Some {
        let rec = first_match(idx, file)->Some_0;
        let i = choose|i: int| 0 <= i < idx.len() && #[trigger] idx[i] == rec && crate_file(rec) == file;
        assert(record_names_artifact(idx[i], art.0));
    }
}

} // verus!
