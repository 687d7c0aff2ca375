//! The report that a scan produces, its text explanation, and the bound on
//! its serialized size.

use vstd::prelude::*;
use vstd::utf8::encode_utf8;
use crate::text::{
    bool_text, chars_of, decimal, join, push_bool, push_chars, push_decimal, push_str,
    string_from_chars,
};

verus! {

/// Version of the report's JSON schema.
pub const SCHEMA_VERSION: u32 = 1;

/// Largest serialized report, in bytes.
pub const MAX_REPORT_BYTES: usize = 1048576;

/// One piece of evidence about the cache.
#[derive(Debug, Clone, PartialEq, Eq)]
pub struct Finding {
    pub kind: String,
    pub detail: String,
}

/// A cached `.crate` artifact and what its digest showed.
#[derive(Debug, Clone, PartialEq, Eq)]
pub struct ArtifactObservation {
    pub path: String,
    pub package: String,
    pub version: String,
    pub bytes: u64,
    pub checksum_status: String,
}

/// The lockfile that was read and how much of it the cache covers.
#[derive(Debug, Clone, PartialEq, Eq)]
pub struct LockfileSummary {
    pub path: String,
    pub package_count: usize,
    pub missing_metadata: usize,
    pub missing_artifacts: usize,
}

/// What the configuration files showed, without credential values.
#[derive(Debug, Clone, PartialEq, Eq)]
pub struct ConfigSummary {
    pub source_replacement_detected: bool,
    pub credentials_file_present: bool,
    pub auth_assumptions: Vec<String>,
}

/// The outcome of one inspection of a cache.
#[derive(Debug, Clone, PartialEq, Eq)]
pub struct CacheReport {
    pub schema_version: u32,
    pub ecosystem: String,
    pub root: String,
    pub offline: bool,
    pub complete: bool,
    pub scan_count: usize,
    pub artifact_count: usize,
    pub metadata_record_count: usize,
    pub lockfile_package_count: usize,
    pub verified_artifact_count: usize,
    pub missing_artifact_count: usize,
    pub artifacts: Vec<ArtifactObservation>,
    pub lockfile: Option<LockfileSummary>,
    pub config: ConfigSummary,
    pub findings: Vec<Finding>,
    pub errors: Vec<String>,
    pub notes: Vec<String>,
}

/// How a scan is run.
#[derive(Debug, Clone, PartialEq, Eq)]
pub struct ScanOptions {
    pub offline: bool,
}

impl Default for ScanOptions {
    fn default() -> (r: Self)
        ensures
            !r.offline,
    {
        ScanOptions { offline: false }
    }
}

// ---------------------------------------------------------------------------
// Models
// ---------------------------------------------------------------------------

/// Model of an artifact observation.
pub struct ArtifactModel {
    pub path: Seq<char>,
    pub package: Seq<char>,
    pub version: Seq<char>,
    pub bytes: u64,
    pub status: Seq<char>,
}

/// Model of a lockfile summary.
pub struct LockfileModel {
    pub path: Seq<char>,
    pub package_count: usize,
    pub missing_metadata: usize,
    pub missing_artifacts: usize,
}

/// Model of a configuration summary.
pub struct ConfigModel {
    pub source_replacement_detected: bool,
    pub credentials_file_present: bool,
    pub auth_assumptions: Seq<Seq<char>>,
}

/// Model of a report.
pub struct ReportModel {
    pub schema_version: u32,
    pub ecosystem: Seq<char>,
    pub root: Seq<char>,
    pub offline: bool,
    pub complete: bool,
    pub scan_count: usize,
    pub artifact_count: usize,
    pub metadata_record_count: usize,
    pub lockfile_package_count: usize,
    pub verified_artifact_count: usize,
    pub missing_artifact_count: usize,
    pub artifacts: Seq<ArtifactModel>,
    pub lockfile: Option<LockfileModel>,
    pub config: ConfigModel,
    pub findings: Seq<(Seq<char>, Seq<char>)>,
    pub errors: Seq<Seq<char>>,
    pub notes: Seq<Seq<char>>,
}

impl View for Finding {
    type V = (Seq<char>, Seq<char>);

    open spec fn view(&self) -> (Seq<char>, Seq<char>) {
        (self.kind@, self.detail@)
    }
}

impl View for ArtifactObservation {
    type V = ArtifactModel;

    open spec fn view(&self) -> ArtifactModel {
        ArtifactModel {
            path: self.path@,
            package: self.package@,
            version: self.version@,
            bytes: self.bytes,
            status: self.checksum_status@,
        }
    }
}

impl View for LockfileSummary {
    type V = LockfileModel;

    open spec fn view(&self) -> LockfileModel {
        LockfileModel {
            path: self.path@,
            package_count: self.package_count,
            missing_metadata: self.missing_metadata,
            missing_artifacts: self.missing_artifacts,
        }
    }
}

impl View for ConfigSummary {
    type V = ConfigModel;

    open spec fn view(&self) -> ConfigModel {
        ConfigModel {
            source_replacement_detected: self.source_replacement_detected,
            credentials_file_present: self.credentials_file_present,
            auth_assumptions: strings(self.auth_assumptions@),
        }
    }
}

/// Views of a sequence of strings.
pub open spec fn strings(v: Seq<String>) -> Seq<Seq<char>> {
    v.map_values(|s: String| s@)
}

impl View for CacheReport {
    type V = ReportModel;

    open spec fn view(&self) -> ReportModel {
        ReportModel {
            schema_version: self.schema_version,
            ecosystem: self.ecosystem@,
            root: self.root@,
            offline: self.offline,
            complete: self.complete,
            scan_count: self.scan_count,
            artifact_count: self.artifact_count,
            metadata_record_count: self.metadata_record_count,
            lockfile_package_count: self.lockfile_package_count,
            verified_artifact_count: self.verified_artifact_count,
            missing_artifact_count: self.missing_artifact_count,
            artifacts: self.artifacts@.map_values(|a: ArtifactObservation| a@),
            lockfile: match self.lockfile {
                Some(l) => Some(l@),
                None => None,
            },
            config: self.config@,
            findings: self.findings@.map_values(|f: Finding| f@),
            errors: strings(self.errors@),
            notes: strings(self.notes@),
        }
    }
}

// ---------------------------------------------------------------------------
// Explanation
// ---------------------------------------------------------------------------

/// The line that lists one finding.
pub open spec fn finding_line(f: (Seq<char>, Seq<char>)) -> Seq<char> {
    "- ["@ + f.0 + "] "@ + f.1
}

/// The line that lists one error.
pub open spec fn error_line(e: Seq<char>) -> Seq<char> {
    "- "@ + e
}

/// The summary lines of an explanation.
pub open spec fn summary_lines(r: ReportModel) -> Seq<Seq<char>> {
    seq![
        "root: "@ + r.root,
        "offline: "@ + bool_text(r.offline),
        "complete: "@ + bool_text(r.complete),
        "scanned: "@ + decimal(r.scan_count as nat),
        "artifacts: "@ + decimal(r.artifact_count as nat),
        "metadata records: "@ + decimal(r.metadata_record_count as nat),
        "lockfile packages: "@ + decimal(r.lockfile_package_count as nat),
        "verified artifacts: "@ + decimal(r.verified_artifact_count as nat),
        "missing artifacts: "@ + decimal(r.missing_artifact_count as nat),
        "source replacement: "@ + bool_text(r.config.source_replacement_detected),
        "credentials file present: "@ + bool_text(r.config.credentials_file_present),
    ]
}

/// The finding lines of an explanation: a heading and one line per finding,
/// or nothing when there are no findings.
pub open spec fn finding_lines(r: ReportModel) -> Seq<Seq<char>> {
    if r.findings.len() == 0 {
        Seq::empty()
    } else {
        seq!["findings:"@] + r.findings.map_values(|f: (Seq<char>, Seq<char>)| finding_line(f))
    }
}

/// The error lines of an explanation: a heading and one line per error, or
/// nothing when there are no errors.
pub open spec fn error_lines(r: ReportModel) -> Seq<Seq<char>> {
    if r.errors.len() == 0 {
        Seq::empty()
    } else {
        seq!["errors:"@] + r.errors.map_values(|e: Seq<char>| error_line(e))
    }
}

/// All lines of an explanation.
pub open spec fn explanation_lines(r: ReportModel) -> Seq<Seq<char>> {
    summary_lines(r) + finding_lines(r) + error_lines(r)
}

/// The explanation of a report: its lines joined with newlines.
pub open spec fn explanation(r: ReportModel) -> Seq<char> {
    join(explanation_lines(r), "\n"@)
}

/// Adding a part to a join adds the separator and the part.
pub proof fn lemma_join_push(parts: Seq<Seq<char>>, x: Seq<char>, sep: Seq<char>)
    ensures
        join(parts.push(x), sep) == if parts.len() == 0 {
            x
        } else {
            join(parts, sep) + sep + x
        },
{
    assert(parts.push(x).drop_last() =~= parts);
    if parts.len() == 0 {
        assert(parts.push(x)[0] == x);
    }
}

/// Appends `line` to the text `out`, which holds `lines` joined with newlines.
fn add_line(out: &mut Vec<char>, Ghost(lines): Ghost<Seq<Seq<char>>>, line: &Vec<char>)
    requires
        old(out)@ == join(lines, "\n"@),
        lines.len() > 0,
    ensures
        final(out)@ == join(lines.push(line@), "\n"@),
{
    proof {
        lemma_join_push(lines, line@, "\n"@);
    }
    push_str(out, "\n");
    push_chars(out, line);
    proof {
        assert(final(out)@ =~= join(lines, "\n"@) + "\n"@ + line@);
    }
}

/// `label` followed by a number.
fn number_line(label: &str, n: usize) -> (r: Vec<char>)
    ensures
        r@ == label@ + decimal(n as nat),
{
    let mut line = chars_of(label);
    push_decimal(&mut line, n as u64);
    line
}

/// `label` followed by `true` or `false`.
fn bool_line(label: &str, b: bool) -> (r: Vec<char>)
    ensures
        r@ == label@ + bool_text(b),
{
    let mut line = chars_of(label);
    push_bool(&mut line, b);
    line
}

/// Render a concise explanation without rereading the cache.
pub fn explain_report(report: &CacheReport) -> (r: String)
    ensures
        r@ == explanation(report@),
{
    let ghost m = report@;
    let ghost all = explanation_lines(m);
    let ghost summary = summary_lines(m);
    let mut out = chars_of("root: ");
    let root = chars_of(report.root.as_str());
    push_chars(&mut out, &root);
    let ghost mut done: Seq<Seq<char>> = seq![out@];
    proof {
        assert(join(done, "\n"@) == done[0]);
    }
    let line = bool_line("offline: ", report.offline);
    add_line(&mut out, Ghost(done), &line);
    proof { done = done.push(line@); }
    let line = bool_line("complete: ", report.complete);
    add_line(&mut out, Ghost(done), &line);
    proof { done = done.push(line@); }
    let line = number_line("scanned: ", report.scan_count);
    add_line(&mut out, Ghost(done), &line);
    proof { done = done.push(line@); }
    let line = number_line("artifacts: ", report.artifact_count);
    add_line(&mut out, Ghost(done), &line);
    proof { done = done.push(line@); }
    let line = number_line("metadata records: ", report.metadata_record_count);
    add_line(&mut out, Ghost(done), &line);
    proof { done = done.push(line@); }
    let line = number_line("lockfile packages: ", report.lockfile_package_count);
    add_line(&mut out, Ghost(done), &line);
    proof { done = done.push(line@); }
    let line = number_line("verified artifacts: ", report.verified_artifact_count);
    add_line(&mut out, Ghost(done), &line);
    proof { done = done.push(line@); }
    let line = number_line("missing artifacts: ", report.missing_artifact_count);
    add_line(&mut out, Ghost(done), &line);
    proof { done = done.push(line@); }
    let line = bool_line("source replacement: ", report.config.source_replacement_detected);
    add_line(&mut out, Ghost(done), &line);
    proof { done = done.push(line@); }
    let line = bool_line("credentials file present: ", report.config.credentials_file_present);
    add_line(&mut out, Ghost(done), &line);
    proof {
        done = done.push(line@);
        assert(done =~= summary);
    }
    if report.findings.len() > 0 {
        let heading = chars_of("findings:");
        add_line(&mut out, Ghost(done), &heading);
        proof { done = done.push(heading@); }
        let mut i: usize = 0;
        while i < report.findings.len()
            invariant
                m == report@,
                i <= report.findings.len(),
                report.findings.len() > 0,
                done == summary + seq!["findings:"@] + m.findings.map_values(
                    |f: (Seq<char>, Seq<char>)| finding_line(f),
                ).take(i as int),
                out@ == join(done, "\n"@),
            decreases report.findings.len() - i,
        {
            let mut line = chars_of("- [");
            let kind = chars_of(report.findings[i].kind.as_str());
            push_chars(&mut line, &kind);
            push_str(&mut line, "] ");
            let detail = chars_of(report.findings[i].detail.as_str());
            push_chars(&mut line, &detail);
            assert(m.findings[i as int] == report.findings@[i as int]@);
            assert(line@ == finding_line(m.findings[i as int]));
            add_line(&mut out, Ghost(done), &line);
            proof {
                done = done.push(line@);
                assert(m.findings.map_values(|f: (Seq<char>, Seq<char>)| finding_line(f)).take(
                    i + 1,
                ) =~= m.findings.map_values(|f: (Seq<char>, Seq<char>)| finding_line(f)).take(
                    i as int,
                ).push(line@));
            }
            i = i + 1;
        }
        proof {
            assert(m.findings.map_values(|f: (Seq<char>, Seq<char>)| finding_line(f)).take(
                i as int,
            ) =~= m.findings.map_values(|f: (Seq<char>, Seq<char>)| finding_line(f)));
        }
    }
    assert(done =~= summary + finding_lines(m));
    if report.errors.len() > 0 {
        let heading = chars_of("errors:");
        add_line(&mut out, Ghost(done), &heading);
        proof { done = done.push(heading@); }
        let mut i: usize = 0;
        while i < report.errors.len()
            invariant
                m == report@,
                i <= report.errors.len(),
                report.errors.len() > 0,
                done == summary + finding_lines(m) + seq!["errors:"@] + m.errors.map_values(
                    |e: Seq<char>| error_line(e),
                ).take(i as int),
                out@ == join(done, "\n"@),
            decreases report.errors.len() - i,
        {
            let mut line = chars_of("- ");
            let error = chars_of(report.errors[i].as_str());
            push_chars(&mut line, &error);
            assert(m.errors[i as int] == report.errors@[i as int]@);
            add_line(&mut out, Ghost(done), &line);
            proof {
                done = done.push(line@);
                assert(m.errors.map_values(|e: Seq<char>| error_line(e)).take(i + 1)
                    =~= m.errors.map_values(|e: Seq<char>| error_line(e)).take(i as int).push(
                    line@,
                ));
            }
            i = i + 1;
        }
        proof {
            assert(m.errors.map_values(|e: Seq<char>| error_line(e)).take(i as int)
                =~= m.errors.map_values(|e: Seq<char>| error_line(e)));
        }
    }
    assert(done =~= all);
    string_from_chars(&out)
}

/// The error a report too large to print is answered with.
pub open spec fn oversize_message(len: nat) -> Seq<char> {
    "report is "@ + decimal(len) + " bytes, maximum is "@ + decimal(MAX_REPORT_BYTES as nat)
        + " bytes"@
}

/// The length of the UTF-8 encoding of `s`, as `str::len` gives it.
pub open spec fn byte_len(s: Seq<char>) -> usize {
    encode_utf8(s).len() as usize
}

/// Hold a rendered report to the output bound: the rendering itself when it
/// has at most `MAX_REPORT_BYTES` bytes of UTF-8, else the error message.
pub fn bounded_report(rendered: String) -> (r: Result<String, String>)
    ensures
        byte_len(rendered@) <= MAX_REPORT_BYTES ==> r == Ok::<String, String>(rendered),
        byte_len(rendered@) > MAX_REPORT_BYTES ==> (r matches Err(e) && e@ == oversize_message(
            byte_len(rendered@) as nat,
        )),
{
    let len = rendered.as_str().len();
    if len > MAX_REPORT_BYTES {
        let mut message = chars_of("report is ");
        push_decimal(&mut message, len as u64);
        push_str(&mut message, " bytes, maximum is ");
        push_decimal(&mut message, MAX_REPORT_BYTES as u64);
        push_str(&mut message, " bytes");
        return Err(string_from_chars(&message));
    }
    Ok(rendered)
}

} // verus!
