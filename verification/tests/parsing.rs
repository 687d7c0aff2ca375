use cache_doctor::digest::sha256_hex;
use cache_doctor::finish::digest_status_exec;
use cache_doctor::index::{
    json_fragment_exec, parse_index_line, record_from_members, IndexRecord, JsonMember, JsonScalar,
};
use cache_doctor::lockfile::{parse_lockfile, parse_toml_string};
use cache_doctor::scan::is_index_path;
use cache_doctor::text::{split_pieces, trim_chars};
use cache_doctor::{bounded_report, check_read_bound, display_path, MAX_REPORT_BYTES};

fn chars(s: &str) -> Vec<char> {
    s.chars().collect()
}

fn string(v: &[char]) -> String {
    v.iter().collect()
}

fn pairs(v: &[(Vec<char>, Vec<char>)]) -> Vec<(String, String)> {
    v.iter().map(|(a, b)| (string(a), string(b))).collect()
}

fn member(key: &str, value: JsonScalar) -> JsonMember {
    JsonMember { key: key.to_string(), value }
}

fn text(s: &str) -> JsonScalar {
    JsonScalar::Text(s.to_string())
}

#[test]
fn toml_string_values_are_read_exactly() {
    let value = parse_toml_string(&chars("name = \"serde\""), "name");
    assert_eq!(value.map(|v| string(&v)), Some("serde".to_string()));
    let empty = parse_toml_string(&chars("version = \"\""), "version");
    assert_eq!(empty.map(|v| string(&v)), Some(String::new()));
    assert!(parse_toml_string(&chars("name = \"serde"), "name").is_none());
    assert!(parse_toml_string(&chars("name=\"serde\""), "name").is_none());
    assert!(parse_toml_string(&chars("version = \"1.0\""), "name").is_none());
    assert!(parse_toml_string(&chars("name = \""), "name").is_none());
}

#[test]
fn lockfile_packages_come_out_sorted() {
    let lock = "# generated\nversion = 3\n\n[[package]]\nname = \"zeta\"\nversion = \"2.0.0\"\n\n\
[[package]]\n  name = \"alpha\"  \nversion = \"0.2.0\"\r\nsource = \"registry\"\n\n\
[[package]]\nname = \"alpha\"\nversion = \"0.1.0\"\n";
    let packages = parse_lockfile(&chars(lock));
    assert_eq!(
        pairs(&packages),
        vec![
            ("alpha".to_string(), "0.1.0".to_string()),
            ("alpha".to_string(), "0.2.0".to_string()),
            ("zeta".to_string(), "2.0.0".to_string()),
        ]
    );
}

#[test]
fn lockfile_package_without_version_is_dropped() {
    let lock = "[[package]]\nname = \"a\"\n[[package]]\nname = \"b\"\nversion = \"1\"\n";
    assert_eq!(pairs(&parse_lockfile(&chars(lock))), vec![("b".to_string(), "1".to_string())]);
    assert!(parse_lockfile(&chars("")).is_empty());
}

#[test]
fn json_fragment_spans_first_to_last_brace() {
    let f = json_fragment_exec(&chars("junk {\"a\":{}} tail"));
    assert_eq!(f.map(|v| string(&v)), Some("{\"a\":{}}".to_string()));
    assert!(json_fragment_exec(&chars("} before {")).is_none());
    assert!(json_fragment_exec(&chars("no braces")).is_none());
}

#[test]
fn index_line_yields_record() {
    let line = "{\"name\":\"demo\",\"vers\":\"1.0.0\",\"deps\":[],\"cksum\":\"ab\",\"yanked\":true}";
    let record = parse_index_line(&chars(line)).unwrap();
    assert_eq!(string(&record.name), "demo");
    assert_eq!(string(&record.version), "1.0.0");
    assert_eq!(record.checksum.map(|c| string(&c)), Some("ab".to_string()));
    assert!(record.yanked);
}

#[test]
fn index_line_defaults_and_rejections() {
    let record = parse_index_line(&chars("{\"vers\":\"2\",\"name\":\"x\",\"cksum\":7}")).unwrap();
    assert!(record.checksum.is_none());
    assert!(!record.yanked);
    assert!(parse_index_line(&chars("{\"name\":\"x\"}")).is_none());
    assert!(parse_index_line(&chars("{\"name\":1,\"vers\":\"2\"}")).is_none());
    assert!(parse_index_line(&chars("{not json}")).is_none());
    assert!(parse_index_line(&chars("[1, {\"name\":\"x\",\"vers\":\"1\"}]")).is_some());
    assert!(parse_index_line(&chars("")).is_none());
}

#[test]
fn record_is_built_from_members() {
    let members = vec![
        member("cksum", text("00")),
        member("name", text("n")),
        member("vers", text("v")),
        member("yanked", JsonScalar::Flag(false)),
    ];
    let record = record_from_members(&members).unwrap();
    assert_eq!(string(&record.name), "n");
    assert_eq!(string(&record.version), "v");
    assert_eq!(record.checksum.map(|c| string(&c)), Some("00".to_string()));
    assert!(!record.yanked);
    let without_version = vec![member("name", text("n")), member("vers", JsonScalar::Other)];
    assert!(record_from_members(&without_version).is_none());
    let flag_as_text = vec![
        member("name", text("n")),
        member("vers", text("v")),
        member("yanked", text("true")),
    ];
    assert!(!record_from_members(&flag_as_text).unwrap().yanked);
}

#[test]
fn sha256_hex_matches_known_digests() {
    assert_eq!(
        string(&sha256_hex(b"abc")),
        "ba7816bf8f01cfea414140de5dae2223b00361a396177a9cb410ff61f20015ad"
    );
    assert_eq!(
        string(&sha256_hex(b"")),
        "e3b0c44298fc1c149afbf4c8996fb92427ae41e4649b934ca495991b7852b855"
    );
}

fn indexed(checksum: Option<&str>) -> IndexRecord {
    IndexRecord {
        name: chars("demo"),
        version: chars("1.0.0"),
        checksum: checksum.map(chars),
        yanked: false,
    }
}

#[test]
fn digest_status_compares_with_checksum() {
    let path = chars("c/demo-1.0.0.crate");
    let (status, findings) = digest_status_exec(&indexed(Some("ab")), &path, &chars("ab"));
    assert_eq!(string(&status), "verified");
    assert!(findings.is_empty());
    let (status, findings) = digest_status_exec(&indexed(Some("ab")), &path, &chars("AB"));
    assert_eq!(string(&status), "checksum_mismatch");
    assert_eq!(
        pairs(&findings),
        vec![(
            "checksum_mismatch".to_string(),
            "artifact c/demo-1.0.0.crate does not match index checksum".to_string()
        )]
    );
    let (status, findings) = digest_status_exec(&indexed(None), &path, &chars("ab"));
    assert_eq!(string(&status), "metadata_missing");
    assert_eq!(
        pairs(&findings),
        vec![(
            "metadata_missing".to_string(),
            "index record for c/demo-1.0.0.crate has no checksum".to_string()
        )]
    );
}

#[test]
fn paths_are_displayed_with_forward_slashes() {
    assert_eq!(string(&display_path("a\\b\\c")), "a/b/c");
    assert_eq!(string(&display_path("")), ".");
    assert_eq!(string(&display_path("/x/y")), "/x/y");
}

#[test]
fn index_paths_are_recognized() {
    assert!(is_index_path(&chars("index/a")));
    assert!(is_index_path(&chars("registry/index/x/a")));
    assert!(is_index_path(&chars(".cache/a")));
    assert!(is_index_path(&chars("registry/index/github/.cache/se/serde")));
    assert!(!is_index_path(&chars("registry/indexes/a")));
    assert!(!is_index_path(&chars("my.cache/a")));
    assert!(!is_index_path(&chars("index")));
}

#[test]
fn read_bound_refuses_longer_files() {
    assert!(check_read_bound(10, 10).is_ok());
    assert!(check_read_bound(0, 0).is_ok());
    assert_eq!(check_read_bound(11, 10), Err("file exceeds 10 byte bound".to_string()));
    assert_eq!(
        check_read_bound(1_048_577, 1_048_576),
        Err("file exceeds 1048576 byte bound".to_string())
    );
}

#[test]
fn report_bound_counts_utf8_bytes() {
    let fits = "x".repeat(MAX_REPORT_BYTES);
    assert_eq!(bounded_report(fits.clone()), Ok(fits));
    assert_eq!(
        bounded_report("x".repeat(MAX_REPORT_BYTES + 1)),
        Err("report is 1048577 bytes, maximum is 1048576 bytes".to_string())
    );
    let wide = "\u{e9}".repeat(MAX_REPORT_BYTES / 2 + 1);
    assert_eq!(
        bounded_report(wide),
        Err("report is 1048578 bytes, maximum is 1048576 bytes".to_string())
    );
}

#[test]
fn trim_and_split_follow_str() {
    assert_eq!(string(&trim_chars(&chars(" \t a b \r\n"))), "a b");
    assert_eq!(string(&trim_chars(&chars("\u{3000}x\u{a0}"))), "x");
    let pieces: Vec<String> = split_pieces(&chars("a\n\nb\0c"), true).iter().map(|p| string(p)).collect();
    assert_eq!(pieces, vec!["a", "", "b", "c"]);
    let lines: Vec<String> = split_pieces(&chars("a\0b\n"), false).iter().map(|p| string(p)).collect();
    assert_eq!(lines, vec!["a\0b", ""]);
}
