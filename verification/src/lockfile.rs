//! Cargo.lock package names and versions.
//!
//! The reader is line-based: a `[[package]]` header closes the package whose
//! `name = "..."` and `version = "..."` lines came before it, and the end of
//! the file closes the last one. Packages come out sorted by name, then
//! version.

use vstd::prelude::*;
use crate::text::{
    chars_of, ends_with, matches_at, newline_sep, push_str, slice_chars, split_by, split_pieces,
    starts_with, texts, trim, trim_chars, eq_str,
};
use crate::order::{key_view, sorted_keys, sorted_pairs};

verus! {

/// The value of a `key = "value"` line, as `strip_prefix` then
/// `strip_suffix('"')` give it.
pub open spec fn toml_string(line: Seq<char>, key: Seq<char>) -> Option<Seq<char>> {
    let prefix = key + " = \""@;
    let rest = line.subrange(prefix.len() as int, line.len() as int);
    if starts_with(line, prefix) && ends_with(rest, "\""@) {
        Some(rest.subrange(0, rest.len() - 1))
    } else {
        None
    }
}

/// Where the line reader stands: the name and version seen since the last
/// header, and the packages closed so far.
pub struct LockScan {
    pub name: Option<Seq<char>>,
    pub version: Option<Seq<char>>,
    pub packages: Seq<(Seq<char>, Seq<char>)>,
}

/// The packages with one more closed, when both a name and a version are held.
pub open spec fn close_package(st: LockScan) -> Seq<(Seq<char>, Seq<char>)> {
    match (st.name, st.version) {
        (Some(n), Some(v)) => st.packages.push((n, v)),
        _ => st.packages,
    }
}

/// One line of the lockfile read.
pub open spec fn lock_step(st: LockScan, raw: Seq<char>) -> LockScan {
    let line = trim(raw);
    if line == "[[package]]"@ {
        LockScan { name: None, version: None, packages: close_package(st) }
    } else {
        match toml_string(line, "name"@) {
            Some(n) => LockScan { name: Some(n), ..st },
            None => match toml_string(line, "version"@) {
                Some(v) => LockScan { version: Some(v), ..st },
                None => st,
            },
        }
    }
}

/// The reader's state after `lines`.
pub open spec fn lock_scan(lines: Seq<Seq<char>>) -> LockScan
    decreases lines.len(),
{
    if lines.len() == 0 {
        LockScan { name: None, version: None, packages: Seq::empty() }
    } else {
        lock_step(lock_scan(lines.drop_last()), lines.last())
    }
}

/// The packages of a lockfile in file order.
pub open spec fn packages_in_file_order(contents: Seq<char>) -> Seq<(Seq<char>, Seq<char>)> {
    close_package(lock_scan(split_by(contents, newline_sep())))
}

/// The packages of a lockfile, sorted by name, then version.
pub open spec fn locked_packages(contents: Seq<char>) -> Seq<(Seq<char>, Seq<char>)> {
    sorted_keys(packages_in_file_order(contents))
}

/// The value of a `key = "value"` line.
pub fn parse_toml_string(line: &Vec<char>, key: &str) -> (r: Option<Vec<char>>)
    ensures
        crate::index::opt_text(r) == toml_string(line@, key@),
{
    let mut prefix = chars_of(key);
    push_str(&mut prefix, " = \"");
    let ghost pre = key@ + " = \""@;
    assert(prefix@ == pre);
    if prefix.len() > line.len() {
        return None;
    }
    if !matches_at(line, 0, &prefix) {
        return None;
    }
    let n = line.len();
    if n == prefix.len() || line[n - 1] != '"' {
        proof {
            let rest = line@.subrange(pre.len() as int, n as int);
            reveal_strlit("\"");
            assert("\""@.len() == 1);
            assert("\""@[0] == '"');
            if n > prefix.len() {
                assert(rest[rest.len() - 1] == line@[n - 1]);
                assert(rest.subrange(rest.len() - 1, rest.len() as int)[0] == line@[n - 1]);
            }
            assert(!ends_with(rest, "\""@));
        }
        return None;
    }
    proof {
        let rest = line@.subrange(pre.len() as int, n as int);
        reveal_strlit("\"");
        assert(rest.subrange(rest.len() - 1, rest.len() as int) =~= "\""@);
        assert(rest.subrange(0, rest.len() - 1) =~= line@.subrange(pre.len() as int, n - 1));
    }
    Some(slice_chars(line, prefix.len(), n - 1))
}

/// Packages of the lockfile text `contents`, sorted by name, then version.
pub fn parse_lockfile(contents: &Vec<char>) -> (r: Vec<(Vec<char>, Vec<char>)>)
    ensures
        key_view(r@) == locked_packages(contents@),
{
    let lines = split_pieces(contents, false);
    let ghost all = texts(lines@);
    let mut packages: Vec<(Vec<char>, Vec<char>)> = Vec::new();
    let mut name: Option<Vec<char>> = None;
    let mut version: Option<Vec<char>> = None;
    let mut i: usize = 0;
    assert(all.take(0) =~= Seq::<Seq<char>>::empty());
    assert(key_view(packages@) =~= Seq::<(Seq<char>, Seq<char>)>::empty());
    while i < lines.len()
        invariant
            all == texts(lines@),
            all == split_by(contents@, newline_sep()),
            i <= lines.len(),
            lock_scan(all.take(i as int)) == (LockScan {
                name: crate::index::opt_text(name),
                version: crate::index::opt_text(version),
                packages: key_view(packages@),
            }),
        decreases lines.len() - i,
    {
        let ghost st = lock_scan(all.take(i as int));
        assert(all.take(i + 1).drop_last() =~= all.take(i as int));
        assert(all.take(i + 1).last() == lines@[i as int]@);
        let line = trim_chars(&lines[i]);
        if eq_str(&line, "[[package]]") {
            let n = name.take();
            let v = version.take();
            match (n, v) {
                (Some(n), Some(v)) => {
                    let ghost before = packages@;
                    packages.push((n, v));
                    assert(key_view(packages@) =~= key_view(before).push((n@, v@)));
                },
                _ => {},
            }
        } else {
            match parse_toml_string(&line, "name") {
                Some(n) => {
                    name = Some(n);
                },
                None => match parse_toml_string(&line, "version") {
                    Some(v) => {
                        version = Some(v);
                    },
                    None => {},
                },
            }
        }
        i = i + 1;
    }
    assert(all.take(lines.len() as int) =~= all);
    match (name, version) {
        (Some(n), Some(v)) => {
            let ghost before = packages@;
            packages.push((n, v));
            assert(key_view(packages@) =~= key_view(before).push((n@, v@)));
        },
        _ => {},
    }
    sorted_pairs(&packages)
}

} // verus!
