//! Registry index records: one JSON object per line, of which the scanner
//! reads the `name`, `vers`, `cksum` and `yanked` members.

use vstd::prelude::*;
use serde_json::Value;
use crate::text::{chars_of, eq_str, find_char, rfind_char, slice_chars, string_from_chars};

verus! {

/// A member value of a JSON object, as far as the scanner reads it.
pub enum JsonScalar {
    Text(String),
    Flag(bool),
    Other,
}

/// A top-level member of a JSON object.
pub struct JsonMember {
    pub key: String,
    pub value: JsonScalar,
}

/// The model of a member value.
pub enum ScalarModel {
    Text(Seq<char>),
    Flag(bool),
    Other,
}

/// A registry index record as the scanner keeps it.
pub struct IndexRecord {
    pub name: Vec<char>,
    pub version: Vec<char>,
    pub checksum: Option<Vec<char>>,
    pub yanked: bool,
}

/// The model of an index record.
pub struct RecordModel {
    pub name: Seq<char>,
    pub version: Seq<char>,
    pub checksum: Option<Seq<char>>,
    pub yanked: bool,
}

pub open spec fn scalar_model(s: JsonScalar) -> ScalarModel {
    match s {
        JsonScalar::Text(t) => ScalarModel::Text(t@),
        JsonScalar::Flag(b) => ScalarModel::Flag(b),
        JsonScalar::Other => ScalarModel::Other,
    }
}

pub open spec fn members_model(v: Seq<JsonMember>) -> Seq<(Seq<char>, ScalarModel)> {
    v.map_values(|m: JsonMember| (m.key@, scalar_model(m.value)))
}

pub open spec fn opt_text(o: Option<Vec<char>>) -> Option<Seq<char>> {
    match o {
        Some(t) => Some(t@),
        None => None,
    }
}

pub open spec fn record_model(r: IndexRecord) -> RecordModel {
    RecordModel { name: r.name@, version: r.version@, checksum: opt_text(r.checksum), yanked: r.yanked }
}

/// Models of a sequence of records.
pub open spec fn records(v: Seq<IndexRecord>) -> Seq<RecordModel> {
    v.map_values(|r: IndexRecord| record_model(r))
}

pub open spec fn opt_record_model(r: Option<IndexRecord>) -> Option<RecordModel> {
    match r {
        Some(r) => Some(record_model(r)),
        None => None,
    }
}

/// The top-level members of the JSON object that `text` holds, in the order
/// in which serde_json's `Map` (a `BTreeMap` by default) yields them, each
/// value reduced to its text, its boolean, or `Other`; `None` when `text` is
/// not valid JSON or not an object.
pub uninterp spec fn json_object_members(text: Seq<char>) -> Option<Seq<(Seq<char>, ScalarModel)>>;

/// `serde_json::from_str::<serde_json::Value>`: the parse is a function of
/// the text alone; the object's members are handed out as plain values.
#[verifier::external_body]
fn parse_json_object(text: &str) -> (r: Option<Vec<JsonMember>>)
    ensures
        r is None ==> json_object_members(text@) is None,
        r matches Some(v) ==> json_object_members(text@) == Some(members_model(v@)),
{
    let map = match serde_json::from_str::<Value>(text) {
        Ok(Value::Object(map)) => map,
        _ => return None,
    };
    let mut members = Vec::new();
    for (key, value) in map {
        let value = match value {
            Value::String(text) => JsonScalar::Text(text),
            Value::Bool(flag) => JsonScalar::Flag(flag),
            _ => JsonScalar::Other,
        };
        members.push(JsonMember { key, value });
    }
    Some(members)
}

/// The value of the first member named `key`, as `Value::get` finds it.
pub open spec fn lookup(members: Seq<(Seq<char>, ScalarModel)>, key: Seq<char>) -> Option<ScalarModel>
    decreases members.len(),
{
    if members.len() == 0 {
        None
    } else if members[0].0 == key {
        Some(members[0].1)
    } else {
        lookup(members.drop_first(), key)
    }
}

/// The member `key` when it is a string (`get(key).and_then(Value::as_str)`).
pub open spec fn text_member(members: Seq<(Seq<char>, ScalarModel)>, key: Seq<char>) -> Option<Seq<char>> {
    match lookup(members, key) {
        Some(ScalarModel::Text(t)) => Some(t),
        _ => None,
    }
}

/// The member `key` when it is a boolean (`get(key).and_then(Value::as_bool)`).
pub open spec fn flag_member(members: Seq<(Seq<char>, ScalarModel)>, key: Seq<char>) -> Option<bool> {
    match lookup(members, key) {
        Some(ScalarModel::Flag(b)) => Some(b),
        _ => None,
    }
}

/// The span of `line` from its first `{` to its last `}`, if the `}` does
/// not come before the `{`.
pub open spec fn json_fragment(line: Seq<char>) -> Option<Seq<char>> {
    match (line.index_of_first('{'), line.index_of_last('}')) {
        (Some(start), Some(end)) => if end < start {
            None
        } else {
            Some(line.subrange(start, end + 1))
        },
        _ => None,
    }
}

/// The index record that the members of a JSON object describe: string
/// members `name` and `vers` are required; `cksum` is kept when it is a
/// string, and `yanked` is the boolean member or `false`.
pub open spec fn record_of_members(m: Seq<(Seq<char>, ScalarModel)>) -> Option<RecordModel> {
    match (text_member(m, "name"@), text_member(m, "vers"@)) {
        (Some(name), Some(version)) => Some(
            RecordModel {
                name,
                version,
                checksum: text_member(m, "cksum"@),
                yanked: match flag_member(m, "yanked"@) {
                    Some(b) => b,
                    None => false,
                },
            },
        ),
        _ => None,
    }
}

/// The index record that one line holds: its JSON fragment must parse as an
/// object whose members describe a record.
pub open spec fn index_record(line: Seq<char>) -> Option<RecordModel> {
    match json_fragment(line) {
        None => None,
        Some(fragment) => match json_object_members(fragment) {
            None => None,
            Some(m) => record_of_members(m),
        },
    }
}

/// The position of the first member named `key`.
fn find_member(members: &Vec<JsonMember>, key: &str) -> (r: Option<usize>)
    ensures
        r matches Some(i) ==> i < members.len() && lookup(members_model(members@), key@) == Some(
            scalar_model(members@[i as int].value),
        ),
        r is None ==> lookup(members_model(members@), key@) is None,
{
    let ghost m = members_model(members@);
    let mut i: usize = 0;
    assert(m.skip(0) =~= m);
    while i < members.len()
        invariant
            i <= members.len(),
            m == members_model(members@),
            lookup(m, key@) == lookup(m.skip(i as int), key@),
        decreases members.len() - i,
    {
        let name = chars_of(members[i].key.as_str());
        assert(m.skip(i as int)[0] == (members@[i as int].key@, scalar_model(members@[i as int].value)));
        if eq_str(&name, key) {
            return Some(i);
        }
        assert(m.skip(i as int).drop_first() =~= m.skip(i + 1));
        i = i + 1;
    }
    None
}

/// The member `key` when it is a string.
fn text_member_exec(members: &Vec<JsonMember>, key: &str) -> (r: Option<Vec<char>>)
    ensures
        opt_text(r) == text_member(members_model(members@), key@),
{
    match find_member(members, key) {
        Some(i) => match &members[i].value {
            JsonScalar::Text(t) => Some(chars_of(t.as_str())),
            _ => None,
        },
        None => None,
    }
}

/// The member `key` when it is a boolean.
fn flag_member_exec(members: &Vec<JsonMember>, key: &str) -> (r: Option<bool>)
    ensures
        r == flag_member(members_model(members@), key@),
{
    match find_member(members, key) {
        Some(i) => match &members[i].value {
            JsonScalar::Flag(b) => Some(*b),
            _ => None,
        },
        None => None,
    }
}

/// The JSON fragment of `line`.
pub fn json_fragment_exec(line: &Vec<char>) -> (r: Option<Vec<char>>)
    ensures
        opt_text(r) == json_fragment(line@),
{
    let start = match find_char(line, '{') {
        Some(s) => s,
        None => return None,
    };
    let end = match rfind_char(line, '}') {
        Some(e) => e,
        None => return None,
    };
    if end < start {
        return None;
    }
    Some(slice_chars(line, start, end + 1))
}

/// The index record that the members of a parsed JSON object describe.
pub fn record_from_members(members: &Vec<JsonMember>) -> (r: Option<IndexRecord>)
    ensures
        opt_record_model(r) == record_of_members(members_model(members@)),
{
    let name = match text_member_exec(members, "name") {
        Some(n) => n,
        None => return None,
    };
    let version = match text_member_exec(members, "vers") {
        Some(v) => v,
        None => return None,
    };
    let checksum = text_member_exec(members, "cksum");
    let yanked = match flag_member_exec(members, "yanked") {
        Some(b) => b,
        None => false,
    };
    Some(IndexRecord { name, version, checksum, yanked })
}

/// The index record that `line` holds, if any.
pub fn parse_index_line(line: &Vec<char>) -> (r: Option<IndexRecord>)
    ensures
        opt_record_model(r) == index_record(line@),
{
    let fragment = match json_fragment_exec(line) {
        Some(f) => f,
        None => return None,
    };
    let text = string_from_chars(&fragment);
    match parse_json_object(text.as_str()) {
        Some(members) => record_from_members(&members),
        None => None,
    }
}

} // verus!
