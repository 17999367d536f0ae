//! A JSON document as plain values: what the search reads of manifests,
//! configuration files and repository listings.
use vstd::prelude::*;

use crate::text::str_eq;

verus! {

/// A JSON value. Numbers keep their textual form; an object keeps its
/// entries in order.
#[derive(Debug)]
pub enum Json {
    Null,
    Bool(bool),
    Number(String),
    Str(String),
    Array(Vec<Json>),
    Object(Vec<(String, Json)>),
}

/// serde_json's document type, which the parse below converts.
#[verifier::external_type_specification]
#[verifier::external_body]
pub struct ExValue(serde_json::Value);

/// The document that `serde_json::from_str` parses a text with these
/// characters into, as a `Json`; `None` where serde_json refuses the text.
pub uninterp spec fn spec_parse_json(text: Seq<char>) -> Option<Json>;

/// Calls `serde_json::from_str` into a `serde_json::Value` and converts the
/// document. The contract claims only that the outcome is a function of the
/// text; what serde_json accepts and how it reads it is left unsaid.
#[verifier::external_body]
pub fn parse_json(text: &str) -> (r: Option<Json>)
    ensures
        r == spec_parse_json(text@),
{
    match serde_json::from_str::<serde_json::Value>(text) {
        Ok(value) => Some(json_of(&value)),
        Err(_) => None,
    }
}

/// Converts a serde_json document into a `Json`, variant for variant (for
/// `parse_json`, whose contract covers the conversion).
#[verifier::external_body]
fn json_of(value: &serde_json::Value) -> Json {
    match value {
        serde_json::Value::Null => Json::Null,
        serde_json::Value::Bool(b) => Json::Bool(*b),
        serde_json::Value::Number(n) => Json::Number(n.to_string()),
        serde_json::Value::String(s) => Json::Str(s.clone()),
        serde_json::Value::Array(a) => Json::Array(a.iter().map(json_of).collect()),
        serde_json::Value::Object(o) => Json::Object(o.iter().map(|(k, v)| (k.clone(), json_of(v))).collect()),
    }
}

/// `s` without the byte order marks (U+FEFF) it starts with.
pub open spec fn without_boms(s: Seq<char>) -> Seq<char>
    decreases s.len(),
{
    if s.len() > 0 && s[0] == '\u{feff}' {
        without_boms(s.drop_first())
    } else {
        s
    }
}

/// The text without the byte order marks it starts with (`trim_start_matches`
/// of U+FEFF).
pub fn strip_bom(text: &str) -> (r: String)
    ensures
        r@ == without_boms(text@),
{
    let c = crate::text::chars_of(text);
    let mut i: usize = 0;
    assert(c@.skip(0) =~= c@);
    while i < c.len() && c[i] == '\u{feff}'
        invariant
            i <= c.len(),
            c@ == text@,
            without_boms(text@) == without_boms(c@.skip(i as int)),
        decreases c.len() - i,
    {
        assert(c@.skip(i as int).drop_first() =~= c@.skip(i + 1));
        i += 1;
    }
    proof {
        if i < c.len() {
            assert(c@.skip(i as int)[0] == c@[i as int]);
        }
        assert(c@.skip(i as int) =~= c@.subrange(i as int, c.len() as int));
    }
    crate::text::string_of(&c, i, c.len())
}

/// The document in a text that may start with byte order marks.
pub fn parse_json_file(text: &str) -> (r: Option<Json>)
    ensures
        r == spec_parse_json(without_boms(text@)),
{
    let t = strip_bom(text);
    parse_json(t.as_str())
}

/// The value of the first entry named `key`.
pub open spec fn lookup(entries: Seq<(String, Json)>, key: Seq<char>) -> Option<Json>
    decreases entries.len(),
{
    if entries.len() == 0 {
        None
    } else if entries[0].0@ == key {
        Some(entries[0].1)
    } else {
        lookup(entries.drop_first(), key)
    }
}

/// The strings among `values`, in order.
pub open spec fn strings_in(values: Seq<Json>) -> Seq<Seq<char>>
    decreases values.len(),
{
    if values.len() == 0 {
        Seq::empty()
    } else {
        let rest = strings_in(values.drop_last());
        match values.last() {
            Json::Str(s) => rest.push(s@),
            _ => rest,
        }
    }
}

/// The views of a sequence of strings.
pub open spec fn views(v: Seq<String>) -> Seq<Seq<char>> {
    v.map_values(|s: String| s@)
}

impl Json {
    /// The entry `key` of an object; `None` for a missing key or a value
    /// that is not an object (`Value::get` with a string key).
    pub open spec fn field(self, key: Seq<char>) -> Option<Json> {
        match self {
            Json::Object(entries) => lookup(entries@, key),
            _ => None,
        }
    }

    /// `value[key]`: the entry, or `Null` where `field` has none.
    pub open spec fn at(self, key: Seq<char>) -> Json {
        match self.field(key) {
            Some(v) => v,
            None => Json::Null,
        }
    }

    /// The characters of a string value.
    pub open spec fn string_view(self) -> Option<Seq<char>> {
        match self {
            Json::Str(s) => Some(s@),
            _ => None,
        }
    }

    /// The entry `key` of an object.
    pub fn get(&self, key: &str) -> (r: Option<&Json>)
        ensures
            match r {
                Some(v) => self.field(key@) == Some(*v),
                None => self.field(key@) is None,
            },
    {
        match self {
            Json::Object(entries) => {
                let mut i: usize = 0;
                assert(entries@.skip(0) =~= entries@);
                while i < entries.len()
                    invariant
                        i <= entries@.len(),
                        self.field(key@) == lookup(entries@, key@),
                        lookup(entries@, key@) == lookup(entries@.skip(i as int), key@),
                    decreases entries.len() - i,
                {
                    assert(entries@.skip(i as int).drop_first() =~= entries@.skip(i + 1));
                    assert(entries@.skip(i as int)[0] == entries@[i as int]);
                    if str_eq(entries[i].0.as_str(), key) {
                        assert(entries@[i as int].0@ == key@);
                        assert(lookup(entries@.skip(i as int), key@) == Some(entries@[i as int].1));
                        return Some(&entries[i].1);
                    }
                    i += 1;
                }
                None
            },
            _ => None,
        }
    }

    /// The string held by a string value.
    pub fn as_string(&self) -> (r: Option<&String>)
        ensures
            match r {
                Some(s) => self.string_view() == Some(s@),
                None => self.string_view() is None,
            },
    {
        match self {
            Json::Str(s) => Some(s),
            _ => None,
        }
    }

    /// Whether this is the string `s` (`value == s`).
    pub fn is_string(&self, s: &str) -> (r: bool)
        ensures
            r == (self.string_view() == Some(s@)),
    {
        match self {
            Json::Str(t) => str_eq(t.as_str(), s),
            _ => false,
        }
    }
}

/// The string values among `values[..n]`, in order.
pub fn strings_among(values: &Vec<Json>, n: usize) -> (r: Vec<String>)
    requires
        n <= values.len(),
    ensures
        views(r@) == strings_in(values@.take(n as int)),
{
    let mut r: Vec<String> = Vec::new();
    let mut i: usize = 0;
    while i < n
        invariant
            i <= n <= values.len(),
            views(r@) == strings_in(values@.take(i as int)),
        decreases n - i,
    {
        assert(values@.take(i + 1).drop_last() =~= values@.take(i as int));
        match &values[i] {
            Json::Str(s) => {
                r.push(s.clone());
                assert(views(r@) =~= views(r@.drop_last()).push(s@));
            },
            _ => {},
        }
        i += 1;
    }
    r
}

} // verus!
