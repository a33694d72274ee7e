//! Records in JSON.

use serde_json::{from_str, to_string_pretty, Value};

use vstd::prelude::*;

verus! {

/// A JSON value. Numbers are kept as they are written.
pub enum Json {
    Null,
    Bool(bool),
    Number(String),
    Text(String),
    Array(Vec<Json>),
    Object(Vec<(String, Json)>),
}

/// A JSON value as a mathematical value.
pub enum Tree {
    Null,
    Bool(bool),
    Number(Seq<char>),
    Text(Seq<char>),
    Array(Seq<Tree>),
    Object(Seq<(Seq<char>, Tree)>),
}

/// What a JSON value is.
pub open spec fn tree_of(json: Json) -> Tree
    decreases json,
{
    match json {
        Json::Null => Tree::Null,
        Json::Bool(b) => Tree::Bool(b),
        Json::Number(text) => Tree::Number(text@),
        Json::Text(text) => Tree::Text(text@),
        Json::Array(items) => Tree::Array(
            Seq::new(
                items@.len(),
                |i: int|
                    if 0 <= i < items@.len() {
                        tree_of(items@[i])
                    } else {
                        Tree::Null
                    },
            ),
        ),
        Json::Object(entries) => Tree::Object(
            Seq::new(
                entries@.len(),
                |i: int|
                    if 0 <= i < entries@.len() {
                        (entries@[i].0@, tree_of(entries@[i].1))
                    } else {
                        (Seq::empty(), Tree::Null)
                    },
            ),
        ),
    }
}

/// What the items of an array are.
pub open spec fn trees_of(items: Seq<Json>) -> Seq<Tree> {
    Seq::new(items.len(), |i: int| tree_of(items[i]))
}

/// What the entries of an object are.
pub open spec fn entries_of(entries: Seq<(String, Json)>) -> Seq<(Seq<char>, Tree)> {
    Seq::new(entries.len(), |i: int| (entries[i].0@, tree_of(entries[i].1)))
}

/// An array is the array of its items.
pub proof fn lemma_array(items: Vec<Json>)
    ensures
        tree_of(Json::Array(items)) == Tree::Array(trees_of(items@)),
{
    assert(tree_of(Json::Array(items))->Array_0 =~= trees_of(items@));
}

/// An object is the object of its entries.
pub proof fn lemma_object(entries: Vec<(String, Json)>)
    ensures
        tree_of(Json::Object(entries)) == Tree::Object(entries_of(entries@)),
{
    assert(tree_of(Json::Object(entries))->Object_0 =~= entries_of(entries@));
}

/// The value that a JSON text stands for; nothing if `serde_json::from_str` rejects it.
pub uninterp spec fn parsed_record(text: Seq<char>) -> Option<Tree>;

/// The text that `serde_json::to_string_pretty` writes for a value; nothing if a number
/// in it is none, or if the value is nested too deeply to be read.
pub uninterp spec fn written_record(record: Tree) -> Option<Seq<char>>;

/// Calls `serde_json::from_str` and takes the value it gives apart, each part read in
/// the same way. What it gives is a function of the text.
#[verifier::external_body]
pub(crate) fn parse_record(text: &str) -> (record: Option<Json>)
    ensures
        match record {
            Some(json) => parsed_record(text@) == Some(tree_of(json)),
            None => parsed_record(text@) is None,
        },
{
    Some(
        match from_str(text).ok()? {
            Value::Null => Json::Null,
            Value::Bool(b) => Json::Bool(b),
            Value::Number(n) => Json::Number(n.to_string()),
            Value::String(s) => Json::Text(s),
            Value::Array(v) => Json::Array(
                v.iter().map(|x| parse_record(&x.to_string())).collect::<Option<_>>()?),
            Value::Object(m) => Json::Object(
                m.iter().map(|(k, x)| Some((k.clone(), parse_record(&x.to_string())?)))
                    .collect::<Option<_>>()?),
        },
    )
}

/// Puts a value together, each part written and read in the same way, and calls
/// `serde_json::to_string_pretty`. What it gives is a function of the value.
#[verifier::external_body]
pub(crate) fn write_record(record: &Json) -> (text: Option<String>)
    ensures
        match text {
            Some(s) => written_record(tree_of(*record)) == Some(s@),
            None => written_record(tree_of(*record)) is None,
        },
{
    let value = match record {
        Json::Null => Value::Null,
        Json::Bool(b) => Value::Bool(*b),
        Json::Number(n) => Value::Number(n.parse().ok()?),
        Json::Text(s) => Value::String(s.clone()),
        Json::Array(v) => Value::Array(v.iter().map(|x| from_str(&write_record(x)?)
            .ok()).collect::<Option<_>>()?),
        Json::Object(m) => Value::Object(m.iter().map(|(k, x)| Some((k.clone(),
            from_str(&write_record(x)?).ok()?))).collect::<Option<_>>()?),
    };
    to_string_pretty(&value).ok()
}

} // verus!
