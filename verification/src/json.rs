//! JSON documents, as far as configuration files are read.
use vstd::prelude::*;
use vstd::string::*;

use crate::views::views;

verus! {

broadcast use crate::views::group_views;

/// A JSON value in the abstract. Numbers are never looked into.
pub enum JsonTree {
    Null,
    Bool(bool),
    Number,
    Text(Seq<char>),
    Array(Seq<JsonTree>),
    Object(Seq<(Seq<char>, JsonTree)>),
}

/// A JSON value. The entries of an object come in the order of its map.
#[derive(Debug, PartialEq, Eq)]
pub enum Json {
    Null,
    Bool(bool),
    Number,
    Text(String),
    Array(Vec<Json>),
    Object(Vec<(String, Json)>),
}

pub open spec fn json_tree(value: Json) -> JsonTree
    decreases value,
{
    match value {
        Json::Null => JsonTree::Null,
        Json::Bool(b) => JsonTree::Bool(b),
        Json::Number => JsonTree::Number,
        Json::Text(t) => JsonTree::Text(t@),
        Json::Array(items) => JsonTree::Array(
            Seq::new(
                items@.len(),
                |i: int|
                    if 0 <= i < items@.len() {
                        json_tree(items@[i])
                    } else {
                        JsonTree::Null
                    },
            ),
        ),
        Json::Object(entries) => JsonTree::Object(
            Seq::new(
                entries@.len(),
                |i: int|
                    if 0 <= i < entries@.len() {
                        (entries@[i].0@, json_tree(entries@[i].1))
                    } else {
                        (Seq::empty(), JsonTree::Null)
                    },
            ),
        ),
    }
}

impl View for Json {
    type V = JsonTree;

    open spec fn view(&self) -> JsonTree {
        json_tree(*self)
    }
}

pub proof fn lemma_array_tree(items: Vec<Json>)
    ensures
        json_tree(Json::Array(items)) == JsonTree::Array(views(items@)),
{
    assert(json_tree(Json::Array(items))->Array_0 =~= views(items@));
}

pub proof fn lemma_object_tree(entries: Vec<(String, Json)>)
    ensures
        json_tree(Json::Object(entries)) == JsonTree::Object(views(entries@)),
{
    assert(json_tree(Json::Object(entries))->Object_0 =~= views(entries@));
}

/// `serde_json::Value`, which is carried from the parser to where it is taken
/// apart.
#[verifier::external_type_specification]
#[verifier::external_body]
pub struct ExValue(serde_json::Value);

/// What a parsed value holds.
pub uninterp spec fn value_tree(value: serde_json::Value) -> JsonTree;

/// What a document holds, or the parser's word on why it holds nothing.
pub uninterp spec fn document(bytes: Seq<u8>) -> Result<JsonTree, Seq<char>>;

/// `serde_json::from_slice` into a `Value`. Claimed: whether the bytes parse,
/// what the value then holds and what the error then says depend on the bytes
/// alone.
#[verifier::external_body]
fn parse_value(bytes: &[u8]) -> (r: Result<serde_json::Value, String>)
    ensures
        match r {
            Ok(value) => document(bytes@) == Ok::<JsonTree, Seq<char>>(value_tree(value)),
            Err(why) => document(bytes@) == Err::<JsonTree, Seq<char>>(why@),
        },
{
    serde_json::from_slice(bytes).map_err(|error: serde_json::Error| error.to_string())
}

/// A parsed value, one level deep.
pub enum Node {
    Null,
    Bool(bool),
    Number,
    Text(String),
    Array(Vec<serde_json::Value>),
    Object(Vec<(String, serde_json::Value)>),
}

/// Takes a `serde_json::Value` apart by its variants. Claimed: the parts hold
/// what the value holds, items and entries in the order in which the value
/// walks them.
#[verifier::external_body]
fn open_value(value: serde_json::Value) -> (r: Node)
    ensures
        match r {
            Node::Null => value_tree(value) == JsonTree::Null,
            Node::Bool(b) => value_tree(value) == JsonTree::Bool(b),
            Node::Number => value_tree(value) == JsonTree::Number,
            Node::Text(t) => value_tree(value) == JsonTree::Text(t@),
            Node::Array(items) => value_tree(value) == JsonTree::Array(
                items@.map_values(|item: serde_json::Value| value_tree(item)),
            ),
            Node::Object(entries) => value_tree(value) == JsonTree::Object(
                entries@.map_values(
                    |entry: (String, serde_json::Value)| (entry.0@, value_tree(entry.1)),
                ),
            ),
        },
{
    match value {
        serde_json::Value::Null => Node::Null,
        serde_json::Value::Bool(b) => Node::Bool(b),
        serde_json::Value::Number(_) => Node::Number,
        serde_json::Value::String(text) => Node::Text(text),
        serde_json::Value::Array(items) => Node::Array(items),
        serde_json::Value::Object(entries) => Node::Object(entries.into_iter().collect()),
    }
}

fn read_value(value: serde_json::Value) -> (r: Json)
    ensures
        r@ == value_tree(value),
    decreases value_tree(value),
{
    match open_value(value) {
        Node::Null => Json::Null,
        Node::Bool(b) => Json::Bool(b),
        Node::Number => Json::Number,
        Node::Text(t) => Json::Text(t),
        Node::Array(items) => {
            let ghost trees = items@.map_values(|item: serde_json::Value| value_tree(item));
            let ghost total = items@;
            let mut rest = items;
            let mut done: Vec<Json> = Vec::new();
            while rest.len() > 0
                invariant
                    value_tree(value) == JsonTree::Array(trees),
                    trees == total.map_values(|item: serde_json::Value| value_tree(item)),
                    rest@.len() + done@.len() == total.len(),
                    rest@ == total.skip(done@.len() as int),
                    views(done@) == trees.take(done@.len() as int),
                decreases rest.len(),
            {
                let ghost k = done@.len() as int;
                let item = rest.remove(0);
                assert(item == total[k]);
                assert(trees[k] == value_tree(item));
                assert(decreases_to!(value_tree(value) => value_tree(value)->Array_0));
                assert(decreases_to!(trees => trees[k]));
                done.push(read_value(item));
                assert(rest@ =~= total.skip(k + 1));
                assert(views(done@) =~= trees.take(k + 1));
            }
            proof {
                lemma_array_tree(done);
                assert(trees.take(trees.len() as int) =~= trees);
            }
            Json::Array(done)
        },
        Node::Object(entries) => {
            let ghost trees = entries@.map_values(
                |entry: (String, serde_json::Value)| (entry.0@, value_tree(entry.1)),
            );
            let ghost total = entries@;
            let mut rest = entries;
            let mut done: Vec<(String, Json)> = Vec::new();
            while rest.len() > 0
                invariant
                    value_tree(value) == JsonTree::Object(trees),
                    trees == total.map_values(
                        |entry: (String, serde_json::Value)| (entry.0@, value_tree(entry.1)),
                    ),
                    rest@.len() + done@.len() == total.len(),
                    rest@ == total.skip(done@.len() as int),
                    views(done@) == trees.take(done@.len() as int),
                decreases rest.len(),
            {
                let ghost k = done@.len() as int;
                let (name, item) = rest.remove(0);
                assert((name, item) == total[k]);
                assert(trees[k] == (name@, value_tree(item)));
                assert(decreases_to!(value_tree(value) => value_tree(value)->Object_0));
                assert(decreases_to!(trees => trees[k]));
                assert(decreases_to!(trees[k] => trees[k].1));
                done.push((name, read_value(item)));
                assert(rest@ =~= total.skip(k + 1));
                assert(views(done@) =~= trees.take(k + 1));
            }
            proof {
                lemma_object_tree(done);
                assert(trees.take(trees.len() as int) =~= trees);
            }
            Json::Object(done)
        },
    }
}

/// Reads a JSON document.
pub fn parse(bytes: &[u8]) -> (r: Result<Json, String>)
    ensures
        match r {
            Ok(json) => document(bytes@) == Ok::<JsonTree, Seq<char>>(json@),
            Err(why) => document(bytes@) == Err::<JsonTree, Seq<char>>(why@),
        },
{
    match parse_value(bytes) {
        Ok(value) => Ok(read_value(value)),
        Err(why) => Err(why),
    }
}

} // verus!
