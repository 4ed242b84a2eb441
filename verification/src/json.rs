//! JSON documents as trees.

use vstd::prelude::*;

use crate::text::same_text;

verus! {

/// `serde_json::Value`, any JSON value.
#[verifier::external_type_specification]
#[verifier::external_body]
pub struct ExJsonValue(serde_json::Value);

/// `serde_json::Error`, what is wrong with a text that is not JSON.
#[verifier::external_type_specification]
#[verifier::external_body]
pub struct ExJsonError(serde_json::Error);

/// A JSON value, as a tree: what is neither an object, an array nor a string is not told apart.
pub enum JsonTree {
    Object(Seq<(Seq<char>, JsonTree)>),
    Array(Seq<JsonTree>),
    Text(Seq<char>),
    Other,
}

/// A JSON value. An object has its members in the order in which they are walked.
#[derive(Debug)]
pub enum Json {
    Object(Vec<(String, Json)>),
    Array(Vec<Json>),
    Text(String),
    Other,
}

/// Why a text gives no JSON value.
#[derive(Clone, Copy, Debug, PartialEq, Eq)]
pub enum JsonError {
    /// The text is not a JSON document.
    Invalid,
}

/// The tree that a value stands for.
pub open spec fn json_tree(value: Json) -> JsonTree
    decreases value,
{
    match value {
        Json::Object(members) => JsonTree::Object(
            Seq::new(
                members@.len(),
                |i: int|
                    if 0 <= i < members@.len() {
                        (members@[i].0@, json_tree(members@[i].1))
                    } else {
                        arbitrary()
                    },
            ),
        ),
        Json::Array(items) => JsonTree::Array(
            Seq::new(
                items@.len(),
                |i: int|
                    if 0 <= i < items@.len() {
                        json_tree(items@[i])
                    } else {
                        arbitrary()
                    },
            ),
        ),
        Json::Text(text) => JsonTree::Text(text@),
        Json::Other => JsonTree::Other,
    }
}

/// What a `serde_json::Value` holds.
pub uninterp spec fn json_contents(value: serde_json::Value) -> JsonTree;

/// What `serde_json::from_str` reads from a text, where the text is a JSON document.
pub uninterp spec fn json_parsed(text: Seq<char>) -> Option<JsonTree>;

/// The top of a `serde_json::Value`, with the values right below it.
enum JsonNode<'a> {
    Object(Vec<(&'a str, &'a serde_json::Value)>),
    Array(Vec<&'a serde_json::Value>),
    Text(&'a str),
    Other,
}

/// The tree that a node and the values right below it make.
spec fn node_tree(node: JsonNode<'_>) -> JsonTree {
    match node {
        JsonNode::Object(members) => JsonTree::Object(
            members@.map_values(|m: (&str, &serde_json::Value)| (m.0@, json_contents(*m.1))),
        ),
        JsonNode::Array(items) => JsonTree::Array(
            items@.map_values(|v: &serde_json::Value| json_contents(*v)),
        ),
        JsonNode::Text(text) => JsonTree::Text(text@),
        JsonNode::Other => JsonTree::Other,
    }
}

/// `serde_json::from_str` reads a text as a JSON value or gives an error; `json_parsed` names
/// which of them, and what the value holds.
#[verifier::external_body]
fn json_from_str(text: &str) -> (value: Result<serde_json::Value, serde_json::Error>)
    ensures
        value is Ok <==> json_parsed(text@) is Some,
        value matches Ok(v) ==> json_contents(v) == json_parsed(text@)->0,
{
    serde_json::from_str(text)
}

/// The variants of `serde_json::Value`: an object holds its members and an array its items, a
/// string holds its text. The others (null, booleans, numbers) are one.
#[verifier::external_body]
fn json_node<'a>(value: &'a serde_json::Value) -> (node: JsonNode<'a>)
    ensures
        node_tree(node) == json_contents(*value),
{
    match value {
        serde_json::Value::Object(members) => JsonNode::Object(
            members.iter().map(|(key, item)| (key.as_str(), item)).collect(),
        ),
        serde_json::Value::Array(items) => JsonNode::Array(items.iter().collect()),
        serde_json::Value::String(text) => JsonNode::Text(text.as_str()),
        _ => JsonNode::Other,
    }
}

/// Copies a value with all that is below it.
fn json_of(value: &serde_json::Value) -> (copy: Json)
    ensures
        json_tree(copy) == json_contents(*value),
    decreases json_contents(*value),
{
    let ghost tree = json_contents(*value);
    match json_node(value) {
        JsonNode::Object(members) => {
            let mut copies: Vec<(String, Json)> = Vec::new();
            let mut i: usize = 0;
            while i < members.len()
                invariant
                    i <= members@.len(),
                    copies@.len() == i,
                    tree == json_contents(*value),
                    tree == node_tree(JsonNode::Object(members)),
                    forall|j: int|
                        0 <= j < i ==> ((#[trigger] copies@[j]).0@, json_tree(copies@[j].1))
                            == tree->Object_0[j],
                decreases members@.len() - i,
            {
                let ghost below = tree->Object_0;
                assert(below[i as int] == (
                    members@[i as int].0@,
                    json_contents(*members@[i as int].1),
                ));
                assert(decreases_to!(tree => below));
                assert(decreases_to!(below => below[i as int]));
                assert(decreases_to!(below[i as int] => below[i as int].1));
                let key = members[i].0.to_owned();
                let item = json_of(members[i].1);
                copies.push((key, item));
                i += 1;
            }
            let copy = Json::Object(copies);
            assert(json_tree(copy)->Object_0 =~= tree->Object_0);
            copy
        },
        JsonNode::Array(items) => {
            let mut copies: Vec<Json> = Vec::new();
            let mut i: usize = 0;
            while i < items.len()
                invariant
                    i <= items@.len(),
                    copies@.len() == i,
                    tree == json_contents(*value),
                    tree == node_tree(JsonNode::Array(items)),
                    forall|j: int|
                        0 <= j < i ==> json_tree(#[trigger] copies@[j]) == tree->Array_0[j],
                decreases items@.len() - i,
            {
                assert(tree->Array_0[i as int] == json_contents(*items@[i as int]));
                let item = json_of(items[i]);
                copies.push(item);
                i += 1;
            }
            let copy = Json::Array(copies);
            assert(json_tree(copy)->Array_0 =~= tree->Array_0);
            copy
        },
        JsonNode::Text(text) => Json::Text(text.to_owned()),
        JsonNode::Other => Json::Other,
    }
}

/// Reads a JSON document.
pub fn parse_json(text: &str) -> (document: Result<Json, JsonError>)
    ensures
        document is Ok <==> json_parsed(text@) is Some,
        document matches Ok(value) ==> json_tree(value) == json_parsed(text@)->0,
{
    match json_from_str(text) {
        Ok(value) => Ok(json_of(&value)),
        Err(_) => Err(JsonError::Invalid),
    }
}

/// The first of `members` that has the key `key`.
pub open spec fn member(members: Seq<(Seq<char>, JsonTree)>, key: Seq<char>) -> Option<JsonTree>
    decreases members.len(),
{
    if members.len() == 0 {
        None
    } else if members[0].0 == key {
        Some(members[0].1)
    } else {
        member(members.skip(1), key)
    }
}

/// What a value has under a key: nothing, where it is not an object.
pub open spec fn tree_get(tree: JsonTree, key: Seq<char>) -> Option<JsonTree> {
    match tree {
        JsonTree::Object(members) => member(members, key),
        _ => None,
    }
}

/// The tree of a value that may be missing.
pub open spec fn opt_tree(value: Option<&Json>) -> Option<JsonTree> {
    match value {
        Some(v) => Some(json_tree(*v)),
        None => None,
    }
}

impl Json {
    /// What the value has under `key`: nothing, where it is not an object.
    pub fn get(&self, key: &str) -> (item: Option<&Json>)
        ensures
            opt_tree(item) == tree_get(json_tree(*self), key@),
    {
        match self {
            Json::Object(members) => {
                let ghost all = json_tree(*self)->Object_0;
                let mut i: usize = 0;
                assert(all.skip(0) =~= all);
                while i < members.len()
                    invariant
                        i <= members@.len(),
                        *self == Json::Object(*members),
                        all == json_tree(*self)->Object_0,
                        all.len() == members@.len(),
                        member(all, key@) == member(all.skip(i as int), key@),
                    decreases members@.len() - i,
                {
                    assert(all.skip(i as int).skip(1) =~= all.skip(i + 1));
                    assert(all.skip(i as int)[0] == all[i as int]);
                    assert(all[i as int] == (
                        members@[i as int].0@,
                        json_tree(members@[i as int].1),
                    ));
                    if same_text(members[i].0.as_str(), key) {
                        return Some(&members[i].1);
                    }
                    i += 1;
                }
                None
            },
            _ => None,
        }
    }
}

} // verus!
