//! YAML documents as trees.

use vstd::prelude::*;

verus! {

/// `serde_yaml::Value`, any YAML value.
#[verifier::external_type_specification]
#[verifier::external_body]
pub struct ExYamlValue(serde_yaml::Value);

/// `serde_yaml::Error`, what is wrong with a text that is not YAML.
#[verifier::external_type_specification]
#[verifier::external_body]
pub struct ExYamlError(serde_yaml::Error);

/// A YAML value, as a tree: what is neither a mapping, a sequence nor a string is not told apart.
pub enum YamlTree {
    Mapping(Seq<(YamlTree, YamlTree)>),
    Sequence(Seq<YamlTree>),
    Text(Seq<char>),
    Other,
}

/// A YAML value. A mapping has its entries in the order of the document.
#[derive(Debug)]
pub enum Yaml {
    Mapping(Vec<(Yaml, Yaml)>),
    Sequence(Vec<Yaml>),
    Text(String),
    Other,
}

/// Why a text gives no YAML value.
#[derive(Clone, Copy, Debug, PartialEq, Eq)]
pub enum YamlError {
    /// The text is not a YAML document.
    Invalid,
}

/// The tree that a value stands for.
pub open spec fn yaml_tree(value: Yaml) -> YamlTree
    decreases value,
{
    match value {
        Yaml::Mapping(entries) => YamlTree::Mapping(
            Seq::new(
                entries@.len(),
                |i: int|
                    if 0 <= i < entries@.len() {
                        (yaml_tree(entries@[i].0), yaml_tree(entries@[i].1))
                    } else {
                        arbitrary()
                    },
            ),
        ),
        Yaml::Sequence(items) => YamlTree::Sequence(
            Seq::new(
                items@.len(),
                |i: int|
                    if 0 <= i < items@.len() {
                        yaml_tree(items@[i])
                    } else {
                        arbitrary()
                    },
            ),
        ),
        Yaml::Text(text) => YamlTree::Text(text@),
        Yaml::Other => YamlTree::Other,
    }
}

/// What a `serde_yaml::Value` holds.
pub uninterp spec fn yaml_contents(value: serde_yaml::Value) -> YamlTree;

/// What `serde_yaml::from_str` reads from a text, where the text is a YAML document.
pub uninterp spec fn yaml_parsed(text: Seq<char>) -> Option<YamlTree>;

/// The top of a `serde_yaml::Value`, with the values right below it.
enum YamlNode<'a> {
    Mapping(Vec<(&'a serde_yaml::Value, &'a serde_yaml::Value)>),
    Sequence(Vec<&'a serde_yaml::Value>),
    Text(&'a str),
    Other,
}

/// The tree that a node and the values right below it make.
spec fn node_tree(node: YamlNode<'_>) -> YamlTree {
    match node {
        YamlNode::Mapping(entries) => YamlTree::Mapping(
            entries@.map_values(
                |e: (&serde_yaml::Value, &serde_yaml::Value)|
                    (yaml_contents(*e.0), yaml_contents(*e.1)),
            ),
        ),
        YamlNode::Sequence(items) => YamlTree::Sequence(
            items@.map_values(|v: &serde_yaml::Value| yaml_contents(*v)),
        ),
        YamlNode::Text(text) => YamlTree::Text(text@),
        YamlNode::Other => YamlTree::Other,
    }
}

/// `serde_yaml::from_str` reads a text as a YAML value or gives an error; `yaml_parsed` names
/// which of them, and what the value holds.
#[verifier::external_body]
fn yaml_from_str(text: &str) -> (value: Result<serde_yaml::Value, serde_yaml::Error>)
    ensures
        value is Ok <==> yaml_parsed(text@) is Some,
        value matches Ok(v) ==> yaml_contents(v) == yaml_parsed(text@)->0,
{
    serde_yaml::from_str(text)
}

/// The variants of `serde_yaml::Value`: a mapping and a sequence hold their items in order, a
/// string holds its text. The others (null, booleans, numbers, tagged values) are one.
#[verifier::external_body]
fn yaml_node<'a>(value: &'a serde_yaml::Value) -> (node: YamlNode<'a>)
    ensures
        node_tree(node) == yaml_contents(*value),
{
    match value {
        serde_yaml::Value::Mapping(entries) => YamlNode::Mapping(entries.iter().collect()),
        serde_yaml::Value::Sequence(items) => YamlNode::Sequence(items.iter().collect()),
        serde_yaml::Value::String(text) => YamlNode::Text(text.as_str()),
        _ => YamlNode::Other,
    }
}

/// Copies a value with all that is below it.
fn yaml_of(value: &serde_yaml::Value) -> (copy: Yaml)
    ensures
        yaml_tree(copy) == yaml_contents(*value),
    decreases yaml_contents(*value),
{
    let ghost tree = yaml_contents(*value);
    match yaml_node(value) {
        YamlNode::Mapping(entries) => {
            let mut copies: Vec<(Yaml, Yaml)> = Vec::new();
            let mut i: usize = 0;
            while i < entries.len()
                invariant
                    i <= entries@.len(),
                    copies@.len() == i,
                    tree == yaml_contents(*value),
                    tree == node_tree(YamlNode::Mapping(entries)),
                    forall|j: int|
                        0 <= j < i ==> (
                        yaml_tree((#[trigger] copies@[j]).0),
                        yaml_tree(copies@[j].1),
                        ) == tree->Mapping_0[j],
                decreases entries@.len() - i,
            {
                let ghost below = tree->Mapping_0;
                assert(below[i as int] == (
                    yaml_contents(*entries@[i as int].0),
                    yaml_contents(*entries@[i as int].1),
                ));
                assert(decreases_to!(tree => below));
                assert(decreases_to!(below => below[i as int]));
                assert(decreases_to!(below[i as int] => below[i as int].0));
                assert(decreases_to!(below[i as int] => below[i as int].1));
                let key = yaml_of(entries[i].0);
                let item = yaml_of(entries[i].1);
                copies.push((key, item));
                i += 1;
            }
            let copy = Yaml::Mapping(copies);
            assert(yaml_tree(copy)->Mapping_0 =~= tree->Mapping_0);
            copy
        },
        YamlNode::Sequence(items) => {
            let mut copies: Vec<Yaml> = Vec::new();
            let mut i: usize = 0;
            while i < items.len()
                invariant
                    i <= items@.len(),
                    copies@.len() == i,
                    tree == yaml_contents(*value),
                    tree == node_tree(YamlNode::Sequence(items)),
                    forall|j: int|
                        0 <= j < i ==> yaml_tree(#[trigger] copies@[j]) == tree->Sequence_0[j],
                decreases items@.len() - i,
            {
                assert(tree->Sequence_0[i as int] == yaml_contents(*items@[i as int]));
                let item = yaml_of(items[i]);
                copies.push(item);
                i += 1;
            }
            let copy = Yaml::Sequence(copies);
            assert(yaml_tree(copy)->Sequence_0 =~= tree->Sequence_0);
            copy
        },
        YamlNode::Text(text) => Yaml::Text(text.to_owned()),
        YamlNode::Other => Yaml::Other,
    }
}

/// Reads a YAML document.
pub fn parse_yaml(text: &str) -> (document: Result<Yaml, YamlError>)
    ensures
        document is Ok <==> yaml_parsed(text@) is Some,
        document matches Ok(value) ==> yaml_tree(value) == yaml_parsed(text@)->0,
{
    match yaml_from_str(text) {
        Ok(value) => Ok(yaml_of(&value)),
        Err(_) => Err(YamlError::Invalid),
    }
}

} // verus!
