//! Configuration trees read from JSON text with `serde_json`.

use crate::flatten::{flat_lines, flatten};
use crate::value::{ConfigTree, ConfigValue};
use serde_json::{Error, Value};
use vstd::prelude::*;

verus! {

/// `serde_json::Value`, carried as an opaque value: what it holds is known
/// only through [`json_tree`].
#[verifier::external_type_specification]
#[verifier::external_body]
pub struct ExValue(serde_json::Value);

/// `serde_json::Error`, carried as an opaque value.
#[verifier::external_type_specification]
#[verifier::external_body]
pub struct ExError(serde_json::Error);

/// The configuration tree that a `serde_json::Value` holds: its variant, the
/// members of an object in the order in which the map hands them out, the
/// elements of an array in index order, a string by its characters and a
/// number by the text that it displays as.
pub uninterp spec fn json_tree(value: Value) -> ConfigTree;

/// What `serde_json::from_str` makes of a text: the tree of the value it
/// returns, or `None` where it rejects the text.
pub uninterp spec fn json_document(text: Seq<char>) -> Option<ConfigTree>;

/// `serde_json::from_str::<Value>`: parses a JSON text. The outcome depends on
/// the text alone; nothing is claimed here about which texts are accepted.
#[verifier::external_body]
fn parse_value(text: &str) -> (result: Result<Value, Error>)
    ensures
        match result {
            Ok(value) => json_document(text@) == Some(json_tree(value)),
            Err(_) => json_document(text@) is None,
        },
{
    serde_json::from_str::<Value>(text)
}

/// `Value::as_array`: the elements of an array value, `None` for any other
/// variant.
pub assume_specification[ Value::as_array ](value: &Value) -> (items: Option<&Vec<Value>>)
    ensures
        match items {
            Some(items) => json_tree(*value) == ConfigTree::Array(
                Seq::new(items@.len(), |i: int| json_tree(items@[i])),
            ),
            None => !(json_tree(*value) is Array),
        },
;

/// `Value::as_object` and `Map::iter`: the members of an object value, in the
/// order in which the map hands them out; `None` for any other variant.
#[verifier::external_body]
fn object_members(value: &Value) -> (members: Option<Vec<(&String, &Value)>>)
    ensures
        match members {
            Some(members) => json_tree(*value) == ConfigTree::Object(
                Seq::new(members@.len(), |i: int| (members@[i].0@, json_tree(*members@[i].1))),
            ),
            None => !(json_tree(*value) is Object),
        },
{
    value.as_object().map(|map| map.iter().collect())
}

/// `Value::as_str`: the text of a string value, `None` for any other variant.
pub assume_specification[ Value::as_str ](value: &Value) -> (text: Option<&str>)
    ensures
        match text {
            Some(text) => json_tree(*value) == ConfigTree::String(text@),
            None => !(json_tree(*value) is String),
        },
;

/// `Value::as_number` and the number's `Display`: the text that a number
/// value displays as, `None` for any other variant.
#[verifier::external_body]
fn number_text(value: &Value) -> (text: Option<String>)
    ensures
        match text {
            Some(text) => json_tree(*value) == ConfigTree::Number(text@),
            None => !(json_tree(*value) is Number),
        },
{
    value.as_number().map(|number| number.to_string())
}

/// `Value::as_bool`: the truth value of a boolean value, `None` for any other
/// variant.
pub assume_specification[ Value::as_bool ](value: &Value) -> (b: Option<bool>)
    ensures
        match b {
            Some(b) => json_tree(*value) == ConfigTree::Boolean(b),
            None => !(json_tree(*value) is Boolean),
        },
;

/// Why a text could not be read as a configuration tree.
#[derive(Debug, PartialEq, Eq)]
pub struct ParseError {
    /// What the parser reported, with the place in the text.
    pub message: String,
}

/// Converts a JSON value into the configuration tree that it holds.
pub fn from_json(value: &Value) -> (config: ConfigValue)
    ensures
        config@ == json_tree(*value),
    decreases json_tree(*value),
{
    let ghost tree = json_tree(*value);
    match value.as_array() {
        Some(items) => {
            let mut elements: Vec<ConfigValue> = Vec::new();
            let mut i: usize = 0;
            while i < items.len()
                invariant
                    i <= items.len(),
                    elements@.len() == i,
                    tree == json_tree(*value),
                    tree == ConfigTree::Array(
                        Seq::new(items@.len(), |i: int| json_tree(items@[i])),
                    ),
                    forall|j: int| 0 <= j < i ==> (#[trigger] elements@[j])@ == json_tree(items@[j]),
                decreases items.len() - i,
            {
                proof {
                    assert(tree->Array_0[i as int] == json_tree(items@[i as int]));
                    assert(decreases_to!(tree => tree->Array_0));
                    assert(decreases_to!(tree->Array_0 => tree->Array_0[i as int]));
                }
                let element = from_json(&items[i]);
                elements.push(element);
                i = i + 1;
            }
            let config = ConfigValue::Array(elements);
            assert(config@->Array_0 =~= tree->Array_0);
            return config;
        },
        None => {},
    }
    match object_members(value) {
        Some(entries) => {
            let mut members: Vec<(String, ConfigValue)> = Vec::new();
            let mut i: usize = 0;
            while i < entries.len()
                invariant
                    i <= entries.len(),
                    members@.len() == i,
                    tree == json_tree(*value),
                    tree == ConfigTree::Object(
                        Seq::new(
                            entries@.len(),
                            |i: int| (entries@[i].0@, json_tree(*entries@[i].1)),
                        ),
                    ),
                    forall|j: int|
                        0 <= j < i ==> (#[trigger] members@[j]).0@ == entries@[j].0@
                            && members@[j].1@ == json_tree(*entries@[j].1),
                decreases entries.len() - i,
            {
                proof {
                    assert(tree->Object_0[i as int] == (
                        entries@[i as int].0@,
                        json_tree(*entries@[i as int].1),
                    ));
                    assert(decreases_to!(tree => tree->Object_0));
                    assert(decreases_to!(tree->Object_0 => tree->Object_0[i as int]));
                    assert(decreases_to!(tree->Object_0[i as int] => tree->Object_0[i as int].1));
                }
                let key = entries[i].0.clone();
                let member = from_json(entries[i].1);
                members.push((key, member));
                i = i + 1;
            }
            let config = ConfigValue::Object(members);
            assert(config@->Object_0 =~= tree->Object_0);
            return config;
        },
        None => {},
    }
    match value.as_str() {
        Some(text) => {
            return ConfigValue::String(text.to_owned());
        },
        None => {},
    }
    match number_text(value) {
        Some(text) => {
            return ConfigValue::Number(text);
        },
        None => {},
    }
    match value.as_bool() {
        Some(b) => ConfigValue::Boolean(b),
        None => ConfigValue::Null,
    }
}

/// Reads a JSON text as a configuration tree.
///
/// Succeeds exactly on the texts that `serde_json` accepts, with the tree of
/// the value that it returns. On the others the error carries the parser's
/// message, of which nothing is stated.
pub fn parse(text: &str) -> (result: Result<ConfigValue, ParseError>)
    ensures
        match result {
            Ok(config) => json_document(text@) == Some(config@),
            Err(_) => json_document(text@) is None,
        },
{
    match parse_value(text) {
        Ok(value) => Ok(from_json(&value)),
        Err(error) => Err(ParseError { message: error.to_string() }),
    }
}

/// Reads a JSON text and flattens it into its lines.
///
/// Fails exactly on the texts that `serde_json` rejects; no line is produced
/// then.
pub fn json_to_env(text: &str) -> (result: Result<Vec<(String, String)>, ParseError>)
    ensures
        match result {
            Ok(lines) => json_document(text@) matches Some(tree) && lines.deep_view()
                == flat_lines(tree, Seq::empty()),
            Err(_) => json_document(text@) is None,
        },
{
    match parse(text) {
        Ok(config) => Ok(flatten(&config)),
        Err(error) => Err(error),
    }
}

} // verus!
