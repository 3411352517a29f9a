//! JSON: how documents read as JSON, through `serde_json`.

use vstd::prelude::*;

use crate::text;
use crate::value::{Doc, Tree};
use crate::yaml::{self, from_yaml, to_yaml};

verus! {

/// `serde_json::Value`, carried as it is.
#[verifier::external_type_specification]
#[verifier::external_body]
pub struct ExJsonValue(serde_json::Value);

/// `serde_json::Error`, carried as it is.
#[verifier::external_type_specification]
#[verifier::external_body]
pub struct ExJsonError(serde_json::Error);

/// How a `serde_json::Error` reads.
pub uninterp spec fn json_error_text(e: serde_json::Error) -> Seq<char>;

/// Calls the `Display` of `serde_json::Error`; the text is named.
#[verifier::external_body]
fn show_error(e: &serde_json::Error) -> (r: String)
    ensures
        r@ == json_error_text(*e),
{
    e.to_string()
}

/// What a `serde_json::Value` holds, as a document.
pub uninterp spec fn json_tree(v: serde_json::Value) -> Tree;

/// What `serde_json::to_value` makes of a document; `None` where the document
/// has no JSON form (such as a mapping with a key that is no text or number).
pub uninterp spec fn json_of(t: Tree) -> Option<Tree>;

/// Calls `serde_json::to_value`. How tags, keys and numbers are carried over is
/// not restated: the result is named.
#[verifier::external_body]
fn outside_to_value(v: &serde_yaml::Value) -> (r: Result<serde_json::Value, serde_json::Error>)
    ensures
        match r {
            Ok(j) => json_of(yaml::yaml_tree(*v)) == Some(json_tree(j)),
            Err(_) => json_of(yaml::yaml_tree(*v)) is None,
        },
{
    serde_json::to_value(v)
}

/// Calls `serde_yaml::to_value`, which carries every JSON value over as the
/// document of the same shape and never fails on one.
#[verifier::external_body]
fn outside_from_value(v: serde_json::Value) -> (r: serde_yaml::Value)
    ensures
        yaml::yaml_tree(r) == json_tree(v),
{
    serde_yaml::to_value(v).unwrap_or(serde_yaml::Value::Null)
}

/// What `serde_json::to_string` makes of a document; `None` where the document
/// has no JSON form.
pub uninterp spec fn json_line(t: Tree) -> Option<Seq<char>>;

/// Calls `serde_json::to_string`: the document as JSON on one line. The result is
/// named.
#[verifier::external_body]
fn outside_to_string(v: &serde_yaml::Value) -> (r: Result<String, serde_json::Error>)
    ensures
        match r {
            Ok(s) => json_line(yaml::yaml_tree(*v)) == Some(s@),
            Err(_) => json_line(yaml::yaml_tree(*v)) is None,
        },
{
    serde_json::to_string(v)
}

/// What `serde_json::to_string_pretty` makes of a document: a text, or how the
/// error reads.
pub uninterp spec fn json_pretty(t: Tree) -> Result<Seq<char>, Seq<char>>;

/// Calls `serde_json::to_string_pretty`: the document as indented JSON. The
/// result is named.
#[verifier::external_body]
fn outside_to_string_pretty(v: &serde_yaml::Value) -> (r: Result<String, serde_json::Error>)
    ensures
        match r {
            Ok(s) => json_pretty(yaml::yaml_tree(*v)) == Ok::<Seq<char>, Seq<char>>(s@),
            Err(e) => json_pretty(yaml::yaml_tree(*v)) == Err::<Seq<char>, Seq<char>>(json_error_text(e)),
        },
{
    serde_json::to_string_pretty(v)
}

/// A document as the JSON value it reads as, if it has one.
pub fn to_json(doc: &Doc) -> (r: Option<Doc>)
    ensures
        match r {
            Some(j) => json_of(doc@) == Some(j@),
            None => json_of(doc@) is None,
        },
{
    match outside_to_value(&to_yaml(doc)) {
        Ok(j) => Some(from_yaml(outside_from_value(j))),
        Err(_) => None,
    }
}

/// A document as JSON on one line, if it has a JSON form.
pub fn line(doc: &Doc) -> (r: Option<String>)
    ensures
        match r {
            Some(s) => json_line(doc@) == Some(s@),
            None => json_line(doc@) is None,
        },
{
    match outside_to_string(&to_yaml(doc)) {
        Ok(s) => Some(s),
        Err(_) => None,
    }
}

/// A document as indented JSON; an error is given by its message.
pub fn pretty(doc: &Doc) -> (r: Result<String, String>)
    ensures
        text::outcome(r) == json_pretty(doc@),
{
    match outside_to_string_pretty(&to_yaml(doc)) {
        Ok(s) => Ok(s),
        Err(e) => Err(show_error(&e)),
    }
}

}
