//! YAML text: parsing documents and rendering them, through `serde_yaml`.
//!
//! A parsed `serde_yaml::Value` is taken apart one level at a time into a
//! [`Doc`], and put together the same way before it is rendered.

use vstd::prelude::*;
use vstd::string::*;

use crate::text;
use crate::value::{self, Dict, Doc, Float, Num, Numeral, Tag, Tree};

verus! {

// === outside types ===

/// `serde_yaml::Value`, carried as it is.
#[verifier::external_type_specification]
#[verifier::external_body]
pub struct ExYamlValue(serde_yaml::Value);

/// `serde_yaml::Mapping`, carried as it is.
#[verifier::external_type_specification]
#[verifier::external_body]
pub struct ExYamlMapping(serde_yaml::Mapping);

/// `serde_yaml::Number`, carried as it is.
#[verifier::external_type_specification]
#[verifier::external_body]
pub struct ExYamlNumber(serde_yaml::Number);

/// `serde_yaml::Error`, carried as it is.
#[verifier::external_type_specification]
#[verifier::external_body]
pub struct ExYamlError(serde_yaml::Error);

/// What a `serde_yaml::Value` holds.
pub uninterp spec fn yaml_tree(v: serde_yaml::Value) -> Tree;

/// What a `serde_yaml::Mapping` holds, in its order.
pub uninterp spec fn yaml_entries(m: serde_yaml::Mapping) -> Seq<(Tree, Tree)>;

/// What a `serde_yaml::Number` holds.
pub uninterp spec fn yaml_number(n: serde_yaml::Number) -> Num;

// === outside calls ===

/// How a `serde_yaml::Error` reads.
pub uninterp spec fn yaml_error_text(e: serde_yaml::Error) -> Seq<char>;

/// Calls the `Display` of `serde_yaml::Error`; the text is named.
#[verifier::external_body]
fn show_error(e: &serde_yaml::Error) -> (r: String)
    ensures
        r@ == yaml_error_text(*e),
{
    e.to_string()
}

/// What `serde_yaml::from_str` makes of a text: a document, or how the error
/// reads.
pub uninterp spec fn parsed(text: Seq<char>) -> Result<Tree, Seq<char>>;

/// Calls `serde_yaml::from_str` for a `serde_yaml::Value`. The YAML grammar is
/// not restated: the result is named.
#[verifier::external_body]
fn outside_parse(text: &str) -> (r: Result<serde_yaml::Value, serde_yaml::Error>)
    ensures
        match r {
            Ok(v) => parsed(text@) == Ok::<Tree, Seq<char>>(yaml_tree(v)),
            Err(e) => parsed(text@) == Err::<Tree, Seq<char>>(yaml_error_text(e)),
        },
{
    serde_yaml::from_str(text)
}

/// What `serde_yaml::to_string` makes of a document: a text, or how the error
/// reads.
pub uninterp spec fn rendered(t: Tree) -> Result<Seq<char>, Seq<char>>;

/// Calls `serde_yaml::to_string`. How YAML is laid out is not restated: the
/// result is named. That parsing the text gives the document back is not claimed.
#[verifier::external_body]
fn outside_render(v: &serde_yaml::Value) -> (r: Result<String, serde_yaml::Error>)
    ensures
        match r {
            Ok(s) => rendered(yaml_tree(*v)) == Ok::<Seq<char>, Seq<char>>(s@),
            Err(e) => rendered(yaml_tree(*v)) == Err::<Seq<char>, Seq<char>>(yaml_error_text(e)),
        },
{
    serde_yaml::to_string(v)
}

/// Whether `serde_yaml` reads a text as a floating-point number and writes that
/// number as the same text.
pub uninterp spec fn float_text(text: Seq<char>) -> bool;

/// One level of a `serde_yaml::Value`.
pub enum Node {
    Null,
    Bool(bool),
    Numeral(serde_yaml::Number),
    Text(String),
    Sequence(Vec<serde_yaml::Value>),
    Dict(serde_yaml::Mapping),
    Tagged(String, serde_yaml::Value),
}

/// The contents of a sequence of `serde_yaml::Value`s.
pub open spec fn yaml_trees(items: Seq<serde_yaml::Value>) -> Seq<Tree> {
    Seq::new(items.len(), |i: int| yaml_tree(items[i]))
}

/// The contents of a sequence of `serde_yaml` entries.
pub open spec fn yaml_pairs(entries: Seq<(serde_yaml::Value, serde_yaml::Value)>) -> Seq<(Tree, Tree)> {
    Seq::new(entries.len(), |i: int| (yaml_tree(entries[i].0), yaml_tree(entries[i].1)))
}

/// What one level holds.
pub open spec fn node_tree(n: Node) -> Tree {
    match n {
        Node::Null => Tree::Null,
        Node::Bool(b) => Tree::Bool(b),
        Node::Numeral(n) => Tree::Numeral(yaml_number(n)),
        Node::Text(s) => Tree::Text(s@),
        Node::Sequence(items) => Tree::Sequence(yaml_trees(items@)),
        Node::Dict(m) => Tree::Dict(yaml_entries(m)),
        Node::Tagged(tag, v) => Tree::Tagged(tag@, Box::new(yaml_tree(v))),
    }
}

/// Tells the variants of `serde_yaml::Value` apart and moves their fields. A tag
/// is written out by its `Display`, as a `!` and its name, which is never empty.
#[verifier::external_body]
fn open_node(v: serde_yaml::Value) -> (r: Node)
    ensures
        node_tree(r) == yaml_tree(v),
        r matches Node::Tagged(tag, _) ==> value::is_tag(tag@),
{
    match v {
        serde_yaml::Value::Null => Node::Null,
        serde_yaml::Value::Bool(b) => Node::Bool(b),
        serde_yaml::Value::Number(n) => Node::Numeral(n),
        serde_yaml::Value::String(s) => Node::Text(s),
        serde_yaml::Value::Sequence(items) => Node::Sequence(items),
        serde_yaml::Value::Mapping(m) => Node::Dict(m),
        serde_yaml::Value::Tagged(t) => Node::Tagged(t.tag.to_string(), t.value),
    }
}

/// Builds the `serde_yaml::Value` with the given level. A tag goes through
/// `serde_yaml`'s `Tag::new`, for which its leading `!` is not significant.
#[verifier::external_body]
fn close_node(n: Node) -> (r: serde_yaml::Value)
    requires
        n matches Node::Tagged(tag, _) ==> value::is_tag(tag@),
    ensures
        yaml_tree(r) == node_tree(n),
{
    match n {
        Node::Null => serde_yaml::Value::Null,
        Node::Bool(b) => serde_yaml::Value::Bool(b),
        Node::Numeral(n) => serde_yaml::Value::Number(n),
        Node::Text(s) => serde_yaml::Value::String(s),
        Node::Sequence(items) => serde_yaml::Value::Sequence(items),
        Node::Dict(m) => serde_yaml::Value::Mapping(m),
        Node::Tagged(tag, value) => serde_yaml::Value::Tagged(
            Box::new(serde_yaml::value::TaggedValue { tag: serde_yaml::value::Tag::new(tag), value }),
        ),
    }
}

/// Calls `serde_yaml::Mapping::into_iter`: the entries in their order, no two of
/// them with the same key.
#[verifier::external_body]
fn open_mapping(m: serde_yaml::Mapping) -> (r: Vec<(serde_yaml::Value, serde_yaml::Value)>)
    ensures
        yaml_pairs(r@) == yaml_entries(m),
        value::distinct_keys(yaml_pairs(r@)),
{
    m.into_iter().collect()
}

/// Calls `serde_yaml::Mapping::from_iter` on entries with distinct keys, which
/// keeps them all, in order.
#[verifier::external_body]
fn close_mapping(entries: Vec<(serde_yaml::Value, serde_yaml::Value)>) -> (r: serde_yaml::Mapping)
    requires
        value::distinct_keys(yaml_pairs(entries@)),
    ensures
        yaml_entries(r) == yaml_pairs(entries@),
{
    entries.into_iter().collect()
}

/// A number as plain values.
pub enum PlainNumber {
    PosInt(u64),
    NegInt(i64),
    Float(String),
}

/// What a plain number means.
pub open spec fn plain_num(n: PlainNumber) -> Num {
    match n {
        PlainNumber::PosInt(n) => Num::Int(n as int),
        PlainNumber::NegInt(n) => Num::Int(n as int),
        PlainNumber::Float(s) => Num::Float(s@),
    }
}

/// Tells the three kinds of `serde_yaml::Number` apart by `as_u64` and `as_i64`;
/// a floating-point number is written out by its `Display`, a text that reads as
/// the same number again.
#[verifier::external_body]
fn open_number(n: serde_yaml::Number) -> (r: PlainNumber)
    ensures
        plain_num(r) == yaml_number(n),
        r matches PlainNumber::Float(s) ==> float_text(s@),
{
    match (n.as_u64(), n.as_i64()) {
        (Some(u), _) => PlainNumber::PosInt(u),
        (None, Some(i)) => PlainNumber::NegInt(i),
        (None, None) => PlainNumber::Float(n.to_string()),
    }
}

/// Builds a `serde_yaml::Number`: an integer by `From`, a floating-point number
/// by `from_str` of its canonical text.
#[verifier::external_body]
fn close_number(n: PlainNumber) -> (r: serde_yaml::Number)
    requires
        n matches PlainNumber::Float(s) ==> float_text(s@),
    ensures
        yaml_number(r) == plain_num(n),
{
    match n {
        PlainNumber::PosInt(u) => u.into(),
        PlainNumber::NegInt(i) => i.into(),
        PlainNumber::Float(s) => s.parse().unwrap(),
    }
}

// === conversions ===

/// The number that a `serde_yaml::Number` holds.
fn from_yaml_number(n: serde_yaml::Number) -> (r: Numeral)
    ensures
        r@ == yaml_number(n),
{
    match open_number(n) {
        PlainNumber::PosInt(u) => Numeral::PosInt(u),
        PlainNumber::NegInt(i) => Numeral::NegInt(i),
        PlainNumber::Float(s) => Numeral::Float(Float::from_canonical(s)),
    }
}

/// The `serde_yaml::Number` for a number.
fn to_yaml_number(n: &Numeral) -> (r: serde_yaml::Number)
    ensures
        yaml_number(r) == n@,
{
    match n {
        Numeral::PosInt(u) => close_number(PlainNumber::PosInt(*u)),
        Numeral::NegInt(i) => close_number(PlainNumber::NegInt(*i)),
        Numeral::Float(f) => close_number(PlainNumber::Float(f.as_str().to_owned())),
    }
}

/// The document that a `serde_yaml::Value` holds.
pub fn from_yaml(v: serde_yaml::Value) -> (r: Doc)
    ensures
        r@ == yaml_tree(v),
    decreases yaml_tree(v),
{
    broadcast use value::lemma_sequence_view;

    let ghost whole = yaml_tree(v);
    match open_node(v) {
        Node::Null => Doc::Null,
        Node::Bool(b) => Doc::Bool(b),
        Node::Numeral(n) => Doc::Numeral(from_yaml_number(n)),
        Node::Text(s) => Doc::Text(s),
        Node::Sequence(items) => {
            let ghost goal = yaml_trees(items@);
            let mut out: Vec<Doc> = Vec::new();
            for item in it: items
                invariant
                    whole == yaml_tree(v),
                    whole == Tree::Sequence(goal),
                    it.seq().len() == goal.len(),
                    forall|i: int| 0 <= i < goal.len() ==> #[trigger] goal[i] == yaml_tree(it.seq()[i]),
                    value::trees(out@) == goal.take(it.index() as int),
            {
                let ghost n = it.index() as int;
                let ghost before = value::trees(out@);
                assert(yaml_tree(item) == goal[n]);
                assert(decreases_to!(whole => whole->Sequence_0));
                assert(decreases_to!(goal => goal[n]));
                out.push(from_yaml(item));
                assert(value::trees(out@) =~= before.push(goal[n]));
                assert(goal.take(n + 1) =~= goal.take(n).push(goal[n]));
            }
            assert(goal.take(goal.len() as int) =~= goal);
            Doc::Sequence(out)
        },
        Node::Dict(m) => {
            let ghost goal = yaml_entries(m);
            let entries = open_mapping(m);
            assert(yaml_pairs(entries@) == goal);
            let mut out: Vec<(Doc, Doc)> = Vec::new();
            for entry in it: entries
                invariant
                    whole == yaml_tree(v),
                    whole == Tree::Dict(goal),
                    it.seq().len() == goal.len(),
                    forall|i: int| 0 <= i < goal.len() ==> #[trigger] goal[i] == (yaml_tree(it.seq()[i].0), yaml_tree(it.seq()[i].1)),
                    value::entry_trees(out@) == goal.take(it.index() as int),
            {
                let ghost n = it.index() as int;
                let ghost before = value::entry_trees(out@);
                let (key, held) = entry;
                assert(goal[n] == (yaml_tree(key), yaml_tree(held)));
                assert(decreases_to!(whole => whole->Dict_0));
                assert(decreases_to!(goal => goal[n]));
                assert(decreases_to!(goal[n] => goal[n].0));
                assert(decreases_to!(goal[n] => goal[n].1));
                out.push((from_yaml(key), from_yaml(held)));
                assert(value::entry_trees(out@) =~= before.push(goal[n]));
                assert(goal.take(n + 1) =~= goal.take(n).push(goal[n]));
            }
            assert(goal.take(goal.len() as int) =~= goal);
            Doc::Dict(Dict::from_entries(out))
        },
        Node::Tagged(tag, inner) => {
            assert(decreases_to!(whole => whole->Tagged_1));
            Doc::Tagged(Tag::from_text(tag), Box::new(from_yaml(inner)))
        },
    }
}

/// The `serde_yaml::Value` for a document.
pub fn to_yaml(doc: &Doc) -> (r: serde_yaml::Value)
    ensures
        yaml_tree(r) == doc@,
    decreases doc@,
{
    broadcast use value::lemma_sequence_view;

    let ghost whole = doc@;
    match doc {
        Doc::Null => close_node(Node::Null),
        Doc::Bool(b) => close_node(Node::Bool(*b)),
        Doc::Numeral(n) => close_node(Node::Numeral(to_yaml_number(n))),
        Doc::Text(s) => close_node(Node::Text(s.clone())),
        Doc::Sequence(items) => {
            let ghost goal = value::trees(items@);
            let mut out: Vec<serde_yaml::Value> = Vec::new();
            let mut i: usize = 0;
            while i < items.len()
                invariant
                    i <= items@.len(),
                    whole == doc@,
                    whole == Tree::Sequence(goal),
                    goal == value::trees(items@),
                    yaml_trees(out@) == goal.take(i as int),
                decreases items@.len() - i,
            {
                let ghost n = i as int;
                let ghost before = yaml_trees(out@);
                assert(decreases_to!(whole => whole->Sequence_0));
                assert(decreases_to!(goal => goal[n]));
                out.push(to_yaml(&items[i]));
                assert(yaml_trees(out@) =~= before.push(goal[n]));
                assert(goal.take(n + 1) =~= goal.take(n).push(goal[n]));
                i += 1;
            }
            assert(goal.take(goal.len() as int) =~= goal);
            close_node(Node::Sequence(out))
        },
        Doc::Dict(m) => {
            let ghost goal = m@;
            let entries = m.entries();
            let mut out: Vec<(serde_yaml::Value, serde_yaml::Value)> = Vec::new();
            let mut i: usize = 0;
            while i < entries.len()
                invariant
                    i <= entries@.len(),
                    whole == doc@,
                    whole == Tree::Dict(goal),
                    goal == value::entry_trees(entries@),
                    yaml_pairs(out@) == goal.take(i as int),
                decreases entries@.len() - i,
            {
                let ghost n = i as int;
                let ghost before = yaml_pairs(out@);
                assert(decreases_to!(whole => whole->Dict_0));
                assert(decreases_to!(goal => goal[n]));
                assert(decreases_to!(goal[n] => goal[n].0));
                assert(decreases_to!(goal[n] => goal[n].1));
                out.push((to_yaml(&entries[i].0), to_yaml(&entries[i].1)));
                assert(yaml_pairs(out@) =~= before.push(goal[n]));
                assert(goal.take(n + 1) =~= goal.take(n).push(goal[n]));
                i += 1;
            }
            assert(goal.take(goal.len() as int) =~= goal);
            close_node(Node::Dict(close_mapping(out)))
        },
        Doc::Tagged(tag, inner) => {
            assert(decreases_to!(whole => whole->Tagged_1));
            close_node(Node::Tagged(tag.as_str().to_owned(), to_yaml(inner)))
        },
    }
}

// === documents as text ===

/// Parse YAML text; an error is given by its message.
pub fn parse(text: &str) -> (r: Result<Doc, String>)
    ensures
        match r {
            Ok(doc) => parsed(text@) == Ok::<Tree, Seq<char>>(doc@),
            Err(message) => parsed(text@) == Err::<Tree, Seq<char>>(message@),
        },
{
    match outside_parse(text) {
        Ok(v) => Ok(from_yaml(v)),
        Err(e) => Err(show_error(&e)),
    }
}

/// Render a document as YAML text; an error is given by its message.
pub fn render(doc: &Doc) -> (r: Result<String, String>)
    ensures
        text::outcome(r) == rendered(doc@),
{
    match outside_render(&to_yaml(doc)) {
        Ok(text) => Ok(text),
        Err(e) => Err(show_error(&e)),
    }
}

}
