//! Editor-facing parameter metadata, unified across devices.
//!
//! Every editable field is described by a [`ParamMeta`] keyed by a
//! fully-qualified path (`system.common.master_tune`, …) that matches the
//! device's documents. The editor's help buttons and value pickers read this at
//! runtime, so labels and help live next to the codec.

use vstd::prelude::*;
use vstd::string::*;

use crate::text::{prefixed, same_text};
use crate::value::{self, record, Doc, Num, Numeral, Tag, Tree};

verus! {

/// One option of a [`Kind::Choice`] field: the serialized `value` token and its
/// human `label`.
#[derive(Debug, Clone, Copy, PartialEq, Eq)]
pub struct Choice {
    pub value: &'static str,
    pub label: &'static str,
}

/// Make a [`Choice`].
pub fn choice(value: &'static str, label: &'static str) -> (r: Choice)
    ensures
        r == (Choice { value, label }),
{
    Choice { value, label }
}

/// The shape of a field's value — what control and validation it implies.
#[derive(Debug, Clone, Copy, PartialEq, Eq)]
pub enum Kind {
    /// A numeric value, inclusive `min..=max`, with an optional engineering unit.
    Range { min: i64, max: i64, unit: Option<&'static str> },
    /// A discrete choice from a fixed list of options.
    Choice(&'static [Choice]),
    /// An on/off boolean.
    Toggle,
    /// Free text (names, file paths).
    Text,
}

/// Whether a field is a `0..N` *magnitude* the editor may show as a percentage
/// (cutoff, depth, volume…), as opposed to a signed/centred/enum/index/bool.
#[derive(Debug, Clone, Copy, PartialEq, Eq, Structural)]
pub enum Level {
    /// Signed, centred, enum, index, or boolean — not a magnitude.
    Plain,
    /// A `0..N` magnitude that reads naturally as "x% of full".
    Magnitude,
}

impl Default for Level {
    fn default() -> (r: Level)
        ensures
            r == Level::Plain,
    {
        Level::Plain
    }
}

impl Level {
    /// True for [`Level::Plain`], which reference data leaves out.
    pub fn is_plain(&self) -> (r: bool)
        ensures
            r == (*self == Level::Plain),
    {
        matches!(self, Level::Plain)
    }
}

/// Metadata for one editable field.
#[derive(Debug, Clone, Copy, PartialEq, Eq)]
pub struct ParamMeta {
    /// Fully-qualified path, e.g. `"live_set.part.filter_cutoff"`.
    pub path: &'static str,
    /// Accessible label, e.g. `"Cutoff"`.
    pub label: &'static str,
    /// Display group / fieldset legend, e.g. `"Filter and EG"`.
    pub group: &'static str,
    /// Tooltip / screen-reader body.
    pub help: &'static str,
    /// Magnitude flag (see [`Level`]).
    pub level: Level,
    /// Optional value-shape hint for the editor.
    pub kind: Option<Kind>,
    /// Which lookup catalog this field's raw value maps to, if any (drives
    /// name-number resolution; see [`crate::resolve`]).
    pub catalog: Option<&'static str>,
}

/// A device's full parameter table, in display order.
#[derive(Debug, Clone, Copy)]
pub struct Params(pub &'static [ParamMeta]);

/// The paths of a parameter table, in order.
pub open spec fn paths(table: Seq<ParamMeta>) -> Seq<Seq<char>> {
    Seq::new(table.len(), |i: int| table[i].path@)
}

/// The position of the first parameter with the given path.
pub open spec fn path_index(table: Seq<ParamMeta>, path: Seq<char>) -> Option<int> {
    paths(table).index_of_first(path)
}

/// The parameters of a display group, in table order.
pub open spec fn grouped(table: Seq<ParamMeta>, group: Seq<char>) -> Seq<ParamMeta> {
    table.filter(|m: ParamMeta| m.group@ == group)
}

/// The parameters behind a vector of references.
pub open spec fn referred(v: Seq<&ParamMeta>) -> Seq<ParamMeta> {
    Seq::new(v.len(), |i: int| *v[i])
}

impl Params {
    /// Full metadata for a field path, or `None` if absent.
    pub fn get(&self, path: &str) -> (r: Option<&'static ParamMeta>)
        ensures
            match path_index(self.0@, path@) {
                Some(i) => 0 <= i < self.0@.len() && r == Some(&self.0@[i]),
                None => r is None,
            },
    {
        let table: &'static [ParamMeta] = self.0;
        proof {
            paths(table@).index_of_first_ensures(path@);
        }
        let mut i: usize = 0;
        while i < table.len()
            invariant
                i <= table@.len(),
                table == self.0,
                forall|j: int| 0 <= j < i ==> paths(table@)[j] != path@,
            decreases table@.len() - i,
        {
            if same_text(table[i].path, path) {
                proof {
                    assert(paths(table@)[i as int] == path@);
                    paths(table@).index_of_first_ensures(path@);
                }
                return Some(&table[i]);
            }
            i += 1;
        }
        None
    }

    /// Help text for a field path, or `None` if absent.
    pub fn help(&self, path: &str) -> (r: Option<&'static str>)
        ensures
            match path_index(self.0@, path@) {
                Some(i) => r == Some(self.0@[i].help),
                None => r is None,
            },
    {
        match self.get(path) {
            Some(m) => Some(m.help),
            None => None,
        }
    }

    /// All fields in a display group, in table order.
    pub fn in_group(&self, group: &str) -> (r: Vec<&'static ParamMeta>)
        ensures
            referred(r@) == grouped(self.0@, group@),
    {
        let table: &'static [ParamMeta] = self.0;
        let ghost pred = |m: ParamMeta| m.group@ == group@;
        let mut out: Vec<&'static ParamMeta> = Vec::new();
        let mut i: usize = 0;
        proof {
            reveal(Seq::filter);
            assert(table@.take(0).filter(pred) =~= referred(out@));
        }
        while i < table.len()
            invariant
                i <= table@.len(),
                pred == (|m: ParamMeta| m.group@ == group@),
                referred(out@) == table@.take(i as int).filter(pred),
            decreases table@.len() - i,
        {
            proof {
                reveal(Seq::filter);
                assert(table@.take(i + 1).drop_last() =~= table@.take(i as int));
            }
            let ghost before = referred(out@);
            if same_text(table[i].group, group) {
                out.push(&table[i]);
                assert(referred(out@) =~= before.push(table@[i as int]));
            }
            i += 1;
        }
        assert(table@.take(i as int) =~= table@);
        out
    }

    /// The underlying slice.
    pub fn as_slice(&self) -> (r: &'static [ParamMeta])
        ensures
            r == self.0,
    {
        self.0
    }
}

// === reference data as documents ===

/// A choice as a document.
pub open spec fn choice_tree(c: Choice) -> Tree {
    value::record_tree(seq![("value"@, Tree::Text(c.value@)), ("label"@, Tree::Text(c.label@))])
}

/// The choices of a list as documents.
pub open spec fn choice_trees(options: Seq<Choice>) -> Seq<Tree> {
    Seq::new(options.len(), |i: int| choice_tree(options[i]))
}

/// The fields of a numeric range; the unit is left out where there is none.
pub open spec fn range_fields(min: i64, max: i64, unit: Option<&str>) -> Seq<(Seq<char>, Tree)> {
    let bounds = seq![
        ("min"@, Tree::Numeral(Num::Int(min as int))),
        ("max"@, Tree::Numeral(Num::Int(max as int))),
    ];
    match unit {
        Some(u) => bounds.push(("unit"@, Tree::Text(u@))),
        None => bounds,
    }
}

/// Which text a document is meant for: they name the shape of a value differently.
#[derive(Debug, Clone, Copy, PartialEq, Eq, Structural)]
pub enum Form {
    /// JSON: a mapping from the name to the contents.
    Json,
    /// YAML: the contents, tagged with the name.
    Yaml,
}

/// Contents under the name of their shape.
pub open spec fn shape_tree(name: Seq<char>, contents: Tree, form: Form) -> Tree {
    match form {
        Form::Json => value::record_tree(seq![(name, contents)]),
        Form::Yaml => Tree::Tagged("!"@ + name, Box::new(contents)),
    }
}

/// A value shape as a document: a shape with contents stands under its name, one
/// without is its name.
pub open spec fn kind_tree(k: Kind, form: Form) -> Tree {
    match k {
        Kind::Range { min, max, unit } => shape_tree(
            "range"@,
            value::record_tree(range_fields(min, max, unit)),
            form,
        ),
        Kind::Choice(options) => shape_tree("choice"@, Tree::Sequence(choice_trees(options@)), form),
        Kind::Toggle => Tree::Text("toggle"@),
        Kind::Text => Tree::Text("text"@),
    }
}

/// The fields of a parameter's metadata: what is plain or absent is left out.
pub open spec fn meta_fields(m: ParamMeta, form: Form) -> Seq<(Seq<char>, Tree)> {
    let named = seq![
        ("path"@, Tree::Text(m.path@)),
        ("label"@, Tree::Text(m.label@)),
        ("group"@, Tree::Text(m.group@)),
        ("help"@, Tree::Text(m.help@)),
    ];
    let levelled = if m.level == Level::Magnitude {
        named.push(("level"@, Tree::Bool(true)))
    } else {
        named
    };
    let shaped = match m.kind {
        Some(k) => levelled.push(("kind"@, kind_tree(k, form))),
        None => levelled,
    };
    match m.catalog {
        Some(cat) => shaped.push(("catalog"@, Tree::Text(cat@))),
        None => shaped,
    }
}

/// A parameter's metadata as a document.
pub open spec fn meta_tree(m: ParamMeta, form: Form) -> Tree {
    value::record_tree(meta_fields(m, form))
}

/// The metadata of a parameter table as documents.
pub open spec fn meta_trees(table: Seq<ParamMeta>, form: Form) -> Seq<Tree> {
    Seq::new(table.len(), |i: int| meta_tree(table[i], form))
}

impl Choice {
    /// The choice as a document.
    pub fn to_value(&self) -> (r: Doc)
        ensures
            r@ == choice_tree(*self),
    {
        let fields: Vec<(&str, Doc)> = vec![("value", Doc::text(self.value)), ("label", Doc::text(self.label))];
        proof {
            reveal_strlit("value");
            reveal_strlit("label");
            assert("value"@[0] != "label"@[0]);
            assert(value::field_trees(fields@) =~= seq![
                ("value"@, Tree::Text(self.value@)),
                ("label"@, Tree::Text(self.label@)),
            ]);
        }
        record(fields)
    }
}

/// Put contents under the name of their shape.
fn under_shape(name: &str, contents: Doc, form: Form) -> (r: Doc)
    requires
        name@.len() > 0,
    ensures
        r@ == shape_tree(name@, contents@, form),
{
    match form {
        Form::Json => {
            let fields: Vec<(&str, Doc)> = vec![(name, contents)];
            assert(value::field_trees(fields@) =~= seq![(name@, contents@)]);
            record(fields)
        },
        Form::Yaml => {
            let tag = prefixed("!", name);
            proof {
                reveal_strlit("!");
            }
            Doc::Tagged(Tag::from_text(tag), Box::new(contents))
        },
    }
}

impl Kind {
    /// The value shape as a document: a shape with contents stands under its
    /// name, one without is its name.
    pub fn to_value(&self, form: Form) -> (r: Doc)
        ensures
            r@ == kind_tree(*self, form),
    {
        broadcast use value::lemma_sequence_view;

        match self {
            Kind::Range { min, max, unit } => {
                let mut fields: Vec<(&str, Doc)> = vec![
                    ("min", Doc::Numeral(Numeral::from_i64(*min))),
                    ("max", Doc::Numeral(Numeral::from_i64(*max))),
                ];
                if let Some(u) = unit {
                    fields.push(("unit", Doc::text(u)));
                }
                proof {
                    reveal_strlit("min");
                    reveal_strlit("max");
                    reveal_strlit("unit");
                    assert("min"@[1] != "max"@[1]);
                    assert(value::field_trees(fields@) =~= range_fields(*min, *max, *unit));
                }
                proof {
                    reveal_strlit("range");
                }
                under_shape("range", record(fields), form)
            },
            Kind::Choice(options) => {
                let ghost goal = choice_trees(options@);
                let mut items: Vec<Doc> = Vec::new();
                let mut i: usize = 0;
                while i < options.len()
                    invariant
                        i <= options@.len(),
                        goal == choice_trees(options@),
                        value::trees(items@) == goal.take(i as int),
                    decreases options@.len() - i,
                {
                    let ghost before = value::trees(items@);
                    items.push(options[i].to_value());
                    assert(value::trees(items@) =~= before.push(goal[i as int]));
                    assert(goal.take(i + 1) =~= before.push(goal[i as int]));
                    i += 1;
                }
                assert(goal.take(i as int) =~= goal);
                proof {
                    reveal_strlit("choice");
                }
                under_shape("choice", Doc::Sequence(items), form)
            },
            Kind::Toggle => Doc::text("toggle"),
            Kind::Text => Doc::text("text"),
        }
    }
}

/// The names of a parameter's fields are distinct.
pub proof fn lemma_meta_fields_distinct(m: ParamMeta, form: Form)
    ensures
        value::distinct_names(meta_fields(m, form)),
{
    reveal_strlit("path");
    reveal_strlit("label");
    reveal_strlit("group");
    reveal_strlit("help");
    reveal_strlit("level");
    reveal_strlit("kind");
    reveal_strlit("catalog");
    assert("path"@[0] != "help"@[0] && "path"@[0] != "kind"@[0] && "help"@[0] != "kind"@[0]);
    assert("label"@[0] != "group"@[0] && "group"@[0] != "level"@[0] && "label"@[1] != "level"@[1]);
}

impl ParamMeta {
    /// The metadata as a document; what is plain or absent is left out.
    pub fn to_value(&self, form: Form) -> (r: Doc)
        ensures
            r@ == meta_tree(*self, form),
    {
        let mut fields: Vec<(&str, Doc)> = vec![
            ("path", Doc::text(self.path)),
            ("label", Doc::text(self.label)),
            ("group", Doc::text(self.group)),
            ("help", Doc::text(self.help)),
        ];
        if !self.level.is_plain() {
            fields.push(("level", Doc::Bool(true)));
        }
        if let Some(k) = &self.kind {
            fields.push(("kind", k.to_value(form)));
        }
        if let Some(cat) = self.catalog {
            fields.push(("catalog", Doc::text(cat)));
        }
        proof {
            lemma_meta_fields_distinct(*self, form);
            assert(value::field_trees(fields@) =~= meta_fields(*self, form));
        }
        record(fields)
    }
}

impl Params {
    /// The table as a document: the sequence of its parameters.
    pub fn to_value(&self, form: Form) -> (r: Doc)
        ensures
            r@ == Tree::Sequence(meta_trees(self.0@, form)),
    {
        broadcast use value::lemma_sequence_view;

        let table: &'static [ParamMeta] = self.0;
        let ghost goal = meta_trees(table@, form);
        let mut items: Vec<Doc> = Vec::new();
        let mut i: usize = 0;
        while i < table.len()
            invariant
                i <= table@.len(),
                goal == meta_trees(table@, form),
                value::trees(items@) == goal.take(i as int),
            decreases table@.len() - i,
        {
            let ghost before = value::trees(items@);
            items.push(table[i].to_value(form));
            assert(value::trees(items@) =~= before.push(goal[i as int]));
            assert(goal.take(i + 1) =~= before.push(goal[i as int]));
            i += 1;
        }
        assert(goal.take(i as int) =~= goal);
        Doc::Sequence(items)
    }
}

}
