//! Parameter metadata: what a parameter's document says of it.

use vstd::prelude::*;

use crate::laws::terms;
use crate::meta::{self, Choice, Form, Kind, Level, ParamMeta, Params};
use crate::value::{self, Doc, Tree};

verus! {

/// A document says of a choice its value and its label, and no more.
pub open spec fn tells_choice(t: Tree, c: Choice) -> bool {
    &&& value::field(t, "value"@) == Some(Tree::Text(c.value@))
    &&& value::field(t, "label"@) == Some(Tree::Text(c.label@))
    &&& t matches Tree::Dict(entries) && entries.len() == 2
}

/// What stands under the name of a shape: in JSON under that key, the only one, and
/// in YAML behind that tag.
pub open spec fn under(t: Tree, name: Seq<char>, form: Form) -> Option<Tree> {
    match (form, t) {
        (Form::Json, Tree::Dict(entries)) => if entries.len() == 1 && entries[0].0 == Tree::Text(name) {
            Some(entries[0].1)
        } else {
            None
        },
        (Form::Yaml, Tree::Tagged(tag, inner)) => if tag == seq!['!'] + name {
            Some(*inner)
        } else {
            None
        },
        _ => None,
    }
}

/// A document says of a range its bounds and its unit, if it has one.
pub open spec fn tells_range(t: Tree, min: int, max: int, unit: Option<Seq<char>>) -> bool {
    &&& value::field(t, "min"@) == Some(terms::number(min))
    &&& value::field(t, "max"@) == Some(terms::number(max))
    &&& value::field(t, "unit"@) == (match unit {
        Some(u) => Some(Tree::Text(u)),
        None => None,
    })
    &&& t matches Tree::Dict(entries) && entries.len() == (if unit is Some {
        3int
    } else {
        2int
    })
}

/// A document says what shape a value has.
pub open spec fn tells_kind(t: Tree, k: Kind, form: Form) -> bool {
    match k {
        Kind::Range { min, max, unit } => under(t, "range"@, form) matches Some(x) && tells_range(
            x,
            min as int,
            max as int,
            match unit {
                Some(u) => Some(u@),
                None => None,
            },
        ),
        Kind::Choice(options) => {
            &&& under(t, "choice"@, form) matches Some(Tree::Sequence(list))
            &&& list.len() == options@.len()
            &&& forall|i: int| 0 <= i < list.len() ==> tells_choice(#[trigger] list[i], options@[i])
        },
        Kind::Toggle => t == Tree::Text("toggle"@),
        Kind::Text => t == Tree::Text("text"@),
    }
}

/// How many of these hold.
pub open spec fn count_of(a: bool, b: bool, c: bool) -> int {
    (if a {
        1int
    } else {
        0
    }) + (if b {
        1int
    } else {
        0
    }) + (if c {
        1int
    } else {
        0
    })
}

/// A document says of a parameter its path, label, group and help, and of its level,
/// its shape and its catalog what there is to say; and no more.
pub open spec fn tells_param(t: Tree, m: ParamMeta, form: Form) -> bool {
    &&& value::field(t, "path"@) == Some(Tree::Text(m.path@))
    &&& value::field(t, "label"@) == Some(Tree::Text(m.label@))
    &&& value::field(t, "group"@) == Some(Tree::Text(m.group@))
    &&& value::field(t, "help"@) == Some(Tree::Text(m.help@))
    &&& value::field(t, "level"@) == (if m.level == Level::Magnitude {
        Some(Tree::Bool(true))
    } else {
        None
    })
    &&& match m.kind {
        Some(k) => value::field(t, "kind"@) matches Some(x) && tells_kind(x, k, form),
        None => value::field(t, "kind"@) is None,
    }
    &&& value::field(t, "catalog"@) == (match m.catalog {
        Some(c) => Some(Tree::Text(c@)),
        None => None,
    })
    &&& t matches Tree::Dict(entries) && entries.len() == 4 + count_of(
        m.level == Level::Magnitude,
        m.kind is Some,
        m.catalog is Some,
    )
}

proof fn lemma_choice_told(c: Choice)
    ensures
        tells_choice(meta::choice_tree(c), c),
{
    reveal_strlit("value");
    reveal_strlit("label");
    assert("value"@[0] != "label"@[0]);
    let fields = seq![("value"@, Tree::Text(c.value@)), ("label"@, Tree::Text(c.label@))];
    value::lemma_record_field(fields, "value"@);
    value::lemma_record_field(fields, "label"@);
    assert(fields[0].0 == "value"@ && fields[1].0 == "label"@);
    assert(meta::choice_tree(c) == value::record_tree(fields));
}

proof fn lemma_range_told(min: i64, max: i64, unit: Option<&str>)
    ensures
        tells_range(
            value::record_tree(meta::range_fields(min, max, unit)),
            min as int,
            max as int,
            match unit {
                Some(u) => Some(u@),
                None => None,
            },
        ),
{
    reveal_strlit("min");
    reveal_strlit("max");
    reveal_strlit("unit");
    assert("min"@[1] != "max"@[1]);
    let fields = meta::range_fields(min, max, unit);
    assert(value::distinct_names(fields));
    value::lemma_record_field(fields, "min"@);
    value::lemma_record_field(fields, "max"@);
    value::lemma_record_field(fields, "unit"@);
    assert(fields[0].0 == "min"@ && fields[1].0 == "max"@);
    if unit is Some {
        assert(fields[2].0 == "unit"@);
    }
}

proof fn lemma_kind_told(k: Kind, form: Form)
    ensures
        tells_kind(meta::kind_tree(k, form), k, form),
{
    reveal_strlit("!");
    assert("!"@ =~= seq!['!']);
    match k {
        Kind::Range { min, max, unit } => {
            lemma_range_told(min, max, unit);
        },
        Kind::Choice(options) => {
            let list = meta::choice_trees(options@);
            assert forall|i: int| 0 <= i < list.len() implies tells_choice(#[trigger] list[i], options@[i]) by {
                lemma_choice_told(options@[i]);
            }
        },
        _ => {},
    }
}

/// A parameter's document says all there is to say of it.
pub proof fn lemma_param_told(m: ParamMeta, form: Form)
    ensures
        tells_param(meta::meta_tree(m, form), m, form),
{
    let fields = meta::meta_fields(m, form);
    meta::lemma_meta_fields_distinct(m, form);
    reveal_strlit("path");
    reveal_strlit("label");
    reveal_strlit("group");
    reveal_strlit("help");
    reveal_strlit("level");
    reveal_strlit("kind");
    reveal_strlit("catalog");
    assert("path"@[0] != "help"@[0] && "path"@[0] != "kind"@[0] && "help"@[0] != "kind"@[0]);
    assert("label"@[0] != "group"@[0] && "group"@[0] != "level"@[0] && "label"@[1] != "level"@[1]);
    assert("path"@.len() == 4 && "label"@.len() == 5 && "group"@.len() == 5 && "help"@.len() == 4 && "level"@.len() == 5
        && "kind"@.len() == 4 && "catalog"@.len() == 7);
    value::lemma_record_field(fields, "path"@);
    value::lemma_record_field(fields, "label"@);
    value::lemma_record_field(fields, "group"@);
    value::lemma_record_field(fields, "help"@);
    value::lemma_record_field(fields, "level"@);
    value::lemma_record_field(fields, "kind"@);
    value::lemma_record_field(fields, "catalog"@);
    assert(fields[0].0 == "path"@ && fields[1].0 == "label"@ && fields[2].0 == "group"@ && fields[3].0 == "help"@);
    let mag = m.level == Level::Magnitude;
    if mag {
        assert(fields[4].0 == "level"@);
    }
    if let Some(k) = m.kind {
        lemma_kind_told(k, form);
        assert(fields[if mag {
            5
        } else {
            4
        }].0 == "kind"@);
    }
    if m.catalog is Some {
        assert(fields[fields.len() - 1].0 == "catalog"@);
    }
}

/// A parameter renders as a document that says all there is to say of it.
pub proof fn lemma_param_rendered(m: ParamMeta, form: Form, r: Doc)
    requires
        call_ensures(ParamMeta::to_value, (&m, form), r),
    ensures
        tells_param(r@, m, form),
{
    lemma_param_told(m, form);
}

/// A shape renders as a document that says what it is.
pub proof fn lemma_kind_rendered(k: Kind, form: Form, r: Doc)
    requires
        call_ensures(Kind::to_value, (&k, form), r),
    ensures
        tells_kind(r@, k, form),
{
    lemma_kind_told(k, form);
}

/// A table renders as the list of its parameters, in table order.
pub proof fn lemma_table_rendered(params: Params, form: Form, r: Doc)
    requires
        call_ensures(Params::to_value, (&params, form), r),
    ensures
        r@ matches Tree::Sequence(list) && list.len() == params.0@.len() && forall|i: int|
            0 <= i < list.len() ==> tells_param(#[trigger] list[i], params.0@[i], form),
{
    let list = meta::meta_trees(params.0@, form);
    assert forall|i: int| 0 <= i < list.len() implies tells_param(#[trigger] list[i], params.0@[i], form) by {
        lemma_param_told(params.0@[i], form);
    }
}

/// Looking a path up gives the first parameter with that path, and none only where
/// there is none.
pub proof fn lemma_param_got(params: Params, path: &str, r: Option<&'static ParamMeta>)
    requires
        call_ensures(Params::get, (&params, path), r),
    ensures
        match r {
            Some(m) => exists|i: int|
                {
                    &&& 0 <= i < params.0@.len()
                    &&& #[trigger] params.0@[i] == *m
                    &&& m.path@ == path@
                    &&& forall|j: int| 0 <= j < i ==> (#[trigger] params.0@[j]).path@ != path@
                },
            None => forall|i: int| 0 <= i < params.0@.len() ==> (#[trigger] params.0@[i]).path@ != path@,
        },
{
    let all = meta::paths(params.0@);
    all.index_of_first_ensures(path@);
    match meta::path_index(params.0@, path@) {
        Some(i) => {
            assert(all[i] == path@);
            assert forall|j: int| 0 <= j < i implies (#[trigger] params.0@[j]).path@ != path@ by {
                assert(all[j] != path@);
            }
            assert(params.0@[i] == *r->Some_0);
        },
        None => {
            assert forall|i: int| 0 <= i < params.0@.len() implies (#[trigger] params.0@[i]).path@ != path@ by {
                assert(all[i] == params.0@[i].path@);
                assert(!all.contains(path@));
            }
        },
    }
}

/// The help of a path is that of the parameter it finds.
pub proof fn lemma_help_got(params: Params, path: &str, m: Option<&'static ParamMeta>, r: Option<&'static str>)
    requires
        call_ensures(Params::get, (&params, path), m),
        call_ensures(Params::help, (&params, path), r),
    ensures
        match m {
            Some(m) => r == Some(m.help),
            None => r is None,
        },
{
}

/// `hits` are the positions of the parameters of a group.
pub open spec fn of_group(table: Seq<ParamMeta>, group: Seq<char>, hits: Seq<int>) -> bool {
    terms::picks(table, |m: ParamMeta| m.group@ == group, hits)
}

/// The parameters of a group are those whose group it is: all of them, in table
/// order.
pub proof fn lemma_group_got(params: Params, group: &str, r: Vec<&'static ParamMeta>)
    requires
        call_ensures(Params::in_group, (&params, group), r),
    ensures
        exists|hits: Seq<int>| #[trigger]
            of_group(params.0@, group@, hits) && r@.len() == hits.len() && forall|k: int|
                0 <= k < hits.len() ==> *(#[trigger] r@[k]) == params.0@[hits[k]],
{
    let pred = |m: ParamMeta| m.group@ == group@;
    let hits = terms::lemma_filter_picks(params.0@, pred);
    let all = meta::grouped(params.0@, group@);
    assert(all == terms::items_at(params.0@, hits));
    assert forall|k: int| 0 <= k < hits.len() implies *(#[trigger] r@[k]) == params.0@[hits[k]] by {
        assert(meta::referred(r@)[k] == all[k]);
    }
    assert(meta::referred(r@).len() == all.len());
    assert(of_group(params.0@, group@, hits));
}

}
