//! Value catalogs (name-number lookup) and the combined metadata [`Bundle`].
//!
//! A device exposes its lookup tables — voices, effect algorithms, EQ
//! frequencies, … — through the [`Catalogs`] trait. Each table has a name that a
//! [`ParamMeta`](crate::meta::ParamMeta)'s `catalog` hint refers to, wiring the
//! tables to name resolution.
//!
//! [`Bundle`] is the one JSON object a tool needs to author a preset *by name*
//! over a sensible baseline: the params, every catalog's data, and the per-area
//! factory defaults.

use vstd::prelude::*;
use vstd::string::*;

use crate::meta::{self, Form, ParamMeta, Params};
use crate::value::{self, record, Doc, Tree};

verus! {

/// A device's value catalogs: name-number lookup plus full data for the bundle.
///
/// The tables are fixed reference data, so what each method answers is a
/// function of its arguments; the spec functions name those answers.
pub trait Catalogs {
    /// The answer of [`resolve`](Catalogs::resolve).
    open spec fn resolution(&self, cat: Seq<char>, name: Seq<char>) -> Option<i64> {
        arbitrary()
    }

    /// The answer of [`label`](Catalogs::label).
    open spec fn labelling(&self, cat: Seq<char>, value: i64) -> Option<Seq<char>> {
        arbitrary()
    }

    /// The answer of [`names`](Catalogs::names).
    open spec fn catalog_names(&self) -> Seq<Seq<char>> {
        arbitrary()
    }

    /// The answer of [`as_value`](Catalogs::as_value).
    open spec fn contents(&self) -> Tree {
        arbitrary()
    }

    /// Resolve a value *name* within catalog `cat` to its numeric value
    /// (case-insensitive, by convention). `None` if `cat` or `name` is unknown.
    fn resolve(&self, cat: &str, name: &str) -> (r: Option<i64>)
        ensures
            r == self.resolution(cat@, name@),
    ;

    /// Label a numeric `value` within catalog `cat` (the inverse of
    /// [`resolve`](Catalogs::resolve)). `None` if out of range / unknown.
    fn label(&self, cat: &str, value: i64) -> (r: Option<String>)
        ensures
            match r {
                Some(s) => self.labelling(cat@, value) == Some(s@),
                None => self.labelling(cat@, value) is None,
            },
    ;

    /// The names of every catalog this device exposes.
    fn names(&self) -> (r: &[&str])
        ensures
            names_of(r@) == self.catalog_names(),
    ;

    /// All catalog data as one document (the bundle's `catalogs` field).
    /// Conventionally a mapping of catalog-name → entries.
    fn as_value(&self) -> (r: Doc)
        ensures
            r@ == self.contents(),
    ;
}

/// The texts behind a slice of string references.
pub open spec fn names_of(v: Seq<&str>) -> Seq<Seq<char>> {
    Seq::new(v.len(), |i: int| v[i]@)
}

/// The combined metadata bundle — one device's complete reference data.
///
/// Built by the `catalog` command from a [`Device`](crate::device::Device):
/// `device` = its name, `params` = its [`Params`], `catalogs` = its
/// [`Catalogs::as_value`], `defaults` = a mapping of area-name → factory default
/// document.
#[derive(Debug, Clone)]
pub struct Bundle {
    pub device: &'static str,
    pub params: Params,
    pub catalogs: Doc,
    pub defaults: Doc,
}

/// A bundle as a document.
pub open spec fn bundle_tree(
    device: Seq<char>,
    table: Seq<ParamMeta>,
    catalogs: Tree,
    defaults: Tree,
    form: Form,
) -> Tree {
    value::record_tree(
        seq![
            ("device"@, Tree::Text(device)),
            ("params"@, Tree::Sequence(meta::meta_trees(table, form))),
            ("catalogs"@, catalogs),
            ("defaults"@, defaults),
        ],
    )
}

impl Bundle {
    /// The bundle as a document.
    pub fn to_value(self, form: Form) -> (r: Doc)
        ensures
            r@ == bundle_tree(self.device@, self.params.0@, self.catalogs@, self.defaults@, form),
    {
        let fields: Vec<(&str, Doc)> = vec![
            ("device", Doc::text(self.device)),
            ("params", self.params.to_value(form)),
            ("catalogs", self.catalogs),
            ("defaults", self.defaults),
        ];
        proof {
            reveal_strlit("device");
            reveal_strlit("params");
            reveal_strlit("catalogs");
            reveal_strlit("defaults");
            assert("device"@[0] != "params"@[0] && "catalogs"@[0] != "defaults"@[0]);
            assert("device"@.len() == 6 && "params"@.len() == 6 && "catalogs"@.len() == 8 && "defaults"@.len() == 8);
            assert(value::field_trees(fields@) =~= seq![
                ("device"@, Tree::Text(self.device@)),
                ("params"@, Tree::Sequence(meta::meta_trees(self.params.0@, form))),
                ("catalogs"@, self.catalogs@),
                ("defaults"@, self.defaults@),
            ]);
        }
        record(fields)
    }
}

}
