//! [`DeviceHandle`] — a snapshot of a [`Device`] and what a tool can ask of it.
//!
//! Expensive-but-fixed data (catalogs, schemas, defaults) is computed once. A
//! device's catalog bundle is large, so it is exposed as something to *query*:
//! describe the device, search its parameters, page through one catalog, validate
//! a document, turn value names into numbers.
//!
//! Given a [`MidiConfig`] with a port, a tool can also read an area off the
//! device and write one back (see [`crate::plan`]).

use core::marker::PhantomData;

use vstd::prelude::*;
use vstd::string::*;

use crate::catalog::{self, Catalogs};
use crate::device::{self, Area, Device, DeviceError};
use crate::engine;
use crate::json;
use crate::meta::{ParamMeta, Params};
use crate::resolve::{self, Direction};
use crate::search;
use crate::text::{self, prefixed, quoted, same_text};
use crate::value::{self, record, Doc, Tree};
use crate::yaml;

verus! {

// === the snapshot ===

/// How to reach the hardware.
#[derive(Debug)]
pub struct MidiConfig {
    /// MIDI input port substring.
    pub input_port: Option<String>,
    /// MIDI output port substring.
    pub output_port: Option<String>,
    /// Device / channel number.
    pub device: u8,
    /// Refuse to write to the device.
    pub read_only: bool,
}

/// Two configurations read the same.
pub open spec fn same_config(a: MidiConfig, b: MidiConfig) -> bool {
    &&& text::text_in(a.input_port) == text::text_in(b.input_port)
    &&& text::text_in(a.output_port) == text::text_in(b.output_port)
    &&& a.device == b.device
    &&& a.read_only == b.read_only
}

impl Clone for MidiConfig {
    fn clone(&self) -> (r: MidiConfig)
        ensures
            same_config(r, *self),
    {
        MidiConfig {
            input_port: text::copied(&self.input_port),
            output_port: text::copied(&self.output_port),
            device: self.device,
            read_only: self.read_only,
        }
    }
}

impl Default for MidiConfig {
    /// No port.
    fn default() -> (r: MidiConfig)
        ensures
            r == (MidiConfig { input_port: None, output_port: None, device: 0, read_only: false }),
    {
        MidiConfig { input_port: None, output_port: None, device: 0, read_only: false }
    }
}

/// A device's catalogs as JSON; null where they have no JSON form.
pub open spec fn json_catalogs<D: Device>() -> Tree {
    match json::json_of(D::value_catalogs().contents()) {
        Some(t) => t,
        None => Tree::Null,
    }
}

/// The factory-default document of an area as YAML, where there is one that can
/// be rendered.
pub open spec fn default_text<D: Device>(area: Seq<char>) -> Option<Seq<char>> {
    match D::default_doc(area) {
        Some(t) => match yaml::rendered(t) {
            Ok(s) => Some(s),
            Err(_) => None,
        },
        None => None,
    }
}

/// The JSON Schema of the area that a name finds.
pub open spec fn schema_of<D: Device>(area: Seq<char>) -> Option<Seq<char>> {
    match device::matching_area(D::area_list(), area) {
        Some(i) => D::schema_text(D::area_list()[i].name@),
        None => None,
    }
}

/// The factory-default document of the area that a name finds, as YAML.
pub open spec fn default_of<D: Device>(area: Seq<char>) -> Option<Seq<char>> {
    match device::matching_area(D::area_list(), area) {
        Some(i) => default_text::<D>(D::area_list()[i].name@),
        None => None,
    }
}

/// A device's reference data plus the few behaviours a tool needs.
pub struct DeviceHandle<D: Device> {
    areas: &'static [Area],
    params: Params,
    catalog_names: Vec<String>,
    /// The catalogs, converted to JSON once.
    catalogs: Doc,
    /// `(area, factory-default document as YAML)`.
    defaults: Vec<(&'static str, String)>,
    /// `(area, JSON Schema)`.
    schemas: Vec<(&'static str, String)>,
    midi: MidiConfig,
    device: PhantomData<D>,
}

/// The area at `i` has no text, or one stands in the table.
pub open spec fn tabled(areas: Seq<Area>, i: int, text: Option<Seq<char>>, table: Seq<(&'static str, String)>) -> bool {
    text is Some ==> exists|k: int| 0 <= k < table.len() && (#[trigger] table[k]).0@ == areas[i].name@
}

impl<D: Device> DeviceHandle<D> {
    /// The snapshot holds what the device answers.
    #[verifier::type_invariant]
    closed spec fn is_snapshot(self) -> bool {
        &&& self.areas@ == D::area_list()
        &&& self.params.0@ == D::table()
        &&& text::texts(self.catalog_names@) == D::value_catalogs().catalog_names()
        &&& self.catalogs@ == json_catalogs::<D>()
        &&& defaults_tabled::<D>(self.defaults@, D::area_list().len() as int)
        &&& schemas_tabled::<D>(self.schemas@, D::area_list().len() as int)
    }

    /// How the hardware is reached.
    pub closed spec fn config(self) -> MidiConfig {
        self.midi
    }
}

/// The table holds the factory defaults of the first `n` areas, and no others.
pub open spec fn defaults_tabled<D: Device>(table: Seq<(&'static str, String)>, n: int) -> bool {
    &&& forall|k: int|
        0 <= k < table.len() ==> default_text::<D>((#[trigger] table[k]).0@) == Some(table[k].1@)
    &&& forall|i: int|
        0 <= i < n ==> tabled(D::area_list(), i, default_text::<D>((#[trigger] D::area_list()[i]).name@), table)
}

/// The table holds the schemas of the first `n` areas, and no others.
pub open spec fn schemas_tabled<D: Device>(table: Seq<(&'static str, String)>, n: int) -> bool {
    &&& forall|k: int|
        0 <= k < table.len() ==> D::schema_text((#[trigger] table[k]).0@) == Some(table[k].1@)
    &&& forall|i: int|
        0 <= i < n ==> tabled(D::area_list(), i, D::schema_text((#[trigger] D::area_list()[i]).name@), table)
}

/// An entry more in the table leaves every area tabled that was.
proof fn lemma_tabled_grows(
    areas: Seq<Area>,
    i: int,
    text: Option<Seq<char>>,
    table: Seq<(&'static str, String)>,
    entry: (&'static str, String),
)
    requires
        tabled(areas, i, text, table),
    ensures
        tabled(areas, i, text, table.push(entry)),
{
    if text is Some {
        let k = choose|k: int| 0 <= k < table.len() && (#[trigger] table[k]).0@ == areas[i].name@;
        assert(table.push(entry)[k].0@ == areas[i].name@);
    }
}

/// The texts of the catalog names.
fn copy_names(names: &[&str]) -> (r: Vec<String>)
    ensures
        text::texts(r@) == catalog::names_of(names@),
{
    let ghost goal = catalog::names_of(names@);
    let mut out: Vec<String> = Vec::new();
    let mut i: usize = 0;
    while i < names.len()
        invariant
            i <= names@.len(),
            goal == catalog::names_of(names@),
            text::texts(out@) == goal.take(i as int),
        decreases names@.len() - i,
    {
        let ghost before = text::texts(out@);
        out.push(names[i].to_owned());
        assert(text::texts(out@) =~= before.push(goal[i as int]));
        assert(goal.take(i + 1) =~= before.push(goal[i as int]));
        i += 1;
    }
    assert(goal.take(i as int) =~= goal);
    out
}

/// The factory-default document of an area as YAML.
fn render_default<D: Device>(area: &str) -> (r: Option<String>)
    ensures
        text::text_in(r) == default_text::<D>(area@),
{
    match D::defaults(area) {
        Some(doc) => match yaml::render(&doc) {
            Ok(s) => Some(s),
            Err(_) => None,
        },
        None => None,
    }
}

fn tabulate_defaults<D: Device>(areas: &'static [Area]) -> (r: Vec<(&'static str, String)>)
    requires
        areas@ == D::area_list(),
    ensures
        defaults_tabled::<D>(r@, areas@.len() as int),
{
    let mut out: Vec<(&'static str, String)> = Vec::new();
    let mut i: usize = 0;
    while i < areas.len()
        invariant
            i <= areas@.len(),
            areas@ == D::area_list(),
            defaults_tabled::<D>(out@, i as int),
        decreases areas@.len() - i,
    {
        let ghost before = out@;
        if let Some(s) = render_default::<D>(areas[i].name) {
            let entry = (areas[i].name, s);
            out.push(entry);
            proof {
                assert forall|j: int| 0 <= j < i + 1 implies tabled(
                    areas@,
                    j,
                    default_text::<D>((#[trigger] D::area_list()[j]).name@),
                    out@,
                ) by {
                    if j < i {
                        lemma_tabled_grows(areas@, j, default_text::<D>(areas@[j].name@), before, entry);
                    } else {
                        assert(out@[before.len() as int].0@ == areas@[j].name@);
                    }
                }
            }
        }
        i += 1;
    }
    out
}

fn tabulate_schemas<D: Device>(areas: &'static [Area]) -> (r: Vec<(&'static str, String)>)
    requires
        areas@ == D::area_list(),
    ensures
        schemas_tabled::<D>(r@, areas@.len() as int),
{
    let mut out: Vec<(&'static str, String)> = Vec::new();
    let mut i: usize = 0;
    while i < areas.len()
        invariant
            i <= areas@.len(),
            areas@ == D::area_list(),
            schemas_tabled::<D>(out@, i as int),
        decreases areas@.len() - i,
    {
        let ghost before = out@;
        if let Some(s) = D::schema(areas[i].name) {
            let entry = (areas[i].name, s);
            out.push(entry);
            proof {
                assert forall|j: int| 0 <= j < i + 1 implies tabled(
                    areas@,
                    j,
                    D::schema_text((#[trigger] D::area_list()[j]).name@),
                    out@,
                ) by {
                    if j < i {
                        lemma_tabled_grows(areas@, j, D::schema_text(areas@[j].name@), before, entry);
                    } else {
                        assert(out@[before.len() as int].0@ == areas@[j].name@);
                    }
                }
            }
        }
        i += 1;
    }
    out
}

/// The first text in a table under a name.
fn text_under<'a>(table: &'a Vec<(&'static str, String)>, name: &str) -> (r: Option<&'a str>)
    ensures
        match r {
            Some(s) => exists|k: int| 0 <= k < table@.len() && (#[trigger] table@[k]).0@ == name@ && table@[k].1@ == s@,
            None => forall|k: int| 0 <= k < table@.len() ==> (#[trigger] table@[k]).0@ != name@,
        },
{
    let mut i: usize = 0;
    while i < table.len()
        invariant
            i <= table@.len(),
            forall|k: int| 0 <= k < i ==> (#[trigger] table@[k]).0@ != name@,
        decreases table@.len() - i,
    {
        if same_text(table[i].0, name) {
            return Some(table[i].1.as_str());
        }
        i += 1;
    }
    None
}

/// The same entries.
fn copy_table(table: &Vec<(&'static str, String)>) -> (r: Vec<(&'static str, String)>)
    ensures
        r@.len() == table@.len(),
        forall|k: int| 0 <= k < r@.len() ==> (#[trigger] r@[k]).0 == table@[k].0 && r@[k].1@ == table@[k].1@,
{
    let mut out: Vec<(&'static str, String)> = Vec::new();
    let mut i: usize = 0;
    while i < table.len()
        invariant
            i <= table@.len(),
            out@.len() == i,
            forall|k: int| 0 <= k < i ==> (#[trigger] out@[k]).0 == table@[k].0 && out@[k].1@ == table@[k].1@,
        decreases table@.len() - i,
    {
        out.push((table[i].0, table[i].1.clone()));
        i += 1;
    }
    out
}

/// The same texts.
fn copy_texts(texts: &Vec<String>) -> (r: Vec<String>)
    ensures
        text::texts(r@) == text::texts(texts@),
{
    let mut out: Vec<String> = Vec::new();
    let mut i: usize = 0;
    while i < texts.len()
        invariant
            i <= texts@.len(),
            out@.len() == i,
            forall|k: int| 0 <= k < i ==> (#[trigger] out@[k])@ == texts@[k]@,
        decreases texts@.len() - i,
    {
        out.push(texts[i].clone());
        i += 1;
    }
    assert(text::texts(out@) =~= text::texts(texts@));
    out
}

/// A table with the same entries has an area tabled that the other has.
proof fn lemma_tabled_copy(
    areas: Seq<Area>,
    i: int,
    text: Option<Seq<char>>,
    table: Seq<(&'static str, String)>,
    copy: Seq<(&'static str, String)>,
)
    requires
        tabled(areas, i, text, table),
        copy.len() == table.len(),
        forall|k: int| 0 <= k < copy.len() ==> (#[trigger] copy[k]).0 == table[k].0,
    ensures
        tabled(areas, i, text, copy),
{
    if text is Some {
        let k = choose|k: int| 0 <= k < table.len() && (#[trigger] table[k]).0@ == areas[i].name@;
        assert(copy[k].0@ == areas[i].name@);
    }
}

impl<D: Device> Clone for DeviceHandle<D> {
    fn clone(&self) -> (r: Self)
        ensures
            same_config(r.config(), self.config()),
    {
        proof {
            use_type_invariant(self);
        }
        let defaults = copy_table(&self.defaults);
        let schemas = copy_table(&self.schemas);
        proof {
            let areas = D::area_list();
            assert forall|i: int| 0 <= i < areas.len() implies tabled(
                areas,
                i,
                default_text::<D>((#[trigger] areas[i]).name@),
                defaults@,
            ) by {
                lemma_tabled_copy(areas, i, default_text::<D>(areas[i].name@), self.defaults@, defaults@);
            }
            assert forall|i: int| 0 <= i < areas.len() implies tabled(
                areas,
                i,
                D::schema_text((#[trigger] areas[i]).name@),
                schemas@,
            ) by {
                lemma_tabled_copy(areas, i, D::schema_text(areas[i].name@), self.schemas@, schemas@);
            }
        }
        DeviceHandle {
            areas: self.areas,
            params: self.params,
            catalog_names: copy_texts(&self.catalog_names),
            catalogs: self.catalogs.clone(),
            defaults,
            schemas,
            midi: self.midi.clone(),
            device: PhantomData,
        }
    }
}

impl<D: Device> DeviceHandle<D> {
    /// Snapshot `D`, with no MIDI port configured. Computes the catalogs, schemas,
    /// and defaults once.
    pub fn of() -> (r: Self)
        ensures
            r.config() == (MidiConfig { input_port: None, output_port: None, device: 0, read_only: false }),
    {
        let areas = D::areas();
        let catalogs = match json::to_json(&D::catalogs().as_value()) {
            Some(doc) => doc,
            None => Doc::Null,
        };
        DeviceHandle {
            areas,
            params: D::params(),
            catalog_names: copy_names(D::catalogs().names()),
            catalogs,
            defaults: tabulate_defaults::<D>(areas),
            schemas: tabulate_schemas::<D>(areas),
            midi: MidiConfig::default(),
            device: PhantomData,
        }
    }

    /// The same snapshot, reaching the hardware through `midi`.
    pub fn with_midi(self, midi: MidiConfig) -> (r: Self)
        ensures
            r.config() == midi,
    {
        proof {
            use_type_invariant(&self);
        }
        DeviceHandle {
            areas: self.areas,
            params: self.params,
            catalog_names: self.catalog_names,
            catalogs: self.catalogs,
            defaults: self.defaults,
            schemas: self.schemas,
            midi,
            device: PhantomData,
        }
    }

    /// How the hardware is reached.
    pub fn midi(&self) -> (r: &MidiConfig)
        ensures
            *r == self.config(),
    {
        &self.midi
    }

    pub fn name(&self) -> (r: &'static str)
        ensures
            r == D::NAME,
    {
        D::NAME
    }

    pub fn areas(&self) -> (r: &'static [Area])
        ensures
            r@ == D::area_list(),
    {
        proof {
            use_type_invariant(self);
        }
        self.areas
    }

    /// Canonical area name for a (possibly loosely-spelled) token.
    pub(crate) fn canon(&self, area: &str) -> (r: Option<&'static str>)
        ensures
            match device::matching_area(D::area_list(), area@) {
                Some(i) => 0 <= i < D::area_list().len() && r == Some(D::area_list()[i].name),
                None => r is None,
            },
    {
        proof {
            use_type_invariant(self);
        }
        match device::find_area(self.areas, area) {
            Some(i) => Some(self.areas[i].name),
            None => None,
        }
    }

    /// The JSON Schema for an area's document.
    pub fn schema(&self, area: &str) -> (r: Option<&str>)
        ensures
            text::text_behind(r) == schema_of::<D>(area@),
    {
        proof {
            use_type_invariant(self);
        }
        match self.canon(area) {
            Some(name) => text_under(&self.schemas, name),
            None => None,
        }
    }

    /// The factory-default document for an area, as YAML.
    pub fn defaults(&self, area: &str) -> (r: Option<&str>)
        ensures
            text::text_behind(r) == default_of::<D>(area@),
    {
        proof {
            use_type_invariant(self);
        }
        match self.canon(area) {
            Some(name) => text_under(&self.defaults, name),
            None => None,
        }
    }
}

// === describing the device ===

/// The display groups of a table, each once, in table order.
pub open spec fn groups_of(table: Seq<ParamMeta>) -> Seq<Seq<char>>
    decreases table.len(),
{
    if table.len() == 0 {
        seq![]
    } else {
        let before = groups_of(table.drop_last());
        if before.contains(table.last().group@) {
            before
        } else {
            before.push(table.last().group@)
        }
    }
}

/// Texts as documents.
pub open spec fn text_trees(texts: Seq<Seq<char>>) -> Seq<Tree> {
    Seq::new(texts.len(), |i: int| Tree::Text(texts[i]))
}

/// The entries of one catalog, where it is a list.
pub open spec fn catalog_entries(catalogs: Tree, name: Seq<char>) -> Option<Seq<Tree>> {
    match value::field(catalogs, name) {
        Some(t) => match value::untagged(t) {
            Tree::Sequence(entries) => Some(entries),
            _ => None,
        },
        None => None,
    }
}

/// How many entries a catalog has; none where it is no list.
pub open spec fn catalog_size(catalogs: Tree, name: Seq<char>) -> nat {
    match catalog_entries(catalogs, name) {
        Some(entries) => entries.len(),
        None => 0,
    }
}

/// What is said of one catalog: its name, and how many entries it has.
pub open spec fn catalog_tree(catalogs: Tree, name: Seq<char>) -> Tree {
    value::record_tree(
        seq![("name"@, Tree::Text(name)), ("entries"@, value::count_tree(catalog_size(catalogs, name)))],
    )
}

/// What is said of each catalog.
pub open spec fn catalog_trees(catalogs: Tree, names: Seq<Seq<char>>) -> Seq<Tree> {
    Seq::new(names.len(), |i: int| catalog_tree(catalogs, names[i]))
}

/// What is said of one area.
pub open spec fn area_tree<D: Device>(a: Area) -> Tree {
    value::record_tree(
        seq![
            ("name"@, Tree::Text(a.name@)),
            ("label"@, Tree::Text(a.label@)),
            ("about"@, Tree::Text(a.about@)),
            ("has_schema"@, Tree::Bool(schema_of::<D>(a.name@) is Some)),
            ("has_defaults"@, Tree::Bool(default_of::<D>(a.name@) is Some)),
        ],
    )
}

/// What is said of each area.
pub open spec fn area_trees<D: Device>(areas: Seq<Area>) -> Seq<Tree> {
    Seq::new(areas.len(), |i: int| area_tree::<D>(areas[i]))
}

/// The resources of one area: its schema and its defaults, where it has them.
pub open spec fn area_uris<D: Device>(a: Area) -> Seq<Seq<char>> {
    (if schema_of::<D>(a.name@) is Some {
        seq!["schema://"@ + a.name@]
    } else {
        seq![]
    }) + (if default_of::<D>(a.name@) is Some {
        seq!["defaults://"@ + a.name@]
    } else {
        seq![]
    })
}

/// The resources of all areas.
pub open spec fn uris_of<D: Device>(areas: Seq<Area>) -> Seq<Seq<char>>
    decreases areas.len(),
{
    if areas.len() == 0 {
        seq![]
    } else {
        uris_of::<D>(areas.drop_last()) + area_uris::<D>(areas.last())
    }
}

/// The orienting payload: what a device is and what can be asked of it.
pub open spec fn description<D: Device>() -> Tree {
    value::record_tree(
        seq![
            ("device"@, Tree::Text(D::NAME@)),
            ("areas"@, Tree::Sequence(area_trees::<D>(D::area_list()))),
            ("param_count"@, value::count_tree(D::table().len())),
            ("param_groups"@, Tree::Sequence(text_trees(groups_of(D::table())))),
            (
                "catalogs"@,
                Tree::Sequence(catalog_trees(json_catalogs::<D>(), D::value_catalogs().catalog_names())),
            ),
            ("resources"@, Tree::Sequence(text_trees(uris_of::<D>(D::area_list())))),
        ],
    )
}

/// Texts as a sequence of documents.
fn text_sequence(texts: &Vec<String>) -> (r: Doc)
    ensures
        r@ == Tree::Sequence(text_trees(text::texts(texts@))),
{
    broadcast use value::lemma_sequence_view;

    let ghost goal = text_trees(text::texts(texts@));
    let mut items: Vec<Doc> = Vec::new();
    let mut i: usize = 0;
    while i < texts.len()
        invariant
            i <= texts@.len(),
            goal == text_trees(text::texts(texts@)),
            value::trees(items@) == goal.take(i as int),
        decreases texts@.len() - i,
    {
        let ghost before = value::trees(items@);
        items.push(Doc::text(texts[i].as_str()));
        assert(value::trees(items@) =~= before.push(goal[i as int]));
        assert(goal.take(i + 1) =~= before.push(goal[i as int]));
        i += 1;
    }
    assert(goal.take(i as int) =~= goal);
    Doc::Sequence(items)
}

/// Whether a text is among some.
fn among(texts: &Vec<String>, s: &str) -> (r: bool)
    ensures
        r == text::texts(texts@).contains(s@),
{
    let mut i: usize = 0;
    while i < texts.len()
        invariant
            i <= texts@.len(),
            forall|j: int| 0 <= j < i ==> text::texts(texts@)[j] != s@,
        decreases texts@.len() - i,
    {
        if same_text(texts[i].as_str(), s) {
            assert(text::texts(texts@)[i as int] == s@);
            return true;
        }
        i += 1;
    }
    false
}

/// The display groups of a table, each once, in table order.
pub fn param_groups(params: &Params) -> (r: Vec<String>)
    ensures
        text::texts(r@) == groups_of(params.0@),
{
    let table = params.as_slice();
    let mut groups: Vec<String> = Vec::new();
    let mut i: usize = 0;
    assert(text::texts(groups@) =~= groups_of(table@.take(0)));
    while i < table.len()
        invariant
            i <= table@.len(),
            text::texts(groups@) == groups_of(table@.take(i as int)),
        decreases table@.len() - i,
    {
        assert(table@.take(i + 1).drop_last() =~= table@.take(i as int));
        let ghost before = text::texts(groups@);
        if !among(&groups, table[i].group) {
            groups.push(table[i].group.to_owned());
            assert(text::texts(groups@) =~= before.push(table@[i as int].group@));
        }
        i += 1;
    }
    assert(table@.take(i as int) =~= table@);
    groups
}

/// Append `prefix` and `name` as one text.
fn push_text(texts: &mut Vec<String>, prefix: &str, name: &str)
    ensures
        text::texts(final(texts)@) == text::texts(old(texts)@).push(prefix@ + name@),
{
    let ghost before = text::texts(texts@);
    let mut s = prefix.to_owned();
    s.append(name);
    texts.push(s);
    assert(text::texts(texts@) =~= before.push(prefix@ + name@));
}

impl<D: Device> DeviceHandle<D> {
    /// The entries of one catalog, where it is a list.
    fn entries(&self, name: &str) -> (r: Option<&Vec<Doc>>)
        ensures
            match r {
                Some(items) => catalog_entries(json_catalogs::<D>(), name@) == Some(value::trees(items@)),
                None => catalog_entries(json_catalogs::<D>(), name@) is None,
            },
    {
        proof {
            use_type_invariant(self);
        }
        match self.catalogs.get(name) {
            Some(doc) => doc.as_sequence(),
            None => None,
        }
    }

    /// What is said of one catalog.
    fn describe_catalog(&self, name: &str) -> (r: Doc)
        ensures
            r@ == catalog_tree(json_catalogs::<D>(), name@),
    {
        let n: usize = match self.entries(name) {
            Some(items) => items.len(),
            None => 0,
        };
        let fields: Vec<(&str, Doc)> = vec![("name", Doc::text(name)), ("entries", Doc::count(n))];
        proof {
            reveal_strlit("name");
            reveal_strlit("entries");
            assert("name"@.len() != "entries"@.len());
            let size = catalog_size(json_catalogs::<D>(), name@);
            assert(size == n);
            assert(value::field_trees(fields@) =~= seq![("name"@, Tree::Text(name@)), ("entries"@, value::count_tree(size))]);
        }
        record(fields)
    }

    fn describe_catalogs(&self) -> (r: Doc)
        ensures
            r@ == Tree::Sequence(catalog_trees(json_catalogs::<D>(), D::value_catalogs().catalog_names())),
    {
        broadcast use value::lemma_sequence_view;

        proof {
            use_type_invariant(self);
        }
        let ghost names = D::value_catalogs().catalog_names();
        let ghost goal = catalog_trees(json_catalogs::<D>(), names);
        let mut items: Vec<Doc> = Vec::new();
        let mut i: usize = 0;
        while i < self.catalog_names.len()
            invariant
                i <= self.catalog_names@.len(),
                names == text::texts(self.catalog_names@),
                goal == catalog_trees(json_catalogs::<D>(), names),
                value::trees(items@) == goal.take(i as int),
            decreases self.catalog_names@.len() - i,
        {
            let ghost before = value::trees(items@);
            items.push(self.describe_catalog(self.catalog_names[i].as_str()));
            assert(value::trees(items@) =~= before.push(goal[i as int]));
            assert(goal.take(i + 1) =~= before.push(goal[i as int]));
            i += 1;
        }
        assert(goal.take(i as int) =~= goal);
        Doc::Sequence(items)
    }

    /// What is said of one area.
    fn describe_area(&self, a: &Area) -> (r: Doc)
        ensures
            r@ == area_tree::<D>(*a),
    {
        let fields: Vec<(&str, Doc)> = vec![
            ("name", Doc::text(a.name)),
            ("label", Doc::text(a.label)),
            ("about", Doc::text(a.about)),
            ("has_schema", Doc::Bool(self.schema(a.name).is_some())),
            ("has_defaults", Doc::Bool(self.defaults(a.name).is_some())),
        ];
        proof {
            reveal_strlit("name");
            reveal_strlit("label");
            reveal_strlit("about");
            reveal_strlit("has_schema");
            reveal_strlit("has_defaults");
            assert("label"@[0] != "about"@[0]);
            assert("name"@.len() == 4 && "label"@.len() == 5 && "has_schema"@.len() == 10 && "has_defaults"@.len() == 12);
            assert(value::field_trees(fields@) =~= seq![
                ("name"@, Tree::Text(a.name@)),
                ("label"@, Tree::Text(a.label@)),
                ("about"@, Tree::Text(a.about@)),
                ("has_schema"@, Tree::Bool(schema_of::<D>(a.name@) is Some)),
                ("has_defaults"@, Tree::Bool(default_of::<D>(a.name@) is Some)),
            ]);
        }
        record(fields)
    }

    fn describe_areas(&self) -> (r: Doc)
        ensures
            r@ == Tree::Sequence(area_trees::<D>(D::area_list())),
    {
        broadcast use value::lemma_sequence_view;

        let areas = self.areas();
        let ghost goal = area_trees::<D>(areas@);
        let mut items: Vec<Doc> = Vec::new();
        let mut i: usize = 0;
        while i < areas.len()
            invariant
                i <= areas@.len(),
                goal == area_trees::<D>(areas@),
                value::trees(items@) == goal.take(i as int),
            decreases areas@.len() - i,
        {
            let ghost before = value::trees(items@);
            items.push(self.describe_area(&areas[i]));
            assert(value::trees(items@) =~= before.push(goal[i as int]));
            assert(goal.take(i + 1) =~= before.push(goal[i as int]));
            i += 1;
        }
        assert(goal.take(i as int) =~= goal);
        Doc::Sequence(items)
    }

    /// The URIs of all resources.
    pub fn uris(&self) -> (r: Vec<String>)
        ensures
            text::texts(r@) == uris_of::<D>(D::area_list()),
    {
        let areas = self.areas();
        let mut uris: Vec<String> = Vec::new();
        let mut i: usize = 0;
        assert(text::texts(uris@) =~= uris_of::<D>(areas@.take(0)));
        while i < areas.len()
            invariant
                i <= areas@.len(),
                text::texts(uris@) == uris_of::<D>(areas@.take(i as int)),
            decreases areas@.len() - i,
        {
            assert(areas@.take(i + 1).drop_last() =~= areas@.take(i as int));
            let ghost before = text::texts(uris@);
            if self.schema(areas[i].name).is_some() {
                push_text(&mut uris, "schema://", areas[i].name);
            }
            if self.defaults(areas[i].name).is_some() {
                push_text(&mut uris, "defaults://", areas[i].name);
            }
            assert(text::texts(uris@) =~= before + area_uris::<D>(areas@[i as int]));
            i += 1;
        }
        assert(areas@.take(i as int) =~= areas@);
        uris
    }

    /// The orienting payload: what this device is and what can be asked of it.
    pub fn describe(&self) -> (r: Doc)
        ensures
            r@ == description::<D>(),
    {
        proof {
            use_type_invariant(self);
        }
        let fields: Vec<(&str, Doc)> = vec![
            ("device", Doc::text(D::NAME)),
            ("areas", self.describe_areas()),
            ("param_count", Doc::count(self.params.as_slice().len())),
            ("param_groups", text_sequence(&param_groups(&self.params))),
            ("catalogs", self.describe_catalogs()),
            ("resources", text_sequence(&self.uris())),
        ];
        proof {
            reveal_strlit("device");
            reveal_strlit("areas");
            reveal_strlit("param_count");
            reveal_strlit("param_groups");
            reveal_strlit("catalogs");
            reveal_strlit("resources");
            assert("device"@.len() == 6 && "areas"@.len() == 5 && "param_count"@.len() == 11 && "param_groups"@.len() == 12
                && "catalogs"@.len() == 8 && "resources"@.len() == 9);
            assert(value::record_tree(value::field_trees(fields@)) == description::<D>()) by {
                assert(value::field_trees(fields@) =~= seq![
                    ("device"@, Tree::Text(D::NAME@)),
                    ("areas"@, Tree::Sequence(area_trees::<D>(D::area_list()))),
                    ("param_count"@, value::count_tree(D::table().len())),
                    ("param_groups"@, Tree::Sequence(text_trees(groups_of(D::table())))),
                    (
                        "catalogs"@,
                        Tree::Sequence(catalog_trees(json_catalogs::<D>(), D::value_catalogs().catalog_names())),
                    ),
                    ("resources"@, Tree::Sequence(text_trees(uris_of::<D>(D::area_list())))),
                ]);
            }
        }
        record(fields)
    }
}

impl<D: Device> DeviceHandle<D> {
    /// Full-text search over the parameter metadata.
    pub fn search_params(&self, query: Option<&str>, group: Option<&str>, limit: usize) -> (r: Doc)
        ensures
            r@ == search::search_result(D::table(), text::text_behind(query), text::text_behind(group), limit as nat),
    {
        proof {
            use_type_invariant(self);
        }
        search::search_table(&self.params, query, group, limit)
    }

    /// One catalog's entries, filtered and paged.
    pub fn get_catalog(&self, name: &str, filter: Option<&str>, limit: usize, offset: usize) -> (r: Result<Doc, String>)
        ensures
            match catalog_entries(json_catalogs::<D>(), name@) {
                Some(entries) => r matches Ok(doc) && doc@ == search::catalog_page(
                    name@,
                    entries,
                    text::text_behind(filter),
                    limit as nat,
                    offset as nat,
                ),
                None => r matches Err(m) && m@ == search::unknown_catalog_text(
                    name@,
                    D::value_catalogs().catalog_names(),
                ),
            },
    {
        proof {
            use_type_invariant(self);
        }
        match self.entries(name) {
            Some(entries) => Ok(search::page_catalog(name, entries, filter, limit, offset)),
            None => {
                let mut message = "unknown catalog ".to_owned();
                message.append(quoted(name).as_str());
                message.append(" (available: ");
                message.append(text::join(&self.catalog_names, ", ").as_str());
                message.append(")");
                Err(message)
            },
        }
    }
}

// === documents ===

/// How an unknown area reads, naming the valid ones.
pub open spec fn valid_areas_text(areas: Seq<Area>) -> Seq<char> {
    "unknown area (valid: "@ + text::joined(device::area_names(areas), ", "@) + ")"@
}

/// The verdict on a document for an area that is not known.
pub open spec fn no_area_verdict(areas: Seq<Area>) -> Tree {
    value::record_tree(seq![("ok"@, Tree::Bool(false)), ("error"@, Tree::Text(valid_areas_text(areas)))])
}

/// The verdict on a document that does not parse.
pub open spec fn no_yaml_verdict(area: Seq<char>, message: Seq<char>) -> Tree {
    value::record_tree(
        seq![
            ("ok"@, Tree::Bool(false)),
            ("area"@, Tree::Text(area)),
            ("error"@, Tree::Text("YAML: "@ + message)),
        ],
    )
}

/// The verdict on a document that parses: whether it encodes, and if not, why
/// and whether at least its shape is right.
pub open spec fn verdict(area: Seq<char>, parses: bool, encoded: Result<Seq<u8>, device::Fault>) -> Tree {
    match encoded {
        Ok(bytes) => value::record_tree(
            seq![
                ("ok"@, Tree::Bool(true)),
                ("area"@, Tree::Text(area)),
                ("encoded_bytes"@, value::count_tree(bytes.len())),
            ],
        ),
        Err(f) => value::record_tree(
            seq![
                ("ok"@, Tree::Bool(false)),
                ("area"@, Tree::Text(area)),
                ("parses_as_area"@, Tree::Bool(parses)),
                ("error"@, Tree::Text(device::fault_text(f))),
            ],
        ),
    }
}

/// Put together the verdict on a document that parses.
pub fn judge(area: &str, parses: bool, encoded: Result<Vec<u8>, DeviceError>) -> (r: Doc)
    ensures
        r@ == verdict(area@, parses, device::bytes_outcome(encoded)),
{
    proof {
        reveal_strlit("ok");
        reveal_strlit("area");
        reveal_strlit("encoded_bytes");
        reveal_strlit("parses_as_area");
        reveal_strlit("error");
        assert("ok"@.len() == 2 && "area"@.len() == 4 && "encoded_bytes"@.len() == 13 && "parses_as_area"@.len() == 14
            && "error"@.len() == 5);
    }
    match encoded {
        Ok(bytes) => {
            let fields: Vec<(&str, Doc)> = vec![
                ("ok", Doc::Bool(true)),
                ("area", Doc::text(area)),
                ("encoded_bytes", Doc::count(bytes.len())),
            ];
            assert(value::field_trees(fields@) =~= seq![
                ("ok"@, Tree::Bool(true)),
                ("area"@, Tree::Text(area@)),
                ("encoded_bytes"@, value::count_tree(bytes@.len())),
            ]);
            record(fields)
        },
        Err(e) => {
            let fields: Vec<(&str, Doc)> = vec![
                ("ok", Doc::Bool(false)),
                ("area", Doc::text(area)),
                ("parses_as_area", Doc::Bool(parses)),
                ("error", Doc::Text(e.message())),
            ];
            assert(value::field_trees(fields@) =~= seq![
                ("ok"@, Tree::Bool(false)),
                ("area"@, Tree::Text(area@)),
                ("parses_as_area"@, Tree::Bool(parses)),
                ("error"@, Tree::Text(device::fault_text(e@))),
            ]);
            record(fields)
        },
    }
}

/// `r` is the verdict on a document for an area.
pub open spec fn validated<D: Device>(area: Seq<char>, document: Seq<char>, r: Tree) -> bool {
    match device::matching_area(D::area_list(), area) {
        None => r == no_area_verdict(D::area_list()),
        Some(i) => {
            let a = D::area_list()[i];
            match yaml::parsed(document) {
                Err(m) => r == no_yaml_verdict(a.name@, m),
                Ok(t) => exists|doc: Doc, parses: bool|
                    {
                        &&& doc@ == t
                        &&& #[trigger] engine::may_answer::<D>(a, doc, parses)
                        &&& r == verdict(a.name@, parses, D::encoded(a.name@, t, 0))
                    },
            }
        },
    }
}

/// What a document with value names reads as in numbers; an error says that it is
/// about YAML.
pub open spec fn resolved_text<D: Device>(document: Seq<char>) -> Result<Seq<char>, Seq<char>> {
    match resolve::rewritten_text(document, D::table(), D::value_catalogs(), Direction::Resolve) {
        Ok(s) => Ok(s),
        Err(m) => Err("YAML: "@ + m),
    }
}

/// What a resource URI gives: the schema or the defaults of an area.
pub open spec fn resource_text<D: Device>(uri: Seq<char>) -> Option<Seq<char>> {
    match text::split_at(uri, "://"@) {
        Some((scheme, area)) => if scheme == "schema"@ {
            schema_of::<D>(area)
        } else if scheme == "defaults"@ {
            default_of::<D>(area)
        } else {
            None
        },
        None => None,
    }
}

impl<D: Device> DeviceHandle<D> {
    /// Parse a document and encode it through the device's codec.
    pub fn validate(&self, area: &str, document: &str) -> (r: Doc)
        ensures
            validated::<D>(area@, document@, r@),
    {
        proof {
            reveal_strlit("ok");
            reveal_strlit("area");
            reveal_strlit("error");
            assert("ok"@.len() == 2 && "area"@.len() == 4 && "error"@.len() == 5);
        }
        let name = match self.canon(area) {
            Some(name) => name,
            None => {
                let mut message = "unknown area (valid: ".to_owned();
                message.append(device::joined_names(self.areas()).as_str());
                message.append(")");
                let fields: Vec<(&str, Doc)> = vec![("ok", Doc::Bool(false)), ("error", Doc::Text(message))];
                assert(value::field_trees(fields@) =~= seq![
                    ("ok"@, Tree::Bool(false)),
                    ("error"@, Tree::Text(valid_areas_text(D::area_list()))),
                ]);
                return record(fields);
            },
        };
        let doc = match yaml::parse(document) {
            Ok(doc) => doc,
            Err(m) => {
                let fields: Vec<(&str, Doc)> = vec![
                    ("ok", Doc::Bool(false)),
                    ("area", Doc::text(name)),
                    ("error", Doc::Text(prefixed("YAML: ", m.as_str()))),
                ];
                assert(value::field_trees(fields@) =~= seq![
                    ("ok"@, Tree::Bool(false)),
                    ("area"@, Tree::Text(name@)),
                    ("error"@, Tree::Text("YAML: "@ + m@)),
                ]);
                return record(fields);
            },
        };
        // `accepts` is a parse-level check; `encode` also validates byte ranges.
        // Reporting both tells the caller whether the shape or a value is wrong.
        let parses = D::accepts(name, &doc);
        let r = judge(name, parses, D::encode(name, &doc, 0));
        proof {
            let i = device::matching_area(D::area_list(), area@)->Some_0;
            assert(engine::may_answer::<D>(D::area_list()[i], doc, parses));
        }
        r
    }

    /// Rewrite catalog-backed value names into numbers, returning YAML.
    pub fn resolve_names(&self, document: &str) -> (r: Result<String, String>)
        ensures
            text::outcome(r) == resolved_text::<D>(document@),
    {
        match resolve::resolve_names_str(document, D::params(), D::catalogs()) {
            Ok(s) => Ok(s),
            Err(m) => Err(prefixed("YAML: ", m.as_str())),
        }
    }

    /// Resolve a `schema://{area}` or `defaults://{area}` URI to its text.
    pub fn read_resource(&self, uri: &str) -> (r: Option<String>)
        ensures
            text::text_in(r) == resource_text::<D>(uri@),
    {
        match text::split_once(uri, "://") {
            Some(parts) => {
                let found: Option<&str> = if same_text(parts.0.as_str(), "schema") {
                    self.schema(parts.1.as_str())
                } else if same_text(parts.0.as_str(), "defaults") {
                    self.defaults(parts.1.as_str())
                } else {
                    None
                };
                match found {
                    Some(s) => Some(s.to_owned()),
                    None => None,
                }
            },
            None => None,
        }
    }
}

// === what the server says of itself ===

/// A resource that can be read.
#[derive(Debug, Clone, PartialEq, Eq)]
pub struct ResourceEntry {
    pub uri: String,
    pub name: String,
    pub description: String,
    pub mime_type: &'static str,
}

/// What a [`ResourceEntry`] says: its URI, name, description and media type.
pub struct Listed {
    pub uri: Seq<char>,
    pub name: Seq<char>,
    pub description: Seq<char>,
    pub mime_type: Seq<char>,
}

impl View for ResourceEntry {
    type V = Listed;

    open spec fn view(&self) -> Listed {
        Listed {
            uri: self.uri@,
            name: self.name@,
            description: self.description@,
            mime_type: self.mime_type@,
        }
    }
}

/// What a list of resources says.
pub open spec fn listed(entries: Seq<ResourceEntry>) -> Seq<Listed> {
    Seq::new(entries.len(), |i: int| entries[i]@)
}

/// The schema of an area as a resource.
pub open spec fn schema_resource(a: Area) -> Listed {
    Listed {
        uri: "schema://"@ + a.name@,
        name: a.label@ + " JSON Schema"@,
        description: "JSON Schema for the `"@ + a.name@ + "` document."@,
        mime_type: "application/json"@,
    }
}

/// The defaults of an area as a resource.
pub open spec fn defaults_resource(a: Area) -> Listed {
    Listed {
        uri: "defaults://"@ + a.name@,
        name: a.label@ + " defaults"@,
        description: "Factory-default `"@ + a.name@ + "` document, as YAML."@,
        mime_type: "application/yaml"@,
    }
}

/// The resources of one area.
pub open spec fn area_resources<D: Device>(a: Area) -> Seq<Listed> {
    (if schema_of::<D>(a.name@) is Some {
        seq![schema_resource(a)]
    } else {
        seq![]
    }) + (if default_of::<D>(a.name@) is Some {
        seq![defaults_resource(a)]
    } else {
        seq![]
    })
}

/// The resources of all areas.
pub open spec fn resources_of<D: Device>(areas: Seq<Area>) -> Seq<Listed>
    decreases areas.len(),
{
    if areas.len() == 0 {
        seq![]
    } else {
        resources_of::<D>(areas.drop_last()) + area_resources::<D>(areas.last())
    }
}

fn schema_entry(a: &Area) -> (r: ResourceEntry)
    ensures
        r@ == schema_resource(*a),
{
    let mut name = a.label.to_owned();
    name.append(" JSON Schema");
    let mut description = "JSON Schema for the `".to_owned();
    description.append(a.name);
    description.append("` document.");
    ResourceEntry { uri: prefixed("schema://", a.name), name, description, mime_type: "application/json" }
}

fn defaults_entry(a: &Area) -> (r: ResourceEntry)
    ensures
        r@ == defaults_resource(*a),
{
    let mut name = a.label.to_owned();
    name.append(" defaults");
    let mut description = "Factory-default `".to_owned();
    description.append(a.name);
    description.append("` document, as YAML.");
    ResourceEntry { uri: prefixed("defaults://", a.name), name, description, mime_type: "application/yaml" }
}

/// What a server can do with the hardware.
pub open spec fn io_hint(read_only: bool, has_input: bool) -> Seq<char> {
    if read_only {
        "This server is read-only: `dump` works, but it will not write to the device."@
    } else if !has_input {
        "No MIDI port is configured, so `dump`/`sync` are unavailable; run `list_ports` and restart the server with --port."@
    } else {
        "`dump` reads the device's current state and `sync` writes it back — that is how you edit the patch the user has loaded right now. `sync` touches working memory only, which a power cycle discards; pass `store` solely when the user asks to save to a slot, since that overwrites it permanently."@
    }
}

/// How to go about authoring a preset.
pub open spec fn how_to_author() -> Seq<char> {
    ".\n\nStart with `describe_device`. To build a preset: read the `defaults://<area>` resource for a baseline, use `search_params` and `get_catalog` to choose values *by name*, call `resolve_names` to turn those names into numbers, then `validate` to confirm it encodes. `schema://<area>` gives the JSON Schema.\n\n"@
}

/// The instructions that a server gives on connecting.
pub open spec fn instructions_text<D: Device>(read_only: bool, has_input: bool) -> Seq<char> {
    "Authoring tools for the "@ + D::NAME@ + " MIDI device. Editable areas: "@ + text::joined(
        device::area_names(D::area_list()),
        ", "@,
    ) + how_to_author() + io_hint(read_only, has_input)
}

impl<D: Device> DeviceHandle<D> {
    /// The name that a server for this device goes by.
    pub fn server_name(&self) -> (r: String)
        ensures
            r@ == D::NAME@ + "-mcp"@,
    {
        prefixed(D::NAME, "-mcp")
    }

    /// The instructions that a server gives on connecting.
    pub fn instructions(&self) -> (r: String)
        ensures
            r@ == instructions_text::<D>(self.config().read_only, self.config().input_port is Some),
    {
        let mut out = "Authoring tools for the ".to_owned();
        out.append(D::NAME);
        out.append(" MIDI device. Editable areas: ");
        out.append(device::joined_names(self.areas()).as_str());
        out.append(
            ".\n\nStart with `describe_device`. To build a preset: read the `defaults://<area>` resource for a baseline, use `search_params` and `get_catalog` to choose values *by name*, call `resolve_names` to turn those names into numbers, then `validate` to confirm it encodes. `schema://<area>` gives the JSON Schema.\n\n",
        );
        if self.midi.read_only {
            out.append("This server is read-only: `dump` works, but it will not write to the device.");
        } else if self.midi.input_port.is_none() {
            out.append(
                "No MIDI port is configured, so `dump`/`sync` are unavailable; run `list_ports` and restart the server with --port.",
            );
        } else {
            out.append(
                "`dump` reads the device's current state and `sync` writes it back — that is how you edit the patch the user has loaded right now. `sync` touches working memory only, which a power cycle discards; pass `store` solely when the user asks to save to a slot, since that overwrites it permanently.",
            );
        }
        out
    }

    /// The resources that can be read.
    pub fn resources(&self) -> (r: Vec<ResourceEntry>)
        ensures
            listed(r@) == resources_of::<D>(D::area_list()),
    {
        let areas = self.areas();
        let mut out: Vec<ResourceEntry> = Vec::new();
        let mut i: usize = 0;
        assert(listed(out@) =~= resources_of::<D>(areas@.take(0)));
        while i < areas.len()
            invariant
                i <= areas@.len(),
                listed(out@) == resources_of::<D>(areas@.take(i as int)),
            decreases areas@.len() - i,
        {
            assert(areas@.take(i + 1).drop_last() =~= areas@.take(i as int));
            let ghost before = listed(out@);
            if self.schema(areas[i].name).is_some() {
                out.push(schema_entry(&areas[i]));
                assert(listed(out@) =~= before.push(schema_resource(areas@[i as int])));
            }
            let ghost between = listed(out@);
            if self.defaults(areas[i].name).is_some() {
                out.push(defaults_entry(&areas[i]));
                assert(listed(out@) =~= between.push(defaults_resource(areas@[i as int])));
            }
            assert(listed(out@) =~= before + area_resources::<D>(areas@[i as int]));
            i += 1;
        }
        assert(areas@.take(i as int) =~= areas@);
        out
    }
}

// === laws ===

/// Every parameter's group is listed, and none is listed twice.
pub proof fn lemma_groups_listed(table: Seq<ParamMeta>)
    ensures
        groups_of(table).no_duplicates(),
        forall|i: int| 0 <= i < table.len() ==> groups_of(table).contains((#[trigger] table[i]).group@),
    decreases table.len(),
{
    if table.len() > 0 {
        let init = table.drop_last();
        let before = groups_of(init);
        let now = groups_of(table);
        lemma_groups_listed(init);
        assert forall|i: int| 0 <= i < table.len() implies now.contains((#[trigger] table[i]).group@) by {
            if i < init.len() {
                assert(before.contains(init[i].group@));
                let k = choose|k: int| 0 <= k < before.len() && before[k] == init[i].group@;
                assert(now[k] == table[i].group@);
            } else if !before.contains(table.last().group@) {
                assert(now[before.len() as int] == table[i].group@);
            }
        }
    }
}

/// A separator that does not begin within `scheme` is found right behind it.
proof fn lemma_occurrence_behind(s: Seq<char>, scheme: Seq<char>, from: int)
    requires
        scheme.len() + 3 <= s.len(),
        s.subrange(0, scheme.len() as int) == scheme,
        s.subrange(scheme.len() as int, (scheme.len() + 3) as int) == "://"@,
        forall|i: int| 0 <= i < scheme.len() ==> #[trigger] scheme[i] != ':',
        0 <= from <= scheme.len(),
    ensures
        text::occurrence(s, "://"@, from) == Some(scheme.len() as int),
    decreases scheme.len() - from,
{
    reveal_strlit("://");
    if from < scheme.len() {
        assert(scheme[from] != ':');
        assert(s[from] == s.subrange(0, scheme.len() as int)[from]);
        assert(!text::occurs_at(s, "://"@, from)) by {
            if text::occurs_at(s, "://"@, from) {
                assert(s.subrange(from, from + 3)[0] == "://"@[0]);
            }
        }
        lemma_occurrence_behind(s, scheme, from + 1);
    } else {
        assert(text::occurs_at(s, "://"@, from));
    }
}

proof fn lemma_uri_parts(scheme: Seq<char>, area: Seq<char>)
    requires
        forall|i: int| 0 <= i < scheme.len() ==> #[trigger] scheme[i] != ':',
    ensures
        text::split_at(scheme + "://"@ + area, "://"@) == Some((scheme, area)),
{
    reveal_strlit("://");
    let s = scheme + "://"@ + area;
    assert(s.subrange(0, scheme.len() as int) =~= scheme);
    assert(s.subrange(scheme.len() as int, (scheme.len() + 3) as int) =~= "://"@);
    lemma_occurrence_behind(s, scheme, 0);
    assert(s.subrange((scheme.len() + 3) as int, s.len() as int) =~= area);
}

/// The URIs of an area's schema and defaults give exactly those.
pub proof fn lemma_resource_by_uri<D: Device>(area: Seq<char>)
    ensures
        resource_text::<D>("schema://"@ + area) == schema_of::<D>(area),
        resource_text::<D>("defaults://"@ + area) == default_of::<D>(area),
{
    reveal_strlit("schema");
    reveal_strlit("defaults");
    reveal_strlit("://");
    reveal_strlit("schema://");
    reveal_strlit("defaults://");
    assert("schema://"@ =~= "schema"@ + "://"@);
    assert("defaults://"@ =~= "defaults"@ + "://"@);
    lemma_uri_parts("schema"@, area);
    lemma_uri_parts("defaults"@, area);
    assert("schema"@.len() != "defaults"@.len());
}

/// Every resource that is listed can be read.
pub proof fn lemma_listed_resources_read<D: Device>(areas: Seq<Area>)
    ensures
        forall|k: int| 0 <= k < uris_of::<D>(areas).len() ==> resource_text::<D>(#[trigger] uris_of::<D>(areas)[k]) is Some,
    decreases areas.len(),
{
    if areas.len() > 0 {
        let before = uris_of::<D>(areas.drop_last());
        let a = areas.last();
        lemma_listed_resources_read::<D>(areas.drop_last());
        lemma_resource_by_uri::<D>(a.name@);
        assert forall|k: int| 0 <= k < uris_of::<D>(areas).len() implies resource_text::<D>(
            #[trigger] uris_of::<D>(areas)[k],
        ) is Some by {
            if k < before.len() {
                assert(uris_of::<D>(areas)[k] == before[k]);
            } else {
                assert(uris_of::<D>(areas)[k] == area_uris::<D>(a)[k - before.len()]);
            }
        }
    }
}

/// The verdict on a document that parses is good exactly where it encodes.
pub proof fn lemma_verdict_is_encoding(area: Seq<char>, parses: bool, encoded: Result<Seq<u8>, device::Fault>)
    ensures
        value::field(verdict(area, parses, encoded), "ok"@) == Some(Tree::Bool(encoded is Ok)),
{
    reveal_strlit("ok");
    reveal_strlit("area");
    reveal_strlit("encoded_bytes");
    reveal_strlit("parses_as_area");
    reveal_strlit("error");
    assert("ok"@.len() == 2 && "area"@.len() == 4 && "encoded_bytes"@.len() == 13 && "parses_as_area"@.len() == 14
        && "error"@.len() == 5);
    match encoded {
        Ok(bytes) => {
            let fields = seq![
                ("ok"@, Tree::Bool(true)),
                ("area"@, Tree::Text(area)),
                ("encoded_bytes"@, value::count_tree(bytes.len())),
            ];
            value::lemma_record_field(fields, "ok"@);
            assert(fields[0].0 == "ok"@);
        },
        Err(f) => {
            let fields = seq![
                ("ok"@, Tree::Bool(false)),
                ("area"@, Tree::Text(area)),
                ("parses_as_area"@, Tree::Bool(parses)),
                ("error"@, Tree::Text(device::fault_text(f))),
            ];
            value::lemma_record_field(fields, "ok"@);
            assert(fields[0].0 == "ok"@);
        },
    }
}

}
