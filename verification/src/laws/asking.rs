//! What a device tells of itself, and what it says of a document.

use vstd::prelude::*;

use crate::catalog::Catalogs;
use crate::device::{self, Area, Device, DeviceError, Fault};
use crate::handle::{self, judge, param_groups, DeviceHandle, MidiConfig, ResourceEntry};
use crate::laws::areas;
use crate::laws::naming;
use crate::laws::searching;
use crate::laws::terms;
use crate::laws::wording;
use crate::meta::{ParamMeta, Params};
use crate::resolve::Direction;
use crate::text;
use crate::tools::{self, ResolveNamesArgs, ValidateArgs};
use crate::value::{self, Doc, Tree};
use crate::yaml;

verus! {

// === schemas and defaults ===

/// `s` is the schema of the first area that a name matches, if there is one.
pub open spec fn is_schema<D: Device>(name: Seq<char>, s: Option<Seq<char>>) -> bool {
    &&& areas::no_match(D::area_list(), name) ==> s is None
    &&& forall|i: int| #[trigger]
        areas::first_match(D::area_list(), name, i) ==> s == D::schema_text(D::area_list()[i].name@)
}

/// `s` is the factory default of the first area that a name matches, as YAML, if
/// there is one that has a YAML form.
pub open spec fn is_default<D: Device>(name: Seq<char>, s: Option<Seq<char>>) -> bool {
    &&& areas::no_match(D::area_list(), name) ==> s is None
    &&& forall|i: int| #[trigger]
        areas::first_match(D::area_list(), name, i) ==> match D::default_doc(D::area_list()[i].name@) {
            None => s is None,
            Some(t) => match yaml::rendered(t) {
                Ok(given) => s == Some(given),
                Err(_) => s is None,
            },
        }
}

/// The text of an optional string.
pub open spec fn said(s: Option<&str>) -> Option<Seq<char>> {
    match s {
        Some(s) => Some(s@),
        None => None,
    }
}

/// What is looked up under a name is the schema and the default of its area.
pub proof fn lemma_looked_up<D: Device>(name: Seq<char>)
    ensures
        is_schema::<D>(name, handle::schema_of::<D>(name)),
        is_default::<D>(name, handle::default_of::<D>(name)),
{
    areas::lemma_area_found(D::area_list(), name);
    let k = device::matching_area(D::area_list(), name);
    if areas::no_match(D::area_list(), name) {
        if let Some(k) = k {
            areas::lemma_one_first_match(D::area_list(), name, k, k);
        }
    }
    assert forall|i: int| #[trigger] areas::first_match(D::area_list(), name, i) implies k == Some(i) by {
        areas::lemma_one_first_match(D::area_list(), name, i, i);
        areas::lemma_one_first_match(D::area_list(), name, k->Some_0, i);
    }
}

/// A name has one schema and one default.
pub proof fn lemma_one_text<D: Device>(name: Seq<char>, a: Option<Seq<char>>, b: Option<Seq<char>>)
    ensures
        is_schema::<D>(name, a) && is_schema::<D>(name, b) ==> a == b,
        is_default::<D>(name, a) && is_default::<D>(name, b) ==> a == b,
{
    areas::lemma_area_found(D::area_list(), name);
    if let Some(i) = device::matching_area(D::area_list(), name) {
        assert(areas::first_match(D::area_list(), name, i));
    }
}

/// Asking for a schema or for defaults, by any spelling of an area's name.
pub proof fn lemma_schema_asked<D: Device>(h: DeviceHandle<D>, name: &str, s: Option<&str>, d: Option<&str>)
    requires
        call_ensures(DeviceHandle::<D>::schema, (&h, name), s),
        call_ensures(DeviceHandle::<D>::defaults, (&h, name), d),
    ensures
        is_schema::<D>(name@, said(s)),
        is_default::<D>(name@, said(d)),
{
    lemma_looked_up::<D>(name@);
}

/// A resource is read by its URI: behind `schema://` stands the area whose schema it
/// is, behind `defaults://` the area whose defaults it is, and nothing else is one.
pub proof fn lemma_resource_read<D: Device>(h: DeviceHandle<D>, uri: &str, r: Option<String>)
    requires
        call_ensures(DeviceHandle::<D>::read_resource, (&h, uri), r),
    ensures
        forall|area: Seq<char>| uri@ == #[trigger] ("schema://"@ + area) ==> is_schema::<D>(area, text::text_in(r)),
        forall|area: Seq<char>| uri@ == #[trigger] ("defaults://"@ + area) ==> is_default::<D>(area, text::text_in(r)),
        r is Some ==> (exists|area: Seq<char>| uri@ == #[trigger] ("schema://"@ + area)) || (exists|area: Seq<char>|
            uri@ == #[trigger] ("defaults://"@ + area)),
{
    reveal_strlit("schema");
    reveal_strlit("defaults");
    reveal_strlit("://");
    reveal_strlit("schema://");
    reveal_strlit("defaults://");
    assert("schema://"@ =~= "schema"@ + "://"@);
    assert("defaults://"@ =~= "defaults"@ + "://"@);
    assert forall|area: Seq<char>| uri@ == #[trigger] ("schema://"@ + area) implies is_schema::<D>(
        area,
        text::text_in(r),
    ) by {
        handle::lemma_resource_by_uri::<D>(area);
        lemma_looked_up::<D>(area);
    }
    assert forall|area: Seq<char>| uri@ == #[trigger] ("defaults://"@ + area) implies is_default::<D>(
        area,
        text::text_in(r),
    ) by {
        handle::lemma_resource_by_uri::<D>(area);
        lemma_looked_up::<D>(area);
    }
    if r is Some {
        let (scheme, area) = text::split_at(uri@, "://"@)->Some_0;
        wording::lemma_split_at(uri@, "://"@);
        assert(uri@ =~= scheme + "://"@ + area);
        if scheme == "schema"@ {
            assert(uri@ =~= "schema://"@ + area);
        } else {
            assert(uri@ =~= "defaults://"@ + area);
        }
    }
}

// === the description ===

/// What is said of an area: its name, its label, what it is about, and whether it has
/// a schema and defaults.
pub open spec fn tells_area<D: Device>(t: Tree, a: Area) -> bool {
    &&& terms::has_keys(t, seq!["name"@, "label"@, "about"@, "has_schema"@, "has_defaults"@])
    &&& value::field(t, "name"@) == Some(Tree::Text(a.name@))
    &&& value::field(t, "label"@) == Some(Tree::Text(a.label@))
    &&& value::field(t, "about"@) == Some(Tree::Text(a.about@))
    &&& value::field(t, "has_schema"@) == Some(Tree::Bool(has_schema::<D>(a)))
    &&& value::field(t, "has_defaults"@) == Some(Tree::Bool(has_defaults::<D>(a)))
}

/// The name of an area leads to a schema.
pub open spec fn has_schema<D: Device>(a: Area) -> bool {
    exists|s: Seq<char>| #[trigger] is_schema::<D>(a.name@, Some(s))
}

/// The name of an area leads to defaults.
pub open spec fn has_defaults<D: Device>(a: Area) -> bool {
    exists|s: Seq<char>| #[trigger] is_default::<D>(a.name@, Some(s))
}

proof fn lemma_has<D: Device>(a: Area)
    ensures
        has_schema::<D>(a) == handle::schema_of::<D>(a.name@) is Some,
        has_defaults::<D>(a) == handle::default_of::<D>(a.name@) is Some,
{
    lemma_looked_up::<D>(a.name@);
    let s = handle::schema_of::<D>(a.name@);
    let d = handle::default_of::<D>(a.name@);
    if has_schema::<D>(a) {
        let x = choose|x: Seq<char>| #[trigger] is_schema::<D>(a.name@, Some(x));
        lemma_one_text::<D>(a.name@, s, Some(x));
    }
    if has_defaults::<D>(a) {
        let x = choose|x: Seq<char>| #[trigger] is_default::<D>(a.name@, Some(x));
        lemma_one_text::<D>(a.name@, d, Some(x));
    }
    if let Some(x) = s {
        assert(is_schema::<D>(a.name@, Some(x)));
    }
    if let Some(x) = d {
        assert(is_default::<D>(a.name@, Some(x)));
    }
}

proof fn lemma_area_told<D: Device>(a: Area)
    ensures
        tells_area::<D>(handle::area_tree::<D>(a), a),
{
    lemma_has::<D>(a);
    let fields = seq![
        ("name"@, Tree::Text(a.name@)),
        ("label"@, Tree::Text(a.label@)),
        ("about"@, Tree::Text(a.about@)),
        ("has_schema"@, Tree::Bool(handle::schema_of::<D>(a.name@) is Some)),
        ("has_defaults"@, Tree::Bool(handle::default_of::<D>(a.name@) is Some)),
    ];
    reveal_strlit("name");
    reveal_strlit("label");
    reveal_strlit("about");
    reveal_strlit("has_schema");
    reveal_strlit("has_defaults");
    assert("name"@.len() == 4 && "label"@.len() == 5 && "about"@[0] == 'a' && "label"@[0] == 'l' && "has_schema"@.len()
        == 10 && "has_defaults"@.len() == 12 && "about"@.len() == 5);
    value::lemma_record_field(fields, "name"@);
    value::lemma_record_field(fields, "label"@);
    value::lemma_record_field(fields, "about"@);
    value::lemma_record_field(fields, "has_schema"@);
    value::lemma_record_field(fields, "has_defaults"@);
    assert(fields[0].0 == "name"@ && fields[1].0 == "label"@ && fields[2].0 == "about"@ && fields[3].0 == "has_schema"@
        && fields[4].0 == "has_defaults"@);
}

/// The parameter at `i` is the first of its group.
pub open spec fn leads_group(table: Seq<ParamMeta>, i: int) -> bool {
    &&& 0 <= i < table.len()
    &&& forall|j: int| 0 <= j < i ==> (#[trigger] table[j]).group@ != table[i].group@
}

/// `groups` names the groups of a table, each once, in the order in which they first
/// appear.
pub open spec fn names_groups(table: Seq<ParamMeta>, groups: Seq<Seq<char>>, firsts: Seq<int>) -> bool {
    &&& firsts.len() == groups.len()
    &&& forall|k: int|
        0 <= k < firsts.len() ==> leads_group(table, #[trigger] firsts[k]) && groups[k] == table[firsts[k]].group@
    &&& forall|j: int, k: int| 0 <= j < k < firsts.len() ==> #[trigger] firsts[j] < #[trigger] firsts[k]
    &&& forall|i: int| #[trigger] leads_group(table, i) ==> firsts.contains(i)
}

proof fn lemma_groups_named(table: Seq<ParamMeta>) -> (firsts: Seq<int>)
    ensures
        names_groups(table, handle::groups_of(table), firsts),
    decreases table.len(),
{
    if table.len() == 0 {
        seq![]
    } else {
        let init = table.drop_last();
        let before = lemma_groups_named(init);
        let groups = handle::groups_of(init);
        let last = table.len() - 1;
        let g = table.last().group@;
        handle::lemma_groups_listed(init);
        assert forall|i: int| 0 <= i < last implies leads_group(table, i) == leads_group(init, i) by {
            assert forall|j: int| 0 <= j <= i implies init[j] == table[j] by {}
            if leads_group(table, i) {
                assert forall|j: int| 0 <= j < i implies (#[trigger] init[j]).group@ != init[i].group@ by {
                    assert(table[j].group@ != table[i].group@);
                }
            }
            if leads_group(init, i) {
                assert forall|j: int| 0 <= j < i implies (#[trigger] table[j]).group@ != table[i].group@ by {
                    assert(init[j].group@ != init[i].group@);
                }
            }
        }
        let firsts = if groups.contains(g) {
            let k = choose|k: int| 0 <= k < groups.len() && groups[k] == g;
            assert(leads_group(init, before[k]));
            assert(table[before[k]] == init[before[k]]);
            assert(!leads_group(table, last));
            before
        } else {
            assert forall|j: int| 0 <= j < last implies (#[trigger] table[j]).group@ != g by {
                assert(init[j] == table[j]);
                assert(groups.contains(init[j].group@));
            }
            assert(leads_group(table, last));
            before.push(last)
        };
        let all = handle::groups_of(table);
        assert forall|k: int| 0 <= k < firsts.len() implies leads_group(table, #[trigger] firsts[k]) && all[k]
            == table[firsts[k]].group@ by {
            if k < before.len() {
                assert(firsts[k] == before[k]);
                assert(leads_group(init, before[k]));
                assert(table[before[k]] == init[before[k]]);
            }
        }
        assert forall|j: int, k: int| 0 <= j < k < firsts.len() implies #[trigger] firsts[j] < #[trigger] firsts[k] by {
            assert(firsts[j] == before[j]);
            assert(leads_group(init, before[j]));
            if k < before.len() {
                assert(firsts[k] == before[k]);
            }
        }
        assert forall|i: int| #[trigger] leads_group(table, i) implies firsts.contains(i) by {
            if i < last {
                assert(leads_group(init, i));
                let k = choose|k: int| 0 <= k < before.len() && before[k] == i;
                assert(firsts[k] == i);
            } else {
                assert(firsts[firsts.len() - 1] == i);
            }
        }
        firsts
    }
}

/// The groups of a table are named once each, in order of appearance.
pub proof fn lemma_groups_given(params: Params, r: Vec<String>)
    requires
        call_ensures(param_groups, (&params,), r),
    ensures
        exists|firsts: Seq<int>| #[trigger] names_groups(params.0@, text::texts(r@), firsts),
{
    let firsts = lemma_groups_named(params.0@);
    assert(names_groups(params.0@, text::texts(r@), firsts));
}

/// What is said of a catalog: its name, and how many entries it has.
pub open spec fn tells_catalog<D: Device>(t: Tree, name: Seq<char>) -> bool {
    &&& terms::has_keys(t, seq!["name"@, "entries"@])
    &&& value::field(t, "name"@) == Some(Tree::Text(name))
    &&& value::field(t, "entries"@) == Some(
        terms::number(
            match searching::catalog_list::<D>(name) {
                Some(list) => list.len() as int,
                None => 0,
            },
        ),
    )
}

proof fn lemma_catalog_told<D: Device>(name: Seq<char>)
    ensures
        tells_catalog::<D>(handle::catalog_tree(handle::json_catalogs::<D>(), name), name),
{
    searching::lemma_catalog_list::<D>(name);
    let fields = seq![
        ("name"@, Tree::Text(name)),
        ("entries"@, value::count_tree(handle::catalog_size(handle::json_catalogs::<D>(), name))),
    ];
    reveal_strlit("name");
    reveal_strlit("entries");
    assert("name"@.len() == 4 && "entries"@.len() == 7);
    value::lemma_record_field(fields, "name"@);
    value::lemma_record_field(fields, "entries"@);
    assert(fields[0].0 == "name"@ && fields[1].0 == "entries"@);
}

/// A text is the URI of something that can be read of one of the areas.
pub open spec fn is_uri_of<D: Device>(uri: Seq<char>, list: Seq<Area>) -> bool {
    exists|i: int|
        0 <= i < list.len() && (uri == "schema://"@ + (#[trigger] list[i]).name@ && has_schema::<D>(list[i]) || uri
            == "defaults://"@ + list[i].name@ && has_defaults::<D>(list[i]))
}

/// The URIs are those of all that can be read of the areas, and no others.
pub open spec fn lists_uris<D: Device>(uris: Seq<Seq<char>>, list: Seq<Area>) -> bool {
    forall|uri: Seq<char>| #[trigger] uris.contains(uri) <==> is_uri_of::<D>(uri, list)
}

/// A URI is that of the schema of an area.
pub open spec fn is_schema_uri<D: Device>(uri: Seq<char>, a: Area) -> bool {
    uri == "schema://"@ + a.name@ && has_schema::<D>(a)
}

/// A URI is that of the defaults of an area.
pub open spec fn is_defaults_uri<D: Device>(uri: Seq<char>, a: Area) -> bool {
    uri == "defaults://"@ + a.name@ && has_defaults::<D>(a)
}

/// The URIs follow the areas, `from[k]` being the area of URI `k`; of one area the
/// schema comes first, then its defaults, each once.
pub open spec fn follow_areas<D: Device>(uris: Seq<Seq<char>>, list: Seq<Area>, from: Seq<int>) -> bool {
    &&& from.len() == uris.len()
    &&& forall|k: int|
        0 <= k < uris.len() ==> 0 <= #[trigger] from[k] < list.len() && (is_schema_uri::<D>(uris[k], list[from[k]])
            || is_defaults_uri::<D>(uris[k], list[from[k]]))
    &&& forall|j: int, k: int|
        0 <= j < k < uris.len() ==> #[trigger] from[j] < #[trigger] from[k] || (from[j] == from[k] && is_schema_uri::<D>(
            uris[j],
            list[from[j]],
        ) && is_defaults_uri::<D>(uris[k], list[from[k]]))
}

proof fn lemma_uris_follow<D: Device>(list: Seq<Area>) -> (from: Seq<int>)
    ensures
        follow_areas::<D>(handle::uris_of::<D>(list), list, from),
    decreases list.len(),
{
    let all = handle::uris_of::<D>(list);
    if list.len() == 0 {
        seq![]
    } else {
        let init = list.drop_last();
        let a = list.last();
        let last = list.len() - 1;
        let before = handle::uris_of::<D>(init);
        let own = handle::area_uris::<D>(a);
        let earlier = lemma_uris_follow::<D>(init);
        lemma_has::<D>(a);
        let from = earlier + Seq::new(own.len(), |i: int| last);
        assert forall|k: int| 0 <= k < all.len() implies 0 <= #[trigger] from[k] < list.len() && (is_schema_uri::<D>(
            all[k],
            list[from[k]],
        ) || is_defaults_uri::<D>(all[k], list[from[k]])) by {
            if k < before.len() {
                assert(from[k] == earlier[k]);
                assert(all[k] == before[k]);
                assert(list[earlier[k]] == init[earlier[k]]);
            } else {
                assert(all[k] == own[k - before.len()]);
            }
        }
        assert forall|j: int, k: int| 0 <= j < k < all.len() implies #[trigger] from[j] < #[trigger] from[k] || (from[j]
            == from[k] && is_schema_uri::<D>(all[j], list[from[j]]) && is_defaults_uri::<D>(all[k], list[from[k]])) by {
            if k < before.len() {
                assert(from[j] == earlier[j] && from[k] == earlier[k]);
                assert(all[j] == before[j] && all[k] == before[k]);
                assert(list[earlier[j]] == init[earlier[j]] && list[earlier[k]] == init[earlier[k]]);
            } else if j < before.len() {
                assert(from[j] == earlier[j]);
            } else {
                assert(all[j] == own[0] && all[k] == own[1]);
            }
        }
        from
    }
}

proof fn lemma_uris_listed<D: Device>(list: Seq<Area>)
    ensures
        lists_uris::<D>(handle::uris_of::<D>(list), list),
    decreases list.len(),
{
    let all = handle::uris_of::<D>(list);
    if list.len() == 0 {
    } else {
        let init = list.drop_last();
        let before = handle::uris_of::<D>(init);
        let own = handle::area_uris::<D>(list.last());
        lemma_uris_listed::<D>(init);
        lemma_has::<D>(list.last());
        assert forall|uri: Seq<char>| #[trigger] all.contains(uri) <==> is_uri_of::<D>(uri, list) by {
            if all.contains(uri) {
                let k = choose|k: int| 0 <= k < all.len() && all[k] == uri;
                if k < before.len() {
                    assert(before[k] == uri);
                    assert(before.contains(uri));
                    let i = choose|i: int|
                        0 <= i < init.len() && (uri == "schema://"@ + (#[trigger] init[i]).name@ && has_schema::<D>(
                            init[i],
                        ) || uri == "defaults://"@ + init[i].name@ && has_defaults::<D>(init[i]));
                    assert(list[i] == init[i]);
                } else {
                    assert(own[k - before.len()] == uri);
                    assert(list[list.len() - 1] == list.last());
                }
            }
            if is_uri_of::<D>(uri, list) {
                let i = choose|i: int|
                    0 <= i < list.len() && (uri == "schema://"@ + (#[trigger] list[i]).name@ && has_schema::<D>(list[i])
                        || uri == "defaults://"@ + list[i].name@ && has_defaults::<D>(list[i]));
                if i < init.len() {
                    assert(init[i] == list[i]);
                    assert(is_uri_of::<D>(uri, init));
                    assert(before.contains(uri));
                    let k = choose|k: int| 0 <= k < before.len() && before[k] == uri;
                    assert(all[k] == uri);
                } else if uri == "schema://"@ + list[i].name@ && has_schema::<D>(list[i]) {
                    assert(own[0] == uri);
                    assert(all[before.len() as int] == uri);
                } else {
                    assert(own[own.len() - 1] == uri);
                    assert(all[before.len() + own.len() - 1] == uri);
                }
            }
        }
    }
}

/// The resources that are listed are those that can be read.
pub proof fn lemma_uris_given<D: Device>(h: DeviceHandle<D>, r: Vec<String>)
    requires
        call_ensures(DeviceHandle::<D>::uris, (&h,), r),
    ensures
        lists_uris::<D>(text::texts(r@), D::area_list()),
        exists|from: Seq<int>| #[trigger] follow_areas::<D>(text::texts(r@), D::area_list(), from),
{
    lemma_uris_listed::<D>(D::area_list());
    let from = lemma_uris_follow::<D>(D::area_list());
    assert(follow_areas::<D>(text::texts(r@), D::area_list(), from));
}

/// `t` is a sequence of texts.
pub open spec fn is_text_list(t: Tree, texts: Seq<Seq<char>>) -> bool {
    &&& t matches Tree::Sequence(items)
    &&& items.len() == texts.len()
    &&& forall|i: int| 0 <= i < items.len() ==> #[trigger] items[i] == Tree::Text(texts[i])
}

/// `t` describes a device: its name, each area, how many parameters it has and in
/// which groups, each catalog, and what can be read.
pub open spec fn describes<D: Device>(
    t: Tree,
    groups: Seq<Seq<char>>,
    firsts: Seq<int>,
    uris: Seq<Seq<char>>,
) -> bool {
    &&& terms::has_keys(t, seq!["device"@, "areas"@, "param_count"@, "param_groups"@, "catalogs"@, "resources"@])
    &&& value::field(t, "device"@) == Some(Tree::Text(D::NAME@))
    &&& value::field(t, "areas"@) matches Some(Tree::Sequence(list)) && list.len() == D::area_list().len() && forall|
        i: int,
    |
        0 <= i < list.len() ==> tells_area::<D>(#[trigger] list[i], D::area_list()[i])
    &&& value::field(t, "param_count"@) == Some(terms::number(D::table().len() as int))
    &&& value::field(t, "param_groups"@) matches Some(list) && is_text_list(list, groups)
    &&& names_groups(D::table(), groups, firsts)
    &&& value::field(t, "catalogs"@) matches Some(Tree::Sequence(list)) && list.len()
        == D::value_catalogs().catalog_names().len() && forall|i: int|
        0 <= i < list.len() ==> tells_catalog::<D>(#[trigger] list[i], D::value_catalogs().catalog_names()[i])
    &&& value::field(t, "resources"@) matches Some(list) && is_text_list(list, uris)
    &&& lists_uris::<D>(uris, D::area_list())
    &&& exists|from: Seq<int>| #[trigger] follow_areas::<D>(uris, D::area_list(), from)
}

/// Describing a device.
pub proof fn lemma_described<D: Device>(h: DeviceHandle<D>, r: Doc)
    requires
        call_ensures(DeviceHandle::<D>::describe, (&h,), r),
    ensures
        exists|groups: Seq<Seq<char>>, firsts: Seq<int>, uris: Seq<Seq<char>>| #[trigger]
            describes::<D>(r@, groups, firsts, uris),
{
    let groups = handle::groups_of(D::table());
    let firsts = lemma_groups_named(D::table());
    let uris = handle::uris_of::<D>(D::area_list());
    lemma_uris_listed::<D>(D::area_list());
    let from = lemma_uris_follow::<D>(D::area_list());
    assert(follow_areas::<D>(uris, D::area_list(), from));
    let told = handle::area_trees::<D>(D::area_list());
    let cats = handle::catalog_trees(handle::json_catalogs::<D>(), D::value_catalogs().catalog_names());
    assert forall|i: int| 0 <= i < told.len() implies tells_area::<D>(#[trigger] told[i], D::area_list()[i]) by {
        lemma_area_told::<D>(D::area_list()[i]);
    }
    assert forall|i: int| 0 <= i < cats.len() implies tells_catalog::<D>(
        #[trigger] cats[i],
        D::value_catalogs().catalog_names()[i],
    ) by {
        lemma_catalog_told::<D>(D::value_catalogs().catalog_names()[i]);
    }
    let fields = seq![
        ("device"@, Tree::Text(D::NAME@)),
        ("areas"@, Tree::Sequence(told)),
        ("param_count"@, value::count_tree(D::table().len())),
        ("param_groups"@, Tree::Sequence(handle::text_trees(groups))),
        ("catalogs"@, Tree::Sequence(cats)),
        ("resources"@, Tree::Sequence(handle::text_trees(uris))),
    ];
    reveal_strlit("device");
    reveal_strlit("areas");
    reveal_strlit("param_count");
    reveal_strlit("param_groups");
    reveal_strlit("catalogs");
    reveal_strlit("resources");
    assert("device"@.len() == 6 && "areas"@.len() == 5 && "param_count"@.len() == 11 && "param_groups"@.len() == 12
        && "catalogs"@.len() == 8 && "resources"@.len() == 9);
    value::lemma_record_field(fields, "device"@);
    value::lemma_record_field(fields, "areas"@);
    value::lemma_record_field(fields, "param_count"@);
    value::lemma_record_field(fields, "param_groups"@);
    value::lemma_record_field(fields, "catalogs"@);
    value::lemma_record_field(fields, "resources"@);
    assert(fields[0].0 == "device"@ && fields[1].0 == "areas"@ && fields[2].0 == "param_count"@ && fields[3].0
        == "param_groups"@ && fields[4].0 == "catalogs"@ && fields[5].0 == "resources"@);
    assert(describes::<D>(r@, groups, firsts, uris));
}

/// An entry of the list of resources tells its area and its kind.
pub open spec fn lists_resource<D: Device>(e: ResourceEntry, a: Area) -> bool {
    ||| {
        &&& has_schema::<D>(a)
        &&& e.uri@ == "schema://"@ + a.name@
        &&& e.name@ == a.label@ + " JSON Schema"@
        &&& e.description@ == "JSON Schema for the `"@ + a.name@ + "` document."@
        &&& e.mime_type@ == "application/json"@
    }
    ||| {
        &&& has_defaults::<D>(a)
        &&& e.uri@ == "defaults://"@ + a.name@
        &&& e.name@ == a.label@ + " defaults"@
        &&& e.description@ == "Factory-default `"@ + a.name@ + "` document, as YAML."@
        &&& e.mime_type@ == "application/yaml"@
    }
}

proof fn lemma_resources_match<D: Device>(list: Seq<Area>)
    ensures
        handle::resources_of::<D>(list).len() == handle::uris_of::<D>(list).len(),
        forall|k: int|
            0 <= k < handle::uris_of::<D>(list).len() ==> {
                &&& (#[trigger] handle::resources_of::<D>(list)[k]).uri == handle::uris_of::<D>(list)[k]
                &&& exists|i: int|
                    0 <= i < list.len() && handle::area_resources::<D>(#[trigger] list[i]).contains(
                        handle::resources_of::<D>(list)[k],
                    )
            },
    decreases list.len(),
{
    if list.len() > 0 {
        let init = list.drop_last();
        let a = list.last();
        lemma_resources_match::<D>(init);
        let before = handle::resources_of::<D>(init);
        let all = handle::resources_of::<D>(list);
        let own = handle::area_resources::<D>(a);
        assert forall|k: int| 0 <= k < all.len() implies {
            &&& (#[trigger] all[k]).uri == handle::uris_of::<D>(list)[k]
            &&& exists|i: int|
                0 <= i < list.len() && handle::area_resources::<D>(#[trigger] list[i]).contains(all[k])
        } by {
            if k < before.len() {
                assert(all[k] == before[k]);
                assert(handle::uris_of::<D>(list)[k] == handle::uris_of::<D>(init)[k]);
                let i = choose|i: int|
                    0 <= i < init.len() && handle::area_resources::<D>(#[trigger] init[i]).contains(before[k]);
                assert(list[i] == init[i]);
            } else {
                assert(all[k] == own[k - before.len()]);
                assert(handle::uris_of::<D>(list)[k] == handle::area_uris::<D>(a)[k - before.len()]);
                assert(own.contains(all[k]));
                assert(list[list.len() - 1] == a);
            }
        }
    }
}

/// The resources that can be read are listed under their URIs, each told as what it
/// is.
pub proof fn lemma_resources_given<D: Device>(h: DeviceHandle<D>, r: Vec<ResourceEntry>, u: Vec<String>)
    requires
        call_ensures(DeviceHandle::<D>::resources, (&h,), r),
        call_ensures(DeviceHandle::<D>::uris, (&h,), u),
    ensures
        r@.len() == u@.len(),
        forall|k: int| 0 <= k < r@.len() ==> (#[trigger] r@[k]).uri@ == u@[k]@,
        forall|k: int|
            0 <= k < r@.len() ==> exists|i: int|
                0 <= i < D::area_list().len() && lists_resource::<D>(#[trigger] r@[k], #[trigger] D::area_list()[i]),
{
    let list = D::area_list();
    lemma_resources_match::<D>(list);
    let all = handle::resources_of::<D>(list);
    assert(handle::listed(r@).len() == r@.len());
    assert(text::texts(u@).len() == u@.len());
    assert forall|k: int| 0 <= k < r@.len() implies (#[trigger] r@[k]).uri@ == u@[k]@ by {
        assert(handle::listed(r@)[k] == r@[k]@);
        assert(text::texts(u@)[k] == u@[k]@);
        assert(all[k].uri == handle::uris_of::<D>(list)[k]);
    }
    assert forall|k: int| 0 <= k < r@.len() implies exists|i: int|
        0 <= i < list.len() && lists_resource::<D>(#[trigger] r@[k], #[trigger] list[i]) by {
        assert(handle::listed(r@)[k] == r@[k]@);
        assert(all[k] == r@[k]@);
        let i = choose|i: int| 0 <= i < list.len() && handle::area_resources::<D>(#[trigger] list[i]).contains(all[k]);
        lemma_has::<D>(list[i]);
        assert(lists_resource::<D>(r@[k], list[i]));
    }
}

// === documents ===

/// `t` is the verdict on a document: whether it encodes, into how many bytes, and
/// otherwise why not and whether at least its shape is right.
pub open spec fn is_verdict(t: Tree, area: Seq<char>, parses: bool, encoded: Result<Seq<u8>, Fault>) -> bool {
    &&& value::field(t, "ok"@) == Some(Tree::Bool(encoded is Ok))
    &&& value::field(t, "area"@) == Some(Tree::Text(area))
    &&& match encoded {
        Ok(bytes) => {
            &&& terms::has_keys(t, seq!["ok"@, "area"@, "encoded_bytes"@])
            &&& value::field(t, "encoded_bytes"@) == Some(terms::number(bytes.len() as int))
        },
        Err(f) => {
            &&& terms::has_keys(t, seq!["ok"@, "area"@, "parses_as_area"@, "error"@])
            &&& value::field(t, "parses_as_area"@) == Some(Tree::Bool(parses))
            &&& value::field(t, "error"@) == Some(Tree::Text(device::fault_text(f)))
        },
    }
}

proof fn lemma_verdict(area: Seq<char>, parses: bool, encoded: Result<Seq<u8>, Fault>)
    ensures
        is_verdict(handle::verdict(area, parses, encoded), area, parses, encoded),
{
    reveal_strlit("ok");
    reveal_strlit("area");
    reveal_strlit("encoded_bytes");
    reveal_strlit("parses_as_area");
    reveal_strlit("error");
    assert("ok"@.len() == 2 && "area"@.len() == 4 && "encoded_bytes"@.len() == 13 && "parses_as_area"@.len() == 14
        && "error"@.len() == 5);
    let fields = match encoded {
        Ok(bytes) => seq![
            ("ok"@, Tree::Bool(true)),
            ("area"@, Tree::Text(area)),
            ("encoded_bytes"@, value::count_tree(bytes.len())),
        ],
        Err(f) => seq![
            ("ok"@, Tree::Bool(false)),
            ("area"@, Tree::Text(area)),
            ("parses_as_area"@, Tree::Bool(parses)),
            ("error"@, Tree::Text(device::fault_text(f))),
        ],
    };
    value::lemma_record_field(fields, "ok"@);
    value::lemma_record_field(fields, "area"@);
    value::lemma_record_field(fields, "encoded_bytes"@);
    value::lemma_record_field(fields, "parses_as_area"@);
    value::lemma_record_field(fields, "error"@);
    assert(fields[0].0 == "ok"@ && fields[1].0 == "area"@);
    if encoded is Ok {
        assert(fields[2].0 == "encoded_bytes"@);
    } else {
        assert(fields[2].0 == "parses_as_area"@ && fields[3].0 == "error"@);
    }
}

/// Judging a document by how it encodes.
pub proof fn lemma_judged(area: &str, parses: bool, encoded: Result<Vec<u8>, DeviceError>, r: Doc)
    requires
        call_ensures(judge, (area, parses, encoded), r),
    ensures
        is_verdict(
            r@,
            area@,
            parses,
            match encoded {
                Ok(bytes) => Ok(bytes@),
                Err(e) => Err(e@),
            },
        ),
{
    lemma_verdict(area@, parses, device::bytes_outcome(encoded));
}

/// `t` is what validating a document says: that the area is not known, that the text
/// is no YAML, or the verdict on how the device encodes it for that area.
pub open spec fn says_of_document<D: Device>(t: Tree, area: Seq<char>, document: Seq<char>) -> bool {
    &&& areas::no_match(D::area_list(), area) ==> {
        &&& terms::has_keys(t, seq!["ok"@, "error"@])
        &&& value::field(t, "ok"@) == Some(Tree::Bool(false))
        &&& value::field(t, "error"@) == Some(
            Tree::Text("unknown area (valid: "@ + text::joined(device::area_names(D::area_list()), ", "@) + ")"@),
        )
    }
    &&& forall|i: int| #[trigger]
        areas::first_match(D::area_list(), area, i) ==> match yaml::parsed(document) {
            Err(m) => {
                &&& terms::has_keys(t, seq!["ok"@, "area"@, "error"@])
                &&& value::field(t, "ok"@) == Some(Tree::Bool(false))
                &&& value::field(t, "area"@) == Some(Tree::Text(D::area_list()[i].name@))
                &&& value::field(t, "error"@) == Some(Tree::Text("YAML: "@ + m))
            },
            Ok(x) => exists|doc: Doc, parses: bool|
                {
                    &&& doc@ == x
                    &&& #[trigger] call_ensures(D::accepts, (D::area_list()[i].name, &doc), parses)
                    &&& is_verdict(t, D::area_list()[i].name@, parses, D::encoded(D::area_list()[i].name@, x, 0))
                },
        }
}

proof fn lemma_no_verdict(list: Seq<Area>, area: Seq<char>, m: Seq<char>)
    ensures
        terms::has_keys(handle::no_area_verdict(list), seq!["ok"@, "error"@]),
        terms::has_keys(handle::no_yaml_verdict(area, m), seq!["ok"@, "area"@, "error"@]),
        value::field(handle::no_area_verdict(list), "ok"@) == Some(Tree::Bool(false)),
        value::field(handle::no_area_verdict(list), "error"@) == Some(Tree::Text(handle::valid_areas_text(list))),
        value::field(handle::no_yaml_verdict(area, m), "ok"@) == Some(Tree::Bool(false)),
        value::field(handle::no_yaml_verdict(area, m), "area"@) == Some(Tree::Text(area)),
        value::field(handle::no_yaml_verdict(area, m), "error"@) == Some(Tree::Text("YAML: "@ + m)),
{
    reveal_strlit("ok");
    reveal_strlit("area");
    reveal_strlit("error");
    assert("ok"@.len() == 2 && "area"@.len() == 4 && "error"@.len() == 5);
    let a = seq![("ok"@, Tree::Bool(false)), ("error"@, Tree::Text(handle::valid_areas_text(list)))];
    let b = seq![("ok"@, Tree::Bool(false)), ("area"@, Tree::Text(area)), ("error"@, Tree::Text("YAML: "@ + m))];
    value::lemma_record_field(a, "ok"@);
    value::lemma_record_field(a, "error"@);
    value::lemma_record_field(b, "ok"@);
    value::lemma_record_field(b, "area"@);
    value::lemma_record_field(b, "error"@);
    assert(a[0].0 == "ok"@ && a[1].0 == "error"@ && b[0].0 == "ok"@ && b[1].0 == "area"@ && b[2].0 == "error"@);
}

proof fn lemma_validated<D: Device>(area: Seq<char>, document: Seq<char>, t: Tree)
    requires
        handle::validated::<D>(area, document, t),
    ensures
        says_of_document::<D>(t, area, document),
{
    areas::lemma_area_found(D::area_list(), area);
    let k = device::matching_area(D::area_list(), area);
    match k {
        None => {
            lemma_no_verdict(D::area_list(), area, area);
            assert forall|i: int| #[trigger] areas::first_match(D::area_list(), area, i) implies false by {
                areas::lemma_one_first_match(D::area_list(), area, i, i);
            }
        },
        Some(k) => {
            areas::lemma_one_first_match(D::area_list(), area, k, k);
            let a = D::area_list()[k];
            match yaml::parsed(document) {
                Err(m) => {
                    lemma_no_verdict(D::area_list(), a.name@, m);
                },
                Ok(x) => {
                    let (doc, parses) = choose|doc: Doc, parses: bool|
                        {
                            &&& doc@ == x
                            &&& #[trigger] crate::engine::may_answer::<D>(a, doc, parses)
                            &&& t == handle::verdict(a.name@, parses, D::encoded(a.name@, x, 0))
                        };
                    lemma_verdict(a.name@, parses, D::encoded(a.name@, x, 0));
                    assert(call_ensures(D::accepts, (a.name, &doc), parses));
                },
            }
            assert forall|i: int| #[trigger] areas::first_match(D::area_list(), area, i) implies i == k by {
                areas::lemma_one_first_match(D::area_list(), area, k, i);
            }
        },
    }
}

/// Validating a document is encoding it for the first area that the name matches.
pub proof fn lemma_document_validated<D: Device>(h: DeviceHandle<D>, area: &str, document: &str, r: Doc)
    requires
        call_ensures(DeviceHandle::<D>::validate, (&h, area, document), r),
    ensures
        says_of_document::<D>(r@, area@, document@),
{
    lemma_validated::<D>(area@, document@, r@);
}

/// The tool validates the document of its arguments for the area of its arguments.
pub proof fn lemma_validate_tool<D: Device>(h: DeviceHandle<D>, args: ValidateArgs, r: Doc)
    requires
        call_ensures(tools::validate::<D>, (&h, &args), r),
    ensures
        says_of_document::<D>(r@, args.area@, args.document@),
{
    lemma_validated::<D>(args.area@, args.document@, r@);
}

/// `r` is a document with its names resolved, as YAML; or says what of the YAML went
/// wrong.
pub open spec fn resolves_text<D: Device>(document: Seq<char>, r: Result<String, String>) -> bool {
    match yaml::parsed(document) {
        Err(m) => r matches Err(e) && e@ == "YAML: "@ + m,
        Ok(t) => exists|u: Tree| #[trigger]
            naming::is_rewriting(t, u, D::table(), D::value_catalogs(), Direction::Resolve) && match yaml::rendered(u) {
                Ok(s) => r matches Ok(given) && given@ == s,
                Err(m) => r matches Err(e) && e@ == "YAML: "@ + m,
            },
    }
}

proof fn lemma_resolved<D: Device>(document: Seq<char>, r: Result<String, String>)
    requires
        text::outcome(r) == handle::resolved_text::<D>(document),
    ensures
        resolves_text::<D>(document, r),
{
    if let Ok(t) = yaml::parsed(document) {
        naming::lemma_rewritten_everywhere(t, D::table(), D::value_catalogs(), Direction::Resolve);
        let u = crate::resolve::rewritten(t, D::table(), D::value_catalogs(), Direction::Resolve);
        assert(naming::is_rewriting(t, u, D::table(), D::value_catalogs(), Direction::Resolve));
    }
}

/// Resolving the names of a document.
pub proof fn lemma_names_resolved<D: Device>(h: DeviceHandle<D>, document: &str, r: Result<String, String>)
    requires
        call_ensures(DeviceHandle::<D>::resolve_names, (&h, document), r),
    ensures
        resolves_text::<D>(document@, r),
{
    lemma_resolved::<D>(document@, r);
}

/// The tool resolves the document of its arguments.
pub proof fn lemma_resolve_tool<D: Device>(h: DeviceHandle<D>, args: ResolveNamesArgs, r: Result<String, String>)
    requires
        call_ensures(tools::resolve_names::<D>, (&h, &args), r),
    ensures
        resolves_text::<D>(args.document@, r),
{
    lemma_resolved::<D>(args.document@, r);
}

// === the server ===

/// A server goes by the name of its device, starts with no port on device number
/// nought, free to write, and takes on the configuration that it is given.
pub proof fn lemma_server<D: Device>(
    h: DeviceHandle<D>,
    name: &'static str,
    server: String,
    list: &'static [Area],
    fresh: DeviceHandle<D>,
    config: MidiConfig,
    set: DeviceHandle<D>,
    given: &MidiConfig,
)
    requires
        call_ensures(DeviceHandle::<D>::name, (&h,), name),
        call_ensures(DeviceHandle::<D>::server_name, (&h,), server),
        call_ensures(DeviceHandle::<D>::areas, (&h,), list),
        call_ensures(DeviceHandle::<D>::of, (), fresh),
        call_ensures(DeviceHandle::<D>::with_midi, (h, config), set),
        call_ensures(DeviceHandle::<D>::midi, (&set,), given),
    ensures
        name@ == D::NAME@,
        server@ == D::NAME@ + "-mcp"@,
        list@ == D::area_list(),
        fresh.config().input_port is None && fresh.config().output_port is None,
        fresh.config().device == 0 && !fresh.config().read_only,
        *given == config,
{
}

/// What a server says on connecting names its device and its areas, and tells a
/// server that will not write, one that has no port and one that can write apart.
pub proof fn lemma_instructions<D: Device>(h: DeviceHandle<D>, r: String, names: Seq<Seq<char>>)
    requires
        call_ensures(DeviceHandle::<D>::instructions, (&h,), r),
        names.len() == D::area_list().len(),
        forall|i: int| 0 <= i < names.len() ==> #[trigger] names[i] == D::area_list()[i].name@,
    ensures
        ({
            let hint = if h.config().read_only {
                "This server is read-only: `dump` works, but it will not write to the device."@
            } else if h.config().input_port is None {
                "No MIDI port is configured, so `dump`/`sync` are unavailable; run `list_ports` and restart the server with --port."@
            } else {
                "`dump` reads the device's current state and `sync` writes it back — that is how you edit the patch the user has loaded right now. `sync` touches working memory only, which a power cycle discards; pass `store` solely when the user asks to save to a slot, since that overwrites it permanently."@
            };
            r@ == "Authoring tools for the "@ + D::NAME@ + " MIDI device. Editable areas: "@ + text::joined(names, ", "@)
                + ".\n\nStart with `describe_device`. To build a preset: read the `defaults://<area>` resource for a baseline, use `search_params` and `get_catalog` to choose values *by name*, call `resolve_names` to turn those names into numbers, then `validate` to confirm it encodes. `schema://<area>` gives the JSON Schema.\n\n"@
                + hint
        }),
{
    assert(names =~= device::area_names(D::area_list()));
}

}
