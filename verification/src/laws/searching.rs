//! Searching parameters and paging through catalogs: what is found, and which part
//! of it an answer holds.

use vstd::prelude::*;

use crate::catalog::Catalogs;
use crate::device::Device;
use crate::handle::{self, DeviceHandle};
use crate::json;
use crate::laws::metadata;
use crate::laws::terms;
use crate::meta::{self, Form, ParamMeta, Params};
use crate::search::{self, page_catalog, search_table};
use crate::text;
use crate::tools::{self, GetCatalogArgs, SearchParamsArgs};
use crate::value::{self, Doc, Tree};

verus! {

// === parameters ===

/// The words of a parameter: its path, label, group and help.
pub open spec fn words(m: ParamMeta) -> Seq<char> {
    m.path@ + " "@ + m.label@ + " "@ + m.group@ + " "@ + m.help@
}

/// A parameter is wanted: it is of the group asked for, if one is, and its words
/// speak of what is asked for, if anything is.
pub open spec fn wanted(m: ParamMeta, query: Option<Seq<char>>, group: Option<Seq<char>>) -> bool {
    &&& group matches Some(g) ==> terms::same_letters(m.group@, g)
    &&& query matches Some(q) ==> terms::speaks_of(words(m), q)
}

/// `r` answers a search: it counts the parameters that are wanted, and holds the
/// first `limit` of them.
pub open spec fn answers_search(
    r: Tree,
    table: Seq<ParamMeta>,
    query: Option<Seq<char>>,
    group: Option<Seq<char>>,
    limit: int,
    hits: Seq<int>,
) -> bool {
    let returned = terms::least(limit, hits.len() as int);
    &&& terms::picks(table, |m: ParamMeta| wanted(m, query, group), hits)
    &&& terms::has_keys(r, seq!["total"@, "returned"@, "truncated"@, "params"@])
    &&& value::field(r, "total"@) == Some(terms::number(hits.len() as int))
    &&& value::field(r, "returned"@) == Some(terms::number(returned))
    &&& value::field(r, "truncated"@) == Some(Tree::Bool(returned < hits.len()))
    &&& value::field(r, "params"@) matches Some(Tree::Sequence(list))
    &&& list.len() == returned
    &&& forall|k: int| 0 <= k < returned ==> metadata::tells_param(#[trigger] list[k], table[hits[k]], Form::Json)
}

proof fn lemma_selected(m: ParamMeta, query: Option<Seq<char>>, group: Option<Seq<char>>)
    ensures
        search::selected(m, query, group) == wanted(m, query, group),
{
    if let Some(g) = group {
        terms::lemma_ascii_case(m.group@, g);
    }
    if let Some(q) = query {
        assert(search::haystack(m) =~= words(m));
        terms::lemma_contains(text::lowercase_text(words(m)), text::lowercase_text(q));
    }
}

proof fn lemma_search_result(table: Seq<ParamMeta>, query: Option<Seq<char>>, group: Option<Seq<char>>, limit: nat)
    ensures
        exists|hits: Seq<int>| #[trigger]
            answers_search(search::search_result(table, query, group, limit), table, query, group, limit as int, hits),
{
    let pred = |m: ParamMeta| search::selected(m, query, group);
    let r = search::search_result(table, query, group, limit);
    let hits = terms::lemma_filter_picks(table, pred);
    assert forall|m: ParamMeta| #[trigger] pred(m) == (|m: ParamMeta| wanted(m, query, group))(m) by {
        lemma_selected(m, query, group);
    }
    terms::lemma_picks_alike(table, pred, |m: ParamMeta| wanted(m, query, group), hits);
    let matched = table.filter(pred);
    let page = search::page_of(matched, 0, limit);
    terms::lemma_page_items(matched, 0, limit);
    let fields = seq![
        ("total"@, value::count_tree(matched.len())),
        ("returned"@, value::count_tree(page.len())),
        ("truncated"@, Tree::Bool(matched.len() > page.len())),
        ("params"@, Tree::Sequence(meta::meta_trees(page, Form::Json))),
    ];
    reveal_strlit("total");
    reveal_strlit("returned");
    reveal_strlit("truncated");
    reveal_strlit("params");
    assert("total"@.len() == 5 && "returned"@.len() == 8 && "truncated"@.len() == 9 && "params"@.len() == 6);
    value::lemma_record_field(fields, "total"@);
    value::lemma_record_field(fields, "returned"@);
    value::lemma_record_field(fields, "truncated"@);
    value::lemma_record_field(fields, "params"@);
    assert(fields[0].0 == "total"@ && fields[1].0 == "returned"@ && fields[2].0 == "truncated"@ && fields[3].0
        == "params"@);
    assert(r == value::record_tree(fields));
    let list = meta::meta_trees(page, Form::Json);
    assert forall|k: int| 0 <= k < list.len() implies metadata::tells_param(
        #[trigger] list[k],
        table[hits[k]],
        Form::Json,
    ) by {
        assert(page[k] == matched[k]);
        assert(matched[k] == table[hits[k]]);
        metadata::lemma_param_told(page[k], Form::Json);
    }
    assert(answers_search(r, table, query, group, limit as int, hits));
}

/// A search counts every parameter that is wanted, and gives the first ones, each as
/// its metadata reads.
pub proof fn lemma_search_finds(params: Params, query: Option<&str>, group: Option<&str>, limit: usize, r: Doc)
    requires
        call_ensures(search_table, (&params, query, group, limit), r),
    ensures
        exists|hits: Seq<int>| #[trigger]
            answers_search(
                r@,
                params.0@,
                text::text_behind(query),
                text::text_behind(group),
                limit as int,
                hits,
            ),
{
    lemma_search_result(params.0@, text::text_behind(query), text::text_behind(group), limit as nat);
}

/// A device is searched by its parameter table.
pub proof fn lemma_device_searched<D: Device>(
    h: DeviceHandle<D>,
    query: Option<&str>,
    group: Option<&str>,
    limit: usize,
    r: Doc,
)
    requires
        call_ensures(DeviceHandle::<D>::search_params, (&h, query, group, limit), r),
    ensures
        exists|hits: Seq<int>| #[trigger]
            answers_search(
                r@,
                D::table(),
                text::text_behind(query),
                text::text_behind(group),
                limit as int,
                hits,
            ),
{
    lemma_search_result(D::table(), text::text_behind(query), text::text_behind(group), limit as nat);
}

/// The number given, or fifty.
pub open spec fn or_fifty(given: Option<usize>) -> int {
    match given {
        Some(n) => n as int,
        None => 50,
    }
}

/// The number given, or nought.
pub open spec fn or_nought(given: Option<usize>) -> int {
    match given {
        Some(n) => n as int,
        None => 0,
    }
}

/// The search tool asks for what its arguments say, and for fifty at most where they
/// say nothing.
pub proof fn lemma_search_tool<D: Device>(h: DeviceHandle<D>, args: SearchParamsArgs, r: Doc)
    requires
        call_ensures(tools::search_params::<D>, (&h, &args), r),
    ensures
        exists|hits: Seq<int>| #[trigger]
            answers_search(
                r@,
                D::table(),
                text::text_in(args.query),
                text::text_in(args.group),
                or_fifty(args.limit),
                hits,
            ),
{
    let limit = match args.limit {
        Some(n) => n as nat,
        None => 50,
    };
    lemma_search_result(D::table(), text::text_in(args.query), text::text_in(args.group), limit);
    assert(limit as int == or_fifty(args.limit));
    assert(limit == tools::or_else(args.limit, tools::DEFAULT_LIMIT));
}

/// Lower case does not look past a space: a text with a space in it has the lower
/// case of the parts on both sides of it.
pub open spec fn spaces_part() -> bool {
    forall|a: Seq<char>, b: Seq<char>| #[trigger]
        text::lowercase_text(a + " "@ + b) == text::lowercase_text(a) + " "@ + text::lowercase_text(b)
}

/// Searching for anything that stands in a parameter's path, its label, its group or
/// its help finds the parameter, where no group is asked for or its own is. So a
/// parameter is found by its own path.
pub proof fn lemma_own_words_found(m: ParamMeta, query: Seq<char>)
    requires
        spaces_part(),
        terms::speaks_of(m.path@, query) || terms::speaks_of(m.label@, query) || terms::speaks_of(m.group@, query)
            || terms::speaks_of(m.help@, query),
    ensures
        search::selected(m, Some(query), None),
        search::selected(m, Some(query), Some(m.group@)),
        terms::speaks_of(m.path@, m.path@),
{
    let q = text::lowercase_text(query);
    let path = text::lowercase_text(m.path@);
    let label = text::lowercase_text(m.label@);
    let group = text::lowercase_text(m.group@);
    let help = text::lowercase_text(m.help@);
    let space = " "@;
    let whole = text::lowercase_text(words(m));
    assert(words(m) =~= (m.path@ + space + m.label@ + space + m.group@) + space + m.help@);
    assert(m.path@ + space + m.label@ + space + m.group@ =~= (m.path@ + space + m.label@) + space + m.group@);
    assert(whole =~= path + space + label + space + group + space + help);
    if terms::speaks_of(m.path@, query) {
        let (a, b) = choose|a: Seq<char>, b: Seq<char>| path == #[trigger] (a + q + b);
        assert(whole =~= a + q + (b + space + label + space + group + space + help));
    }
    if terms::speaks_of(m.label@, query) {
        let (a, b) = choose|a: Seq<char>, b: Seq<char>| label == #[trigger] (a + q + b);
        assert(whole =~= (path + space + a) + q + (b + space + group + space + help));
    }
    if terms::speaks_of(m.group@, query) {
        let (a, b) = choose|a: Seq<char>, b: Seq<char>| group == #[trigger] (a + q + b);
        assert(whole =~= (path + space + label + space + a) + q + (b + space + help));
    }
    if terms::speaks_of(m.help@, query) {
        let (a, b) = choose|a: Seq<char>, b: Seq<char>| help == #[trigger] (a + q + b);
        assert(whole =~= (path + space + label + space + group + space + a) + q + b);
    }
    lemma_selected(m, Some(query), None);
    lemma_selected(m, Some(query), Some(m.group@));
    let none = Seq::<char>::empty();
    assert(path =~= none + path + none);
}

/// Asking for more can only find fewer: what a query with a group finds, the query
/// alone finds, and the group alone.
pub proof fn lemma_search_narrows(m: ParamMeta, query: Seq<char>, group: Seq<char>)
    ensures
        search::selected(m, Some(query), Some(group)) <==> search::selected(m, Some(query), None) && search::selected(
            m,
            None,
            Some(group),
        ),
        search::selected(m, None, None),
        search::selected(m, None, Some(group)) <==> terms::same_letters(m.group@, group),
{
    lemma_selected(m, None, Some(group));
}

// === catalogs ===

/// A catalog entry is wanted: its JSON form speaks of what is asked for, if anything
/// is.
pub open spec fn entry_wanted(e: Tree, filter: Option<Seq<char>>) -> bool {
    filter matches Some(n) ==> terms::speaks_of(
        match json::json_line(e) {
            Some(s) => s,
            None => Seq::<char>::empty(),
        },
        n,
    )
}

/// `hits` are the positions of the entries that are wanted.
pub open spec fn wanted_entries(entries: Seq<Tree>, filter: Option<Seq<char>>, hits: Seq<int>) -> bool {
    terms::picks(entries, |e: Tree| entry_wanted(e, filter), hits)
}

/// How many of `total` items are on a page of `limit` items from `offset` on.
pub open spec fn on_page(total: int, limit: int, offset: int) -> int {
    if offset >= total {
        0
    } else {
        terms::least(limit, total - offset)
    }
}

/// `r` answers for one page of a catalog: of the entries that are wanted, in catalog
/// order, it holds those from position `offset` on, `limit` at most.
pub open spec fn answers_page(
    r: Tree,
    name: Seq<char>,
    entries: Seq<Tree>,
    filter: Option<Seq<char>>,
    limit: int,
    offset: int,
    hits: Seq<int>,
) -> bool {
    let returned = on_page(hits.len() as int, limit, offset);
    &&& wanted_entries(entries, filter, hits)
    &&& terms::has_keys(r, seq!["catalog"@, "total"@, "offset"@, "returned"@, "truncated"@, "entries"@])
    &&& value::field(r, "catalog"@) == Some(Tree::Text(name))
    &&& value::field(r, "total"@) == Some(terms::number(hits.len() as int))
    &&& value::field(r, "offset"@) == Some(terms::number(offset))
    &&& value::field(r, "returned"@) == Some(terms::number(returned))
    &&& value::field(r, "truncated"@) == Some(Tree::Bool(offset + returned < hits.len()))
    &&& value::field(r, "entries"@) matches Some(Tree::Sequence(list))
    &&& list.len() == returned
    &&& forall|k: int| 0 <= k < returned ==> #[trigger] list[k] == entries[hits[offset + k]]
}

proof fn lemma_entry_wanted(e: Tree, filter: Option<Seq<char>>)
    ensures
        search::entry_mentions(e, filter) == entry_wanted(e, filter),
{
    if let Some(n) = filter {
        let line = match json::json_line(e) {
            Some(s) => s,
            None => Seq::<char>::empty(),
        };
        terms::lemma_contains(text::lowercase_text(line), text::lowercase_text(n));
    }
}

proof fn lemma_page_fields(name: Seq<char>, entries: Seq<Tree>, filter: Option<Seq<char>>, limit: nat, offset: nat)
    ensures
        ({
            let r = search::catalog_page(name, entries, filter, limit, offset);
            let matched = entries.filter(|e: Tree| search::entry_mentions(e, filter));
            let page = search::page_of(matched, offset, limit);
            &&& value::field(r, "catalog"@) == Some(Tree::Text(name))
            &&& value::field(r, "total"@) == Some(terms::number(matched.len() as int))
            &&& value::field(r, "offset"@) == Some(terms::number(offset as int))
            &&& value::field(r, "returned"@) == Some(terms::number(page.len() as int))
            &&& value::field(r, "truncated"@) == Some(Tree::Bool(offset + page.len() < matched.len()))
            &&& value::field(r, "entries"@) == Some(Tree::Sequence(page))
            &&& terms::has_keys(r, seq!["catalog"@, "total"@, "offset"@, "returned"@, "truncated"@, "entries"@])
        }),
{
    let r = search::catalog_page(name, entries, filter, limit, offset);
    let matched = entries.filter(|e: Tree| search::entry_mentions(e, filter));
    let page = search::page_of(matched, offset, limit);
    let fields = seq![
        ("catalog"@, Tree::Text(name)),
        ("total"@, value::count_tree(matched.len())),
        ("offset"@, value::count_tree(offset)),
        ("returned"@, value::count_tree(page.len())),
        ("truncated"@, Tree::Bool(offset + page.len() < matched.len())),
        ("entries"@, Tree::Sequence(page)),
    ];
    reveal_strlit("catalog");
    reveal_strlit("total");
    reveal_strlit("offset");
    reveal_strlit("returned");
    reveal_strlit("truncated");
    reveal_strlit("entries");
    assert("catalog"@[0] != "entries"@[0]);
    assert("catalog"@.len() == 7 && "total"@.len() == 5 && "offset"@.len() == 6 && "returned"@.len() == 8
        && "truncated"@.len() == 9 && "entries"@.len() == 7);
    value::lemma_record_field(fields, "catalog"@);
    value::lemma_record_field(fields, "total"@);
    value::lemma_record_field(fields, "offset"@);
    value::lemma_record_field(fields, "returned"@);
    value::lemma_record_field(fields, "truncated"@);
    value::lemma_record_field(fields, "entries"@);
    assert(fields[0].0 == "catalog"@ && fields[1].0 == "total"@ && fields[2].0 == "offset"@ && fields[3].0
        == "returned"@ && fields[4].0 == "truncated"@ && fields[5].0 == "entries"@);
    assert(r == value::record_tree(fields));
}

proof fn lemma_catalog_page(name: Seq<char>, entries: Seq<Tree>, filter: Option<Seq<char>>, limit: nat, offset: nat)
    ensures
        exists|hits: Seq<int>| #[trigger]
            answers_page(
                search::catalog_page(name, entries, filter, limit, offset),
                name,
                entries,
                filter,
                limit as int,
                offset as int,
                hits,
            ),
{
    let pred = |e: Tree| search::entry_mentions(e, filter);
    let hits = terms::lemma_filter_picks(entries, pred);
    assert forall|e: Tree| #[trigger] pred(e) == (|e: Tree| entry_wanted(e, filter))(e) by {
        lemma_entry_wanted(e, filter);
    }
    terms::lemma_picks_alike(entries, pred, |e: Tree| entry_wanted(e, filter), hits);
    let matched = entries.filter(pred);
    let page = search::page_of(matched, offset, limit);
    terms::lemma_page_items(matched, offset, limit);
    lemma_page_fields(name, entries, filter, limit, offset);
    assert forall|k: int| 0 <= k < page.len() implies #[trigger] page[k] == entries[hits[offset + k]] by {
        assert(page[k] == matched[offset + k]);
        assert(matched[offset + k] == entries[hits[offset + k]]);
    }
    assert(answers_page(
        search::catalog_page(name, entries, filter, limit, offset),
        name,
        entries,
        filter,
        limit as int,
        offset as int,
        hits,
    ));
}

/// A page of a catalog holds the wanted entries from its offset on, with a filter as
/// without one.
pub proof fn lemma_page_given(
    name: &str,
    entries: Vec<Doc>,
    filter: Option<&str>,
    limit: usize,
    offset: usize,
    r: Doc,
)
    requires
        call_ensures(page_catalog, (name, &entries, filter, limit, offset), r),
    ensures
        exists|hits: Seq<int>| #[trigger]
            answers_page(
                r@,
                name@,
                value::trees(entries@),
                text::text_behind(filter),
                limit as int,
                offset as int,
                hits,
            ),
{
    lemma_catalog_page(name@, value::trees(entries@), text::text_behind(filter), limit as nat, offset as nat);
}

/// The list that a device has under a catalog's name, in the JSON form of its
/// catalogs.
pub open spec fn catalog_list<D: Device>(name: Seq<char>) -> Option<Seq<Tree>> {
    match json::json_of(D::value_catalogs().contents()) {
        Some(all) => match value::field(all, name) {
            Some(t) => match terms::bare(t) {
                Tree::Sequence(list) => Some(list),
                _ => None,
            },
            None => None,
        },
        None => None,
    }
}

/// A device's catalog of that name is the list that its catalogs hold under it.
pub proof fn lemma_catalog_list<D: Device>(name: Seq<char>)
    ensures
        handle::catalog_entries(handle::json_catalogs::<D>(), name) == catalog_list::<D>(name),
{
    if let Some(t) = value::field(handle::json_catalogs::<D>(), name) {
        terms::lemma_bare(t);
    }
}

/// Asking for a catalog gives one page of it, or says that there is none of that name
/// and which there are.
pub proof fn lemma_catalog_asked<D: Device>(
    h: DeviceHandle<D>,
    name: &str,
    filter: Option<&str>,
    limit: usize,
    offset: usize,
    r: Result<Doc, String>,
)
    requires
        call_ensures(DeviceHandle::<D>::get_catalog, (&h, name, filter, limit, offset), r),
    ensures
        match catalog_list::<D>(name@) {
            Some(list) => r matches Ok(doc) && exists|hits: Seq<int>| #[trigger]
                answers_page(doc@, name@, list, text::text_behind(filter), limit as int, offset as int, hits),
            None => r matches Err(m) && m@ == "unknown catalog "@ + text::quoted_text(name@) + " (available: "@
                + text::joined(D::value_catalogs().catalog_names(), ", "@) + ")"@,
        },
{
    lemma_catalog_list::<D>(name@);
    if let Some(list) = catalog_list::<D>(name@) {
        lemma_catalog_page(name@, list, text::text_behind(filter), limit as nat, offset as nat);
    }
}

/// The catalog tool asks for what its arguments say, and for the first fifty where
/// they say nothing.
pub proof fn lemma_catalog_tool<D: Device>(h: DeviceHandle<D>, args: GetCatalogArgs, r: Result<Doc, String>)
    requires
        call_ensures(tools::get_catalog::<D>, (&h, &args), r),
    ensures
        match catalog_list::<D>(args.name@) {
            Some(list) => r matches Ok(doc) && exists|hits: Seq<int>| #[trigger]
                answers_page(
                    doc@,
                    args.name@,
                    list,
                    text::text_in(args.filter),
                    or_fifty(args.limit),
                    or_nought(args.offset),
                    hits,
                ),
            None => r is Err,
        },
{
    lemma_catalog_list::<D>(args.name@);
    let limit = match args.limit {
        Some(n) => n as nat,
        None => 50,
    };
    let offset = match args.offset {
        Some(n) => n as nat,
        None => 0,
    };
    if let Some(list) = catalog_list::<D>(args.name@) {
        lemma_catalog_page(args.name@, list, text::text_in(args.filter), limit, offset);
        assert(limit as int == or_fifty(args.limit) && offset as int == or_nought(args.offset));
        assert(limit == tools::or_else(args.limit, tools::DEFAULT_LIMIT) && offset == tools::or_else(args.offset, 0));
    }
}

/// The entries that an answer holds.
pub open spec fn listed(r: Tree) -> Seq<Tree> {
    match value::field(r, "entries"@) {
        Some(Tree::Sequence(list)) => list,
        _ => seq![],
    }
}

/// The entries that some answers hold, one after the other.
pub open spec fn all_listed(answers: Seq<Doc>) -> Seq<Tree>
    decreases answers.len(),
{
    if answers.len() == 0 {
        seq![]
    } else {
        all_listed(answers.drop_last()) + listed(answers.last()@)
    }
}

proof fn lemma_pages_so_far<D: Device>(
    h: DeviceHandle<D>,
    name: &str,
    filter: Option<&str>,
    limit: usize,
    offsets: Seq<usize>,
    answers: Seq<Doc>,
    list: Seq<Tree>,
)
    requires
        catalog_list::<D>(name@) == Some(list),
        offsets.len() == answers.len(),
        forall|k: int| 0 <= k < answers.len() ==> #[trigger] offsets[k] == k * limit,
        forall|k: int|
            0 <= k < answers.len() ==> call_ensures(
                DeviceHandle::<D>::get_catalog,
                (&h, name, filter, limit, #[trigger] offsets[k]),
                Ok(answers[k]),
            ),
    ensures
        all_listed(answers) == search::page_of(
            list.filter(|e: Tree| search::entry_mentions(e, text::text_behind(filter))),
            0,
            (answers.len() * limit) as nat,
        ),
    decreases answers.len(),
{
    let matched = list.filter(|e: Tree| search::entry_mentions(e, text::text_behind(filter)));
    lemma_catalog_list::<D>(name@);
    if answers.len() == 0 {
        assert(0 * limit == 0);
        assert(search::page_of(matched, 0, 0) =~= all_listed(answers));
    } else {
        let n = answers.len() - 1;
        let before = answers.drop_last();
        let early = offsets.drop_last();
        assert forall|k: int| 0 <= k < before.len() implies #[trigger] early[k] == k * limit by {
            assert(early[k] == offsets[k]);
        }
        assert forall|k: int| 0 <= k < before.len() implies call_ensures(
            DeviceHandle::<D>::get_catalog,
            (&h, name, filter, limit, #[trigger] early[k]),
            Ok(before[k]),
        ) by {
            assert(early[k] == offsets[k] && before[k] == answers[k]);
        }
        lemma_pages_so_far(h, name, filter, limit, early, before, list);
        assert(offsets[n] == n * limit);
        let doc = answers[n];
        assert(doc@ == search::catalog_page(
            name@,
            list,
            text::text_behind(filter),
            limit as nat,
            offsets[n] as nat,
        ));
        lemma_page_fields(name@, list, text::text_behind(filter), limit as nat, offsets[n] as nat);
        assert((n + 1) * limit == n * limit + limit) by (nonlinear_arith);
        assert(answers.len() * limit == n * limit + limit);
        search::lemma_pages_follow(matched, 0, (n * limit) as nat, limit as nat);
    }
}

/// Paging through misses nothing and shows nothing twice: the answers for the offsets
/// nought, `limit`, twice `limit` and so on, joined together, are all wanted entries
/// of the catalog, each once and in order, with a filter as without one.
pub proof fn lemma_pages_cover<D: Device>(
    h: DeviceHandle<D>,
    name: &str,
    filter: Option<&str>,
    limit: usize,
    offsets: Seq<usize>,
    answers: Seq<Doc>,
    list: Seq<Tree>,
)
    requires
        catalog_list::<D>(name@) == Some(list),
        offsets.len() == answers.len(),
        forall|k: int| 0 <= k < answers.len() ==> #[trigger] offsets[k] == k * limit,
        forall|k: int|
            0 <= k < answers.len() ==> call_ensures(
                DeviceHandle::<D>::get_catalog,
                (&h, name, filter, limit, #[trigger] offsets[k]),
                Ok(answers[k]),
            ),
        answers.len() * limit >= list.len(),
    ensures
        exists|hits: Seq<int>| #[trigger]
            wanted_entries(list, text::text_behind(filter), hits) && all_listed(answers)
                == terms::items_at(list, hits),
{
    let f = text::text_behind(filter);
    let pred = |e: Tree| search::entry_mentions(e, f);
    let hits = terms::lemma_filter_picks(list, pred);
    assert forall|e: Tree| #[trigger] pred(e) == (|e: Tree| entry_wanted(e, f))(e) by {
        lemma_entry_wanted(e, f);
    }
    terms::lemma_picks_alike(list, pred, |e: Tree| entry_wanted(e, f), hits);
    lemma_pages_so_far(h, name, filter, limit, offsets, answers, list);
    let matched = list.filter(pred);
    terms::lemma_picked_no_more(list, pred, hits);
    assert(search::page_of(matched, 0, (answers.len() * limit) as nat) =~= matched);
    assert(wanted_entries(list, f, hits));
}

}
