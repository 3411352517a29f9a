//! Searching a device's parameters and paging through its catalogs.
//!
//! A device's catalog bundle is large, so it is something to *query*: an answer
//! says how much matched, and holds one page of it.

use vstd::prelude::*;
use vstd::string::*;

use crate::json;
use crate::meta::{self, Form, ParamMeta, Params};
use crate::text::{self, contains, lowercase, same_ignoring_ascii_case};
use crate::value::{self, record, Doc, Tree};

verus! {

// === pages ===

/// The page of `s` that skips `offset` items and has at most `limit`.
pub open spec fn page_of<A>(s: Seq<A>, offset: nat, limit: nat) -> Seq<A> {
    let from = if offset <= s.len() { offset as int } else { s.len() as int };
    let to = if from + limit <= s.len() { from + limit } else { s.len() as int };
    s.subrange(from, to)
}

/// One item more goes on the page where it is not before it and the page is not
/// full.
proof fn lemma_page_push<A>(s: Seq<A>, x: A, offset: nat, limit: nat)
    ensures
        page_of(s.push(x), offset, limit) == (if s.len() >= offset && page_of(s, offset, limit).len() < limit {
            page_of(s, offset, limit).push(x)
        } else {
            page_of(s, offset, limit)
        }),
{
    if s.len() >= offset && page_of(s, offset, limit).len() < limit {
        assert(page_of(s.push(x), offset, limit) =~= page_of(s, offset, limit).push(x));
    } else {
        assert(page_of(s.push(x), offset, limit) =~= page_of(s, offset, limit));
    }
}

/// The text that a parameter is searched by.
pub open spec fn haystack(m: ParamMeta) -> Seq<char> {
    m.path@ + " "@ + m.label@ + " "@ + m.group@ + " "@ + m.help@
}

/// A text contains another, ignoring case.
pub open spec fn mentions(hay: Seq<char>, needle: Seq<char>) -> bool {
    text::contains_text(text::lowercase_text(hay), text::lowercase_text(needle))
}

/// A parameter is of the group asked for and mentions what is asked for.
pub open spec fn selected(m: ParamMeta, query: Option<Seq<char>>, group: Option<Seq<char>>) -> bool {
    &&& group matches Some(g) ==> text::equal_but_ascii_case(m.group@, g)
    &&& query matches Some(q) ==> mentions(haystack(m), q)
}

/// The answer to a search: how many parameters match, and the first `limit` of
/// them.
pub open spec fn search_result(
    table: Seq<ParamMeta>,
    query: Option<Seq<char>>,
    group: Option<Seq<char>>,
    limit: nat,
) -> Tree {
    let matched = table.filter(|m: ParamMeta| selected(m, query, group));
    let page = page_of(matched, 0, limit);
    value::record_tree(
        seq![
            ("total"@, value::count_tree(matched.len())),
            ("returned"@, value::count_tree(page.len())),
            ("truncated"@, Tree::Bool(matched.len() > page.len())),
            ("params"@, Tree::Sequence(meta::meta_trees(page, Form::Json))),
        ],
    )
}

/// Whether a parameter is of the group asked for and mentions what is asked for.
fn is_selected(m: &ParamMeta, query: Option<&str>, group: Option<&str>) -> (r: bool)
    ensures
        r == selected(*m, text::text_behind(query), text::text_behind(group)),
{
    if let Some(g) = group {
        if !same_ignoring_ascii_case(m.group, g) {
            return false;
        }
    }
    if let Some(q) = query {
        let mut hay = m.path.to_owned();
        hay.append(" ");
        hay.append(m.label);
        hay.append(" ");
        hay.append(m.group);
        hay.append(" ");
        hay.append(m.help);
        return contains(lowercase(hay.as_str()).as_str(), lowercase(q).as_str());
    }
    true
}

/// A catalog entry mentions what is asked for in its JSON form.
pub open spec fn entry_mentions(e: Tree, filter: Option<Seq<char>>) -> bool {
    filter matches Some(n) ==> mentions(
        match json::json_line(e) {
            Some(s) => s,
            None => seq![],
        },
        n,
    )
}

fn does_mention(e: &Doc, filter: Option<&str>) -> (r: bool)
    ensures
        r == entry_mentions(e@, text::text_behind(filter)),
{
    match filter {
        Some(n) => {
            let line = match json::line(e) {
                Some(s) => s,
                None => {
                    let empty = String::new();
                    assert(empty@ =~= seq![]);
                    empty
                },
            };
            contains(lowercase(line.as_str()).as_str(), lowercase(n).as_str())
        },
        None => true,
    }
}

/// One page of a catalog: the entries that match, past `offset` and at most
/// `limit` of them.
pub open spec fn catalog_page(
    name: Seq<char>,
    entries: Seq<Tree>,
    filter: Option<Seq<char>>,
    limit: nat,
    offset: nat,
) -> Tree {
    let matched = entries.filter(|e: Tree| entry_mentions(e, filter));
    let page = page_of(matched, offset, limit);
    value::record_tree(
        seq![
            ("catalog"@, Tree::Text(name)),
            ("total"@, value::count_tree(matched.len())),
            ("offset"@, value::count_tree(offset)),
            ("returned"@, value::count_tree(page.len())),
            ("truncated"@, Tree::Bool(offset + page.len() < matched.len())),
            ("entries"@, Tree::Sequence(page)),
        ],
    )
}

/// How an unknown catalog reads.
pub open spec fn unknown_catalog_text(name: Seq<char>, names: Seq<Seq<char>>) -> Seq<char> {
    "unknown catalog "@ + text::quoted_text(name) + " (available: "@ + text::joined(names, ", "@) + ")"@
}

/// One page of a catalog's entries.
pub fn page_catalog(name: &str, entries: &Vec<Doc>, filter: Option<&str>, limit: usize, offset: usize) -> (r: Doc)
    ensures
        r@ == catalog_page(name@, value::trees(entries@), text::text_behind(filter), limit as nat, offset as nat),
{
    broadcast use value::lemma_sequence_view;

    let ghost all = value::trees(entries@);
    let ghost wanted = text::text_behind(filter);
    let ghost pred = |e: Tree| entry_mentions(e, wanted);
    let mut page: Vec<Doc> = Vec::new();
    let mut total: usize = 0;
    let mut i: usize = 0;
    proof {
        reveal(Seq::filter);
        assert(all.take(0).filter(pred) =~= Seq::<Tree>::empty());
        assert(value::trees(page@) =~= page_of(all.take(0).filter(pred), offset as nat, limit as nat));
    }
    while i < entries.len()
        invariant
            i <= entries@.len(),
            all == value::trees(entries@),
            wanted == text::text_behind(filter),
            pred == (|e: Tree| entry_mentions(e, wanted)),
            total == all.take(i as int).filter(pred).len(),
            total <= i,
            value::trees(page@) == page_of(all.take(i as int).filter(pred), offset as nat, limit as nat),
        decreases entries@.len() - i,
    {
        let ghost so_far = all.take(i as int).filter(pred);
        let ghost e = all[i as int];
        proof {
            reveal(Seq::filter);
            assert(all.take(i + 1).drop_last() =~= all.take(i as int));
            lemma_page_push(so_far, e, offset as nat, limit as nat);
        }
        if does_mention(&entries[i], filter) {
            if total >= offset && page.len() < limit {
                let ghost before = value::trees(page@);
                page.push(entries[i].clone());
                assert(value::trees(page@) =~= before.push(e));
            }
            total += 1;
        }
        i += 1;
    }
    assert(all.take(i as int) =~= all);
    let returned: usize = page.len();
    let truncated: bool = offset < total && returned < total - offset;
    let fields: Vec<(&str, Doc)> = vec![
        ("catalog", Doc::text(name)),
        ("total", Doc::count(total)),
        ("offset", Doc::count(offset)),
        ("returned", Doc::count(returned)),
        ("truncated", Doc::Bool(truncated)),
        ("entries", Doc::Sequence(page)),
    ];
    proof {
        reveal_strlit("catalog");
        reveal_strlit("total");
        reveal_strlit("offset");
        reveal_strlit("returned");
        reveal_strlit("truncated");
        reveal_strlit("entries");
        assert("catalog"@[0] != "entries"@[0]);
        assert("catalog"@.len() == 7 && "total"@.len() == 5 && "offset"@.len() == 6 && "returned"@.len() == 8
            && "truncated"@.len() == 9 && "entries"@.len() == 7);
        let matched = all.filter(pred);
        let shown = page_of(matched, offset as nat, limit as nat);
        assert(shown.len() == returned);
        assert(truncated == (offset + shown.len() < matched.len()));
        assert(value::field_trees(fields@) =~= seq![
            ("catalog"@, Tree::Text(name@)),
            ("total"@, value::count_tree(matched.len())),
            ("offset"@, value::count_tree(offset as nat)),
            ("returned"@, value::count_tree(shown.len())),
            ("truncated"@, Tree::Bool(offset + shown.len() < matched.len())),
            ("entries"@, Tree::Sequence(shown)),
        ]);
    }
    record(fields)
}

/// Search a parameter table.
pub fn search_table(params: &Params, query: Option<&str>, group: Option<&str>, limit: usize) -> (r: Doc)
    ensures
        r@ == search_result(params.0@, text::text_behind(query), text::text_behind(group), limit as nat),
{
    broadcast use value::lemma_sequence_view;

    let table = params.as_slice();
    let ghost q = text::text_behind(query);
    let ghost g = text::text_behind(group);
    let ghost pred = |m: ParamMeta| selected(m, q, g);
    let mut found: Vec<Doc> = Vec::new();
    let mut total: usize = 0;
    let mut i: usize = 0;
    proof {
        reveal(Seq::filter);
        assert(table@.take(0).filter(pred) =~= Seq::<ParamMeta>::empty());
        assert(value::trees(found@) =~= meta::meta_trees(page_of(table@.take(0).filter(pred), 0, limit as nat), Form::Json));
    }
    while i < table.len()
        invariant
            i <= table@.len(),
            q == text::text_behind(query),
            g == text::text_behind(group),
            pred == (|m: ParamMeta| selected(m, q, g)),
            total == table@.take(i as int).filter(pred).len(),
            total <= i,
            value::trees(found@) == meta::meta_trees(page_of(table@.take(i as int).filter(pred), 0, limit as nat), Form::Json),
        decreases table@.len() - i,
    {
        let ghost so_far = table@.take(i as int).filter(pred);
        let ghost m = table@[i as int];
        proof {
            reveal(Seq::filter);
            assert(table@.take(i + 1).drop_last() =~= table@.take(i as int));
            lemma_page_push(so_far, m, 0, limit as nat);
            assert(value::trees(found@).len() == page_of(so_far, 0, limit as nat).len());
        }
        if is_selected(&table[i], query, group) {
            if found.len() < limit {
                let ghost before = value::trees(found@);
                found.push(table[i].to_value(Form::Json));
                assert(value::trees(found@) =~= before.push(meta::meta_tree(m, Form::Json)));
                assert(meta::meta_trees(page_of(so_far, 0, limit as nat).push(m), Form::Json) =~= before.push(meta::meta_tree(m, Form::Json)));
            }
            total += 1;
        }
        i += 1;
    }
    assert(table@.take(i as int) =~= table@);
    let returned: usize = found.len();
    let fields: Vec<(&str, Doc)> = vec![
        ("total", Doc::count(total)),
        ("returned", Doc::count(returned)),
        ("truncated", Doc::Bool(total > returned)),
        ("params", Doc::Sequence(found)),
    ];
    proof {
        reveal_strlit("total");
        reveal_strlit("returned");
        reveal_strlit("truncated");
        reveal_strlit("params");
        assert("total"@.len() == 5 && "returned"@.len() == 8 && "truncated"@.len() == 9 && "params"@.len() == 6);
        let matched = table@.filter(pred);
        let page = page_of(matched, 0, limit as nat);
        assert(meta::meta_trees(page, Form::Json).len() == page.len());
        assert(value::field_trees(fields@) =~= seq![
            ("total"@, value::count_tree(matched.len())),
            ("returned"@, value::count_tree(page.len())),
            ("truncated"@, Tree::Bool(matched.len() > page.len())),
            ("params"@, Tree::Sequence(meta::meta_trees(page, Form::Json))),
        ]);
    }
    record(fields)
}

// === laws ===

/// A page has at most as many items as asked for, and leaves some out only where
/// there are more.
pub proof fn lemma_page_size<A>(s: Seq<A>, offset: nat, limit: nat)
    ensures
        page_of(s, offset, limit).len() <= limit,
        offset + limit <= s.len() ==> page_of(s, offset, limit).len() == limit,
        offset <= s.len() < offset + limit ==> page_of(s, offset, limit).len() == s.len() - offset,
        offset >= s.len() ==> page_of(s, offset, limit).len() == 0,
        offset + page_of(s, offset, limit).len() < s.len() <==> offset + limit < s.len(),
{
}

/// Two pages that follow each other are one longer page, so paging through misses
/// nothing and shows nothing twice.
pub proof fn lemma_pages_follow<A>(s: Seq<A>, offset: nat, first: nat, second: nat)
    ensures
        page_of(s, offset, first) + page_of(s, offset + first, second) == page_of(s, offset, first + second),
        page_of(s, 0, s.len()) == s,
{
    assert(page_of(s, offset, first) + page_of(s, offset + first, second) =~= page_of(s, offset, first + second));
    assert(page_of(s, 0, s.len()) =~= s);
}

/// A search for nothing in particular finds every parameter, in table order.
pub proof fn lemma_search_all(table: Seq<ParamMeta>)
    ensures
        table.filter(|m: ParamMeta| selected(m, None, None)) == table,
    decreases table.len(),
{
    reveal(Seq::filter);
    if table.len() > 0 {
        lemma_search_all(table.drop_last());
        assert(table.drop_last().push(table.last()) =~= table);
    }
}

}
