//! Names and numbers: which places of a document resolving and labelling change,
//! and into what.

use vstd::prelude::*;

use crate::catalog::Catalogs;
use crate::meta::{ParamMeta, Params};
use crate::resolve::{self, label_names, label_names_str, resolve_names, resolve_names_str, Direction};
use crate::text;
use crate::value::{self, Doc, Num, Tree};
use crate::yaml;

verus! {

// === places of a document ===

/// What stands one step down in a document: the value of entry `i` of a mapping, or
/// item `i` of a sequence.
pub open spec fn child(t: Tree, i: int) -> Option<Tree> {
    match t {
        Tree::Dict(entries) => if 0 <= i < entries.len() {
            Some(entries[i].1)
        } else {
            None
        },
        Tree::Sequence(items) => if 0 <= i < items.len() {
            Some(items[i])
        } else {
            None
        },
        _ => None,
    }
}

/// What stands at a place of a document: the place is given by one step after
/// another.
pub open spec fn at(t: Tree, path: Seq<int>) -> Option<Tree>
    decreases path.len(),
{
    if path.len() == 0 {
        Some(t)
    } else {
        match child(t, path[0]) {
            Some(c) => at(c, path.skip(1)),
            None => None,
        }
    }
}

// === which catalog a key draws on ===

/// The text of a key, tags aside.
pub open spec fn key_text(key: Tree) -> Option<Seq<char>>
    decreases key,
{
    match key {
        Tree::Text(s) => Some(s),
        Tree::Tagged(_, inner) => key_text(*inner),
        _ => None,
    }
}

/// `key` is all that stands behind the last `.` of a path.
pub open spec fn ends_in(path: Seq<char>, key: Seq<char>) -> bool {
    &&& !key.contains('.')
    &&& path == key || (path.len() > key.len() && path.skip(path.len() - key.len()) == key && path[path.len()
        - key.len() - 1] == '.')
}

/// A parameter's catalog, for a key that its path ends in.
pub open spec fn hints_at(m: ParamMeta, key: Seq<char>, cat: Seq<char>) -> bool {
    ends_in(m.path@, key) && (m.catalog matches Some(c) && c@ == cat)
}

/// A key draws on a catalog: some parameter whose path ends in the key names it, and
/// none of those names another.
pub open spec fn draws_on(table: Seq<ParamMeta>, key: Seq<char>, cat: Seq<char>) -> bool {
    &&& exists|i: int| 0 <= i < table.len() && hints_at(#[trigger] table[i], key, cat)
    &&& forall|i: int, other: Seq<char>|
        0 <= i < table.len() && #[trigger] hints_at(table[i], key, other) ==> other == cat
}

/// The key of an entry draws on a catalog.
pub open spec fn draws(table: Seq<ParamMeta>, key: Tree, cat: Seq<char>) -> bool {
    key_text(key) matches Some(s) && draws_on(table, s, cat)
}

/// Step `k` to a place goes to an entry whose key draws on a catalog.
pub open spec fn step_draws(t: Tree, path: Seq<int>, k: int, table: Seq<ParamMeta>, cat: Seq<char>) -> bool {
    at(t, path.take(k)) matches Some(Tree::Dict(e)) && 0 <= path[k] < e.len() && draws(table, e[path[k]].0, cat)
}

/// A place is governed by a catalog: step `d` of it goes to an entry whose key draws
/// on the catalog, no step before goes to an entry whose key draws on any, and from
/// there on it goes through sequences alone.
pub open spec fn governed(t: Tree, path: Seq<int>, d: int, table: Seq<ParamMeta>, cat: Seq<char>) -> bool {
    &&& 0 <= d < path.len()
    &&& forall|k: int, other: Seq<char>| 0 <= k < d ==> !#[trigger] step_draws(t, path, k, table, other)
    &&& step_draws(t, path, d, table, cat)
    &&& forall|k: int| d < k < path.len() ==> (#[trigger] at(t, path.take(k)) matches Some(Tree::Sequence(_)))
}

/// What a scalar becomes where a catalog governs its place: a name that the catalog
/// resolves its number, a number that the catalog labels its name, and anything else
/// itself.
pub open spec fn turned<C: Catalogs + ?Sized>(x: Tree, cat: Seq<char>, catalogs: &C, dir: Direction) -> Tree {
    match (dir, x) {
        (Direction::Resolve, Tree::Text(name)) => match catalogs.resolution(cat, name) {
            Some(n) => Tree::Numeral(Num::Int(n as int)),
            None => x,
        },
        (Direction::Label, Tree::Numeral(Num::Int(n))) => if i64::MIN <= n <= i64::MAX {
            match catalogs.labelling(cat, n as i64) {
                Some(name) => Tree::Text(name),
                None => x,
            }
        } else {
            x
        },
        _ => x,
    }
}

/// At a place, `r` is what rewriting `t` is to give there: mappings keep their keys
/// and sequences their length, a scalar that a catalog governs is turned, and any
/// other stays.
pub open spec fn place_agrees<C: Catalogs + ?Sized>(
    t: Tree,
    r: Tree,
    path: Seq<int>,
    table: Seq<ParamMeta>,
    catalogs: &C,
    dir: Direction,
) -> bool {
    match at(t, path) {
        None => at(r, path) is None,
        Some(Tree::Dict(e)) => {
            &&& at(r, path) matches Some(Tree::Dict(f))
            &&& f.len() == e.len()
            &&& forall|i: int| 0 <= i < e.len() ==> (#[trigger] f[i]).0 == e[i].0
        },
        Some(Tree::Sequence(x)) => at(r, path) matches Some(Tree::Sequence(y)) && y.len() == x.len(),
        Some(x) => {
            &&& forall|d: int, cat: Seq<char>| #[trigger]
                governed(t, path, d, table, cat) ==> at(r, path) == Some(turned(x, cat, catalogs, dir))
            &&& (forall|d: int, cat: Seq<char>| !#[trigger] governed(t, path, d, table, cat)) ==> at(r, path) == Some(x)
        },
    }
}

/// `r` is `t` with the names (or numbers) at all places that a catalog governs, and
/// nothing else, rewritten.
pub open spec fn is_rewriting<C: Catalogs + ?Sized>(
    t: Tree,
    r: Tree,
    table: Seq<ParamMeta>,
    catalogs: &C,
    dir: Direction,
) -> bool {
    forall|path: Seq<int>| #[trigger] place_agrees(t, r, path, table, catalogs, dir)
}

// === the laws ===

/// The last segment of a path is what the path ends in, and nothing else is.
pub proof fn lemma_last_segment(path: Seq<char>, key: Seq<char>)
    ensures
        ends_in(path, key) <==> resolve::segment(path) == key,
{
    lemma_segment_shape(path);
    let s = resolve::segment(path);
    if ends_in(path, key) && s != key {
        let n = path.len() as int;
        if key.len() < s.len() {
            if path == key {
            } else {
                let j = s.len() - key.len() - 1;
                assert(path.skip(n - s.len())[j] == path[n - key.len() - 1]);
                assert(s[j] == '.');
                assert(s.contains('.'));
            }
        } else if key.len() > s.len() {
            let j = key.len() - s.len() - 1;
            if path == key {
                assert(key[j] == path[n - s.len() - 1]);
            } else {
                assert(path.skip(n - key.len())[j] == path[n - s.len() - 1]);
            }
            assert(key.contains('.'));
        } else {
            assert(path.skip(n - s.len()) == path.skip(n - key.len()));
            if path == key {
                assert(path.skip(0) =~= path);
            }
        }
    }
}

proof fn lemma_segment_shape(path: Seq<char>)
    ensures
        ends_in(path, resolve::segment(path)),
        resolve::segment(path).len() <= path.len(),
        path.skip(path.len() - resolve::segment(path).len()) == resolve::segment(path),
    decreases path.len(),
{
    let s = resolve::segment(path);
    if path.len() == 0 || path.last() == '.' {
        assert(path.skip(path.len() - 0) =~= s);
        if path.len() == 0 {
            assert(path =~= s);
        }
    } else {
        let init = path.drop_last();
        let before = resolve::segment(init);
        lemma_segment_shape(init);
        assert(path.skip(path.len() - s.len()) =~= s) by {
            assert(init.skip(init.len() - before.len()) == before);
            assert forall|i: int| 0 <= i < s.len() implies path.skip(path.len() - s.len())[i] == s[i] by {
                if i < before.len() {
                    assert(init.skip(init.len() - before.len())[i] == before[i]);
                }
            }
        }
        assert(!s.contains('.')) by {
            if s.contains('.') {
                let k = choose|k: int| 0 <= k < s.len() && s[k] == '.';
                if k < before.len() {
                    assert(before[k] == '.');
                    assert(before.contains('.'));
                }
            }
        }
        if init == before {
            assert(path =~= s);
        }
    }
}

proof fn lemma_hinted(table: Seq<ParamMeta>, key: Seq<char>)
    ensures
        forall|j: int|
            0 <= j < resolve::hinted_catalogs(table, key).len() ==> exists|i: int|
                0 <= i < table.len() && hints_at(
                    #[trigger] table[i],
                    key,
                    #[trigger] resolve::hinted_catalogs(table, key)[j],
                ),
        forall|i: int, cat: Seq<char>|
            0 <= i < table.len() && #[trigger] hints_at(table[i], key, cat) ==> resolve::hinted_catalogs(
                table,
                key,
            ).contains(cat),
    decreases table.len(),
{
    if table.len() > 0 {
        let init = table.drop_last();
        let before = resolve::hinted_catalogs(init, key);
        let now = resolve::hinted_catalogs(table, key);
        lemma_hinted(init, key);
        lemma_last_segment(table.last().path@, key);
        assert forall|j: int| 0 <= j < now.len() implies exists|i: int|
            0 <= i < table.len() && hints_at(#[trigger] table[i], key, #[trigger] now[j]) by {
            if j < before.len() {
                let i = choose|i: int| 0 <= i < init.len() && hints_at(#[trigger] init[i], key, before[j]);
                assert(hints_at(table[i], key, now[j]));
            } else {
                assert(hints_at(table[table.len() - 1], key, now[j]));
            }
        }
        assert forall|i: int, cat: Seq<char>| 0 <= i < table.len() && #[trigger] hints_at(table[i], key, cat) implies now.contains(
            cat,
        ) by {
            if i < init.len() {
                assert(hints_at(init[i], key, cat));
                let j = choose|j: int| 0 <= j < before.len() && before[j] == cat;
                assert(now[j] == cat);
            } else {
                assert(now[before.len() as int] == cat);
            }
        }
    }
}

/// A key draws on the one catalog that the parameters whose paths end in it name;
/// where they name several, or none, it draws on none.
pub proof fn lemma_key_draws(table: Seq<ParamMeta>, key: Seq<char>, cat: Seq<char>)
    ensures
        draws_on(table, key, cat) <==> resolve::hint(table, key) == Some(cat),
{
    lemma_hinted(table, key);
    let cats = resolve::hinted_catalogs(table, key);
    if draws_on(table, key, cat) {
        let i = choose|i: int| 0 <= i < table.len() && hints_at(#[trigger] table[i], key, cat);
        assert(hints_at(table[i], key, cat));
        assert(cats.contains(cat));
        assert forall|j: int| 0 <= j < cats.len() implies #[trigger] cats[j] == cat by {
            let m = choose|m: int| 0 <= m < table.len() && hints_at(#[trigger] table[m], key, cats[j]);
            assert(hints_at(table[m], key, cats[j]));
        }
        assert(cats[0] == cat);
    }
    if resolve::hint(table, key) == Some(cat) {
        assert(cats[0] == cat);
        let i = choose|i: int| 0 <= i < table.len() && hints_at(#[trigger] table[i], key, cats[0]);
        assert(hints_at(table[i], key, cat));
        assert forall|m: int, other: Seq<char>|
            0 <= m < table.len() && #[trigger] hints_at(table[m], key, other) implies other == cat by {
            assert(cats.contains(other));
            let j = choose|j: int| 0 <= j < cats.len() && cats[j] == other;
            assert(cats[j] == cats[0]);
        }
    }
}

proof fn lemma_key_text(key: Tree)
    ensures
        key_text(key) == value::plain_text(key),
    decreases key,
{
    if let Tree::Tagged(_, inner) = key {
        lemma_key_text(*inner);
    }
}

proof fn lemma_key_hint(table: Seq<ParamMeta>, key: Tree, cat: Seq<char>)
    ensures
        draws(table, key, cat) <==> resolve::key_hint(table, key) == Some(cat),
{
    lemma_key_text(key);
    if let Some(s) = key_text(key) {
        lemma_key_draws(table, s, cat);
    }
}

/// The places behind the first step are the places of what stands there.
proof fn lemma_step(t: Tree, path: Seq<int>, k: int)
    requires
        1 <= k <= path.len(),
        child(t, path[0]) is Some,
    ensures
        at(t, path.take(k)) == at(child(t, path[0])->Some_0, path.skip(1).take(k - 1)),
{
    assert(path.take(k).skip(1) =~= path.skip(1).take(k - 1));
}

/// Nothing but sequences stands on the way to a place.
pub open spec fn through_sequences(t: Tree, path: Seq<int>) -> bool {
    forall|k: int| 0 <= k < path.len() ==> (#[trigger] at(t, path.take(k)) matches Some(Tree::Sequence(_)))
}

proof fn lemma_leaf_places<C: Catalogs + ?Sized>(t: Tree, cat: Seq<char>, catalogs: &C, dir: Direction, path: Seq<int>)
    ensures
        ({
            let r = resolve::rewritten_leaf(t, cat, catalogs, dir);
            match at(t, path) {
                None => at(r, path) is None,
                Some(Tree::Dict(e)) => at(r, path) == Some(Tree::Dict(e)),
                Some(Tree::Sequence(x)) => at(r, path) matches Some(Tree::Sequence(y)) && y.len() == x.len(),
                Some(x) => at(r, path) == Some(
                    if through_sequences(t, path) {
                        turned(x, cat, catalogs, dir)
                    } else {
                        x
                    },
                ),
            }
        }),
    decreases path.len(),
{
    if path.len() > 0 {
        assert(path.take(0) =~= Seq::<int>::empty());
        if let Some(c) = child(t, path[0]) {
            if t is Sequence {
                let rest = path.skip(1);
                lemma_leaf_places(c, cat, catalogs, dir, rest);
                assert(through_sequences(t, path) <==> through_sequences(c, rest)) by {
                    assert forall|k: int| 0 <= k < rest.len() implies #[trigger] at(c, rest.take(k)) == at(
                        t,
                        path.take(k + 1),
                    ) by {
                        lemma_step(t, path, k + 1);
                    }
                    if through_sequences(c, rest) {
                        assert forall|k: int| 0 <= k < path.len() implies (#[trigger] at(t, path.take(k)) matches Some(
                            Tree::Sequence(_),
                        )) by {
                            if k > 0 {
                                assert(at(c, rest.take(k - 1)) == at(t, path.take(k)));
                            }
                        }
                    }
                    if through_sequences(t, path) {
                        assert forall|k: int| 0 <= k < rest.len() implies (#[trigger] at(c, rest.take(k)) matches Some(
                            Tree::Sequence(_),
                        )) by {
                            assert(at(t, path.take(k + 1)) matches Some(Tree::Sequence(_)));
                        }
                    }
                }
            } else {
                assert(!(at(t, path.take(0)) matches Some(Tree::Sequence(_))));
            }
        }
    }
}

proof fn lemma_governed_below(t: Tree, path: Seq<int>, d: int, table: Seq<ParamMeta>, cat: Seq<char>)
    requires
        path.len() > 0,
        child(t, path[0]) is Some,
        t matches Tree::Dict(e) ==> forall|other: Seq<char>| !#[trigger] draws(table, e[path[0]].0, other),
    ensures
        governed(t, path, d, table, cat) <==> d > 0 && governed(child(t, path[0])->Some_0, path.skip(1), d - 1, table, cat),
{
    let c = child(t, path[0])->Some_0;
    let rest = path.skip(1);
    assert(path.take(0) =~= Seq::<int>::empty());
    assert forall|k: int| 0 <= k < rest.len() implies #[trigger] at(c, rest.take(k)) == at(t, path.take(k + 1)) by {
        lemma_step(t, path, k + 1);
    }
    if governed(t, path, d, table, cat) && d > 0 {
        assert forall|k: int, other: Seq<char>| 0 <= k < d - 1 implies !#[trigger] step_draws(c, rest, k, table, other) by {
            assert(at(c, rest.take(k)) == at(t, path.take(k + 1)));
            assert(!step_draws(t, path, k + 1, table, other));
        }
        assert(at(c, rest.take(d - 1)) == at(t, path.take(d)));
        assert forall|k: int| d - 1 < k < rest.len() implies (#[trigger] at(c, rest.take(k)) matches Some(
            Tree::Sequence(_),
        )) by {
            assert(at(t, path.take(k + 1)) matches Some(Tree::Sequence(_)));
        }
        assert(governed(c, rest, d - 1, table, cat));
    }
    if d > 0 && governed(c, rest, d - 1, table, cat) {
        assert forall|k: int, other: Seq<char>| 0 <= k < d implies !#[trigger] step_draws(t, path, k, table, other) by {
            if k > 0 {
                assert(at(c, rest.take(k - 1)) == at(t, path.take(k)));
                assert(!step_draws(c, rest, k - 1, table, other));
            } else if step_draws(t, path, k, table, other) {
                assert(draws(table, t->Dict_0[path[0]].0, other));
            }
        }
        assert(at(c, rest.take(d - 1)) == at(t, path.take(d)));
        assert forall|k: int| d < k < path.len() implies (#[trigger] at(t, path.take(k)) matches Some(
            Tree::Sequence(_),
        )) by {
            assert(at(c, rest.take(k - 1)) matches Some(Tree::Sequence(_)));
        }
        assert(governed(t, path, d, table, cat));
    }
    if governed(t, path, d, table, cat) && d == 0 {
        assert(draws(table, t->Dict_0[path[0]].0, cat));
    }
}

proof fn lemma_governed_here(t: Tree, path: Seq<int>, d: int, table: Seq<ParamMeta>, here: Seq<char>, cat: Seq<char>)
    requires
        path.len() > 0,
        t matches Tree::Dict(e) && 0 <= path[0] < e.len() && draws(table, e[path[0]].0, here),
    ensures
        governed(t, path, d, table, cat) <==> d == 0 && cat == here && through_sequences(
            child(t, path[0])->Some_0,
            path.skip(1),
        ),
{
    let c = child(t, path[0])->Some_0;
    let rest = path.skip(1);
    let key = t->Dict_0[path[0]].0;
    assert(path.take(0) =~= Seq::<int>::empty());
    lemma_key_hint(table, key, here);
    lemma_key_hint(table, key, cat);
    assert forall|k: int| 0 <= k < rest.len() implies #[trigger] at(c, rest.take(k)) == at(t, path.take(k + 1)) by {
        lemma_step(t, path, k + 1);
    }
    if governed(t, path, d, table, cat) {
        if d > 0 {
            assert(step_draws(t, path, 0, table, here));
        }
        assert forall|k: int| 0 <= k < rest.len() implies (#[trigger] at(c, rest.take(k)) matches Some(
            Tree::Sequence(_),
        )) by {
            assert(at(t, path.take(k + 1)) matches Some(Tree::Sequence(_)));
        }
    }
    if d == 0 && cat == here && through_sequences(c, rest) {
        assert forall|k: int| 0 < k < path.len() implies (#[trigger] at(t, path.take(k)) matches Some(
            Tree::Sequence(_),
        )) by {
            assert(at(c, rest.take(k - 1)) matches Some(Tree::Sequence(_)));
        }
        assert(at(t, path.take(0)) == Some(t));
    }
}

proof fn lemma_rewritten_place<C: Catalogs + ?Sized>(
    t: Tree,
    table: Seq<ParamMeta>,
    catalogs: &C,
    dir: Direction,
    path: Seq<int>,
)
    ensures
        place_agrees(t, resolve::rewritten(t, table, catalogs, dir), path, table, catalogs, dir),
    decreases path.len(),
{
    let r = resolve::rewritten(t, table, catalogs, dir);
    if path.len() > 0 {
        if let Some(c) = child(t, path[0]) {
            let rest = path.skip(1);
            let hint = match t {
                Tree::Dict(e) => resolve::key_hint(table, e[path[0]].0),
                _ => None,
            };
            match hint {
                Some(here) => {
                    lemma_key_hint(table, t->Dict_0[path[0]].0, here);
                    assert(child(r, path[0]) == Some(resolve::rewritten_leaf(c, here, catalogs, dir)));
                    lemma_leaf_places(c, here, catalogs, dir, rest);
                    assert forall|d: int, cat: Seq<char>| #[trigger]
                        governed(t, path, d, table, cat) implies d == 0 && cat == here && through_sequences(c, rest) by {
                        lemma_governed_here(t, path, d, table, here, cat);
                    }
                    lemma_governed_here(t, path, 0, table, here, here);
                },
                None => {
                    assert(child(r, path[0]) == Some(resolve::rewritten(c, table, catalogs, dir)));
                    lemma_rewritten_place(c, table, catalogs, dir, rest);
                    if let Tree::Dict(e) = t {
                        assert forall|other: Seq<char>| !#[trigger] draws(table, e[path[0]].0, other) by {
                            lemma_key_hint(table, e[path[0]].0, other);
                        }
                    }
                    assert forall|d: int, cat: Seq<char>| #[trigger] governed(t, path, d, table, cat) implies governed(
                        c,
                        rest,
                        d - 1,
                        table,
                        cat,
                    ) by {
                        lemma_governed_below(t, path, d, table, cat);
                    }
                    assert forall|d: int, cat: Seq<char>| #[trigger] governed(c, rest, d, table, cat) implies governed(
                        t,
                        path,
                        d + 1,
                        table,
                        cat,
                    ) by {
                        lemma_governed_below(t, path, d + 1, table, cat);
                    }
                },
            }
        }
    }
}

/// Resolving and labelling rewrite every place that a catalog governs, however deep
/// in mappings and sequences it lies, and no other.
pub proof fn lemma_rewritten_everywhere<C: Catalogs + ?Sized>(
    t: Tree,
    table: Seq<ParamMeta>,
    catalogs: &C,
    dir: Direction,
)
    ensures
        is_rewriting(t, resolve::rewritten(t, table, catalogs, dir), table, catalogs, dir),
{
    assert forall|path: Seq<int>| #[trigger]
        place_agrees(t, resolve::rewritten(t, table, catalogs, dir), path, table, catalogs, dir) by {
        lemma_rewritten_place(t, table, catalogs, dir, path);
    }
}

/// Two documents that have the same keys, lengths and scalars at every place are
/// one.
proof fn lemma_same_places(a: Tree, b: Tree)
    requires
        forall|path: Seq<int>| #[trigger] alike_at(a, b, path),
    ensures
        a == b,
    decreases a,
{
    assert(alike_at(a, b, seq![]));
    match (a, b) {
        (Tree::Dict(x), Tree::Dict(y)) => {
            assert forall|i: int| 0 <= i < x.len() implies x[i] == y[i] by {
                assert forall|path: Seq<int>| #[trigger] alike_at(x[i].1, y[i].1, path) by {
                    let whole = seq![i] + path;
                    assert(whole.skip(1) =~= path);
                    assert(alike_at(a, b, whole));
                }
                lemma_same_places(x[i].1, y[i].1);
                assert(y[i].0 == x[i].0);
            }
            assert(x =~= y);
        },
        (Tree::Sequence(x), Tree::Sequence(y)) => {
            assert forall|i: int| 0 <= i < x.len() implies x[i] == y[i] by {
                assert forall|path: Seq<int>| #[trigger] alike_at(x[i], y[i], path) by {
                    let whole = seq![i] + path;
                    assert(whole.skip(1) =~= path);
                    assert(alike_at(a, b, whole));
                }
                lemma_same_places(x[i], y[i]);
            }
            assert(x =~= y);
        },
        _ => {},
    }
}

/// Two documents have the same keys, the same length or the same scalar at a place.
pub open spec fn alike_at(a: Tree, b: Tree, path: Seq<int>) -> bool {
    match at(a, path) {
        Some(Tree::Dict(x)) => {
            &&& at(b, path) matches Some(Tree::Dict(y))
            &&& y.len() == x.len()
            &&& forall|i: int| 0 <= i < x.len() ==> (#[trigger] y[i]).0 == x[i].0
        },
        Some(Tree::Sequence(x)) => at(b, path) matches Some(Tree::Sequence(y)) && y.len() == x.len(),
        _ => at(b, path) == at(a, path),
    }
}

/// There is only one document that a document is rewritten to.
pub proof fn lemma_one_rewriting<C: Catalogs + ?Sized>(
    t: Tree,
    a: Tree,
    b: Tree,
    table: Seq<ParamMeta>,
    catalogs: &C,
    dir: Direction,
)
    requires
        is_rewriting(t, a, table, catalogs, dir),
        is_rewriting(t, b, table, catalogs, dir),
    ensures
        a == b,
{
    assert forall|path: Seq<int>| #[trigger] alike_at(a, b, path) by {
        assert(place_agrees(t, a, path, table, catalogs, dir));
        assert(place_agrees(t, b, path, table, catalogs, dir));
        if let Some(x) = at(t, path) {
            if x !is Dict && x !is Sequence {
                if exists|d: int, cat: Seq<char>| #[trigger] governed(t, path, d, table, cat) {
                    let (d, cat) = choose|d: int, cat: Seq<char>| #[trigger] governed(t, path, d, table, cat);
                    assert(governed(t, path, d, table, cat));
                }
            }
        }
    }
    lemma_same_places(a, b);
}

/// A text is resolved by resolving the document in it: names become numbers at every
/// place that a catalog governs, and nothing else changes.
pub proof fn lemma_text_resolved<C: Catalogs + ?Sized>(
    input: &str,
    params: Params,
    catalogs: &C,
    r: Result<String, String>,
)
    requires
        call_ensures(resolve_names_str::<C>, (input, params, catalogs), r),
    ensures
        match yaml::parsed(input@) {
            Err(m) => r matches Err(e) && e@ == m,
            Ok(t) => exists|u: Tree| #[trigger]
                is_rewriting(t, u, params.0@, catalogs, Direction::Resolve) && text::outcome(r) == yaml::rendered(u),
        },
{
    if let Ok(t) = yaml::parsed(input@) {
        lemma_rewritten_everywhere(t, params.0@, catalogs, Direction::Resolve);
    }
}

/// A text is labelled by labelling the document in it: numbers become names at every
/// place that a catalog governs, and nothing else changes.
pub proof fn lemma_text_labelled<C: Catalogs + ?Sized>(
    input: &str,
    params: Params,
    catalogs: &C,
    r: Result<String, String>,
)
    requires
        call_ensures(label_names_str::<C>, (input, params, catalogs), r),
    ensures
        match yaml::parsed(input@) {
            Err(m) => r matches Err(e) && e@ == m,
            Ok(t) => exists|u: Tree| #[trigger]
                is_rewriting(t, u, params.0@, catalogs, Direction::Label) && text::outcome(r) == yaml::rendered(u),
        },
{
    if let Ok(t) = yaml::parsed(input@) {
        lemma_rewritten_everywhere(t, params.0@, catalogs, Direction::Label);
    }
}

/// Under a key that draws on no catalog, a value is resolved as it is on its own,
/// whatever it is.
pub proof fn lemma_values_descended<C: Catalogs + ?Sized>(
    key: Tree,
    t: Tree,
    table: Seq<ParamMeta>,
    catalogs: &C,
    dir: Direction,
)
    requires
        forall|cat: Seq<char>| !#[trigger] draws(table, key, cat),
    ensures
        resolve::rewritten(Tree::Dict(seq![(key, t)]), table, catalogs, dir) == Tree::Dict(
            seq![(key, resolve::rewritten(t, table, catalogs, dir))],
        ),
{
    let whole = Tree::Dict(seq![(key, t)]);
    let out = resolve::rewritten(whole, table, catalogs, dir)->Dict_0;
    if let Some(cat) = resolve::key_hint(table, key) {
        lemma_key_hint(table, key, cat);
    }
    assert(out =~= seq![(key, resolve::rewritten(t, table, catalogs, dir))]);
}

/// `last_segment` gives what stands behind the last `.` of a path.
pub proof fn lemma_last_segment_given(path: &str, r: &str)
    requires
        call_ensures(resolve::last_segment, (path,), r),
    ensures
        ends_in(path@, r@),
{
    lemma_last_segment(path@, r@);
}

/// `catalog_for_key` gives the catalog that a key draws on.
pub proof fn lemma_catalog_given(params: Params, key: &str, r: Option<&'static str>)
    requires
        call_ensures(resolve::catalog_for_key, (params, key), r),
    ensures
        match r {
            Some(cat) => draws_on(params.0@, key@, cat@),
            None => forall|cat: Seq<char>| !#[trigger] draws_on(params.0@, key@, cat),
        },
{
    match r {
        Some(cat) => lemma_key_draws(params.0@, key@, cat@),
        None => {
            assert forall|cat: Seq<char>| !#[trigger] draws_on(params.0@, key@, cat) by {
                lemma_key_draws(params.0@, key@, cat);
            }
        },
    }
}

/// Resolving and labelling a document in place.
pub proof fn lemma_rewritten_in_place<C: Catalogs + ?Sized>(a: &mut Doc, b: &mut Doc, params: Params, catalogs: &C)
    requires
        call_ensures(resolve_names::<C>, (a, params, catalogs), ()),
        call_ensures(label_names::<C>, (b, params, catalogs), ()),
    ensures
        is_rewriting(old(a)@, final(a)@, params.0@, catalogs, Direction::Resolve),
        is_rewriting(old(b)@, final(b)@, params.0@, catalogs, Direction::Label),
{
    lemma_rewritten_everywhere(a@, params.0@, catalogs, Direction::Resolve);
    lemma_rewritten_everywhere(b@, params.0@, catalogs, Direction::Label);
}

}
