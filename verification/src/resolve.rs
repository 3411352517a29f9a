//! Generic name ↔ value resolution for catalog-backed fields.
//!
//! Editor-authored presets are friendlier in names ("Hall Reverb", "2.0 kHz")
//! than raw indices. The canonical model stays numeric; here names are turned into
//! numbers on the way in (and back, for display).
//!
//! Which fields are catalog-backed — and which catalog — is declared by each
//! [`ParamMeta`]'s `catalog` hint. The walk is structure-agnostic: it descends a
//! [`Doc`] and, at any entry whose key matches a catalog-hinted parameter,
//! rewrites the value via the device's [`Catalogs`]. Numbers and unknown names
//! pass through unchanged.

use vstd::prelude::*;
use vstd::string::*;

use crate::catalog::Catalogs;
use crate::meta::{ParamMeta, Params};
use crate::text::{self, chars_of, same_text};
use crate::value::{self, Dict, Doc, Num, Numeral, Tree};
use crate::yaml;

verus! {

// === which catalog a key draws on ===

/// The last `.`-separated segment of a path: its longest end without a `.`.
pub open spec fn segment(path: Seq<char>) -> Seq<char>
    decreases path.len(),
{
    if path.len() == 0 || path.last() == '.' {
        seq![]
    } else {
        segment(path.drop_last()).push(path.last())
    }
}

/// The catalogs hinted at for a key, in table order: those of the parameters
/// whose path ends with it.
pub open spec fn hinted_catalogs(table: Seq<ParamMeta>, key: Seq<char>) -> Seq<Seq<char>>
    decreases table.len(),
{
    if table.len() == 0 {
        seq![]
    } else {
        let before = hinted_catalogs(table.drop_last(), key);
        let m = table.last();
        match m.catalog {
            Some(cat) => if segment(m.path@) == key {
                before.push(cat@)
            } else {
                before
            },
            None => before,
        }
    }
}

/// The catalog that a key draws on: the one hinted at, if all hints agree.
pub open spec fn hint(table: Seq<ParamMeta>, key: Seq<char>) -> Option<Seq<char>> {
    let cats = hinted_catalogs(table, key);
    if cats.len() > 0 && forall|i: int| 0 <= i < cats.len() ==> #[trigger] cats[i] == cats[0] {
        Some(cats[0])
    } else {
        None
    }
}

/// The last `.`-separated segment of a param path (`"live_set.part.x"` → `"x"`).
pub fn last_segment(path: &str) -> (r: &str)
    ensures
        r@ == segment(path@),
{
    let cs = chars_of(path);
    let n: usize = cs.len();
    let mut i: usize = n;
    let ghost whole = path@;
    assert(whole.take(n as int) =~= whole);
    assert(whole.subrange(n as int, n as int) =~= Seq::<char>::empty());
    assert(segment(whole) =~= segment(whole.take(n as int)) + whole.subrange(n as int, n as int));
    while i > 0 && cs[i - 1] != '.'
        invariant
            i <= n,
            n == whole.len(),
            cs@ == whole,
            segment(whole) == segment(whole.take(i as int)) + whole.subrange(i as int, n as int),
        ensures
            i <= n,
            segment(whole) == whole.subrange(i as int, n as int),
        decreases i,
    {
        let ghost head = whole.take(i as int);
        assert(head.drop_last() =~= whole.take(i - 1));
        assert(head.last() == whole[i - 1]);
        assert(segment(head) + whole.subrange(i as int, n as int) =~= segment(whole.take(i - 1)) + whole.subrange(i - 1, n as int));
        i -= 1;
        if i == 0 {
            assert(whole.take(0) =~= Seq::<char>::empty());
            assert(segment(whole.take(0)) + whole.subrange(0, n as int) =~= whole.subrange(0, n as int));
        }
    }
    path.substring_char(i, n)
}

/// The catalog a leaf `key` maps to, determined by matching the last segment of
/// a catalog-hinted param path. `None` if no hinted param ends with `key`, or if
/// several do with *different* catalogs (ambiguous — left untouched).
pub fn catalog_for_key(params: Params, key: &str) -> (r: Option<&'static str>)
    ensures
        match r {
            Some(cat) => hint(params.0@, key@) == Some(cat@),
            None => hint(params.0@, key@) is None,
        },
{
    let table: &'static [ParamMeta] = params.0;
    let mut found: Option<&'static str> = None;
    let mut i: usize = 0;
    while i < table.len()
        invariant
            i <= table@.len(),
            table == params.0,
            match found {
                Some(cat) => hint(table@.take(i as int), key@) == Some(cat@),
                None => hinted_catalogs(table@.take(i as int), key@).len() == 0,
            },
        decreases table@.len() - i,
    {
        let ghost now = hinted_catalogs(table@.take(i as int), key@);
        let ghost next = hinted_catalogs(table@.take(i + 1), key@);
        assert(table@.take(i + 1).drop_last() =~= table@.take(i as int));
        let m: &'static ParamMeta = &table[i];
        if let Some(cat) = m.catalog {
            if same_text(last_segment(m.path), key) {
                assert(next == now.push(cat@));
                match found {
                    None => {
                        found = Some(cat);
                    },
                    Some(prev) => {
                        assert(next[0] == now[0]);
                        if !same_text(prev, cat) {
                            proof {
                                lemma_hint_conflict(table@, (i + 1) as int, key@, now.len() as int);
                            }
                            return None;
                        }
                        assert forall|j: int| 0 <= j < next.len() implies #[trigger] next[j] == next[0] by {
                            if j < now.len() {
                                assert(now[j] == now[0]);
                            }
                        }
                    },
                }
            }
        }
        i += 1;
    }
    assert(table@.take(i as int) =~= table@);
    found
}

/// A hint that disagrees with the first one stays in the way, however many
/// parameters follow.
proof fn lemma_hint_conflict(table: Seq<ParamMeta>, n: int, key: Seq<char>, j: int)
    requires
        0 <= n <= table.len(),
        0 <= j < hinted_catalogs(table.take(n), key).len(),
        hinted_catalogs(table.take(n), key)[j] != hinted_catalogs(table.take(n), key)[0],
    ensures
        hint(table, key) is None,
    decreases table.len() - n,
{
    if n == table.len() {
        assert(table.take(n) =~= table);
    } else {
        assert(table.take(n + 1).drop_last() =~= table.take(n));
        lemma_hint_conflict(table, n + 1, key, j);
    }
}

// === rewriting leaves ===

/// Which way a document is rewritten.
#[derive(Debug, Clone, Copy, PartialEq, Eq, Structural)]
pub enum Direction {
    /// Names become numbers.
    Resolve,
    /// Numbers become names.
    Label,
}

/// A leaf rewritten: a name (or number) that the catalog knows becomes its
/// number (or name), a sequence is rewritten item by item, and anything else
/// stays as it is.
pub open spec fn rewritten_leaf<C: Catalogs + ?Sized>(
    t: Tree,
    cat: Seq<char>,
    catalogs: &C,
    dir: Direction,
) -> Tree
    decreases t,
{
    match t {
        Tree::Text(name) => if dir == Direction::Resolve {
            match catalogs.resolution(cat, name) {
                Some(n) => Tree::Numeral(Num::Int(n as int)),
                None => t,
            }
        } else {
            t
        },
        Tree::Numeral(Num::Int(n)) => if dir == Direction::Label && i64::MIN <= n <= i64::MAX {
            match catalogs.labelling(cat, n as i64) {
                Some(s) => Tree::Text(s),
                None => t,
            }
        } else {
            t
        },
        Tree::Sequence(items) => Tree::Sequence(
            Seq::new(
                items.len(),
                |i: int|
                    if 0 <= i < items.len() {
                        rewritten_leaf(items[i], cat, catalogs, dir)
                    } else {
                        Tree::Null
                    },
            ),
        ),
        _ => t,
    }
}

/// A document rewritten: under a key that draws on a catalog the value is
/// rewritten as a leaf; everything else is walked through.
pub open spec fn rewritten<C: Catalogs + ?Sized>(
    t: Tree,
    table: Seq<ParamMeta>,
    catalogs: &C,
    dir: Direction,
) -> Tree
    decreases t,
{
    match t {
        Tree::Dict(entries) => Tree::Dict(
            Seq::new(
                entries.len(),
                |i: int|
                    if 0 <= i < entries.len() {
                        (
                            entries[i].0,
                            match key_hint(table, entries[i].0) {
                                Some(cat) => rewritten_leaf(entries[i].1, cat, catalogs, dir),
                                None => rewritten(entries[i].1, table, catalogs, dir),
                            },
                        )
                    } else {
                        (Tree::Null, Tree::Null)
                    },
            ),
        ),
        Tree::Sequence(items) => Tree::Sequence(
            Seq::new(
                items.len(),
                |i: int|
                    if 0 <= i < items.len() {
                        rewritten(items[i], table, catalogs, dir)
                    } else {
                        Tree::Null
                    },
            ),
        ),
        _ => t,
    }
}

/// The catalog that an entry's key draws on.
pub open spec fn key_hint(table: Seq<ParamMeta>, key: Tree) -> Option<Seq<char>> {
    match value::plain_text(key) {
        Some(s) => hint(table, s),
        None => None,
    }
}

/// Rewrite a leaf.
fn rewrite_leaf<C: Catalogs + ?Sized>(v: Doc, cat: &str, catalogs: &C, dir: Direction) -> (r: Doc)
    ensures
        r@ == rewritten_leaf(v@, cat@, catalogs, dir),
    decreases v@,
{
    broadcast use value::lemma_sequence_view;

    match v {
        Doc::Text(s) => {
            if dir == Direction::Resolve {
                match catalogs.resolve(cat, s.as_str()) {
                    Some(n) => Doc::Numeral(Numeral::from_i64(n)),
                    None => Doc::Text(s),
                }
            } else {
                Doc::Text(s)
            }
        },
        Doc::Numeral(n) => {
            if dir == Direction::Label {
                match n.as_i64() {
                    Some(i) => match catalogs.label(cat, i) {
                        Some(s) => Doc::Text(s),
                        None => Doc::Numeral(n),
                    },
                    None => Doc::Numeral(n),
                }
            } else {
                Doc::Numeral(n)
            }
        },
        Doc::Sequence(items) => {
            let ghost t0 = value::trees(items@);
            let ghost goal = rewritten_leaf(v@, cat@, catalogs, dir)->Sequence_0;
            let mut out: Vec<Doc> = Vec::new();
            for e in it: items
                invariant
                    value::trees(it.seq()) == t0,
                    goal.len() == t0.len(),
                    forall|i: int| 0 <= i < t0.len() ==> #[trigger] goal[i] == rewritten_leaf(t0[i], cat@, catalogs, dir),
                    value::trees(out@) == goal.take(it.index() as int),
                    decreases_to!(v@ => t0),
            {
                let ghost n = it.index() as int;
                assert(t0[n] == e@);
                assert(decreases_to!(t0 => t0[n]));
                let x = rewrite_leaf(e, cat, catalogs, dir);
                let ghost before = value::trees(out@);
                out.push(x);
                assert(value::trees(out@) =~= before.push(goal[n]));
                assert(goal.take(n + 1) =~= goal.take(n).push(goal[n]));
            }
            assert(goal.take(goal.len() as int) =~= goal);
            Doc::Sequence(out)
        },
        other => other,
    }
}

/// Walk `v`, rewriting under every catalog-hinted key and recursing elsewhere.
fn walk<C: Catalogs + ?Sized>(v: Doc, params: Params, catalogs: &C, dir: Direction) -> (r: Doc)
    ensures
        r@ == rewritten(v@, params.0@, catalogs, dir),
    decreases v@,
{
    broadcast use value::lemma_sequence_view;

    match v {
        Doc::Dict(m) => {
            let ghost t0 = m@;
            let ghost goal = rewritten(v@, params.0@, catalogs, dir)->Dict_0;
            let entries = m.into_entries();
            let mut out: Vec<(Doc, Doc)> = Vec::new();
            for e in it: entries
                invariant
                    value::entry_trees(it.seq()) == t0,
                    goal.len() == t0.len(),
                    forall|i: int|
                        0 <= i < t0.len() ==> #[trigger] goal[i] == (
                            t0[i].0,
                            match key_hint(params.0@, t0[i].0) {
                                Some(cat) => rewritten_leaf(t0[i].1, cat, catalogs, dir),
                                None => rewritten(t0[i].1, params.0@, catalogs, dir),
                            },
                        ),
                    value::entry_trees(out@) == goal.take(it.index() as int),
                    decreases_to!(v@ => t0),
            {
                let ghost n = it.index() as int;
                let (k, val) = e;
                assert(t0[n] == (k@, val@));
                assert(decreases_to!(t0 => t0[n]));
                assert(decreases_to!(t0[n] => t0[n].1));
                let cat = match k.as_str() {
                    Some(key) => catalog_for_key(params, key),
                    None => None,
                };
                let x = match cat {
                    Some(cat) => rewrite_leaf(val, cat, catalogs, dir),
                    None => walk(val, params, catalogs, dir),
                };
                let ghost before = value::entry_trees(out@);
                out.push((k, x));
                assert(value::entry_trees(out@) =~= before.push(goal[n]));
                assert(goal.take(n + 1) =~= goal.take(n).push(goal[n]));
            }
            assert(goal.take(goal.len() as int) =~= goal);
            proof {
                assert forall|i: int, j: int| 0 <= i < j < goal.len() implies !value::same((#[trigger] goal[i]).0, (#[trigger] goal[j]).0) by {
                    assert(goal[i].0 == t0[i].0 && goal[j].0 == t0[j].0);
                }
            }
            Doc::Dict(Dict::from_entries(out))
        },
        Doc::Sequence(items) => {
            let ghost t0 = value::trees(items@);
            let ghost goal = rewritten(v@, params.0@, catalogs, dir)->Sequence_0;
            let mut out: Vec<Doc> = Vec::new();
            for e in it: items
                invariant
                    value::trees(it.seq()) == t0,
                    goal.len() == t0.len(),
                    forall|i: int| 0 <= i < t0.len() ==> #[trigger] goal[i] == rewritten(t0[i], params.0@, catalogs, dir),
                    value::trees(out@) == goal.take(it.index() as int),
                    decreases_to!(v@ => t0),
            {
                let ghost n = it.index() as int;
                assert(t0[n] == e@);
                assert(decreases_to!(t0 => t0[n]));
                let x = walk(e, params, catalogs, dir);
                let ghost before = value::trees(out@);
                out.push(x);
                assert(value::trees(out@) =~= before.push(goal[n]));
                assert(goal.take(n + 1) =~= goal.take(n).push(goal[n]));
            }
            assert(goal.take(goal.len() as int) =~= goal);
            Doc::Sequence(out)
        },
        other => other,
    }
}

/// Convert value *names* to numbers throughout `v`, in place.
pub fn resolve_names<C: Catalogs + ?Sized>(v: &mut Doc, params: Params, catalogs: &C)
    ensures
        final(v)@ == rewritten(old(v)@, params.0@, catalogs, Direction::Resolve),
{
    let mut doc = Doc::Null;
    std::mem::swap(v, &mut doc);
    *v = walk(doc, params, catalogs, Direction::Resolve);
}

/// Convert numeric values to their catalog *labels* throughout `v`, in place
/// (the inverse of [`resolve_names`]).
pub fn label_names<C: Catalogs + ?Sized>(v: &mut Doc, params: Params, catalogs: &C)
    ensures
        final(v)@ == rewritten(old(v)@, params.0@, catalogs, Direction::Label),
{
    let mut doc = Doc::Null;
    std::mem::swap(v, &mut doc);
    *v = walk(doc, params, catalogs, Direction::Label);
}

// === documents as text ===

/// What rewriting makes of YAML text: the rewritten document as text, or the
/// message of the error that came first.
pub open spec fn rewritten_text<C: Catalogs + ?Sized>(
    input: Seq<char>,
    table: Seq<ParamMeta>,
    catalogs: &C,
    dir: Direction,
) -> Result<Seq<char>, Seq<char>> {
    match yaml::parsed(input) {
        Ok(t) => yaml::rendered(rewritten(t, table, catalogs, dir)),
        Err(message) => Err(message),
    }
}

/// Parse YAML/JSON, [`resolve_names`], and render normalized YAML ready for a
/// device's `encode`/`decode`. An error is given by its message.
pub fn resolve_names_str<C: Catalogs + ?Sized>(input: &str, params: Params, catalogs: &C) -> (r: Result<
    String,
    String,
>)
    ensures
        text::outcome(r) == rewritten_text(input@, params.0@, catalogs, Direction::Resolve),
{
    let mut v = yaml::parse(input)?;
    resolve_names(&mut v, params, catalogs);
    yaml::render(&v)
}

/// Parse YAML/JSON, [`label_names`], and render name-bearing YAML. An error is
/// given by its message.
pub fn label_names_str<C: Catalogs + ?Sized>(input: &str, params: Params, catalogs: &C) -> (r: Result<String, String>)
    ensures
        text::outcome(r) == rewritten_text(input@, params.0@, catalogs, Direction::Label),
{
    let mut v = yaml::parse(input)?;
    label_names(&mut v, params, catalogs);
    yaml::render(&v)
}

// === laws ===

/// Resolving a leaf a second time changes nothing.
pub proof fn lemma_resolve_leaf_idempotent<C: Catalogs + ?Sized>(t: Tree, cat: Seq<char>, catalogs: &C)
    ensures
        rewritten_leaf(rewritten_leaf(t, cat, catalogs, Direction::Resolve), cat, catalogs, Direction::Resolve)
            == rewritten_leaf(t, cat, catalogs, Direction::Resolve),
    decreases t,
{
    if let Tree::Sequence(items) = t {
        let once = rewritten_leaf(t, cat, catalogs, Direction::Resolve)->Sequence_0;
        let twice = rewritten_leaf(Tree::Sequence(once), cat, catalogs, Direction::Resolve)->Sequence_0;
        assert forall|i: int| 0 <= i < items.len() implies twice[i] == once[i] by {
            lemma_resolve_leaf_idempotent(items[i], cat, catalogs);
        }
        assert(twice =~= once);
    }
}

/// Resolving the names of a document a second time changes nothing: what could
/// be resolved is a number already.
pub proof fn lemma_resolve_idempotent<C: Catalogs + ?Sized>(t: Tree, table: Seq<ParamMeta>, catalogs: &C)
    ensures
        rewritten(rewritten(t, table, catalogs, Direction::Resolve), table, catalogs, Direction::Resolve)
            == rewritten(t, table, catalogs, Direction::Resolve),
    decreases t,
{
    let once = rewritten(t, table, catalogs, Direction::Resolve);
    match t {
        Tree::Dict(entries) => {
            let a = once->Dict_0;
            let b = rewritten(once, table, catalogs, Direction::Resolve)->Dict_0;
            assert forall|i: int| 0 <= i < entries.len() implies b[i] == a[i] by {
                match key_hint(table, entries[i].0) {
                    Some(cat) => {
                        lemma_resolve_leaf_idempotent(entries[i].1, cat, catalogs);
                    },
                    None => {
                        lemma_resolve_idempotent(entries[i].1, table, catalogs);
                    },
                }
            }
            assert(b =~= a);
        },
        Tree::Sequence(items) => {
            let a = once->Sequence_0;
            let b = rewritten(once, table, catalogs, Direction::Resolve)->Sequence_0;
            assert forall|i: int| 0 <= i < items.len() implies b[i] == a[i] by {
                lemma_resolve_idempotent(items[i], table, catalogs);
            }
            assert(b =~= a);
        },
        _ => {},
    }
}

/// Every label of the catalogs resolves to the number that it labels.
pub open spec fn labels_resolve<C: Catalogs + ?Sized>(catalogs: &C) -> bool {
    forall|cat: Seq<char>, n: i64|
        #![trigger catalogs.labelling(cat, n)]
        catalogs.labelling(cat, n) matches Some(s) ==> catalogs.resolution(cat, s) == Some(n)
}

/// Resolving undoes labelling at a leaf.
pub proof fn lemma_label_leaf_inverse<C: Catalogs + ?Sized>(t: Tree, cat: Seq<char>, catalogs: &C)
    requires
        labels_resolve(catalogs),
    ensures
        rewritten_leaf(rewritten_leaf(t, cat, catalogs, Direction::Label), cat, catalogs, Direction::Resolve)
            == rewritten_leaf(t, cat, catalogs, Direction::Resolve),
    decreases t,
{
    if let Tree::Sequence(items) = t {
        let named = rewritten_leaf(t, cat, catalogs, Direction::Label)->Sequence_0;
        let back = rewritten_leaf(Tree::Sequence(named), cat, catalogs, Direction::Resolve)->Sequence_0;
        let plain = rewritten_leaf(t, cat, catalogs, Direction::Resolve)->Sequence_0;
        assert forall|i: int| 0 <= i < items.len() implies back[i] == plain[i] by {
            lemma_label_leaf_inverse(items[i], cat, catalogs);
        }
        assert(back =~= plain);
    }
}

/// Resolving undoes labelling: where every label resolves to the number it
/// labels, a document whose numbers were labelled resolves to what the document
/// itself resolves to. So a document that is resolved already comes back as it was.
pub proof fn lemma_label_inverse<C: Catalogs + ?Sized>(t: Tree, table: Seq<ParamMeta>, catalogs: &C)
    requires
        labels_resolve(catalogs),
    ensures
        rewritten(rewritten(t, table, catalogs, Direction::Label), table, catalogs, Direction::Resolve)
            == rewritten(t, table, catalogs, Direction::Resolve),
        rewritten(t, table, catalogs, Direction::Resolve) == t ==> rewritten(
            rewritten(t, table, catalogs, Direction::Label),
            table,
            catalogs,
            Direction::Resolve,
        ) == t,
    decreases t,
{
    let named = rewritten(t, table, catalogs, Direction::Label);
    match t {
        Tree::Dict(entries) => {
            let back = rewritten(named, table, catalogs, Direction::Resolve)->Dict_0;
            let plain = rewritten(t, table, catalogs, Direction::Resolve)->Dict_0;
            assert forall|i: int| 0 <= i < entries.len() implies back[i] == plain[i] by {
                match key_hint(table, entries[i].0) {
                    Some(cat) => {
                        lemma_label_leaf_inverse(entries[i].1, cat, catalogs);
                    },
                    None => {
                        lemma_label_inverse(entries[i].1, table, catalogs);
                    },
                }
            }
            assert(back =~= plain);
        },
        Tree::Sequence(items) => {
            let back = rewritten(named, table, catalogs, Direction::Resolve)->Sequence_0;
            let plain = rewritten(t, table, catalogs, Direction::Resolve)->Sequence_0;
            assert forall|i: int| 0 <= i < items.len() implies back[i] == plain[i] by {
                lemma_label_inverse(items[i], table, catalogs);
            }
            assert(back =~= plain);
        },
        _ => {},
    }
}

/// A document in which no key draws on a catalog is left as it is.
pub open spec fn unhinted(t: Tree, table: Seq<ParamMeta>) -> bool
    decreases t,
{
    match t {
        Tree::Dict(entries) => forall|i: int|
            0 <= i < entries.len() ==> key_hint(table, (#[trigger] entries[i]).0) is None && unhinted(entries[i].1, table),
        Tree::Sequence(items) => forall|i: int| 0 <= i < items.len() ==> unhinted(#[trigger] items[i], table),
        _ => true,
    }
}

/// Where no key draws on a catalog (none is hinted at, or the hints disagree),
/// neither direction changes the document.
pub proof fn lemma_unhinted_unchanged<C: Catalogs + ?Sized>(
    t: Tree,
    table: Seq<ParamMeta>,
    catalogs: &C,
    dir: Direction,
)
    requires
        unhinted(t, table),
    ensures
        rewritten(t, table, catalogs, dir) == t,
    decreases t,
{
    match t {
        Tree::Dict(entries) => {
            let out = rewritten(t, table, catalogs, dir)->Dict_0;
            assert forall|i: int| 0 <= i < entries.len() implies out[i] == entries[i] by {
                lemma_unhinted_unchanged(entries[i].1, table, catalogs, dir);
            }
            assert(out =~= entries);
        },
        Tree::Sequence(items) => {
            let out = rewritten(t, table, catalogs, dir)->Sequence_0;
            assert forall|i: int| 0 <= i < items.len() implies out[i] == items[i] by {
                lemma_unhinted_unchanged(items[i], table, catalogs, dir);
            }
            assert(out =~= items);
        },
        _ => {},
    }
}

/// A leaf that no catalog entry changes: a number, or a name that the catalog does
/// not know, or a sequence of such.
pub open spec fn settled_leaf<C: Catalogs + ?Sized>(t: Tree, cat: Seq<char>, catalogs: &C) -> bool
    decreases t,
{
    match t {
        Tree::Text(name) => catalogs.resolution(cat, name) is None,
        Tree::Sequence(items) => forall|i: int| 0 <= i < items.len() ==> settled_leaf(#[trigger] items[i], cat, catalogs),
        _ => true,
    }
}

/// A document whose catalog-backed leaves are all numbers or unknown names.
pub open spec fn settled<C: Catalogs + ?Sized>(t: Tree, table: Seq<ParamMeta>, catalogs: &C) -> bool
    decreases t,
{
    match t {
        Tree::Dict(entries) => forall|i: int|
            0 <= i < entries.len() ==> match key_hint(table, (#[trigger] entries[i]).0) {
                Some(cat) => settled_leaf(entries[i].1, cat, catalogs),
                None => settled(entries[i].1, table, catalogs),
            },
        Tree::Sequence(items) => forall|i: int| 0 <= i < items.len() ==> settled(#[trigger] items[i], table, catalogs),
        _ => true,
    }
}

proof fn lemma_settled_leaf_unchanged<C: Catalogs + ?Sized>(t: Tree, cat: Seq<char>, catalogs: &C)
    requires
        settled_leaf(t, cat, catalogs),
    ensures
        rewritten_leaf(t, cat, catalogs, Direction::Resolve) == t,
    decreases t,
{
    if let Tree::Sequence(items) = t {
        let out = rewritten_leaf(t, cat, catalogs, Direction::Resolve)->Sequence_0;
        assert forall|i: int| 0 <= i < items.len() implies out[i] == items[i] by {
            assert(settled_leaf(items[i], cat, catalogs));
            lemma_settled_leaf_unchanged(items[i], cat, catalogs);
        }
        assert(out =~= items);
    }
}

/// Numbers and unknown names pass through resolution unchanged.
pub proof fn lemma_settled_unchanged<C: Catalogs + ?Sized>(t: Tree, table: Seq<ParamMeta>, catalogs: &C)
    requires
        settled(t, table, catalogs),
    ensures
        rewritten(t, table, catalogs, Direction::Resolve) == t,
    decreases t,
{
    match t {
        Tree::Dict(entries) => {
            let out = rewritten(t, table, catalogs, Direction::Resolve)->Dict_0;
            assert forall|i: int| 0 <= i < entries.len() implies out[i] == entries[i] by {
                match key_hint(table, entries[i].0) {
                    Some(cat) => {
                        assert(settled_leaf(entries[i].1, cat, catalogs));
                        lemma_settled_leaf_unchanged(entries[i].1, cat, catalogs);
                    },
                    None => {
                        assert(settled(entries[i].1, table, catalogs));
                        lemma_settled_unchanged(entries[i].1, table, catalogs);
                    },
                }
            }
            assert(out =~= entries);
        },
        Tree::Sequence(items) => {
            let out = rewritten(t, table, catalogs, Direction::Resolve)->Sequence_0;
            assert forall|i: int| 0 <= i < items.len() implies out[i] == items[i] by {
                assert(settled(items[i], table, catalogs));
                lemma_settled_unchanged(items[i], table, catalogs);
            }
            assert(out =~= items);
        },
        _ => {},
    }
}

proof fn lemma_rewritten_leaf_well_formed<C: Catalogs + ?Sized>(
    t: Tree,
    cat: Seq<char>,
    catalogs: &C,
    dir: Direction,
)
    requires
        value::well_formed(t),
    ensures
        value::well_formed(rewritten_leaf(t, cat, catalogs, dir)),
    decreases t,
{
    if let Tree::Sequence(items) = t {
        let out = rewritten_leaf(t, cat, catalogs, dir)->Sequence_0;
        assert forall|i: int| 0 <= i < out.len() implies value::well_formed(#[trigger] out[i]) by {
            assert(value::well_formed(items[i]));
            lemma_rewritten_leaf_well_formed(items[i], cat, catalogs, dir);
        }
    }
}

/// Rewriting a document that is well formed gives one that is.
pub proof fn lemma_rewritten_well_formed<C: Catalogs + ?Sized>(
    t: Tree,
    table: Seq<ParamMeta>,
    catalogs: &C,
    dir: Direction,
)
    requires
        value::well_formed(t),
    ensures
        value::well_formed(rewritten(t, table, catalogs, dir)),
    decreases t,
{
    match t {
        Tree::Dict(entries) => {
            let out = rewritten(t, table, catalogs, dir)->Dict_0;
            assert forall|i: int| 0 <= i < out.len() implies value::well_formed((#[trigger] out[i]).0)
                && value::well_formed(out[i].1) by {
                assert(value::well_formed(entries[i].0) && value::well_formed(entries[i].1));
                match key_hint(table, entries[i].0) {
                    Some(cat) => {
                        lemma_rewritten_leaf_well_formed(entries[i].1, cat, catalogs, dir);
                    },
                    None => {
                        lemma_rewritten_well_formed(entries[i].1, table, catalogs, dir);
                    },
                }
            }
            assert forall|i: int, j: int| 0 <= i < j < out.len() implies !value::same(
                (#[trigger] out[i]).0,
                (#[trigger] out[j]).0,
            ) by {
                assert(!value::same(entries[i].0, entries[j].0));
            }
        },
        Tree::Sequence(items) => {
            let out = rewritten(t, table, catalogs, dir)->Sequence_0;
            assert forall|i: int| 0 <= i < out.len() implies value::well_formed(#[trigger] out[i]) by {
                assert(value::well_formed(items[i]));
                lemma_rewritten_well_formed(items[i], table, catalogs, dir);
            }
        },
        _ => {},
    }
}

/// A leaf whose names are each unknown to the catalog, or the label of the number
/// they resolve to.
pub open spec fn canonical_leaf<C: Catalogs + ?Sized>(t: Tree, cat: Seq<char>, catalogs: &C) -> bool
    decreases t,
{
    match t {
        Tree::Text(name) => catalogs.resolution(cat, name) matches Some(n) ==> catalogs.labelling(cat, n) == Some(name),
        Tree::Sequence(items) => forall|i: int|
            0 <= i < items.len() ==> canonical_leaf(#[trigger] items[i], cat, catalogs),
        _ => true,
    }
}

/// A document whose catalog-backed names are each unknown, or the label of the
/// number they resolve to.
pub open spec fn canonical<C: Catalogs + ?Sized>(t: Tree, table: Seq<ParamMeta>, catalogs: &C) -> bool
    decreases t,
{
    match t {
        Tree::Dict(entries) => forall|i: int|
            0 <= i < entries.len() ==> match key_hint(table, (#[trigger] entries[i]).0) {
                Some(cat) => canonical_leaf(entries[i].1, cat, catalogs),
                None => canonical(entries[i].1, table, catalogs),
            },
        Tree::Sequence(items) => forall|i: int| 0 <= i < items.len() ==> canonical(#[trigger] items[i], table, catalogs),
        _ => true,
    }
}

proof fn lemma_resolve_leaf_inverse<C: Catalogs + ?Sized>(t: Tree, cat: Seq<char>, catalogs: &C)
    requires
        canonical_leaf(t, cat, catalogs),
    ensures
        rewritten_leaf(rewritten_leaf(t, cat, catalogs, Direction::Resolve), cat, catalogs, Direction::Label)
            == rewritten_leaf(t, cat, catalogs, Direction::Label),
    decreases t,
{
    if let Tree::Sequence(items) = t {
        let numbered = rewritten_leaf(t, cat, catalogs, Direction::Resolve)->Sequence_0;
        let back = rewritten_leaf(Tree::Sequence(numbered), cat, catalogs, Direction::Label)->Sequence_0;
        let named = rewritten_leaf(t, cat, catalogs, Direction::Label)->Sequence_0;
        assert forall|i: int| 0 <= i < items.len() implies back[i] == named[i] by {
            assert(canonical_leaf(items[i], cat, catalogs));
            lemma_resolve_leaf_inverse(items[i], cat, catalogs);
        }
        assert(back =~= named);
    }
}

/// Labelling undoes resolving: where every name is unknown or the label of the
/// number it resolves to, a document whose names were resolved is labelled as the
/// document itself is. So a document that is labelled already comes back as it was.
pub proof fn lemma_resolve_inverse<C: Catalogs + ?Sized>(t: Tree, table: Seq<ParamMeta>, catalogs: &C)
    requires
        canonical(t, table, catalogs),
    ensures
        rewritten(rewritten(t, table, catalogs, Direction::Resolve), table, catalogs, Direction::Label)
            == rewritten(t, table, catalogs, Direction::Label),
        rewritten(t, table, catalogs, Direction::Label) == t ==> rewritten(
            rewritten(t, table, catalogs, Direction::Resolve),
            table,
            catalogs,
            Direction::Label,
        ) == t,
    decreases t,
{
    let numbered = rewritten(t, table, catalogs, Direction::Resolve);
    match t {
        Tree::Dict(entries) => {
            let back = rewritten(numbered, table, catalogs, Direction::Label)->Dict_0;
            let named = rewritten(t, table, catalogs, Direction::Label)->Dict_0;
            assert forall|i: int| 0 <= i < entries.len() implies back[i] == named[i] by {
                match key_hint(table, entries[i].0) {
                    Some(cat) => {
                        assert(canonical_leaf(entries[i].1, cat, catalogs));
                        lemma_resolve_leaf_inverse(entries[i].1, cat, catalogs);
                    },
                    None => {
                        assert(canonical(entries[i].1, table, catalogs));
                        lemma_resolve_inverse(entries[i].1, table, catalogs);
                    },
                }
            }
            assert(back =~= named);
        },
        Tree::Sequence(items) => {
            let back = rewritten(numbered, table, catalogs, Direction::Label)->Sequence_0;
            let named = rewritten(t, table, catalogs, Direction::Label)->Sequence_0;
            assert forall|i: int| 0 <= i < items.len() implies back[i] == named[i] by {
                assert(canonical(items[i], table, catalogs));
                lemma_resolve_inverse(items[i], table, catalogs);
            }
            assert(back =~= named);
        },
        _ => {},
    }
}

}
