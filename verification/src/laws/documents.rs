//! Documents: when two are the same, and what a mapping holds.

use vstd::prelude::*;

use crate::laws::terms;
use crate::value::{self, Dict, Doc, Num, Numeral, Tree};

verus! {

/// A document that is neither a sequence, nor a mapping, nor tagged.
pub open spec fn is_scalar(t: Tree) -> bool {
    t !is Sequence && t !is Dict && t !is Tagged
}

/// Scalars are the same exactly where they are equal; only the two zeros of floating
/// point are the same and not equal.
pub proof fn lemma_same_scalars(a: Tree, b: Tree)
    requires
        is_scalar(a),
    ensures
        value::same(a, b) <==> a == b || ({
            &&& a matches Tree::Numeral(Num::Float(x))
            &&& b matches Tree::Numeral(Num::Float(y))
            &&& x == "0.0"@ || x == "-0.0"@
            &&& y == "0.0"@ || y == "-0.0"@
        }),
{
}

/// Sequences are the same exactly where they have the same items in the same places,
/// and tagged documents where they have equal tags around the same document.
pub proof fn lemma_same_parts(x: Seq<Tree>, y: Seq<Tree>, s: Seq<char>, a: Tree, t: Seq<char>, b: Tree)
    ensures
        value::same(Tree::Sequence(x), Tree::Sequence(y)) <==> x.len() == y.len() && forall|i: int|
            0 <= i < x.len() ==> value::same(#[trigger] x[i], y[i]),
        value::same(Tree::Tagged(s, Box::new(a)), Tree::Tagged(t, Box::new(b))) <==> s == t && value::same(a, b),
{
}

/// Both mappings hold nothing under a key, or both hold the same document.
pub open spec fn hold_alike(x: Seq<(Tree, Tree)>, y: Seq<(Tree, Tree)>, key: Tree) -> bool {
    match (value::lookup(x, key), value::lookup(y, key)) {
        (Some(u), Some(v)) => value::same(u, v),
        (None, None) => true,
        _ => false,
    }
}

/// What a mapping holds under a key is the value of the entry with that key.
pub proof fn lemma_held(entries: Seq<(Tree, Tree)>, key: Tree)
    requires
        value::distinct_keys(entries),
    ensures
        forall|i: int|
            0 <= i < entries.len() && value::same((#[trigger] entries[i]).0, key) ==> value::lookup(entries, key) == Some(
                entries[i].1,
            ),
        (forall|i: int| 0 <= i < entries.len() ==> !value::same((#[trigger] entries[i]).0, key)) ==> value::lookup(
            entries,
            key,
        ) is None,
{
    value::lemma_find_key(entries, key);
    assert forall|i: int| 0 <= i < entries.len() && value::same((#[trigger] entries[i]).0, key) implies value::lookup(
        entries,
        key,
    ) == Some(entries[i].1) by {
        value::lemma_find_unique(entries, key, i);
    }
}

/// Mappings are the same exactly where they have as many entries and hold the same
/// under every key; the order of their entries does not count.
pub proof fn lemma_same_mappings(x: Seq<(Tree, Tree)>, y: Seq<(Tree, Tree)>)
    requires
        value::distinct_keys(x),
        value::distinct_keys(y),
    ensures
        value::same(Tree::Dict(x), Tree::Dict(y)) <==> x.len() == y.len() && forall|key: Tree| #[trigger]
            hold_alike(x, y, key),
{
    if value::same(Tree::Dict(x), Tree::Dict(y)) {
        assert forall|key: Tree| #[trigger] hold_alike(x, y, key) by {
            value::lemma_find_key(x, key);
            value::lemma_find_key(y, key);
            if let Some(i) = value::find_key(x, key) {
                assert(value::entry_among(x[i], y));
                let j = choose|j: int|
                    0 <= j < y.len() && value::same(x[i].0, (#[trigger] y[j]).0) && value::same(x[i].1, y[j].1);
                value::lemma_same_symmetric(x[i].0, y[j].0);
                value::lemma_same_transitive(y[j].0, x[i].0, key);
                value::lemma_find_unique(y, key, j);
            } else if let Some(j) = value::find_key(y, key) {
                assert(value::among_entry(x, y[j]));
                let i = choose|i: int|
                    0 <= i < x.len() && value::same((#[trigger] x[i]).0, y[j].0) && value::same(x[i].1, y[j].1);
                value::lemma_same_transitive(x[i].0, y[j].0, key);
            }
        }
    }
    if x.len() == y.len() && forall|key: Tree| #[trigger] hold_alike(x, y, key) {
        assert forall|i: int| 0 <= i < x.len() implies value::entry_among(#[trigger] x[i], y) by {
            let key = x[i].0;
            value::lemma_same_reflexive(key);
            value::lemma_find_unique(x, key, i);
            assert(hold_alike(x, y, key));
            value::lemma_find_key(y, key);
            let j = value::find_key(y, key)->0;
            value::lemma_same_symmetric(y[j].0, key);
        }
        assert forall|j: int| 0 <= j < y.len() implies value::among_entry(x, #[trigger] y[j]) by {
            let key = y[j].0;
            value::lemma_same_reflexive(key);
            value::lemma_find_unique(y, key, j);
            assert(hold_alike(x, y, key));
            value::lemma_find_key(x, key);
        }
    }
}

/// Documents of different kinds are never the same.
pub proof fn lemma_kinds_differ(a: Tree, b: Tree)
    requires
        value::same(a, b),
    ensures
        a is Null <==> b is Null,
        a is Bool <==> b is Bool,
        a is Numeral <==> b is Numeral,
        a is Text <==> b is Text,
        a is Sequence <==> b is Sequence,
        a is Dict <==> b is Dict,
        a is Tagged <==> b is Tagged,
{
}

/// Documents are compared by what they mean, and a copy means the same.
pub proof fn lemma_compared(a: Doc, b: Doc, r: bool, c: Doc)
    requires
        call_ensures(value::same_values, (&a, &b), r),
        call_ensures(Doc::clone, (&a,), c),
    ensures
        r <==> value::same(a@, b@),
        c@ == a@,
{
}

/// What a mapping holds under a name is the value of the entry whose key is that
/// text, tags around the mapping aside.
pub proof fn lemma_field(t: Tree, name: Seq<char>)
    requires
        value::well_formed(t),
    ensures
        value::field(t, name) == (match terms::bare(t) {
            Tree::Dict(entries) => value::lookup(entries, Tree::Text(name)),
            _ => None,
        }),
        terms::bare(t) matches Tree::Dict(entries) ==> forall|i: int|
            0 <= i < entries.len() && (#[trigger] entries[i]).0 == Tree::Text(name) ==> value::field(t, name) == Some(
                entries[i].1,
            ),
        terms::bare(t) matches Tree::Dict(entries) ==> (value::field(t, name) is Some ==> exists|i: int|
            0 <= i < entries.len() && (#[trigger] entries[i]).0 == Tree::Text(name)),
{
    terms::lemma_bare(t);
    lemma_bare_well_formed(t);
    if let Tree::Dict(entries) = terms::bare(t) {
        value::lemma_find_key(entries, Tree::Text(name));
        lemma_held(entries, Tree::Text(name));
        assert forall|i: int| 0 <= i < entries.len() && (#[trigger] entries[i]).0 == Tree::Text(name) implies value::field(
            t,
            name,
        ) == Some(entries[i].1) by {
            assert(value::same(entries[i].0, Tree::Text(name)));
        }
        if let Some(i) = value::find_key(entries, Tree::Text(name)) {
            assert(entries[i].0 == Tree::Text(name));
        }
    }
}

proof fn lemma_bare_well_formed(t: Tree)
    requires
        value::well_formed(t),
    ensures
        value::well_formed(terms::bare(t)),
    decreases t,
{
    if let Tree::Tagged(_, inner) = t {
        lemma_bare_well_formed(*inner);
    }
}

/// A document gives its text, its number, its truth, its items and its fields, tags
/// around it aside, and only what it is.
pub proof fn lemma_read_as(
    d: Doc,
    key: &str,
    s: Option<&str>,
    n: Option<i64>,
    b: Option<bool>,
    items: Option<&Vec<Doc>>,
    f: Option<&Doc>,
)
    requires
        call_ensures(Doc::as_str, (&d,), s),
        call_ensures(Doc::as_i64, (&d,), n),
        call_ensures(Doc::as_bool, (&d,), b),
        call_ensures(Doc::as_sequence, (&d,), items),
        call_ensures(Doc::get, (&d, key), f),
    ensures
        match terms::bare(d@) {
            Tree::Text(x) => s matches Some(y) && y@ == x,
            _ => s is None,
        },
        match terms::bare(d@) {
            Tree::Numeral(Num::Int(x)) => if -0x8000_0000_0000_0000 <= x <= 0x7FFF_FFFF_FFFF_FFFF {
                n matches Some(y) && y == x
            } else {
                n is None
            },
            _ => n is None,
        },
        match terms::bare(d@) {
            Tree::Bool(x) => b == Some(x),
            _ => b is None,
        },
        match terms::bare(d@) {
            Tree::Sequence(x) => items matches Some(v) && v@.len() == x.len() && forall|i: int|
                0 <= i < x.len() ==> (#[trigger] v@[i])@ == x[i],
            _ => items is None,
        },
        match terms::bare(d@) {
            Tree::Dict(entries) => match f {
                Some(v) => value::lookup(entries, Tree::Text(key@)) == Some(v@),
                None => value::lookup(entries, Tree::Text(key@)) is None,
            },
            _ => f is None,
        },
{
    terms::lemma_bare(d@);
    if let Some(v) = items {
        assert forall|i: int| 0 <= i < v@.len() implies (#[trigger] v@[i])@ == value::trees(v@)[i] by {}
    }
}

/// A mapping gives what it holds under a key, and how many entries it has.
pub proof fn lemma_mapping_read(m: Dict, key: Doc, i: int, n: usize, at: Option<usize>, v: Option<&Doc>)
    requires
        value::distinct_keys(m@),
        call_ensures(Dict::len, (&m,), n),
        call_ensures(Dict::find, (&m, &key), at),
        call_ensures(Dict::get, (&m, &key), v),
    ensures
        n == m@.len(),
        0 <= i < m@.len() && value::same(m@[i].0, key@) ==> {
            &&& at matches Some(k) && k == i
            &&& v matches Some(d) && d@ == m@[i].1
        },
        (forall|j: int| 0 <= j < m@.len() ==> !value::same((#[trigger] m@[j]).0, key@)) ==> at is None && v is None,
{
    value::lemma_find_key(m@, key@);
    if 0 <= i < m@.len() && value::same(m@[i].0, key@) {
        value::lemma_find_unique(m@, key@, i);
    }
}

/// Setting a key changes what is held under it and nothing else: the entry that has it
/// keeps its place and its key, and a new one comes last.
pub proof fn lemma_mapping_set(m: Dict, key: Doc, v: Doc, r: Dict, other: Tree)
    requires
        value::distinct_keys(m@),
        call_ensures(Dict::with, (m, key, v), r),
    ensures
        value::lookup(r@, other) == (if value::same(key@, other) {
            Some(v@)
        } else {
            value::lookup(m@, other)
        }),
        forall|i: int| 0 <= i < m@.len() ==> (#[trigger] r@[i]).0 == m@[i].0,
        value::lookup(m@, key@) is Some ==> r@.len() == m@.len(),
        value::lookup(m@, key@) is None ==> r@.len() == m@.len() + 1 && r@.last() == (key@, v@),
{
    value::lemma_lookup_inserted(m@, key@, v@, other);
    value::lemma_find_key(m@, key@);
}

/// Taking a key out gives what was held under it and leaves the rest; the last entry
/// takes the place of the one that left.
pub proof fn lemma_mapping_cut(m: Dict, key: Doc, r: (Dict, Option<Doc>), other: Tree, i: int)
    requires
        value::distinct_keys(m@),
        call_ensures(Dict::without, (m, &key), r),
    ensures
        match r.1 {
            Some(d) => value::lookup(m@, key@) == Some(d@),
            None => value::lookup(m@, key@) is None && r.0@ == m@,
        },
        value::lookup(r.0@, other) == (if value::same(key@, other) {
            None
        } else {
            value::lookup(m@, other)
        }),
        0 <= i < m@.len() && value::same(m@[i].0, key@) ==> {
            &&& r.0@.len() == m@.len() - 1
            &&& forall|j: int| 0 <= j < r.0@.len() && j != i ==> #[trigger] r.0@[j] == m@[j]
            &&& i < r.0@.len() ==> r.0@[i] == m@.last()
        },
{
    value::lemma_find_key(m@, key@);
    if let Some(k) = value::find_key(m@, key@) {
        value::lemma_lookup_swap_removed(m@, k, other);
        value::lemma_same_symmetric(m@[k].0, key@);
        if value::same(key@, other) {
            value::lemma_same_transitive(m@[k].0, key@, other);
        }
        if value::same(m@[k].0, other) {
            value::lemma_same_transitive(key@, m@[k].0, other);
        }
        if 0 <= i < m@.len() && value::same(m@[i].0, key@) {
            value::lemma_find_unique(m@, key@, i);
        }
    } else {
        if value::same(key@, other) {
            value::lemma_find_same_key(m@, key@, other);
        }
    }
}

/// A record holds each of its fields under its name, in order.
pub proof fn lemma_record(fields: Vec<(&str, Doc)>, r: Doc, i: int)
    requires
        call_ensures(value::record, (fields,), r),
        0 <= i < fields@.len(),
    ensures
        r@ matches Tree::Dict(e) && e.len() == fields@.len() && e[i] == (Tree::Text(fields@[i].0@), fields@[i].1@),
{
}

/// The plain documents are what they are made of.
pub proof fn lemma_plain_documents(s: &str, t: Doc, n: usize, c: Doc, k: i64, m: Numeral, d: Doc, u: &Doc)
    requires
        call_ensures(Doc::text, (s,), t),
        call_ensures(Doc::count, (n,), c),
        call_ensures(Numeral::from_i64, (k,), m),
        call_ensures(Doc::untag, (&d,), u),
    ensures
        t@ == Tree::Text(s@),
        c@ == terms::number(n as int),
        m@ == Num::Int(k as int),
        u@ == terms::bare(d@),
{
    terms::lemma_bare(d@);
}

}
