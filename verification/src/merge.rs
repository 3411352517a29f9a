//! Deep-merge and per-slot padding for partial presets.
//!
//! - [`merge_over`] overlays a partial mapping onto a base, recursing into nested
//!   mappings; any other value (a sequence too) replaces the base wholesale.
//! - [`slots`] fills a fixed-count area: each supplied slot is merged over that
//!   slot's factory default, and missing trailing slots are the factory's own.

use vstd::prelude::*;
use vstd::string::*;

use crate::text::{self, decimal};
use crate::value::{self, Doc, Tree};

verus! {

/// `overlay` laid over `base`: a mapping over a mapping is merged entry by
/// entry; anything else replaces the base.
pub open spec fn merged(base: Tree, overlay: Tree) -> Tree
    decreases overlay,
{
    match (base, overlay) {
        (Tree::Dict(b), Tree::Dict(o)) => Tree::Dict(merged_entries(b, o)),
        _ => overlay,
    }
}

/// The entries of `o` laid over those of `b`, one after the other: an entry
/// whose key `b` has leaves its place to the last entry and comes last with the
/// merged value; one whose key is new comes last as it is.
pub open spec fn merged_entries(b: Seq<(Tree, Tree)>, o: Seq<(Tree, Tree)>) -> Seq<(Tree, Tree)>
    decreases o,
{
    if o.len() == 0 {
        b
    } else {
        let done = merged_entries(b, o.drop_last());
        let (key, value) = o.last();
        match value::find_key(done, key) {
            Some(i) => value::inserted(value::swap_removed(done, i), key, merged(done[i].1, value)),
            None => value::inserted(done, key, value),
        }
    }
}

/// Deep-merge `overlay` onto `base`: mapping keys present in `overlay` win
/// (recursing into nested mappings); every other value replaces `base` wholesale
/// (so a supplied sequence overrides, never element-merges).
pub fn merge_over(base: Doc, overlay: Doc) -> (r: Doc)
    ensures
        r@ == merged(base@, overlay@),
    decreases overlay@,
{
    match (base, overlay) {
        (Doc::Dict(b), Doc::Dict(o)) => {
            let ghost b0 = b@;
            let ghost o0 = o@;
            let mut acc = b;
            let entries = o.into_entries();
            assert(o0.take(0) =~= Seq::<(Tree, Tree)>::empty());
            for e in it: entries
                invariant
                    value::entry_trees(it.seq()) == o0,
                    acc@ == merged_entries(b0, o0.take(it.index() as int)),
                    decreases_to!(overlay@ => o0),
            {
                let ghost n = it.index() as int;
                let (k, ov) = e;
                assert(o0[n] == (k@, ov@));
                assert(decreases_to!(o0 => o0[n]));
                assert(decreases_to!(o0[n] => o0[n].1));
                assert(o0.take(n + 1).drop_last() =~= o0.take(n));
                assert(o0.take(n + 1).last() == o0[n]);
                let (left, found) = acc.without(&k);
                let value = match found {
                    Some(bv) => merge_over(bv, ov),
                    None => ov,
                };
                acc = left.with(k, value);
            }
            assert(o0.take(o0.len() as int) =~= o0);
            Doc::Dict(acc)
        },
        (_, overlay) => overlay,
    }
}

/// The complaint about more slots than an area has.
pub open spec fn too_many_text(count: nat, label: Seq<char>, given: nat) -> Seq<char> {
    "at most "@ + text::decimal_text(count) + " "@ + label + ", got "@ + text::decimal_text(given)
}

/// An area with `factory.len()` slots: slot `i` is the given one laid over the
/// factory's slot `i`, or the factory's own where none was given.
pub open spec fn filled(given: Seq<Tree>, factory: Seq<Tree>) -> Seq<Tree> {
    Seq::new(
        factory.len(),
        |i: int| if i < given.len() { merged(factory[i], given[i]) } else { factory[i] },
    )
}

/// Reject more slots than an area has.
pub fn check_slot_count(given: usize, count: usize, label: &str) -> (r: Result<(), String>)
    ensures
        r is Ok <==> given <= count,
        r matches Err(e) ==> e@ == too_many_text(count as nat, label@, given as nat),
{
    if given <= count {
        return Ok(());
    }
    let mut e = String::new();
    e.append("at most ");
    e.append(decimal(count as u64).as_str());
    e.append(" ");
    e.append(label);
    e.append(", got ");
    e.append(decimal(given as u64).as_str());
    assert(e@ =~= too_many_text(count as nat, label@, given as nat));
    Err(e)
}

/// Build the canonical-count vector for one area: each slot `i` is the supplied
/// element (if any) merged over `factory[i]`, and missing trailing slots are the
/// bare factory slot. Rejects more elements than `factory` has.
pub fn slots(given: Vec<Doc>, label: &str, factory: Vec<Doc>) -> (r: Result<Vec<Doc>, String>)
    ensures
        r is Ok <==> given@.len() <= factory@.len(),
        r matches Ok(v) ==> value::trees(v@) == filled(value::trees(given@), value::trees(factory@)),
        r matches Err(e) ==> e@ == too_many_text(factory@.len(), label@, given@.len()),
{
    check_slot_count(given.len(), factory.len(), label)?;
    let ghost f0 = value::trees(factory@);
    let ghost g0 = value::trees(given@);
    let mut out: Vec<Doc> = Vec::new();
    for base in it: factory
        invariant
            value::trees(it.seq()) == f0,
            value::trees(given@) == g0,
            value::trees(out@) == filled(g0, f0).take(it.index() as int),
    {
        let i: usize = out.len();
        assert(i == it.index()) by {
            assert(value::trees(out@).len() == it.index());
        }
        assert(f0[i as int] == base@);
        let slot = if i < given.len() {
            assert(g0[i as int] == given@[i as int]@);
            merge_over(base, given[i].clone())
        } else {
            base
        };
        out.push(slot);
        assert(value::trees(out@) =~= filled(g0, f0).take(i + 1));
    }
    assert(filled(g0, f0).take(f0.len() as int) =~= filled(g0, f0));
    Ok(out)
}

// === laws ===

/// Merging keeps the keys of a mapping distinct.
pub proof fn lemma_merged_distinct(b: Seq<(Tree, Tree)>, o: Seq<(Tree, Tree)>)
    requires
        value::distinct_keys(b),
    ensures
        value::distinct_keys(merged_entries(b, o)),
    decreases o,
{
    if o.len() > 0 {
        let done = merged_entries(b, o.drop_last());
        let (key, value) = o.last();
        lemma_merged_distinct(b, o.drop_last());
        value::lemma_find_key(done, key);
        match value::find_key(done, key) {
            Some(i) => {
                value::lemma_swap_removed_distinct(done, i);
                value::lemma_inserted_distinct(
                    value::swap_removed(done, i),
                    key,
                    merged(done[i].1, value),
                );
            },
            None => {
                value::lemma_inserted_distinct(done, key, value);
            },
        }
    }
}

/// What a merged mapping holds under a key: both values merged where both
/// mappings have the key, and otherwise the value of the one that has it.
pub proof fn lemma_merged_lookup(b: Seq<(Tree, Tree)>, o: Seq<(Tree, Tree)>, q: Tree)
    requires
        value::distinct_keys(b),
        value::distinct_keys(o),
    ensures
        value::lookup(merged_entries(b, o), q) == (match (value::lookup(b, q), value::lookup(o, q)) {
            (Some(x), Some(y)) => Some(merged(x, y)),
            (Some(x), None) => Some(x),
            (None, y) => y,
        }),
    decreases o,
{
    value::lemma_find_key(b, q);
    value::lemma_find_key(o, q);
    if o.len() > 0 {
        let init = o.drop_last();
        let done = merged_entries(b, init);
        let (key, value) = o.last();
        assert(value::distinct_keys(init)) by {
            assert forall|i: int, j: int| 0 <= i < j < init.len() implies !value::same((#[trigger] init[i]).0, (#[trigger] init[j]).0) by {
                assert(init[i] == o[i] && init[j] == o[j]);
            }
        }
        lemma_merged_lookup(b, init, q);
        lemma_merged_distinct(b, init);
        value::lemma_find_key(done, key);
        value::lemma_find_key(init, q);
        let last = o.len() - 1;
        assert(value::same(key, q) ==> value::find_key(o, q) == Some(last) && value::find_key(init, q) is None) by {
            if value::same(key, q) {
                value::lemma_find_unique(o, q, last);
                if let Some(j) = value::find_key(init, q) {
                    assert(init[j] == o[j]);
                    value::lemma_find_unique(o, q, j);
                }
            }
        }
        assert(!value::same(key, q) ==> value::lookup(o, q) == value::lookup(init, q)) by {
            if let Some(j) = value::find_key(init, q) {
                assert(init[j] == o[j]);
            }
        }
        match value::find_key(done, key) {
            Some(i) => {
                let cut = value::swap_removed(done, i);
                value::lemma_swap_removed_distinct(done, i);
                value::lemma_lookup_swap_removed(done, i, q);
                value::lemma_lookup_inserted(cut, key, merged(done[i].1, value), q);
                if value::same(key, q) {
                    value::lemma_find_same_key(done, key, q);
                } else if value::same(done[i].0, q) {
                    value::lemma_same_symmetric(done[i].0, key);
                    value::lemma_same_transitive(key, done[i].0, q);
                }
            },
            None => {
                value::lemma_lookup_inserted(done, key, value, q);
                if value::same(key, q) {
                    value::lemma_find_same_key(done, key, q);
                }
            },
        }
    }
}

/// Laying entries over a mapping that has all their keys adds none.
proof fn lemma_merged_len(b: Seq<(Tree, Tree)>, o: Seq<(Tree, Tree)>)
    requires
        value::distinct_keys(b),
        value::distinct_keys(o),
        forall|i: int| 0 <= i < o.len() ==> value::lookup(b, (#[trigger] o[i]).0) is Some,
    ensures
        merged_entries(b, o).len() == b.len(),
    decreases o,
{
    if o.len() > 0 {
        let init = o.drop_last();
        let done = merged_entries(b, init);
        let key = o.last().0;
        assert forall|i: int| 0 <= i < init.len() implies value::lookup(b, (#[trigger] init[i]).0) is Some by {
            assert(init[i] == o[i]);
        }
        assert forall|i: int, j: int| 0 <= i < j < init.len() implies !value::same((#[trigger] init[i]).0, (#[trigger] init[j]).0) by {
            assert(init[i] == o[i] && init[j] == o[j]);
        }
        lemma_merged_len(b, init);
        lemma_merged_lookup(b, init, key);
        lemma_merged_distinct(b, init);
        value::lemma_find_key(done, key);
        assert(value::lookup(b, o[o.len() - 1].0) is Some);
        let i = value::find_key(done, key)->0;
        value::lemma_lookup_swap_removed(done, i, key);
    }
}

/// Mappings of one size that hold the same under every key are the same.
proof fn lemma_same_by_lookup(x: Seq<(Tree, Tree)>, y: Seq<(Tree, Tree)>)
    requires
        value::distinct_keys(x),
        value::distinct_keys(y),
        x.len() == y.len(),
        forall|q: Tree|
            #![trigger value::lookup(x, q)]
            #![trigger value::lookup(y, q)]
            match (value::lookup(x, q), value::lookup(y, q)) {
                (Some(u), Some(v)) => value::same(u, v),
                (u, v) => u is None && v is None,
            },
    ensures
        value::same(Tree::Dict(x), Tree::Dict(y)),
{
    assert forall|i: int| 0 <= i < x.len() implies value::entry_among(#[trigger] x[i], y) by {
        let q = x[i].0;
        value::lemma_same_reflexive(q);
        value::lemma_find_unique(x, q, i);
        assert(value::lookup(x, q) == Some(x[i].1));
        value::lemma_find_key(y, q);
        let j = value::find_key(y, q)->0;
        value::lemma_same_symmetric(y[j].0, q);
    }
    assert forall|j: int| 0 <= j < y.len() implies value::among_entry(x, #[trigger] y[j]) by {
        let q = y[j].0;
        value::lemma_same_reflexive(q);
        value::lemma_find_unique(y, q, j);
        assert(value::lookup(y, q) == Some(y[j].1));
        value::lemma_find_key(x, q);
    }
}

/// A document laid over itself is the same document.
pub proof fn lemma_merge_self(t: Tree)
    requires
        value::well_formed(t),
    ensures
        value::same(merged(t, t), t),
    decreases t,
{
    value::lemma_same_reflexive(t);
    if let Tree::Dict(o) = t {
        let m = merged_entries(o, o);
        lemma_merged_distinct(o, o);
        assert forall|i: int| 0 <= i < o.len() implies value::lookup(o, (#[trigger] o[i]).0) is Some by {
            value::lemma_same_reflexive(o[i].0);
            value::lemma_find_unique(o, o[i].0, i);
        }
        lemma_merged_len(o, o);
        assert forall|q: Tree|
            #![trigger value::lookup(m, q)]
            #![trigger value::lookup(o, q)]
            match (value::lookup(m, q), value::lookup(o, q)) {
                (Some(u), Some(v)) => value::same(u, v),
                (u, v) => u is None && v is None,
            } by {
            lemma_merged_lookup(o, o, q);
            value::lemma_find_key(o, q);
            if let Some(k) = value::find_key(o, q) {
                assert(value::well_formed(o[k].1));
                assert(decreases_to!(o => o[k]));
                assert(decreases_to!(o[k] => o[k].1));
                lemma_merge_self(o[k].1);
            }
        }
        lemma_same_by_lookup(m, o);
    }
}

/// Laying the same overlay twice gives the same document as laying it once.
pub proof fn lemma_merge_idempotent(base: Tree, overlay: Tree)
    requires
        value::well_formed(base),
        value::well_formed(overlay),
    ensures
        value::same(merged(merged(base, overlay), overlay), merged(base, overlay)),
    decreases overlay,
{
    lemma_merge_self(overlay);
    if let (Tree::Dict(b), Tree::Dict(o)) = (base, overlay) {
        let once = merged_entries(b, o);
        let twice = merged_entries(once, o);
        lemma_merged_distinct(b, o);
        lemma_merged_distinct(once, o);
        assert forall|i: int| 0 <= i < o.len() implies value::lookup(once, (#[trigger] o[i]).0) is Some by {
            value::lemma_same_reflexive(o[i].0);
            value::lemma_find_unique(o, o[i].0, i);
            lemma_merged_lookup(b, o, o[i].0);
        }
        lemma_merged_len(once, o);
        assert forall|q: Tree|
            #![trigger value::lookup(twice, q)]
            #![trigger value::lookup(once, q)]
            match (value::lookup(twice, q), value::lookup(once, q)) {
                (Some(u), Some(v)) => value::same(u, v),
                (u, v) => u is None && v is None,
            } by {
            lemma_merged_lookup(b, o, q);
            lemma_merged_lookup(once, o, q);
            value::lemma_find_key(o, q);
            value::lemma_find_key(b, q);
            if let Some(v) = value::lookup(once, q) {
                value::lemma_same_reflexive(v);
            }
            if let Some(k) = value::find_key(o, q) {
                assert(value::well_formed(o[k].1));
                assert(decreases_to!(o => o[k]));
                assert(decreases_to!(o[k] => o[k].1));
                lemma_merge_self(o[k].1);
                if let Some(j) = value::find_key(b, q) {
                    assert(value::well_formed(b[j].1));
                    lemma_merge_idempotent(b[j].1, o[k].1);
                }
            }
        }
        lemma_same_by_lookup(twice, once);
    }
}

/// An overlay without entries leaves a mapping as it is, and an overlay that is no
/// mapping replaces whatever it is laid over.
pub proof fn lemma_merge_edges(base: Tree, b: Seq<(Tree, Tree)>, overlay: Tree)
    ensures
        merged(Tree::Dict(b), Tree::Dict(seq![])) == Tree::Dict(b),
        overlay !is Dict ==> merged(base, overlay) == overlay,
{
}

/// A slot that was not given is the factory's own, and one that was given is laid
/// over the factory's; there are always as many as the factory has.
pub proof fn lemma_filled_slots(given: Seq<Tree>, factory: Seq<Tree>, i: int)
    requires
        0 <= i < factory.len(),
    ensures
        filled(given, factory).len() == factory.len(),
        i >= given.len() ==> filled(given, factory)[i] == factory[i],
        i < given.len() ==> filled(given, factory)[i] == merged(factory[i], given[i]),
{
}

/// Every key and value of some entries is well formed.
pub open spec fn well_formed_entries(entries: Seq<(Tree, Tree)>) -> bool {
    forall|i: int|
        0 <= i < entries.len() ==> value::well_formed((#[trigger] entries[i]).0) && value::well_formed(entries[i].1)
}

/// Merging documents that are well formed gives one that is.
pub proof fn lemma_merged_well_formed(base: Tree, overlay: Tree)
    requires
        value::well_formed(base),
        value::well_formed(overlay),
    ensures
        value::well_formed(merged(base, overlay)),
    decreases overlay,
{
    if let (Tree::Dict(b), Tree::Dict(o)) = (base, overlay) {
        lemma_merged_entries_well_formed(b, o);
        lemma_merged_distinct(b, o);
    }
}

proof fn lemma_merged_entries_well_formed(b: Seq<(Tree, Tree)>, o: Seq<(Tree, Tree)>)
    requires
        well_formed_entries(b),
        well_formed_entries(o),
    ensures
        well_formed_entries(merged_entries(b, o)),
    decreases o,
{
    if o.len() > 0 {
        let init = o.drop_last();
        let done = merged_entries(b, init);
        let (key, value) = o.last();
        assert forall|i: int| 0 <= i < init.len() implies value::well_formed((#[trigger] init[i]).0) && value::well_formed(
            init[i].1,
        ) by {
            assert(init[i] == o[i]);
        }
        lemma_merged_entries_well_formed(b, init);
        assert(value::well_formed(o[o.len() - 1].0) && value::well_formed(o[o.len() - 1].1));
        value::lemma_find_key(done, key);
        match value::find_key(done, key) {
            Some(i) => {
                let cut = value::swap_removed(done, i);
                assert(value::well_formed(done[i].1));
                assert(decreases_to!(o => o[o.len() - 1]));
                assert(decreases_to!(o[o.len() - 1] => o[o.len() - 1].1));
                lemma_merged_well_formed(done[i].1, value);
                assert(well_formed_entries(cut)) by {
                    assert forall|k: int| 0 <= k < cut.len() implies value::well_formed((#[trigger] cut[k]).0)
                        && value::well_formed(cut[k].1) by {
                        assert(cut[k] == done[k] || cut[k] == done[done.len() - 1]);
                    }
                }
                lemma_inserted_well_formed(cut, key, merged(done[i].1, value));
            },
            None => {
                lemma_inserted_well_formed(done, key, value);
            },
        }
    }
}

proof fn lemma_inserted_well_formed(entries: Seq<(Tree, Tree)>, key: Tree, value: Tree)
    requires
        well_formed_entries(entries),
        value::well_formed(key),
        value::well_formed(value),
    ensures
        well_formed_entries(value::inserted(entries, key, value)),
{
    let out = value::inserted(entries, key, value);
    value::lemma_find_key(entries, key);
    assert forall|k: int| 0 <= k < out.len() implies value::well_formed((#[trigger] out[k]).0) && value::well_formed(
        out[k].1,
    ) by {
        if k < entries.len() {
            assert(value::well_formed(entries[k].0) && value::well_formed(entries[k].1));
        }
    }
}

}
