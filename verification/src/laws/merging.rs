//! Laying a partial document over a whole one, place by place.

use vstd::prelude::*;

use crate::merge::{self, check_slot_count, merge_over, slots};
use crate::text;
use crate::value::{self, Doc, Tree};

verus! {

/// What a document holds along some keys, one mapping within another.
pub open spec fn along(t: Tree, keys: Seq<Tree>) -> Option<Tree>
    decreases keys.len(),
{
    if keys.len() == 0 {
        Some(t)
    } else {
        match t {
            Tree::Dict(entries) => match value::lookup(entries, keys[0]) {
                Some(c) => along(c, keys.skip(1)),
                None => None,
            },
            _ => None,
        }
    }
}

/// A document has something other than a mapping on the way along some keys.
pub open spec fn is_cut(t: Tree, keys: Seq<Tree>) -> bool {
    exists|k: int| 0 <= k < keys.len() && (#[trigger] along(t, keys.take(k)) matches Some(x) && x !is Dict)
}

/// Along some keys, `r` holds what laying `overlay` over `base` is to give there: what
/// the overlay holds wherever it holds anything but a mapping, or a mapping over
/// something else; a mapping where both hold one; and what the base holds where the
/// overlay says nothing of it.
pub open spec fn laid_along(base: Tree, overlay: Tree, r: Tree, keys: Seq<Tree>) -> bool {
    match along(overlay, keys) {
        Some(o) => if o is Dict && (along(base, keys) matches Some(b) && b is Dict) {
            along(r, keys) matches Some(x) && x is Dict
        } else {
            along(r, keys) == Some(o)
        },
        None => if is_cut(overlay, keys) {
            along(r, keys) is None
        } else {
            along(r, keys) == along(base, keys)
        },
    }
}

/// `r` is `overlay` laid over `base`, everywhere.
pub open spec fn is_laid_over(base: Tree, overlay: Tree, r: Tree) -> bool {
    forall|keys: Seq<Tree>| #[trigger] laid_along(base, overlay, r, keys)
}

proof fn lemma_cut_below(t: Tree, keys: Seq<Tree>)
    requires
        keys.len() > 0,
    ensures
        t !is Dict ==> is_cut(t, keys),
        t matches Tree::Dict(e) ==> match value::lookup(e, keys[0]) {
            Some(c) => is_cut(t, keys) <==> is_cut(c, keys.skip(1)),
            None => !is_cut(t, keys),
        },
{
    let rest = keys.skip(1);
    assert(keys.take(0) =~= Seq::<Tree>::empty());
    if t !is Dict {
        assert(along(t, keys.take(0)) == Some(t));
    }
    if let Tree::Dict(e) = t {
        assert forall|k: int| 1 <= k <= keys.len() implies #[trigger] along(t, keys.take(k)) == (match value::lookup(
            e,
            keys[0],
        ) {
            Some(c) => along(c, rest.take(k - 1)),
            None => None,
        }) by {
            assert(keys.take(k).skip(1) =~= rest.take(k - 1));
        }
        if is_cut(t, keys) {
            let k = choose|k: int|
                0 <= k < keys.len() && (#[trigger] along(t, keys.take(k)) matches Some(x) && x !is Dict);
            assert(k > 0);
            if let Some(c) = value::lookup(e, keys[0]) {
                assert(along(c, rest.take(k - 1)) == along(t, keys.take(k)));
            }
        }
        if let Some(c) = value::lookup(e, keys[0]) {
            if is_cut(c, rest) {
                let k = choose|k: int|
                    0 <= k < rest.len() && (#[trigger] along(c, rest.take(k)) matches Some(x) && x !is Dict);
                assert(along(t, keys.take(k + 1)) == along(c, rest.take(k)));
            }
        }
    }
}

proof fn lemma_merged_along(base: Tree, overlay: Tree, keys: Seq<Tree>)
    requires
        value::well_formed(base),
        value::well_formed(overlay),
    ensures
        laid_along(base, overlay, merge::merged(base, overlay), keys),
    decreases keys.len(),
{
    let r = merge::merged(base, overlay);
    if keys.len() > 0 {
        lemma_cut_below(overlay, keys);
        let rest = keys.skip(1);
        if let (Tree::Dict(b), Tree::Dict(o)) = (base, overlay) {
            merge::lemma_merged_lookup(b, o, keys[0]);
            value::lemma_find_key(b, keys[0]);
            value::lemma_find_key(o, keys[0]);
            if let (Some(i), Some(j)) = (value::find_key(b, keys[0]), value::find_key(o, keys[0])) {
                assert(value::well_formed(b[i].1) && value::well_formed(o[j].1));
                lemma_merged_along(b[i].1, o[j].1, rest);
            }
            if let (None, Some(j)) = (value::find_key(b, keys[0]), value::find_key(o, keys[0])) {
                let c = o[j].1;
                if along(c, rest) is None {
                    assert(along(r, keys) is None);
                }
            }
        }
    }
}

/// Merging lays the overlay over the base, mapping by mapping: what the overlay says
/// wins, and what it does not speak of stays.
pub proof fn lemma_merged_everywhere(base: Tree, overlay: Tree)
    requires
        value::well_formed(base),
        value::well_formed(overlay),
    ensures
        is_laid_over(base, overlay, merge::merged(base, overlay)),
{
    assert forall|keys: Seq<Tree>| #[trigger] laid_along(base, overlay, merge::merged(base, overlay), keys) by {
        lemma_merged_along(base, overlay, keys);
    }
}

/// Merging two documents.
pub proof fn lemma_merge_given(base: Doc, overlay: Doc, r: Doc)
    requires
        call_ensures(merge_over, (base, overlay), r),
        value::well_formed(base@),
        value::well_formed(overlay@),
    ensures
        is_laid_over(base@, overlay@, r@),
{
    lemma_merged_everywhere(base@, overlay@);
}

/// In which order a merged mapping has its entries: an entry whose key the base has
/// comes last, and the entry that was last takes the place that it leaves; an entry
/// whose key is new comes last; and more entries are laid one after the other.
pub proof fn lemma_merge_order(
    b: Seq<(Tree, Tree)>,
    o: Seq<(Tree, Tree)>,
    more: Seq<(Tree, Tree)>,
    key: Tree,
    held: Tree,
    i: int,
)
    requires
        value::distinct_keys(b),
    ensures
        0 <= i < b.len() && value::same(b[i].0, key) ==> merge::merged(Tree::Dict(b), Tree::Dict(seq![(key, held)]))
            == Tree::Dict(b.update(i, b.last()).drop_last().push((key, merge::merged(b[i].1, held)))),
        (forall|j: int| 0 <= j < b.len() ==> !value::same((#[trigger] b[j]).0, key)) ==> merge::merged(
            Tree::Dict(b),
            Tree::Dict(seq![(key, held)]),
        ) == Tree::Dict(b.push((key, held))),
        merge::merged(Tree::Dict(b), Tree::Dict(o + more)) == merge::merged(
            merge::merged(Tree::Dict(b), Tree::Dict(o)),
            Tree::Dict(more),
        ),
    decreases more.len(),
{
    let one = seq![(key, held)];
    assert(one.drop_last() =~= Seq::<(Tree, Tree)>::empty());
    assert(merge::merged_entries(b, one.drop_last()) == b);
    value::lemma_find_key(b, key);
    if 0 <= i < b.len() && value::same(b[i].0, key) {
        value::lemma_find_unique(b, key, i);
        let cut = value::swap_removed(b, i);
        value::lemma_swap_removed_distinct(b, i);
        value::lemma_lookup_swap_removed(b, i, key);
        assert(merge::merged_entries(b, one) =~= b.update(i, b.last()).drop_last().push(
            (key, merge::merged(b[i].1, held)),
        ));
    }
    if more.len() == 0 {
        assert(o + more =~= o);
    } else {
        assert((o + more).drop_last() =~= o + more.drop_last());
        lemma_merge_order(b, o, more.drop_last(), key, held, i);
    }
}

/// Filling an area's slots gives one document for each slot of the factory: the one
/// given, laid over the factory's, or the factory's own; and more than there are slots
/// are refused.
pub proof fn lemma_slots_filled(given: Vec<Doc>, label: &str, factory: Vec<Doc>, r: Result<Vec<Doc>, String>)
    requires
        call_ensures(slots, (given, label, factory), r),
        forall|i: int| 0 <= i < given@.len() ==> value::well_formed((#[trigger] given@[i])@),
        forall|i: int| 0 <= i < factory@.len() ==> value::well_formed((#[trigger] factory@[i])@),
    ensures
        given@.len() > factory@.len() ==> (r matches Err(e) && e@ == "at most "@ + text::decimal_text(factory@.len())
            + " "@ + label@ + ", got "@ + text::decimal_text(given@.len())),
        given@.len() <= factory@.len() ==> (r matches Ok(v) && v@.len() == factory@.len() && forall|i: int|
            0 <= i < v@.len() ==> if i < given@.len() {
                is_laid_over(factory@[i]@, given@[i]@, (#[trigger] v@[i])@)
            } else {
                v@[i]@ == factory@[i]@
            }),
{
    if let Ok(v) = r {
        let all = value::trees(v@);
        assert(all.len() == factory@.len());
        assert forall|i: int| 0 <= i < v@.len() implies if i < given@.len() {
            is_laid_over(factory@[i]@, given@[i]@, (#[trigger] v@[i])@)
        } else {
            v@[i]@ == factory@[i]@
        } by {
            assert(all[i] == v@[i]@);
            assert(value::trees(factory@)[i] == factory@[i]@);
            if i < given@.len() {
                assert(value::trees(given@)[i] == given@[i]@);
                lemma_merged_everywhere(factory@[i]@, given@[i]@);
            }
        }
    }
}

/// More slots than there are are refused, and no fewer.
pub proof fn lemma_slots_counted(given: usize, count: usize, label: &str, r: Result<(), String>)
    requires
        call_ensures(check_slot_count, (given, count, label), r),
    ensures
        given <= count <==> r is Ok,
{
}

}
