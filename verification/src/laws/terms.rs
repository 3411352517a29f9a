//! Words that the laws share.

use vstd::prelude::*;

use crate::search;
use crate::text;
use crate::value::{self, Num, Tree};

verus! {

// === texts ===

/// `part` stands in `whole`, with something (or nothing) before and after it.
pub open spec fn stands_within(whole: Seq<char>, part: Seq<char>) -> bool {
    exists|before: Seq<char>, after: Seq<char>| whole == #[trigger] (before + part + after)
}

/// A text contains another exactly where the other stands in it.
pub proof fn lemma_contains(hay: Seq<char>, needle: Seq<char>)
    ensures
        text::contains_text(hay, needle) <==> stands_within(hay, needle),
{
    if text::contains_text(hay, needle) {
        let i = choose|i: int| text::occurs_at(hay, needle, i);
        let before = hay.subrange(0, i);
        let after = hay.subrange(i + needle.len(), hay.len() as int);
        assert(hay =~= before + needle + after) by {
            assert(hay.subrange(i, i + needle.len()) == needle);
            assert forall|k: int| 0 <= k < hay.len() implies hay[k] == (before + needle + after)[k] by {
                if i <= k < i + needle.len() {
                    assert(hay.subrange(i, i + needle.len())[k - i] == needle[k - i]);
                }
            }
        }
    }
    if stands_within(hay, needle) {
        let (before, after) = choose|before: Seq<char>, after: Seq<char>| hay == #[trigger] (before + needle + after);
        let i = before.len() as int;
        assert(hay.subrange(i, i + needle.len()) =~= needle);
        assert(text::occurs_at(hay, needle, i));
    }
}

/// One character is another's ASCII letter in the other case, or the same.
pub open spec fn same_letter(a: char, b: char) -> bool {
    ||| a == b
    ||| 'A' <= a <= 'Z' && b as int == a as int + 32
    ||| 'A' <= b <= 'Z' && a as int == b as int + 32
}

/// Two texts agree letter for letter, whatever the case of their ASCII letters.
pub open spec fn same_letters(a: Seq<char>, b: Seq<char>) -> bool {
    a.len() == b.len() && forall|i: int| 0 <= i < a.len() ==> same_letter(#[trigger] a[i], b[i])
}

/// Ignoring ASCII case means that texts agree letter for letter.
pub proof fn lemma_ascii_case(a: Seq<char>, b: Seq<char>)
    ensures
        text::equal_but_ascii_case(a, b) <==> same_letters(a, b),
{
    assert forall|c: char, d: char| text::ascii_lower(c) == text::ascii_lower(d) <==> same_letter(c, d) by {}
    if text::equal_but_ascii_case(a, b) {
        assert forall|i: int| 0 <= i < a.len() implies same_letter(#[trigger] a[i], b[i]) by {
            assert(text::ascii_lower(a[i]) == text::ascii_lower(b[i]));
        }
    }
    if same_letters(a, b) {
        assert forall|i: int| 0 <= i < a.len() implies text::ascii_lower(#[trigger] a[i]) == text::ascii_lower(b[i]) by {
            assert(same_letter(a[i], b[i]));
        }
    }
}

/// A text mentions another: in lower case, the other stands in it.
pub open spec fn speaks_of(hay: Seq<char>, needle: Seq<char>) -> bool {
    stands_within(text::lowercase_text(hay), text::lowercase_text(needle))
}

// === documents ===

/// A document without the tags around it.
pub open spec fn bare(t: Tree) -> Tree
    decreases t,
{
    match t {
        Tree::Tagged(_, inner) => bare(*inner),
        _ => t,
    }
}

/// Taking the tags off gives what they stand around.
pub proof fn lemma_bare(t: Tree)
    ensures
        value::untagged(t) == bare(t),
    decreases t,
{
    if let Tree::Tagged(_, inner) = t {
        lemma_bare(*inner);
    }
}

/// A mapping has these keys, in this order, and no others.
pub open spec fn has_keys(t: Tree, names: Seq<Seq<char>>) -> bool {
    &&& t matches Tree::Dict(entries)
    &&& entries.len() == names.len()
    &&& forall|i: int| 0 <= i < names.len() ==> (#[trigger] entries[i]).0 == Tree::Text(names[i])
}

/// A number as a document.
pub open spec fn number(n: int) -> Tree {
    Tree::Numeral(Num::Int(n))
}

// === picking items ===

/// `hits` are the positions in `s` of the items that are wanted: all of them, each
/// once, in order.
pub open spec fn picks<A>(s: Seq<A>, wanted: spec_fn(A) -> bool, hits: Seq<int>) -> bool {
    &&& forall|k: int| 0 <= k < hits.len() ==> 0 <= #[trigger] hits[k] < s.len() && wanted(s[hits[k]])
    &&& forall|j: int, k: int| 0 <= j < k < hits.len() ==> #[trigger] hits[j] < #[trigger] hits[k]
    &&& forall|i: int| 0 <= i < s.len() && wanted(#[trigger] s[i]) ==> hits.contains(i)
}

/// The items at some positions.
pub open spec fn items_at<A>(s: Seq<A>, hits: Seq<int>) -> Seq<A> {
    Seq::new(hits.len(), |k: int| s[hits[k]])
}

/// Filtering gives the items that are wanted.
pub proof fn lemma_filter_picks<A>(s: Seq<A>, wanted: spec_fn(A) -> bool) -> (hits: Seq<int>)
    ensures
        picks(s, wanted, hits),
        s.filter(wanted) == items_at(s, hits),
    decreases s.len(),
{
    reveal(Seq::filter);
    if s.len() == 0 {
        assert(s.filter(wanted) =~= items_at(s, seq![]));
        seq![]
    } else {
        let init = s.drop_last();
        let before = lemma_filter_picks(init, wanted);
        let hits = if wanted(s.last()) {
            before.push(s.len() - 1)
        } else {
            before
        };
        assert forall|k: int| 0 <= k < hits.len() implies 0 <= #[trigger] hits[k] < s.len() && wanted(s[hits[k]]) by {
            if k < before.len() {
                assert(hits[k] == before[k]);
                assert(init[before[k]] == s[before[k]]);
            }
        }
        assert forall|j: int, k: int| 0 <= j < k < hits.len() implies #[trigger] hits[j] < #[trigger] hits[k] by {
            assert(hits[j] == before[j]);
            if k < before.len() {
                assert(hits[k] == before[k]);
            }
        }
        assert forall|i: int| 0 <= i < s.len() && wanted(#[trigger] s[i]) implies hits.contains(i) by {
            if i < init.len() {
                assert(wanted(init[i]));
                let k = choose|k: int| 0 <= k < before.len() && before[k] == i;
                assert(hits[k] == i);
            } else {
                assert(hits[before.len() as int] == i);
            }
        }
        assert(items_at(s, before) =~= items_at(init, before)) by {
            assert forall|k: int| 0 <= k < before.len() implies s[before[k]] == init[before[k]] by {
                assert(0 <= before[k] < init.len());
            }
        }
        assert(s.filter(wanted) =~= items_at(s, hits));
        hits
    }
}

/// What is wanted may be said in two ways.
pub proof fn lemma_picks_alike<A>(s: Seq<A>, a: spec_fn(A) -> bool, b: spec_fn(A) -> bool, hits: Seq<int>)
    requires
        picks(s, a, hits),
        forall|x: A| #[trigger] a(x) == b(x),
    ensures
        picks(s, b, hits),
{
    assert forall|i: int| 0 <= i < s.len() && b(#[trigger] s[i]) implies hits.contains(i) by {
        assert(a(s[i]));
    }
}

/// There are no more positions than items.
pub proof fn lemma_picked_no_more<A>(s: Seq<A>, wanted: spec_fn(A) -> bool, hits: Seq<int>)
    requires
        picks(s, wanted, hits),
    ensures
        hits.len() <= s.len(),
        forall|k: int| 0 <= k < hits.len() ==> k <= #[trigger] hits[k],
{
    assert forall|k: int| 0 <= k < hits.len() implies k <= #[trigger] hits[k] by {
        lemma_position_grows(hits, k);
    }
    if hits.len() > 0 {
        assert(hits.len() - 1 <= hits[hits.len() - 1]);
    }
}

proof fn lemma_position_grows(hits: Seq<int>, k: int)
    requires
        0 <= k < hits.len(),
        0 <= hits[0],
        forall|i: int, j: int| 0 <= i < j < hits.len() ==> #[trigger] hits[i] < #[trigger] hits[j],
    ensures
        k <= hits[k],
    decreases k,
{
    if k > 0 {
        lemma_position_grows(hits, k - 1);
        assert(hits[k - 1] < hits[k]);
    }
}

/// The smaller of two counts.
pub open spec fn least(a: int, b: int) -> int {
    if a <= b {
        a
    } else {
        b
    }
}

/// A page holds the items from `offset` on, as many as there are and are asked for.
pub proof fn lemma_page_items<A>(s: Seq<A>, offset: nat, limit: nat)
    ensures
        offset >= s.len() ==> search::page_of(s, offset, limit).len() == 0,
        offset <= s.len() ==> search::page_of(s, offset, limit).len() == least(limit as int, s.len() - offset),
        forall|k: int|
            0 <= k < search::page_of(s, offset, limit).len() ==> #[trigger] search::page_of(s, offset, limit)[k] == s[offset
                + k],
{
}

}
