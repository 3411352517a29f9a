//! Areas: which area a name finds.

use vstd::prelude::*;

use crate::device::{self, Area};
use crate::laws::terms;
use crate::text;

verus! {

/// A name without its `-` and `_`.
pub open spec fn letters(s: Seq<char>) -> Seq<char>
    decreases s.len(),
{
    if s.len() == 0 {
        seq![]
    } else if s.last() == '-' || s.last() == '_' {
        letters(s.drop_last())
    } else {
        letters(s.drop_last()).push(s.last())
    }
}

/// A name of ASCII characters.
pub open spec fn is_ascii_name(s: Seq<char>) -> bool {
    forall|i: int| 0 <= i < s.len() ==> 0 <= (#[trigger] s[i]) as int <= 0x7F
}

/// Each ASCII letter in lower case.
pub open spec fn all_lower(s: Seq<char>) -> Seq<char> {
    Seq::new(s.len(), |i: int| text::ascii_lower(s[i]))
}

proof fn lemma_normalized_ascii(s: Seq<char>)
    requires
        is_ascii_name(s),
    ensures
        device::normalized(s) == all_lower(letters(s)),
    decreases s.len(),
{
    if s.len() > 0 {
        let init = s.drop_last();
        assert forall|i: int| 0 <= i < init.len() implies 0 <= (#[trigger] init[i]) as int <= 0x7F by {
            assert(init[i] == s[i]);
        }
        lemma_normalized_ascii(init);
        assert(0 <= s[s.len() - 1] as int <= 0x7F);
        if s.last() != '-' && s.last() != '_' {
            assert(device::normalized(s) =~= all_lower(letters(s)));
        }
    } else {
        assert(device::normalized(s) =~= all_lower(letters(s)));
    }
}

/// A name finds an area exactly where both have the same letters, whatever their
/// case, `-` and `_` aside.
pub proof fn lemma_name_matches(a: Area, name: Seq<char>)
    requires
        is_ascii_name(a.name@),
        is_ascii_name(name),
    ensures
        device::area_matches(a, name) <==> terms::same_letters(letters(a.name@), letters(name)),
{
    lemma_normalized_ascii(a.name@);
    lemma_normalized_ascii(name);
    let x = letters(a.name@);
    let y = letters(name);
    terms::lemma_ascii_case(x, y);
    if all_lower(x) == all_lower(y) {
        assert(all_lower(x).len() == all_lower(y).len());
        assert forall|i: int| 0 <= i < x.len() implies text::ascii_lower(#[trigger] x[i]) == text::ascii_lower(y[i]) by {
            assert(all_lower(x)[i] == all_lower(y)[i]);
        }
    }
    if text::equal_but_ascii_case(x, y) {
        assert(all_lower(x) =~= all_lower(y));
    }
}

/// Two areas whose names have the same letters in the same case, `-` and `_` aside,
/// are found by the same names, ASCII or not.
pub proof fn lemma_separators_aside(a: Area, name: Seq<char>)
    ensures
        letters(a.name@) == letters(name) ==> device::area_matches(a, name),
{
    lemma_letters_normalized(a.name@);
    lemma_letters_normalized(name);
}

proof fn lemma_letters_normalized(s: Seq<char>)
    ensures
        device::normalized(letters(s)) == device::normalized(s),
    decreases s.len(),
{
    if s.len() > 0 {
        lemma_letters_normalized(s.drop_last());
        if s.last() != '-' && s.last() != '_' {
            assert(letters(s).drop_last() =~= letters(s.drop_last()));
        }
    }
}

/// An area is said to match a name by the letters of both.
pub proof fn lemma_matches_given(a: Area, name: &str, r: bool)
    requires
        call_ensures(Area::matches, (&a, name), r),
    ensures
        is_ascii_name(a.name@) && is_ascii_name(name@) ==> (r <==> terms::same_letters(
            letters(a.name@),
            letters(name@),
        )),
        letters(a.name@) == letters(name@) ==> r,
        r <==> device::area_matches(a, name@),
{
    if is_ascii_name(a.name@) && is_ascii_name(name@) {
        lemma_name_matches(a, name@);
    }
    lemma_separators_aside(a, name@);
}

/// The area at `i` is the first that a name matches.
pub open spec fn first_match(areas: Seq<Area>, name: Seq<char>, i: int) -> bool {
    &&& 0 <= i < areas.len()
    &&& device::area_matches(areas[i], name)
    &&& forall|j: int| 0 <= j < i ==> !device::area_matches(#[trigger] areas[j], name)
}

/// No area matches a name.
pub open spec fn no_match(areas: Seq<Area>, name: Seq<char>) -> bool {
    forall|j: int| 0 <= j < areas.len() ==> !device::area_matches(#[trigger] areas[j], name)
}

/// A name finds the first area that it matches, and none only where it matches none.
pub proof fn lemma_area_found(areas: Seq<Area>, name: Seq<char>)
    ensures
        match device::matching_area(areas, name) {
            Some(i) => first_match(areas, name, i),
            None => no_match(areas, name),
        },
    decreases areas.len(),
{
    if areas.len() > 0 {
        let init = areas.drop_last();
        lemma_area_found(init, name);
        match device::matching_area(init, name) {
            Some(i) => {
                assert(areas[i] == init[i]);
                assert forall|j: int| 0 <= j < i implies !device::area_matches(#[trigger] areas[j], name) by {
                    assert(areas[j] == init[j]);
                }
            },
            None => {
                assert forall|j: int| 0 <= j < init.len() implies !device::area_matches(#[trigger] areas[j], name) by {
                    assert(areas[j] == init[j]);
                }
            },
        }
    }
}

/// There is only one first area that a name matches.
pub proof fn lemma_one_first_match(areas: Seq<Area>, name: Seq<char>, i: int, j: int)
    requires
        first_match(areas, name, i),
    ensures
        first_match(areas, name, j) ==> i == j,
        !no_match(areas, name),
{
    if first_match(areas, name, j) && i != j {
        assert(device::area_matches(areas[i], name) && device::area_matches(areas[j], name));
    }
}

/// Finding an area gives the first that the name matches.
pub proof fn lemma_find_given(areas: &[Area], name: &str, r: Option<usize>)
    requires
        call_ensures(device::find_area, (areas, name), r),
    ensures
        match r {
            Some(i) => first_match(areas@, name@, i as int),
            None => no_match(areas@, name@),
        },
{
    lemma_area_found(areas@, name@);
}

/// The names and the labels of areas are joined in order.
pub proof fn lemma_joined_given(
    areas: &[Area],
    names: Seq<Seq<char>>,
    labels: Seq<Seq<char>>,
    a: String,
    b: String,
)
    requires
        names.len() == areas@.len(),
        labels.len() == areas@.len(),
        forall|i: int| 0 <= i < areas@.len() ==> #[trigger] names[i] == areas@[i].name@,
        forall|i: int| 0 <= i < areas@.len() ==> #[trigger] labels[i] == areas@[i].label@,
        call_ensures(device::joined_names, (areas,), a),
        call_ensures(device::joined_labels, (areas,), b),
    ensures
        a@ == text::joined(names, ", "@),
        b@ == text::joined(labels, ", "@),
{
    assert(names =~= device::area_names(areas@));
    assert(labels =~= device::area_labels(areas@));
}

}
