//! Comparing documents: which lines of two texts are reported, and how.

use vstd::prelude::*;
use vstd::string::*;

use crate::codec;
use crate::device::Device;
use crate::engine::{self, diff_as, dispatch, file_read, normalize, print_diff, Cli, Command, Next, Step};
use crate::laws::syncing;
use crate::laws::wording;
use crate::output::{self, Out, Print, Shown};
use crate::text;
use crate::value::{Doc, Tree};
use crate::yaml;

verus! {

// === lines ===

/// Line `i` of some lines; a line that is missing counts as an empty one.
pub open spec fn nth(lines: Seq<Seq<char>>, i: int) -> Seq<char> {
    if 0 <= i < lines.len() {
        lines[i]
    } else {
        Seq::empty()
    }
}

/// A line is a key and a value: what stands before and after its first colon, the
/// white space around each aside.
pub open spec fn is_keyed(line: Seq<char>, key: Seq<char>, held: Seq<char>) -> bool {
    exists|i: int|
        {
            &&& 0 <= i < line.len()
            &&& #[trigger] line[i] == ':'
            &&& forall|j: int| 0 <= j < i ==> line[j] != ':'
            &&& wording::is_trimmed(line.subrange(0, i), key)
            &&& wording::is_trimmed(line.subrange(i + 1, line.len() as int), held)
        }
}

/// Two lines have the same key.
pub open spec fn share_key(a: Seq<char>, b: Seq<char>, key: Seq<char>, x: Seq<char>, y: Seq<char>) -> bool {
    is_keyed(a, key, x) && is_keyed(b, key, y)
}

/// What is reported of two lines at the same place: nothing where they are equal, the
/// key with both values where they have the same key, and otherwise both lines.
pub open spec fn is_report(a: Seq<char>, b: Seq<char>, part: Seq<Shown>) -> bool {
    if a == b {
        part == Seq::<Shown>::empty()
    } else {
        ||| exists|key: Seq<char>, x: Seq<char>, y: Seq<char>| #[trigger]
            share_key(a, b, key, x, y) && part == seq![Shown::Line("  "@ + key + ": "@ + x + "  →  "@ + y)]
        ||| (forall|key: Seq<char>, x: Seq<char>, y: Seq<char>| !#[trigger] share_key(a, b, key, x, y)) && part == seq![
            Shown::Line("- "@ + a),
            Shown::Line("+ "@ + b),
        ]
    }
}

/// Reports one after the other.
pub open spec fn all_of(parts: Seq<Seq<Shown>>) -> Seq<Shown>
    decreases parts.len(),
{
    if parts.len() == 0 {
        seq![]
    } else {
        all_of(parts.drop_last()) + parts.last()
    }
}

/// The reports are those of two lists of lines, place by place, up to the end of the
/// longer one.
pub open spec fn are_reports(a: Seq<Seq<char>>, b: Seq<Seq<char>>, parts: Seq<Seq<Shown>>) -> bool {
    &&& parts.len() == (if a.len() >= b.len() {
        a.len()
    } else {
        b.len()
    })
    &&& forall|i: int| 0 <= i < parts.len() ==> is_report(nth(a, i), nth(b, i), #[trigger] parts[i])
}

/// Two lists of lines agree everywhere.
pub open spec fn agree(a: Seq<Seq<char>>, b: Seq<Seq<char>>) -> bool {
    forall|i: int| #[trigger] nth(a, i) == nth(b, i)
}

/// What is printed of two texts: the reports of all their lines, or, where there is
/// nothing to report, that there are no differences.
pub open spec fn is_diff(left: Seq<char>, right: Seq<char>, printed: Seq<Shown>) -> bool {
    let a = text::lines_of(left);
    let b = text::lines_of(right);
    &&& agree(a, b) <==> printed == seq![Shown::Line("(no differences)"@)]
    &&& !agree(a, b) ==> exists|parts: Seq<Seq<Shown>>| #[trigger] are_reports(a, b, parts) && printed == all_of(parts)
}

// === the laws ===

/// There is only one way to trim a text.
pub proof fn lemma_one_trimming(s: Seq<char>, t: Seq<char>, u: Seq<char>)
    requires
        wording::is_trimmed(s, t),
        wording::is_trimmed(s, u),
    ensures
        t == u,
{
    let (a, b) = choose|a: Seq<char>, b: Seq<char>|
        s == #[trigger] (a + t + b) && wording::all_white(a) && wording::all_white(b);
    let (c, d) = choose|c: Seq<char>, d: Seq<char>|
        s == #[trigger] (c + u + d) && wording::all_white(c) && wording::all_white(d);
    assert(s.len() == a.len() + t.len() + b.len());
    assert(s.len() == c.len() + u.len() + d.len());
    if t.len() == 0 {
        if u.len() > 0 {
            let k = c.len() as int;
            assert(s[k] == u[0]);
            if k < a.len() {
                assert(s[k] == a[k]);
            } else {
                assert(s[k] == b[k - a.len()]);
            }
        }
        assert(t =~= u);
    } else if u.len() == 0 {
        let k = a.len() as int;
        assert(s[k] == t[0]);
        if k < c.len() {
            assert(s[k] == c[k]);
        } else {
            assert(s[k] == d[k - c.len()]);
        }
    } else {
        if a.len() < c.len() {
            assert(s[a.len() as int] == t[0]);
            assert(s[a.len() as int] == c[a.len() as int]);
        } else if c.len() < a.len() {
            assert(s[c.len() as int] == u[0]);
            assert(s[c.len() as int] == a[c.len() as int]);
        }
        let x = a.len() + t.len() - 1;
        let y = c.len() + u.len() - 1;
        assert(s[x] == t.last() && s[y] == u.last());
        if x < y {
            assert(s[y] == b[y - x - 1]);
        } else if y < x {
            assert(s[x] == d[x - y - 1]);
        }
        assert(t =~= s.subrange(a.len() as int, x + 1));
        assert(u =~= s.subrange(c.len() as int, y + 1));
    }
}

proof fn lemma_keyed(line: Seq<char>)
    ensures
        engine::line_key(line) matches Some(key) ==> is_keyed(line, key, engine::line_value(line)),
        forall|key: Seq<char>, held: Seq<char>| #[trigger]
            is_keyed(line, key, held) ==> engine::line_key(line) == Some(key) && engine::line_value(line) == held,
{
    text::lemma_position(line, ':');
    let end = line.len() as int;
    if let Some(i) = text::position(line, ':') {
        wording::lemma_trimmed(line.subrange(0, i));
        wording::lemma_trimmed(line.subrange(i + 1, end));
        assert(line[i] == ':');
    }
    assert forall|key: Seq<char>, held: Seq<char>| #[trigger] is_keyed(line, key, held) implies engine::line_key(line)
        == Some(key) && engine::line_value(line) == held by {
        let k = choose|i: int|
            {
                &&& 0 <= i < line.len()
                &&& #[trigger] line[i] == ':'
                &&& forall|j: int| 0 <= j < i ==> line[j] != ':'
                &&& wording::is_trimmed(line.subrange(0, i), key)
                &&& wording::is_trimmed(line.subrange(i + 1, line.len() as int), held)
            };
        text::lemma_position_is(line, ':', k);
        wording::lemma_trimmed(line.subrange(0, k));
        wording::lemma_trimmed(line.subrange(k + 1, end));
        lemma_one_trimming(line.subrange(0, k), key, text::trimmed(line.subrange(0, k)));
        lemma_one_trimming(line.subrange(k + 1, end), held, text::trimmed(line.subrange(k + 1, end)));
    }
}

proof fn lemma_line_report(a: Seq<char>, b: Seq<char>)
    ensures
        is_report(a, b, engine::line_diff(a, b)),
        forall|k: int|
            0 <= k < engine::line_diff(a, b).len() ==> (#[trigger] engine::line_diff(a, b)[k] matches Shown::Line(s)
                && s.len() > 0 && s[0] != '('),
{
    reveal_strlit("  ");
    reveal_strlit("- ");
    reveal_strlit("+ ");
    lemma_keyed(a);
    lemma_keyed(b);
    let part = engine::line_diff(a, b);
    if a != b {
        if engine::line_key(a) is Some && engine::line_key(a) == engine::line_key(b) {
            let key = engine::line_key(a)->Some_0;
            assert(share_key(a, b, key, engine::line_value(a), engine::line_value(b)));
        } else {
            assert forall|key: Seq<char>, x: Seq<char>, y: Seq<char>| !#[trigger] share_key(a, b, key, x, y) by {}
        }
    }
}

proof fn lemma_reports(a: Seq<Seq<char>>, b: Seq<Seq<char>>, n: nat) -> (parts: Seq<Seq<Shown>>)
    ensures
        parts.len() == n,
        forall|i: int| 0 <= i < n ==> is_report(nth(a, i), nth(b, i), #[trigger] parts[i]),
        all_of(parts) == engine::lines_diff(a, b, n),
        forall|k: int|
            0 <= k < all_of(parts).len() ==> (#[trigger] all_of(parts)[k] matches Shown::Line(s) && s.len() > 0 && s[0]
                != '('),
        all_of(parts).len() == 0 <==> forall|i: int| 0 <= i < n ==> #[trigger] nth(a, i) == nth(b, i),
    decreases n,
{
    if n == 0 {
        let parts: Seq<Seq<Shown>> = seq![];
        parts
    } else {
        let m = (n - 1) as nat;
        let before = lemma_reports(a, b, m);
        let x = nth(a, m as int);
        let y = nth(b, m as int);
        let last = engine::line_diff(x, y);
        lemma_line_report(x, y);
        let parts = before.push(last);
        assert(parts.drop_last() =~= before);
        assert(x == engine::line_at(a, m as int) && y == engine::line_at(b, m as int));
        assert forall|k: int| 0 <= k < all_of(parts).len() implies (#[trigger] all_of(parts)[k] matches Shown::Line(s)
            && s.len() > 0 && s[0] != '(') by {
            if k < all_of(before).len() {
                assert(all_of(parts)[k] == all_of(before)[k]);
            } else {
                assert(all_of(parts)[k] == last[k - all_of(before).len()]);
            }
        }
        assert(last.len() == 0 <==> x == y);
        if all_of(parts).len() == 0 {
            assert forall|i: int| 0 <= i < n implies #[trigger] nth(a, i) == nth(b, i) by {
                if i < m {
                    assert(all_of(before).len() == 0);
                }
            }
        }
        parts
    }
}

/// What is printed of two texts reports every line at which they differ, up to the
/// end of the longer one, and says that there are no differences exactly where there
/// are none.
pub proof fn lemma_diff(left: Seq<char>, right: Seq<char>)
    ensures
        is_diff(left, right, engine::text_diff(left, right)),
{
    let a = text::lines_of(left);
    let b = text::lines_of(right);
    let n = if a.len() >= b.len() {
        a.len()
    } else {
        b.len()
    };
    let parts = lemma_reports(a, b, n);
    let printed = engine::text_diff(left, right);
    reveal_strlit("(no differences)");
    assert(n == codec::longer(a.len(), b.len()));
    if forall|i: int| 0 <= i < n ==> #[trigger] nth(a, i) == nth(b, i) {
        assert forall|i: int| #[trigger] nth(a, i) == nth(b, i) by {}
    } else {
        assert(!agree(a, b)) by {
            let i = choose|i: int| 0 <= i < n && #[trigger] nth(a, i) != nth(b, i);
            assert(nth(a, i) != nth(b, i));
        }
        assert(printed == all_of(parts));
        assert(are_reports(a, b, parts));
        assert(printed[0] matches Shown::Line(s) && s[0] != '(');
        assert(printed != seq![Shown::Line("(no differences)"@)]) by {
            assert(seq![Shown::Line("(no differences)"@)][0] != printed[0]);
        }
    }
}

/// Printing how two texts differ.
pub proof fn lemma_diff_printed(left: &str, right: &str, r: Vec<Print>)
    requires
        call_ensures(print_diff, (left, right), r),
    ensures
        is_diff(left@, right@, output::shown(r@)),
{
    lemma_diff(left@, right@);
}

/// Comparing two texts the other way round reports a difference exactly where
/// comparing them this way does, at the same lines.
pub proof fn lemma_diff_both_ways(left: &str, right: &str, r: Vec<Print>, t: Vec<Print>)
    requires
        call_ensures(print_diff, (left, right), r),
        call_ensures(print_diff, (right, left), t),
    ensures
        output::shown(r@) == seq![Shown::Line("(no differences)"@)] <==> output::shown(t@) == seq![
            Shown::Line("(no differences)"@),
        ],
        left@ == right@ ==> output::shown(r@) == seq![Shown::Line("(no differences)"@)],
{
    lemma_diff(left@, right@);
    lemma_diff(right@, left@);
    let a = text::lines_of(left@);
    let b = text::lines_of(right@);
    if agree(a, b) {
        assert forall|i: int| #[trigger] nth(b, i) == nth(a, i) by {
            assert(nth(a, i) == nth(b, i));
        }
    }
    if agree(b, a) {
        assert forall|i: int| #[trigger] nth(a, i) == nth(b, i) by {
            assert(nth(b, i) == nth(a, i));
        }
    }
}

// === documents ===

/// What a document reads as once the device has encoded and decoded it, where every
/// step of that works.
pub open spec fn through_device<D: Device>(area: Seq<char>, t: Tree, s: Seq<char>) -> bool {
    D::encoded(area, t, 0) matches Ok(bytes) && (D::decoded(area, bytes) matches Ok(u) && yaml::rendered(u)
        == Ok::<Seq<char>, Seq<char>>(s))
}

/// What a document is compared by: what it reads as through the device, and where it
/// does not go through, what it reads as itself.
pub open spec fn compared_by<D: Device>(area: Seq<char>, t: Tree, s: Seq<char>) -> bool {
    if exists|x: Seq<char>| through_device::<D>(area, t, x) {
        through_device::<D>(area, t, s)
    } else {
        match yaml::rendered(t) {
            Ok(x) => s == x,
            Err(_) => s == Seq::<char>::empty(),
        }
    }
}

proof fn lemma_canonical<D: Device>(area: Seq<char>, t: Tree)
    ensures
        compared_by::<D>(area, t, engine::canonical_text::<D>(area, t)),
{
    if exists|x: Seq<char>| through_device::<D>(area, t, x) {
        let x = choose|x: Seq<char>| through_device::<D>(area, t, x);
        assert(through_device::<D>(area, t, x));
    } else {
        let s = engine::canonical_text::<D>(area, t);
        assert(!through_device::<D>(area, t, s));
    }
}

/// A document is put into the form it is compared by.
pub proof fn lemma_normalized<D: Device>(area: &str, v: Doc, r: String)
    requires
        call_ensures(normalize::<D>, (area, &v), r),
    ensures
        compared_by::<D>(area@, v@, r@),
{
    lemma_canonical::<D>(area@, v@);
}

/// The step prints how two documents of an area differ, each through the device.
pub open spec fn prints_diff<D: Device>(r: Step, area: Seq<char>, a: Tree, b: Tree) -> bool {
    &&& exists|x: Seq<char>, y: Seq<char>| #[trigger]
        compared_by::<D>(area, a, x) && #[trigger] compared_by::<D>(area, b, y) && is_diff(x, y, syncing::output_of(r))
    &&& r.next matches Next::Finish(c) && c == 0
}

proof fn lemma_diff_reported<D: Device>(r: Step, a: Tree, b: Tree, i: usize)
    requires
        engine::diff_reported::<D>(r, a, b, Some(i)),
    ensures
        prints_diff::<D>(r, D::area_list()[i as int].name@, a, b),
{
    let area = D::area_list()[i as int].name@;
    let x = engine::canonical_text::<D>(area, a);
    let y = engine::canonical_text::<D>(area, b);
    lemma_canonical::<D>(area, a);
    lemma_canonical::<D>(area, b);
    lemma_diff(x, y);
    assert(syncing::output_of(r) =~= output::shown(r.prints@));
    assert(compared_by::<D>(area, a, x) && compared_by::<D>(area, b, y));
}

/// Documents of an area are compared through the device; documents of no common area
/// are not compared.
pub proof fn lemma_documents_compared<D: Device>(out: Out, a: Doc, b: Doc, found: Option<usize>, r: Step)
    requires
        call_ensures(diff_as::<D>, (&out, &a, &b, found), r),
    ensures
        match found {
            Some(i) => prints_diff::<D>(r, D::area_list()[i as int].name@, a@, b@),
            None => syncing::gives_up(r, "both files must be the same recognised kind"@, 2),
        },
{
    if let Some(i) = found {
        lemma_diff_reported::<D>(r, a@, b@, i);
    } else {
        assert(syncing::output_of(r) =~= output::shown(r.prints@));
    }
}

/// The device accepts both documents for the area at `i`, and for none before it.
pub open spec fn first_common<D: Device>(a: Doc, b: Doc, i: int) -> bool {
    let areas = D::area_list();
    &&& 0 <= i < areas.len()
    &&& call_ensures(D::accepts, (areas[i].name, &a), true)
    &&& call_ensures(D::accepts, (areas[i].name, &b), true)
    &&& forall|j: int| 0 <= j < i ==> turned_down::<D>(#[trigger] areas[j].name, a, b)
}

/// The device turns one of two documents down for an area.
pub open spec fn turned_down<D: Device>(name: &'static str, a: Doc, b: Doc) -> bool {
    call_ensures(D::accepts, (name, &a), false) || call_ensures(D::accepts, (name, &b), false)
}

/// The step compares two documents: as the first area that the device accepts both
/// for, or not at all where it accepts both for none.
pub open spec fn compares<D: Device>(r: Step, a: Doc, b: Doc) -> bool {
    ||| exists|i: int| #[trigger] first_common::<D>(a, b, i) && prints_diff::<D>(r, D::area_list()[i].name@, a@, b@)
    ||| (forall|j: int| 0 <= j < D::area_list().len() ==> turned_down::<D>(#[trigger] D::area_list()[j].name, a, b))
        && syncing::gives_up(r, "both files must be the same recognised kind"@, 2)
}

proof fn lemma_compared<D: Device>(r: Step, a: Doc, b: Doc)
    requires
        engine::docs_compared::<D>(r, a, b),
    ensures
        compares::<D>(r, a, b),
{
    let found = choose|found: Option<usize>| #[trigger]
        engine::first_accepting_both::<D>(a, b, found) && engine::diff_reported::<D>(r, a@, b@, found);
    let areas = D::area_list();
    match found {
        Some(i) => {
            assert forall|j: int| 0 <= j < i implies turned_down::<D>(#[trigger] areas[j].name, a, b) by {
                assert(engine::may_turn_down::<D>(areas[j], a, b));
            }
            assert(engine::may_answer::<D>(areas[i as int], a, true));
            assert(first_common::<D>(a, b, i as int));
            lemma_diff_reported::<D>(r, a@, b@, i);
        },
        None => {
            assert forall|j: int| 0 <= j < areas.len() implies turned_down::<D>(#[trigger] areas[j].name, a, b) by {
                assert(engine::may_turn_down::<D>(areas[j], a, b));
            }
            assert(syncing::output_of(r) =~= output::shown(r.prints@));
        },
    }
}

/// `diff` from the command line on: both files are read, the left one first, and
/// their documents are compared.
pub proof fn lemma_diff_command<D: Device>(
    cli: Cli,
    left: String,
    right: String,
    a: Step,
    out: Out,
    x: String,
    b: Step,
    y: String,
    c: Step,
    t: Tree,
    u: Tree,
)
    requires
        cli.command == (Command::Diff { left, right }),
        !(cli.verbose && cli.quiet),
        yaml::parsed(x@) == Ok::<Tree, Seq<char>>(t),
        yaml::parsed(y@) == Ok::<Tree, Seq<char>>(u),
        call_ensures(dispatch::<D>, (cli,), a),
        a.next matches Next::Read { path, then } ==> call_ensures(file_read::<D>, (&out, then, path, Ok(x)), b),
        b.next matches Next::Read { path, then } ==> call_ensures(file_read::<D>, (&out, then, path, Ok(y)), c),
    ensures
        a.next matches Next::Read { path, then: _ } && path == left,
        b.next matches Next::Read { path, then: _ } && path == right,
        exists|m: Doc, n: Doc| m@ == t && n@ == u && #[trigger] compares::<D>(c, m, n),
{
    let then = b.next->Read_then;
    let m = then->DiffRight_left;
    let n = choose|doc: Doc| doc@ == u && #[trigger] engine::docs_compared::<D>(c, m, doc);
    lemma_compared::<D>(c, m, n);
}

}
