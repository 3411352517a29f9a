//! Texts: what splitting, trimming, joining and writing out numbers give.

use vstd::prelude::*;
use vstd::string::*;

use crate::laws::terms;
use crate::text;

verus! {

// === lines ===

/// Lines with what ends each of them, one after the other.
pub open spec fn laid_out(lines: Seq<Seq<char>>, ends: Seq<Seq<char>>) -> Seq<char>
    decreases lines.len(),
{
    if lines.len() == 0 {
        seq![]
    } else {
        lines[0] + ends[0] + laid_out(lines.skip(1), ends.skip(1))
    }
}

/// A line may end this way: with a line feed, with a carriage return and one, or,
/// for the last line if there is anything in it, with nothing.
pub open spec fn may_end(line: Seq<char>, end: Seq<char>, last: bool) -> bool {
    &&& !line.contains('\n')
    &&& {
        ||| end == seq!['\r', '\n']
        ||| end == seq!['\n'] && (line.len() > 0 ==> line.last() != '\r')
        ||| last && line.len() > 0 && end == Seq::<char>::empty()
    }
}

/// The lines make up the text, each with an end of its own.
pub open spec fn are_lines(s: Seq<char>, lines: Seq<Seq<char>>, ends: Seq<Seq<char>>) -> bool {
    &&& ends.len() == lines.len()
    &&& s == laid_out(lines, ends)
    &&& forall|k: int| 0 <= k < lines.len() ==> may_end(#[trigger] lines[k], ends[k], k == lines.len() - 1)
}

/// A text is its lines, each with an end of its own.
pub proof fn lemma_lines(s: Seq<char>) -> (ends: Seq<Seq<char>>)
    ensures
        are_lines(s, text::lines_of(s), ends),
    decreases s.len(),
{
    let lines = text::lines_of(s);
    if s.len() == 0 {
        let ends: Seq<Seq<char>> = seq![];
        assert(s =~= laid_out(lines, ends));
        ends
    } else {
        text::lemma_position(s, '\n');
        match text::position(s, '\n') {
            Some(i) => {
                let rest = s.skip(i + 1);
                let more = lemma_lines(rest);
                let head = s.take(i);
                let line = text::without_cr(head);
                let end = if line == head {
                    seq!['\n']
                } else {
                    seq!['\r', '\n']
                };
                let ends = seq![end] + more;
                assert(lines == seq![line] + text::lines_of(rest));
                assert(lines.skip(1) =~= text::lines_of(rest));
                assert(ends.skip(1) =~= more);
                assert(s =~= line + end + rest) by {
                    if line != head {
                        assert(head =~= line.push('\r'));
                    }
                }
                assert(!line.contains('\n')) by {
                    if line.contains('\n') {
                        let k = choose|k: int| 0 <= k < line.len() && line[k] == '\n';
                        assert(s[k] == '\n');
                    }
                }
                if line == head && line.len() > 0 {
                    assert(line.last() != '\r') by {
                        if head.last() == '\r' {
                            assert(head.drop_last().len() != head.len());
                        }
                    }
                }
                assert forall|k: int| 0 <= k < lines.len() implies may_end(
                    #[trigger] lines[k],
                    ends[k],
                    k == lines.len() - 1,
                ) by {
                    if k > 0 {
                        assert(lines[k] == text::lines_of(rest)[k - 1] && ends[k] == more[k - 1]);
                    }
                }
                ends
            },
            None => {
                let ends = seq![Seq::<char>::empty()];
                assert(lines == seq![s]);
                assert(lines.skip(1).len() == 0);
                assert(laid_out(lines.skip(1), ends.skip(1)) == Seq::<char>::empty());
                assert(s =~= laid_out(lines, ends));
                assert(!s.contains('\n'));
                ends
            },
        }
    }
}

/// Splitting a text gives its lines.
pub proof fn lemma_lines_given(s: &str, r: Vec<String>)
    requires
        call_ensures(text::lines, (s,), r),
    ensures
        exists|ends: Seq<Seq<char>>| are_lines(s@, text::texts(r@), ends),
{
    let ends = lemma_lines(s@);
    assert(are_lines(s@, text::texts(r@), ends));
}

// === trimming ===

/// A text of white space alone.
pub open spec fn all_white(s: Seq<char>) -> bool {
    forall|i: int| 0 <= i < s.len() ==> text::white_space(#[trigger] s[i])
}

/// `t` is `s` without the white space around it.
pub open spec fn is_trimmed(s: Seq<char>, t: Seq<char>) -> bool {
    &&& exists|a: Seq<char>, b: Seq<char>| s == #[trigger] (a + t + b) && all_white(a) && all_white(b)
    &&& t.len() > 0 ==> !text::white_space(t[0]) && !text::white_space(t.last())
}

proof fn lemma_trimmed_start(s: Seq<char>) -> (a: Seq<char>)
    ensures
        s == a + text::trimmed_start(s),
        all_white(a),
        text::trimmed_start(s).len() > 0 ==> !text::white_space(text::trimmed_start(s)[0]),
    decreases s.len(),
{
    if s.len() > 0 && text::white_space(s[0]) {
        let a = lemma_trimmed_start(s.skip(1));
        let whole = seq![s[0]] + a;
        assert(s =~= seq![s[0]] + s.skip(1));
        assert(s =~= whole + text::trimmed_start(s));
        assert forall|i: int| 0 <= i < whole.len() implies text::white_space(#[trigger] whole[i]) by {
            if i > 0 {
                assert(whole[i] == a[i - 1]);
            }
        }
        whole
    } else {
        assert(s =~= Seq::<char>::empty() + s);
        Seq::empty()
    }
}

proof fn lemma_trimmed_end(s: Seq<char>) -> (b: Seq<char>)
    ensures
        s == text::trimmed_end(s) + b,
        all_white(b),
        text::trimmed_end(s).len() > 0 ==> !text::white_space(text::trimmed_end(s).last()),
        text::trimmed_end(s).len() > 0 ==> text::trimmed_end(s)[0] == s[0],
    decreases s.len(),
{
    if s.len() > 0 && text::white_space(s.last()) {
        let b = lemma_trimmed_end(s.drop_last());
        let whole = b.push(s.last());
        assert(s =~= s.drop_last().push(s.last()));
        assert((text::trimmed_end(s) + b).push(s.last()) =~= text::trimmed_end(s) + whole);
        assert forall|i: int| 0 <= i < whole.len() implies text::white_space(#[trigger] whole[i]) by {
            if i < b.len() {
                assert(whole[i] == b[i]);
            }
        }
        whole
    } else {
        assert(s =~= s + Seq::<char>::empty());
        Seq::empty()
    }
}

/// Trimming takes the white space off both ends, and nothing else.
pub proof fn lemma_trimmed(s: Seq<char>)
    ensures
        is_trimmed(s, text::trimmed(s)),
{
    let a = lemma_trimmed_start(s);
    let mid = text::trimmed_start(s);
    let b = lemma_trimmed_end(mid);
    assert(s =~= a + text::trimmed(s) + b);
}

/// Trimming part of a text gives that part without the white space around it.
pub proof fn lemma_trim_given(s: Vec<char>, from: usize, to: usize, r: String)
    requires
        from <= to <= s@.len(),
        call_ensures(text::trim, (&s, from, to), r),
    ensures
        is_trimmed(s@.subrange(from as int, to as int), r@),
{
    lemma_trimmed(s@.subrange(from as int, to as int));
}

// === joining and splitting ===

/// Joining goes part by part: nothing joins to nothing, one part to itself, and two
/// lists to what each joins to with the separator between.
pub proof fn lemma_joined(a: Seq<Seq<char>>, b: Seq<Seq<char>>, x: Seq<char>, sep: Seq<char>)
    ensures
        text::joined(seq![], sep) == Seq::<char>::empty(),
        text::joined(seq![x], sep) == x,
        a.len() > 0 && b.len() > 0 ==> text::joined(a + b, sep) == text::joined(a, sep) + sep + text::joined(b, sep),
    decreases b.len(),
{
    if a.len() > 0 && b.len() > 0 {
        let all = a + b;
        assert(all.drop_last() =~= a + b.drop_last());
        assert(all.last() == b.last());
        if b.len() == 1 {
            assert(a + b.drop_last() =~= a);
        } else {
            lemma_joined(a, b.drop_last(), x, sep);
            assert(text::joined(all, sep) =~= text::joined(a, sep) + sep + text::joined(b, sep));
        }
    }
}

/// Joining the texts of a list.
pub proof fn lemma_join_given(parts: Vec<String>, sep: &str, r: String)
    requires
        call_ensures(text::join, (&parts, sep), r),
    ensures
        r@ == text::joined(text::texts(parts@), sep@),
{
}

/// `sep` stands at a place of a text, and at none before.
pub open spec fn first_at(s: Seq<char>, sep: Seq<char>, i: int) -> bool {
    &&& 0 <= i
    &&& i + sep.len() <= s.len()
    &&& s.subrange(i, i + sep.len()) == sep
    &&& forall|j: int| 0 <= j < i ==> #[trigger] s.subrange(j, j + sep.len()) != sep
}

proof fn lemma_occurrence(s: Seq<char>, sep: Seq<char>, from: int)
    requires
        0 <= from,
        forall|j: int| 0 <= j < from && j + sep.len() <= s.len() ==> #[trigger] s.subrange(j, j + sep.len()) != sep,
    ensures
        match text::occurrence(s, sep, from) {
            Some(i) => first_at(s, sep, i),
            None => !terms::stands_within(s, sep),
        },
    decreases s.len() - from + 1,
{
    if from + sep.len() > s.len() {
        if terms::stands_within(s, sep) {
            let (a, b) = choose|a: Seq<char>, b: Seq<char>| s == #[trigger] (a + sep + b);
            let i = a.len() as int;
            assert(s.subrange(i, i + sep.len()) =~= sep);
            assert(i < from);
        }
    } else if !text::occurs_at(s, sep, from) {
        assert forall|j: int| 0 <= j < from + 1 && j + sep.len() <= s.len() implies #[trigger] s.subrange(j, j + sep.len()) != sep by {}
        lemma_occurrence(s, sep, from + 1);
    }
}

/// Splitting gives what stands before and after the first place where the separator
/// stands, and nothing where it stands nowhere.
pub proof fn lemma_split_at(s: Seq<char>, sep: Seq<char>)
    ensures
        match text::split_at(s, sep) {
            Some((a, b)) => s == a + sep + b && first_at(s, sep, a.len() as int),
            None => !terms::stands_within(s, sep),
        },
{
    lemma_occurrence(s, sep, 0);
    if let Some(i) = text::occurrence(s, sep, 0) {
        let a = s.subrange(0, i);
        let b = s.subrange(i + sep.len(), s.len() as int);
        assert(s =~= a + sep + b) by {
            assert forall|k: int| 0 <= k < s.len() implies s[k] == (a + sep + b)[k] by {
                if i <= k < i + sep.len() {
                    assert(s.subrange(i, i + sep.len())[k - i] == sep[k - i]);
                }
            }
        }
    }
}

/// Splitting a text once.
pub proof fn lemma_split_given(s: &str, sep: &str, r: Option<(String, String)>)
    requires
        call_ensures(text::split_once, (s, sep), r),
    ensures
        match r {
            Some(parts) => s@ == parts.0@ + sep@ + parts.1@ && first_at(s@, sep@, parts.0@.len() as int),
            None => !terms::stands_within(s@, sep@),
        },
{
    lemma_split_at(s@, sep@);
}

/// A text is said to contain another exactly where the other stands in it.
pub proof fn lemma_contains_given(hay: &str, needle: &str, r: bool)
    requires
        call_ensures(text::contains, (hay, needle), r),
    ensures
        r <==> terms::stands_within(hay@, needle@),
{
    terms::lemma_contains(hay@, needle@);
}

/// Texts are compared by their characters, and, ignoring ASCII case, letter by letter.
pub proof fn lemma_comparisons_given(a: &str, b: &str, same: bool, alike: bool)
    requires
        call_ensures(text::same_text, (a, b), same),
        call_ensures(text::same_ignoring_ascii_case, (a, b), alike),
    ensures
        same <==> a@ == b@,
        alike <==> terms::same_letters(a@, b@),
        same ==> alike,
{
    terms::lemma_ascii_case(a@, b@);
}

/// A prefix goes before a message.
pub proof fn lemma_prefix_given(prefix: &str, message: &str, r: String)
    requires
        call_ensures(text::prefixed, (prefix, message), r),
    ensures
        r@.len() == prefix@.len() + message@.len(),
        r@.take(prefix@.len() as int) == prefix@,
        r@.skip(prefix@.len() as int) == message@,
{
    assert(r@.take(prefix@.len() as int) =~= prefix@);
    assert(r@.skip(prefix@.len() as int) =~= message@);
}

// === numbers ===

/// The number that decimal digits stand for.
pub open spec fn decimal_value(s: Seq<char>) -> int
    decreases s.len(),
{
    if s.len() == 0 {
        0
    } else {
        10 * decimal_value(s.drop_last()) + (s.last() as int - '0' as int)
    }
}

/// A number is written out as digits that stand for it, without leading zeros.
pub proof fn lemma_decimal(n: nat)
    ensures
        decimal_value(text::decimal_text(n)) == n,
        forall|i: int| 0 <= i < text::decimal_text(n).len() ==> '0' <= #[trigger] text::decimal_text(n)[i] <= '9',
        text::decimal_text(n).len() > 0,
        text::decimal_text(n)[0] == '0' ==> n == 0 && text::decimal_text(n).len() == 1,
    decreases n,
{
    let s = text::decimal_text(n);
    if n < 10 {
        assert(s.drop_last() =~= Seq::<char>::empty());
        assert(decimal_value(s.drop_last()) == 0);
    } else {
        lemma_decimal(n / 10);
        assert(s.drop_last() =~= text::decimal_text(n / 10));
        assert(s[0] == text::decimal_text(n / 10)[0]);
        assert(n == 10 * (n / 10) + n % 10);
        assert forall|i: int| 0 <= i < s.len() implies '0' <= #[trigger] s[i] <= '9' by {
            if i < s.len() - 1 {
                assert(s[i] == text::decimal_text(n / 10)[i]);
            }
        }
    }
}

/// A number in decimal reads as that number.
pub proof fn lemma_decimal_given(n: u64, r: String, k: i64, t: String)
    requires
        call_ensures(text::decimal, (n,), r),
        call_ensures(text::integer, (k,), t),
    ensures
        decimal_value(r@) == n,
        k >= 0 ==> decimal_value(t@) == k,
        k < 0 ==> t@.len() > 0 && t@[0] == '-' && decimal_value(t@.skip(1)) == -k,
{
    lemma_decimal(n as nat);
    if k >= 0 {
        lemma_decimal(k as nat);
    } else {
        lemma_decimal((-k) as nat);
        assert(t@.skip(1) =~= text::decimal_text((-k) as nat));
    }
}

/// The number that a hexadecimal digit stands for, in the given case.
pub open spec fn hex_value(c: char, upper: bool) -> int {
    if '0' <= c <= '9' {
        c as int - '0' as int
    } else if upper && 'A' <= c <= 'F' {
        c as int - 'A' as int + 10
    } else if !upper && 'a' <= c <= 'f' {
        c as int - 'a' as int + 10
    } else {
        -1
    }
}

/// A byte in hexadecimal is two digits that stand for it, in lower case behind `0x`
/// and in upper case alone.
pub proof fn lemma_hex(b: u8)
    ensures
        text::hex_text(b).len() == 4,
        text::hex_text(b)[0] == '0' && text::hex_text(b)[1] == 'x',
        0 <= hex_value(text::hex_text(b)[2], false) < 16,
        0 <= hex_value(text::hex_text(b)[3], false) < 16,
        16 * hex_value(text::hex_text(b)[2], false) + hex_value(text::hex_text(b)[3], false) == b,
        text::upper_hex_text(b).len() == 2,
        0 <= hex_value(text::upper_hex_text(b)[0], true) < 16,
        0 <= hex_value(text::upper_hex_text(b)[1], true) < 16,
        16 * hex_value(text::upper_hex_text(b)[0], true) + hex_value(text::upper_hex_text(b)[1], true) == b,
{
    reveal_strlit("0x");
}

/// Bytes are written out so.
pub proof fn lemma_hex_given(b: u8, r: String, t: String)
    requires
        call_ensures(text::hex, (b,), r),
        call_ensures(text::upper_hex, (b,), t),
    ensures
        r@.len() == 4 && 16 * hex_value(r@[2], false) + hex_value(r@[3], false) == b,
        t@.len() == 2 && 16 * hex_value(t@[0], true) + hex_value(t@[1], true) == b,
{
    lemma_hex(b);
}

/// What the texts behind options, results and lists are.
pub proof fn lemma_texts_behind(
    s: String,
    t: &str,
    r: Result<String, String>,
    v: Seq<String>,
    i: int,
)
    requires
        0 <= i < v.len(),
    ensures
        text::text_in(Some(s)) == Some(s@),
        text::text_in(None) is None,
        text::text_behind(Some(t)) == Some(t@),
        text::text_behind(None) is None,
        match r {
            Ok(x) => text::outcome(r) == Ok::<Seq<char>, Seq<char>>(x@),
            Err(x) => text::outcome(r) == Err::<Seq<char>, Seq<char>>(x@),
        },
        text::texts(v).len() == v.len(),
        text::texts(v)[i] == v[i]@,
{
}

/// A copy reads as what was copied.
pub proof fn lemma_copied(o: Option<String>, c: Option<String>)
    requires
        call_ensures(text::copied, (&o,), c),
    ensures
        o is Some <==> c is Some,
        o is Some ==> c->Some_0@ == o->Some_0@,
{
}

}
