//! Documents: the tree of scalars, sequences and mappings that a device decodes
//! a dump into and encodes back to wire bytes.
//!
//! [`Doc`] is the executable form; [`Tree`] is what a value means. A mapping
//! keeps its entries in order and never holds the same key twice.

use vstd::prelude::*;
use vstd::string::*;

use crate::text::same_text;
use crate::yaml;

verus! {

// === what a document means ===

/// A number: an integer, or a floating-point number by its canonical text.
#[verifier::ext_equal]
pub enum Num {
    Int(int),
    Float(Seq<char>),
}

/// The meaning of a document.
#[verifier::ext_equal]
pub enum Tree {
    Null,
    Bool(bool),
    Numeral(Num),
    Text(Seq<char>),
    Sequence(Seq<Tree>),
    Dict(Seq<(Tree, Tree)>),
    Tagged(Seq<char>, Box<Tree>),
}

/// The two texts of a floating-point zero.
pub open spec fn zero_text(s: Seq<char>) -> bool {
    s == "0.0"@ || s == "-0.0"@
}

/// Two numbers are the same: equal integers, or floating-point numbers with the
/// same text, where the two zeros count as one.
pub open spec fn same_number(a: Num, b: Num) -> bool {
    match (a, b) {
        (Num::Int(x), Num::Int(y)) => x == y,
        (Num::Float(x), Num::Float(y)) => x == y || (zero_text(x) && zero_text(y)),
        _ => false,
    }
}

/// Two documents are the same: equal scalars, sequences item by item, mappings
/// entry by entry in any order.
pub open spec fn same(a: Tree, b: Tree) -> bool
    decreases a,
{
    match (a, b) {
        (Tree::Null, Tree::Null) => true,
        (Tree::Bool(x), Tree::Bool(y)) => x == y,
        (Tree::Numeral(x), Tree::Numeral(y)) => same_number(x, y),
        (Tree::Text(x), Tree::Text(y)) => x == y,
        (Tree::Sequence(x), Tree::Sequence(y)) => {
            &&& x.len() == y.len()
            &&& forall|i: int| 0 <= i < x.len() ==> same(#[trigger] x[i], y[i])
        },
        (Tree::Dict(x), Tree::Dict(y)) => {
            &&& x.len() == y.len()
            &&& forall|i: int| 0 <= i < x.len() ==> entry_among(#[trigger] x[i], y)
            &&& forall|j: int| 0 <= j < y.len() ==> among_entry(x, #[trigger] y[j])
        },
        (Tree::Tagged(s, x), Tree::Tagged(t, y)) => s == t && same(*x, *y),
        _ => false,
    }
}

/// `entries` holds an entry with the same key and value as `e`, compared from `e`.
pub open spec fn entry_among(e: (Tree, Tree), entries: Seq<(Tree, Tree)>) -> bool
    decreases e,
{
    exists|j: int| 0 <= j < entries.len() && same(e.0, (#[trigger] entries[j]).0) && same(e.1, entries[j].1)
}

/// `entries` holds an entry with the same key and value as `e`, compared to `e`.
pub open spec fn among_entry(entries: Seq<(Tree, Tree)>, e: (Tree, Tree)) -> bool
    decreases entries,
{
    exists|i: int| 0 <= i < entries.len() && same((#[trigger] entries[i]).0, e.0) && same(entries[i].1, e.1)
}

/// The position of the first entry whose key is the same as `key`.
pub open spec fn find_key(entries: Seq<(Tree, Tree)>, key: Tree) -> Option<int>
    decreases entries.len(),
{
    if entries.len() == 0 {
        None
    } else {
        match find_key(entries.drop_last(), key) {
            Some(i) => Some(i),
            None => if same(entries.last().0, key) {
                Some(entries.len() - 1)
            } else {
                None
            },
        }
    }
}

/// The value that a mapping holds for a key.
pub open spec fn lookup(entries: Seq<(Tree, Tree)>, key: Tree) -> Option<Tree> {
    match find_key(entries, key) {
        Some(i) => Some(entries[i].1),
        None => None,
    }
}

/// No two entries have the same key.
pub open spec fn distinct_keys(entries: Seq<(Tree, Tree)>) -> bool {
    forall|i: int, j: int| 0 <= i < j < entries.len() ==> !same((#[trigger] entries[i]).0, (#[trigger] entries[j]).0)
}

/// A tree that a document can mean: nowhere in it does a mapping hold the same
/// key twice.
pub open spec fn well_formed(t: Tree) -> bool
    decreases t,
{
    match t {
        Tree::Sequence(items) => forall|i: int| 0 <= i < items.len() ==> well_formed(#[trigger] items[i]),
        Tree::Dict(entries) => {
            &&& distinct_keys(entries)
            &&& forall|i: int| 0 <= i < entries.len() ==> well_formed((#[trigger] entries[i]).0) && well_formed(entries[i].1)
        },
        Tree::Tagged(_, inner) => well_formed(*inner),
        _ => true,
    }
}

// === executable documents ===

/// A floating-point number, kept as its canonical text.
#[derive(Debug)]
pub struct Float {
    text: String,
}

/// A YAML tag such as `!range`, kept with its leading `!`.
#[derive(Debug)]
pub struct Tag {
    text: String,
}

/// A number as a document holds it.
#[derive(Debug)]
pub enum Numeral {
    PosInt(u64),
    NegInt(i64),
    Float(Float),
}

/// A document.
#[derive(Debug)]
pub enum Doc {
    Null,
    Bool(bool),
    Numeral(Numeral),
    Text(String),
    Sequence(Vec<Doc>),
    Dict(Dict),
    Tagged(Tag, Box<Doc>),
}

/// An ordered mapping from documents to documents, with distinct keys.
#[derive(Debug)]
pub struct Dict {
    entries: Vec<(Doc, Doc)>,
}

/// What a floating-point number reads as: its text.
impl View for Float {
    type V = Seq<char>;

    closed spec fn view(&self) -> Seq<char> {
        self.text@
    }
}

/// What a tag reads as: its text, with the leading `!`.
impl View for Tag {
    type V = Seq<char>;

    closed spec fn view(&self) -> Seq<char> {
        self.text@
    }
}

impl View for Numeral {
    type V = Num;

    open spec fn view(&self) -> Num {
        match *self {
            Numeral::PosInt(n) => Num::Int(n as int),
            Numeral::NegInt(n) => Num::Int(n as int),
            Numeral::Float(f) => Num::Float(f@),
        }
    }
}

impl View for Doc {
    type V = Tree;

    open spec fn view(&self) -> Tree {
        tree_of(*self)
    }
}

impl View for Dict {
    type V = Seq<(Tree, Tree)>;

    open spec fn view(&self) -> Seq<(Tree, Tree)> {
        mapping_trees(*self)
    }
}

/// The meaning of a value.
pub open spec fn tree_of(v: Doc) -> Tree
    decreases v,
{
    match v {
        Doc::Null => Tree::Null,
        Doc::Bool(b) => Tree::Bool(b),
        Doc::Numeral(n) => Tree::Numeral(n@),
        Doc::Text(s) => Tree::Text(s@),
        Doc::Sequence(items) => Tree::Sequence(
            Seq::new(
                items@.len(),
                |i: int| if 0 <= i < items@.len() { tree_of(items@[i]) } else { Tree::Null },
            ),
        ),
        Doc::Dict(m) => Tree::Dict(mapping_trees(m)),
        Doc::Tagged(tag, inner) => Tree::Tagged(tag@, Box::new(tree_of(*inner))),
    }
}

/// The meaning of a mapping: the meanings of its entries, in order.
pub closed spec fn mapping_trees(m: Dict) -> Seq<(Tree, Tree)>
    decreases m,
{
    Seq::new(
        m.entries@.len(),
        |i: int|
            if 0 <= i < m.entries@.len() {
                (tree_of(m.entries@[i].0), tree_of(m.entries@[i].1))
            } else {
                (Tree::Null, Tree::Null)
            },
    )
}

/// The meanings of a sequence of values.
pub open spec fn trees(items: Seq<Doc>) -> Seq<Tree> {
    Seq::new(items.len(), |i: int| items[i]@)
}

/// The meanings of a sequence of entries.
pub open spec fn entry_trees(entries: Seq<(Doc, Doc)>) -> Seq<(Tree, Tree)> {
    Seq::new(entries.len(), |i: int| (entries[i].0@, entries[i].1@))
}

/// A sequence means the sequence of what its items mean.
pub broadcast proof fn lemma_sequence_view(items: Vec<Doc>)
    ensures
        #[trigger] Doc::Sequence(items)@ == Tree::Sequence(trees(items@)),
{
    if let Tree::Sequence(made) = tree_of(Doc::Sequence(items)) {
        assert(made =~= trees(items@));
    }
}

impl Float {
    /// The text is the canonical text of the number that it reads as.
    #[verifier::type_invariant]
    closed spec fn text_is_canonical(self) -> bool {
        yaml::float_text(self.text@)
    }

    /// The floating-point number with the given canonical text.
    pub(crate) fn from_canonical(text: String) -> (r: Float)
        requires
            yaml::float_text(text@),
        ensures
            r@ == text@,
    {
        Float { text }
    }

    /// The canonical text.
    pub fn as_str(&self) -> (r: &str)
        ensures
            r@ == self@,
            yaml::float_text(self@),
    {
        proof {
            use_type_invariant(self);
        }
        self.text.as_str()
    }
}

/// A tag's text: a `!` and a name.
pub open spec fn is_tag(text: Seq<char>) -> bool {
    text.len() >= 2 && text[0] == '!'
}

impl Tag {
    /// The text is a `!` and a name.
    #[verifier::type_invariant]
    closed spec fn text_is_tag(self) -> bool {
        is_tag(self.text@)
    }

    /// The tag with the given text.
    pub(crate) fn from_text(text: String) -> (r: Tag)
        requires
            is_tag(text@),
        ensures
            r@ == text@,
    {
        Tag { text }
    }

    /// The text, with its leading `!`.
    pub fn as_str(&self) -> (r: &str)
        ensures
            r@ == self@,
            is_tag(self@),
    {
        proof {
            use_type_invariant(self);
        }
        self.text.as_str()
    }
}

impl Dict {
    /// No two entries have the same key.
    #[verifier::type_invariant]
    closed spec fn keys_are_distinct(self) -> bool {
        distinct_keys(mapping_trees(self))
    }

    /// A mapping without entries.
    pub fn new() -> (r: Dict)
        ensures
            r@ == Seq::<(Tree, Tree)>::empty(),
    {
        let entries: Vec<(Doc, Doc)> = Vec::new();
        let r = Dict { entries };
        assert(r@ =~= Seq::<(Tree, Tree)>::empty());
        r
    }

    /// The entries, in order.
    pub fn entries(&self) -> (r: &Vec<(Doc, Doc)>)
        ensures
            entry_trees(r@) == self@,
            distinct_keys(self@),
    {
        proof {
            use_type_invariant(self);
            assert(entry_trees(self.entries@) =~= self@);
        }
        &self.entries
    }

    /// Take the mapping apart into its entries, in order.
    pub fn into_entries(self) -> (r: Vec<(Doc, Doc)>)
        ensures
            entry_trees(r@) == self@,
            distinct_keys(self@),
    {
        proof {
            use_type_invariant(&self);
            assert(entry_trees(self.entries@) =~= self@);
        }
        self.entries
    }

    /// The mapping with the given entries, whose keys must be distinct.
    pub fn from_entries(entries: Vec<(Doc, Doc)>) -> (r: Dict)
        requires
            distinct_keys(entry_trees(entries@)),
        ensures
            r@ == entry_trees(entries@),
    {
        proof {
            let m = Dict { entries };
            assert(mapping_trees(m) =~= entry_trees(entries@));
        }
        Dict { entries }
    }
}

// === comparing and copying ===

/// Whether two numbers are the same.
pub fn same_numbers(a: &Numeral, b: &Numeral) -> (r: bool)
    ensures
        r == same_number(a@, b@),
{
    match (a, b) {
        (Numeral::PosInt(x), Numeral::PosInt(y)) => *x == *y,
        (Numeral::PosInt(x), Numeral::NegInt(y)) => *y >= 0 && *x == *y as u64,
        (Numeral::NegInt(x), Numeral::PosInt(y)) => *x >= 0 && *x as u64 == *y,
        (Numeral::NegInt(x), Numeral::NegInt(y)) => *x == *y,
        (Numeral::Float(x), Numeral::Float(y)) => {
            let s = x.text.as_str();
            let t = y.text.as_str();
            same_text(s, t) || ((same_text(s, "0.0") || same_text(s, "-0.0")) && (same_text(t, "0.0")
                || same_text(t, "-0.0")))
        },
        _ => false,
    }
}

/// Whether two documents are the same.
#[verifier::loop_isolation(false)]
pub fn same_values(a: &Doc, b: &Doc) -> (r: bool)
    ensures
        r == same(a@, b@),
    decreases a,
{
    broadcast use lemma_sequence_view;

    match (a, b) {
        (Doc::Null, Doc::Null) => true,
        (Doc::Bool(x), Doc::Bool(y)) => *x == *y,
        (Doc::Numeral(x), Doc::Numeral(y)) => same_numbers(x, y),
        (Doc::Text(x), Doc::Text(y)) => same_text(x.as_str(), y.as_str()),
        (Doc::Sequence(xs), Doc::Sequence(ys)) => {
            if xs.len() != ys.len() {
                return false;
            }
            let mut i: usize = 0;
            while i < xs.len()
                invariant
                    i <= xs@.len(),
                    forall|k: int| 0 <= k < i ==> same(#[trigger] trees(xs@)[k], trees(ys@)[k]),
                decreases xs@.len() - i,
            {
                if !same_values(&xs[i], &ys[i]) {
                    assert(!same(trees(xs@)[i as int], trees(ys@)[i as int]));
                    return false;
                }
                i += 1;
            }
            assert(same(a@, b@));
            true
        },
        (Doc::Dict(m), Doc::Dict(n)) => {
            let xs = &m.entries;
            let ys = &n.entries;
            let ghost x = m@;
            let ghost y = n@;
            assert(x.len() == xs@.len() && y.len() == ys@.len());
            if xs.len() != ys.len() {
                return false;
            }
            let mut i: usize = 0;
            while i < xs.len()
                invariant
                    i <= xs@.len(),
                    forall|k: int| 0 <= k < i ==> entry_among(#[trigger] x[k], y),
                decreases xs@.len() - i,
            {
                let mut found = false;
                let mut j: usize = 0;
                while j < ys.len() && !found
                    invariant
                        j <= ys@.len(),
                        found ==> entry_among(x[i as int], y),
                        !found ==> forall|k: int|
                            0 <= k < j ==> !(same(x[i as int].0, (#[trigger] y[k]).0) && same(x[i as int].1, y[k].1)),
                    decreases ys@.len() - j,
                {
                    if same_values(&xs[i].0, &ys[j].0) && same_values(&xs[i].1, &ys[j].1) {
                        assert(same(x[i as int].0, y[j as int].0) && same(x[i as int].1, y[j as int].1));
                        found = true;
                    }
                    j += 1;
                }
                if !found {
                    assert(!entry_among(x[i as int], y));
                    return false;
                }
                i += 1;
            }
            let mut j: usize = 0;
            while j < ys.len()
                invariant
                    j <= ys@.len(),
                    forall|k: int| 0 <= k < j ==> among_entry(x, #[trigger] y[k]),
                decreases ys@.len() - j,
            {
                let mut found = false;
                let mut i: usize = 0;
                while i < xs.len() && !found
                    invariant
                        i <= xs@.len(),
                        found ==> among_entry(x, y[j as int]),
                        !found ==> forall|k: int|
                            0 <= k < i ==> !(same((#[trigger] x[k]).0, y[j as int].0) && same(x[k].1, y[j as int].1)),
                    decreases xs@.len() - i,
                {
                    if same_values(&xs[i].0, &ys[j].0) && same_values(&xs[i].1, &ys[j].1) {
                        assert(same(x[i as int].0, y[j as int].0) && same(x[i as int].1, y[j as int].1));
                        found = true;
                    }
                    i += 1;
                }
                if !found {
                    assert(!among_entry(x, y[j as int]));
                    return false;
                }
                j += 1;
            }
            assert(same(a@, b@));
            true
        },
        (Doc::Tagged(s, x), Doc::Tagged(t, y)) => same_text(s.text.as_str(), t.text.as_str())
            && same_values(x, y),
        _ => false,
    }
}

impl Clone for Float {
    fn clone(&self) -> (r: Float)
        ensures
            r@ == self@,
    {
        proof {
            use_type_invariant(self);
        }
        Float { text: self.text.clone() }
    }
}

impl Clone for Tag {
    fn clone(&self) -> (r: Tag)
        ensures
            r@ == self@,
    {
        proof {
            use_type_invariant(self);
        }
        Tag { text: self.text.clone() }
    }
}

impl Clone for Numeral {
    fn clone(&self) -> (r: Numeral)
        ensures
            r@ == self@,
    {
        match self {
            Numeral::PosInt(n) => Numeral::PosInt(*n),
            Numeral::NegInt(n) => Numeral::NegInt(*n),
            Numeral::Float(f) => Numeral::Float(f.clone()),
        }
    }
}

impl Clone for Doc {
    fn clone(&self) -> (r: Doc)
        ensures
            r@ == self@,
        decreases self,
    {
        broadcast use lemma_sequence_view;

        match self {
            Doc::Null => Doc::Null,
            Doc::Bool(b) => Doc::Bool(*b),
            Doc::Numeral(n) => Doc::Numeral(n.clone()),
            Doc::Text(s) => Doc::Text(s.clone()),
            Doc::Sequence(items) => {
                let mut out: Vec<Doc> = Vec::new();
                let mut i: usize = 0;
                while i < items.len()
                    invariant
                        i <= items@.len(),
                        out@.len() == i,
                        forall|j: int| 0 <= j < i ==> (#[trigger] out@[j])@ == items@[j]@,
                        decreases_to!(self => items@),
                    decreases items@.len() - i,
                {
                    assert(decreases_to!(items@ => items@[i as int]));
                    let x = items[i].clone();
                    out.push(x);
                    i += 1;
                }
                assert(trees(out@) =~= trees(items@));
                Doc::Sequence(out)
            },
            Doc::Dict(m) => Doc::Dict(m.clone()),
            Doc::Tagged(tag, inner) => {
                let copy: Doc = (**inner).clone();
                Doc::Tagged(tag.clone(), Box::new(copy))
            },
        }
    }
}

impl Clone for Dict {
    fn clone(&self) -> (r: Dict)
        ensures
            r@ == self@,
        decreases self,
    {
        let entries = &self.entries;
        let mut out: Vec<(Doc, Doc)> = Vec::new();
        let mut i: usize = 0;
        while i < entries.len()
            invariant
                i <= entries@.len(),
                out@.len() == i,
                forall|j: int| 0 <= j < i ==> (#[trigger] out@[j]).0@ == entries@[j].0@ && out@[j].1@ == entries@[j].1@,
                decreases_to!(self => entries@),
            decreases entries@.len() - i,
        {
            assert(decreases_to!(entries@ => entries@[i as int]));
            let k = entries[i].0.clone();
            let v = entries[i].1.clone();
            out.push((k, v));
            i += 1;
        }
        proof {
            use_type_invariant(self);
            assert(entry_trees(out@) =~= self@);
        }
        Dict::from_entries(out)
    }
}

// === laws of sameness ===

/// Every document is the same as itself.
pub proof fn lemma_same_reflexive(a: Tree)
    ensures
        same(a, a),
    decreases a,
{
    match a {
        Tree::Sequence(x) => {
            assert forall|i: int| 0 <= i < x.len() implies same(#[trigger] x[i], x[i]) by {
                lemma_same_reflexive(x[i]);
            }
        },
        Tree::Dict(x) => {
            assert forall|i: int| 0 <= i < x.len() implies entry_among(#[trigger] x[i], x) && among_entry(x, x[i]) by {
                lemma_same_reflexive(x[i].0);
                lemma_same_reflexive(x[i].1);
            }
        },
        Tree::Tagged(_, x) => {
            lemma_same_reflexive(*x);
        },
        _ => {},
    }
}

/// Sameness of documents does not depend on which of the two comes first.
pub proof fn lemma_same_symmetric(a: Tree, b: Tree)
    requires
        same(a, b),
    ensures
        same(b, a),
    decreases a,
{
    match (a, b) {
        (Tree::Sequence(x), Tree::Sequence(y)) => {
            assert forall|i: int| 0 <= i < y.len() implies same(#[trigger] y[i], x[i]) by {
                assert(same(x[i], y[i]));
                lemma_same_symmetric(x[i], y[i]);
            }
        },
        (Tree::Dict(x), Tree::Dict(y)) => {
            assert forall|j: int| 0 <= j < y.len() implies entry_among(#[trigger] y[j], x) by {
                assert(among_entry(x, y[j]));
                let i = choose|i: int| 0 <= i < x.len() && same((#[trigger] x[i]).0, y[j].0) && same(x[i].1, y[j].1);
                lemma_same_symmetric(x[i].0, y[j].0);
                lemma_same_symmetric(x[i].1, y[j].1);
            }
            assert forall|i: int| 0 <= i < x.len() implies among_entry(y, #[trigger] x[i]) by {
                assert(entry_among(x[i], y));
                let j = choose|j: int| 0 <= j < y.len() && same(x[i].0, (#[trigger] y[j]).0) && same(x[i].1, y[j].1);
                lemma_same_symmetric(x[i].0, y[j].0);
                lemma_same_symmetric(x[i].1, y[j].1);
            }
        },
        (Tree::Tagged(_, x), Tree::Tagged(_, y)) => {
            lemma_same_symmetric(*x, *y);
        },
        _ => {},
    }
}

/// Two documents that are both the same as a third are the same.
pub proof fn lemma_same_transitive(a: Tree, b: Tree, c: Tree)
    requires
        same(a, b),
        same(b, c),
    ensures
        same(a, c),
    decreases a,
{
    match (a, b, c) {
        (Tree::Sequence(x), Tree::Sequence(y), Tree::Sequence(z)) => {
            assert forall|i: int| 0 <= i < x.len() implies same(#[trigger] x[i], z[i]) by {
                assert(same(x[i], y[i]) && same(y[i], z[i]));
                lemma_same_transitive(x[i], y[i], z[i]);
            }
        },
        (Tree::Dict(x), Tree::Dict(y), Tree::Dict(z)) => {
            assert forall|i: int| 0 <= i < x.len() implies entry_among(#[trigger] x[i], z) by {
                assert(entry_among(x[i], y));
                let j = choose|j: int| 0 <= j < y.len() && same(x[i].0, (#[trigger] y[j]).0) && same(x[i].1, y[j].1);
                assert(entry_among(y[j], z));
                let k = choose|k: int| 0 <= k < z.len() && same(y[j].0, (#[trigger] z[k]).0) && same(y[j].1, z[k].1);
                lemma_same_transitive(x[i].0, y[j].0, z[k].0);
                lemma_same_transitive(x[i].1, y[j].1, z[k].1);
            }
            assert forall|k: int| 0 <= k < z.len() implies among_entry(x, #[trigger] z[k]) by {
                assert(among_entry(y, z[k]));
                let j = choose|j: int| 0 <= j < y.len() && same((#[trigger] y[j]).0, z[k].0) && same(y[j].1, z[k].1);
                assert(among_entry(x, y[j]));
                let i = choose|i: int| 0 <= i < x.len() && same((#[trigger] x[i]).0, y[j].0) && same(x[i].1, y[j].1);
                lemma_same_transitive(x[i].0, y[j].0, z[k].0);
                lemma_same_transitive(x[i].1, y[j].1, z[k].1);
            }
        },
        (Tree::Tagged(_, x), Tree::Tagged(_, y), Tree::Tagged(_, z)) => {
            lemma_same_transitive(*x, *y, *z);
        },
        _ => {},
    }
}

/// `find_key` gives the first entry with the key, or none where no entry has it.
pub proof fn lemma_find_key(entries: Seq<(Tree, Tree)>, key: Tree)
    ensures
        match find_key(entries, key) {
            Some(i) => {
                &&& 0 <= i < entries.len()
                &&& same(entries[i].0, key)
                &&& forall|j: int| 0 <= j < i ==> !same((#[trigger] entries[j]).0, key)
            },
            None => forall|j: int| 0 <= j < entries.len() ==> !same((#[trigger] entries[j]).0, key),
        },
    decreases entries.len(),
{
    if entries.len() > 0 {
        let init = entries.drop_last();
        lemma_find_key(init, key);
        assert forall|j: int| 0 <= j < init.len() implies entries[j] == init[j] by {}
        assert(find_key(init, key) is None ==> forall|j: int| 0 <= j < init.len() ==> !same((#[trigger] entries[j]).0, key)) by {
            if find_key(init, key) is None {
                assert forall|j: int| 0 <= j < init.len() implies !same((#[trigger] entries[j]).0, key) by {
                    assert(entries[j] == init[j]);
                }
            }
        }
    }
}

// === reading and changing a mapping ===

/// A mapping without its entry `i`, whose place the last entry takes.
pub open spec fn swap_removed(entries: Seq<(Tree, Tree)>, i: int) -> Seq<(Tree, Tree)> {
    entries.update(i, entries.last()).drop_last()
}

/// A mapping in which `key` holds `value`: an entry with that key keeps its key
/// and its place, a new one comes last.
pub open spec fn inserted(entries: Seq<(Tree, Tree)>, key: Tree, value: Tree) -> Seq<(Tree, Tree)> {
    match find_key(entries, key) {
        Some(i) => entries.update(i, (entries[i].0, value)),
        None => entries.push((key, value)),
    }
}

/// Removing an entry leaves the keys distinct.
pub proof fn lemma_swap_removed_distinct(entries: Seq<(Tree, Tree)>, i: int)
    requires
        distinct_keys(entries),
        0 <= i < entries.len(),
    ensures
        distinct_keys(swap_removed(entries, i)),
{
    let out = swap_removed(entries, i);
    let last = entries.len() - 1;
    assert forall|p: int, q: int| 0 <= p < q < out.len() implies !same((#[trigger] out[p]).0, (#[trigger] out[q]).0) by {
        let a = if p == i { last } else { p };
        let b = if q == i { last } else { q };
        assert(out[p] == entries[a] && out[q] == entries[b]);
        if same(entries[a].0, entries[b].0) {
            lemma_same_symmetric(entries[a].0, entries[b].0);
        }
    }
}

/// Inserting an entry leaves the keys distinct.
pub proof fn lemma_inserted_distinct(entries: Seq<(Tree, Tree)>, key: Tree, value: Tree)
    requires
        distinct_keys(entries),
    ensures
        distinct_keys(inserted(entries, key, value)),
{
    lemma_find_key(entries, key);
    let out = inserted(entries, key, value);
    assert forall|p: int, q: int| 0 <= p < q < out.len() implies !same((#[trigger] out[p]).0, (#[trigger] out[q]).0) by {
        if q < entries.len() {
            assert(out[p].0 == entries[p].0 && out[q].0 == entries[q].0);
        } else {
            assert(out[p] == entries[p]);
        }
    }
}

/// Where keys are distinct, an entry with the key is the one that is found.
pub proof fn lemma_find_unique(entries: Seq<(Tree, Tree)>, key: Tree, i: int)
    requires
        distinct_keys(entries),
        0 <= i < entries.len(),
        same(entries[i].0, key),
    ensures
        find_key(entries, key) == Some(i),
{
    lemma_find_key(entries, key);
    let k = find_key(entries, key)->0;
    if k != i {
        lemma_same_symmetric(entries[i].0, key);
        lemma_same_transitive(entries[k].0, key, entries[i].0);
    }
}

/// The same key finds the same entry.
pub proof fn lemma_find_same_key(entries: Seq<(Tree, Tree)>, a: Tree, b: Tree)
    requires
        same(a, b),
    ensures
        find_key(entries, a) == find_key(entries, b),
{
    lemma_find_key(entries, a);
    lemma_find_key(entries, b);
    lemma_same_symmetric(a, b);
    if let Some(i) = find_key(entries, a) {
        lemma_same_transitive(entries[i].0, a, b);
    }
    if let Some(j) = find_key(entries, b) {
        lemma_same_transitive(entries[j].0, b, a);
    }
}

/// What an insertion leaves to be read: the new value under its key, and under
/// any other key what was there before.
pub proof fn lemma_lookup_inserted(entries: Seq<(Tree, Tree)>, key: Tree, value: Tree, q: Tree)
    requires
        distinct_keys(entries),
    ensures
        lookup(inserted(entries, key, value), q) == (if same(key, q) {
            Some(value)
        } else {
            lookup(entries, q)
        }),
{
    let out = inserted(entries, key, value);
    lemma_find_key(entries, key);
    lemma_find_key(entries, q);
    lemma_find_key(out, q);
    lemma_inserted_distinct(entries, key, value);
    let at = match find_key(entries, key) {
        Some(i) => i,
        None => entries.len() as int,
    };
    if same(key, q) {
        lemma_find_same_key(entries, key, q);
        if find_key(entries, key) is Some {
            lemma_same_transitive(entries[at].0, key, q);
        }
        lemma_find_unique(out, q, at);
    } else {
        if let Some(j) = find_key(entries, q) {
            if j == at {
                lemma_same_symmetric(entries[at].0, key);
                lemma_same_transitive(key, entries[at].0, q);
            }
            lemma_find_unique(out, q, j);
        } else if let Some(j) = find_key(out, q) {
            if j == at {
                if find_key(entries, key) is Some {
                    assert(same(entries[at].0, q));
                }
            } else {
                assert(out[j] == entries[j]);
            }
        }
    }
}

/// What a removal leaves to be read: nothing under the removed key, and under
/// any other key what was there before.
pub proof fn lemma_lookup_swap_removed(entries: Seq<(Tree, Tree)>, i: int, q: Tree)
    requires
        distinct_keys(entries),
        0 <= i < entries.len(),
    ensures
        lookup(swap_removed(entries, i), q) == (if same(entries[i].0, q) {
            None
        } else {
            lookup(entries, q)
        }),
{
    let out = swap_removed(entries, i);
    let last = entries.len() - 1;
    lemma_swap_removed_distinct(entries, i);
    lemma_find_key(entries, q);
    lemma_find_key(out, q);
    if let Some(j) = find_key(out, q) {
        let a = if j == i { last } else { j };
        assert(out[j] == entries[a]);
        lemma_find_unique(entries, q, a);
        if same(entries[i].0, q) {
            lemma_find_unique(entries, q, i);
        }
    } else {
        if let Some(k) = find_key(entries, q) {
            if k != i {
                let a = if k == last { i } else { k };
                assert(out[a] == entries[k]);
            }
        }
    }
}

impl Dict {
    /// How many entries there are.
    pub fn len(&self) -> (r: usize)
        ensures
            r == self@.len(),
    {
        self.entries.len()
    }

    /// The position of the entry with the given key.
    pub fn find(&self, key: &Doc) -> (r: Option<usize>)
        ensures
            match r {
                Some(i) => i < self@.len() && find_key(self@, key@) == Some(i as int),
                None => find_key(self@, key@) is None,
            },
    {
        proof {
            lemma_find_key(self@, key@);
        }
        let mut i: usize = 0;
        while i < self.entries.len()
            invariant
                i <= self.entries@.len(),
                self@.len() == self.entries@.len(),
                forall|j: int| 0 <= j < i ==> !same((#[trigger] self@[j]).0, key@),
                match find_key(self@, key@) {
                    Some(k) => {
                        &&& 0 <= k < self@.len()
                        &&& same(self@[k].0, key@)
                        &&& forall|j: int| 0 <= j < k ==> !same((#[trigger] self@[j]).0, key@)
                    },
                    None => forall|j: int| 0 <= j < self@.len() ==> !same((#[trigger] self@[j]).0, key@),
                },
            decreases self.entries@.len() - i,
        {
            assert(self@[i as int] == (self.entries@[i as int].0@, self.entries@[i as int].1@));
            if same_values(&self.entries[i].0, key) {
                return Some(i);
            }
            i += 1;
        }
        None
    }

    /// The value for a key.
    pub fn get(&self, key: &Doc) -> (r: Option<&Doc>)
        ensures
            match r {
                Some(v) => lookup(self@, key@) == Some(v@),
                None => lookup(self@, key@) is None,
            },
    {
        match self.find(key) {
            Some(i) => {
                assert(self@[i as int] == (self.entries@[i as int].0@, self.entries@[i as int].1@));
                Some(&self.entries[i].1)
            },
            None => None,
        }
    }

    /// Remove a key: the mapping without it, and the value that it held. The
    /// last entry takes the place of the removed one.
    pub fn without(self, key: &Doc) -> (r: (Dict, Option<Doc>))
        ensures
            match find_key(self@, key@) {
                Some(i) => r.0@ == swap_removed(self@, i) && r.1 is Some && r.1->0@ == self@[i].1,
                None => r.0@ == self@ && r.1 is None,
            },
    {
        match self.find(key) {
            Some(i) => {
                let ghost old_trees = self@;
                let mut entries = self.into_entries();
                let ghost before = entries@;
                proof {
                    lemma_swap_removed_distinct(old_trees, i as int);
                }
                let (_, v) = entries.swap_remove(i);
                assert(entry_trees(entries@) =~= swap_removed(old_trees, i as int)) by {
                    assert(old_trees == entry_trees(before));
                }
                (Dict::from_entries(entries), Some(v))
            },
            None => (self, None),
        }
    }

    /// Put a value under a key.
    pub fn with(self, key: Doc, value: Doc) -> (r: Dict)
        ensures
            r@ == inserted(self@, key@, value@),
    {
        let ghost old_trees = self@;
        let found = self.find(&key);
        let mut entries = self.into_entries();
        let ghost before = entries@;
        proof {
            lemma_inserted_distinct(old_trees, key@, value@);
        }
        match found {
            Some(i) => {
                let (k, _) = entries.remove(i);
                entries.insert(i, (k, value));
                assert(entry_trees(entries@) =~= inserted(old_trees, key@, value@));
            },
            None => {
                entries.push((key, value));
                assert(entry_trees(entries@) =~= inserted(old_trees, key@, value@));
            },
        }
        Dict::from_entries(entries)
    }
}

// === reading and making documents ===

/// A document without the tags around it.
pub open spec fn untagged(t: Tree) -> Tree
    decreases t,
{
    match t {
        Tree::Tagged(_, inner) => untagged(*inner),
        _ => t,
    }
}

/// The text that a document is, tags aside.
pub open spec fn plain_text(t: Tree) -> Option<Seq<char>> {
    match untagged(t) {
        Tree::Text(s) => Some(s),
        _ => None,
    }
}

/// The integer that a number is, where it fits.
pub open spec fn small_integer(n: Num) -> Option<i64> {
    match n {
        Num::Int(i) => if i64::MIN <= i <= i64::MAX {
            Some(i as i64)
        } else {
            None
        },
        Num::Float(_) => None,
    }
}

impl Numeral {
    /// An integer as a number.
    pub fn from_i64(n: i64) -> (r: Numeral)
        ensures
            r@ == Num::Int(n as int),
    {
        if n < 0 {
            Numeral::NegInt(n)
        } else {
            Numeral::PosInt(n as u64)
        }
    }

    /// The integer that the number is, where it fits an `i64`.
    pub fn as_i64(&self) -> (r: Option<i64>)
        ensures
            r == small_integer(self@),
    {
        match self {
            Numeral::PosInt(n) => if *n <= 9223372036854775807 {
                Some(*n as i64)
            } else {
                None
            },
            Numeral::NegInt(n) => Some(*n),
            Numeral::Float(_) => None,
        }
    }
}

impl Doc {
    /// A text as a document.
    pub fn text(s: &str) -> (r: Doc)
        ensures
            r@ == Tree::Text(s@),
    {
        Doc::Text(s.to_owned())
    }

    /// A count as a document.
    pub fn count(n: usize) -> (r: Doc)
        ensures
            r@ == Tree::Numeral(Num::Int(n as int)),
    {
        Doc::Numeral(Numeral::PosInt(n as u64))
    }

    /// The document without the tags around it.
    pub fn untag(&self) -> (r: &Doc)
        ensures
            r@ == untagged(self@),
        decreases self,
    {
        match self {
            Doc::Tagged(_, inner) => inner.untag(),
            _ => self,
        }
    }

    /// The text that the document is, tags aside.
    pub fn as_str(&self) -> (r: Option<&str>)
        ensures
            match r {
                Some(s) => plain_text(self@) == Some(s@),
                None => plain_text(self@) is None,
            },
    {
        match self.untag() {
            Doc::Text(s) => Some(s.as_str()),
            _ => None,
        }
    }

    /// The integer that the document is, tags aside.
    pub fn as_i64(&self) -> (r: Option<i64>)
        ensures
            r == (match untagged(self@) {
                Tree::Numeral(n) => small_integer(n),
                _ => None,
            }),
    {
        match self.untag() {
            Doc::Numeral(n) => n.as_i64(),
            _ => None,
        }
    }

    /// The truth value that the document is, tags aside.
    pub fn as_bool(&self) -> (r: Option<bool>)
        ensures
            r == (match untagged(self@) {
                Tree::Bool(b) => Some(b),
                _ => None,
            }),
    {
        match self.untag() {
            Doc::Bool(b) => Some(*b),
            _ => None,
        }
    }

    /// What a mapping holds under a text key, tags aside.
    pub fn get(&self, key: &str) -> (r: Option<&Doc>)
        ensures
            match r {
                Some(v) => field(self@, key@) == Some(v@),
                None => field(self@, key@) is None,
            },
    {
        match self.untag() {
            Doc::Dict(m) => m.get(&Doc::text(key)),
            _ => None,
        }
    }

    /// The items of a sequence, tags aside.
    pub fn as_sequence(&self) -> (r: Option<&Vec<Doc>>)
        ensures
            match r {
                Some(items) => untagged(self@) == Tree::Sequence(trees(items@)),
                None => untagged(self@) !is Sequence,
            },
    {
        broadcast use lemma_sequence_view;

        match self.untag() {
            Doc::Sequence(items) => Some(items),
            _ => None,
        }
    }
}

/// What a mapping holds under a text key, tags aside.
pub open spec fn field(t: Tree, key: Seq<char>) -> Option<Tree> {
    match untagged(t) {
        Tree::Dict(entries) => lookup(entries, Tree::Text(key)),
        _ => None,
    }
}

// === records ===

/// A count as a document.
pub open spec fn count_tree(n: nat) -> Tree {
    Tree::Numeral(Num::Int(n as int))
}

/// The names and meanings of the fields of a record.
pub open spec fn field_trees(fields: Seq<(&str, Doc)>) -> Seq<(Seq<char>, Tree)> {
    Seq::new(fields.len(), |i: int| (fields[i].0@, fields[i].1@))
}

/// A mapping from texts: the given fields, in order.
pub open spec fn record_tree(fields: Seq<(Seq<char>, Tree)>) -> Tree {
    Tree::Dict(Seq::new(fields.len(), |i: int| (Tree::Text(fields[i].0), fields[i].1)))
}

/// No two fields have the same name.
pub open spec fn distinct_names(fields: Seq<(Seq<char>, Tree)>) -> bool {
    forall|i: int, j: int| 0 <= i < j < fields.len() ==> (#[trigger] fields[i]).0 != (#[trigger] fields[j]).0
}

/// The mapping with the given fields, in order. Their names must be distinct.
pub fn record(fields: Vec<(&str, Doc)>) -> (r: Doc)
    requires
        distinct_names(field_trees(fields@)),
    ensures
        r@ == record_tree(field_trees(fields@)),
{
    let ghost names = field_trees(fields@);
    let ghost goal = record_tree(names)->Dict_0;
    let mut entries: Vec<(Doc, Doc)> = Vec::new();
    for f in it: fields
        invariant
            it.seq() == fields@,
            names == field_trees(fields@),
            goal == record_tree(names)->Dict_0,
            entry_trees(entries@) == goal.take(it.index() as int),
    {
        let ghost n = it.index() as int;
        let ghost before = entry_trees(entries@);
        let (name, held) = f;
        assert(names[n] == (name@, held@));
        entries.push((Doc::text(name), held));
        assert(entry_trees(entries@) =~= before.push(goal[n]));
        assert(goal.take(n + 1) =~= goal.take(n).push(goal[n]));
    }
    assert(goal.take(goal.len() as int) =~= goal);
    proof {
        assert forall|i: int, j: int| 0 <= i < j < goal.len() implies !same((#[trigger] goal[i]).0, (#[trigger] goal[j]).0) by {
            assert(names[i].0 != names[j].0);
        }
    }
    Doc::Dict(Dict::from_entries(entries))
}

/// A record holds under each name what was put there, and nothing under others.
pub proof fn lemma_record_field(fields: Seq<(Seq<char>, Tree)>, name: Seq<char>)
    requires
        distinct_names(fields),
    ensures
        forall|i: int| 0 <= i < fields.len() && (#[trigger] fields[i]).0 == name ==> field(record_tree(fields), name) == Some(
            fields[i].1,
        ),
        (forall|i: int| 0 <= i < fields.len() ==> (#[trigger] fields[i]).0 != name) ==> field(
            record_tree(fields),
            name,
        ) is None,
{
    let entries = record_tree(fields)->Dict_0;
    assert forall|i: int, j: int| 0 <= i < j < entries.len() implies !same((#[trigger] entries[i]).0, (#[trigger] entries[j]).0) by {
        assert(fields[i].0 != fields[j].0);
    }
    lemma_find_key(entries, Tree::Text(name));
    assert forall|i: int| 0 <= i < fields.len() && (#[trigger] fields[i]).0 == name implies field(
        record_tree(fields),
        name,
    ) == Some(fields[i].1) by {
        assert(same(entries[i].0, Tree::Text(name)));
        lemma_find_unique(entries, Tree::Text(name), i);
    }
    if forall|i: int| 0 <= i < fields.len() ==> (#[trigger] fields[i]).0 != name {
        if let Some(i) = find_key(entries, Tree::Text(name)) {
            assert(fields[i].0 != name);
        }
    }
}

}
