//! The [`Device`] trait — the contract a device implements to drive the generic
//! command engine and editor tooling.
//!
//! The document lingua franca is [`Doc`]: the device decodes a raw dump into a
//! document and encodes a document back to wire bytes, so the engine never
//! touches the typed model. Areas (`"system"`, `"live-set"`, …) name the editable
//! documents a device dumps/syncs as one YAML file each.
//!
//! ## Multi-frame dumps
//!
//! [`request`](Device::request) and [`encode`](Device::encode) return *all* the
//! SysEx bytes for an operation — possibly several `F0…F7` frames concatenated
//! (e.g. a bulk header + content blocks + footer). The engine sends each frame
//! and, for a dump, collects every inbound frame until the device goes idle, then
//! hands the whole collected buffer to [`decode`](Device::decode), which splits
//! and reassembles it. This keeps single- and multi-block devices uniform.

use vstd::prelude::*;
use vstd::string::*;

use crate::catalog::Catalogs;
use crate::meta::{ParamMeta, Params};
use crate::text::{self, chars_of, lower_one, quoted, same_text};
use crate::value::{Doc, Tree};

verus! {

// === areas ===

/// One editable document a device dumps/syncs (e.g. the global System or a
/// Live Set patch).
#[derive(Debug, Clone, Copy, PartialEq, Eq)]
pub struct Area {
    /// CLI token, kebab-case, e.g. `"live-set"`.
    pub name: &'static str,
    /// Human label, e.g. `"Live Set"` (shown by `show`/`lint`).
    pub label: &'static str,
    /// One-line description for help text.
    pub about: &'static str,
}

/// An area name without `-` and `_`, in lower case: what names are matched by.
pub open spec fn normalized(s: Seq<char>) -> Seq<char>
    decreases s.len(),
{
    if s.len() == 0 {
        seq![]
    } else if s.last() == '-' || s.last() == '_' {
        normalized(s.drop_last())
    } else {
        normalized(s.drop_last()) + text::lowered(s.last())
    }
}

fn normalize_name(s: &str) -> (r: String)
    ensures
        r@ == normalized(s@),
{
    let chars = chars_of(s);
    let mut out = String::new();
    let mut i: usize = 0;
    assert(out@ =~= normalized(s@.take(0)));
    while i < chars.len()
        invariant
            chars@ == s@,
            i <= chars@.len(),
            out@ == normalized(s@.take(i as int)),
        decreases chars@.len() - i,
    {
        assert(s@.take(i + 1).drop_last() =~= s@.take(i as int));
        let c: char = chars[i];
        if c != '-' && c != '_' {
            out.append(lower_one(c).as_str());
        }
        i += 1;
    }
    assert(s@.take(i as int) =~= s@);
    out
}

/// A name matches an area: both are the same once normalized.
pub open spec fn area_matches(a: Area, name: Seq<char>) -> bool {
    normalized(a.name@) == normalized(name)
}

impl Area {
    /// Case-insensitive match, leaving out `-` and `_` so `live-set`, `live_set`,
    /// and `liveset` all hit a `"live-set"` area.
    pub fn matches(&self, name: &str) -> (r: bool)
        ensures
            r == area_matches(*self, name@),
    {
        let own = normalize_name(self.name);
        let other = normalize_name(name);
        same_text(own.as_str(), other.as_str())
    }
}

/// The position of the first area whose name matches.
pub open spec fn matching_area(areas: Seq<Area>, name: Seq<char>) -> Option<int>
    decreases areas.len(),
{
    if areas.len() == 0 {
        None
    } else {
        match matching_area(areas.drop_last(), name) {
            Some(i) => Some(i),
            None => if area_matches(areas.last(), name) {
                Some(areas.len() - 1)
            } else {
                None
            },
        }
    }
}

/// The names of areas, in order.
pub open spec fn area_names(areas: Seq<Area>) -> Seq<Seq<char>> {
    Seq::new(areas.len(), |i: int| areas[i].name@)
}

/// The labels of areas, in order.
pub open spec fn area_labels(areas: Seq<Area>) -> Seq<Seq<char>> {
    Seq::new(areas.len(), |i: int| areas[i].label@)
}

/// Find the first area whose name matches.
pub fn find_area(areas: &[Area], name: &str) -> (r: Option<usize>)
    ensures
        match r {
            Some(i) => i < areas@.len() && matching_area(areas@, name@) == Some(i as int),
            None => matching_area(areas@, name@) is None,
        },
{
    let mut found: Option<usize> = None;
    let mut i: usize = 0;
    while i < areas.len()
        invariant
            i <= areas@.len(),
            match found {
                Some(k) => k < i && matching_area(areas@.take(i as int), name@) == Some(k as int),
                None => matching_area(areas@.take(i as int), name@) is None,
            },
        decreases areas@.len() - i,
    {
        assert(areas@.take(i + 1).drop_last() =~= areas@.take(i as int));
        if found.is_none() && areas[i].matches(name) {
            found = Some(i);
        }
        i += 1;
    }
    assert(areas@.take(i as int) =~= areas@);
    found
}

/// The names of areas, joined by `", "`.
pub fn joined_names(areas: &[Area]) -> (r: String)
    ensures
        r@ == text::joined(area_names(areas@), ", "@),
{
    let mut names: Vec<String> = Vec::new();
    let mut i: usize = 0;
    while i < areas.len()
        invariant
            i <= areas@.len(),
            text::texts(names@) == area_names(areas@).take(i as int),
        decreases areas@.len() - i,
    {
        let ghost before = text::texts(names@);
        names.push(areas[i].name.to_owned());
        assert(text::texts(names@) =~= before.push(areas@[i as int].name@));
        assert(area_names(areas@).take(i + 1) =~= before.push(areas@[i as int].name@));
        i += 1;
    }
    assert(area_names(areas@).take(i as int) =~= area_names(areas@));
    text::join(&names, ", ")
}

/// The labels of areas, joined by `", "`.
pub fn joined_labels(areas: &[Area]) -> (r: String)
    ensures
        r@ == text::joined(area_labels(areas@), ", "@),
{
    let mut labels: Vec<String> = Vec::new();
    let mut i: usize = 0;
    while i < areas.len()
        invariant
            i <= areas@.len(),
            text::texts(labels@) == area_labels(areas@).take(i as int),
        decreases areas@.len() - i,
    {
        let ghost before = text::texts(labels@);
        labels.push(areas[i].label.to_owned());
        assert(text::texts(labels@) =~= before.push(areas@[i as int].label@));
        assert(area_labels(areas@).take(i + 1) =~= before.push(areas@[i as int].label@));
        i += 1;
    }
    assert(area_labels(areas@).take(i as int) =~= area_labels(areas@));
    text::join(&labels, ", ")
}

// === messages and errors ===

/// A classified inbound MIDI message, as far as the engine needs to act on it
/// (identify the device, recognise dumps). Devices map their richer internal
/// classification onto this.
#[derive(Debug, Clone, PartialEq, Eq)]
pub enum Inbound {
    /// A block/bulk dump, with the area it targets resolved if known.
    Dump { area: Option<String>, address: Vec<u8>, data: Vec<u8> },
    /// A single-parameter change.
    Parameter { address: Vec<u8>, data: Vec<u8> },
    /// A request the device echoed back.
    Request { address: Vec<u8> },
    /// A Universal Identity Reply, with the model name if recognised.
    Identity { bytes: Vec<u8>, model: Option<String> },
    /// Anything else (channel messages, undecodable SysEx, …).
    Other(Vec<u8>),
}

/// What an [`Inbound`] says.
pub enum Signal {
    Dump { area: Option<Seq<char>>, address: Seq<u8>, data: Seq<u8> },
    Parameter { address: Seq<u8>, data: Seq<u8> },
    Request { address: Seq<u8> },
    Identity { bytes: Seq<u8>, model: Option<Seq<char>> },
    Other(Seq<u8>),
}

impl View for Inbound {
    type V = Signal;

    open spec fn view(&self) -> Signal {
        match *self {
            Inbound::Dump { area, address, data } => Signal::Dump {
                area: text::text_in(area),
                address: address@,
                data: data@,
            },
            Inbound::Parameter { address, data } => Signal::Parameter { address: address@, data: data@ },
            Inbound::Request { address } => Signal::Request { address: address@ },
            Inbound::Identity { bytes, model } => Signal::Identity { bytes: bytes@, model: text::text_in(model) },
            Inbound::Other(bytes) => Signal::Other(bytes@),
        }
    }
}

/// Errors a [`Device`] operation can return.
#[derive(Debug, Clone, PartialEq, Eq)]
pub enum DeviceError {
    UnknownArea(String),
    Decode(String),
    Encode(String),
    Other(String),
}

/// What a [`DeviceError`] says.
pub enum Fault {
    UnknownArea(Seq<char>),
    Decode(Seq<char>),
    Encode(Seq<char>),
    Other(Seq<char>),
}

impl View for DeviceError {
    type V = Fault;

    open spec fn view(&self) -> Fault {
        match *self {
            DeviceError::UnknownArea(s) => Fault::UnknownArea(s@),
            DeviceError::Decode(s) => Fault::Decode(s@),
            DeviceError::Encode(s) => Fault::Encode(s@),
            DeviceError::Other(s) => Fault::Other(s@),
        }
    }
}

/// How a fault reads.
pub open spec fn fault_text(f: Fault) -> Seq<char> {
    match f {
        Fault::UnknownArea(s) => "unknown area: "@ + text::quoted_text(s),
        Fault::Decode(s) => "decode: "@ + s,
        Fault::Encode(s) => "encode: "@ + s,
        Fault::Other(s) => s,
    }
}

impl DeviceError {
    /// The error as a one-line message.
    pub fn message(&self) -> (r: String)
        ensures
            r@ == fault_text(self@),
    {
        match self {
            DeviceError::UnknownArea(s) => {
                let mut out = "unknown area: ".to_owned();
                out.append(quoted(s.as_str()).as_str());
                out
            },
            DeviceError::Decode(s) => {
                let mut out = "decode: ".to_owned();
                out.append(s.as_str());
                out
            },
            DeviceError::Encode(s) => {
                let mut out = "encode: ".to_owned();
                out.append(s.as_str());
                out
            },
            DeviceError::Other(s) => s.clone(),
        }
    }
}

// === the device ===

/// What bytes from a device operation read as.
pub open spec fn bytes_outcome(r: Result<Vec<u8>, DeviceError>) -> Result<Seq<u8>, Fault> {
    match r {
        Ok(bytes) => Ok(bytes@),
        Err(e) => Err(e@),
    }
}

/// What a document from a device operation reads as.
pub open spec fn doc_outcome(r: Result<Doc, DeviceError>) -> Result<Tree, Fault> {
    match r {
        Ok(doc) => Ok(doc@),
        Err(e) => Err(e@),
    }
}

/// The contract one device implements to plug into the kit.
///
/// A device is fixed reference data and a codec without state of its own, so
/// what each function answers is a function of its arguments; the spec functions
/// name those answers.
pub trait Device {
    /// Short device name, used for the binary name, schema filenames, and the
    /// catalog bundle's `device` field (e.g. `"ck"`).
    const NAME: &'static str;

    /// The type of the value catalogs.
    type Cats: Catalogs + 'static;

    /// The answer of [`areas`](Device::areas).
    open spec fn area_list() -> Seq<Area> {
        arbitrary()
    }

    /// The answer of [`params`](Device::params).
    open spec fn table() -> Seq<ParamMeta> {
        arbitrary()
    }

    /// The answer of [`catalogs`](Device::catalogs).
    open spec fn value_catalogs() -> &'static Self::Cats {
        arbitrary()
    }

    /// The answer of [`defaults`](Device::defaults).
    open spec fn default_doc(area: Seq<char>) -> Option<Tree> {
        arbitrary()
    }

    /// The answer of [`schema`](Device::schema).
    open spec fn schema_text(area: Seq<char>) -> Option<Seq<char>> {
        arbitrary()
    }

    /// The answer of [`request`](Device::request).
    open spec fn requested(area: Seq<char>, ch: u8) -> Result<Seq<u8>, Fault> {
        arbitrary()
    }

    /// The answer of [`decode`](Device::decode).
    open spec fn decoded(area: Seq<char>, dump: Seq<u8>) -> Result<Tree, Fault> {
        arbitrary()
    }

    /// The answer of [`encode`](Device::encode).
    open spec fn encoded(area: Seq<char>, doc: Tree, ch: u8) -> Result<Seq<u8>, Fault> {
        arbitrary()
    }

    /// The answer of [`classify_inbound`](Device::classify_inbound).
    open spec fn classified(bytes: Seq<u8>) -> Signal {
        arbitrary()
    }

    /// The editable documents this device dumps/syncs.
    fn areas() -> (r: &'static [Area])
        ensures
            r@ == Self::area_list(),
    ;

    /// The parameter-metadata table.
    fn params() -> (r: Params)
        ensures
            r.0@ == Self::table(),
    ;

    /// The value catalogs (name-number lookup + data).
    fn catalogs() -> (r: &'static Self::Cats)
        ensures
            r == Self::value_catalogs(),
    ;

    /// The factory-default document for an area (or `None`).
    fn defaults(area: &str) -> (r: Option<Doc>)
        ensures
            match r {
                Some(doc) => Self::default_doc(area@) == Some(doc@),
                None => Self::default_doc(area@) is None,
            },
    ;

    /// The JSON Schema for an area's document, as a string (or `None`).
    fn schema(area: &str) -> (r: Option<String>)
        ensures
            text::text_in(r) == Self::schema_text(area@),
    ;

    /// The SysEx bytes to send to request a dump of `area` from device `ch`.
    fn request(area: &str, ch: u8) -> (r: Result<Vec<u8>, DeviceError>)
        ensures
            bytes_outcome(r) == Self::requested(area@, ch),
    ;

    /// Decode a collected dump (one or more concatenated SysEx frames) of `area`
    /// into a document.
    fn decode(area: &str, dump: &[u8]) -> (r: Result<Doc, DeviceError>)
        ensures
            doc_outcome(r) == Self::decoded(area@, dump@),
    ;

    /// Encode a document for `area` into the SysEx bytes that write it to device
    /// `ch` (header + blocks + footer as needed).
    fn encode(area: &str, doc: &Doc, ch: u8) -> (r: Result<Vec<u8>, DeviceError>)
        ensures
            bytes_outcome(r) == Self::encoded(area@, doc@, ch),
    ;

    /// Classify an inbound MIDI byte sequence.
    fn classify_inbound(bytes: &[u8]) -> (r: Inbound)
        ensures
            r@ == Self::classified(bytes@),
    ;

    /// Whether `doc` is a well-formed document for `area` — a *parse-level* check
    /// used by `show`/`lint`/`diff` to identify a file's kind, distinct from a
    /// full [`encode`](Device::encode) (which also validates byte ranges).
    ///
    /// The default delegates to `encode`; override for a looser check (a file may
    /// parse into the typed model yet fail to encode).
    fn accepts(area: &str, doc: &Doc) -> (r: bool)
        default_ensures
            r == (Self::encoded(area@, doc@, 0) is Ok),
    {
        Self::encode(area, doc, 0).is_ok()
    }

    /// The SysEx bytes that make device `ch` keep what its working memory holds of
    /// `area` in the saved slot `destination` (e.g. the CK's `"20-8"`), for good.
    ///
    /// The default refuses every destination; override where the device has slots.
    fn store(area: &str, destination: &str, ch: u8) -> (r: Result<Vec<u8>, DeviceError>)
        default_ensures
            bytes_outcome(r) == Err::<Seq<u8>, Fault>(Fault::Other("only working memory can be written"@)),
    {
        Err(DeviceError::Other("only working memory can be written".to_owned()))
    }
}

// === laws ===

/// Normalizing goes character by character.
proof fn lemma_normalized_append(a: Seq<char>, b: Seq<char>)
    ensures
        normalized(a + b) == normalized(a) + normalized(b),
    decreases b.len(),
{
    if b.len() == 0 {
        assert(a + b =~= a);
        assert(normalized(a) + normalized(b) =~= normalized(a));
    } else {
        assert((a + b).drop_last() =~= a + b.drop_last());
        lemma_normalized_append(a, b.drop_last());
        assert(normalized(a + b) =~= normalized(a) + normalized(b));
    }
}

/// A `-` or `_` anywhere in a name makes no difference to what it matches.
pub proof fn lemma_separators_ignored(a: Seq<char>, c: char, b: Seq<char>)
    requires
        c == '-' || c == '_',
    ensures
        normalized(a.push(c) + b) == normalized(a + b),
{
    lemma_normalized_append(a.push(c), b);
    lemma_normalized_append(a, b);
    assert(a.push(c).drop_last() =~= a);
}

/// A name without `-` and `_`, its ASCII letters in lower case.
pub open spec fn ascii_folded(s: Seq<char>) -> Seq<char>
    decreases s.len(),
{
    if s.len() == 0 {
        seq![]
    } else if s.last() == '-' || s.last() == '_' {
        ascii_folded(s.drop_last())
    } else {
        ascii_folded(s.drop_last()).push(text::ascii_lower(s.last()))
    }
}

proof fn lemma_folded_append(a: Seq<char>, b: Seq<char>)
    ensures
        ascii_folded(a + b) == ascii_folded(a) + ascii_folded(b),
    decreases b.len(),
{
    if b.len() == 0 {
        assert(a + b =~= a);
        assert(ascii_folded(a) + ascii_folded(b) =~= ascii_folded(a));
    } else {
        assert((a + b).drop_last() =~= a + b.drop_last());
        lemma_folded_append(a, b.drop_last());
        assert(ascii_folded(a + b) =~= ascii_folded(a) + ascii_folded(b));
    }
}

/// Putting in or leaving out a `-` or `_`, and changing the case of an ASCII
/// letter, each keep the folded name, anywhere in it.
pub proof fn lemma_edits_keep_folded(a: Seq<char>, c: char, d: char, b: Seq<char>)
    ensures
        c == '-' || c == '_' ==> ascii_folded(a.push(c) + b) == ascii_folded(a + b),
        text::ascii_lower(c) == text::ascii_lower(d) ==> ascii_folded(a.push(c) + b) == ascii_folded(a.push(d) + b),
{
    lemma_folded_append(a, b);
    lemma_folded_append(a.push(c), b);
    lemma_folded_append(a.push(d), b);
    assert(a.push(c).drop_last() =~= a);
    assert(a.push(d).drop_last() =~= a);
}

proof fn lemma_folding_kept(s: Seq<char>)
    ensures
        normalized(ascii_folded(s)) == normalized(s),
    decreases s.len(),
{
    if s.len() > 0 {
        lemma_folding_kept(s.drop_last());
        let c = s.last();
        if c != '-' && c != '_' {
            let folded = ascii_folded(s.drop_last());
            let low = text::ascii_lower(c);
            assert(folded.push(low).drop_last() =~= folded);
            assert(low != '-' && low != '_');
            assert(text::lowered(low) == text::lowered(c));
        }
    }
}

/// The case of ASCII letters, and `-` and `_` anywhere, make no difference to
/// which areas a name matches; an area's label and description make none either.
/// An area matches its own name.
pub proof fn lemma_matching_is_lenient(a: Area, b: Area, n1: Seq<char>, n2: Seq<char>)
    requires
        a.name@ == b.name@,
        ascii_folded(n1) == ascii_folded(n2),
    ensures
        area_matches(a, n1) == area_matches(b, n2),
        area_matches(a, a.name@),
{
    lemma_folding_kept(n1);
    lemma_folding_kept(n2);
}

/// Two characters with the same lower case make no difference to what a name
/// matches.
pub proof fn lemma_case_ignored(a: Seq<char>, c: char, d: char, b: Seq<char>)
    requires
        text::lowered(c) == text::lowered(d),
        c != '-' && c != '_' && d != '-' && d != '_',
    ensures
        normalized(a.push(c) + b) == normalized(a.push(d) + b),
{
    lemma_normalized_append(a.push(c), b);
    lemma_normalized_append(a.push(d), b);
    assert(a.push(c).drop_last() =~= a);
    assert(a.push(d).drop_last() =~= a);
}

/// The area that a name finds matches it, and no area before it does.
pub proof fn lemma_matching_area(areas: Seq<Area>, name: Seq<char>)
    ensures
        match matching_area(areas, name) {
            Some(i) => {
                &&& 0 <= i < areas.len()
                &&& normalized(areas[i].name@) == normalized(name)
                &&& forall|j: int| 0 <= j < i ==> normalized((#[trigger] areas[j]).name@) != normalized(name)
            },
            None => forall|j: int| 0 <= j < areas.len() ==> normalized((#[trigger] areas[j]).name@) != normalized(name),
        },
    decreases areas.len(),
{
    if areas.len() > 0 {
        let init = areas.drop_last();
        lemma_matching_area(init, name);
        assert forall|j: int| 0 <= j < init.len() implies init[j] == areas[j] by {}
        if matching_area(init, name) is None {
            assert forall|j: int| 0 <= j < init.len() implies normalized((#[trigger] areas[j]).name@) != normalized(
                name,
            ) by {
                assert(init[j] == areas[j]);
            }
        }
    }
}

/// The canonical name of an area that a name finds finds the same area.
pub proof fn lemma_canonical_name_found(areas: Seq<Area>, name: Seq<char>)
    ensures
        matching_area(areas, name) matches Some(i) ==> matching_area(areas, areas[i].name@) == Some(i),
    decreases areas.len(),
{
    if let Some(i) = matching_area(areas, name) {
        lemma_matching_area(areas, name);
        lemma_matching_area(areas, areas[i].name@);
    }
}

}
