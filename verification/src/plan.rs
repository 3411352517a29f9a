//! Reading an area off a device, and writing one back.
//!
//! No port is ever opened here: [`DeviceHandle::dump`] and [`DeviceHandle::sync`]
//! check everything that can be checked without one and say what is to be
//! exchanged; [`DeviceHandle::dumped`], [`DeviceHandle::synced`] and
//! [`DeviceHandle::stored`] say what the answer means.

use vstd::prelude::*;
use vstd::string::*;

use crate::device::{self, Device, DeviceError};
use crate::engine;
use crate::handle::{DeviceHandle, MidiConfig};
use crate::merge::{self, merge_over};
use crate::midi::MidiError;
use crate::resolve::resolve_names;
use crate::text::{self, prefixed, quoted};
use crate::value::{self, record, Doc, Tree};
use crate::yaml;

verus! {

// === plans ===

/// The ports of a session and the device number on them.
#[derive(Debug)]
pub struct Ports {
    pub input: String,
    pub output: String,
    pub device: u8,
}

/// A dump to be read off the device: send the frames of the request on these
/// ports and collect the answer, then [`DeviceHandle::dumped`].
#[derive(Debug)]
pub struct DumpPlan {
    pub ports: Ports,
    pub area: &'static str,
    pub request: Vec<u8>,
}

/// How to confirm a write: send the frames of the request and collect the answer,
/// which should mean `want`.
#[derive(Debug)]
pub struct ReadBack {
    pub request: Vec<u8>,
    pub want: Doc,
}

/// How to make a write outlast a power cycle: send the frames of `bytes`, which
/// overwrite the slot `destination`.
#[derive(Debug)]
pub struct Commit {
    pub destination: String,
    pub bytes: Vec<u8>,
}

/// A document to be written to the device: send the frames of `bytes` on these
/// ports and, where it is to be confirmed, read the area back; then
/// [`DeviceHandle::synced`], which says whether to go on to `store`.
#[derive(Debug)]
pub struct SyncPlan {
    pub ports: Ports,
    pub area: &'static str,
    pub bytes: Vec<u8>,
    pub read_back: Option<ReadBack>,
    pub store: Option<Commit>,
}

/// What a write came to.
#[derive(Debug)]
pub enum Synced {
    /// All is done, with this receipt.
    Done(Doc),
    /// Working memory is written. Send the frames of the commit, then
    /// [`DeviceHandle::stored`].
    Store { commit: Commit, verified: bool },
}

/// How a missing port reads.
pub open spec fn no_port_text() -> Seq<char> {
    "no MIDI port configured; run `list_ports` and restart the server with --port"@
}

/// How a refused write reads.
pub open spec fn read_only_text() -> Seq<char> {
    "this server is read-only: it will not write to the device"@
}

/// How a destination reads that the device will not save to.
pub open spec fn no_store_text(destination: Seq<char>, reason: Seq<char>) -> Seq<char> {
    "cannot store to "@ + text::quoted_text(destination) + ": "@ + reason
}

/// The device may answer `answer` to how an area is saved to a slot.
pub open spec fn may_store<D: Device>(
    area: &str,
    destination: &str,
    ch: u8,
    answer: Result<Vec<u8>, DeviceError>,
) -> bool {
    call_ensures(D::store, (area, destination, ch), answer)
}

/// Both ports are configured.
pub open spec fn has_ports(config: MidiConfig) -> bool {
    config.input_port is Some && config.output_port is Some
}

/// The ports are those of the configuration.
pub open spec fn ports_of(config: MidiConfig, ports: Ports) -> bool {
    &&& has_ports(config)
    &&& ports.input@ == config.input_port->Some_0@
    &&& ports.output@ == config.output_port->Some_0@
    &&& ports.device == config.device
}

/// What is checked before a dump, in order, and what is then to be sent: the
/// request, or how the first failure reads.
pub open spec fn dump_request<D: Device>(area: Seq<char>, config: MidiConfig) -> Result<Seq<u8>, Seq<char>> {
    match device::matching_area(D::area_list(), area) {
        None => Err(engine::unknown_area_text(area, D::area_list())),
        Some(i) => match D::requested(D::area_list()[i].name@, config.device) {
            Err(f) => Err(device::fault_text(f)),
            Ok(request) => if has_ports(config) {
                Ok(request)
            } else {
                Err(no_port_text())
            },
        },
    }
}

/// What a collected dump gives: the document as YAML, or how the failure reads.
pub open spec fn dump_text<D: Device>(area: Seq<char>, raw: Seq<u8>) -> Result<Seq<char>, Seq<char>> {
    if raw.len() == 0 {
        Err("no dump received (check the device number and MIDI In/Out on the device)"@)
    } else {
        match D::decoded(area, raw) {
            Err(f) => Err(device::fault_text(f)),
            Ok(t) => match yaml::rendered(t) {
                Ok(s) => Ok(s),
                Err(m) => Err("YAML: "@ + m),
            },
        }
    }
}

/// The document that is written for a (possibly partial, possibly named) one: its
/// names resolved, and laid over the factory default.
pub open spec fn completed<D: Device>(area: Seq<char>, t: Tree) -> Tree {
    match D::default_doc(area) {
        Some(base) => merge::merged(base, engine::codec_ready::<D>(t)),
        None => engine::codec_ready::<D>(t),
    }
}

/// The bytes that write a document to an area, or how the first failure reads.
pub open spec fn document_bytes<D: Device>(area: Seq<char>, t: Tree, config: MidiConfig) -> Result<
    Seq<u8>,
    Seq<char>,
> {
    match D::encoded(area, completed::<D>(area, t), config.device) {
        Err(f) => Err(device::fault_text(f)),
        Ok(bytes) => if has_ports(config) {
            Ok(bytes)
        } else {
            Err(no_port_text())
        },
    }
}

/// What is checked before a write, in order, and what is then to be sent: the
/// bytes, or how the first failure reads.
pub open spec fn sync_bytes<D: Device>(
    area: Seq<char>,
    document: Seq<char>,
    config: MidiConfig,
) -> Result<Seq<u8>, Seq<char>> {
    if config.read_only {
        Err(read_only_text())
    } else {
        match device::matching_area(D::area_list(), area) {
            None => Err(engine::unknown_area_text(area, D::area_list())),
            Some(i) => match yaml::parsed(document) {
                Err(m) => Err("YAML: "@ + m),
                Ok(t) => document_bytes::<D>(D::area_list()[i].name@, t, config),
            },
        }
    }
}

/// What confirming a write takes: the request and the meaning it should be
/// answered with, or how the failure reads.
pub open spec fn read_back_of<D: Device>(area: Seq<char>, bytes: Seq<u8>, device: u8) -> Result<
    (Seq<u8>, Tree),
    Seq<char>,
> {
    match D::decoded(area, bytes) {
        Err(f) => Err(device::fault_text(f)),
        Ok(want) => match D::requested(area, device) {
            Err(f) => Err(device::fault_text(f)),
            Ok(request) => Ok((request, want)),
        },
    }
}

/// The slot that was written to, or nothing where it was working memory alone.
pub open spec fn slot_tree(stored: Option<Seq<char>>) -> Tree {
    match stored {
        Some(destination) => Tree::Text(destination),
        None => Tree::Null,
    }
}

/// What was written: the area, how many bytes, whether it was confirmed, and the
/// slot it was saved to.
pub open spec fn sync_receipt(area: Seq<char>, sent: nat, verified: bool, stored: Option<Seq<char>>) -> Tree {
    value::record_tree(
        seq![
            ("area"@, Tree::Text(area)),
            ("sent_bytes"@, value::count_tree(sent)),
            ("verified"@, Tree::Bool(verified)),
            ("stored"@, slot_tree(stored)),
        ],
    )
}

/// Whether a write was confirmed, or how its failure reads: `result` is what
/// sending came to, and `answer` what the device answered where the write was to be
/// confirmed.
pub open spec fn confirmation<D: Device>(
    area: Seq<char>,
    result: Result<(), MidiError>,
    answer: Option<(Doc, Result<Vec<u8>, MidiError>)>,
) -> Result<bool, Seq<char>> {
    match result {
        Err(e) => Err(e.message_text()),
        Ok(_) => match answer {
            None => Ok(false),
            Some((want, collected)) => match collected {
                Err(e) => Err(e.message_text()),
                Ok(raw) => match D::decoded(area, raw@) {
                    Ok(got) => if value::same(got, want@) {
                        Ok(true)
                    } else {
                        Err("verify FAILED: read-back differs from what we sent"@)
                    },
                    Err(f) => Err("verify decode failed: "@ + device::fault_text(f)),
                },
            },
        },
    }
}

/// `r` is the plan for a dump of an area, or how the first failure reads.
pub open spec fn dump_planned<D: Device>(config: MidiConfig, area: Seq<char>, r: Result<DumpPlan, String>) -> bool {
    match dump_request::<D>(area, config) {
        Ok(request) => {
            let name = D::area_list()[device::matching_area(D::area_list(), area)->Some_0].name;
            r matches Ok(plan) && plan.request@ == request && ports_of(config, plan.ports) && plan.area == name
        },
        Err(m) => r matches Err(e) && e@ == m,
    }
}

/// `r` is the plan for sending bytes and, where they are to be confirmed, for
/// reading the area back; or how the failure to plan that reads.
pub open spec fn bytes_planned<D: Device>(
    config: MidiConfig,
    name: &'static str,
    bytes: Seq<u8>,
    verify: bool,
    r: Result<SyncPlan, String>,
) -> bool {
    if !verify {
        r matches Ok(plan) && plan.bytes@ == bytes && ports_of(config, plan.ports) && plan.area == name
            && plan.read_back is None && plan.store is None
    } else {
        match read_back_of::<D>(name@, bytes, config.device) {
            Err(m) => r matches Err(e) && e@ == m,
            Ok(back) => r matches Ok(plan) && plan.bytes@ == bytes && ports_of(config, plan.ports) && plan.area == name
                && (plan.read_back matches Some(b) && b.request@ == back.0 && b.want@ == back.1) && plan.store is None,
        }
    }
}

/// `r` is the plan for writing a document to working memory, or how the first
/// failure reads.
pub open spec fn memory_planned<D: Device>(
    config: MidiConfig,
    area: Seq<char>,
    document: Seq<char>,
    verify: bool,
    r: Result<SyncPlan, String>,
) -> bool {
    match sync_bytes::<D>(area, document, config) {
        Err(m) => r matches Err(e) && e@ == m,
        Ok(bytes) => {
            let name = D::area_list()[device::matching_area(D::area_list(), area)->Some_0].name;
            bytes_planned::<D>(config, name, bytes, verify, r)
        },
    }
}

/// `r` is `plan`, followed by what `answer` says commits the write to
/// `destination`, or how its refusal reads.
pub open spec fn commit_planned(
    plan: SyncPlan,
    destination: Seq<char>,
    answer: Result<Vec<u8>, DeviceError>,
    r: Result<SyncPlan, String>,
) -> bool {
    match answer {
        Ok(bytes) => {
            &&& r matches Ok(p)
            &&& p == (SyncPlan { store: p.store, ..plan })
            &&& p.store matches Some(c)
            &&& c.destination@ == destination
            &&& c.bytes@ == bytes@
        },
        Err(e) => r matches Err(m) && m@ == no_store_text(destination, device::fault_text(e@)),
    }
}

/// `r` is `plan`, followed by what the device answers commits the write to
/// `destination`, or how its refusal reads.
pub open spec fn store_planned<D: Device>(plan: SyncPlan, text: Seq<char>, ch: u8, r: Result<SyncPlan, String>) -> bool {
    exists|destination: &str, answer: Result<Vec<u8>, DeviceError>|
        {
            &&& destination@ == text
            &&& #[trigger] may_store::<D>(plan.area, destination, ch, answer)
            &&& commit_planned(plan, text, answer, r)
        }
}

/// `r` is the plan for writing a document to working memory and, where a
/// destination is given, for committing it there; or how the first failure reads.
pub open spec fn sync_planned<D: Device>(
    config: MidiConfig,
    area: Seq<char>,
    document: Seq<char>,
    verify: bool,
    store: Option<Seq<char>>,
    r: Result<SyncPlan, String>,
) -> bool {
    match store {
        None => memory_planned::<D>(config, area, document, verify, r),
        Some(destination) => exists|plan: Result<SyncPlan, String>|
            #[trigger] memory_planned::<D>(config, area, document, verify, plan) && match plan {
                Ok(plan) => store_planned::<D>(plan, destination, config.device, r),
                Err(_) => r == plan,
            },
    }
}

fn receipt(area: &str, sent: usize, verified: bool, stored: Option<String>) -> (r: Doc)
    ensures
        r@ == sync_receipt(area@, sent as nat, verified, text::text_in(stored)),
{
    let ghost slot = text::text_in(stored);
    let stored = match stored {
        Some(destination) => Doc::Text(destination),
        None => Doc::Null,
    };
    let fields: Vec<(&str, Doc)> = vec![
        ("area", Doc::text(area)),
        ("sent_bytes", Doc::count(sent)),
        ("verified", Doc::Bool(verified)),
        ("stored", stored),
    ];
    proof {
        reveal_strlit("area");
        reveal_strlit("sent_bytes");
        reveal_strlit("verified");
        reveal_strlit("stored");
        assert("area"@.len() == 4 && "sent_bytes"@.len() == 10 && "verified"@.len() == 8 && "stored"@.len() == 6);
        assert(value::field_trees(fields@) =~= seq![
            ("area"@, Tree::Text(area@)),
            ("sent_bytes"@, value::count_tree(sent as nat)),
            ("verified"@, Tree::Bool(verified)),
            ("stored"@, slot_tree(slot)),
        ]);
    }
    record(fields)
}

fn cannot_store(destination: &str, reason: &str) -> (r: String)
    ensures
        r@ == no_store_text(destination@, reason@),
{
    let mut message = "cannot store to ".to_owned();
    message.append(quoted(destination).as_str());
    message.append(": ");
    message.append(reason);
    message
}

impl SyncPlan {
    /// Follow the write by what the device answered commits it to `destination`.
    pub fn storing(self, destination: &str, answer: Result<Vec<u8>, DeviceError>) -> (r: Result<SyncPlan, String>)
        ensures
            commit_planned(self, destination@, answer, r),
    {
        match answer {
            Ok(bytes) => {
                let commit = Commit { destination: destination.to_owned(), bytes };
                Ok(SyncPlan { store: Some(commit), ..self })
            },
            Err(e) => Err(cannot_store(destination, e.message().as_str())),
        }
    }
}

impl<D: Device> DeviceHandle<D> {
    /// The configured ports.
    fn ports(&self) -> (r: Result<Ports, String>)
        ensures
            match r {
                Ok(ports) => ports_of(self.config(), ports),
                Err(m) => !has_ports(self.config()) && m@ == no_port_text(),
            },
    {
        match (text::copied(&self.midi().input_port), text::copied(&self.midi().output_port)) {
            (Some(input), Some(output)) => Ok(Ports { input, output, device: self.midi().device }),
            _ => Err("no MIDI port configured; run `list_ports` and restart the server with --port".to_owned()),
        }
    }

    /// Canonical area name, or how an unknown area reads.
    fn known_area(&self, area: &str) -> (r: Result<&'static str, String>)
        ensures
            match device::matching_area(D::area_list(), area@) {
                Some(i) => r == Ok::<&'static str, String>(D::area_list()[i].name),
                None => r matches Err(m) && m@ == engine::unknown_area_text(area@, D::area_list()),
            },
    {
        match self.canon(area) {
            Some(name) => Ok(name),
            None => {
                let mut message = "unknown area ".to_owned();
                message.append(quoted(area).as_str());
                message.append(" (valid: ");
                message.append(device::joined_names(self.areas()).as_str());
                message.append(")");
                Err(message)
            },
        }
    }

    /// Check what can be checked before an area is read off the device, and say
    /// what is to be exchanged.
    pub fn dump(&self, area: &str) -> (r: Result<DumpPlan, String>)
        ensures
            dump_planned::<D>(self.config(), area@, r),
    {
        let name = self.known_area(area)?;
        let request = match D::request(name, self.midi().device) {
            Ok(request) => request,
            Err(e) => return Err(e.message()),
        };
        let ports = self.ports()?;
        Ok(DumpPlan { ports, area: name, request })
    }

    /// The document that a device answered with, as YAML.
    pub fn dumped(&self, area: &str, result: Result<Vec<u8>, MidiError>) -> (r: Result<String, String>)
        ensures
            match result {
                Ok(raw) => text::outcome(r) == dump_text::<D>(area@, raw@),
                Err(e) => r matches Err(m) && m@ == e.message_text(),
            },
    {
        let raw = match result {
            Ok(raw) => raw,
            Err(e) => return Err(e.message()),
        };
        if raw.len() == 0 {
            return Err("no dump received (check the device number and MIDI In/Out on the device)".to_owned());
        }
        match D::decode(area, raw.as_slice()) {
            Err(e) => Err(e.message()),
            Ok(doc) => match yaml::render(&doc) {
                Ok(s) => Ok(s),
                Err(m) => Err(prefixed("YAML: ", m.as_str())),
            },
        }
    }

    /// Check what can be checked before a document is written to the device, and
    /// say what is to be sent. The document may be partial and may use value names.
    /// This writes working memory, which a power cycle discards; only where `store`
    /// gives a destination is the write to be committed to that slot as well.
    pub fn sync(&self, area: &str, document: &str, verify: bool, store: Option<&str>) -> (r: Result<SyncPlan, String>)
        ensures
            sync_planned::<D>(self.config(), area@, document@, verify, text::text_behind(store), r),
    {
        let plan = self.sync_memory(area, document, verify);
        let destination = match store {
            Some(destination) => destination,
            None => return plan,
        };
        let ghost planned = plan;
        assert(memory_planned::<D>(self.config(), area@, document@, verify, planned));
        match plan {
            Err(m) => Err(m),
            Ok(plan) => {
                let answer = D::store(plan.area, destination, self.midi().device);
                assert(may_store::<D>(plan.area, destination, self.config().device, answer));
                let ghost given = answer;
                let ghost before = plan;
                let r = plan.storing(destination, answer);
                assert(commit_planned(before, destination@, given, r));
                assert(store_planned::<D>(before, destination@, self.config().device, r));
                r
            },
        }
    }

    /// Check what can be checked before a document is written to working memory,
    /// and say what is to be sent.
    fn sync_memory(&self, area: &str, document: &str, verify: bool) -> (r: Result<SyncPlan, String>)
        ensures
            memory_planned::<D>(self.config(), area@, document@, verify, r),
    {
        if self.midi().read_only {
            return Err("this server is read-only: it will not write to the device".to_owned());
        }
        let name = self.known_area(area)?;
        match yaml::parse(document) {
            Ok(doc) => self.sync_document(name, doc, verify),
            Err(m) => Err(prefixed("YAML: ", m.as_str())),
        }
    }

    /// Complete a document for an area, and say what is to be sent.
    pub fn sync_document(&self, name: &'static str, doc: Doc, verify: bool) -> (r: Result<SyncPlan, String>)
        ensures
            match document_bytes::<D>(name@, doc@, self.config()) {
                Err(m) => r matches Err(e) && e@ == m,
                Ok(bytes) => bytes_planned::<D>(self.config(), name, bytes, verify, r),
            },
    {
        let mut doc = doc;
        resolve_names(&mut doc, D::params(), D::catalogs());
        let whole = match D::defaults(name) {
            Some(base) => merge_over(base, doc),
            None => doc,
        };
        let bytes = match D::encode(name, &whole, self.midi().device) {
            Ok(bytes) => bytes,
            Err(e) => return Err(e.message()),
        };
        let ports = self.ports()?;
        if !verify {
            return Ok(SyncPlan { ports, area: name, bytes, read_back: None, store: None });
        }
        let want = match D::decode(name, bytes.as_slice()) {
            Ok(want) => want,
            Err(e) => return Err(e.message()),
        };
        let request = match D::request(name, self.midi().device) {
            Ok(request) => request,
            Err(e) => return Err(e.message()),
        };
        Ok(SyncPlan { ports, area: name, bytes, read_back: Some(ReadBack { request, want }), store: None })
    }

    /// Whether a write was confirmed, or how its failure reads.
    fn confirmed(
        &self,
        area: &str,
        result: Result<(), MidiError>,
        answer: Option<(Doc, Result<Vec<u8>, MidiError>)>,
    ) -> (r: Result<bool, String>)
        ensures
            match confirmation::<D>(area@, result, answer) {
                Ok(verified) => r == Ok::<bool, String>(verified),
                Err(m) => r matches Err(e) && e@ == m,
            },
    {
        if let Err(e) = result {
            return Err(e.message());
        }
        match answer {
            None => Ok(false),
            Some((want, collected)) => match collected {
                Err(e) => Err(e.message()),
                Ok(raw) => match D::decode(area, raw.as_slice()) {
                    Ok(got) => if value::same_values(&got, &want) {
                        Ok(true)
                    } else {
                        Err("verify FAILED: read-back differs from what we sent".to_owned())
                    },
                    Err(e) => Err(prefixed("verify decode failed: ", e.message().as_str())),
                },
            },
        }
    }

    /// What a write came to: `sent` bytes were sent, and `answer` is what the
    /// device answered where it was to be confirmed. A slot is overwritten only
    /// after a write that did not fail.
    pub fn synced(
        &self,
        area: &str,
        sent: usize,
        result: Result<(), MidiError>,
        answer: Option<(Doc, Result<Vec<u8>, MidiError>)>,
        store: Option<Commit>,
    ) -> (r: Result<Synced, String>)
        ensures
            match confirmation::<D>(area@, result, answer) {
                Err(m) => r matches Err(e) && e@ == m,
                Ok(verified) => match store {
                    None => r matches Ok(Synced::Done(doc)) && doc@ == sync_receipt(area@, sent as nat, verified, None),
                    Some(commit) => r == Ok::<Synced, String>(Synced::Store { commit, verified }),
                },
            },
    {
        let verified = self.confirmed(area, result, answer)?;
        match store {
            None => Ok(Synced::Done(receipt(area, sent, verified, None))),
            Some(commit) => Ok(Synced::Store { commit, verified }),
        }
    }

    /// What committing a write came to.
    pub fn stored(
        &self,
        area: &str,
        sent: usize,
        verified: bool,
        destination: String,
        result: Result<(), MidiError>,
    ) -> (r: Result<Doc, String>)
        ensures
            match result {
                Err(e) => r matches Err(m) && m@ == no_store_text(destination@, e.message_text()),
                Ok(_) => r matches Ok(doc) && doc@ == sync_receipt(area@, sent as nat, verified, Some(destination@)),
            },
    {
        match result {
            Err(e) => Err(cannot_store(destination.as_str(), e.message().as_str())),
            Ok(_) => Ok(receipt(area, sent, verified, Some(destination))),
        }
    }
}

// === laws ===

/// A read-only server refuses every write, to a slot too, and reads exactly as it
/// would otherwise.
pub proof fn lemma_read_only<D: Device>(
    area: Seq<char>,
    document: Seq<char>,
    verify: bool,
    store: Option<Seq<char>>,
    r: Result<SyncPlan, String>,
    config: MidiConfig,
    other: MidiConfig,
)
    requires
        config.read_only,
        other == (MidiConfig { read_only: false, ..config }),
        sync_planned::<D>(config, area, document, verify, store, r),
    ensures
        r matches Err(m) && m@ == read_only_text(),
        dump_request::<D>(area, config) == dump_request::<D>(area, other),
{
}

/// Nothing is written to a device that has no port configured, that the area is
/// unknown to, or whose codec refuses the document.
pub proof fn lemma_write_is_checked<D: Device>(
    config: MidiConfig,
    area: Seq<char>,
    document: Seq<char>,
    verify: bool,
    store: Option<Seq<char>>,
    r: Result<SyncPlan, String>,
)
    requires
        sync_planned::<D>(config, area, document, verify, store, r),
        r is Ok,
    ensures
        !config.read_only,
        has_ports(config),
        device::matching_area(D::area_list(), area) is Some,
        yaml::parsed(document) is Ok,
        sync_bytes::<D>(area, document, config) == Ok::<Seq<u8>, Seq<char>>(r->Ok_0.bytes@),
{
}

/// Committing to a slot is a separate, explicit step: without a destination no slot
/// is written, and with one the write to working memory is what it is without, and
/// that slot is written after it.
pub proof fn lemma_store_is_explicit<D: Device>(
    config: MidiConfig,
    area: Seq<char>,
    document: Seq<char>,
    verify: bool,
    store: Option<Seq<char>>,
    plan: SyncPlan,
)
    requires
        sync_planned::<D>(config, area, document, verify, store, Ok(plan)),
    ensures
        match store {
            None => plan.store is None,
            Some(destination) => plan.store matches Some(commit) && commit.destination@ == destination,
        },
        sync_planned::<D>(config, area, document, verify, None, Ok(SyncPlan { store: None, ..plan })),
{
    if let Some(destination) = store {
        let memory = choose|p: Result<SyncPlan, String>|
            #[trigger] memory_planned::<D>(config, area, document, verify, p) && match p {
                Ok(p) => store_planned::<D>(p, destination, config.device, Ok(plan)),
                Err(_) => Ok::<SyncPlan, String>(plan) == p,
            };
        assert(memory->Ok_0 == (SyncPlan { store: None, ..plan }));
    } else {
        assert((SyncPlan { store: None, ..plan }) == plan);
    }
}

/// No slot is written after a write that failed, or that was to be confirmed and
/// was not.
pub proof fn lemma_only_good_writes_are_stored<D: Device>(
    area: Seq<char>,
    result: Result<(), MidiError>,
    answer: Option<(Doc, Result<Vec<u8>, MidiError>)>,
)
    requires
        confirmation::<D>(area, result, answer) is Ok,
    ensures
        result is Ok,
        answer matches Some((want, collected)) ==> (collected matches Ok(raw) && (D::decoded(area, raw@) matches Ok(got)
            && value::same(got, want@))),
{
}

}
