//! Reading and writing an area on behalf of a client: what is asked of the device,
//! what is sent to it, and what its answer comes to.

use vstd::prelude::*;

use crate::device::{self, Area, Device, DeviceError};
use crate::engine;
use crate::handle::{DeviceHandle, MidiConfig};
use crate::laws::areas;
use crate::laws::naming;
use crate::laws::terms;
use crate::merge;
use crate::midi::MidiError;
use crate::plan::{self, Commit, DumpPlan, Ports, SyncPlan, Synced};
use crate::resolve::Direction;
use crate::text;
use crate::tools::{self, DumpArgs, SyncArgs};
use crate::value::{self, Doc, Tree};
use crate::yaml;

verus! {

/// How a name that matches no area is refused: it is quoted, and the areas are listed.
pub open spec fn refuses_area(message: Seq<char>, area: Seq<char>, list: Seq<Area>) -> bool {
    exists|names: Seq<Seq<char>>|
        {
            &&& names.len() == list.len()
            &&& forall|i: int| 0 <= i < list.len() ==> #[trigger] names[i] == list[i].name@
            &&& message == "unknown area "@ + text::quoted_text(area) + " (valid: "@ + #[trigger] text::joined(
                names,
                ", "@,
            ) + ")"@
        }
}

pub proof fn lemma_refuses_area(area: Seq<char>, list: Seq<Area>)
    ensures
        refuses_area(engine::unknown_area_text(area, list), area, list),
{
    let names = device::area_names(list);
    assert(text::joined(names, ", "@) == text::joined(device::area_names(list), ", "@));
}

/// The ports of a plan are those that are configured, with the device number.
pub open spec fn goes_through(ports: Ports, config: MidiConfig) -> bool {
    &&& config.input_port matches Some(input) && ports.input@ == input@
    &&& config.output_port matches Some(output) && ports.output@ == output@
    &&& ports.device == config.device
}

/// A port is missing.
pub open spec fn lacks_port(config: MidiConfig) -> bool {
    config.input_port is None || config.output_port is None
}

// === reading ===

/// `r` is how an area is read: the first that the name matches, by the request that
/// the device has for it and for the configured device number.
pub open spec fn reads_area<D: Device>(config: MidiConfig, area: Seq<char>, r: Result<DumpPlan, String>) -> bool {
    &&& areas::no_match(D::area_list(), area) ==> (r matches Err(e) && refuses_area(e@, area, D::area_list()))
    &&& forall|i: int| #[trigger]
        areas::first_match(D::area_list(), area, i) ==> match D::requested(D::area_list()[i].name@, config.device) {
            Err(f) => r matches Err(e) && e@ == device::fault_text(f),
            Ok(request) => if lacks_port(config) {
                r matches Err(e) && e@
                    == "no MIDI port configured; run `list_ports` and restart the server with --port"@
            } else {
                &&& r matches Ok(p)
                &&& p.request@ == request
                &&& p.area == D::area_list()[i].name
                &&& goes_through(p.ports, config)
            },
        }
}

proof fn lemma_dump_planned<D: Device>(config: MidiConfig, area: Seq<char>, r: Result<DumpPlan, String>)
    requires
        plan::dump_planned::<D>(config, area, r),
    ensures
        reads_area::<D>(config, area, r),
{
    areas::lemma_area_found(D::area_list(), area);
    lemma_refuses_area(area, D::area_list());
    let k = device::matching_area(D::area_list(), area);
    if areas::no_match(D::area_list(), area) {
        if let Some(k) = k {
            areas::lemma_one_first_match(D::area_list(), area, k, k);
        }
    }
    assert forall|i: int| #[trigger] areas::first_match(D::area_list(), area, i) implies k == Some(i) by {
        areas::lemma_one_first_match(D::area_list(), area, i, i);
        areas::lemma_one_first_match(D::area_list(), area, k->Some_0, i);
    }
}

/// Reading an area asks for that area of the configured device number.
pub proof fn lemma_area_read<D: Device>(h: DeviceHandle<D>, area: &str, r: Result<DumpPlan, String>)
    requires
        call_ensures(DeviceHandle::<D>::dump, (&h, area), r),
    ensures
        reads_area::<D>(h.config(), area@, r),
{
    lemma_dump_planned::<D>(h.config(), area@, r);
}

/// The tool reads the area that its arguments name.
pub proof fn lemma_dump_tool<D: Device>(h: DeviceHandle<D>, args: DumpArgs, r: Result<DumpPlan, String>)
    requires
        call_ensures(tools::dump::<D>, (&h, &args), r),
    ensures
        reads_area::<D>(h.config(), args.area@, r),
{
    lemma_dump_planned::<D>(h.config(), args.area@, r);
}

/// What the device answered is given as YAML where it means a document, and an empty
/// answer is none.
pub proof fn lemma_area_received<D: Device>(
    h: DeviceHandle<D>,
    area: &str,
    answer: Result<Vec<u8>, MidiError>,
    r: Result<String, String>,
)
    requires
        call_ensures(DeviceHandle::<D>::dumped, (&h, area, answer), r),
    ensures
        answer matches Err(e) ==> (r matches Err(m) && m@ == e.message_text()),
        answer matches Ok(raw) ==> if raw@.len() == 0 {
            r matches Err(m) && m@
                == "no dump received (check the device number and MIDI In/Out on the device)"@
        } else {
            match D::decoded(area@, raw@) {
                Err(f) => r matches Err(m) && m@ == device::fault_text(f),
                Ok(t) => match yaml::rendered(t) {
                    Ok(s) => r matches Ok(given) && given@ == s,
                    Err(reason) => r matches Err(m) && m@ == "YAML: "@ + reason,
                },
            }
        },
{
}

// === writing ===

/// A document laid over the factory default of an area, where it has one.
pub open spec fn over_default<D: Device>(area: Seq<char>, u: Tree) -> Tree {
    match D::default_doc(area) {
        Some(base) => merge::merged(base, u),
        None => u,
    }
}

/// The plan sends these bytes for an area through the configured ports.
pub open spec fn sends(p: SyncPlan, config: MidiConfig, area: &'static str, bytes: Seq<u8>) -> bool {
    p.bytes@ == bytes && p.area == area && goes_through(p.ports, config)
}

/// `r` is how a document is written: its names resolved, laid over the factory
/// default, and encoded for the configured device number; and, where it is to be
/// confirmed, how the area is asked for again and what the bytes that were sent mean.
pub open spec fn writes_document<D: Device>(
    config: MidiConfig,
    area: &'static str,
    t: Tree,
    verify: bool,
    r: Result<SyncPlan, String>,
) -> bool {
    exists|u: Tree| #[trigger]
        naming::is_rewriting(t, u, D::table(), D::value_catalogs(), Direction::Resolve) && match D::encoded(
            area@,
            over_default::<D>(area@, u),
            config.device,
        ) {
            Err(f) => r matches Err(e) && e@ == device::fault_text(f),
            Ok(bytes) => if lacks_port(config) {
                r matches Err(e) && e@
                    == "no MIDI port configured; run `list_ports` and restart the server with --port"@
            } else if !verify {
                r matches Ok(p) && sends(p, config, area, bytes) && p.read_back is None
            } else {
                match (D::decoded(area@, bytes), D::requested(area@, config.device)) {
                    (Err(f), _) => r matches Err(e) && e@ == device::fault_text(f),
                    (Ok(_), Err(f)) => r matches Err(e) && e@ == device::fault_text(f),
                    (Ok(want), Ok(request)) => {
                        &&& r matches Ok(p)
                        &&& sends(p, config, area, bytes)
                        &&& p.read_back matches Some(b)
                        &&& b.want@ == want
                        &&& b.request@ == request
                    },
                }
            },
        }
}

proof fn lemma_document_planned<D: Device>(
    config: MidiConfig,
    area: &'static str,
    t: Tree,
    verify: bool,
    r: Result<SyncPlan, String>,
)
    requires
        match plan::document_bytes::<D>(area@, t, config) {
            Err(m) => r matches Err(e) && e@ == m,
            Ok(bytes) => plan::bytes_planned::<D>(config, area, bytes, verify, r),
        },
    ensures
        writes_document::<D>(config, area, t, verify, r),
        r matches Ok(p) ==> p.store is None,
{
    naming::lemma_rewritten_everywhere(t, D::table(), D::value_catalogs(), Direction::Resolve);
    let u = engine::codec_ready::<D>(t);
    assert(naming::is_rewriting(t, u, D::table(), D::value_catalogs(), Direction::Resolve));
}

/// Writing a document to an area.
pub proof fn lemma_document_written<D: Device>(
    h: DeviceHandle<D>,
    area: &'static str,
    doc: Doc,
    verify: bool,
    r: Result<SyncPlan, String>,
)
    requires
        call_ensures(DeviceHandle::<D>::sync_document, (&h, area, doc, verify), r),
    ensures
        writes_document::<D>(h.config(), area, doc@, verify, r),
        r matches Ok(p) ==> p.store is None,
{
    lemma_document_planned::<D>(h.config(), area, doc@, verify, r);
}

/// `r` is how a text is written to the first area that a name matches: never where
/// writing is refused, and not where the area is not known or the text is no YAML.
pub open spec fn writes_text<D: Device>(
    config: MidiConfig,
    area: Seq<char>,
    document: Seq<char>,
    verify: bool,
    r: Result<SyncPlan, String>,
) -> bool {
    if config.read_only {
        r matches Err(e) && e@ == "this server is read-only: it will not write to the device"@
    } else {
        &&& areas::no_match(D::area_list(), area) ==> (r matches Err(e) && refuses_area(e@, area, D::area_list()))
        &&& forall|i: int| #[trigger]
            areas::first_match(D::area_list(), area, i) ==> match yaml::parsed(document) {
                Err(m) => r matches Err(e) && e@ == "YAML: "@ + m,
                Ok(t) => writes_document::<D>(config, D::area_list()[i].name, t, verify, r),
            }
    }
}

proof fn lemma_memory_planned<D: Device>(
    config: MidiConfig,
    area: Seq<char>,
    document: Seq<char>,
    verify: bool,
    r: Result<SyncPlan, String>,
)
    requires
        plan::memory_planned::<D>(config, area, document, verify, r),
    ensures
        writes_text::<D>(config, area, document, verify, r),
        r matches Ok(p) ==> p.store is None,
{
    areas::lemma_area_found(D::area_list(), area);
    lemma_refuses_area(area, D::area_list());
    let k = device::matching_area(D::area_list(), area);
    if areas::no_match(D::area_list(), area) {
        if let Some(k) = k {
            areas::lemma_one_first_match(D::area_list(), area, k, k);
        }
    }
    if let Ok(t) = yaml::parsed(document) {
        if !config.read_only && k is Some {
            lemma_document_planned::<D>(config, D::area_list()[k->Some_0].name, t, verify, r);
        }
    }
    assert forall|i: int| #[trigger] areas::first_match(D::area_list(), area, i) implies k == Some(i) by {
        areas::lemma_one_first_match(D::area_list(), area, i, i);
        areas::lemma_one_first_match(D::area_list(), area, k->Some_0, i);
    }
}

/// The device may have answered how it saves an area of the configured device number
/// to a slot, and `r` is the write, followed by that; or the refusal.
pub open spec fn follows_up<D: Device>(p: SyncPlan, slot: Seq<char>, device: u8, r: Result<SyncPlan, String>) -> bool {
    exists|destination: &str, answer: Result<Vec<u8>, DeviceError>|
        {
            &&& destination@ == slot
            &&& #[trigger] call_ensures(D::store, (p.area, destination, device), answer)
            &&& commits(p, slot, answer, r)
        }
}

/// `r` is the write, followed by sending what was answered; or the refusal.
pub open spec fn commits(
    p: SyncPlan,
    slot: Seq<char>,
    answer: Result<Vec<u8>, DeviceError>,
    r: Result<SyncPlan, String>,
) -> bool {
    match answer {
        Ok(bytes) => {
            &&& r matches Ok(q)
            &&& q.ports == p.ports && q.area == p.area && q.bytes == p.bytes && q.read_back == p.read_back
            &&& q.store matches Some(c)
            &&& c.destination@ == slot
            &&& c.bytes@ == bytes@
        },
        Err(e) => r matches Err(m) && m@ == "cannot store to "@ + text::quoted_text(slot) + ": "@ + device::fault_text(e@),
    }
}

/// `r` is how a text is written and, where a slot is given, saved to it. Without one
/// no slot is written.
pub open spec fn writes_and_saves<D: Device>(
    config: MidiConfig,
    area: Seq<char>,
    document: Seq<char>,
    verify: bool,
    slot: Option<Seq<char>>,
    r: Result<SyncPlan, String>,
) -> bool {
    match slot {
        None => writes_text::<D>(config, area, document, verify, r) && (r matches Ok(p) ==> p.store is None),
        Some(slot) => exists|memory: Result<SyncPlan, String>| #[trigger]
            writes_text::<D>(config, area, document, verify, memory) && match memory {
                Ok(p) => follows_up::<D>(p, slot, config.device, r),
                Err(_) => r == memory,
            },
    }
}

proof fn lemma_sync_planned<D: Device>(
    config: MidiConfig,
    area: Seq<char>,
    document: Seq<char>,
    verify: bool,
    slot: Option<Seq<char>>,
    r: Result<SyncPlan, String>,
)
    requires
        plan::sync_planned::<D>(config, area, document, verify, slot, r),
    ensures
        writes_and_saves::<D>(config, area, document, verify, slot, r),
{
    if let Some(slot) = slot {
        let memory = choose|memory: Result<SyncPlan, String>| #[trigger]
            plan::memory_planned::<D>(config, area, document, verify, memory) && match memory {
                Ok(p) => plan::store_planned::<D>(p, slot, config.device, r),
                Err(_) => r == memory,
            };
        lemma_memory_planned::<D>(config, area, document, verify, memory);
        assert(writes_text::<D>(config, area, document, verify, memory));
        if let Ok(p) = memory {
            let (destination, answer) = choose|destination: &str, answer: Result<Vec<u8>, DeviceError>|
                {
                    &&& destination@ == slot
                    &&& #[trigger] plan::may_store::<D>(p.area, destination, config.device, answer)
                    &&& plan::commit_planned(p, slot, answer, r)
                };
            assert(call_ensures(D::store, (p.area, destination, config.device), answer));
            assert(commits(p, slot, answer, r));
            assert(follows_up::<D>(p, slot, config.device, r));
        }
    } else {
        lemma_memory_planned::<D>(config, area, document, verify, r);
    }
}

/// Writing a text to an area, and saving it where a slot is given.
pub proof fn lemma_text_written<D: Device>(
    h: DeviceHandle<D>,
    area: &str,
    document: &str,
    verify: bool,
    store: Option<&str>,
    r: Result<SyncPlan, String>,
)
    requires
        call_ensures(DeviceHandle::<D>::sync, (&h, area, document, verify, store), r),
    ensures
        writes_and_saves::<D>(
            h.config(),
            area@,
            document@,
            verify,
            match store {
                Some(s) => Some(s@),
                None => None,
            },
            r,
        ),
{
    lemma_sync_planned::<D>(h.config(), area@, document@, verify, text::text_behind(store), r);
}

/// The tool writes what its arguments say, and confirms it only where they ask for it.
pub proof fn lemma_sync_tool<D: Device>(h: DeviceHandle<D>, args: SyncArgs, r: Result<SyncPlan, String>)
    requires
        call_ensures(tools::sync::<D>, (&h, &args), r),
    ensures
        writes_and_saves::<D>(
            h.config(),
            args.area@,
            args.document@,
            args.verify == Some(true),
            match args.store {
                Some(s) => Some(s@),
                None => None,
            },
            r,
        ),
{
    lemma_sync_planned::<D>(
        h.config(),
        args.area@,
        args.document@,
        args.verify == Some(true),
        text::text_in(args.store),
        r,
    );
}

/// Following a write by saving it changes nothing of the write.
pub proof fn lemma_saving(p: SyncPlan, destination: &str, answer: Result<Vec<u8>, DeviceError>, r: Result<SyncPlan, String>)
    requires
        call_ensures(SyncPlan::storing, (p, destination, answer), r),
    ensures
        commits(p, destination@, answer, r),
{
}

// === what a write came to ===

/// A write that was sent and, where it was to be confirmed, was answered with a
/// document that is the same.
pub open spec fn went_well<D: Device>(
    area: Seq<char>,
    result: Result<(), MidiError>,
    answer: Option<(Doc, Result<Vec<u8>, MidiError>)>,
) -> bool {
    &&& result is Ok
    &&& answer matches Some((want, collected)) ==> (collected matches Ok(raw) && (D::decoded(area, raw@) matches Ok(got)
        && value::same(got, want@)))
}

/// `t` is the receipt of a write.
pub open spec fn is_receipt(t: Tree, area: Seq<char>, sent: int, verified: bool, slot: Option<Seq<char>>) -> bool {
    &&& terms::has_keys(t, seq!["area"@, "sent_bytes"@, "verified"@, "stored"@])
    &&& value::field(t, "area"@) == Some(Tree::Text(area))
    &&& value::field(t, "sent_bytes"@) == Some(terms::number(sent))
    &&& value::field(t, "verified"@) == Some(Tree::Bool(verified))
    &&& value::field(t, "stored"@) == (match slot {
        Some(s) => Some(Tree::Text(s)),
        None => Some(Tree::Null),
    })
}

proof fn lemma_receipt(area: Seq<char>, sent: nat, verified: bool, slot: Option<Seq<char>>)
    ensures
        is_receipt(plan::sync_receipt(area, sent, verified, slot), area, sent as int, verified, slot),
{
    let fields = seq![
        ("area"@, Tree::Text(area)),
        ("sent_bytes"@, value::count_tree(sent)),
        ("verified"@, Tree::Bool(verified)),
        ("stored"@, plan::slot_tree(slot)),
    ];
    reveal_strlit("area");
    reveal_strlit("sent_bytes");
    reveal_strlit("verified");
    reveal_strlit("stored");
    assert("area"@.len() == 4 && "sent_bytes"@.len() == 10 && "verified"@.len() == 8 && "stored"@.len() == 6);
    value::lemma_record_field(fields, "area"@);
    value::lemma_record_field(fields, "sent_bytes"@);
    value::lemma_record_field(fields, "verified"@);
    value::lemma_record_field(fields, "stored"@);
    assert(fields[0].0 == "area"@ && fields[1].0 == "sent_bytes"@ && fields[2].0 == "verified"@ && fields[3].0
        == "stored"@);
}

/// A write that went well is done, or goes on to be saved; one that did not is not
/// saved, and is reported by the first thing that went wrong.
pub proof fn lemma_write_came_to<D: Device>(
    h: DeviceHandle<D>,
    area: &str,
    count: usize,
    result: Result<(), MidiError>,
    answer: Option<(Doc, Result<Vec<u8>, MidiError>)>,
    store: Option<Commit>,
    r: Result<Synced, String>,
)
    requires
        call_ensures(DeviceHandle::<D>::synced, (&h, area, count, result, answer, store), r),
    ensures
        r is Ok <==> went_well::<D>(area@, result, answer),
        went_well::<D>(area@, result, answer) && store is None ==> (r matches Ok(Synced::Done(doc)) && is_receipt(
            doc@,
            area@,
            count as int,
            answer is Some,
            None,
        )),
        went_well::<D>(area@, result, answer) ==> (store matches Some(c) ==> (r matches Ok(
            Synced::Store { commit, verified },
        ) && commit == c && verified == (answer is Some))),
        result matches Err(e) ==> (r matches Err(m) && m@ == e.message_text()),
        result is Ok ==> (answer matches Some((want, collected)) ==> (collected matches Err(e) ==> (r matches Err(m) && m@
            == e.message_text()))),
        result is Ok ==> (answer matches Some((want, collected)) ==> (collected matches Ok(raw) ==> match D::decoded(
            area@,
            raw@,
        ) {
            Err(f) => r matches Err(m) && m@ == "verify decode failed: "@ + device::fault_text(f),
            Ok(got) => !value::same(got, want@) ==> (r matches Err(m) && m@
                == "verify FAILED: read-back differs from what we sent"@),
        })),
{
    lemma_receipt(area@, count as nat, answer is Some, None);
}

/// What saving a write came to: a receipt that names the slot, or the reason why not.
pub proof fn lemma_saving_came_to<D: Device>(
    h: DeviceHandle<D>,
    area: &str,
    count: usize,
    verified: bool,
    destination: String,
    result: Result<(), MidiError>,
    r: Result<Doc, String>,
)
    requires
        call_ensures(DeviceHandle::<D>::stored, (&h, area, count, verified, destination, result), r),
    ensures
        match result {
            Ok(_) => r matches Ok(doc) && is_receipt(doc@, area@, count as int, verified, Some(destination@)),
            Err(e) => r matches Err(m) && m@ == "cannot store to "@ + text::quoted_text(destination@) + ": "@
                + e.message_text(),
        },
{
    lemma_receipt(area@, count as nat, verified, Some(destination@));
}

/// A write that the device answers with the very bytes that were sent is confirmed.
pub proof fn lemma_echo_confirmed<D: Device>(
    h: DeviceHandle<D>,
    area: &'static str,
    doc: Doc,
    p: SyncPlan,
    raw: Vec<u8>,
    r: Result<Synced, String>,
)
    requires
        call_ensures(DeviceHandle::<D>::sync_document, (&h, area, doc, true), Ok(p)),
        p.read_back is Some,
        raw@ == p.bytes@,
        call_ensures(
            DeviceHandle::<D>::synced,
            (
                &h,
                area,
                p.bytes.len(),
                Ok::<(), MidiError>(()),
                Some((p.read_back->Some_0.want, Ok::<Vec<u8>, MidiError>(raw))),
                p.store,
            ),
            r,
        ),
    ensures
        r matches Ok(Synced::Done(receipt)) && is_receipt(receipt@, area@, p.bytes@.len() as int, true, None),
{
    lemma_document_planned::<D>(h.config(), area, doc@, true, Ok(p));
    let want = p.read_back->Some_0.want;
    value::lemma_same_reflexive(want@);
    lemma_receipt(area@, p.bytes@.len(), true, None);
}

}
