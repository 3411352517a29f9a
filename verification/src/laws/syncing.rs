//! Writing an area to the device and reading it back, from the command line on.

use vstd::prelude::*;

use crate::device::{self, Device, Fault};
use crate::engine::{
    self, collected, dispatch, file_read, opened, paused, sent, sync_document, Awaiting, Cli, Command, Next,
    Sending, Step,
};
use crate::laws::areas;
use crate::laws::naming;
use crate::midi::MidiError;
use crate::output::{Out, Shown, Verbosity};
use crate::resolve::Direction;
use crate::value::{self, Doc, Tree};
use crate::yaml;

verus! {

// === how a step ends ===

/// The step says one thing on standard error and exits with this code.
pub open spec fn gives_up(r: Step, message: Seq<char>, code: int) -> bool {
    &&& output_of(r) == seq![Shown::Complaint("error: "@ + message)]
    &&& r.next matches Next::Finish(c) && c == code
}

/// What a step prints, piece by piece.
pub open spec fn output_of(r: Step) -> Seq<Shown> {
    Seq::new(r.prints@.len(), |i: int| r.prints@[i]@)
}

/// The exit code of a fault: two for an area that is not known, five for a document
/// that does not encode, and one for any other.
pub open spec fn code_of(f: Fault) -> int {
    match f {
        Fault::UnknownArea(_) => 2,
        Fault::Encode(_) => 5,
        _ => 1,
    }
}

/// A status line, shown unless status is silenced.
pub open spec fn says(r: Step, out: Out, line: Seq<char>) -> bool {
    output_of(r) == (if out.verbosity == Verbosity::Quiet {
        Seq::<Shown>::empty()
    } else {
        seq![Shown::Line(line)]
    })
}

// === writing ===

/// The step sends a document for an area: the device's bytes for it, its names
/// resolved, made for that very device number; or it says why there are none.
pub open spec fn sends_document<D: Device>(
    r: Step,
    area: &'static str,
    device: u8,
    verify: bool,
    path: String,
    t: Tree,
) -> bool {
    exists|u: Tree| #[trigger]
        naming::is_rewriting(t, u, D::table(), D::value_catalogs(), Direction::Resolve) && match D::encoded(
            area@,
            u,
            device,
        ) {
            Ok(bytes) => {
                &&& output_of(r) == Seq::<Shown>::empty()
                &&& r.next matches Next::Send(s)
                &&& s.bytes@ == bytes
                &&& s.area == area
                &&& s.device == device
                &&& s.input == path
                &&& s.verify == verify
            },
            Err(f) => gives_up(r, device::fault_text(f), code_of(f)),
        }
}

proof fn lemma_doc_encoded<D: Device>(
    r: Step,
    area: &'static str,
    device: u8,
    verify: bool,
    path: String,
    t: Tree,
)
    requires
        engine::doc_encoded::<D>(r, area, device, verify, path, t),
    ensures
        sends_document::<D>(r, area, device, verify, path, t),
{
    naming::lemma_rewritten_everywhere(t, D::table(), D::value_catalogs(), Direction::Resolve);
    let u = engine::codec_ready::<D>(t);
    assert(naming::is_rewriting(t, u, D::table(), D::value_catalogs(), Direction::Resolve));
}

/// A document is sent as the device encodes it for the device number asked for.
pub proof fn lemma_document_sent<D: Device>(
    out: Out,
    area: &'static str,
    device: u8,
    verify: bool,
    path: String,
    doc: Doc,
    r: Step,
)
    requires
        call_ensures(sync_document::<D>, (&out, area, device, verify, path, doc), r),
    ensures
        sends_document::<D>(r, area, device, verify, path, doc@),
{
    lemma_doc_encoded::<D>(r, area, device, verify, path, doc@);
}

/// Two device numbers whose encodings of a document differ are sent different bytes.
pub proof fn lemma_numbers_told_apart<D: Device>(
    out: Out,
    area: &'static str,
    one: u8,
    other: u8,
    verify: bool,
    path: String,
    doc: Doc,
    a: Step,
    b: Step,
    x: Sending,
    y: Sending,
)
    requires
        call_ensures(sync_document::<D>, (&out, area, one, verify, path, doc), a),
        call_ensures(sync_document::<D>, (&out, area, other, verify, path, doc), b),
        a.next == Next::Send(x),
        b.next == Next::Send(y),
        forall|u: Tree| #[trigger] D::encoded(area@, u, one) != D::encoded(area@, u, other),
    ensures
        x.bytes@ != y.bytes@,
{
    lemma_doc_encoded::<D>(a, area, one, verify, path, doc@);
    lemma_doc_encoded::<D>(b, area, other, verify, path, doc@);
    let u = choose|u: Tree| #[trigger]
        naming::is_rewriting(doc@, u, D::table(), D::value_catalogs(), Direction::Resolve) && match D::encoded(
            area@,
            u,
            one,
        ) {
            Ok(bytes) => {
                &&& output_of(a) == Seq::<Shown>::empty()
                &&& a.next matches Next::Send(s)
                &&& s.bytes@ == bytes
                &&& s.area == area
                &&& s.device == one
                &&& s.input == path
                &&& s.verify == verify
            },
            Err(f) => gives_up(a, device::fault_text(f), code_of(f)),
        };
    let w = choose|u: Tree| #[trigger]
        naming::is_rewriting(doc@, u, D::table(), D::value_catalogs(), Direction::Resolve) && match D::encoded(
            area@,
            u,
            other,
        ) {
            Ok(bytes) => {
                &&& output_of(b) == Seq::<Shown>::empty()
                &&& b.next matches Next::Send(s)
                &&& s.bytes@ == bytes
                &&& s.area == area
                &&& s.device == other
                &&& s.input == path
                &&& s.verify == verify
            },
            Err(f) => gives_up(b, device::fault_text(f), code_of(f)),
        };
    naming::lemma_one_rewriting(doc@, u, w, D::table(), D::value_catalogs(), Direction::Resolve);
    assert(D::encoded(area@, u, one) != D::encoded(area@, u, other));
}

/// The step sends the document that a text holds, or says why it cannot.
pub open spec fn sends_file<D: Device>(
    r: Step,
    area: &'static str,
    device: u8,
    verify: bool,
    path: String,
    content: Result<String, String>,
) -> bool {
    match content {
        Err(reason) => gives_up(r, "reading "@ + path@ + ": "@ + reason@, 3),
        Ok(text) => match yaml::parsed(text@) {
            Err(m) => gives_up(r, "parsing YAML from "@ + path@ + ": "@ + m, 3),
            Ok(t) => sends_document::<D>(r, area, device, verify, path, t),
        },
    }
}

/// `sync` from the command line on: once its session is open, the file it names is
/// read and its document is sent to the first area that the name matches, encoded for
/// the device number of the command line.
pub proof fn lemma_sync_command<D: Device>(
    cli: Cli,
    area: String,
    input: String,
    verify: bool,
    a: Step,
    out: Out,
    b: Step,
    content: Result<String, String>,
    c: Step,
)
    requires
        cli.command == (Command::Sync { area, input, verify }),
        call_ensures(dispatch::<D>, (cli,), a),
        a.next matches Next::Open { input: _, output: _, device, then } && call_ensures(
            opened::<D>,
            (&out, then, device, Ok(())),
            b,
        ),
        b.next matches Next::Read { path, then } ==> call_ensures(file_read::<D>, (&out, then, path, content), c),
    ensures
        areas::no_match(D::area_list(), area@) ==> gives_up(
            b,
            engine::unknown_area_text(area@, D::area_list()),
            2,
        ),
        forall|i: int| #[trigger]
            areas::first_match(D::area_list(), area@, i) ==> {
                &&& output_of(b) == Seq::<Shown>::empty()
                &&& b.next matches Next::Read { path, then: _ } && path == input
                &&& sends_file::<D>(c, D::area_list()[i].name, cli.device, verify, input, content)
            },
{
    areas::lemma_area_found(D::area_list(), area@);
    assert forall|i: int| #[trigger] areas::first_match(D::area_list(), area@, i) implies {
        &&& output_of(b) == Seq::<Shown>::empty()
        &&& b.next matches Next::Read { path, then: _ } && path == input
        &&& sends_file::<D>(c, D::area_list()[i].name, cli.device, verify, input, content)
    } by {
        let k = device::matching_area(D::area_list(), area@);
        areas::lemma_one_first_match(D::area_list(), area@, i, i);
        areas::lemma_one_first_match(D::area_list(), area@, k->Some_0, i);
        let name = D::area_list()[i].name;
        if let Ok(text) = content {
            if let Ok(t) = yaml::parsed(text@) {
                lemma_doc_encoded::<D>(c, name, cli.device, verify, input, t);
            }
        }
    }
    if areas::no_match(D::area_list(), area@) {
        if let Some(k) = device::matching_area(D::area_list(), area@) {
            areas::lemma_one_first_match(D::area_list(), area@, k, k);
        }
    }
}

// === reading back ===

/// After a write was sent, the same write goes on to be read back exactly where that
/// was asked for; one that was not sent ends the command.
pub proof fn lemma_sent<D: Device>(out: Out, s: Sending, result: Result<(), MidiError>, r: Step)
    requires
        call_ensures(sent, (&out, s, result), r),
    ensures
        match result {
            Err(e) => gives_up(r, e.message_text(), 4),
            Ok(_) => {
                &&& says(r, out, "sent "@ + s.area@ + " from "@ + s.input@)
                &&& if s.verify {
                    r.next matches Next::Pause { millis, then } && millis == 80 && then == s
                } else {
                    r.next matches Next::Finish(c) && c == 0
                }
            },
        },
{
}

/// Confirming a write: the area is asked for from the device number that was written
/// to, and what comes back is compared with what the bytes that were sent mean. It is
/// confirmed exactly where both mean the same document.
pub proof fn lemma_write_confirmed<D: Device>(
    out: Out,
    s: Sending,
    a: Step,
    request: Vec<u8>,
    settle: u64,
    overall: u64,
    then: Awaiting,
    raw: Vec<u8>,
    b: Step,
    want: Tree,
)
    requires
        call_ensures(paused::<D>, (&out, s), a),
        a.next == (Next::Exchange { request, settle, overall, then }),
        call_ensures(collected::<D>, (&out, then, Ok(raw)), b),
        D::decoded(s.area@, s.bytes@) == Ok::<Tree, Fault>(want),
    ensures
        D::requested(s.area@, s.device) == Ok::<Seq<u8>, Fault>(request@),
        settle == 600 && overall == 2500,
        match D::decoded(s.area@, raw@) {
            Ok(got) => if value::same(got, want) {
                &&& says(b, out, "  verified: read-back matches"@)
                &&& b.next matches Next::Finish(c) && c == 0
            } else {
                gives_up(b, "verify FAILED: read-back differs from what we sent"@, 7)
            },
            Err(f) => gives_up(
                b,
                "verify decode failed: "@ + device::fault_text(f),
                if raw@.len() == 0 {
                    6
                } else {
                    7
                },
            ),
        },
        raw@ == s.bytes@ ==> (b.next matches Next::Finish(c) && c == 0),
{
    value::lemma_same_reflexive(want);
}

/// A write whose bytes mean nothing to the device, or whose area cannot be asked for,
/// cannot be confirmed; a device that does not answer has not acknowledged it.
pub proof fn lemma_write_not_confirmed<D: Device>(
    out: Out,
    s: Sending,
    a: Step,
    area: &'static str,
    want: Doc,
    e: MidiError,
    b: Step,
)
    requires
        call_ensures(paused::<D>, (&out, s), a),
        call_ensures(collected::<D>, (&out, Awaiting::Verify { area, want }, Err(e)), b),
    ensures
        D::decoded(s.area@, s.bytes@) matches Err(f) ==> gives_up(a, device::fault_text(f), code_of(f)),
        D::decoded(s.area@, s.bytes@) is Ok ==> (D::requested(s.area@, s.device) matches Err(f) ==> gives_up(
            a,
            device::fault_text(f),
            code_of(f),
        )),
        gives_up(b, e.message_text(), 6),
{
}

}
