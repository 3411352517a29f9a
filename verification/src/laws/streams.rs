//! What goes in and out: ports, frames that arrive, and what is printed.

use vstd::prelude::*;

use crate::codec;
use crate::device::{self, Device, DeviceError};
use crate::engine::area_name;
use crate::laws::areas;
use crate::laws::coding;
use crate::laws::planning;
use crate::laws::terms;
use crate::midi::{self, find_port, list_ports, port_names, Assembler, Collector, MidiError};
use crate::output::{self, Out, Print, Shown, Verbosity};
use crate::text;
use crate::value::Doc;
use crate::yaml;
use crate::yaml_io::{self, read_value};

verus! {

// === ports ===

/// A port is meant: the driver names it, and its name speaks of what is asked for.
pub open spec fn is_meant(name: Option<String>, needle: Seq<char>) -> bool {
    name matches Some(n) && terms::speaks_of(n@, needle)
}

/// The first port that is meant is found, and none only where none is meant.
pub proof fn lemma_port_found(
    names: Vec<Option<String>>,
    needle: &str,
    kind: &'static str,
    r: Result<usize, MidiError>,
)
    requires
        call_ensures(find_port, (&names, needle, kind), r),
    ensures
        match r {
            Ok(i) => {
                &&& i < names@.len()
                &&& is_meant(names@[i as int], needle@)
                &&& forall|j: int| 0 <= j < i ==> !is_meant(#[trigger] names@[j], needle@)
            },
            Err(e) => {
                &&& forall|j: int| 0 <= j < names@.len() ==> !is_meant(#[trigger] names@[j], needle@)
                &&& e matches MidiError::PortNotFound { kind: k, needle: n } && k == kind && n@ == needle@
            },
        },
{
    assert forall|j: int| 0 <= j < names@.len() implies is_meant(#[trigger] names@[j], needle@) == midi::port_matches(
        names@[j],
        needle@,
    ) by {
        if let Some(n) = names@[j] {
            terms::lemma_contains(text::lowercase_text(n@), text::lowercase_text(needle@));
        }
    }
    if let Ok(i) = r {
        assert(is_meant(names@[i as int], needle@) == midi::port_matches(names@[i as int], needle@));
    }
    if r is Err {
        assert(midi::no_port_matches(names@, needle@));
        assert forall|j: int| 0 <= j < names@.len() implies !is_meant(#[trigger] names@[j], needle@) by {
            assert(!midi::port_matches(names@[j], needle@));
        }
    }
}

/// Every port is named, in order.
pub proof fn lemma_ports_named(names: Vec<Option<String>>, r: Vec<String>)
    requires
        call_ensures(port_names, (names,), r),
    ensures
        r@.len() == names@.len(),
        forall|i: int|
            0 <= i < r@.len() ==> match names@[i] {
                Some(n) => (#[trigger] r@[i])@ == n@,
                None => r@[i]@ == "<unknown>"@,
            },
{
}

/// Ports are listed under what was printed before: the inputs, then the outputs.
pub proof fn lemma_ports_printed(sink: &mut Vec<Print>, inputs: Vec<String>, outputs: Vec<String>)
    requires
        call_ensures(list_ports, (sink, &inputs, &outputs), ()),
    ensures
        ({
            let b = old(sink)@.len() as int;
            let n = inputs@.len() as int;
            let m = outputs@.len() as int;
            let now = output::shown(final(sink)@);
            &&& now.len() == b + 2 + n + m
            &&& forall|i: int| 0 <= i < b ==> #[trigger] now[i] == output::shown(old(sink)@)[i]
            &&& now[b] == Shown::Line("Input ports:"@)
            &&& forall|i: int| 0 <= i < n ==> #[trigger] now[b + 1 + i] == Shown::Line("  - "@ + inputs@[i]@)
            &&& now[b + 1 + n] == Shown::Line("\nOutput ports:"@)
            &&& forall|i: int| 0 <= i < m ==> #[trigger] now[b + 2 + n + i] == Shown::Line("  - "@ + outputs@[i]@)
        }),
{
}

// === frames ===

/// A chunk goes on where the bytes before it left off: the frames that it completes
/// are those that end in it when all the bytes are read as one, and what stays open is
/// what is open at their end.
pub proof fn lemma_chunk_taken(a: &mut Assembler, before: Seq<u8>, chunk: &[u8], r: Vec<Vec<u8>>)
    requires
        call_ensures(Assembler::reassemble, (a, chunk), r),
        old(a)@ == codec::scanned(before).1,
    ensures
        codec::frames_of(before + chunk@) == codec::frames_of(before) + codec::byte_seqs(r@),
        final(a)@ == codec::scanned(before + chunk@).1,
        exists|starts: Seq<int>, ends: Seq<int>| #[trigger]
            coding::are_frames(before + chunk@, codec::frames_of(before) + codec::byte_seqs(r@), starts, ends),
{
    midi::lemma_resumed_is_scanned(before);
    midi::lemma_resumed_is_scanned(before + chunk@);
    midi::lemma_chunks_join(None, before, chunk@);
    let spans = coding::lemma_frames(before + chunk@);
    assert(coding::are_frames(before + chunk@, codec::frames_of(before) + codec::byte_seqs(r@), spans.0, spans.1));
}

/// A new assembler has nothing open, as after no bytes at all.
pub proof fn lemma_assembler_new(a: Assembler)
    requires
        call_ensures(Assembler::new, (), a),
    ensures
        a@ is None,
        a@ == codec::scanned(seq![]).1,
{
}

/// An answer is awaited for the overall time from the start, and for the settle time
/// from each frame on; the frames are kept one after the other.
pub proof fn lemma_collected(
    start: u64,
    overall: u64,
    fresh: Collector,
    c: &mut Collector,
    frame: &[u8],
    now: u64,
    settle: u64,
    d: Collector,
    t: u64,
    left: Option<u64>,
)
    requires
        call_ensures(Collector::new, (start, overall), fresh),
        call_ensures(Collector::frame, (c, frame, now, settle), ()),
        call_ensures(Collector::wait, (&d, t), left),
    ensures
        fresh.buf@.len() == 0,
        start + overall <= u64::MAX ==> fresh.deadline == start + overall,
        start + overall > u64::MAX ==> fresh.deadline == u64::MAX,
        final(c).buf@ == old(c).buf@ + frame@,
        now + settle <= u64::MAX ==> final(c).deadline == now + settle,
        now + settle > u64::MAX ==> final(c).deadline == u64::MAX,
        left is None <==> d.deadline <= t,
        left matches Some(w) ==> t + w == d.deadline,
{
}

// === errors ===

/// What the errors read as.
pub proof fn lemma_errors_read(m: MidiError, x: String, d: DeviceError, y: String)
    requires
        call_ensures(MidiError::message, (&m,), x),
        call_ensures(DeviceError::message, (&d,), y),
    ensures
        x@ == m.message_text(),
        y@ == device::fault_text(d@),
        match m {
            MidiError::Open(s) => x@ == "failed to open MIDI port: "@ + s@,
            MidiError::PortNotFound { kind, needle } => x@ == "no MIDI "@ + kind@ + " port matches "@
                + text::quoted_text(needle@),
            MidiError::Send(s) => x@ == "MIDI send failed: "@ + s@,
            MidiError::Timeout(millis) => x@ == "timed out after "@ + midi::duration_text(millis)
                + " waiting for a reply from the device"@,
        },
        match d {
            DeviceError::UnknownArea(s) => y@ == "unknown area: "@ + text::quoted_text(s@),
            DeviceError::Decode(s) => y@ == "decode: "@ + s@,
            DeviceError::Encode(s) => y@ == "encode: "@ + s@,
            DeviceError::Other(s) => y@ == s@,
        },
{
}

// === printing ===

/// Status is shown unless it is silenced, and detail only where it is asked for.
pub proof fn lemma_status_printed(
    out: Out,
    message: &str,
    a: &mut Vec<Print>,
    b: &mut Vec<Print>,
)
    requires
        call_ensures(Out::info, (&out, a, message), ()),
        call_ensures(Out::detail, (&out, b, message), ()),
    ensures
        output::shown(final(a)@) == (if out.verbosity == Verbosity::Quiet {
            output::shown(old(a)@)
        } else {
            output::shown(old(a)@).push(Shown::Line(message@))
        }),
        output::shown(final(b)@) == (if out.verbosity == Verbosity::Verbose {
            output::shown(old(b)@).push(Shown::Line(message@))
        } else {
            output::shown(old(b)@)
        }),
{
    assert(output::shown(a@) + Seq::<Shown>::empty() =~= output::shown(a@));
    assert(output::shown(b@) + Seq::<Shown>::empty() =~= output::shown(b@));
    assert(output::shown(a@) + seq![Shown::Line(message@)] =~= output::shown(a@).push(Shown::Line(message@)));
    assert(output::shown(b@) + seq![Shown::Line(message@)] =~= output::shown(b@).push(Shown::Line(message@)));
}

/// Warnings and errors are always shown, on standard error.
pub proof fn lemma_complaints_printed(out: Out, message: &str, a: &mut Vec<Print>, b: &mut Vec<Print>)
    requires
        call_ensures(Out::warn, (&out, a, message), ()),
        call_ensures(Out::error, (&out, b, message), ()),
    ensures
        output::shown(final(a)@) == output::shown(old(a)@).push(Shown::Complaint("warning: "@ + message@)),
        output::shown(final(b)@) == output::shown(old(b)@).push(Shown::Complaint("error: "@ + message@)),
{
}

/// How chatty status is can be asked for.
pub proof fn lemma_chattiness(v: Verbosity, out: Out, quiet: bool, verbose: bool)
    requires
        call_ensures(Out::new, (v,), out),
        call_ensures(Out::is_quiet, (&out,), quiet),
        call_ensures(Out::is_verbose, (&out,), verbose),
    ensures
        quiet <==> v == Verbosity::Quiet,
        verbose <==> v == Verbosity::Verbose,
{
}

/// An area is named by the first that matches, silently; a name that matches none is
/// a usage error.
pub proof fn lemma_area_named<D: Device>(
    out: Out,
    sink: &mut Vec<Print>,
    name: &str,
    r: Result<&'static str, i32>,
)
    requires
        call_ensures(area_name::<D>, (&out, sink, name), r),
    ensures
        forall|i: int| #[trigger]
            areas::first_match(D::area_list(), name@, i) ==> r == Ok::<&'static str, i32>(D::area_list()[i].name)
                && final(sink)@ == old(sink)@,
        areas::no_match(D::area_list(), name@) ==> {
            &&& r matches Err(code) && code == 2
            &&& exists|m: Seq<char>| #[trigger]
                planning::refuses_area(m, name@, D::area_list()) && output::shown(final(sink)@) == output::shown(
                    old(sink)@,
                ).push(Shown::Complaint("error: "@ + m))
        },
{
    areas::lemma_area_found(D::area_list(), name@);
    planning::lemma_refuses_area(name@, D::area_list());
    let k = device::matching_area(D::area_list(), name@);
    if areas::no_match(D::area_list(), name@) {
        if let Some(k) = k {
            areas::lemma_one_first_match(D::area_list(), name@, k, k);
        }
    }
    assert forall|i: int| #[trigger] areas::first_match(D::area_list(), name@, i) implies k == Some(i) by {
        areas::lemma_one_first_match(D::area_list(), name@, i, i);
        areas::lemma_one_first_match(D::area_list(), name@, k->Some_0, i);
    }
}

// === files ===

/// What was read from a file is parsed as YAML; what went wrong is told with the path.
pub proof fn lemma_file_parsed(path: &str, content: Result<String, String>, r: Result<Doc, String>)
    requires
        call_ensures(read_value, (path, content), r),
    ensures
        match content {
            Err(reason) => r matches Err(m) && m@ == "reading "@ + path@ + ": "@ + reason@,
            Ok(s) => match yaml::parsed(s@) {
                Ok(t) => r matches Ok(doc) && doc@ == t,
                Err(e) => r matches Err(m) && m@ == "parsing YAML from "@ + path@ + ": "@ + e,
            },
        },
{
}

/// A document is written under a line that names the schema of its device and area.
pub proof fn lemma_file_composed(
    device: &str,
    area: &str,
    doc: Doc,
    r: Result<String, String>,
    header: String,
    body: &str,
    whole: String,
)
    requires
        call_ensures(yaml_io::file_text, (device, area, &doc), r),
        call_ensures(yaml_io::schema_header, (device, area), header),
        call_ensures(yaml_io::with_header, (device, area, body), whole),
    ensures
        header@ == "# yaml-language-server: $schema=./schemas/"@ + device@ + "-"@ + area@ + ".schema.json"@,
        whole@ == header@ + seq!['\n'] + body@,
        match yaml::rendered(doc@) {
            Ok(s) => r matches Ok(given) && given@ == header@ + seq!['\n'] + s,
            Err(m) => r matches Err(e) && e@ == "serialize document: "@ + m,
        },
{
    assert(header@.push('\n') =~= header@ + seq!['\n']);
}

}
