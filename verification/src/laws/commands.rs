//! The commands, from the command line to the last step.

use vstd::prelude::*;
use vstd::string::*;

use crate::catalog::Catalogs;
use crate::codec;
use crate::device::{self, Area, Device, Signal};
use crate::engine::{
    self, catalog, collected, dispatch, file_read, identity, lint_as, log_level, open_session, opened, parent_created,
    ports_listed, schema, show_as, verbosity_of, written, Awaiting, Cli, Command, Job, LogLevel, Next, Reading, SessionArgs,
    Step,
};
use crate::exit_codes;
use crate::json;
use crate::laws::areas;
use crate::laws::metadata;
use crate::laws::naming;
use crate::laws::syncing;
use crate::laws::wording;
use crate::meta::{self, Form};
use crate::midi::MidiError;
use crate::output::{self, Out, Shown, Verbosity};
use crate::resolve::{self, Direction};
use crate::text;
use crate::value::{self, Doc, Tree};
use crate::yaml;

verus! {

// === exit codes and verbosity ===

/// Every way to fail has an exit code of its own, and none has that of success.
pub proof fn lemma_exit_codes()
    ensures
        exit_codes::OK == 0,
        exit_codes::GENERIC_ERROR == 1,
        exit_codes::USAGE_ERROR == 2,
        exit_codes::INPUT_FILE_ERROR == 3,
        exit_codes::DEVICE_UNAVAILABLE == 4,
        exit_codes::ENCODE_ERROR == 5,
        exit_codes::SYNC_NO_ACK == 6,
        exit_codes::DEVICE_REJECTED == 7,
{
}

/// The flags choose how chatty status is, and that how much is logged.
pub proof fn lemma_flags(verbose: bool, quiet: bool, v: Verbosity, l: LogLevel)
    requires
        call_ensures(verbosity_of, (verbose, quiet), v),
        call_ensures(log_level, (v,), l),
    ensures
        verbose ==> v == Verbosity::Verbose && l == LogLevel::Everything,
        !verbose && quiet ==> v == Verbosity::Quiet && l == LogLevel::Errors,
        !verbose && !quiet ==> v == Verbosity::Normal && l == LogLevel::Warnings,
{
}

// === sessions ===

/// The port of one direction: the one named for it, or else the one named for both.
pub open spec fn port_for(own: Option<String>, both: Option<String>) -> Option<Seq<char>> {
    if own is Some {
        Some(own->Some_0@)
    } else if both is Some {
        Some(both->Some_0@)
    } else {
        None
    }
}

/// The step does nothing but this next.
pub open spec fn goes_on(r: Step, next: Next) -> bool {
    syncing::output_of(r) == Seq::<Shown>::empty() && r.next == next
}

/// The step opens the ports that were named, for the device number that was named, or
/// says what is wrong with them.
pub open spec fn opens(r: Step, args: SessionArgs, job: Job) -> bool {
    match (port_for(args.input_port, args.port), port_for(args.output_port, args.port)) {
        (Some(i), Some(o)) => if args.device > 15 {
            syncing::gives_up(
                r,
                "--device "@ + text::decimal_text(args.device as nat) + " out of range (0..=15)"@,
                2,
            )
        } else {
            &&& syncing::output_of(r) == Seq::<Shown>::empty()
            &&& r.next matches Next::Open { input, output, device, then }
            &&& input@ == i
            &&& output@ == o
            &&& device == args.device
            &&& then == job
        },
        _ => syncing::gives_up(
            r,
            "--port (or --input-port/--output-port) required; run `ports` to list"@,
            2,
        ),
    }
}

/// Opening a session.
pub proof fn lemma_session(out: Out, args: SessionArgs, job: Job, r: Step)
    requires
        call_ensures(open_session, (&out, args, job), r),
    ensures
        opens(r, args, job),
{
    assert(syncing::output_of(r) =~= output::shown(r.prints@));
}

/// Every command begins with its own step: those for the device with opening the
/// session that the command line names, those for files with reading them, and the
/// rest at once.
pub proof fn lemma_first_step<D: Device>(cli: Cli, r: Step)
    requires
        call_ensures(dispatch::<D>, (cli,), r),
    ensures
        ({
            let args = SessionArgs {
                port: cli.port,
                input_port: cli.input_port,
                output_port: cli.output_port,
                device: cli.device,
            };
            if cli.verbose && cli.quiet {
                syncing::gives_up(r, "--verbose and --quiet are mutually exclusive"@, 2)
            } else {
                match cli.command {
                    Command::Ports => goes_on(r, Next::ListPorts),
                    Command::Identity => opens(r, args, Job::Identity),
                    Command::Dump { area, output } => opens(r, args, Job::Dump { area, output }),
                    Command::Sync { area, input, verify } => opens(r, args, Job::Sync { area, input, verify }),
                    Command::Show { path } => goes_on(r, Next::Read { path, then: Reading::Show }),
                    Command::Lint { path } => goes_on(r, Next::Read { path, then: Reading::Lint }),
                    Command::Diff { left, right } => goes_on(
                        r,
                        Next::Read { path: left, then: Reading::DiffLeft { right } },
                    ),
                    Command::Schema { area } => prints_schema::<D>(r, area@),
                    Command::Catalog => prints_catalog::<D>(r),
                    Command::Resolve { path, area: _ } => goes_on(r, Next::Read { path, then: Reading::Resolve }),
                }
            }
        }),
{
    assert(syncing::output_of(r) =~= output::shown(r.prints@));
    if let Command::Schema { area } = cli.command {
        if !(cli.verbose && cli.quiet) {
            lemma_schema_printed::<D>(r, area@);
        }
    }
    if cli.command is Catalog && !(cli.verbose && cli.quiet) {
        lemma_catalog_printed::<D>(r);
    }
}

// === ports and identity ===

/// The ports are listed under a heading for each direction, in order.
pub proof fn lemma_ports_listed(out: Out, result: Result<(Vec<String>, Vec<String>), MidiError>, r: Step)
    requires
        call_ensures(ports_listed, (&out, result), r),
    ensures
        match result {
            Err(e) => syncing::gives_up(r, e.message_text(), 4),
            Ok(ports) => {
                let n = ports.0@.len() as int;
                let m = ports.1@.len() as int;
                let shown = syncing::output_of(r);
                &&& r.next matches Next::Finish(c) && c == 0
                &&& shown.len() == 2 + n + m
                &&& shown[0] == Shown::Line("Input ports:"@)
                &&& forall|i: int| 0 <= i < n ==> #[trigger] shown[1 + i] == Shown::Line("  - "@ + ports.0@[i]@)
                &&& shown[1 + n] == Shown::Line("\nOutput ports:"@)
                &&& forall|i: int| 0 <= i < m ==> #[trigger] shown[2 + n + i] == Shown::Line("  - "@ + ports.1@[i]@)
            },
        },
{
    assert(syncing::output_of(r) =~= output::shown(r.prints@));
}

/// The frame at `k` is the first that the device takes for an identity reply.
pub open spec fn first_reply<D: Device>(frames: Seq<Seq<u8>>, k: int) -> bool {
    &&& 0 <= k < frames.len()
    &&& D::classified(frames[k]) is Identity
    &&& forall|j: int| 0 <= j < k ==> D::classified(#[trigger] frames[j]) !is Identity
}

proof fn lemma_first_identity<D: Device>(frames: Seq<Seq<u8>>)
    ensures
        match engine::first_identity::<D>(frames) {
            Some(k) => first_reply::<D>(frames, k),
            None => forall|j: int| 0 <= j < frames.len() ==> D::classified(#[trigger] frames[j]) !is Identity,
        },
    decreases frames.len(),
{
    if frames.len() > 0 {
        let init = frames.drop_last();
        lemma_first_identity::<D>(init);
        assert forall|j: int| 0 <= j < init.len() implies init[j] == #[trigger] frames[j] by {}
    }
}

/// The bytes of a frame, two upper-case hexadecimal digits each.
pub open spec fn in_hex(bytes: Seq<u8>, parts: Seq<Seq<char>>) -> bool {
    &&& parts.len() == bytes.len()
    &&& forall|i: int|
        0 <= i < bytes.len() ==> (#[trigger] parts[i]).len() == 2 && 16 * wording::hex_value(parts[i][0], true)
            + wording::hex_value(parts[i][1], true) == bytes[i]
}

/// The step tells of an identity reply: its bytes, and the model if it is known.
pub open spec fn tells_identity(r: Step, v: Verbosity, bytes: Seq<u8>, model: Option<Seq<char>>) -> bool {
    &&& r.next matches Next::Finish(c) && c == 0
    &&& v == Verbosity::Quiet ==> syncing::output_of(r) == Seq::<Shown>::empty()
    &&& v != Verbosity::Quiet ==> exists|parts: Seq<Seq<char>>| #[trigger]
        in_hex(bytes, parts) && syncing::output_of(r) == seq![
            Shown::Line("reply: "@ + text::joined(parts, " "@)),
            Shown::Line(
                match model {
                    Some(m) => "  -> "@ + m + " detected"@,
                    None => "  -> not recognised (family bytes didn't match)"@,
                },
            ),
        ]
}

proof fn lemma_identity_reported<D: Device>(r: Step, v: Verbosity, raw: Seq<u8>)
    requires
        engine::identity_reported::<D>(r, v, raw),
    ensures
        ({
            let frames = codec::frames_of(raw);
            &&& forall|k: int| #[trigger]
                first_reply::<D>(frames, k) ==> (D::classified(frames[k]) matches Signal::Identity { bytes, model }
                    && tells_identity(r, v, bytes, model))
            &&& (forall|k: int| !#[trigger] first_reply::<D>(frames, k)) ==> syncing::gives_up(
                r,
                "no identity reply received"@,
                4,
            )
        }),
{
    let frames = codec::frames_of(raw);
    assert(syncing::output_of(r) =~= output::shown(r.prints@));
    lemma_first_identity::<D>(frames);
    assert forall|k: int| #[trigger] first_reply::<D>(frames, k) implies (D::classified(frames[k]) matches Signal::Identity {
        bytes,
        model,
    } && tells_identity(r, v, bytes, model)) by {
        let i = engine::first_identity::<D>(frames);
        assert(i == Some(k)) by {
            assert(D::classified(frames[k]) is Identity);
            if i->Some_0 < k {
                assert(D::classified(frames[i->Some_0]) !is Identity);
            }
        }
        let bytes = D::classified(frames[k])->Identity_bytes;
        let parts = engine::hex_bytes(bytes);
        assert forall|j: int| 0 <= j < bytes.len() implies (#[trigger] parts[j]).len() == 2 && 16 * wording::hex_value(
            parts[j][0],
            true,
        ) + wording::hex_value(parts[j][1], true) == bytes[j] by {
            wording::lemma_hex(bytes[j]);
        }
        assert(in_hex(bytes, parts));
        if v != Verbosity::Quiet {
            let model = D::classified(frames[k])->Identity_model;
            assert(syncing::output_of(r) =~= seq![
                Shown::Line("reply: "@ + text::joined(parts, " "@)),
                Shown::Line(
                    match model {
                        Some(m) => "  -> "@ + m + " detected"@,
                        None => "  -> not recognised (family bytes didn't match)"@,
                    },
                ),
            ]);
        } else {
            assert(syncing::output_of(r) =~= Seq::<Shown>::empty());
        }
    }
    if let Some(i) = engine::first_identity::<D>(frames) {
        assert(first_reply::<D>(frames, i));
    }
}

/// `identity` sends the identity request once its session is open, and tells of the
/// first frame in the answer that the device takes for a reply.
pub proof fn lemma_identity_command<D: Device>(out: Out, device: u8, a: Step, raw: Vec<u8>, b: Step)
    requires
        call_ensures(opened::<D>, (&out, Job::Identity, device, Ok(())), a),
        call_ensures(collected::<D>, (&out, Awaiting::Identity, Ok(raw)), b),
    ensures
        syncing::output_of(a) == Seq::<Shown>::empty(),
        a.next matches Next::Exchange { request, settle, overall, then } && request@ == seq![
            0xF0u8,
            0x7E,
            0x7F,
            0x06,
            0x01,
            0xF7,
        ] && settle == 300 && overall == 2500 && then == Awaiting::Identity,
        forall|k: int| #[trigger]
            first_reply::<D>(codec::frames_of(raw@), k) ==> (D::classified(codec::frames_of(raw@)[k]) matches Signal::Identity {
                bytes,
                model,
            } && tells_identity(b, out.verbosity, bytes, model)),
        (forall|k: int| !#[trigger] first_reply::<D>(codec::frames_of(raw@), k)) ==> syncing::gives_up(
            b,
            "no identity reply received"@,
            4,
        ),
{
    assert(syncing::output_of(a) =~= output::shown(a.prints@));
    lemma_identity_reported::<D>(b, out.verbosity, raw@);
}

/// A session that does not open, and an answer that does not come, end the command.
pub proof fn lemma_no_device<D: Device>(out: Out, job: Job, device: u8, e: MidiError, a: Step, awaiting: Awaiting, b: Step)
    requires
        call_ensures(opened::<D>, (&out, job, device, Err(e)), a),
        call_ensures(collected::<D>, (&out, awaiting, Err(e)), b),
    ensures
        syncing::gives_up(a, e.message_text(), 4),
        syncing::gives_up(
            b,
            e.message_text(),
            if awaiting is Verify {
                6
            } else {
                4
            },
        ),
{
    assert(syncing::output_of(a) =~= output::shown(a.prints@));
    assert(syncing::output_of(b) =~= output::shown(b.prints@));
}

// === dump ===

/// `dump` from the command line on: the first area that the name matches is asked for
/// from the device number of the command line, and what comes back is decoded for
/// that area.
pub proof fn lemma_dump_command<D: Device>(
    cli: Cli,
    area: String,
    output: String,
    a: Step,
    out: Out,
    b: Step,
    raw: Vec<u8>,
    c: Step,
    i: int,
)
    requires
        cli.command == (Command::Dump { area, output }),
        call_ensures(dispatch::<D>, (cli,), a),
        a.next matches Next::Open { input: _, output: _, device, then } && call_ensures(
            opened::<D>,
            (&out, then, device, Ok(())),
            b,
        ),
        b.next matches Next::Exchange { request: _, settle: _, overall: _, then } ==> call_ensures(
            collected::<D>,
            (&out, then, Ok(raw)),
            c,
        ),
    ensures
        areas::no_match(D::area_list(), area@) ==> syncing::gives_up(
            b,
            "unknown area "@ + text::quoted_text(area@) + " (valid: "@ + text::joined(
                device::area_names(D::area_list()),
                ", "@,
            ) + ")"@,
            2,
        ),
        areas::first_match(D::area_list(), area@, i) ==> {
            let name = D::area_list()[i].name;
            match D::requested(name@, cli.device) {
                Err(f) => syncing::gives_up(b, device::fault_text(f), syncing::code_of(f)),
                Ok(bytes) => {
                    &&& syncing::output_of(b) == Seq::<Shown>::empty()
                    &&& b.next matches Next::Exchange { request, settle, overall, then: _ } && request@ == bytes
                        && settle == 600 && overall == 2500
                    &&& if raw@.len() == 0 {
                        syncing::gives_up(
                            c,
                            "no dump received (check --device and MIDI In/Out on the device)"@,
                            4,
                        )
                    } else {
                        match D::decoded(name@, raw@) {
                            Err(f) => syncing::gives_up(c, device::fault_text(f), syncing::code_of(f)),
                            Ok(t) => {
                                &&& syncing::output_of(c) == Seq::<Shown>::empty()
                                &&& c.next matches Next::CreateParent { path, area: at, doc } && path == output && at
                                    == name && doc@ == t
                            },
                        }
                    }
                },
            }
        },
{
    assert(syncing::output_of(a) =~= output::shown(a.prints@));
    assert(syncing::output_of(b) =~= output::shown(b.prints@));
    assert(syncing::output_of(c) =~= output::shown(c.prints@));
    areas::lemma_area_found(D::area_list(), area@);
    if areas::first_match(D::area_list(), area@, i) {
        areas::lemma_one_first_match(D::area_list(), area@, i, i);
        areas::lemma_one_first_match(
            D::area_list(),
            area@,
            device::matching_area(D::area_list(), area@)->Some_0,
            i,
        );
    }
    if areas::no_match(D::area_list(), area@) {
        if let Some(k) = device::matching_area(D::area_list(), area@) {
            areas::lemma_one_first_match(D::area_list(), area@, k, k);
        }
    }
}

/// A document is written to its file as YAML below a line that names the schema of
/// its device and area, once the directory is there.
pub proof fn lemma_document_written<D: Device>(
    out: Out,
    path: String,
    area: &'static str,
    doc: Doc,
    made: Result<(), (String, String)>,
    a: Step,
    p: &str,
    result: Result<(), String>,
    b: Step,
)
    requires
        call_ensures(parent_created::<D>, (&out, path, area, &doc, made), a),
        call_ensures(written, (&out, p, result), b),
    ensures
        match made {
            Err(e) => syncing::gives_up(a, "creating "@ + e.0@ + ": "@ + e.1@, 1),
            Ok(_) => match yaml::rendered(doc@) {
                Err(m) => syncing::gives_up(a, "serialize document: "@ + m, 1),
                Ok(body) => {
                    &&& syncing::output_of(a) == Seq::<Shown>::empty()
                    &&& a.next matches Next::Write { path: to, text } && to == path && text@
                        == "# yaml-language-server: $schema=./schemas/"@ + D::NAME@ + "-"@ + area@ + ".schema.json"@
                        + seq!['\n'] + body
                },
            },
        },
        match result {
            Err(reason) => syncing::gives_up(b, "writing "@ + p@ + ": "@ + reason@, 1),
            Ok(_) => {
                &&& syncing::says(b, out, "wrote "@ + p@)
                &&& b.next matches Next::Finish(c) && c == 0
            },
        },
{
    assert(syncing::output_of(a) =~= output::shown(a.prints@));
    assert(syncing::output_of(b) =~= output::shown(b.prints@));
    if made is Ok {
        if let Ok(body) = yaml::rendered(doc@) {
            let head = "# yaml-language-server: $schema=./schemas/"@ + D::NAME@ + "-"@ + area@ + ".schema.json"@;
            assert(head.push('\n') + body =~= head + seq!['\n'] + body);
        }
    }
}

// === files ===

/// The area at `i` is the first that the device accepts a document for.
pub open spec fn first_kind<D: Device>(doc: Doc, i: int) -> bool {
    let areas = D::area_list();
    &&& 0 <= i < areas.len()
    &&& call_ensures(D::accepts, (areas[i].name, &doc), true)
    &&& forall|j: int| 0 <= j < i ==> call_ensures(D::accepts, (#[trigger] areas[j].name, &doc), false)
}

/// The device accepts a document for no area.
pub open spec fn no_kind<D: Device>(doc: Doc) -> bool {
    forall|j: int|
        0 <= j < D::area_list().len() ==> call_ensures(D::accepts, (#[trigger] D::area_list()[j].name, &doc), false)
}

/// `found` says of which kind a document is.
pub open spec fn is_kind<D: Device>(doc: Doc, found: Option<Area>) -> bool {
    match found {
        Some(a) => exists|i: int| #[trigger] first_kind::<D>(doc, i) && D::area_list()[i] == a,
        None => no_kind::<D>(doc),
    }
}

proof fn lemma_kind<D: Device>(doc: Doc, found: Option<usize>)
    requires
        engine::first_accepting::<D>(doc, found),
    ensures
        is_kind::<D>(
            doc,
            match found {
                Some(i) => Some(D::area_list()[i as int]),
                None => None,
            },
        ),
{
    let areas = D::area_list();
    match found {
        Some(i) => {
            assert forall|j: int| 0 <= j < i implies call_ensures(
                D::accepts,
                (#[trigger] areas[j].name, &doc),
                false,
            ) by {
                assert(engine::may_answer::<D>(areas[j], doc, false));
            }
            assert(engine::may_answer::<D>(areas[i as int], doc, true));
            assert(first_kind::<D>(doc, i as int));
        },
        None => {
            assert forall|j: int| 0 <= j < areas.len() implies call_ensures(
                D::accepts,
                (#[trigger] areas[j].name, &doc),
                false,
            ) by {
                assert(engine::may_answer::<D>(areas[j], doc, false));
            }
        },
    }
}

/// The step prints a file: a heading with its path and its kind, then its text as it
/// is.
pub open spec fn prints_file(r: Step, path: Seq<char>, kind: Option<Seq<char>>, content: Seq<char>) -> bool {
    &&& syncing::output_of(r) == seq![
        Shown::Line(
            match kind {
                Some(k) => "# "@ + path + " ("@ + k + ")"@,
                None => "# "@ + path + " ("@ + "unrecognized — printing raw"@ + ")"@,
            },
        ),
        Shown::Text(content),
    ]
    &&& r.next matches Next::Finish(c) && c == 0
}

proof fn lemma_file_shown(path: Seq<char>, kind: Option<Seq<char>>, content: Seq<char>)
    ensures
        engine::file_shown(path, kind, content) == seq![
            Shown::Line(
                match kind {
                    Some(k) => "# "@ + path + " ("@ + k + ")"@,
                    None => "# "@ + path + " ("@ + "unrecognized — printing raw"@ + ")"@,
                },
            ),
            Shown::Text(content),
        ],
{
    assert(engine::file_shown(path, kind, content) =~= seq![
        Shown::Line(
            match kind {
                Some(k) => "# "@ + path + " ("@ + k + ")"@,
                None => "# "@ + path + " ("@ + "unrecognized — printing raw"@ + ")"@,
            },
        ),
        Shown::Text(content),
    ]);
}

/// Printing a file under its kind.
pub proof fn lemma_shown_as(path: &str, kind: Option<&str>, content: String, r: Step)
    requires
        call_ensures(show_as, (path, kind, content), r),
    ensures
        prints_file(r, path@, text::text_behind(kind), content@),
{
    lemma_file_shown(path@, text::text_behind(kind), content@);
    assert(syncing::output_of(r) =~= output::shown(r.prints@));
}

/// `show` prints a file that was read under the label of the first area that the
/// device accepts its document for; what does not parse, or is of no kind, is printed
/// all the same.
pub proof fn lemma_show_command<D: Device>(out: Out, path: String, content: Result<String, String>, r: Step)
    requires
        call_ensures(file_read::<D>, (&out, Reading::Show, path, content), r),
    ensures
        match content {
            Err(reason) => syncing::gives_up(r, "reading "@ + path@ + ": "@ + reason@, 3),
            Ok(text) => match yaml::parsed(text@) {
                Err(_) => prints_file(r, path@, None, text@),
                Ok(t) => exists|doc: Doc, found: Option<Area>| #[trigger]
                    is_kind::<D>(doc, found) && doc@ == t && prints_file(
                        r,
                        path@,
                        match found {
                            Some(a) => Some(a.label@),
                            None => None,
                        },
                        text@,
                    ),
            },
        },
{
    assert(syncing::output_of(r) =~= output::shown(r.prints@));
    if let Ok(text) = content {
        lemma_file_shown(path@, None, text@);
        if let Ok(t) = yaml::parsed(text@) {
            let (doc, found) = choose|doc: Doc, found: Option<usize>|
                {
                    &&& doc@ == t
                    &&& #[trigger] engine::first_accepting::<D>(doc, found)
                    &&& r.stops(
                        engine::file_shown(path@, engine::label_at(D::area_list(), found), text@),
                        exit_codes::OK,
                    )
                };
            lemma_file_shown(path@, engine::label_at(D::area_list(), found), text@);
            lemma_kind::<D>(doc, found);
        }
    }
}

/// The step says whether a document of a kind encodes, and if not, why.
pub open spec fn gives_verdict<D: Device>(r: Step, out: Out, path: Seq<char>, t: Tree, kind: Option<Area>) -> bool {
    match kind {
        Some(a) => match D::encoded(a.name@, t, 0) {
            Ok(_) => {
                &&& syncing::says(r, out, "OK: "@ + path + " is a valid "@ + a.label@)
                &&& r.next matches Next::Finish(c) && c == 0
            },
            Err(f) => syncing::gives_up(r, device::fault_text(f), 3),
        },
        None => syncing::gives_up(
            r,
            path + " parses as none of: "@ + text::joined(device::area_labels(D::area_list()), ", "@),
            3,
        ),
    }
}

/// `lint` says of a file that was read whether its document encodes as the first area
/// that the device accepts it for.
pub proof fn lemma_lint_command<D: Device>(out: Out, path: String, content: Result<String, String>, r: Step)
    requires
        call_ensures(file_read::<D>, (&out, Reading::Lint, path, content), r),
    ensures
        match content {
            Err(reason) => syncing::gives_up(r, "reading "@ + path@ + ": "@ + reason@, 3),
            Ok(text) => match yaml::parsed(text@) {
                Err(m) => syncing::gives_up(r, "parsing YAML from "@ + path@ + ": "@ + m, 3),
                Ok(t) => exists|doc: Doc, found: Option<Area>| #[trigger]
                    is_kind::<D>(doc, found) && doc@ == t && gives_verdict::<D>(r, out, path@, t, found),
            },
        },
{
    assert(syncing::output_of(r) =~= output::shown(r.prints@));
    if let Ok(text) = content {
        if let Ok(t) = yaml::parsed(text@) {
            let (doc, found) = choose|doc: Doc, found: Option<usize>|
                {
                    &&& doc@ == t
                    &&& #[trigger] engine::first_accepting::<D>(doc, found)
                    &&& engine::lint_reported::<D>(r, out.verbosity, path@, t, found)
                };
            lemma_kind::<D>(doc, found);
        }
    }
}

/// Linting a document of a kind.
pub proof fn lemma_linted_as<D: Device>(out: Out, path: &str, doc: Doc, found: Option<usize>, r: Step)
    requires
        call_ensures(lint_as::<D>, (&out, path, &doc, found), r),
    ensures
        gives_verdict::<D>(
            r,
            out,
            path@,
            doc@,
            match found {
                Some(i) => Some(D::area_list()[i as int]),
                None => None,
            },
        ),
{
    assert(syncing::output_of(r) =~= output::shown(r.prints@));
}

/// `resolve` prints a file that was read with its names resolved, at every place that
/// a catalog governs.
pub proof fn lemma_resolve_command<D: Device>(out: Out, path: String, content: Result<String, String>, r: Step)
    requires
        call_ensures(file_read::<D>, (&out, Reading::Resolve, path, content), r),
    ensures
        match content {
            Err(reason) => syncing::gives_up(r, "reading "@ + path@ + ": "@ + reason@, 3),
            Ok(text) => match yaml::parsed(text@) {
                Err(m) => syncing::gives_up(r, "resolve names: "@ + m, 3),
                Ok(t) => exists|u: Tree| #[trigger]
                    naming::is_rewriting(t, u, D::table(), D::value_catalogs(), Direction::Resolve)
                        && match yaml::rendered(u) {
                        Ok(resolved) => {
                            &&& syncing::output_of(r) == seq![Shown::Text(resolved)]
                            &&& r.next matches Next::Finish(c) && c == 0
                        },
                        Err(m) => syncing::gives_up(r, "resolve names: "@ + m, 3),
                    },
            },
        },
{
    assert(syncing::output_of(r) =~= output::shown(r.prints@));
    if let Ok(text) = content {
        if let Ok(t) = yaml::parsed(text@) {
            naming::lemma_rewritten_everywhere(t, D::table(), D::value_catalogs(), Direction::Resolve);
            let u = resolve::rewritten(t, D::table(), D::value_catalogs(), Direction::Resolve);
            assert(naming::is_rewriting(t, u, D::table(), D::value_catalogs(), Direction::Resolve));
        }
    }
}

// === reference data ===

/// The step prints the schema of the first area that a name matches.
pub open spec fn prints_schema<D: Device>(r: Step, area: Seq<char>) -> bool {
    &&& forall|i: int| #[trigger]
        areas::first_match(D::area_list(), area, i) ==> match D::schema_text(D::area_list()[i].name@) {
            Some(s) => {
                &&& syncing::output_of(r) == seq![Shown::Line(s)]
                &&& r.next matches Next::Finish(c) && c == 0
            },
            None => syncing::gives_up(r, "no schema for area "@ + text::quoted_text(D::area_list()[i].name@), 2),
        }
    &&& areas::no_match(D::area_list(), area) ==> syncing::gives_up(
        r,
        "unknown area "@ + text::quoted_text(area) + " (valid: "@ + text::joined(
            device::area_names(D::area_list()),
            ", "@,
        ) + ")"@,
        2,
    )
}

proof fn lemma_schema_printed<D: Device>(r: Step, area: Seq<char>)
    requires
        engine::schema_printed::<D>(r, area),
    ensures
        prints_schema::<D>(r, area),
{
    assert(syncing::output_of(r) =~= output::shown(r.prints@));
    areas::lemma_area_found(D::area_list(), area);
    assert forall|i: int| #[trigger] areas::first_match(D::area_list(), area, i) implies match D::schema_text(
        D::area_list()[i].name@,
    ) {
        Some(s) => {
            &&& syncing::output_of(r) == seq![Shown::Line(s)]
            &&& r.next matches Next::Finish(c) && c == 0
        },
        None => syncing::gives_up(r, "no schema for area "@ + text::quoted_text(D::area_list()[i].name@), 2),
    } by {
        areas::lemma_one_first_match(D::area_list(), area, i, i);
        areas::lemma_one_first_match(D::area_list(), area, device::matching_area(D::area_list(), area)->Some_0, i);
    }
    if areas::no_match(D::area_list(), area) {
        if let Some(k) = device::matching_area(D::area_list(), area) {
            areas::lemma_one_first_match(D::area_list(), area, k, k);
        }
    }
}

/// Printing a schema.
pub proof fn lemma_schema_command<D: Device>(out: Out, area: &str, r: Step)
    requires
        call_ensures(schema::<D>, (&out, area), r),
    ensures
        prints_schema::<D>(r, area@),
{
    lemma_schema_printed::<D>(r, area@);
}

/// A document bundles a device's reference data: its name, every parameter in table
/// order, its catalogs, and each area's factory default under the area's name.
pub open spec fn bundles<D: Device>(t: Tree) -> bool {
    &&& value::field(t, "device"@) == Some(Tree::Text(D::NAME@))
    &&& value::field(t, "params"@) matches Some(Tree::Sequence(list)) && list.len() == D::table().len() && forall|i: int|
        0 <= i < list.len() ==> metadata::tells_param(#[trigger] list[i], D::table()[i], Form::Json)
    &&& value::field(t, "catalogs"@) == Some(D::value_catalogs().contents())
    &&& value::field(t, "defaults"@) matches Some(d) && forall|i: int|
        0 <= i < D::area_list().len() ==> value::field(d, (#[trigger] D::area_list()[i]).name@) == D::default_doc(
            D::area_list()[i].name@,
        )
    &&& t matches Tree::Dict(entries) && entries.len() == 4
}

proof fn lemma_bundled<D: Device>()
    ensures
        bundles::<D>(engine::device_bundle::<D>()),
{
    engine::lemma_bundle_shape::<D>();
    let list = meta::meta_trees(D::table(), Form::Json);
    assert forall|i: int| 0 <= i < list.len() implies metadata::tells_param(
        #[trigger] list[i],
        D::table()[i],
        Form::Json,
    ) by {
        metadata::lemma_param_told(D::table()[i], Form::Json);
    }
    let areas = D::area_list();
    let d = Tree::Dict(engine::default_entries::<D>(areas));
    assert forall|i: int| 0 <= i < areas.len() implies value::field(d, (#[trigger] areas[i]).name@) == D::default_doc(
        areas[i].name@,
    ) by {
        engine::lemma_default_found::<D>(areas, i);
    }
}

/// The step prints a device's reference data as indented JSON.
pub open spec fn prints_catalog<D: Device>(r: Step) -> bool {
    exists|t: Tree| #[trigger]
        bundles::<D>(t) && match json::json_pretty(t) {
            Ok(s) => {
                &&& syncing::output_of(r) == seq![Shown::Line(s)]
                &&& r.next matches Next::Finish(c) && c == 0
            },
            Err(m) => syncing::gives_up(r, "serialize catalog: "@ + m, 1),
        }
}

proof fn lemma_catalog_printed<D: Device>(r: Step)
    requires
        engine::catalog_printed::<D>(r),
    ensures
        prints_catalog::<D>(r),
{
    assert(syncing::output_of(r) =~= output::shown(r.prints@));
    lemma_bundled::<D>();
}

/// Printing the reference data.
pub proof fn lemma_catalog_command<D: Device>(out: Out, r: Step)
    requires
        call_ensures(catalog::<D>, (&out,), r),
    ensures
        prints_catalog::<D>(r),
{
    lemma_catalog_printed::<D>(r);
}

}
