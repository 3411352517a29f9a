//! The generic command engine: a concrete subcommand set dispatched through a
//! [`Device`] implementation.
//!
//! The engine decides; a program around it acts. [`dispatch`] turns parsed
//! arguments into a first [`Step`]: what to print, and what to do [`Next`] —
//! finish with an exit code, or perform one action on a file or a MIDI port. The
//! program performs it and hands what came back to the function that the action
//! names, which gives the next step.

use vstd::prelude::*;
use vstd::string::*;

use crate::catalog::{self, Bundle, Catalogs};
use crate::codec::{self, split_sysex};
use crate::device::{self, Area, Device, DeviceError, Fault, Inbound, Signal};
use crate::exit_codes::{
    DEVICE_REJECTED, DEVICE_UNAVAILABLE, ENCODE_ERROR, GENERIC_ERROR, INPUT_FILE_ERROR, OK, SYNC_NO_ACK, USAGE_ERROR,
};
use crate::json;
use crate::meta::{self, Form};
use crate::midi::{self, identity_request, MidiError};
use crate::output::{self, add_print, Out, Print, Shown, Verbosity};
use crate::resolve::{self, resolve_names, resolve_names_str, Direction};
use crate::text::{self, chars_of, find_char, quoted, same_text};
use crate::value::{self, Dict, Doc, Tree};
use crate::yaml;
use crate::yaml_io::{self, read_value};

verus! {

// === arguments ===

/// How long a device may pause within an answer, in milliseconds.
pub const SETTLE: u64 = 600;

/// How long a device may take to begin an answer, in milliseconds.
pub const OVERALL: u64 = 2500;

/// How long a device may pause within an identity reply, in milliseconds.
pub const IDENTITY_SETTLE: u64 = 300;

/// How long to leave a device alone before reading back what was written, in
/// milliseconds.
pub const VERIFY_PAUSE: u64 = 80;

/// Global options, shared by every subcommand, and the subcommand.
#[derive(Debug)]
pub struct Cli {
    /// MIDI port name substring for both directions.
    pub port: Option<String>,
    /// MIDI input port substring (overrides `port`).
    pub input_port: Option<String>,
    /// MIDI output port substring (overrides `port`).
    pub output_port: Option<String>,
    /// Device / channel number (0..=15).
    pub device: u8,
    /// Show extra detail.
    pub verbose: bool,
    /// Suppress everything but errors.
    pub quiet: bool,
    pub command: Command,
}

/// A subcommand. Files are given by the text of their path.
#[allow(inconsistent_fields)]
#[derive(Debug)]
pub enum Command {
    /// List available MIDI input and output ports.
    Ports,
    /// Probe the device with a Universal Identity Request.
    Identity,
    /// Read an area off the device into a YAML file.
    Dump { area: String, output: String },
    /// Send a YAML file's settings to the device.
    Sync { area: String, input: String, verify: bool },
    /// Pretty-print a YAML file, identifying its kind (no device needed).
    Show { path: String },
    /// Validate a YAML file by decoding it through the typed model.
    Lint { path: String },
    /// Compare two YAML files of the same kind, field by field.
    Diff { left: String, right: String },
    /// Print the JSON Schema for an area's document.
    Schema { area: String },
    /// Print the full metadata catalog (params + value lists + defaults) as JSON.
    Catalog,
    /// Normalize a preset's value names to numbers, printing codec-ready YAML.
    /// Resolution is area-independent; the area is accepted for parity.
    Resolve { path: String, area: Option<String> },
}

/// How a session is to be opened.
#[derive(Debug)]
pub struct SessionArgs {
    pub port: Option<String>,
    pub input_port: Option<String>,
    pub output_port: Option<String>,
    pub device: u8,
}

/// How much a program logs by default.
#[derive(Debug, Clone, Copy, PartialEq, Eq, Structural)]
pub enum LogLevel {
    Errors,
    Warnings,
    Everything,
}

/// The verbosity that two flags ask for; `verbose` wins.
pub open spec fn asked_verbosity(verbose: bool, quiet: bool) -> Verbosity {
    if verbose {
        Verbosity::Verbose
    } else if quiet {
        Verbosity::Quiet
    } else {
        Verbosity::Normal
    }
}

/// The verbosity that two flags ask for; `verbose` wins.
pub fn verbosity_of(verbose: bool, quiet: bool) -> (r: Verbosity)
    ensures
        r == asked_verbosity(verbose, quiet),
{
    if verbose {
        Verbosity::Verbose
    } else if quiet {
        Verbosity::Quiet
    } else {
        Verbosity::Normal
    }
}

/// How much a program logs by default.
pub fn log_level(verbosity: Verbosity) -> (r: LogLevel)
    ensures
        r == (match verbosity {
            Verbosity::Quiet => LogLevel::Errors,
            Verbosity::Normal => LogLevel::Warnings,
            Verbosity::Verbose => LogLevel::Everything,
        }),
{
    match verbosity {
        Verbosity::Quiet => LogLevel::Errors,
        Verbosity::Normal => LogLevel::Warnings,
        Verbosity::Verbose => LogLevel::Everything,
    }
}

// === steps ===

/// What a session was opened for.
#[derive(Debug)]
pub enum Job {
    Identity,
    Dump { area: String, output: String },
    Sync { area: String, input: String, verify: bool },
}

/// What a file was read for.
#[derive(Debug)]
pub enum Reading {
    /// To be written to the device.
    Sync { area: &'static str, device: u8, verify: bool },
    Show,
    Lint,
    /// The left side of a comparison with the file `right`.
    DiffLeft { right: String },
    /// The right side of a comparison with the document `left`.
    DiffRight { left: Doc },
    Resolve,
}

/// What an answer of the device was awaited for.
#[derive(Debug)]
pub enum Awaiting {
    Identity,
    /// A dump of `area`, for the file `output`.
    Dump { area: &'static str, output: String },
    /// A dump of `area`, which should mean `want`.
    Verify { area: &'static str, want: Doc },
}

/// A write to the device: the bytes, and what they came from.
#[derive(Debug)]
pub struct Sending {
    pub area: &'static str,
    pub device: u8,
    pub input: String,
    pub verify: bool,
    pub bytes: Vec<u8>,
}

/// What to do next.
#[allow(inconsistent_fields)]
#[derive(Debug)]
pub enum Next {
    /// Exit with this code.
    Finish(i32),
    /// Enumerate the MIDI ports, then [`ports_listed`].
    ListPorts,
    /// Open the ports that contain these texts, then [`opened`].
    Open { input: String, output: String, device: u8, then: Job },
    /// Read a file, then [`file_read`].
    Read { path: String, then: Reading },
    /// Send the frames of a request and collect the answer, then [`collected`].
    Exchange { request: Vec<u8>, settle: u64, overall: u64, then: Awaiting },
    /// Send the frames of a write, then [`sent`].
    Send(Sending),
    /// Wait this many milliseconds, then [`paused`].
    Pause { millis: u64, then: Sending },
    /// Create the directory that a file is to stand in, then [`parent_created`].
    CreateParent { path: String, area: &'static str, doc: Doc },
    /// Write a file, then [`written`].
    Write { path: String, text: String },
}

/// What to print, and what to do next.
#[derive(Debug)]
pub struct Step {
    pub prints: Vec<Print>,
    pub next: Next,
}

impl Step {
    /// What the step prints.
    pub open spec fn shown(self) -> Seq<Shown> {
        output::shown(self.prints@)
    }

    /// The step prints this and finishes with this code.
    pub open spec fn stops(self, prints: Seq<Shown>, code: i32) -> bool {
        self.shown() == prints && self.next == Next::Finish(code)
    }

    /// The step prints one error and finishes with this code.
    pub open spec fn fails(self, message: Seq<char>, code: i32) -> bool {
        self.stops(seq![output::failure(message)], code)
    }

    /// The step prints nothing.
    pub open spec fn silent(self) -> bool {
        self.shown() == Seq::<Shown>::empty()
    }
}

/// A step that prints one error and finishes.
fn fail(out: &Out, message: &str, code: i32) -> (r: Step)
    ensures
        r.fails(message@, code),
{
    let mut prints: Vec<Print> = Vec::new();
    out.error(&mut prints, message);
    assert(output::shown(prints@) =~= seq![output::failure(message@)]);
    Step { prints, next: Next::Finish(code) }
}

/// A step that prints one status line and finishes well.
fn succeed(out: &Out, message: &str) -> (r: Step)
    ensures
        r.stops(output::status(out.verbosity, message@), OK),
{
    let mut prints: Vec<Print> = Vec::new();
    out.info(&mut prints, message);
    assert(output::shown(prints@) =~= output::status(out.verbosity, message@));
    Step { prints, next: Next::Finish(OK) }
}

/// A step that prints nothing.
fn go(next: Next) -> (r: Step)
    ensures
        r.silent(),
        r.next == next,
{
    let prints: Vec<Print> = Vec::new();
    assert(output::shown(prints@) =~= Seq::<Shown>::empty());
    Step { prints, next }
}

// === areas and errors ===

/// How an unknown area reads.
pub open spec fn unknown_area_text(name: Seq<char>, areas: Seq<Area>) -> Seq<char> {
    "unknown area "@ + text::quoted_text(name) + " (valid: "@ + text::joined(device::area_names(areas), ", "@) + ")"@
}

/// Resolve a CLI area token to its canonical name, or report a usage error.
pub fn area_name<D: Device>(out: &Out, sink: &mut Vec<Print>, name: &str) -> (r: Result<&'static str, i32>)
    ensures
        match device::matching_area(D::area_list(), name@) {
            Some(i) => {
                &&& r == Ok::<&'static str, i32>(D::area_list()[i].name)
                &&& final(sink)@ == old(sink)@
            },
            None => {
                &&& r == Err::<&'static str, i32>(USAGE_ERROR)
                &&& output::shown(final(sink)@) == output::shown(old(sink)@).push(
                    output::failure(unknown_area_text(name@, D::area_list())),
                )
            },
        },
{
    let areas = D::areas();
    match device::find_area(areas, name) {
        Some(i) => Ok(areas[i].name),
        None => {
            let mut message = "unknown area ".to_owned();
            message.append(quoted(name).as_str());
            message.append(" (valid: ");
            message.append(device::joined_names(areas).as_str());
            message.append(")");
            out.error(sink, message.as_str());
            Err(USAGE_ERROR)
        },
    }
}

/// The exit code for a fault.
pub open spec fn fault_code(f: Fault) -> i32 {
    match f {
        Fault::UnknownArea(_) => USAGE_ERROR,
        Fault::Encode(_) => ENCODE_ERROR,
        Fault::Decode(_) | Fault::Other(_) => GENERIC_ERROR,
    }
}

/// The exit code for a device error.
pub fn dev_err_code(e: &DeviceError) -> (r: i32)
    ensures
        r == fault_code(e@),
{
    match e {
        DeviceError::UnknownArea(_) => USAGE_ERROR,
        DeviceError::Encode(_) => ENCODE_ERROR,
        DeviceError::Decode(_) | DeviceError::Other(_) => GENERIC_ERROR,
    }
}

impl Step {
    /// The step reports this fault and finishes with its code.
    pub open spec fn reports(self, f: Fault) -> bool {
        self.fails(device::fault_text(f), fault_code(f))
    }
}

fn report(out: &Out, e: &DeviceError) -> (r: Step)
    ensures
        r.reports(e@),
{
    fail(out, e.message().as_str(), dev_err_code(e))
}

// === sessions ===

/// The port that a direction uses: its own, or the one for both.
pub open spec fn chosen_port(own: Option<String>, both: Option<String>) -> Option<Seq<char>> {
    match own {
        Some(p) => Some(p@),
        None => text::text_in(both),
    }
}

fn choose_port(own: Option<String>, both: &Option<String>) -> (r: Option<String>)
    ensures
        text::text_in(r) == chosen_port(own, *both),
{
    match own {
        Some(p) => Some(p),
        None => match both {
            Some(p) => Some(p.clone()),
            None => None,
        },
    }
}

/// How a missing port reads.
pub open spec fn port_required_text() -> Seq<char> {
    "--port (or --input-port/--output-port) required; run `ports` to list"@
}

/// How a device number past the last one reads.
pub open spec fn device_range_text(device: u8) -> Seq<char> {
    "--device "@ + text::decimal_text(device as nat) + " out of range (0..=15)"@
}

/// The step opens a session for a job, or reports what is wrong with how it is to
/// be opened.
pub open spec fn session_opened(r: Step, args: SessionArgs, job: Job) -> bool {
    let input = chosen_port(args.input_port, args.port);
    let output = chosen_port(args.output_port, args.port);
    if input is None || output is None {
        r.fails(port_required_text(), USAGE_ERROR)
    } else if args.device > 15 {
        r.fails(device_range_text(args.device), USAGE_ERROR)
    } else {
        &&& r.silent()
        &&& r.next matches Next::Open { input: i, output: o, device, then } && Some(i@) == input && Some(o@) == output
            && device == args.device && then == job
    }
}

/// Check how a session is to be opened, and open it for a job.
pub fn open_session(out: &Out, args: SessionArgs, job: Job) -> (r: Step)
    ensures
        session_opened(r, args, job),
{
    let input = choose_port(args.input_port, &args.port);
    let output = choose_port(args.output_port, &args.port);
    match (input, output) {
        (Some(input), Some(output)) => {
            if args.device > 15 {
                let mut message = "--device ".to_owned();
                message.append(text::decimal(args.device as u64).as_str());
                message.append(" out of range (0..=15)");
                fail(out, message.as_str(), USAGE_ERROR)
            } else {
                go(Next::Open { input, output, device: args.device, then: job })
            }
        },
        _ => fail(out, "--port (or --input-port/--output-port) required; run `ports` to list", USAGE_ERROR),
    }
}

/// The step that begins a job for an area: ask for a dump of it.
pub open spec fn asks_for_dump<D: Device>(r: Step, area: &'static str, device: u8, then: Awaiting) -> bool {
    match D::requested(area@, device) {
        Ok(bytes) => {
            &&& r.silent()
            &&& r.next matches Next::Exchange { request, settle, overall, then: t } && request@ == bytes && settle
                == SETTLE && overall == OVERALL && t == then
        },
        Err(f) => r.reports(f),
    }
}

/// Ask the device for a dump of an area.
fn ask_for_dump<D: Device>(out: &Out, area: &'static str, device: u8, then: Awaiting) -> (r: Step)
    ensures
        asks_for_dump::<D>(r, area, device, then),
{
    match D::request(area, device) {
        Ok(request) => go(Next::Exchange { request, settle: SETTLE, overall: OVERALL, then }),
        Err(e) => report(out, &e),
    }
}

/// Begin a job once its session was opened, or report why it was not.
pub fn opened<D: Device>(out: &Out, job: Job, device: u8, result: Result<(), MidiError>) -> (r: Step)
    ensures
        match result {
            Err(e) => r.fails(e.message_text(), DEVICE_UNAVAILABLE),
            Ok(_) => match job {
                Job::Identity => {
                    &&& r.silent()
                    &&& r.next matches Next::Exchange { request, settle, overall, then } && request@
                        == midi::identity_bytes() && settle == IDENTITY_SETTLE && overall == OVERALL && then
                        == Awaiting::Identity
                },
                Job::Dump { area, output } => match device::matching_area(D::area_list(), area@) {
                    Some(i) => {
                        let name = D::area_list()[i].name;
                        asks_for_dump::<D>(r, name, device, Awaiting::Dump { area: name, output })
                    },
                    None => r.fails(unknown_area_text(area@, D::area_list()), USAGE_ERROR),
                },
                Job::Sync { area, input, verify } => match device::matching_area(D::area_list(), area@) {
                    Some(i) => {
                        &&& r.silent()
                        &&& r.next == (Next::Read {
                            path: input,
                            then: Reading::Sync { area: D::area_list()[i].name, device, verify },
                        })
                    },
                    None => r.fails(unknown_area_text(area@, D::area_list()), USAGE_ERROR),
                },
            },
        },
{
    if let Err(e) = result {
        return fail(out, e.message().as_str(), DEVICE_UNAVAILABLE);
    }
    let mut prints: Vec<Print> = Vec::new();
    assert(output::shown(prints@) =~= Seq::<Shown>::empty());
    match job {
        Job::Identity => go(
            Next::Exchange {
                request: identity_request(),
                settle: IDENTITY_SETTLE,
                overall: OVERALL,
                then: Awaiting::Identity,
            },
        ),
        Job::Dump { area, output } => match area_name::<D>(out, &mut prints, area.as_str()) {
            Ok(name) => ask_for_dump::<D>(out, name, device, Awaiting::Dump { area: name, output }),
            Err(code) => Step { prints, next: Next::Finish(code) },
        },
        Job::Sync { area, input, verify } => match area_name::<D>(out, &mut prints, area.as_str()) {
            Ok(name) => go(Next::Read { path: input, then: Reading::Sync { area: name, device, verify } }),
            Err(code) => Step { prints, next: Next::Finish(code) },
        },
    }
}

// === ports and identity ===

/// List the ports that were found, or report why they could not be.
pub fn ports_listed(out: &Out, result: Result<(Vec<String>, Vec<String>), MidiError>) -> (r: Step)
    ensures
        match result {
            Ok(ports) => r.stops(midi::port_listing(text::texts(ports.0@), text::texts(ports.1@)), OK),
            Err(e) => r.fails(e.message_text(), DEVICE_UNAVAILABLE),
        },
{
    match result {
        Ok(ports) => {
            let mut prints: Vec<Print> = Vec::new();
            midi::list_ports(&mut prints, &ports.0, &ports.1);
            assert(output::shown(prints@) =~= midi::port_listing(text::texts(ports.0@), text::texts(ports.1@)));
            Step { prints, next: Next::Finish(OK) }
        },
        Err(e) => fail(out, e.message().as_str(), DEVICE_UNAVAILABLE),
    }
}

/// The position of the first frame that the device classifies as an identity
/// reply.
pub open spec fn first_identity<D: Device>(frames: Seq<Seq<u8>>) -> Option<int>
    decreases frames.len(),
{
    if frames.len() == 0 {
        None
    } else {
        match first_identity::<D>(frames.drop_last()) {
            Some(i) => Some(i),
            None => if D::classified(frames.last()) is Identity {
                Some(frames.len() - 1)
            } else {
                None
            },
        }
    }
}

/// The bytes of a frame in hexadecimal.
pub open spec fn hex_bytes(bytes: Seq<u8>) -> Seq<Seq<char>> {
    Seq::new(bytes.len(), |i: int| text::upper_hex_text(bytes[i]))
}

/// What an identity reply shows.
pub open spec fn identity_shown(v: Verbosity, bytes: Seq<u8>, model: Option<Seq<char>>) -> Seq<Shown> {
    output::status(v, "reply: "@ + text::joined(hex_bytes(bytes), " "@)) + output::status(
        v,
        match model {
            Some(m) => "  -> "@ + m + " detected"@,
            None => "  -> not recognised (family bytes didn't match)"@,
        },
    )
}

/// The bytes in hexadecimal, joined by spaces.
fn hex_joined(bytes: &Vec<u8>) -> (r: String)
    ensures
        r@ == text::joined(hex_bytes(bytes@), " "@),
{
    let mut parts: Vec<String> = Vec::new();
    let ghost goal = hex_bytes(bytes@);
    let mut i: usize = 0;
    while i < bytes.len()
        invariant
            i <= bytes@.len(),
            goal == hex_bytes(bytes@),
            text::texts(parts@) == goal.take(i as int),
        decreases bytes@.len() - i,
    {
        let ghost before = text::texts(parts@);
        parts.push(text::upper_hex(bytes[i]));
        assert(text::texts(parts@) =~= before.push(goal[i as int]));
        assert(goal.take(i + 1) =~= before.push(goal[i as int]));
        i += 1;
    }
    assert(goal.take(i as int) =~= goal);
    text::join(&parts, " ")
}

/// The step reports the first identity reply in what a device answered.
pub open spec fn identity_reported<D: Device>(r: Step, v: Verbosity, raw: Seq<u8>) -> bool {
    match first_identity::<D>(codec::frames_of(raw)) {
        Some(i) => D::classified(codec::frames_of(raw)[i]) matches Signal::Identity { bytes, model } && r.stops(
            identity_shown(v, bytes, model),
            OK,
        ),
        None => r.fails("no identity reply received"@, DEVICE_UNAVAILABLE),
    }
}

/// Report the first identity reply in what a device answered.
pub fn identity<D: Device>(out: &Out, raw: &[u8]) -> (r: Step)
    ensures
        identity_reported::<D>(r, out.verbosity, raw@),
{
    let frames = split_sysex(raw);
    let ghost all = codec::frames_of(raw@);
    let mut k: usize = 0;
    assert(all.take(0) =~= Seq::<Seq<u8>>::empty());
    while k < frames.len()
        invariant
            k <= frames@.len(),
            all == codec::byte_seqs(frames@),
            all == codec::frames_of(raw@),
            first_identity::<D>(all.take(k as int)) is None,
        decreases frames@.len() - k,
    {
        assert(all.take(k + 1).drop_last() =~= all.take(k as int));
        if let Inbound::Identity { bytes, model } = D::classify_inbound(frames[k].as_slice()) {
            proof {
                lemma_first_identity_extends::<D>(all, (k + 1) as nat);
            }
            let mut prints: Vec<Print> = Vec::new();
            let ghost v = out.verbosity;
            assert(output::shown(prints@) =~= Seq::<Shown>::empty());
            let mut line = "reply: ".to_owned();
            line.append(hex_joined(&bytes).as_str());
            out.info(&mut prints, line.as_str());
            match &model {
                Some(m) => {
                    let mut line = "  -> ".to_owned();
                    line.append(m.as_str());
                    line.append(" detected");
                    out.info(&mut prints, line.as_str());
                },
                None => out.info(&mut prints, "  -> not recognised (family bytes didn't match)"),
            }
            assert(output::shown(prints@) =~= identity_shown(v, bytes@, text::text_in(model)));
            return Step { prints, next: Next::Finish(OK) };
        }
        k += 1;
    }
    assert(all.take(k as int) =~= all);
    fail(out, "no identity reply received", DEVICE_UNAVAILABLE)
}

/// What is the first identity reply among some frames stays it when more follow.
proof fn lemma_first_identity_extends<D: Device>(frames: Seq<Seq<u8>>, n: nat)
    requires
        n <= frames.len(),
        first_identity::<D>(frames.take(n as int)) is Some,
    ensures
        first_identity::<D>(frames) == first_identity::<D>(frames.take(n as int)),
    decreases frames.len() - n,
{
    if n == frames.len() {
        assert(frames.take(n as int) =~= frames);
    } else {
        assert(frames.take((n + 1) as int).drop_last() =~= frames.take(n as int));
        lemma_first_identity_extends::<D>(frames, n + 1);
    }
}

// === dump ===

/// The step goes on with the document that a dump holds, or reports that it
/// holds none.
pub open spec fn dump_decoded<D: Device>(r: Step, area: &'static str, output: String, raw: Seq<u8>) -> bool {
    if raw.len() == 0 {
        r.fails("no dump received (check --device and MIDI In/Out on the device)"@, DEVICE_UNAVAILABLE)
    } else {
        match D::decoded(area@, raw) {
            Ok(t) => {
                &&& r.silent()
                &&& r.next matches Next::CreateParent { path, area: a, doc } && path == output && a == area && doc@ == t
            },
            Err(f) => r.reports(f),
        }
    }
}

/// Decode a dump that was collected for a file.
pub fn dump_collected<D: Device>(out: &Out, area: &'static str, output: String, raw: &[u8]) -> (r: Step)
    ensures
        dump_decoded::<D>(r, area, output, raw@),
{
    if raw.len() == 0 {
        return fail(
            out,
            "no dump received (check --device and MIDI In/Out on the device)",
            DEVICE_UNAVAILABLE,
        );
    }
    match D::decode(area, raw) {
        Ok(doc) => go(Next::CreateParent { path: output, area, doc }),
        Err(e) => report(out, &e),
    }
}

/// Go on to write a document's file once its directory was created, or report
/// why it was not (the directory, and the reason).
pub fn parent_created<D: Device>(
    out: &Out,
    path: String,
    area: &'static str,
    doc: &Doc,
    result: Result<(), (String, String)>,
) -> (r: Step)
    ensures
        match result {
            Err(e) => r.fails(yaml_io::step_failure("creating "@, e.0@, e.1@), GENERIC_ERROR),
            Ok(_) => match yaml_io::file_content(D::NAME@, area@, doc@) {
                Ok(content) => {
                    &&& r.silent()
                    &&& r.next matches Next::Write { path: p, text } && p == path && text@ == content
                },
                Err(m) => r.fails(m, GENERIC_ERROR),
            },
        },
{
    match result {
        Err(e) => fail(out, yaml_io::step_failed("creating ", e.0.as_str(), e.1.as_str()).as_str(), GENERIC_ERROR),
        Ok(_) => match yaml_io::file_text(D::NAME, area, doc) {
            Ok(text) => go(Next::Write { path, text }),
            Err(m) => fail(out, m.as_str(), GENERIC_ERROR),
        },
    }
}

/// Report that a file was written, or why it was not.
pub fn written(out: &Out, path: &str, result: Result<(), String>) -> (r: Step)
    ensures
        match result {
            Ok(_) => r.stops(output::status(out.verbosity, "wrote "@ + path@), OK),
            Err(reason) => r.fails(yaml_io::step_failure("writing "@, path@, reason@), GENERIC_ERROR),
        },
{
    match result {
        Ok(_) => {
            let mut message = "wrote ".to_owned();
            message.append(path);
            succeed(out, message.as_str())
        },
        Err(reason) => fail(out, yaml_io::step_failed("writing ", path, reason.as_str()).as_str(), GENERIC_ERROR),
    }
}

// === sync ===

/// What a document is before it is encoded: names are an input-only convenience.
pub open spec fn codec_ready<D: Device>(t: Tree) -> Tree {
    resolve::rewritten(t, D::table(), D::value_catalogs(), Direction::Resolve)
}

/// The step goes on to send a document that came from the file `path`, or reports
/// why it cannot.
pub open spec fn doc_encoded<D: Device>(
    r: Step,
    area: &'static str,
    device: u8,
    verify: bool,
    path: String,
    t: Tree,
) -> bool {
    match D::encoded(area@, codec_ready::<D>(t), device) {
        Err(f) => r.reports(f),
        Ok(bytes) => {
            &&& r.silent()
            &&& r.next matches Next::Send(s) && s.bytes@ == bytes && s.area == area && s.device == device && s.input
                == path && s.verify == verify
        },
    }
}

/// Encode a document that came from the file `path` and go on to send it.
pub fn sync_document<D: Device>(
    out: &Out,
    area: &'static str,
    device: u8,
    verify: bool,
    path: String,
    doc: Doc,
) -> (r: Step)
    ensures
        doc_encoded::<D>(r, area, device, verify, path, doc@),
{
    let mut doc = doc;
    resolve_names(&mut doc, D::params(), D::catalogs());
    match D::encode(area, &doc, device) {
        Err(e) => report(out, &e),
        Ok(bytes) => go(Next::Send(Sending { area, device, input: path, verify, bytes })),
    }
}

/// The step goes on to send the document of a file, or reports why it cannot.
pub open spec fn file_encoded<D: Device>(
    r: Step,
    area: &'static str,
    device: u8,
    verify: bool,
    path: String,
    content: Result<String, String>,
) -> bool {
    match yaml_io::value_in_file(path@, text::outcome(content)) {
        Err(m) => r.fails(m, INPUT_FILE_ERROR),
        Ok(t) => doc_encoded::<D>(r, area, device, verify, path, t),
    }
}

/// Encode the document of a file and go on to send it.
pub fn sync_read<D: Device>(
    out: &Out,
    area: &'static str,
    device: u8,
    verify: bool,
    path: String,
    content: Result<String, String>,
) -> (r: Step)
    ensures
        file_encoded::<D>(r, area, device, verify, path, content),
{
    match read_value(path.as_str(), content) {
        Err(m) => fail(out, m.as_str(), INPUT_FILE_ERROR),
        Ok(doc) => sync_document::<D>(out, area, device, verify, path, doc),
    }
}

/// Report that a write was sent and, where it is to be verified, go on to that;
/// or report why it was not sent.
pub fn sent(out: &Out, sending: Sending, result: Result<(), MidiError>) -> (r: Step)
    ensures
        match result {
            Err(e) => r.fails(e.message_text(), DEVICE_UNAVAILABLE),
            Ok(_) => {
                &&& r.shown() == output::status(
                    out.verbosity,
                    "sent "@ + sending.area@ + " from "@ + sending.input@,
                )
                &&& r.next == (if sending.verify {
                    Next::Pause { millis: VERIFY_PAUSE, then: sending }
                } else {
                    Next::Finish(OK)
                })
            },
        },
{
    match result {
        Err(e) => fail(out, e.message().as_str(), DEVICE_UNAVAILABLE),
        Ok(_) => {
            let mut message = "sent ".to_owned();
            message.append(sending.area);
            message.append(" from ");
            message.append(sending.input.as_str());
            let mut step = succeed(out, message.as_str());
            if sending.verify {
                step.next = Next::Pause { millis: VERIFY_PAUSE, then: sending };
            }
            step
        },
    }
}

/// Ask for the area that was written, to compare it with what was sent.
pub fn paused<D: Device>(out: &Out, sending: Sending) -> (r: Step)
    ensures
        match D::decoded(sending.area@, sending.bytes@) {
            Err(f) => r.reports(f),
            Ok(t) => match D::requested(sending.area@, sending.device) {
                Err(f) => r.reports(f),
                Ok(bytes) => {
                    &&& r.silent()
                    &&& r.next matches Next::Exchange { request, settle, overall, then } && request@ == bytes && settle
                        == SETTLE && overall == OVERALL && (then matches Awaiting::Verify { area, want } && area
                        == sending.area && want@ == t)
                },
            },
        },
{
    match D::decode(sending.area, sending.bytes.as_slice()) {
        Err(e) => report(out, &e),
        Ok(want) => ask_for_dump::<D>(
            out,
            sending.area,
            sending.device,
            Awaiting::Verify { area: sending.area, want },
        ),
    }
}

/// The step reports whether what was read back is what was sent. Where nothing at
/// all came back and that means no document, the write was never acknowledged.
pub open spec fn read_back_compared<D: Device>(r: Step, v: Verbosity, area: Seq<char>, want: Tree, raw: Seq<u8>) -> bool {
    match D::decoded(area, raw) {
        Ok(got) => if value::same(got, want) {
            r.stops(output::status(v, "  verified: read-back matches"@), OK)
        } else {
            r.fails("verify FAILED: read-back differs from what we sent"@, DEVICE_REJECTED)
        },
        Err(f) => r.fails(
            "verify decode failed: "@ + device::fault_text(f),
            if raw.len() == 0 {
                SYNC_NO_ACK
            } else {
                DEVICE_REJECTED
            },
        ),
    }
}

/// Compare what was read back with what was sent.
pub fn verify_collected<D: Device>(out: &Out, area: &'static str, want: &Doc, raw: &[u8]) -> (r: Step)
    ensures
        read_back_compared::<D>(r, out.verbosity, area@, want@, raw@),
{
    match D::decode(area, raw) {
        Ok(got) => if value::same_values(&got, want) {
            succeed(out, "  verified: read-back matches")
        } else {
            fail(out, "verify FAILED: read-back differs from what we sent", DEVICE_REJECTED)
        },
        Err(e) => {
            let mut message = "verify decode failed: ".to_owned();
            message.append(e.message().as_str());
            let code: i32 = if raw.len() == 0 { SYNC_NO_ACK } else { DEVICE_REJECTED };
            fail(out, message.as_str(), code)
        },
    }
}

/// The exit code where an answer could not be collected.
pub open spec fn no_answer_code(awaiting: Awaiting) -> i32 {
    match awaiting {
        Awaiting::Identity => DEVICE_UNAVAILABLE,
        Awaiting::Dump { .. } => DEVICE_UNAVAILABLE,
        Awaiting::Verify { .. } => SYNC_NO_ACK,
    }
}

/// Act on the answer of a device, or report why there is none.
pub fn collected<D: Device>(out: &Out, awaiting: Awaiting, result: Result<Vec<u8>, MidiError>) -> (r: Step)
    ensures
        match result {
            Err(e) => r.fails(e.message_text(), no_answer_code(awaiting)),
            Ok(raw) => match awaiting {
                Awaiting::Identity => identity_reported::<D>(r, out.verbosity, raw@),
                Awaiting::Dump { area, output } => dump_decoded::<D>(r, area, output, raw@),
                Awaiting::Verify { area, want } => read_back_compared::<D>(
                    r,
                    out.verbosity,
                    area@,
                    want@,
                    raw@,
                ),
            },
        },
{
    match result {
        Err(e) => {
            let code: i32 = match &awaiting {
                Awaiting::Identity => DEVICE_UNAVAILABLE,
                Awaiting::Dump { .. } => DEVICE_UNAVAILABLE,
                Awaiting::Verify { .. } => SYNC_NO_ACK,
            };
            fail(out, e.message().as_str(), code)
        },
        Ok(raw) => match awaiting {
            Awaiting::Identity => identity::<D>(out, raw.as_slice()),
            Awaiting::Dump { area, output } => dump_collected::<D>(out, area, output, raw.as_slice()),
            Awaiting::Verify { area, want } => verify_collected::<D>(out, area, &want, raw.as_slice()),
        },
    }
}

// === which kind a file is ===

/// The device may answer `answer` to whether a document is of an area.
pub open spec fn may_answer<D: Device>(area: Area, doc: Doc, answer: bool) -> bool {
    call_ensures(D::accepts, (area.name, &doc), answer)
}

/// `found` is the first area that the device accepts a document for.
pub open spec fn first_accepting<D: Device>(doc: Doc, found: Option<usize>) -> bool {
    let areas = D::area_list();
    match found {
        Some(i) => {
            &&& i < areas.len()
            &&& may_answer::<D>(areas[i as int], doc, true)
            &&& forall|j: int| 0 <= j < i ==> may_answer::<D>(#[trigger] areas[j], doc, false)
        },
        None => forall|j: int| 0 <= j < areas.len() ==> may_answer::<D>(#[trigger] areas[j], doc, false),
    }
}

/// Find the first area that the device accepts a document for.
pub fn find_accepting<D: Device>(doc: &Doc) -> (r: Option<usize>)
    ensures
        first_accepting::<D>(*doc, r),
{
    let areas = D::areas();
    let mut i: usize = 0;
    while i < areas.len()
        invariant
            i <= areas@.len(),
            areas@ == D::area_list(),
            forall|j: int| 0 <= j < i ==> may_answer::<D>(#[trigger] areas@[j], *doc, false),
        decreases areas@.len() - i,
    {
        if D::accepts(areas[i].name, doc) {
            return Some(i);
        }
        i += 1;
    }
    None
}

// === show ===

/// What `show` prints of a file: its kind, then its text as it is.
pub open spec fn file_shown(path: Seq<char>, kind: Option<Seq<char>>, content: Seq<char>) -> Seq<Shown> {
    seq![
        Shown::Line(
            "# "@ + path + " ("@ + (match kind {
                Some(k) => k,
                None => "unrecognized — printing raw"@,
            }) + ")"@,
        ),
        Shown::Text(content),
    ]
}

/// Print a file under a heading with its kind.
pub fn show_as(path: &str, kind: Option<&str>, content: String) -> (r: Step)
    ensures
        r.stops(
            file_shown(
                path@,
                match kind {
                    Some(k) => Some(k@),
                    None => None,
                },
                content@,
            ),
            OK,
        ),
{
    let mut prints: Vec<Print> = Vec::new();
    let mut line = "# ".to_owned();
    line.append(path);
    line.append(" (");
    line.append(
        match kind {
            Some(k) => k,
            None => "unrecognized — printing raw",
        },
    );
    line.append(")");
    add_print(&mut prints, Print::Line(line));
    add_print(&mut prints, Print::Text(content));
    proof {
        let k = match kind {
            Some(k) => Some(k@),
            None => None,
        };
        assert(output::shown(prints@) =~= file_shown(path@, k, content@));
    }
    Step { prints, next: Next::Finish(OK) }
}

/// The label of the area at a position.
pub open spec fn label_at(areas: Seq<Area>, found: Option<usize>) -> Option<Seq<char>> {
    match found {
        Some(i) => Some(areas[i as int].label@),
        None => None,
    }
}

/// The step prints a file, or reports why it could not be read.
pub open spec fn file_printed<D: Device>(r: Step, path: Seq<char>, content: Result<String, String>) -> bool {
    match content {
        Err(reason) => r.fails(yaml_io::step_failure("reading "@, path, reason@), INPUT_FILE_ERROR),
        Ok(text) => match yaml::parsed(text@) {
            Err(_) => r.stops(file_shown(path, None, text@), OK),
            Ok(t) => exists|doc: Doc, found: Option<usize>|
                {
                    &&& doc@ == t
                    &&& #[trigger] first_accepting::<D>(doc, found)
                    &&& r.stops(file_shown(path, label_at(D::area_list(), found), text@), OK)
                },
        },
    }
}

/// Print a file that was read, identifying its kind: that of the first area that
/// the device accepts its document for.
pub fn show<D: Device>(out: &Out, path: &str, content: Result<String, String>) -> (r: Step)
    ensures
        file_printed::<D>(r, path@, content),
{
    match content {
        Err(reason) => fail(out, yaml_io::step_failed("reading ", path, reason.as_str()).as_str(), INPUT_FILE_ERROR),
        Ok(text) => {
            match yaml::parse(text.as_str()) {
                Err(_) => show_as(path, None, text),
                Ok(doc) => {
                    let found = find_accepting::<D>(&doc);
                    let areas = D::areas();
                    let kind: Option<&str> = match found {
                        Some(i) => Some(areas[i].label),
                        None => None,
                    };
                    assert(first_accepting::<D>(doc, found));
                    show_as(path, kind, text)
                },
            }
        },
    }
}

// === lint ===

/// How a file of no known kind reads.
pub open spec fn no_kind_text(path: Seq<char>, areas: Seq<Area>) -> Seq<char> {
    path + " parses as none of: "@ + text::joined(device::area_labels(areas), ", "@)
}

/// The step reports whether a document of the area at `found` encodes.
pub open spec fn lint_reported<D: Device>(r: Step, v: Verbosity, path: Seq<char>, doc: Tree, found: Option<usize>) -> bool {
    let areas = D::area_list();
    match found {
        Some(i) => match D::encoded(areas[i as int].name@, doc, 0) {
            Ok(_) => r.stops(
                output::status(v, "OK: "@ + path + " is a valid "@ + areas[i as int].label@),
                OK,
            ),
            Err(f) => r.fails(device::fault_text(f), INPUT_FILE_ERROR),
        },
        None => r.fails(no_kind_text(path, areas), INPUT_FILE_ERROR),
    }
}

/// Report whether a document of the area at `found` encodes.
pub fn lint_as<D: Device>(out: &Out, path: &str, doc: &Doc, found: Option<usize>) -> (r: Step)
    requires
        found matches Some(i) ==> i < D::area_list().len(),
    ensures
        lint_reported::<D>(r, out.verbosity, path@, doc@, found),
{
    let areas = D::areas();
    match found {
        Some(i) => match D::encode(areas[i].name, doc, 0) {
            Ok(_) => {
                let mut message = "OK: ".to_owned();
                message.append(path);
                message.append(" is a valid ");
                message.append(areas[i].label);
                succeed(out, message.as_str())
            },
            Err(e) => fail(out, e.message().as_str(), INPUT_FILE_ERROR),
        },
        None => {
            let mut message = path.to_owned();
            message.append(" parses as none of: ");
            message.append(device::joined_labels(areas).as_str());
            fail(out, message.as_str(), INPUT_FILE_ERROR)
        },
    }
}

/// The step reports whether the document of a file encodes as the first area that
/// the device accepts it for.
pub open spec fn file_linted<D: Device>(r: Step, v: Verbosity, path: Seq<char>, content: Result<String, String>) -> bool {
    match yaml_io::value_in_file(path, text::outcome(content)) {
        Err(m) => r.fails(m, INPUT_FILE_ERROR),
        Ok(t) => exists|doc: Doc, found: Option<usize>|
            {
                &&& doc@ == t
                &&& #[trigger] first_accepting::<D>(doc, found)
                &&& lint_reported::<D>(r, v, path, t, found)
            },
    }
}

/// Validate a file that was read, by encoding its document as the first area that
/// the device accepts it for.
pub fn lint<D: Device>(out: &Out, path: &str, content: Result<String, String>) -> (r: Step)
    ensures
        file_linted::<D>(r, out.verbosity, path@, content),
{
    match read_value(path, content) {
        Err(m) => fail(out, m.as_str(), INPUT_FILE_ERROR),
        Ok(doc) => {
            let found = find_accepting::<D>(&doc);
            assert(first_accepting::<D>(doc, found));
            lint_as::<D>(out, path, &doc, found)
        },
    }
}

// === diff ===

/// The device may turn down one of two documents for an area.
pub open spec fn may_turn_down<D: Device>(area: Area, a: Doc, b: Doc) -> bool {
    may_answer::<D>(area, a, false) || (may_answer::<D>(area, a, true) && may_answer::<D>(area, b, false))
}

/// `found` is the first area that the device accepts both documents for.
pub open spec fn first_accepting_both<D: Device>(a: Doc, b: Doc, found: Option<usize>) -> bool {
    let areas = D::area_list();
    match found {
        Some(i) => {
            &&& i < areas.len()
            &&& may_answer::<D>(areas[i as int], a, true)
            &&& may_answer::<D>(areas[i as int], b, true)
            &&& forall|j: int| 0 <= j < i ==> may_turn_down::<D>(#[trigger] areas[j], a, b)
        },
        None => forall|j: int| 0 <= j < areas.len() ==> may_turn_down::<D>(#[trigger] areas[j], a, b),
    }
}

/// Find the first area that the device accepts both documents for.
pub fn find_accepting_both<D: Device>(a: &Doc, b: &Doc) -> (r: Option<usize>)
    ensures
        first_accepting_both::<D>(*a, *b, r),
{
    let areas = D::areas();
    let mut i: usize = 0;
    while i < areas.len()
        invariant
            i <= areas@.len(),
            areas@ == D::area_list(),
            forall|j: int| 0 <= j < i ==> may_turn_down::<D>(#[trigger] areas@[j], *a, *b),
        decreases areas@.len() - i,
    {
        if D::accepts(areas[i].name, a) && D::accepts(areas[i].name, b) {
            return Some(i);
        }
        i += 1;
    }
    None
}

/// A document rendered as it is; nothing where it cannot be.
pub open spec fn plain_rendering(t: Tree) -> Seq<char> {
    match yaml::rendered(t) {
        Ok(s) => s,
        Err(_) => seq![],
    }
}

/// What a document reads as once it went through the device's typed model; as it
/// is where any step of that fails.
pub open spec fn canonical_text<D: Device>(area: Seq<char>, t: Tree) -> Seq<char> {
    match D::encoded(area, t, 0) {
        Ok(bytes) => match D::decoded(area, bytes) {
            Ok(canon) => match yaml::rendered(canon) {
                Ok(s) => s,
                Err(_) => plain_rendering(t),
            },
            Err(_) => plain_rendering(t),
        },
        Err(_) => plain_rendering(t),
    }
}

/// Canonicalize a document by round-tripping it through the device's typed model
/// (encode→decode), falling back to a plain rendering if that fails.
pub fn normalize<D: Device>(area: &str, v: &Doc) -> (r: String)
    ensures
        r@ == canonical_text::<D>(area@, v@),
{
    if let Ok(bytes) = D::encode(area, v, 0) {
        if let Ok(canon) = D::decode(area, bytes.as_slice()) {
            if let Ok(s) = yaml::render(&canon) {
                return s;
            }
        }
    }
    match yaml::render(v) {
        Ok(s) => s,
        Err(_) => {
            let empty = String::new();
            assert(empty@ =~= seq![]);
            empty
        },
    }
}

/// The key of a line: what stands before its first colon, trimmed.
pub open spec fn line_key(line: Seq<char>) -> Option<Seq<char>> {
    match text::position(line, ':') {
        Some(i) => Some(text::trimmed(line.subrange(0, i))),
        None => None,
    }
}

/// The value of a line: what stands after its first colon, trimmed.
pub open spec fn line_value(line: Seq<char>) -> Seq<char> {
    match text::position(line, ':') {
        Some(i) => text::trimmed(line.subrange(i + 1, line.len() as int)),
        None => seq![],
    }
}

/// How two lines at the same place differ.
pub open spec fn line_diff(a: Seq<char>, b: Seq<char>) -> Seq<Shown> {
    if a == b {
        seq![]
    } else if line_key(a) is Some && line_key(a) == line_key(b) {
        seq![
            Shown::Line(
                "  "@ + line_key(a)->Some_0 + ": "@ + line_value(a) + "  →  "@ + line_value(b),
            ),
        ]
    } else {
        seq![Shown::Line("- "@ + a), Shown::Line("+ "@ + b)]
    }
}

/// The line at `i`, or an empty one past the end.
pub open spec fn line_at(lines: Seq<Seq<char>>, i: int) -> Seq<char> {
    if 0 <= i < lines.len() {
        lines[i]
    } else {
        seq![]
    }
}

/// How the first `n` lines of two texts differ.
pub open spec fn lines_diff(a: Seq<Seq<char>>, b: Seq<Seq<char>>, n: nat) -> Seq<Shown>
    decreases n,
{
    if n == 0 {
        seq![]
    } else {
        lines_diff(a, b, (n - 1) as nat) + line_diff(line_at(a, n - 1), line_at(b, n - 1))
    }
}

/// How two texts differ, line by line.
pub open spec fn text_diff(left: Seq<char>, right: Seq<char>) -> Seq<Shown> {
    let a = text::lines_of(left);
    let b = text::lines_of(right);
    let found = lines_diff(a, b, codec::longer(a.len(), b.len()));
    if found.len() == 0 {
        seq![Shown::Line("(no differences)"@)]
    } else {
        found
    }
}

/// Split a line at its first colon and trim both parts.
fn split_line(line: &str) -> (r: Option<(String, String)>)
    ensures
        match r {
            Some(parts) => line_key(line@) == Some(parts.0@) && line_value(line@) == parts.1@,
            None => line_key(line@) is None,
        },
{
    let chars = chars_of(line);
    let end: usize = chars.len();
    assert(chars@.skip(0) =~= line@);
    match find_char(&chars, 0, ':') {
        Some(i) => Some((text::trim(&chars, 0, i), text::trim(&chars, i + 1, end))),
        None => None,
    }
}

/// Print how two lines at the same place differ.
fn print_line_diff(sink: &mut Vec<Print>, a: &str, b: &str)
    ensures
        output::shown(final(sink)@) == output::shown(old(sink)@) + line_diff(a@, b@),
{
    let ghost start = output::shown(sink@);
    if same_text(a, b) {
        assert(start + line_diff(a@, b@) =~= start);
        return;
    }
    let left = split_line(a);
    let right = split_line(b);
    if let (Some(l), Some(r)) = (&left, &right) {
        if same_text(l.0.as_str(), r.0.as_str()) {
            let mut line = "  ".to_owned();
            line.append(l.0.as_str());
            line.append(": ");
            line.append(l.1.as_str());
            line.append("  →  ");
            line.append(r.1.as_str());
            add_print(sink, Print::Line(line));
            assert(output::shown(sink@) =~= start + line_diff(a@, b@));
            return;
        }
    }
    let mut removed = "- ".to_owned();
    removed.append(a);
    add_print(sink, Print::Line(removed));
    let mut added = "+ ".to_owned();
    added.append(b);
    add_print(sink, Print::Line(added));
    assert(output::shown(sink@) =~= start + line_diff(a@, b@));
}

/// Print how two texts differ, line by line.
pub fn print_diff(left: &str, right: &str) -> (r: Vec<Print>)
    ensures
        output::shown(r@) == text_diff(left@, right@),
{
    let la = text::lines(left);
    let lb = text::lines(right);
    let ghost a = text::lines_of(left@);
    let ghost b = text::lines_of(right@);
    let n: usize = if la.len() >= lb.len() { la.len() } else { lb.len() };
    let mut prints: Vec<Print> = Vec::new();
    let mut i: usize = 0;
    assert(output::shown(prints@) =~= lines_diff(a, b, 0));
    while i < n
        invariant
            i <= n,
            a == text::texts(la@),
            b == text::texts(lb@),
            output::shown(prints@) == lines_diff(a, b, i as nat),
        decreases n - i,
    {
        let x: &str = if i < la.len() { la[i].as_str() } else { "" };
        let y: &str = if i < lb.len() { lb[i].as_str() } else { "" };
        proof {
            reveal_strlit("");
            assert(x@ =~= line_at(a, i as int));
            assert(y@ =~= line_at(b, i as int));
        }
        print_line_diff(&mut prints, x, y);
        i += 1;
    }
    if prints.len() == 0 {
        assert(output::shown(prints@).len() == 0);
        add_print(&mut prints, Print::Line("(no differences)".to_owned()));
        assert(output::shown(prints@) =~= text_diff(left@, right@));
    } else {
        assert(output::shown(prints@).len() != 0);
    }
    prints
}

/// How a comparison of files of different kinds reads.
pub open spec fn same_kind_text() -> Seq<char> {
    "both files must be the same recognised kind"@
}

/// The step prints how two documents of the area at `found` differ.
pub open spec fn diff_reported<D: Device>(r: Step, a: Tree, b: Tree, found: Option<usize>) -> bool {
    match found {
        Some(i) => {
            let area = D::area_list()[i as int].name@;
            r.stops(text_diff(canonical_text::<D>(area, a), canonical_text::<D>(area, b)), OK)
        },
        None => r.fails(same_kind_text(), USAGE_ERROR),
    }
}

/// Compare two documents of the area at `found`.
pub fn diff_as<D: Device>(out: &Out, a: &Doc, b: &Doc, found: Option<usize>) -> (r: Step)
    requires
        found matches Some(i) ==> i < D::area_list().len(),
    ensures
        diff_reported::<D>(r, a@, b@, found),
{
    match found {
        Some(i) => {
            let area = D::areas()[i].name;
            let prints = print_diff(normalize::<D>(area, a).as_str(), normalize::<D>(area, b).as_str());
            Step { prints, next: Next::Finish(OK) }
        },
        None => fail(out, "both files must be the same recognised kind", USAGE_ERROR),
    }
}

/// The step compares two documents as the first area that the device accepts
/// both for.
pub open spec fn docs_compared<D: Device>(r: Step, a: Doc, b: Doc) -> bool {
    exists|found: Option<usize>| #[trigger]
        first_accepting_both::<D>(a, b, found) && diff_reported::<D>(r, a@, b@, found)
}

/// Compare two documents as the first area that the device accepts both for.
pub fn diff<D: Device>(out: &Out, a: &Doc, b: &Doc) -> (r: Step)
    ensures
        docs_compared::<D>(r, *a, *b),
{
    let found = find_accepting_both::<D>(a, b);
    assert(first_accepting_both::<D>(*a, *b, found));
    diff_as::<D>(out, a, b, found)
}

// === resolve ===

/// The step prints a file with its value names turned into numbers, or reports
/// why it cannot.
pub open spec fn file_resolved<D: Device>(r: Step, path: Seq<char>, content: Result<String, String>) -> bool {
    match content {
        Err(reason) => r.fails(yaml_io::step_failure("reading "@, path, reason@), INPUT_FILE_ERROR),
        Ok(input) => match resolve::rewritten_text(input@, D::table(), D::value_catalogs(), Direction::Resolve) {
            Ok(resolved) => r.stops(seq![Shown::Text(resolved)], OK),
            Err(m) => r.fails("resolve names: "@ + m, INPUT_FILE_ERROR),
        },
    }
}

/// Print a file that was read with its value names turned into numbers.
pub fn resolve<D: Device>(out: &Out, path: &str, content: Result<String, String>) -> (r: Step)
    ensures
        file_resolved::<D>(r, path@, content),
{
    match content {
        Err(reason) => fail(out, yaml_io::step_failed("reading ", path, reason.as_str()).as_str(), INPUT_FILE_ERROR),
        Ok(input) => match resolve_names_str(input.as_str(), D::params(), D::catalogs()) {
            Ok(resolved) => {
                let mut prints: Vec<Print> = Vec::new();
                add_print(&mut prints, Print::Text(resolved));
                assert(output::shown(prints@) =~= seq![Shown::Text(resolved@)]);
                Step { prints, next: Next::Finish(OK) }
            },
            Err(m) => {
                let mut message = "resolve names: ".to_owned();
                message.append(m.as_str());
                fail(out, message.as_str(), INPUT_FILE_ERROR)
            },
        },
    }
}

// === schema and catalog ===

/// The step prints the JSON Schema for an area's document, or reports that there
/// is none.
pub open spec fn schema_printed<D: Device>(r: Step, area: Seq<char>) -> bool {
    match device::matching_area(D::area_list(), area) {
        Some(i) => match D::schema_text(D::area_list()[i].name@) {
            Some(s) => r.stops(seq![Shown::Line(s)], OK),
            None => r.fails("no schema for area "@ + text::quoted_text(D::area_list()[i].name@), USAGE_ERROR),
        },
        None => r.fails(unknown_area_text(area, D::area_list()), USAGE_ERROR),
    }
}

/// Print the JSON Schema for an area's document.
pub fn schema<D: Device>(out: &Out, area: &str) -> (r: Step)
    ensures
        schema_printed::<D>(r, area@),
{
    let mut prints: Vec<Print> = Vec::new();
    assert(output::shown(prints@) =~= Seq::<Shown>::empty());
    match area_name::<D>(out, &mut prints, area) {
        Err(code) => Step { prints, next: Next::Finish(code) },
        Ok(name) => match D::schema(name) {
            Some(s) => {
                add_print(&mut prints, Print::Line(s));
                Step { prints, next: Next::Finish(OK) }
            },
            None => {
                let mut message = "no schema for area ".to_owned();
                message.append(quoted(name).as_str());
                fail(out, message.as_str(), USAGE_ERROR)
            },
        },
    }
}

/// The factory defaults of some areas, by area name.
pub open spec fn default_entries<D: Device>(areas: Seq<Area>) -> Seq<(Tree, Tree)>
    decreases areas.len(),
{
    if areas.len() == 0 {
        seq![]
    } else {
        let before = default_entries::<D>(areas.drop_last());
        match D::default_doc(areas.last().name@) {
            Some(t) => value::inserted(before, Tree::Text(areas.last().name@), t),
            None => before,
        }
    }
}

/// A device's metadata bundle as a document.
pub open spec fn device_bundle<D: Device>() -> Tree {
    catalog::bundle_tree(
        D::NAME@,
        D::table(),
        D::value_catalogs().contents(),
        Tree::Dict(default_entries::<D>(D::area_list())),
        Form::Json,
    )
}

/// Build the metadata bundle for `D`.
pub fn bundle<D: Device>() -> (r: Doc)
    ensures
        r@ == device_bundle::<D>(),
{
    let areas = D::areas();
    let mut defaults = Dict::new();
    let mut i: usize = 0;
    assert(defaults@ =~= default_entries::<D>(areas@.take(0)));
    while i < areas.len()
        invariant
            i <= areas@.len(),
            defaults@ == default_entries::<D>(areas@.take(i as int)),
        decreases areas@.len() - i,
    {
        assert(areas@.take(i + 1).drop_last() =~= areas@.take(i as int));
        if let Some(doc) = D::defaults(areas[i].name) {
            defaults = defaults.with(Doc::text(areas[i].name), doc);
        }
        i += 1;
    }
    assert(areas@.take(i as int) =~= areas@);
    let bundle = Bundle {
        device: D::NAME,
        params: D::params(),
        catalogs: D::catalogs().as_value(),
        defaults: Doc::Dict(defaults),
    };
    bundle.to_value(Form::Json)
}

/// Build the catalog [`Bundle`] for `D` and render it as pretty JSON.
pub fn catalog_json<D: Device>() -> (r: Result<String, String>)
    ensures
        text::outcome(r) == json::json_pretty(device_bundle::<D>()),
{
    json::pretty(&bundle::<D>())
}

/// The step prints the metadata bundle for `D`, or reports why it cannot.
pub open spec fn catalog_printed<D: Device>(r: Step) -> bool {
    match json::json_pretty(device_bundle::<D>()) {
        Ok(s) => r.stops(seq![Shown::Line(s)], OK),
        Err(m) => r.fails("serialize catalog: "@ + m, GENERIC_ERROR),
    }
}

/// Print the metadata bundle for `D`.
pub fn catalog<D: Device>(out: &Out) -> (r: Step)
    ensures
        catalog_printed::<D>(r),
{
    match catalog_json::<D>() {
        Ok(s) => {
            let mut prints: Vec<Print> = Vec::new();
            add_print(&mut prints, Print::Line(s));
            assert(output::shown(prints@) =~= seq![Shown::Line(s@)]);
            Step { prints, next: Next::Finish(OK) }
        },
        Err(m) => {
            let mut message = "serialize catalog: ".to_owned();
            message.append(m.as_str());
            fail(out, message.as_str(), GENERIC_ERROR)
        },
    }
}

// === files and dispatch ===

/// The step that follows the attempt to read a file.
pub open spec fn read_on<D: Device>(
    r: Step,
    v: Verbosity,
    reading: Reading,
    path: String,
    content: Result<String, String>,
) -> bool {
    match reading {
        Reading::Sync { area, device, verify } => file_encoded::<D>(r, area, device, verify, path, content),
        Reading::Show => file_printed::<D>(r, path@, content),
        Reading::Lint => file_linted::<D>(r, v, path@, content),
        Reading::DiffLeft { right } => match yaml_io::value_in_file(path@, text::outcome(content)) {
            Err(m) => r.fails(m, INPUT_FILE_ERROR),
            Ok(t) => {
                &&& r.silent()
                &&& r.next matches Next::Read { path: p, then } && p == right && (then matches Reading::DiffRight {
                    left,
                } && left@ == t)
            },
        },
        Reading::DiffRight { left } => match yaml_io::value_in_file(path@, text::outcome(content)) {
            Err(m) => r.fails(m, INPUT_FILE_ERROR),
            Ok(t) => exists|doc: Doc| doc@ == t && #[trigger] docs_compared::<D>(r, left, doc),
        },
        Reading::Resolve => file_resolved::<D>(r, path@, content),
    }
}

/// Act on the content of a file, or on the reason why it could not be read.
pub fn file_read<D: Device>(out: &Out, reading: Reading, path: String, content: Result<String, String>) -> (r: Step)
    ensures
        read_on::<D>(r, out.verbosity, reading, path, content),
{
    match reading {
        Reading::Sync { area, device, verify } => sync_read::<D>(out, area, device, verify, path, content),
        Reading::Show => show::<D>(out, path.as_str(), content),
        Reading::Lint => lint::<D>(out, path.as_str(), content),
        Reading::DiffLeft { right } => match read_value(path.as_str(), content) {
            Err(m) => fail(out, m.as_str(), INPUT_FILE_ERROR),
            Ok(left) => go(Next::Read { path: right, then: Reading::DiffRight { left } }),
        },
        Reading::DiffRight { left } => match read_value(path.as_str(), content) {
            Err(m) => fail(out, m.as_str(), INPUT_FILE_ERROR),
            Ok(doc) => {
                let r = diff::<D>(out, &left, &doc);
                assert(docs_compared::<D>(r, left, doc));
                r
            },
        },
        Reading::Resolve => resolve::<D>(out, path.as_str(), content),
    }
}

/// The step reads a file for a purpose.
pub open spec fn reads(r: Step, path: String, then: Reading) -> bool {
    r.silent() && r.next == (Next::Read { path, then })
}

/// The first step of a command.
pub open spec fn dispatched<D: Device>(r: Step, args: SessionArgs, command: Command) -> bool {
    match command {
        Command::Ports => r.silent() && r.next == Next::ListPorts,
        Command::Identity => session_opened(r, args, Job::Identity),
        Command::Dump { area, output } => session_opened(r, args, Job::Dump { area, output }),
        Command::Sync { area, input, verify } => session_opened(r, args, Job::Sync { area, input, verify }),
        Command::Show { path } => reads(r, path, Reading::Show),
        Command::Lint { path } => reads(r, path, Reading::Lint),
        Command::Diff { left, right } => reads(r, left, Reading::DiffLeft { right }),
        Command::Schema { area } => schema_printed::<D>(r, area@),
        Command::Catalog => catalog_printed::<D>(r),
        Command::Resolve { path, area: _ } => reads(r, path, Reading::Resolve),
    }
}

/// How two flags that exclude each other read.
pub open spec fn exclusive_text() -> Seq<char> {
    "--verbose and --quiet are mutually exclusive"@
}

/// The first step of a command line.
pub open spec fn begun<D: Device>(r: Step, cli: Cli) -> bool {
    if cli.verbose && cli.quiet {
        r.fails(exclusive_text(), USAGE_ERROR)
    } else {
        dispatched::<D>(
            r,
            SessionArgs {
                port: cli.port,
                input_port: cli.input_port,
                output_port: cli.output_port,
                device: cli.device,
            },
            cli.command,
        )
    }
}

/// The first step of a command line. The status output of this and of all later
/// steps is that of [`verbosity_of`] its flags.
pub fn dispatch<D: Device>(cli: Cli) -> (r: Step)
    ensures
        begun::<D>(r, cli),
{
    let out = Out::new(verbosity_of(cli.verbose, cli.quiet));
    if cli.verbose && cli.quiet {
        return fail(&out, "--verbose and --quiet are mutually exclusive", USAGE_ERROR);
    }
    let args = SessionArgs {
        port: cli.port,
        input_port: cli.input_port,
        output_port: cli.output_port,
        device: cli.device,
    };
    match cli.command {
        Command::Ports => go(Next::ListPorts),
        Command::Identity => open_session(&out, args, Job::Identity),
        Command::Dump { area, output } => open_session(&out, args, Job::Dump { area, output }),
        Command::Sync { area, input, verify } => open_session(&out, args, Job::Sync { area, input, verify }),
        Command::Show { path } => go(Next::Read { path, then: Reading::Show }),
        Command::Lint { path } => go(Next::Read { path, then: Reading::Lint }),
        Command::Diff { left, right } => go(Next::Read { path: left, then: Reading::DiffLeft { right } }),
        Command::Schema { area } => schema::<D>(&out, area.as_str()),
        Command::Catalog => catalog::<D>(&out),
        Command::Resolve { path, area: _ } => go(Next::Read { path, then: Reading::Resolve }),
    }
}

// === laws ===

proof fn lemma_lines_diff_empty(a: Seq<Seq<char>>, b: Seq<Seq<char>>, n: nat)
    ensures
        lines_diff(a, b, n).len() == 0 <==> forall|i: int| 0 <= i < n ==> #[trigger] line_at(a, i) == line_at(b, i),
    decreases n,
{
    if n > 0 {
        let m = (n - 1) as nat;
        lemma_lines_diff_empty(a, b, m);
        if line_at(a, n - 1) == line_at(b, n - 1) {
            assert(line_diff(line_at(a, n - 1), line_at(b, n - 1)).len() == 0);
            assert forall|i: int| 0 <= i < n && lines_diff(a, b, n).len() == 0 implies #[trigger] line_at(a, i) == line_at(
                b,
                i,
            ) by {}
        } else {
            assert(line_diff(line_at(a, n - 1), line_at(b, n - 1)).len() > 0);
            assert(lines_diff(a, b, n).len() > 0);
        }
    }
}

/// No difference is reported exactly where all lines are equal; a line that one
/// text lacks counts as an empty one.
pub proof fn lemma_no_differences(left: Seq<char>, right: Seq<char>)
    ensures
        ({
            let a = text::lines_of(left);
            let b = text::lines_of(right);
            (forall|i: int| 0 <= i < codec::longer(a.len(), b.len()) ==> #[trigger] line_at(a, i) == line_at(b, i))
                <==> lines_diff(a, b, codec::longer(a.len(), b.len())).len() == 0
        }),
        left == right ==> text_diff(left, right) == seq![Shown::Line("(no differences)"@)],
{
    let a = text::lines_of(left);
    let b = text::lines_of(right);
    lemma_lines_diff_empty(a, b, codec::longer(a.len(), b.len()));
}

/// A device that answers with the very bytes that were written is found to match.
pub proof fn lemma_faithful_device_verifies<D: Device>(r: Step, v: Verbosity, area: Seq<char>, bytes: Seq<u8>, want: Tree)
    requires
        D::decoded(area, bytes) == Ok::<Tree, Fault>(want),
        read_back_compared::<D>(r, v, area, want, bytes),
    ensures
        r.stops(output::status(v, "  verified: read-back matches"@), OK),
{
    value::lemma_same_reflexive(want);
}

/// The bundle names the device and holds its parameters, its catalogs and its
/// defaults, under these names.
pub proof fn lemma_bundle_shape<D: Device>()
    ensures
        value::field(device_bundle::<D>(), "device"@) == Some(Tree::Text(D::NAME@)),
        value::field(device_bundle::<D>(), "params"@) == Some(Tree::Sequence(meta::meta_trees(D::table(), Form::Json))),
        value::field(device_bundle::<D>(), "catalogs"@) == Some(D::value_catalogs().contents()),
        value::field(device_bundle::<D>(), "defaults"@) == Some(Tree::Dict(default_entries::<D>(D::area_list()))),
{
    reveal_strlit("device");
    reveal_strlit("params");
    reveal_strlit("catalogs");
    reveal_strlit("defaults");
    assert("device"@[0] != "params"@[0] && "catalogs"@[0] != "defaults"@[0]);
    assert("device"@.len() == 6 && "params"@.len() == 6 && "catalogs"@.len() == 8 && "defaults"@.len() == 8);
    let fields = seq![
        ("device"@, Tree::Text(D::NAME@)),
        ("params"@, Tree::Sequence(meta::meta_trees(D::table(), Form::Json))),
        ("catalogs"@, D::value_catalogs().contents()),
        ("defaults"@, Tree::Dict(default_entries::<D>(D::area_list()))),
    ];
    value::lemma_record_field(fields, "device"@);
    value::lemma_record_field(fields, "params"@);
    value::lemma_record_field(fields, "catalogs"@);
    value::lemma_record_field(fields, "defaults"@);
    assert(fields[0].0 == "device"@ && fields[1].0 == "params"@ && fields[2].0 == "catalogs"@ && fields[3].0
        == "defaults"@);
}

/// The bundle's defaults hold, for each area, its factory default where it has
/// one, and nothing where it has none.
pub proof fn lemma_default_found<D: Device>(areas: Seq<Area>, i: int)
    requires
        0 <= i < areas.len(),
    ensures
        value::distinct_keys(default_entries::<D>(areas)),
        value::lookup(default_entries::<D>(areas), Tree::Text(areas[i].name@)) == D::default_doc(areas[i].name@),
{
    lemma_default_lookup::<D>(areas, areas[i].name@);
    assert(device::area_names(areas)[i] == areas[i].name@);
}

proof fn lemma_default_lookup<D: Device>(areas: Seq<Area>, name: Seq<char>)
    ensures
        value::distinct_keys(default_entries::<D>(areas)),
        value::lookup(default_entries::<D>(areas), Tree::Text(name)) == (if device::area_names(areas).contains(name) {
            D::default_doc(name)
        } else {
            None
        }),
    decreases areas.len(),
{
    let names = device::area_names(areas);
    if areas.len() > 0 {
        let init = areas.drop_last();
        let before = default_entries::<D>(init);
        let last = areas.last().name@;
        lemma_default_lookup::<D>(init, name);
        lemma_default_lookup::<D>(init, last);
        assert(device::area_names(init) =~= names.drop_last());
        assert(names[areas.len() - 1] == last);
        assert(names.contains(name) <==> (device::area_names(init).contains(name) || name == last)) by {
            if names.contains(name) {
                let k = choose|k: int| 0 <= k < names.len() && names[k] == name;
                if k < init.len() {
                    assert(device::area_names(init)[k] == name);
                }
            }
            if device::area_names(init).contains(name) {
                let k = choose|k: int| 0 <= k < init.len() && device::area_names(init)[k] == name;
                assert(names[k] == name);
            }
        }
        if let Some(t) = D::default_doc(last) {
            value::lemma_inserted_distinct(before, Tree::Text(last), t);
            value::lemma_lookup_inserted(before, Tree::Text(last), t, Tree::Text(name));
        }
    }
}

/// The device answers alike whether a document is of an area, however often it is
/// asked of the same document.
pub open spec fn answers_alike<D: Device>() -> bool {
    forall|area: Area, a: Doc, b: Doc, x: bool, y: bool|
        a@ == b@ && #[trigger] may_answer::<D>(area, a, x) && #[trigger] may_answer::<D>(area, b, y) ==> x == y
}

/// A device that answers alike recognises the same document as the same kind.
proof fn lemma_same_kind<D: Device>(a: Doc, b: Doc, found: Option<usize>, other: Option<usize>)
    requires
        answers_alike::<D>(),
        a@ == b@,
        first_accepting::<D>(a, found),
        first_accepting::<D>(b, other),
    ensures
        found == other,
{
    let areas = D::area_list();
    if let Some(i) = found {
        assert(may_answer::<D>(areas[i as int], a, true));
        match other {
            Some(j) => {
                assert(may_answer::<D>(areas[j as int], b, true));
                if i < j {
                    assert(may_answer::<D>(areas[i as int], b, false));
                } else if j < i {
                    assert(may_answer::<D>(areas[j as int], a, false));
                }
            },
            None => {
                assert(may_answer::<D>(areas[i as int], b, false));
            },
        }
    } else if let Some(j) = other {
        assert(may_answer::<D>(areas[j as int], b, true));
        assert(may_answer::<D>(areas[j as int], a, false));
    }
}

/// The command exists to produce a payload.
pub open spec fn makes_payload(command: Command) -> bool {
    command is Show || command is Schema || command is Catalog || command is Resolve
}

/// Two steps print the same and go on alike.
pub open spec fn alike(a: Step, b: Step) -> bool {
    a.shown() == b.shown() && a.next == b.next
}

/// Showing the same file twice prints the same, of a device that answers alike.
proof fn lemma_show_stable<D: Device>(a: Step, b: Step, path: Seq<char>, content: Result<String, String>)
    requires
        answers_alike::<D>(),
        file_printed::<D>(a, path, content),
        file_printed::<D>(b, path, content),
    ensures
        alike(a, b),
{
    if let Ok(text) = content {
        if let Ok(t) = yaml::parsed(text@) {
            let (x, found) = choose|doc: Doc, found: Option<usize>|
                {
                    &&& doc@ == t
                    &&& #[trigger] first_accepting::<D>(doc, found)
                    &&& a.stops(file_shown(path, label_at(D::area_list(), found), text@), OK)
                };
            let (y, other) = choose|doc: Doc, found: Option<usize>|
                {
                    &&& doc@ == t
                    &&& #[trigger] first_accepting::<D>(doc, found)
                    &&& b.stops(file_shown(path, label_at(D::area_list(), found), text@), OK)
                };
            lemma_same_kind::<D>(x, y, found, other);
        }
    }
}

/// Payloads are stable at any verbosity: take two command lines for `schema`,
/// `catalog`, `resolve` or `show` that differ in `--verbose` and `--quiet` alone,
/// each with one of the two at most. Their first steps `a` and `b` print the same
/// and go on alike; and where these read a file, which for both holds the same, so
/// do the steps `a2` and `b2` that follow. Of `show` this holds of a device that
/// answers alike what kind a document is.
pub proof fn lemma_payloads_stable<D: Device>(
    left: Cli,
    right: Cli,
    a: Step,
    b: Step,
    content: Result<String, String>,
    a2: Step,
    b2: Step,
)
    requires
        left == (Cli { verbose: left.verbose, quiet: left.quiet, ..right }),
        !(left.verbose && left.quiet),
        !(right.verbose && right.quiet),
        makes_payload(left.command),
        left.command is Show ==> answers_alike::<D>(),
        begun::<D>(a, left),
        begun::<D>(b, right),
        a.next matches Next::Read { path, then } ==> read_on::<D>(
            a2,
            asked_verbosity(left.verbose, left.quiet),
            then,
            path,
            content,
        ),
        b.next matches Next::Read { path, then } ==> read_on::<D>(
            b2,
            asked_verbosity(right.verbose, right.quiet),
            then,
            path,
            content,
        ),
    ensures
        alike(a, b),
        a.next is Read ==> alike(a2, b2),
{
    if let Command::Show { path } = left.command {
        lemma_show_stable::<D>(a2, b2, path@, content);
    }
}

}
