use std::collections::BTreeMap;

use midi_access::catalog::Catalogs;
use midi_access::codec::split_sysex;
use midi_access::device::{Area, Device, DeviceError, Inbound};
use midi_access::engine::{
    area_name, catalog_json, collected, dispatch, file_read, find_accepting, log_level, normalize, opened, parent_created,
    paused, ports_listed, print_diff, schema, sent, show, verbosity_of, written, Awaiting, Cli, Command, Job, LogLevel,
    Next, Reading, Sending, Step, IDENTITY_SETTLE, OVERALL, SETTLE, VERIFY_PAUSE,
};
use midi_access::exit_codes::{
    DEVICE_REJECTED, DEVICE_UNAVAILABLE, ENCODE_ERROR, GENERIC_ERROR, INPUT_FILE_ERROR, OK, SYNC_NO_ACK, USAGE_ERROR,
};
use midi_access::handle::{DeviceHandle, MidiConfig};
use midi_access::meta::{Level, ParamMeta, Params};
use midi_access::midi::{find_port, identity_request, port_names, Assembler, Collector, MidiError};
use midi_access::output::{Out, Print, Verbosity};
use midi_access::resolve::resolve_names_str;
use midi_access::value::Doc;
use midi_access::yaml;
use midi_access::yaml_io::{file_text, read_value, schema_header, with_header};

// A tiny fake device: one area, `system`, whose document is `{ n: <0..=127> }`
// encoded as the single SysEx frame `F0 <n> F7`. The `n` field is catalog-
// backed so name resolution is exercised too.

fn doc(text: &str) -> Doc {
    yaml::parse(text).unwrap()
}

struct FakeCats;

impl Catalogs for FakeCats {
    fn resolve(&self, cat: &str, name: &str) -> Option<i64> {
        (cat == "nums" && name.eq_ignore_ascii_case("seven")).then_some(7)
    }
    fn label(&self, cat: &str, value: i64) -> Option<String> {
        (cat == "nums" && value == 7).then(|| "seven".to_string())
    }
    fn names(&self) -> &[&str] {
        &["nums"]
    }
    fn as_value(&self) -> Doc {
        doc("nums:\n- seven")
    }
}

static PARAMS: &[ParamMeta] = &[ParamMeta {
    path: "system.n",
    label: "N",
    group: "Main",
    help: "the value",
    level: Level::Plain,
    kind: None,
    catalog: Some("nums"),
}];
static AREAS: &[Area] = &[Area { name: "system", label: "System", about: "the system area" }];
static CATS: FakeCats = FakeCats;

struct Fake;

impl Device for Fake {
    const NAME: &'static str = "fake";
    type Cats = FakeCats;
    fn areas() -> &'static [Area] {
        AREAS
    }
    fn params() -> Params {
        Params(PARAMS)
    }
    fn catalogs() -> &'static FakeCats {
        &CATS
    }
    fn defaults(area: &str) -> Option<Doc> {
        (area == "system").then(|| doc("n: 0"))
    }
    fn schema(area: &str) -> Option<String> {
        (area == "system").then(|| "{\"title\":\"FakeDoc\"}".to_string())
    }
    fn request(_area: &str, _ch: u8) -> Result<Vec<u8>, DeviceError> {
        Ok(vec![0xF0, 0x7E, 0xF7])
    }
    fn decode(area: &str, dump: &[u8]) -> Result<Doc, DeviceError> {
        if area != "system" {
            return Err(DeviceError::UnknownArea(area.into()));
        }
        let frame =
            split_sysex(dump).into_iter().next().ok_or_else(|| DeviceError::Decode("no frame".into()))?;
        let n = *frame.get(1).ok_or_else(|| DeviceError::Decode("short".into()))?;
        yaml::parse(&format!("n: {n}")).map_err(DeviceError::Decode)
    }
    fn encode(area: &str, doc: &Doc, _ch: u8) -> Result<Vec<u8>, DeviceError> {
        if area != "system" {
            return Err(DeviceError::UnknownArea(area.into()));
        }
        let fields: BTreeMap<String, u8> =
            serde_yaml::from_value(yaml::to_yaml(doc)).map_err(|e| DeviceError::Encode(e.to_string()))?;
        match (fields.len(), fields.get("n")) {
            (1, Some(n)) => Ok(vec![0xF0, *n, 0xF7]),
            _ => Err(DeviceError::Encode("expected exactly the field `n`".into())),
        }
    }
    fn classify_inbound(bytes: &[u8]) -> Inbound {
        if bytes.get(1) == Some(&0x7E) {
            let model = (bytes.get(2) == Some(&1)).then(|| "Fake One".to_string());
            Inbound::Identity { bytes: bytes.to_vec(), model }
        } else {
            Inbound::Other(bytes.to_vec())
        }
    }
}

fn quiet() -> Out {
    Out::new(Verbosity::Quiet)
}

fn normal() -> Out {
    Out::new(Verbosity::Normal)
}

fn code(step: &Step) -> Option<i32> {
    match step.next {
        Next::Finish(code) => Some(code),
        _ => None,
    }
}

fn line(s: &str) -> Print {
    Print::Line(s.to_string())
}

fn error(s: &str) -> Print {
    Print::Complaint(format!("error: {s}"))
}

fn run(command: Command) -> Step {
    dispatch::<Fake>(cli(command))
}

fn cli(command: Command) -> Cli {
    Cli { port: None, input_port: None, output_port: None, device: 0, verbose: false, quiet: false, command }
}

#[test]
fn catalog_bundle_has_standard_shape() {
    let json = catalog_json::<Fake>().unwrap();
    assert!(json.contains("\"device\": \"fake\""));
    assert!(json.contains("\"params\""));
    assert!(json.contains("\"catalogs\""));
    assert!(json.contains("\"defaults\""));
    assert!(json.contains("\"system.n\"")); // a param path
    assert!(json.contains("seven")); // catalog data
}

#[test]
fn area_resolution_is_lenient_and_validating() {
    let out = quiet();
    let mut sink = Vec::new();
    assert_eq!(area_name::<Fake>(&out, &mut sink, "SYSTEM").unwrap(), "system");
    assert!(sink.is_empty());
    assert!(area_name::<Fake>(&out, &mut sink, "nope").is_err());
    assert_eq!(sink, vec![error("unknown area \"nope\" (valid: system)")]);
}

#[test]
fn normalize_round_trips_through_codec() {
    let v = doc("n: 42");
    let s = normalize::<Fake>("system", &v);
    assert_eq!(s.trim(), "n: 42");
}

#[test]
fn normalize_falls_back_to_the_document() {
    assert_eq!(normalize::<Fake>("system", &doc("m: 1")), "m: 1\n");
    assert_eq!(normalize::<Fake>("nope", &doc("n: 1")), "n: 1\n");
}

#[test]
fn schema_command_and_unknown_area() {
    let out = quiet();
    assert_eq!(code(&schema::<Fake>(&out, "system")), Some(OK));
    assert_eq!(code(&schema::<Fake>(&out, "bogus")), Some(USAGE_ERROR));
}

#[test]
fn payloads_do_not_depend_on_verbosity() {
    assert_eq!(schema::<Fake>(&quiet(), "system").prints, vec![line("{\"title\":\"FakeDoc\"}")]);
    assert_eq!(schema::<Fake>(&normal(), "system").prints, vec![line("{\"title\":\"FakeDoc\"}")]);
    let payload = |verbose: bool, quiet: bool, command: Command| {
        let step = dispatch::<Fake>(Cli { verbose, quiet, ..cli(command) });
        let step = match step.next {
            Next::Read { path, then } => {
                let out = Out::new(verbosity_of(verbose, quiet));
                file_read::<Fake>(&out, then, path, Ok("n: 7".to_string()))
            }
            _ => step,
        };
        assert_eq!(code(&step), Some(OK));
        step.prints
    };
    let commands: [fn() -> Command; 4] = [
        || Command::Show { path: "p".to_string() },
        || Command::Resolve { path: "p".to_string(), area: None },
        || Command::Schema { area: "system".to_string() },
        || Command::Catalog,
    ];
    for command in commands {
        let plain = payload(false, false, command());
        assert!(!plain.is_empty());
        assert_eq!(payload(true, false, command()), plain);
        assert_eq!(payload(false, true, command()), plain);
    }
}

#[test]
fn dump_without_port_is_a_usage_error() {
    // `dump` needs a session; with no --port the engine reports a usage error
    // before ever touching MIDI.
    let step = run(Command::Dump { area: "system".to_string(), output: "out.yaml".to_string() });
    assert_eq!(code(&step), Some(USAGE_ERROR));
    assert_eq!(
        step.prints,
        vec![error("--port (or --input-port/--output-port) required; run `ports` to list")]
    );
}

#[test]
fn catalog_via_try_run_succeeds() {
    assert_eq!(code(&run(Command::Catalog)), Some(OK));
}

#[test]
fn resolve_and_show_on_temp_files() {
    // resolve turns the name into its number via the catalog.
    let resolved = resolve_names_str("n: seven\n", Fake::params(), Fake::catalogs()).unwrap();
    assert_eq!(resolved.trim(), "n: 7");
    let step = file_read::<Fake>(&normal(), Reading::Resolve, "p.yaml".to_string(), Ok("n: seven\n".to_string()));
    assert_eq!(step.prints, vec![Print::Text("n: 7\n".to_string())]);
    assert_eq!(code(&step), Some(OK));
    // show identifies the kind for a numeric (encodable) file.
    let step = show::<Fake>(&normal(), "p.yaml", Ok("n: 7\n".to_string()));
    assert_eq!(code(&step), Some(OK));
    assert_eq!(step.prints, vec![line("# p.yaml (System)"), Print::Text("n: 7\n".to_string())]);
}

#[test]
fn show_prints_what_it_does_not_recognise() {
    let raw = |text: &str| show::<Fake>(&normal(), "p", Ok(text.to_string()));
    let heading = line("# p (unrecognized — printing raw)");
    assert_eq!(raw("m: 1").prints, vec![heading.clone(), Print::Text("m: 1".to_string())]);
    assert_eq!(raw("[1").prints, vec![heading, Print::Text("[1".to_string())]);
    let step = show::<Fake>(&quiet(), "p", Err("gone".to_string()));
    assert_eq!(step.prints, vec![error("reading p: gone")]);
    assert_eq!(code(&step), Some(INPUT_FILE_ERROR));
}

#[test]
fn a_device_stores_nothing_unless_it_says_how() {
    let e = Fake::store("system", "1", 0).unwrap_err();
    assert_eq!(e, DeviceError::Other("only working memory can be written".to_string()));
    let h = DeviceHandle::<Fake>::of().with_midi(MidiConfig {
        input_port: Some("p".to_string()),
        output_port: Some("p".to_string()),
        device: 0,
        read_only: false,
    });
    assert_eq!(
        h.sync("system", "n: 1", false, Some("20-8")).unwrap_err(),
        "cannot store to \"20-8\": only working memory can be written"
    );
}

#[test]
fn a_device_accepts_what_it_encodes() {
    assert_eq!(find_accepting::<Fake>(&doc("n: 7")), Some(0));
    assert_eq!(find_accepting::<Fake>(&doc("n: 300")), None);
}

#[test]
fn flags_choose_the_verbosity() {
    assert_eq!(verbosity_of(true, false), Verbosity::Verbose);
    assert_eq!(verbosity_of(false, true), Verbosity::Quiet);
    assert_eq!(verbosity_of(false, false), Verbosity::Normal);
    assert_eq!(log_level(Verbosity::Quiet), LogLevel::Errors);
    assert_eq!(log_level(Verbosity::Normal), LogLevel::Warnings);
    assert_eq!(log_level(Verbosity::Verbose), LogLevel::Everything);
    let mut both = cli(Command::Catalog);
    both.verbose = true;
    both.quiet = true;
    let step = dispatch::<Fake>(both);
    assert_eq!(step.prints, vec![error("--verbose and --quiet are mutually exclusive")]);
    assert_eq!(code(&step), Some(USAGE_ERROR));
}

#[test]
fn sessions_choose_their_ports() {
    let mut c = cli(Command::Identity);
    c.port = Some("CK".to_string());
    c.output_port = Some("Out".to_string());
    c.device = 15;
    match dispatch::<Fake>(c).next {
        Next::Open { input, output, device, then } => {
            assert_eq!((input.as_str(), output.as_str(), device), ("CK", "Out", 15));
            assert!(matches!(then, Job::Identity));
        }
        _ => panic!("a session"),
    }
    let mut c = cli(Command::Identity);
    c.port = Some("CK".to_string());
    c.device = 16;
    let step = dispatch::<Fake>(c);
    assert_eq!(step.prints, vec![error("--device 16 out of range (0..=15)")]);
    assert_eq!(code(&step), Some(USAGE_ERROR));
    let mut c = cli(Command::Identity);
    c.input_port = Some("CK".to_string());
    assert_eq!(code(&dispatch::<Fake>(c)), Some(USAGE_ERROR));
}

#[test]
fn a_session_that_does_not_open_is_reported() {
    let e = MidiError::PortNotFound { kind: "input", needle: "CK".to_string() };
    let step = opened::<Fake>(&quiet(), Job::Identity, 0, Err(e));
    assert_eq!(step.prints, vec![error("no MIDI input port matches \"CK\"")]);
    assert_eq!(code(&step), Some(DEVICE_UNAVAILABLE));
}

#[test]
fn ports_are_listed() {
    assert!(matches!(run(Command::Ports).next, Next::ListPorts));
    let step = ports_listed(&quiet(), Ok((vec!["A".to_string()], vec!["B".to_string(), "C".to_string()])));
    assert_eq!(
        step.prints,
        vec![line("Input ports:"), line("  - A"), line("\nOutput ports:"), line("  - B"), line("  - C")]
    );
    assert_eq!(code(&step), Some(OK));
    let step = ports_listed(&quiet(), Err(MidiError::Open("x".to_string())));
    assert_eq!(step.prints, vec![error("failed to open MIDI port: x")]);
    assert_eq!(code(&step), Some(DEVICE_UNAVAILABLE));
}

#[test]
fn identity_reports_the_first_reply() {
    match opened::<Fake>(&normal(), Job::Identity, 0, Ok(())).next {
        Next::Exchange { request, settle, overall, then } => {
            assert_eq!(request, identity_request());
            assert_eq!(request, vec![0xF0, 0x7E, 0x7F, 0x06, 0x01, 0xF7]);
            assert_eq!((settle, overall), (IDENTITY_SETTLE, OVERALL));
            assert!(matches!(then, Awaiting::Identity));
        }
        _ => panic!("an exchange"),
    }
    let reply = |raw: &[u8]| collected::<Fake>(&normal(), Awaiting::Identity, Ok(raw.to_vec()));
    let step = reply(&[0xF0, 0x01, 0xF7, 0xF0, 0x7E, 0x01, 0xAB, 0xF7]);
    assert_eq!(step.prints, vec![line("reply: F0 7E 01 AB F7"), line("  -> Fake One detected")]);
    assert_eq!(code(&step), Some(OK));
    let step = reply(&[0xF0, 0x7E, 0x02, 0xF7]);
    assert_eq!(
        step.prints,
        vec![line("reply: F0 7E 02 F7"), line("  -> not recognised (family bytes didn't match)")]
    );
    let step = reply(&[0xF0, 0x01, 0xF7]);
    assert_eq!(step.prints, vec![error("no identity reply received")]);
    assert_eq!(code(&step), Some(DEVICE_UNAVAILABLE));
}

#[test]
fn dump_goes_from_request_to_file() {
    let out = normal();
    let job = Job::Dump { area: "SYSTEM".to_string(), output: "d/out.yaml".to_string() };
    let awaiting = match opened::<Fake>(&out, job, 3, Ok(())).next {
        Next::Exchange { request, settle, overall, then } => {
            assert_eq!(request, vec![0xF0, 0x7E, 0xF7]);
            assert_eq!((settle, overall), (SETTLE, OVERALL));
            then
        }
        _ => panic!("an exchange"),
    };
    let (path, area, held) = match collected::<Fake>(&out, awaiting, Ok(vec![0xF0, 42, 0xF7])).next {
        Next::CreateParent { path, area, doc } => (path, area, doc),
        _ => panic!("a directory"),
    };
    let (path, text) = match parent_created::<Fake>(&out, path, area, &held, Ok(())).next {
        Next::Write { path, text } => (path, text),
        _ => panic!("a file"),
    };
    assert_eq!(path, "d/out.yaml");
    assert_eq!(text, "# yaml-language-server: $schema=./schemas/fake-system.schema.json\nn: 42\n");
    let step = written(&out, &path, Ok(()));
    assert_eq!(step.prints, vec![line("wrote d/out.yaml")]);
    assert_eq!(code(&step), Some(OK));
}

#[test]
fn dump_reports_what_fails() {
    let out = quiet();
    let job = Job::Dump { area: "nope".to_string(), output: "o".to_string() };
    assert_eq!(code(&opened::<Fake>(&out, job, 0, Ok(()))), Some(USAGE_ERROR));
    let awaiting = || Awaiting::Dump { area: "system", output: "o".to_string() };
    let step = collected::<Fake>(&out, awaiting(), Ok(vec![]));
    assert_eq!(
        step.prints,
        vec![error("no dump received (check --device and MIDI In/Out on the device)")]
    );
    assert_eq!(code(&step), Some(DEVICE_UNAVAILABLE));
    let step = collected::<Fake>(&out, awaiting(), Err(MidiError::Timeout(2500)));
    assert_eq!(step.prints, vec![error("timed out after 2.5s waiting for a reply from the device")]);
    assert_eq!(code(&step), Some(DEVICE_UNAVAILABLE));
    let step = collected::<Fake>(&out, awaiting(), Ok(vec![1]));
    assert_eq!(step.prints, vec![error("decode: no frame")]);
    assert_eq!(code(&step), Some(GENERIC_ERROR));
    let failed = Err(("d".to_string(), "denied".to_string()));
    let step = parent_created::<Fake>(&out, "d/o".to_string(), "system", &doc("n: 1"), failed);
    assert_eq!(step.prints, vec![error("creating d: denied")]);
    assert_eq!(code(&step), Some(GENERIC_ERROR));
    let step = written(&out, "d/o", Err("full".to_string()));
    assert_eq!(step.prints, vec![error("writing d/o: full")]);
    assert_eq!(code(&step), Some(GENERIC_ERROR));
}

fn sync_job(verify: bool) -> Job {
    Job::Sync { area: "system".to_string(), input: "in.yaml".to_string(), verify }
}

fn sending(verify: bool, text: &str) -> Sending {
    let out = normal();
    let (path, reading) = match opened::<Fake>(&out, sync_job(verify), 2, Ok(())).next {
        Next::Read { path, then } => (path, then),
        _ => panic!("a file"),
    };
    match file_read::<Fake>(&out, reading, path, Ok(text.to_string())).next {
        Next::Send(s) => s,
        _ => panic!("a write"),
    }
}

#[test]
fn sync_resolves_names_and_sends() {
    let s = sending(false, "n: Seven");
    assert_eq!(s.bytes, vec![0xF0, 7, 0xF7]);
    assert_eq!((s.area, s.device, s.input.as_str()), ("system", 2, "in.yaml"));
    let step = sent(&normal(), s, Ok(()));
    assert_eq!(step.prints, vec![line("sent system from in.yaml")]);
    assert_eq!(code(&step), Some(OK));
}

#[test]
fn sync_verifies_what_it_sent() {
    let out = normal();
    let step = sent(&quiet(), sending(true, "n: 7"), Ok(()));
    assert!(step.prints.is_empty());
    let s = match step.next {
        Next::Pause { millis, then } => {
            assert_eq!(millis, VERIFY_PAUSE);
            then
        }
        _ => panic!("a pause"),
    };
    let awaiting = || match paused::<Fake>(&out, sending(true, "n: 7")).next {
        Next::Exchange { then, .. } => then,
        _ => panic!("an exchange"),
    };
    let faithful = collected::<Fake>(&out, awaiting(), Ok(s.bytes));
    assert_eq!(faithful.prints, vec![line("  verified: read-back matches")]);
    assert_eq!(code(&faithful), Some(OK));
    let differs = collected::<Fake>(&out, awaiting(), Ok(vec![0xF0, 8, 0xF7]));
    assert_eq!(differs.prints, vec![error("verify FAILED: read-back differs from what we sent")]);
    assert_eq!(code(&differs), Some(DEVICE_REJECTED));
    let broken = collected::<Fake>(&out, awaiting(), Ok(vec![1]));
    assert_eq!(broken.prints, vec![error("verify decode failed: decode: no frame")]);
    assert_eq!(code(&broken), Some(DEVICE_REJECTED));
    // A device that says nothing has not acknowledged the write.
    let mute = collected::<Fake>(&out, awaiting(), Ok(vec![]));
    assert_eq!(mute.prints, vec![error("verify decode failed: decode: no frame")]);
    assert_eq!(code(&mute), Some(SYNC_NO_ACK));
    let silent = collected::<Fake>(&out, awaiting(), Err(MidiError::Send("x".to_string())));
    assert_eq!(silent.prints, vec![error("MIDI send failed: x")]);
    assert_eq!(code(&silent), Some(SYNC_NO_ACK));
}

#[test]
fn sync_reports_what_fails() {
    let out = quiet();
    let reading = || Reading::Sync { area: "system", device: 0, verify: false };
    let step = file_read::<Fake>(&out, reading(), "p".to_string(), Err("gone".to_string()));
    assert_eq!(step.prints, vec![error("reading p: gone")]);
    assert_eq!(code(&step), Some(INPUT_FILE_ERROR));
    let step = file_read::<Fake>(&out, reading(), "p".to_string(), Ok("n: [1".to_string()));
    assert_eq!(code(&step), Some(INPUT_FILE_ERROR));
    let step = file_read::<Fake>(&out, reading(), "p".to_string(), Ok("n: 300".to_string()));
    assert_eq!(code(&step), Some(ENCODE_ERROR));
    let step = sent(&out, sending(true, "n: 7"), Err(MidiError::Send("x".to_string())));
    assert_eq!(code(&step), Some(DEVICE_UNAVAILABLE));
    let job = Job::Sync { area: "nope".to_string(), input: "p".to_string(), verify: false };
    assert_eq!(code(&opened::<Fake>(&out, job, 0, Ok(()))), Some(USAGE_ERROR));
}

#[test]
fn lint_names_the_kind() {
    let lint = |text: &str| {
        file_read::<Fake>(&normal(), Reading::Lint, "p.yaml".to_string(), Ok(text.to_string()))
    };
    let step = lint("n: 7");
    assert_eq!(step.prints, vec![line("OK: p.yaml is a valid System")]);
    assert_eq!(code(&step), Some(OK));
    let step = lint("m: 7");
    assert_eq!(step.prints, vec![error("p.yaml parses as none of: System")]);
    assert_eq!(code(&step), Some(INPUT_FILE_ERROR));
    assert_eq!(code(&lint("[1")), Some(INPUT_FILE_ERROR));
}

fn diff(left: &str, right: &str) -> Step {
    let out = normal();
    let (path, reading) =
        match run(Command::Diff { left: "l".to_string(), right: "r".to_string() }).next {
            Next::Read { path, then } => (path, then),
            _ => panic!("the left file"),
        };
    assert_eq!(path, "l");
    let step = file_read::<Fake>(&out, reading, path, Ok(left.to_string()));
    match step.next {
        Next::Read { path, then } => {
            assert_eq!(path, "r");
            file_read::<Fake>(&out, then, path, Ok(right.to_string()))
        }
        _ => step,
    }
}

#[test]
fn diff_compares_documents_of_one_kind() {
    let step = diff("n: 7", "n: 8");
    assert_eq!(step.prints, vec![line("  n: 7  →  8")]);
    assert_eq!(code(&step), Some(OK));
    assert_eq!(diff("n: 7", "{\"n\": 7}").prints, vec![line("(no differences)")]);
    let step = diff("n: 7", "m: 8");
    assert_eq!(step.prints, vec![error("both files must be the same recognised kind")]);
    assert_eq!(code(&step), Some(USAGE_ERROR));
    assert_eq!(code(&diff("[1", "n: 8")), Some(INPUT_FILE_ERROR));
    assert_eq!(code(&diff("n: 7", "[1")), Some(INPUT_FILE_ERROR));
}

#[test]
fn differences_are_shown_line_by_line() {
    let prints = print_diff("a: 1\r\nb : 2\n- x\nd: e:f\n", "a: 1\nb: 3\n- y\nz: 1\nmore");
    assert_eq!(
        prints,
        vec![
            line("  b: 2  →  3"),
            line("- - x"),
            line("+ - y"),
            line("- d: e:f"),
            line("+ z: 1"),
            line("- "),
            line("+ more"),
        ]
    );
    assert_eq!(print_diff("t:\u{a0}1\n", "t: 2"), vec![line("  t: 1  →  2")]);
    assert_eq!(print_diff("", ""), vec![line("(no differences)")]);
    assert_eq!(print_diff("a\n\n", "a"), vec![line("(no differences)")]);
}

#[test]
fn resolve_reports_what_fails() {
    let step = file_read::<Fake>(&quiet(), Reading::Resolve, "p".to_string(), Err("gone".to_string()));
    assert_eq!(step.prints, vec![error("reading p: gone")]);
    let step = file_read::<Fake>(&quiet(), Reading::Resolve, "p".to_string(), Ok("[1".to_string()));
    assert_eq!(code(&step), Some(INPUT_FILE_ERROR));
    match &step.prints[0] {
        Print::Complaint(m) => assert!(m.starts_with("error: resolve names: ")),
        _ => panic!("an error"),
    }
}

// === files ===

#[test]
fn files_have_a_schema_header() {
    assert_eq!(
        schema_header("ck", "live-set"),
        "# yaml-language-server: $schema=./schemas/ck-live-set.schema.json"
    );
    let text = file_text("ck", "system", &doc("a: 1")).unwrap();
    assert_eq!(text, format!("{}\na: 1\n", schema_header("ck", "system")));
    assert_eq!(with_header("ck", "system", "a: 1\n"), text);
    assert_eq!(read_value("p", Ok(text)).unwrap().get("a").unwrap().as_i64(), Some(1));
    assert_eq!(read_value("p", Err("x".to_string())).unwrap_err(), "reading p: x");
    assert!(read_value("p", Ok("[1".to_string())).unwrap_err().starts_with("parsing YAML from p: "));
}

// === MIDI ===

#[test]
fn ports_are_found_by_part_of_their_name() {
    let names = vec![None, Some("Midi Through".to_string()), Some("CK Séries 1".to_string())];
    assert_eq!(find_port(&names, "SÉRIES", "input"), Ok(2));
    assert_eq!(find_port(&names, "", "input"), Ok(1));
    assert_eq!(
        find_port(&names, "x", "output"),
        Err(MidiError::PortNotFound { kind: "output", needle: "x".to_string() })
    );
    assert_eq!(port_names(names), vec!["<unknown>", "Midi Through", "CK Séries 1"]);
}

#[test]
fn midi_errors_read_well() {
    assert_eq!(MidiError::Timeout(600).message(), "timed out after 600ms waiting for a reply from the device");
    assert_eq!(MidiError::Send("x".to_string()).message(), "MIDI send failed: x");
    assert_eq!(MidiError::Open("x".to_string()).message(), "failed to open MIDI port: x");
}

#[test]
fn chunks_are_put_together() {
    let stream = [0x01, 0xF0, 0x02, 0xF7, 0xF8, 0xF0, 0x03, 0x04, 0xF7, 0xF0];
    let whole = split_sysex(&stream);
    for cut in 0..=stream.len() {
        let mut a = Assembler::new();
        let mut frames = a.reassemble(&stream[..cut]);
        frames.extend(a.reassemble(&stream[cut..]));
        assert_eq!(frames, whole);
    }
    for size in 1..=stream.len() {
        let mut a = Assembler::new();
        let mut frames = Vec::new();
        for chunk in stream.chunks(size) {
            frames.extend(a.reassemble(chunk));
        }
        assert_eq!(frames, whole);
    }
}

#[test]
fn answers_are_collected_until_the_device_goes_idle() {
    let mut c = Collector::new(100, 2500);
    assert_eq!(c.wait(100), Some(2500));
    assert_eq!(c.wait(2599), Some(1));
    assert_eq!(c.wait(2600), None);
    c.frame(&[1, 2], 300, 600);
    assert_eq!(c.wait(300), Some(600));
    c.frame(&[3], 800, 600);
    assert_eq!(c.wait(1400), None);
    assert_eq!(c.buf, vec![1, 2, 3]);
    assert_eq!(Collector::new(u64::MAX - 1, 10).wait(0), Some(u64::MAX));
}

// === output ===

#[test]
fn verbosity_gates_status_lines() {
    let all = |v: Verbosity| {
        let out = Out::new(v);
        let mut sink = Vec::new();
        out.info(&mut sink, "i");
        out.detail(&mut sink, "d");
        out.warn(&mut sink, "w");
        out.error(&mut sink, "e");
        sink
    };
    let warning = Print::Complaint("warning: w".to_string());
    assert_eq!(all(Verbosity::Quiet), vec![warning.clone(), error("e")]);
    assert_eq!(all(Verbosity::Normal), vec![line("i"), warning.clone(), error("e")]);
    assert_eq!(all(Verbosity::Verbose), vec![line("i"), line("d"), warning, error("e")]);
    assert_eq!(Out::default().verbosity, Verbosity::default());
    assert!(Out::new(Verbosity::Quiet).is_quiet() && Out::new(Verbosity::Verbose).is_verbose());
}
