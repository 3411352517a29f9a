use std::collections::BTreeMap;

use midi_access::catalog::Catalogs;
use midi_access::device::{Area, Device, DeviceError, Inbound};
use midi_access::handle::{DeviceHandle, MidiConfig};
use midi_access::meta::{Level, ParamMeta, Params};
use midi_access::midi::MidiError;
use midi_access::plan::{Commit, Synced};
use midi_access::tools::{self, DumpArgs, GetCatalogArgs, ResolveNamesArgs, SearchParamsArgs, SyncArgs, ValidateArgs};
use midi_access::value::Doc;
use midi_access::yaml;

// A fake device: one area, `system`, whose document is `{ n: 0..=255 }`
// encoded as the single frame `F0 <n> F7`. `n` is catalog-backed, so name
// resolution is exercised.

fn doc(text: &str) -> Doc {
    yaml::parse(text).unwrap()
}

struct FakeCats;

impl Catalogs for FakeCats {
    fn resolve(&self, cat: &str, name: &str) -> Option<i64> {
        (cat == "nums" && name.eq_ignore_ascii_case("seven")).then_some(7)
    }
    fn label(&self, cat: &str, value: i64) -> Option<String> {
        (cat == "nums" && value == 7).then(|| "seven".to_string())
    }
    fn names(&self) -> &[&str] {
        &["nums"]
    }
    fn as_value(&self) -> Doc {
        doc("nums:\n- {value: 7, label: seven}\n- {value: 8, label: eight}")
    }
}

static PARAMS: &[ParamMeta] = &[
    ParamMeta {
        path: "system.n",
        label: "The N",
        group: "Main",
        help: "how much n",
        level: Level::Plain,
        kind: None,
        catalog: Some("nums"),
    },
    ParamMeta {
        path: "system.cutoff",
        label: "Cutoff",
        group: "Filter",
        help: "brightness",
        level: Level::Magnitude,
        kind: None,
        catalog: None,
    },
];
static AREAS: &[Area] = &[Area { name: "system", label: "System", about: "the system area" }];
static CATS: FakeCats = FakeCats;

struct Fake;

impl Device for Fake {
    const NAME: &'static str = "fake";
    type Cats = FakeCats;
    fn areas() -> &'static [Area] {
        AREAS
    }
    fn params() -> Params {
        Params(PARAMS)
    }
    fn catalogs() -> &'static FakeCats {
        &CATS
    }
    fn defaults(area: &str) -> Option<Doc> {
        (area == "system").then(|| doc("n: 0"))
    }
    fn schema(area: &str) -> Option<String> {
        (area == "system").then(|| r#"{"title":"FakeDoc"}"#.to_string())
    }
    fn request(_: &str, _: u8) -> Result<Vec<u8>, DeviceError> {
        Ok(vec![])
    }
    fn decode(_: &str, dump: &[u8]) -> Result<Doc, DeviceError> {
        match dump {
            [0xF0, n, 0xF7] => Ok(doc(&format!("n: {n}"))),
            _ => Err(DeviceError::Decode("n/a".into())),
        }
    }
    fn encode(area: &str, doc: &Doc, _: u8) -> Result<Vec<u8>, DeviceError> {
        if area != "system" {
            return Err(DeviceError::UnknownArea(area.into()));
        }
        let fields: BTreeMap<String, u8> =
            serde_yaml::from_value(yaml::to_yaml(doc)).map_err(|e| DeviceError::Encode(e.to_string()))?;
        match (fields.len(), fields.get("n")) {
            (1, Some(n)) => Ok(vec![0xF0, *n, 0xF7]),
            _ => Err(DeviceError::Encode("expected exactly the field `n`".into())),
        }
    }
    fn classify_inbound(b: &[u8]) -> Inbound {
        Inbound::Other(b.to_vec())
    }
    fn store(_area: &str, destination: &str, _ch: u8) -> Result<Vec<u8>, DeviceError> {
        match destination.parse::<u8>() {
            Ok(slot) if slot <= 8 => Ok(vec![0xF0, 0x55, slot, 0xF7]),
            _ => Err(DeviceError::Other("no such slot".into())),
        }
    }
}

fn handle() -> DeviceHandle<Fake> {
    DeviceHandle::<Fake>::of()
}

fn wired(read_only: bool) -> DeviceHandle<Fake> {
    handle().with_midi(MidiConfig {
        input_port: Some("nonexistent".into()),
        output_port: Some("nonexistent".into()),
        device: 0,
        read_only,
    })
}

fn done(r: Result<Synced, String>) -> Doc {
    match r {
        Ok(Synced::Done(receipt)) => receipt,
        _ => panic!("nothing is left to do"),
    }
}

fn field<'a>(d: &'a Doc, key: &str) -> &'a Doc {
    d.get(key).unwrap()
}

fn number(d: &Doc, key: &str) -> i64 {
    field(d, key).as_i64().unwrap()
}

fn truth(d: &Doc, key: &str) -> bool {
    field(d, key).as_bool().unwrap()
}

fn text<'a>(d: &'a Doc, key: &str) -> &'a str {
    field(d, key).as_str().unwrap()
}

fn list<'a>(d: &'a Doc, key: &str) -> &'a Vec<Doc> {
    field(d, key).as_sequence().unwrap()
}

fn texts<'a>(d: &'a Doc, key: &str) -> Vec<&'a str> {
    list(d, key).iter().map(|t| t.as_str().unwrap()).collect()
}

#[test]
fn describe_orients_the_caller() {
    let d = handle().describe();
    assert_eq!(text(&d, "device"), "fake");
    assert_eq!(number(&d, "param_count"), 2);
    let area = &list(&d, "areas")[0];
    assert_eq!(text(area, "name"), "system");
    assert!(truth(area, "has_schema"));
    assert!(truth(area, "has_defaults"));
    // Groups are de-duplicated in table order.
    assert_eq!(texts(&d, "param_groups"), ["Main", "Filter"]);
    // Catalog sizes are advertised so the caller knows to filter.
    let catalog = &list(&d, "catalogs")[0];
    assert_eq!(text(catalog, "name"), "nums");
    assert_eq!(number(catalog, "entries"), 2);
    let uris = texts(&d, "resources");
    assert!(uris.contains(&"schema://system"));
    assert!(uris.contains(&"defaults://system"));
}

#[test]
fn search_params_matches_help_and_group_and_reports_truncation() {
    let h = handle();
    // Matches on help text, not just label.
    let r = h.search_params(Some("brightness"), None, 50);
    assert_eq!(number(&r, "total"), 1);
    assert_eq!(text(&list(&r, "params")[0], "path"), "system.cutoff");
    // `level` is serialized as the historical bool.
    assert!(truth(&list(&r, "params")[0], "level"));

    // Group filter.
    assert_eq!(number(&h.search_params(None, Some("Main"), 50), "total"), 1);
    // Limit surfaces truncation rather than silently dropping.
    let r = h.search_params(None, None, 1);
    assert_eq!(number(&r, "total"), 2);
    assert_eq!(number(&r, "returned"), 1);
    assert!(truth(&r, "truncated"));
}

#[test]
fn search_params_ignores_case() {
    let h = handle();
    assert_eq!(number(&h.search_params(Some("THE n"), Some("mAIN"), 50), "total"), 1);
    assert_eq!(number(&h.search_params(Some("main how"), None, 50), "total"), 1);
    assert_eq!(number(&h.search_params(Some("nowhere"), None, 50), "total"), 0);
    assert_eq!(number(&h.search_params(None, None, 0), "returned"), 0);
}

#[test]
fn get_catalog_filters_pages_and_rejects_unknown_names() {
    let h = handle();
    let all = h.get_catalog("nums", None, 50, 0).unwrap();
    assert_eq!(number(&all, "total"), 2);

    let filtered = h.get_catalog("nums", Some("SEVEN"), 50, 0).unwrap();
    assert_eq!(number(&filtered, "total"), 1);
    assert_eq!(text(&list(&filtered, "entries")[0], "label"), "seven");

    let paged = h.get_catalog("nums", None, 1, 1).unwrap();
    assert_eq!(number(&paged, "returned"), 1);
    assert!(!truth(&paged, "truncated"));
    assert_eq!(text(&list(&paged, "entries")[0], "label"), "eight");

    let err = h.get_catalog("nope", None, 50, 0).unwrap_err();
    assert!(err.contains("unknown catalog"), "{err}");
    assert!(err.contains("nums"), "should list what is available: {err}");
}

#[test]
fn get_catalog_searches_the_json_of_an_entry() {
    let h = handle();
    // The keys of an entry stand in its JSON, in order.
    let found = h.get_catalog("nums", Some("\"label\":\"eight\",\"value\":8"), 50, 0).unwrap();
    assert_eq!(number(&found, "total"), 1);
    let past = h.get_catalog("nums", None, 50, usize::MAX).unwrap();
    assert_eq!((number(&past, "returned"), truth(&past, "truncated")), (0, false));
    let first = h.get_catalog("nums", None, 1, 0).unwrap();
    assert!(truth(&first, "truncated"));
    assert_eq!(h.get_catalog("nope", None, 1, 0).unwrap_err(), "unknown catalog \"nope\" (available: nums)");
}

#[test]
fn validate_is_the_ground_truth() {
    let h = handle();
    let ok = h.validate("system", "n: 42");
    assert!(truth(&ok, "ok"));
    assert_eq!(number(&ok, "encoded_bytes"), 3);

    // Out of range for u8: parses as YAML, fails to encode.
    let bad = h.validate("system", "n: 300");
    assert!(!truth(&bad, "ok"));
    assert!(text(&bad, "error").contains("300"));

    // Malformed YAML.
    assert!(!truth(&h.validate("system", "n: [unclosed"), "ok"));

    // Unknown area names the valid ones.
    let unknown = h.validate("bogus", "n: 1");
    assert!(!truth(&unknown, "ok"));
    assert!(text(&unknown, "error").contains("system"));
}

#[test]
fn validate_says_what_is_wrong() {
    let h = handle();
    assert_eq!(text(&h.validate("bogus", "n: 1"), "error"), "unknown area (valid: system)");
    let bad = h.validate("SYSTEM", "n: 300");
    assert_eq!(text(&bad, "area"), "system");
    assert!(!truth(&bad, "parses_as_area"));
    assert!(text(&bad, "error").starts_with("encode: "));
    assert!(text(&h.validate("system", "n: [unclosed"), "error").starts_with("YAML: "));
}

#[test]
fn resolve_names_rewrites_names_and_passes_numbers_through() {
    let h = handle();
    assert_eq!(h.resolve_names("n: seven").unwrap().trim(), "n: 7");
    assert_eq!(h.resolve_names("n: 9").unwrap().trim(), "n: 9");
    // Unknown names are left alone rather than erroring.
    assert_eq!(h.resolve_names("n: nope").unwrap().trim(), "n: nope");
    assert!(h.resolve_names("n: [unclosed").is_err());
}

#[test]
fn resources_resolve_by_uri() {
    let h = handle();
    assert!(h.read_resource("schema://system").unwrap().contains("FakeDoc"));
    assert!(h.read_resource("defaults://system").unwrap().contains("n: 0"));
    // Area matching is lenient, like the CLI's.
    assert!(h.read_resource("schema://SYSTEM").is_some());
    assert!(h.read_resource("schema://bogus").is_none());
    assert!(h.read_resource("nonsense").is_none());
}

#[test]
fn listed_resources_can_be_read() {
    let h = handle();
    let resources = h.resources();
    assert_eq!(resources.len(), 2);
    assert_eq!(resources[0].uri, "schema://system");
    assert_eq!(resources[0].name, "System JSON Schema");
    assert_eq!(resources[0].description, "JSON Schema for the `system` document.");
    assert_eq!(resources[0].mime_type, "application/json");
    assert_eq!(resources[1].name, "System defaults");
    assert_eq!(resources[1].description, "Factory-default `system` document, as YAML.");
    assert_eq!(resources[1].mime_type, "application/yaml");
    for (r, uri) in resources.iter().zip(h.uris()) {
        assert_eq!(r.uri, uri);
        assert!(h.read_resource(&uri).is_some());
    }
    assert!(h.read_resource("other://system").is_none());
}

#[test]
fn get_info_advertises_tools_resources_and_the_device() {
    let h = handle();
    assert_eq!(h.server_name(), "fake-mcp");
    let instr = h.instructions();
    assert!(instr.contains("fake"));
    // With no port configured, the handshake says so up front.
    assert!(instr.contains("No MIDI port is configured"));
}

#[test]
fn get_info_describes_the_io_posture() {
    assert!(handle().instructions().contains("No MIDI port is configured"));

    let ro = handle().with_midi(MidiConfig { read_only: true, ..MidiConfig::default() });
    assert!(ro.instructions().contains("read-only"));

    let live = handle().with_midi(MidiConfig {
        input_port: Some("CK".into()),
        output_port: Some("CK".into()),
        ..MidiConfig::default()
    });
    let i = live.instructions();
    assert!(i.contains("`dump` reads"));
    assert!(i.contains("overwrites it permanently"));
    assert!(i.starts_with(
        "Authoring tools for the fake MIDI device. Editable areas: system.\n\nStart with `describe_device`."
    ));
}

#[test]
fn device_io_without_a_port_reports_how_to_fix_it() {
    // No MidiConfig: `dump`/`sync` must explain themselves rather than hang or
    // open some arbitrary port.
    let h = handle();
    let e = h.dump("system").unwrap_err();
    assert!(e.contains("no MIDI port configured"), "{e}");
    assert!(e.contains("list_ports"), "should point at the fix: {e}");

    let e = h.sync("system", "n: 1", false, None).unwrap_err();
    assert!(e.contains("no MIDI port configured"), "{e}");
}

#[test]
fn read_only_refuses_sync_before_touching_midi() {
    let h = wired(true);
    let e = h.sync("system", "n: 1", false, None).unwrap_err();
    assert!(e.contains("read-only"), "{e}");
    // Reads are still allowed (this one fails on the bogus port, not on policy).
    let plan = h.dump("system").unwrap();
    let e = MidiError::PortNotFound { kind: "input", needle: plan.ports.input };
    assert!(!h.dumped(plan.area, Err(e)).unwrap_err().contains("read-only"));
}

#[test]
fn sync_validates_the_area_and_document_before_opening_a_port() {
    let h = wired(false);
    // Bad area and bad YAML must be caught without any MIDI traffic.
    assert!(h.sync("bogus", "n: 1", false, None).unwrap_err().contains("unknown area"));
    assert!(h.sync("system", "n: [unclosed", false, None).unwrap_err().contains("YAML"));
}

#[test]
fn sync_completes_and_confirms_a_document() {
    let h = wired(false);
    let plan = h.sync("System", "n: seven", true, None).unwrap();
    assert_eq!((plan.area, plan.bytes), ("system", vec![0xF0, 7, 0xF7]));
    let want = plan.read_back.unwrap().want;
    assert_eq!(number(&want, "n"), 7);
    let plan = h.sync_document("system", doc("n: 9"), false).unwrap();
    assert_eq!((plan.bytes, plan.read_back.is_none()), (vec![0xF0, 9, 0xF7], true));
    // What is left out comes from the factory default.
    assert_eq!(h.sync("system", "{}", false, None).unwrap().bytes, vec![0xF0, 0, 0xF7]);
    let done = done(h.synced("system", 3, Ok(()), Some((want.clone(), Ok(vec![0xF0, 7, 0xF7]))), None));
    assert_eq!((text(&done, "area"), number(&done, "sent_bytes"), truth(&done, "verified")), ("system", 3, true));
    assert!(field(&done, "stored").as_str().is_none());
    let slot = || Some(Commit { destination: "1".into(), bytes: vec![1] });
    let e = h.synced("system", 3, Ok(()), Some((want.clone(), Ok(vec![0xF0, 8, 0xF7]))), slot()).unwrap_err();
    assert_eq!(e, "verify FAILED: read-back differs from what we sent");
    let e = h.synced("system", 3, Ok(()), Some((want.clone(), Ok(vec![]))), slot()).unwrap_err();
    assert_eq!(e, "verify decode failed: decode: n/a");
    let e = h.synced("system", 3, Ok(()), Some((want, Err(MidiError::Send("x".into())))), slot()).unwrap_err();
    assert_eq!(e, "MIDI send failed: x");
    let e = h.synced("system", 3, Err(MidiError::Send("x".into())), None, slot()).unwrap_err();
    assert_eq!(e, "MIDI send failed: x");
}

#[test]
fn sync_writes_no_more_than_working_memory_unless_told_to() {
    let h = wired(false);
    let plain = h.sync("system", "n: 1", true, None).unwrap();
    assert!(plain.store.is_none());
    let kept = h.sync("system", "n: 1", true, Some("8")).unwrap();
    assert_eq!(kept.bytes, plain.bytes);
    assert_eq!(kept.read_back.unwrap().request, plain.read_back.unwrap().request);
    let commit = kept.store.unwrap();
    assert_eq!((commit.destination.as_str(), commit.bytes.as_slice()), ("8", &[0xF0, 0x55, 8, 0xF7][..]));
    let next = h.synced("system", 3, Ok(()), None, Some(commit)).unwrap();
    let (commit, verified) = match next {
        Synced::Store { commit, verified } => (commit, verified),
        Synced::Done(_) => panic!("a slot is still to be written"),
    };
    assert!(!verified);
    let done = h.stored("system", 3, verified, commit.destination, Ok(())).unwrap();
    assert_eq!((text(&done, "stored"), number(&done, "sent_bytes"), truth(&done, "verified")), ("8", 3, false));
    let e = h.stored("system", 3, true, "8".into(), Err(MidiError::Send("x".into()))).unwrap_err();
    assert_eq!(e, "cannot store to \"8\": MIDI send failed: x");
    // A read-only server writes no slot either.
    assert!(wired(true).sync("system", "n: 1", false, Some("8")).unwrap_err().contains("read-only"));
}

#[test]
fn sync_refuses_what_it_cannot_do() {
    let h = wired(false);
    assert_eq!(
        h.sync("system", "n: 1", false, Some("20-8")).unwrap_err(),
        "cannot store to \"20-8\": no such slot"
    );
    assert!(h.sync("system", "n: 300", false, None).unwrap_err().starts_with("encode: "));
}

#[test]
fn dumps_come_back_as_yaml() {
    let h = wired(true);
    let plan = h.dump("SYSTEM").unwrap();
    assert_eq!((plan.area, plan.ports.output.as_str()), ("system", "nonexistent"));
    assert_eq!(h.dumped("system", Ok(vec![0xF0, 9, 0xF7])).unwrap(), "n: 9\n");
    assert!(h.dumped("system", Ok(vec![])).unwrap_err().starts_with("no dump received"));
    assert_eq!(h.dumped("system", Ok(vec![1])).unwrap_err(), "decode: n/a");
    assert!(h.dump("bogus").unwrap_err().starts_with("unknown area \"bogus\""));
}

#[test]
fn reference_data_is_reachable() {
    let h = handle();
    assert_eq!(h.name(), "fake");
    assert_eq!(h.areas().len(), 1);
    assert_eq!(h.schema("system"), Some("{\"title\":\"FakeDoc\"}"));
    assert_eq!(h.defaults("sys-tem"), Some("n: 0\n"));
    assert_eq!(h.defaults("bogus"), None);
    assert!(!h.midi().read_only);
}

#[test]
fn a_clone_answers_as_the_handle_does() {
    let h = wired(true);
    let c = h.clone();
    assert_eq!((c.midi().input_port.as_deref(), c.midi().device, c.midi().read_only), (Some("nonexistent"), 0, true));
    assert_eq!(yaml::render(&c.describe()).unwrap(), yaml::render(&h.describe()).unwrap());
    assert_eq!((c.schema("system"), c.defaults("system")), (h.schema("system"), h.defaults("system")));
    assert_eq!(c.dump("system").unwrap().ports.input, "nonexistent");
    // Reconfiguring one leaves the other as it is.
    let c = c.with_midi(MidiConfig::default());
    assert!(!c.midi().read_only && h.midi().read_only);
    assert_eq!(h.midi().clone().output_port, h.midi().output_port);
}

#[test]
fn tools_assume_what_is_left_out() {
    let h = wired(false);
    let r = tools::search_params(&h, &SearchParamsArgs { query: None, group: None, limit: None });
    assert_eq!(number(&r, "returned"), 2);
    let r = tools::search_params(&h, &SearchParamsArgs { query: Some("n".into()), group: None, limit: Some(1) });
    assert_eq!(number(&r, "returned"), 1);
    let args = GetCatalogArgs { name: "nums".into(), filter: None, limit: None, offset: None };
    assert_eq!(number(&tools::get_catalog(&h, &args).unwrap(), "offset"), 0);
    // A bad catalog name is the caller's problem: surface it in the result.
    let args = GetCatalogArgs { name: "nope".into(), filter: None, limit: None, offset: None };
    assert!(tools::get_catalog(&h, &args).is_err());
    let args = ValidateArgs { area: "system".into(), document: "n: 42".into() };
    assert!(truth(&tools::validate(&h, &args), "ok"));
    let args = ResolveNamesArgs { document: "n: seven".into() };
    assert_eq!(tools::resolve_names(&h, &args).unwrap(), "n: 7\n");
    assert!(tools::dump(&h, &DumpArgs { area: "system".into() }).is_ok());
    let args = SyncArgs { area: "system".into(), document: "n: 1".into(), verify: None, store: None };
    assert!(tools::sync(&h, &args).unwrap().read_back.is_none());
    let args = SyncArgs { area: "system".into(), document: "n: 1".into(), verify: Some(true), store: None };
    assert!(tools::sync(&h, &args).unwrap().read_back.is_some());
}
