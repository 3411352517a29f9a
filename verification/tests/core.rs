use midi_access::catalog::{Bundle, Catalogs};
use midi_access::device::{Area, DeviceError};
use midi_access::json;
use midi_access::merge::{merge_over, slots};
use midi_access::meta::{choice, Choice, Form, Kind, Level, ParamMeta, Params};
use midi_access::resolve::{label_names, label_names_str, resolve_names, resolve_names_str};
use midi_access::value::{same_values, Doc, Numeral};
use midi_access::yaml;

fn doc(text: &str) -> Doc {
    yaml::parse(text).unwrap()
}

fn at<'a>(d: &'a Doc, i: usize) -> &'a Doc {
    &d.as_sequence().unwrap()[i]
}

fn field<'a>(d: &'a Doc, key: &str) -> &'a Doc {
    d.get(key).unwrap()
}

// === areas ===

#[test]
fn area_matching_is_lenient() {
    let a = Area { name: "live-set", label: "Live Set", about: "" };
    assert!(a.matches("live-set"));
    assert!(a.matches("live_set"));
    assert!(a.matches("LiveSet"));
    assert!(!a.matches("system"));
}

#[test]
fn area_matching_ignores_case_and_separators() {
    let a = Area { name: "Live-Set 2", label: "Live", about: "x" };
    let b = Area { name: "Live-Set 2", label: "", about: "" };
    for name in ["Live-Set 2", "LIVESET 2", "live_set 2", "-l_i-v_e--SET 2_"] {
        assert!(a.matches(name) && b.matches(name), "{name}");
    }
    for name in ["", "Live", "liveset2", "liveset 22"] {
        assert!(!a.matches(name) && !b.matches(name), "{name}");
    }
}

#[test]
fn area_matching_goes_beyond_ascii() {
    let a = Area { name: "ÉTÉ", label: "", about: "" };
    assert!(a.matches("é-t_é"));
    assert!(!a.matches("ete"));
}

#[test]
fn device_errors_read_well() {
    assert_eq!(DeviceError::UnknownArea("a\"b".to_string()).message(), "unknown area: \"a\\\"b\"");
    assert_eq!(DeviceError::Decode("x".to_string()).message(), "decode: x");
    assert_eq!(DeviceError::Encode("x".to_string()).message(), "encode: x");
    assert_eq!(DeviceError::Other("x".to_string()).message(), "x");
}

// === metadata ===

static SAMPLE: &[ParamMeta] = &[
    ParamMeta {
        path: "a.cutoff",
        label: "Cutoff",
        group: "Filter",
        help: "h",
        level: Level::Magnitude,
        kind: Some(Kind::Range { min: 0, max: 127, unit: None }),
        catalog: None,
    },
    ParamMeta {
        path: "a.kind",
        label: "Kind",
        group: "Filter",
        help: "h",
        level: Level::Plain,
        kind: None,
        catalog: Some("kinds"),
    },
];

#[test]
fn lookup_and_group() {
    let p = Params(SAMPLE);
    assert_eq!(p.get("a.cutoff").unwrap().label, "Cutoff");
    assert!(p.get("nope").is_none());
    assert_eq!(p.in_group("Filter").len(), 2);
    assert_eq!(p.help("a.kind"), Some("h"));
}

#[test]
fn lookup_misses() {
    let p = Params(SAMPLE);
    assert_eq!(p.help("a"), None);
    assert!(p.in_group("filter").is_empty());
    assert_eq!(p.as_slice().len(), 2);
    assert_eq!(Level::default(), Level::Plain);
    assert!(Level::Plain.is_plain() && !Level::Magnitude.is_plain());
}

#[test]
fn level_serializes_as_bool_and_skips_plain() {
    let y = yaml::render(&Params(SAMPLE).to_value(Form::Yaml)).unwrap();
    // Magnitude → `level: true`; Plain → omitted entirely.
    assert!(y.contains("level: true"));
    assert_eq!(y.matches("level:").count(), 1);
    // catalog hint present only on the second entry.
    assert!(y.contains("catalog: kinds"));
}

#[test]
fn kind_is_externally_tagged() {
    let opts: &'static [Choice] = Box::leak(Box::new([choice("a", "A")]));
    let y = yaml::render(&Kind::Choice(opts).to_value(Form::Yaml)).unwrap();
    assert!(y.contains("choice"));
    assert!(y.contains("value: a"));
    let r = yaml::render(&Kind::Range { min: 0, max: 9, unit: Some("dB") }.to_value(Form::Yaml)).unwrap();
    assert!(r.contains("range"));
    assert!(r.contains("unit: dB"));
}

#[test]
fn kinds_are_tagged_in_yaml() {
    let opts: &'static [Choice] = Box::leak(Box::new([choice("a", "A")]));
    let read = |k: Kind| yaml::render(&k.to_value(Form::Yaml)).unwrap();
    assert_eq!(read(Kind::Range { min: 0, max: 9, unit: Some("dB") }), "!range\nmin: 0\nmax: 9\nunit: dB\n");
    assert_eq!(read(Kind::Choice(opts)), "!choice\n- value: a\n  label: A\n");
    assert_eq!(read(Kind::Toggle), "toggle\n");
    assert_eq!(read(Kind::Text), "text\n");
}

#[test]
fn kinds_read_as_json() {
    let opts: &'static [Choice] = Box::leak(Box::new([choice("a", "A")]));
    assert_eq!(
        json::line(&Kind::Choice(opts).to_value(Form::Json)).unwrap(),
        "{\"choice\":[{\"value\":\"a\",\"label\":\"A\"}]}"
    );
    assert_eq!(
        json::line(&Kind::Range { min: -5, max: 9, unit: None }.to_value(Form::Json)).unwrap(),
        "{\"range\":{\"min\":-5,\"max\":9}}"
    );
    assert_eq!(json::line(&Kind::Toggle.to_value(Form::Json)).unwrap(), "\"toggle\"");
    assert_eq!(json::line(&Kind::Text.to_value(Form::Json)).unwrap(), "\"text\"");
    assert_eq!(
        json::line(&SAMPLE[1].to_value(Form::Json)).unwrap(),
        "{\"path\":\"a.kind\",\"label\":\"Kind\",\"group\":\"Filter\",\"help\":\"h\",\"catalog\":\"kinds\"}"
    );
}

// === the bundle ===

struct Fake;

impl Catalogs for Fake {
    fn resolve(&self, cat: &str, name: &str) -> Option<i64> {
        (cat == "n" && name.eq_ignore_ascii_case("one")).then_some(1)
    }
    fn label(&self, cat: &str, value: i64) -> Option<String> {
        (cat == "n" && value == 1).then(|| "one".to_string())
    }
    fn names(&self) -> &[&str] {
        &["n"]
    }
    fn as_value(&self) -> Doc {
        doc("n:\n- one")
    }
}

static P: &[ParamMeta] = &[];

#[test]
fn bundle_serializes() {
    let f = Fake;
    let b = Bundle { device: "fake", params: Params(P), catalogs: f.as_value(), defaults: doc("area: {}") };
    let y = yaml::render(&b.to_value(Form::Yaml)).unwrap();
    assert!(y.contains("device: fake"));
    assert!(y.contains("catalogs:"));
    assert_eq!(f.resolve("n", "ONE"), Some(1));
    assert_eq!(f.label("n", 1).as_deref(), Some("one"));
}

// === merging ===

#[test]
fn merge_recurses_mappings_but_replaces_scalars_and_arrays() {
    let base = doc("a: 1\nb:\n  c: 2\n  d: 3\ne: [1, 2]");
    let overlay = doc("b:\n  c: 9\ne: [7]");
    let m = merge_over(base, overlay);
    assert_eq!(field(&m, "a").as_i64(), Some(1)); // untouched
    assert_eq!(field(field(&m, "b"), "c").as_i64(), Some(9)); // overridden
    assert_eq!(field(field(&m, "b"), "d").as_i64(), Some(3)); // preserved
    assert_eq!(field(&m, "e").as_sequence().unwrap().len(), 1); // array replaced
}

#[test]
fn merging_twice_is_merging_once() {
    let overlay = || doc("b: {y: 9, z: [1]}\nc: {d: 4}\ne: 5");
    for base in ["a: 1\nb: {x: 2, y: 3}\nc: 7", "{}", "8", "b: {y: 9, z: [1]}\nc: {d: 4}\ne: 5"] {
        let once = merge_over(doc(base), overlay());
        assert!(same_values(&merge_over(once.clone(), overlay()), &once), "{base}");
    }
}

#[test]
fn merge_moves_overridden_keys_to_the_end() {
    let m = merge_over(doc("a: 1\nb: 2\nc: 3\nd: 4"), doc("b: 9\nx: 5"));
    assert_eq!(yaml::render(&m).unwrap(), "a: 1\nd: 4\nc: 3\nb: 9\nx: 5\n");
    assert_eq!(yaml::render(&merge_over(doc("a: 1"), doc("[2]"))).unwrap(), "- 2\n");
    assert_eq!(yaml::render(&merge_over(doc("a: 1"), doc("{}"))).unwrap(), "a: 1\n");
    assert_eq!(yaml::render(&merge_over(doc("7"), doc("a: 1"))).unwrap(), "a: 1\n");
}

fn factory(count: usize) -> Vec<Doc> {
    (0..count).map(|i| doc(&format!("on: {}\ncolor: {i}", i == 0))).collect()
}

fn items(text: &str) -> Vec<Doc> {
    field(&doc(text), "items").as_sequence().unwrap().clone()
}

#[test]
fn pads_and_merges_per_slot() {
    let d = slots(items("items:\n- color: 9\n"), "slots", factory(3)).unwrap();
    assert_eq!(d.len(), 3);
    assert_eq!(field(&d[0], "on").as_bool(), Some(true)); // factory slot 0 default kept
    assert_eq!(field(&d[0], "color").as_i64(), Some(9)); // overridden
    assert_eq!(field(&d[2], "color").as_i64(), Some(2)); // padded from factory
    assert_eq!(field(&d[2], "on").as_bool(), Some(false));
}

#[test]
fn rejects_too_many() {
    let err = slots(items("items: [{on: true, color: 1}, {}, {}, {}]\n"), "slots", factory(3));
    assert!(err.is_err());
    assert_eq!(err.unwrap_err(), "at most 3 slots, got 4");
}

// === name resolution ===

struct Cats;

impl Catalogs for Cats {
    fn resolve(&self, cat: &str, name: &str) -> Option<i64> {
        match (cat, name.to_ascii_lowercase().as_str()) {
            ("fx", "hall reverb") => Some(27),
            ("voices", "cfx stereo") => Some(0),
            ("voices", "78rd") => Some(13),
            _ => None,
        }
    }
    fn label(&self, cat: &str, value: i64) -> Option<String> {
        match (cat, value) {
            ("fx", 27) => Some("Hall Reverb".into()),
            ("voices", 0) => Some("CFX Stereo".into()),
            ("voices", 13) => Some("78Rd".into()),
            _ => None,
        }
    }
    fn names(&self) -> &[&str] {
        &["fx", "voices"]
    }
    fn as_value(&self) -> Doc {
        Doc::Null
    }
}

const fn pc(path: &'static str, cat: &'static str) -> ParamMeta {
    ParamMeta { path, label: "", group: "", help: "", level: Level::Plain, kind: None, catalog: Some(cat) }
}

static PARAMS: &[ParamMeta] =
    &[pc("live_set.part.effect_1_type", "fx"), pc("live_set.part.category_voices", "voices")];

#[test]
fn resolves_names_in_nested_partial_doc() {
    let yaml = "parts:\n- effect_1_type: Hall Reverb\n  category_voices: [CFX Stereo, 78Rd]\n";
    let out = resolve_names_str(yaml, Params(PARAMS), &Cats).unwrap();
    let v = doc(&out);
    let part = at(field(&v, "parts"), 0);
    assert_eq!(field(part, "effect_1_type").as_i64(), Some(27));
    assert_eq!(at(field(part, "category_voices"), 1).as_i64(), Some(13));
}

#[test]
fn numbers_and_unknowns_pass_through() {
    let yaml = "parts:\n- effect_1_type: 99\n  category_voices: [Nope]\n";
    let out = resolve_names_str(yaml, Params(PARAMS), &Cats).unwrap();
    let v = doc(&out);
    let part = at(field(&v, "parts"), 0);
    assert_eq!(field(part, "effect_1_type").as_i64(), Some(99));
    assert_eq!(at(field(part, "category_voices"), 0).as_str(), Some("Nope"));
}

#[test]
fn label_is_inverse() {
    let yaml = "parts:\n- effect_1_type: 27\n";
    let out = label_names_str(yaml, Params(PARAMS), &Cats).unwrap();
    let v = doc(&out);
    assert_eq!(field(at(field(&v, "parts"), 0), "effect_1_type").as_str(), Some("Hall Reverb"));
}

#[test]
fn resolving_undoes_labelling_and_is_idempotent() {
    let mut v = doc("parts:\n- effect_1_type: 27\n  category_voices: [0, 13, 99]\n  other: 27\n");
    let before = v.clone();
    label_names(&mut v, Params(PARAMS), &Cats);
    assert_eq!(
        yaml::render(&v).unwrap(),
        "parts:\n- effect_1_type: Hall Reverb\n  category_voices:\n  - CFX Stereo\n  - 78Rd\n  - 99\n  other: 27\n"
    );
    resolve_names(&mut v, Params(PARAMS), &Cats);
    assert!(same_values(&v, &before));
    resolve_names(&mut v, Params(PARAMS), &Cats);
    assert!(same_values(&v, &before));
}

#[test]
fn labelling_undoes_resolving() {
    let mut v = doc("parts:\n- effect_1_type: Hall Reverb\n  category_voices: [Nope, 78Rd, 99]\n  other: 78Rd\n");
    let before = v.clone();
    resolve_names(&mut v, Params(PARAMS), &Cats);
    assert_eq!(
        yaml::render(&v).unwrap(),
        "parts:\n- effect_1_type: 27\n  category_voices:\n  - Nope\n  - 13\n  - 99\n  other: 78Rd\n"
    );
    label_names(&mut v, Params(PARAMS), &Cats);
    assert!(same_values(&v, &before));
    // A number that has a label comes back as it; a name in another case does not
    // come back as it was.
    let mut v = doc("effect_1_type: [27, hall reverb]");
    resolve_names(&mut v, Params(PARAMS), &Cats);
    label_names(&mut v, Params(PARAMS), &Cats);
    assert!(same_values(&v, &doc("effect_1_type: [Hall Reverb, Hall Reverb]")));
}

#[test]
fn ambiguous_hints_are_left_alone() {
    let both: &'static [ParamMeta] = Box::leak(Box::new([pc("a.x", "fx"), pc("b.x", "voices"), pc("y", "fx")]));
    let out = resolve_names_str("x: Hall Reverb\ny: hall reverb\n", Params(both), &Cats).unwrap();
    assert_eq!(out, "x: Hall Reverb\ny: 27\n");
    // Two hints that agree are one.
    let agreed: &'static [ParamMeta] = Box::leak(Box::new([pc("a.x", "fx"), pc("b.x", "fx")]));
    assert_eq!(resolve_names_str("x: Hall Reverb\n", Params(agreed), &Cats).unwrap(), "x: 27\n");
}

#[test]
fn broken_text_is_reported() {
    assert!(resolve_names_str("a: [1", Params(PARAMS), &Cats).is_err());
    assert!(label_names_str("a: [1", Params(PARAMS), &Cats).is_err());
}

// === documents ===

#[test]
fn documents_survive_text() {
    let text = "a: null\nb: true\nc: -3\nd: 18446744073709551615\ne: 1.5\nf: .nan\ng: -.inf\nh: !tag\n  k: v\ni: []\n? [1, 2]\n: deep\n";
    let d = doc(text);
    let again = doc(&yaml::render(&d).unwrap());
    assert!(same_values(&d, &again));
    assert_eq!(field(&d, "c").as_i64(), Some(-3));
    assert_eq!(field(&d, "d").as_i64(), None);
    assert_eq!(field(&d, "e").as_i64(), None);
    // Tags do not stand in the way of what is below them.
    assert_eq!(field(field(&d, "h"), "k").as_str(), Some("v"));
    assert!(yaml::parse("a: 1\na: 2\n").is_err());
}

#[test]
fn floats_keep_their_text() {
    match doc("1.50") {
        Doc::Numeral(Numeral::Float(f)) => assert_eq!(f.as_str(), "1.5"),
        _ => panic!("a float"),
    }
    match doc("!range 4") {
        Doc::Tagged(tag, inner) => {
            assert_eq!(tag.as_str(), "!range");
            assert_eq!(inner.as_i64(), Some(4));
        }
        _ => panic!("a tag"),
    }
}

#[test]
fn sameness_ignores_the_order_of_keys_and_the_sign_of_zero() {
    assert!(same_values(&doc("{a: 1, b: 2}"), &doc("{b: 2, a: 1}")));
    assert!(!same_values(&doc("[1, 2]"), &doc("[2, 1]")));
    assert!(same_values(&doc("0.0"), &doc("-0.0")));
    assert!(same_values(&doc(".nan"), &doc(".NaN")));
    assert!(!same_values(&doc("0"), &doc("0.0")));
    assert!(!same_values(&doc("!a 1"), &doc("!b 1")));
    assert!(!same_values(&doc("{a: 1}"), &doc("{a: 1, b: 2}")));
}

#[test]
fn documents_compare_as_their_yaml_values_do() {
    let texts = [
        "null", "true", "false", "0", "-1", "1", "0.0", "-0.0", "1.0", ".nan", ".inf", "-.inf", "''", "a", "'1'", "[]",
        "[1]", "[1, a]", "{}", "{a: 1}", "{a: 1, b: 2}", "{b: 2, a: 1}", "{a: {c: 0.0}}", "{a: {c: -0.0}}", "!t a",
        "!u a", "!t {a: 1}", "{? [1] : 2}", "18446744073709551615",
    ];
    for a in texts {
        for b in texts {
            let (x, y): (serde_yaml::Value, serde_yaml::Value) =
                (serde_yaml::from_str(a).unwrap(), serde_yaml::from_str(b).unwrap());
            assert_eq!(same_values(&doc(a), &doc(b)), x == y, "{a} and {b}");
            assert_eq!(yaml::to_yaml(&doc(a)), x);
        }
    }
}

#[test]
fn mappings_change_as_yaml_mappings_do() {
    let text = "{a: 1, b: 2, c: 3, d: 4}";
    for key in ["a", "b", "d", "x"] {
        let mut theirs: serde_yaml::Mapping = serde_yaml::from_str(text).unwrap();
        let removed = theirs.remove(key);
        theirs.insert("c".into(), 9.into());
        theirs.insert("y".into(), 8.into());
        let ours = match doc(text) {
            Doc::Dict(m) => m,
            _ => panic!("a mapping"),
        };
        let (ours, held) = ours.without(&Doc::text(key));
        assert_eq!(held.map(|d| yaml::to_yaml(&d)), removed);
        let ours = ours.with(Doc::text("c"), Doc::count(9)).with(Doc::text("y"), Doc::count(8));
        assert_eq!(
            yaml::render(&Doc::Dict(ours)).unwrap(),
            serde_yaml::to_string(&serde_yaml::Value::Mapping(theirs)).unwrap()
        );
    }
}

#[test]
fn documents_read_as_json() {
    let j = json::to_json(&doc("{b: 1, a: [true, null]}")).unwrap();
    // A JSON object has its keys in order.
    assert_eq!(yaml::render(&j).unwrap(), "a:\n- true\n- null\nb: 1\n");
    assert_eq!(json::line(&doc("{b: x}")).unwrap(), "{\"b\":\"x\"}");
    assert_eq!(json::pretty(&doc("{b: [1]}")).unwrap(), "{\n  \"b\": [\n    1\n  ]\n}");
    // A key that is a sequence has no JSON form.
    assert!(json::to_json(&doc("? [1]\n: 2")).is_none());
    assert!(json::line(&doc("? [1]\n: 2")).is_none());
    assert!(json::pretty(&doc("? [1]\n: 2")).is_err());
}
