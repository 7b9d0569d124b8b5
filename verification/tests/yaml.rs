use lintus::scalar::{parse_int, resolve_plain};
use lintus::yaml::{load, FloatFact, FloatFacts, Mapping, Value};

fn no_floats() -> FloatFacts {
    FloatFacts { facts: vec![] }
}

fn one(yaml: &str) -> Value {
    match load(&format!("v: {yaml}\n"), &no_floats()).unwrap() {
        Value::Hash(map) => lintus::yaml::copy_value(&map.iter()[0].1),
        other => panic!("{other:?}"),
    }
}

fn s(text: &str) -> Value {
    Value::Str(text.into())
}

fn same(a: &Value, b: &Value) -> bool {
    lintus::yaml::same_value(a, b, &no_floats())
}

fn float_text(v: &Value) -> String {
    match v {
        Value::Float(f) => f.text.clone(),
        other => panic!("not a float: {other:?}"),
    }
}

#[test]
fn plain_scalars_are_typed_like_psych() {
    assert!(matches!(one(""), Value::Null));
    assert!(matches!(one("~"), Value::Null));
    assert!(matches!(one("NULL"), Value::Null));
    for truthy in ["true", "True", "yes", "YES", "on", "On"] {
        assert!(matches!(one(truthy), Value::Bool(true)), "{truthy}");
    }
    for falsy in ["false", "no", "No", "off", "OFF"] {
        assert!(matches!(one(falsy), Value::Bool(false)), "{falsy}");
    }
    assert!(same(&one("y"), &s("y")));
    assert!(matches!(one("42"), Value::Int(42)));
    assert!(matches!(one("-42"), Value::Int(-42)));
    assert!(matches!(one("100_000"), Value::Int(100_000)));
    assert!(matches!(one("1,000"), Value::Int(1000)));
    assert!(matches!(one("0x1f"), Value::Int(31)));
    assert!(matches!(one("0b101"), Value::Int(5)));
    assert!(matches!(one("017"), Value::Int(15)));
    assert!(same(&one("09"), &s("09")));
    assert!(same(&one("1_"), &s("1_")));
    assert_eq!(float_text(&one("0.7")).parse::<f64>().unwrap(), 0.7);
    assert_eq!(float_text(&one(".5")).parse::<f64>().unwrap(), 0.5);
    assert_eq!(float_text(&one("1.")).parse::<f64>().unwrap(), 1.0);
    assert_eq!(float_text(&one("1.5e+3")).parse::<f64>().unwrap(), 1500.0);
    assert!(same(&one("1e3"), &s("1e3")));
    assert_eq!(float_text(&one("-.inf")).parse::<f64>().unwrap(), f64::NEG_INFINITY);
    assert!(float_text(&one(".NaN")).parse::<f64>().unwrap().is_nan());
    assert!(same(&one(":sym"), &s("sym")));
    assert!(same(&one("2024-01-01"), &s("2024-01-01")));
    assert!(same(&one("app/**/*.rb"), &s("app/**/*.rb")));
}

#[test]
fn quoted_and_tagged_scalars() {
    assert!(same(&one("\"yes\""), &s("yes")));
    assert!(same(&one("'42'"), &s("42")));
    assert!(same(&one("!!str 42"), &s("42")));
    assert_eq!(float_text(&one("!!float 1")).parse::<f64>().unwrap(), 1.0);
    assert!(matches!(one("!!int 0x10"), Value::Int(16)));
    assert!(same(&one("!!int nope"), &s("nope")));
    assert!(matches!(one("!!null anything"), Value::Null));
}

#[test]
fn repeated_keys_keep_the_first_position_and_the_last_value() {
    let Value::Hash(map) = load("a: 1\nb: 2\na: 3\n", &no_floats()).unwrap() else { panic!() };
    assert_eq!(map.len(), 2);
    assert!(same(&map.iter()[0].0, &s("a")));
    assert!(matches!(map.iter()[0].1, Value::Int(3)));
    assert!(same(&map.iter()[1].0, &s("b")));
    assert!(matches!(map.iter()[1].1, Value::Int(2)));
}

#[test]
fn anchors_aliases_and_merge_keys() {
    let yaml = "base: &base\n  a: 1\n  b: 2\nother: &other\n  c: 3\none:\n  b: 0\n  <<: *base\n  a: 9\nmany:\n  <<: [*other, *base]\nlist: &l [x]\nsame: *l\n";
    let Value::Hash(map) = load(yaml, &no_floats()).unwrap() else { panic!() };
    let get = |key: &str| lintus::yaml::copy_value(&map.iter().iter().find(|(k, _)| same(k, &s(key))).unwrap().1);

    let Value::Hash(one) = get("one") else { panic!() };
    assert_eq!(one.len(), 2);
    assert!(same(&one.iter()[0].0, &s("b")));
    assert!(matches!(one.iter()[0].1, Value::Int(2)));
    assert!(same(&one.iter()[1].0, &s("a")));
    assert!(matches!(one.iter()[1].1, Value::Int(9)));
    let Value::Hash(many) = get("many") else { panic!() };
    assert_eq!(many.len(), 3);
    assert!(same(&get("same"), &Value::Array(vec![s("x")])));
}

#[test]
fn only_the_first_document_is_read() {
    let mut expected = Mapping::new();
    expected.insert(s("a"), Value::Int(1), &no_floats());
    assert!(same(&load("a: 1\n---\nb: 2\n", &no_floats()).unwrap(), &Value::Hash(expected)));
    assert!(matches!(load("", &no_floats()).unwrap(), Value::Null));
    assert!(matches!(load("# just a comment\n", &no_floats()).unwrap(), Value::Null));
}

#[test]
fn syntax_errors_are_reported() {
    assert!(load("rules: [\n", &no_floats()).is_err());
}

#[test]
fn to_s_and_inspect_follow_ruby() {
    let floats = FloatFacts { facts: vec![FloatFact { text: "1".into(), display: "1.0".into(), in_unit: true, id: Some(1f64.to_bits()) }] };
    assert_eq!(Value::Null.to_s(&floats), "");
    assert_eq!(one("!!float 1").to_s(&floats), "1.0");
    assert_eq!(Value::Str("just a string".into()).inspect(&floats), "\"just a string\"");
    assert_eq!(Value::Array(vec![Value::Int(1), Value::Null]).inspect(&floats), "[1, nil]");
    let mut map = Mapping::new();
    map.insert(s("a"), Value::Bool(true), &no_floats());
    assert_eq!(Value::Hash(map).inspect(&floats), "{\"a\" => true}");
    assert_eq!(Value::Hash(Mapping::new()).inspect(&no_floats()), "{}");
    assert_eq!(Value::Str("tab\tquote\"\u{1}".into()).inspect(&no_floats()), "\"tab\\tquote\\\"\\u0001\"");
    assert_eq!(Value::Int(-7).to_s(&no_floats()), "-7");
    assert_eq!(Value::Bool(false).class_name(), "FalseClass");
}

#[test]
fn integers_overflowing_i64_stay_strings() {
    let max: Vec<char> = "9223372036854775807".chars().collect();
    assert_eq!(parse_int(&max), Some(i64::MAX));
    let over: Vec<char> = "9223372036854775808".chars().collect();
    assert_eq!(parse_int(&over), None);
    assert!(same(&resolve_plain("9223372036854775808"), &s("9223372036854775808")));
    let negative: Vec<char> = "-0x10".chars().collect();
    assert_eq!(parse_int(&negative), Some(-16));
}

/// The facts a caller gives for the float literals of `yaml`, read on a first
/// load where no two floats are equal.
fn facts_of(yaml: &str) -> FloatFacts {
    let first = load(yaml, &no_floats()).unwrap();
    let facts = first
        .float_literals()
        .into_iter()
        .map(|text| {
            let x: f64 = text.parse().unwrap();
            let id = if x.is_nan() { None } else { Some((x + 0.0).to_bits()) };
            FloatFact { display: format!("{x:?}"), in_unit: (0.0..=1.0).contains(&x), id, text }
        })
        .collect();
    FloatFacts { facts }
}

#[test]
fn float_keys_are_compared_by_value() {
    let yaml = "1.0: a\n1.00: b\n0.0: c\n-0.0: d\n.nan: e\n.NaN: f\n";
    let floats = facts_of(yaml);
    let Value::Hash(map) = load(yaml, &floats).unwrap() else { panic!() };
    assert_eq!(map.len(), 4);
    assert_eq!(float_text(&map.iter()[0].0), "1.0");
    assert!(same(&map.iter()[0].1, &s("b")));
    assert_eq!(float_text(&map.iter()[1].0), "0.0");
    assert!(same(&map.iter()[1].1, &s("d")));
    assert!(same(&map.iter()[2].1, &s("e")));
    assert!(same(&map.iter()[3].1, &s("f")));
    assert!(lintus::yaml::same_value(&map.iter()[0].0, &one("1.000"), &facts_of("x: 1.0\ny: 1.000\n")));
    assert!(!lintus::yaml::same_value(&map.iter()[2].0, &map.iter()[2].0, &floats));
}

#[test]
fn without_float_facts_no_two_float_keys_are_equal() {
    let Value::Hash(map) = load("1.0: a\n1.0: b\n", &no_floats()).unwrap() else { panic!() };
    assert_eq!(map.len(), 2);
}
