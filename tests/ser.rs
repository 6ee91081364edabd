use verune::ser::{to_string, to_string_pretty, Container, Serializer};
use verune::{DelimiterType, PrettyConfig, Value};

fn s(text: &str) -> Value {
    Value::Str(text.to_string())
}

fn bytes3(v: [u64; 3]) -> Value {
    Value::Sequence(v.iter().map(|x| Value::UInt(*x)).collect())
}

fn plugin(version: [u64; 3], api: [u64; 3], distribution: Value) -> Value {
    Value::Mapping(vec![
        (s("name"), s("my-plugin")),
        (s("version"), bytes3(version)),
        (s("api_compat"), bytes3(api)),
        (s("distribution"), distribution),
        (s("compat"), Value::Mapping(vec![])),
    ])
}

#[test]
fn serialize_simple_struct() {
    let data = plugin([1, 0, 0], [1, 0, 1], Value::UnitVariant("Stable".to_string()));
    assert_eq!(
        to_string(&data),
        "{name->\"my-plugin\":version->[1: 0: 0]:api_compat->[1: 0: 1]:distribution->$Stable:compat->{}}"
    );
}

#[test]
fn serialize_hashmap() {
    let map = Value::Mapping(vec![(s("one"), s("value_one"))]);
    assert_eq!(to_string(&map), "{one->\"value_one\"}");
}

#[test]
fn custom_pretty() {
    let data = plugin([2, 2, 1], [2, 0, 0], Value::UnitVariant("Alpha".to_string()));
    let out = to_string_pretty(
        &data,
        PrettyConfig { delimiter: DelimiterType::Newline, indent_width: 4 },
    );
    assert_eq!(
        out,
        "{\n    name->\"my-plugin\"\n    version->[2 2 1]\n    api_compat->[2 0 0]\n    distribution->$Alpha\n    compat->{}\n}"
    );
}

#[test]
fn tuple_variant() {
    let nightly = Value::TupleVariant(
        "Nightly".to_string(),
        vec![Value::UInt(12), Value::UInt(13), Value::UInt(25)],
    );
    let data = plugin([1, 0, 0], [2, 0, 0], nightly);
    assert_eq!(
        to_string(&data),
        "{name->\"my-plugin\":version->[1: 0: 0]:api_compat->[2: 0: 0]:distribution->$Nightly(12: 13: 25):compat->{}}"
    );
}

#[test]
fn tuple_variant_alone() {
    let nightly = Value::TupleVariant(
        "Nightly".to_string(),
        vec![Value::UInt(12), Value::UInt(13), Value::UInt(25)],
    );
    assert_eq!(to_string(&nightly), "$Nightly(12: 13: 25)");
}

#[test]
fn whitespace_delimiter() {
    let tuple = Value::Tuple(vec![Value::UInt(1), Value::Bool(true), s("test")]);
    let out = to_string_pretty(
        &tuple,
        PrettyConfig { delimiter: DelimiterType::Whitespace, ..Default::default() },
    );
    assert_eq!(out, "(1 true \"test\")");
}

#[test]
fn none() {
    assert_eq!(to_string(&Value::Unit), "/");
}

#[test]
fn struct_variant() {
    let distribution = Value::StructVariant(
        "ReleaseCandidate".to_string(),
        vec![(s("changelog"), s("Added \"switch\" subcommand"))],
    );
    assert_eq!(
        to_string(&distribution),
        "$ReleaseCandidate{changelog->\"Added \"switch\" subcommand\"}"
    );
}

#[test]
fn struct_variant_hierarchy() {
    let distribution = Value::StructVariant(
        "ReleaseCandidate".to_string(),
        vec![(s("changelog"), s("Added \"switch\" subcommand"))],
    );
    assert_eq!(
        to_string_pretty(&distribution, PrettyConfig::hierarchy()),
        "$ReleaseCandidate{\n    changelog->\"Added \"switch\" subcommand\"\n}"
    );
}

#[test]
fn nested_indentation() {
    let inner = Value::Mapping(vec![(s("b"), Value::Int(-7))]);
    let outer = Value::Mapping(vec![(s("a"), inner), (s("c"), Value::Char('x'))]);
    assert_eq!(
        to_string_pretty(&outer, PrettyConfig { delimiter: DelimiterType::Newline, indent_width: 2 }),
        "{\n  a->{\n    b->-7\n  }\n  c->'x'\n}"
    );
}

#[test]
fn newline_sequence_stays_on_one_line() {
    let v = Value::Sequence(vec![Value::UInt(1), Value::Tuple(vec![Value::UInt(2), Value::UInt(3)])]);
    let out = to_string_pretty(&v, PrettyConfig::hierarchy());
    assert_eq!(out, "[1 (2 3)]");
    assert!(!out.contains('\n'));
}

#[test]
fn same_value_same_text() {
    let a = plugin([1, 2, 3], [4, 5, 6], Value::UnitVariant("Stable".to_string()));
    let b = plugin([1, 2, 3], [4, 5, 6], Value::UnitVariant("Stable".to_string()));
    let c = PrettyConfig::hierarchy();
    assert_eq!(to_string_pretty(&a, c), to_string_pretty(&b, c));
}

#[test]
fn empty_containers() {
    let v = Value::Tuple(vec![
        Value::Sequence(vec![]),
        Value::Tuple(vec![]),
        Value::Mapping(vec![]),
    ]);
    assert_eq!(to_string(&v), "([]: (): {})");
    assert_eq!(to_string_pretty(&v, PrettyConfig::hierarchy()), "([] () {})");
}

#[test]
fn integers_use_their_widening() {
    assert_eq!(to_string(&Value::Int(i64::MIN)), "-9223372036854775808");
    assert_eq!(to_string(&Value::UInt(u64::MAX)), "18446744073709551615");
    assert_eq!(to_string(&Value::Int(0)), "0");
    assert_eq!(to_string(&Value::UInt(1234)), "1234");
}

#[test]
fn newtype_variant_and_non_string_keys() {
    let v = Value::Mapping(vec![
        (Value::UInt(1), Value::NewtypeVariant("Some".to_string(), Box::new(s("x")))),
        (Value::Tuple(vec![s("k"), Value::Bool(false)]), Value::Unit),
    ]);
    assert_eq!(to_string(&v), "{1->$Some(\"x\"):(k: false)->/}");
}

#[test]
fn state_machine_by_hand() {
    let mut ser = Serializer::new(PrettyConfig::hierarchy());
    ser.serialize_struct_variant("Point");
    ser.serialize_field("x");
    ser.serialize_i64(3);
    ser.serialize_field("tags");
    ser.serialize_seq();
    ser.begin_element();
    ser.serialize_str("a");
    ser.begin_element();
    ser.serialize_char('b');
    ser.end();
    ser.serialize_field("raw");
    ser.serialize_bytes(&[1, 255]);
    ser.serialize_field("ratio");
    ser.serialize_float_text("0.5");
    ser.end();
    assert_eq!(
        ser.into_output(),
        "$Point{\n    x->3\n    tags->[\"a\" 'b']\n    raw->[1 255]\n    ratio->0.5\n}"
    );
    let _ = Container::Keyed;
}

#[test]
fn map_keys_are_bare_by_begin_key() {
    let mut ser = Serializer::new(PrettyConfig::default());
    ser.serialize_map();
    ser.begin_key();
    ser.serialize_str("k1");
    ser.begin_value();
    ser.serialize_str("v1");
    ser.begin_key();
    ser.serialize_u64(2);
    ser.begin_value();
    ser.serialize_unit_variant("Two");
    ser.end();
    assert_eq!(ser.into_output(), "{k1->\"v1\":2->$Two}");
}

#[test]
fn create_indent_counts_spaces() {
    let mut ser = Serializer::new(PrettyConfig { delimiter: DelimiterType::Newline, indent_width: 3 });
    assert_eq!(ser.create_indent(), "");
    ser.serialize_map();
    ser.serialize_map();
    assert_eq!(ser.create_indent(), "      ");
}
