use verune::de::from_str;
use verune::ser::{to_string, to_string_pretty};
use verune::shape::{Shape, VariantShape};
use verune::{DelimiterType, Error, Iterable, PrettyConfig, Value};

fn s(text: &str) -> Value {
    Value::Str(text.to_string())
}

fn triple(v: [u64; 3]) -> Value {
    Value::Sequence(v.iter().map(|x| Value::UInt(*x)).collect())
}

fn plugin(distribution: Value, compat: Vec<(Value, Value)>) -> Value {
    Value::Mapping(vec![
        (s("name"), s("my-plugin")),
        (s("version"), triple([1, 0, 0])),
        (s("api_compat"), triple([1, 0, 1])),
        (s("distribution"), distribution),
        (s("compat"), Value::Mapping(compat)),
    ])
}

fn distribution_shape() -> Shape {
    Shape::Enum(vec![
        ("Stable".to_string(), VariantShape::Unit),
        ("Alpha".to_string(), VariantShape::Unit),
        (
            "Nightly".to_string(),
            VariantShape::Tuple(vec![Shape::UInt, Shape::UInt, Shape::UInt]),
        ),
        (
            "ReleaseCandidate".to_string(),
            VariantShape::Struct(vec![("changelog".to_string(), Shape::Str)]),
        ),
        ("Patch".to_string(), VariantShape::Newtype(Shape::Int)),
    ])
}

fn plugin_shape() -> Shape {
    Shape::Struct(vec![
        ("name".to_string(), Shape::Str),
        ("version".to_string(), Shape::Sequence(Box::new(Shape::UInt))),
        ("api_compat".to_string(), Shape::Sequence(Box::new(Shape::UInt))),
        ("distribution".to_string(), distribution_shape()),
        (
            "compat".to_string(),
            Shape::Mapping(Box::new(Shape::Str), Box::new(Shape::Sequence(Box::new(Shape::UInt)))),
        ),
    ])
}

fn configs() -> Vec<PrettyConfig> {
    vec![
        PrettyConfig::default(),
        PrettyConfig { delimiter: DelimiterType::Whitespace, indent_width: 0 },
        PrettyConfig::hierarchy(),
        PrettyConfig { delimiter: DelimiterType::Newline, indent_width: 1 },
    ]
}

fn samples() -> Vec<Value> {
    vec![
        plugin(Value::UnitVariant("Stable".to_string()), vec![]),
        plugin(
            Value::TupleVariant(
                "Nightly".to_string(),
                vec![Value::UInt(12), Value::UInt(13), Value::UInt(25)],
            ),
            vec![(s("other"), triple([2, 0, 0])), (s("third"), triple([0, 0, 9]))],
        ),
        plugin(
            Value::StructVariant(
                "ReleaseCandidate".to_string(),
                vec![(s("changelog"), s("Added switch subcommand"))],
            ),
            vec![],
        ),
        plugin(Value::NewtypeVariant("Patch".to_string(), Box::new(Value::Int(-4))), vec![]),
    ]
}

#[test]
fn deserialize_simple_struct_output() {
    let text = "{name->\"my-plugin\":version->[1: 0: 0]:api_compat->[1: 0: 1]:distribution->$Stable:compat->{}}";
    let parsed = from_str(text, &plugin_shape()).unwrap();
    assert_eq!(parsed, plugin(Value::UnitVariant("Stable".to_string()), vec![]));
}

#[test]
fn round_trip_under_every_config() {
    for v in samples() {
        for c in configs() {
            let text = to_string_pretty(&v, c);
            assert_eq!(from_str(&text, &plugin_shape()), Ok(v_clone(&v)), "{}", text);
        }
    }
}

#[test]
fn configs_agree_on_input() {
    for v in samples() {
        let a = from_str(&to_string(&v), &plugin_shape());
        for c in configs() {
            assert_eq!(from_str(&to_string_pretty(&v, c), &plugin_shape()), a);
        }
    }
}

fn v_clone(v: &Value) -> Value {
    from_str(&to_string(v), &plugin_shape()).unwrap()
}

#[test]
fn scalars() {
    assert_eq!(from_str(" true ", &Shape::Bool), Ok(Value::Bool(true)));
    assert_eq!(from_str("false", &Shape::Bool), Ok(Value::Bool(false)));
    assert_eq!(from_str("-9223372036854775808", &Shape::Int), Ok(Value::Int(i64::MIN)));
    assert_eq!(from_str("+42", &Shape::Int), Ok(Value::Int(42)));
    assert_eq!(from_str("18446744073709551615", &Shape::UInt), Ok(Value::UInt(u64::MAX)));
    assert_eq!(from_str("'x'", &Shape::Char), Ok(Value::Char('x')));
    assert_eq!(from_str("\"a b\"", &Shape::Str), Ok(s("a b")));
    assert_eq!(from_str("/", &Shape::Unit), Ok(Value::Unit));
    assert_eq!(from_str("/", &Shape::Optional(Box::new(Shape::Unit))), Ok(Value::Unit));
    assert_eq!(from_str("7", &Shape::Optional(Box::new(Shape::UInt))), Ok(Value::UInt(7)));
    assert_eq!(from_str("/", &Shape::Optional(Box::new(Shape::UInt))), Ok(Value::Unit));
}

#[test]
fn absent_optional_round_trip() {
    let text = to_string(&Value::Unit);
    assert_eq!(text, "/");
    assert_eq!(from_str(&text, &Shape::Optional(Box::new(Shape::Unit))), Ok(Value::Unit));
}

#[test]
fn whitespace_tuple_round_trip() {
    let shape = Shape::Tuple(vec![Shape::UInt, Shape::Bool, Shape::Str]);
    let v = Value::Tuple(vec![Value::UInt(1), Value::Bool(true), s("test")]);
    let text = to_string_pretty(&v, PrettyConfig { delimiter: DelimiterType::Whitespace, indent_width: 0 });
    assert_eq!(text, "(1 true \"test\")");
    assert_eq!(from_str(&text, &shape), Ok(Value::Tuple(vec![Value::UInt(1), Value::Bool(true), s("test")])));
}

#[test]
fn map_with_integer_keys() {
    let shape = Shape::Mapping(Box::new(Shape::Int), Box::new(Shape::Str));
    assert_eq!(
        from_str("{1->\"a\": -2->\"b\"}", &shape),
        Ok(Value::Mapping(vec![(Value::Int(1), s("a")), (Value::Int(-2), s("b"))]))
    );
}

#[test]
fn struct_fields_in_any_order() {
    let shape = Shape::Struct(vec![("a".to_string(), Shape::UInt), ("b".to_string(), Shape::Bool)]);
    assert_eq!(
        from_str("{b->true a->3}", &shape),
        Ok(Value::Mapping(vec![(s("a"), Value::UInt(3)), (s("b"), Value::Bool(true))]))
    );
}

#[test]
fn errors_carry_positions() {
    let seq = Shape::Sequence(Box::new(Shape::UInt));
    assert_eq!(from_str("[1: 2", &seq), Err(Error::SequenceKeptOpen(Iterable::Array, 1, 1)));
    let tuple = Shape::Tuple(vec![Shape::UInt, Shape::UInt]);
    assert_eq!(from_str("\n  (1 2", &tuple), Err(Error::SequenceKeptOpen(Iterable::Tuple, 2, 3)));
    let fields = Shape::Struct(vec![("a".to_string(), Shape::UInt), ("b".to_string(), Shape::UInt)]);
    assert_eq!(from_str("{a->1\nb 2}", &fields), Err(Error::UnrecognizedSyntax(2, 3)));
    assert_eq!(from_str("{c->1}", &fields), Err(Error::InvalidKey(1, 2)));
    assert_eq!(from_str("{a->1 a->2}", &fields), Err(Error::InvalidKey(1, 7)));
    assert_eq!(from_str("{a->1}", &fields), Err(Error::InvalidValue(1, 6)));
    assert_eq!(from_str("99999999999999999999", &Shape::UInt), Err(Error::InvalidValue(1, 1)));
    assert_eq!(from_str("-1", &Shape::UInt), Err(Error::InvalidValue(1, 1)));
    assert_eq!(from_str("1.5", &Shape::Int), Err(Error::InvalidValue(1, 1)));
    assert_eq!(from_str("$Beta", &distribution_shape()), Err(Error::InvalidValue(1, 1)));
    assert_eq!(from_str("$Stable(1)", &distribution_shape()), Err(Error::InvalidValue(1, 1)));
    assert_eq!(from_str("true x", &Shape::Bool), Err(Error::UnrecognizedSyntax(1, 6)));
    assert_eq!(from_str("yes", &Shape::Bool), Err(Error::UnrecognizedSyntax(1, 1)));
    let map = Shape::Mapping(Box::new(Shape::Str), Box::new(Shape::UInt));
    assert_eq!(from_str("{k->1:k->2}", &map), Err(Error::InvalidKey(1, 7)));
}

#[test]
fn error_position_on_a_later_line() {
    let text = "{\n    name->\"x\"\n    version->[1 2 x]\n}";
    let shape = Shape::Struct(vec![
        ("name".to_string(), Shape::Str),
        ("version".to_string(), Shape::Sequence(Box::new(Shape::UInt))),
    ]);
    let err = from_str(text, &shape).unwrap_err();
    assert_eq!(err, Error::UnrecognizedSyntax(3, 19));
    assert_eq!(err.describe(), "syntax could not be properly parsed (3:19)");
}

fn all_configs() -> Vec<PrettyConfig> {
    vec![
        PrettyConfig::default(),
        PrettyConfig { delimiter: DelimiterType::Whitespace, indent_width: 0 },
        PrettyConfig::hierarchy(),
        PrettyConfig { delimiter: DelimiterType::Newline, indent_width: 0 },
    ]
}

#[test]
fn string_map_round_trip() {
    let shape = Shape::Mapping(Box::new(Shape::Str), Box::new(Shape::Str));
    let make = || {
        Value::Mapping(vec![
            (s("node"), s("20.1")),
            (s("rust"), s("1.80")),
            (s("python-3"), s("3.12")),
        ])
    };
    for c in all_configs() {
        let text = to_string_pretty(&make(), c);
        assert_eq!(from_str(&text, &shape), Ok(make()), "{}", text);
    }
    assert_eq!(from_str("{}", &shape), Ok(Value::Mapping(vec![])));
}

#[test]
fn every_variant_form_round_trips() {
    let values = || {
        vec![
            Value::UnitVariant("Stable".to_string()),
            Value::NewtypeVariant("Patch".to_string(), Box::new(Value::Int(-3))),
            Value::TupleVariant("Nightly".to_string(), vec![Value::UInt(1), Value::UInt(2), Value::UInt(3)]),
            Value::StructVariant("ReleaseCandidate".to_string(), vec![(s("changelog"), s("more tests"))]),
        ]
    };
    let shape = Shape::Sequence(Box::new(distribution_shape()));
    for c in all_configs() {
        let text = to_string_pretty(&Value::Sequence(values()), c);
        assert_eq!(from_str(&text, &shape), Ok(Value::Sequence(values())), "{}", text);
    }
}

#[test]
fn nested_ordered_values_round_trip() {
    let make = || {
        Value::Sequence(vec![
            Value::Tuple(vec![Value::Char(':'), Value::Unit, Value::Bool(false)]),
            Value::Tuple(vec![Value::Char(' '), Value::Unit, Value::Bool(true)]),
        ])
    };
    let shape = Shape::Sequence(Box::new(Shape::Tuple(vec![
        Shape::Char,
        Shape::Optional(Box::new(Shape::Int)),
        Shape::Bool,
    ])));
    for c in all_configs() {
        let text = to_string_pretty(&make(), c);
        assert_eq!(from_str(&text, &shape), Ok(make()), "{}", text);
    }
}
