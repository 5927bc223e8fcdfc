use valve_kv::deserializer::{from_str, Deserializer};
use valve_kv::error::Error;
use valve_kv::kv::Value;
use valve_kv::shape::{Shape, TypedValue};

fn field(name: &str, shape: Shape) -> (String, Shape) {
    (name.to_string(), shape)
}

fn str_value(text: &str) -> TypedValue {
    TypedValue::Str(text.to_string())
}

#[test]
fn single_field_de() {
    let shape = Shape::Struct(vec![field("a", Shape::Str)]);

    let input = r#""a" "hello""#;

    let res = from_str(input, &shape).unwrap();

    assert_eq!(
        res,
        TypedValue::Struct(vec![("a".to_string(), str_value("hello"))])
    );
}

#[test]
fn multi_field_de() {
    let shape = Shape::Struct(vec![field("a", Shape::Str), field("b", Shape::Str)]);

    let input = r#""a" "hello"
"b" "world""#;

    let res = from_str(input, &shape).unwrap();

    assert_eq!(
        res,
        TypedValue::Struct(vec![
            ("a".to_string(), str_value("hello")),
            ("b".to_string(), str_value("world")),
        ])
    );
}

#[test]
fn seq_de() {
    let shape = Shape::Struct(vec![field("a", Shape::Sequence(Box::new(Shape::Str)))]);

    let input = r#"
    "a"
    {
        "0" "hello"
        "1" "world"
    }
    "#;

    let res = from_str(input, &shape).unwrap();

    assert_eq!(
        res,
        TypedValue::Struct(vec![(
            "a".to_string(),
            TypedValue::Sequence(vec![str_value("hello"), str_value("world")])
        )])
    );
}

#[test]
fn wrong_order_seq_de() {
    let shape = Shape::Struct(vec![field("a", Shape::Sequence(Box::new(Shape::Str)))]);

    let input = r#"
    "a"
    {
        "1" "world"
        "0" "hello"
    }
    "#;

    let res = from_str(input, &shape).unwrap();

    assert_eq!(
        res,
        TypedValue::Struct(vec![(
            "a".to_string(),
            TypedValue::Sequence(vec![str_value("hello"), str_value("world")])
        )])
    );
}

#[test]
fn map_de() {
    let shape = Shape::Struct(vec![field(
        "a",
        Shape::Mapping(Box::new(Shape::Str), Box::new(Shape::Str)),
    )]);

    let input = r#"
    "a"
    {
        "hello" "world"
        "foo" "bar"
    }
    "#;

    let res = from_str(input, &shape).unwrap();

    assert_eq!(
        res,
        TypedValue::Struct(vec![(
            "a".to_string(),
            TypedValue::Mapping(vec![
                (str_value("hello"), str_value("world")),
                (str_value("foo"), str_value("bar")),
            ])
        )])
    );
}

#[test]
fn nested_struct_de() {
    let nested = Shape::Struct(vec![field("c", Shape::Str), field("d", Shape::Str)]);
    let shape = Shape::Struct(vec![field("a", Shape::Str), field("b", nested)]);

    let input = r#"
    "a" "hello"
    "b"
    {
        "c" "world"
        "d" "foo"
    }
    "#;

    let res = from_str(input, &shape).unwrap();

    assert_eq!(
        res,
        TypedValue::Struct(vec![
            ("a".to_string(), str_value("hello")),
            (
                "b".to_string(),
                TypedValue::Struct(vec![
                    ("c".to_string(), str_value("world")),
                    ("d".to_string(), str_value("foo")),
                ])
            ),
        ])
    );
}

#[test]
fn bool_de() {
    let shape = Shape::Struct(vec![field("a", Shape::Bool), field("b", Shape::Bool)]);

    let input = r#"
    "a" "1"
    "b" "0"
    "#;

    let res = from_str(input, &shape).unwrap();

    assert_eq!(
        res,
        TypedValue::Struct(vec![
            ("a".to_string(), TypedValue::Bool(true)),
            ("b".to_string(), TypedValue::Bool(false)),
        ])
    );
}

#[test]
fn struct_map_de() {
    let nested = Shape::Struct(vec![field("b", Shape::Str), field("c", Shape::Str)]);
    let shape = Shape::Struct(vec![field(
        "a",
        Shape::Mapping(Box::new(Shape::Str), Box::new(nested)),
    )]);

    let input = r#"
    "a"
    {
        "hello"
        {
            "b" "world"
            "c" "foo"
        }
        "foo"
        {
            "b" "bar"
            "c" "baz"
        }
    }
    "#;

    let res = from_str(input, &shape).unwrap();

    assert_eq!(
        res,
        TypedValue::Struct(vec![(
            "a".to_string(),
            TypedValue::Mapping(vec![
                (
                    str_value("hello"),
                    TypedValue::Struct(vec![
                        ("b".to_string(), str_value("world")),
                        ("c".to_string(), str_value("foo")),
                    ])
                ),
                (
                    str_value("foo"),
                    TypedValue::Struct(vec![
                        ("b".to_string(), str_value("bar")),
                        ("c".to_string(), str_value("baz")),
                    ])
                ),
            ])
        )])
    );
}

#[test]
fn enum_de() {
    let variants = || {
        Shape::Enum(vec!["A".to_string(), "B".to_string(), "C".to_string()])
    };
    let shape = Shape::Struct(vec![
        field("a", variants()),
        field("b", variants()),
        field("c", variants()),
    ]);

    let input = r#"
    "b" "A"
    "a" "C"
    "c" "B"
    "#;

    let res = from_str(input, &shape).unwrap();

    assert_eq!(
        res,
        TypedValue::Struct(vec![
            ("a".to_string(), TypedValue::Enum("C".to_string())),
            ("b".to_string(), TypedValue::Enum("A".to_string())),
            ("c".to_string(), TypedValue::Enum("B".to_string())),
        ])
    );
}

#[test]
fn bool_literal_contract() {
    let yes = Deserializer::from_kv(Value::Value("yes".to_string()));
    assert!(matches!(yes.deserialize(&Shape::Bool), Err(Error::ParseBoolError)));

    let one = Deserializer::from_kv(Value::Value("1".to_string()));
    assert_eq!(one.deserialize(&Shape::Bool).unwrap(), TypedValue::Bool(true));

    let zero = Deserializer::from_kv(Value::Value("0".to_string()));
    assert_eq!(zero.deserialize(&Shape::Bool).unwrap(), TypedValue::Bool(false));
}

#[test]
fn numeric_decode() {
    let forty_two = Deserializer::from_kv(Value::Value("42".to_string()));
    assert_eq!(
        forty_two.deserialize(&Shape::Unsigned(32)).unwrap(),
        TypedValue::Unsigned(42)
    );

    let plus = Deserializer::from_kv(Value::Value("+7".to_string()));
    assert_eq!(plus.deserialize(&Shape::Unsigned(64)).unwrap(), TypedValue::Unsigned(7));

    let negative = Deserializer::from_kv(Value::Value("-19".to_string()));
    assert_eq!(negative.deserialize(&Shape::Signed(16)).unwrap(), TypedValue::Signed(-19));

    let too_wide = Deserializer::from_kv(Value::Value("256".to_string()));
    assert!(matches!(
        too_wide.deserialize(&Shape::Unsigned(8)),
        Err(Error::ExpectedValueError)
    ));

    let overflow = Deserializer::from_kv(Value::Value("18446744073709551616".to_string()));
    assert!(matches!(
        overflow.deserialize(&Shape::Unsigned(64)),
        Err(Error::ExpectedValueError)
    ));
}

#[test]
fn shape_mismatch_errors() {
    let scalar = Deserializer::from_kv(Value::Value("x".to_string()));
    assert!(matches!(
        scalar.deserialize(&Shape::Sequence(Box::new(Shape::Str))),
        Err(Error::ExpectedSectionError)
    ));

    let section = Deserializer::from_kv(Value::Section(vec![]));
    assert!(matches!(section.deserialize(&Shape::Str), Err(Error::ExpectedValueError)));

    let long = Deserializer::from_kv(Value::Value("ab".to_string()));
    assert!(matches!(long.deserialize(&Shape::Char), Err(Error::ExpectedCharError)));

    let filled = Deserializer::from_kv(Value::Value("x".to_string()));
    assert!(matches!(filled.deserialize(&Shape::Unit), Err(Error::ExpectedUnitError)));

    let unknown = from_str(r#""zzz" "1""#, &Shape::Struct(vec![field("a", Shape::Bool)]));
    assert!(matches!(unknown, Err(Error::Custom(_))));
}

#[test]
fn option_decode() {
    let absent = Deserializer::from_kv(Value::Value("".to_string()));
    assert_eq!(
        absent.deserialize(&Shape::Optional(Box::new(Shape::Str))).unwrap(),
        TypedValue::OptNone
    );

    let present = Deserializer::from_kv(Value::Value("hi".to_string()));
    assert_eq!(
        present.deserialize(&Shape::Optional(Box::new(Shape::Str))).unwrap(),
        TypedValue::OptSome(Box::new(str_value("hi")))
    );
}

#[test]
fn parse_value_scalar() {
    let scalar = Deserializer::from_kv(Value::Value("7".to_string()));
    assert_eq!(scalar.parse_value().unwrap(), "7".to_string());

    let section = Deserializer::from_kv(Value::Section(vec![]));
    assert!(matches!(section.parse_value(), Err(Error::ExpectedValueError)));
}

#[test]
fn duplicate_keys_mapping() {
    let shape = Shape::Mapping(Box::new(Shape::Str), Box::new(Shape::Str));

    let res = from_str("\"k\" \"1\"\n\"k\" \"2\"\n", &shape).unwrap();

    assert_eq!(
        res,
        TypedValue::Mapping(vec![
            (str_value("k"), str_value("1")),
            (str_value("k"), str_value("2")),
        ])
    );
}

#[test]
fn two_digit_index_order() {
    let shape = Shape::Sequence(Box::new(Shape::Str));

    let input = r#"
    "2" "two"
    "10" "ten"
    "#;

    let res = from_str(input, &shape).unwrap();

    assert_eq!(
        res,
        TypedValue::Sequence(vec![str_value("ten"), str_value("two")])
    );
}

#[test]
fn shape_well_formed() {
    assert!(Shape::Unsigned(8).well_formed());
    assert!(Shape::Signed(64).well_formed());
    assert!(!Shape::Unsigned(0).well_formed());
    assert!(!Shape::Sequence(Box::new(Shape::Signed(65))).well_formed());
    assert!(!Shape::Struct(vec![field("a", Shape::Signed(65))]).well_formed());
}
