use valve_kv::deserializer::from_str;
use valve_kv::error::Error;
use valve_kv::serializer::{to_file, to_string};
use valve_kv::shape::{Shape, TypedValue};

fn str_value(text: &str) -> TypedValue {
    TypedValue::Str(text.to_string())
}

fn seq_of(texts: &[&str]) -> TypedValue {
    TypedValue::Sequence(texts.iter().map(|t| str_value(t)).collect())
}

#[test]
fn struct_ser() {
    let test = TypedValue::Struct(vec![
        ("int".to_string(), TypedValue::Unsigned(42)),
        ("seq1".to_string(), seq_of(&["a", "b", "c"])),
        ("seq2".to_string(), seq_of(&["d", "e", "f"])),
    ]);

    let expected = r#"
{
  "int" "42"
  "seq1" 
  {
    "0" "a"
    "1" "b"
    "2" "c"
  }
  "seq2" 
  {
    "0" "d"
    "1" "e"
    "2" "f"
  }
}
"#
    .trim();

    let res = to_string(&test).unwrap();

    assert_eq!(res, expected);
}

#[test]
fn map_ser() {
    let map = TypedValue::Mapping(vec![
        (str_value("a"), str_value("b")),
        (str_value("c"), str_value("d")),
    ]);

    let expected1 = r#"
{
  "a" "b"
  "c" "d"
}
"#
    .trim();

    let expected2 = r#"
{
  "c" "d"
  "a" "b"
}
"#
    .trim();

    let res = to_string(&map).unwrap();

    assert!(res == expected1 || res == expected2);
}

#[test]
fn nested_ser() {
    let test = TypedValue::Struct(vec![
        ("int".to_string(), TypedValue::Unsigned(42)),
        ("seq1".to_string(), seq_of(&["a", "b", "c"])),
        ("seq2".to_string(), seq_of(&["d", "e", "f"])),
    ]);

    let test2 = TypedValue::Struct(vec![
        ("int".to_string(), TypedValue::Unsigned(42)),
        ("seq1".to_string(), seq_of(&["a", "b", "c"])),
        ("seq2".to_string(), seq_of(&["d", "e", "f"])),
        ("test".to_string(), test),
    ]);

    let expected = r#"
{
  "int" "42"
  "seq1" 
  {
    "0" "a"
    "1" "b"
    "2" "c"
  }
  "seq2" 
  {
    "0" "d"
    "1" "e"
    "2" "f"
  }
  "test" 
  {
    "int" "42"
    "seq1" 
    {
      "0" "a"
      "1" "b"
      "2" "c"
    }
    "seq2" 
    {
      "0" "d"
      "1" "e"
      "2" "f"
    }
  }
}
    "#
    .trim();

    let res = to_string(&test2).unwrap();

    assert_eq!(res, expected);
}

#[test]
fn enum_ser() {
    let test = TypedValue::Struct(vec![("a".to_string(), TypedValue::Enum("A".to_string()))]);

    let expected = r#"
{
  "a" "A"
}
"#
    .trim();

    let res = to_string(&test).unwrap();

    assert_eq!(res, expected);
}

#[test]
fn encode_sequence_canonical() {
    let value = TypedValue::Struct(vec![
        ("a".to_string(), TypedValue::Unsigned(42)),
        ("b".to_string(), seq_of(&["x", "y"])),
    ]);

    let expected = "\"a\" \"42\"\n\"b\" \n{\n  \"0\" \"x\"\n  \"1\" \"y\"\n}";

    let res = to_file(&value).unwrap();

    assert_eq!(res, expected);
}

#[test]
fn scalar_encodings() {
    let value = TypedValue::Struct(vec![
        ("t".to_string(), TypedValue::Bool(true)),
        ("f".to_string(), TypedValue::Bool(false)),
        ("n".to_string(), TypedValue::Signed(-5)),
        ("c".to_string(), TypedValue::Char('x')),
        ("u".to_string(), TypedValue::Unit),
        ("o".to_string(), TypedValue::OptNone),
        ("s".to_string(), TypedValue::OptSome(Box::new(str_value("v")))),
        ("e".to_string(), TypedValue::Enum("North".to_string())),
    ]);

    let expected = "\"t\" \"1\"\n\"f\" \"0\"\n\"n\" \"-5\"\n\"c\" \"x\"\n\"u\" \"\"\n\"o\" \"\"\n\"s\" \"v\"\n\"e\" \"North\"";

    assert_eq!(to_file(&value).unwrap(), expected);
}

#[test]
fn compound_key_rejected() {
    let value = TypedValue::Mapping(vec![(
        TypedValue::Sequence(vec![]),
        str_value("v"),
    )]);

    assert!(matches!(to_string(&value), Err(Error::Custom(_))));
}

#[test]
fn round_trip_concrete() {
    let value = TypedValue::Struct(vec![
        ("a".to_string(), TypedValue::Unsigned(42)),
        ("b".to_string(), seq_of(&["x", "y"])),
        ("c".to_string(), TypedValue::OptSome(Box::new(str_value("hi")))),
        ("d".to_string(), TypedValue::Bool(true)),
        (
            "m".to_string(),
            TypedValue::Mapping(vec![(str_value("k"), str_value("v"))]),
        ),
    ]);

    let shape = Shape::Struct(vec![
        ("a".to_string(), Shape::Unsigned(32)),
        ("b".to_string(), Shape::Sequence(Box::new(Shape::Str))),
        ("c".to_string(), Shape::Optional(Box::new(Shape::Str))),
        ("d".to_string(), Shape::Bool),
        (
            "m".to_string(),
            Shape::Mapping(Box::new(Shape::Str), Box::new(Shape::Str)),
        ),
    ]);

    let text = to_file(&value).unwrap();
    let back = from_str(&text, &shape).unwrap();

    assert_eq!(back, value);
}

#[test]
fn encode_decode_encode_stable() {
    let value = TypedValue::Struct(vec![
        ("a".to_string(), TypedValue::Unsigned(7)),
        ("b".to_string(), seq_of(&["p", "q"])),
    ]);

    let shape = Shape::Struct(vec![
        ("a".to_string(), Shape::Unsigned(64)),
        ("b".to_string(), Shape::Sequence(Box::new(Shape::Str))),
    ]);

    let once = to_file(&value).unwrap();
    let back = from_str(&once, &shape).unwrap();
    let twice = to_file(&back).unwrap();

    assert_eq!(once, twice);
}
