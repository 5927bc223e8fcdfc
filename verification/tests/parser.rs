use valve_kv::kv::{KeyValue, KeyValueFile, Value};
use valve_kv::parser::{parse_input, ImportResolver};

#[test]
fn parse_single_kv() {
    let input = r#""key" "value""#;

    let kv = parse_input(input).unwrap();

    assert_eq!(
        kv,
        KeyValueFile::from(vec![KeyValue {
            key: "key".to_string(),
            value: Value::Value("value".to_string())
        }])
    )
}

#[test]
fn parse_multiple_kv() {
    let input = r#"
    "key1" "value1"
    "key2" "value2"
    "#;

    let kv = parse_input(input).unwrap();

    assert_eq!(
        kv,
        KeyValueFile::from(vec![
            KeyValue {
                key: "key1".to_string(),
                value: Value::Value("value1".to_string())
            },
            KeyValue {
                key: "key2".to_string(),
                value: Value::Value("value2".to_string())
            }
        ])
    )
}

#[test]
fn parse_nested_kv() {
    let input = r#"
    "key"
    {
        "key_nested" "value"
    }
    "#;

    let kv = parse_input(input).unwrap();

    assert_eq!(
        kv,
        KeyValueFile::from(vec![KeyValue {
            key: "key".to_string(),
            value: Value::Section(vec![KeyValue {
                key: "key_nested".to_string(),
                value: Value::Value("value".to_string())
            }])
        },])
    )
}

#[test]
fn parse_multiple_nested_kv() {
    let input = r#"
    "key1"
    {
        "key1_nested" "value1"
    }
    "key2"
    {
        "key2_nested" "value2"
    }
    "#;

    let kv = parse_input(input).unwrap();

    assert_eq!(
        kv,
        KeyValueFile::from(vec![
            KeyValue {
                key: "key1".to_string(),
                value: Value::Section(vec![KeyValue {
                    key: "key1_nested".to_string(),
                    value: Value::Value("value1".to_string())
                }])
            },
            KeyValue {
                key: "key2".to_string(),
                value: Value::Section(vec![KeyValue {
                    key: "key2_nested".to_string(),
                    value: Value::Value("value2".to_string())
                }])
            }
        ])
    )
}

#[test]
fn parse_nested_nested() {
    let input = r#"
    "key_outer"
    {
        "key_nested1"
        {
            "key_nested_nested1" "value1"
        }
        "key_nested2"
        {
            "key_nested_nested2" "value2"
        }
    }
    "#;

    let kv = parse_input(input).unwrap();

    assert_eq!(
        kv,
        KeyValueFile::from(vec![KeyValue {
            key: "key_outer".to_string(),
            value: Value::Section(vec![
                KeyValue {
                    key: "key_nested1".to_string(),
                    value: Value::Section(vec![KeyValue {
                        key: "key_nested_nested1".to_string(),
                        value: Value::Value("value1".to_string())
                    },])
                },
                KeyValue {
                    key: "key_nested2".to_string(),
                    value: Value::Section(vec![KeyValue {
                        key: "key_nested_nested2".to_string(),
                        value: Value::Value("value2".to_string())
                    },])
                }
            ])
        },])
    )
}

#[test]
fn parse_imports() {
    let input = r#"
    #base "import1"
    #base "import2"
    "#;

    let kv = parse_input(input).unwrap();

    assert_eq!(
        kv,
        KeyValueFile {
            kvs: vec![],
            imports: vec!["import1".to_string(), "import2".to_string()]
        }
    )
}

#[test]
fn parse_embedded_quote_fails() {
    let input = r#""a" "he"llo""#;

    let res = parse_input(input);

    assert!(matches!(res, Err(valve_kv::error::Error::ParseKeyValueError(_))));
}

#[test]
fn parse_unclosed_quote_fails() {
    let res = parse_input(r#""key" "valu"#);

    assert!(matches!(res, Err(valve_kv::error::Error::ParseKeyValueError(_))));
}

#[test]
fn parse_bare_word_fails() {
    let res = parse_input(r#"key "value""#);

    assert!(matches!(res, Err(valve_kv::error::Error::ParseKeyValueError(_))));
}

#[test]
fn parse_empty_input() {
    let kv = parse_input("").unwrap();

    assert_eq!(kv, KeyValueFile { kvs: vec![], imports: vec![] });
}

#[test]
fn resolver_flatten_order() {
    let file_a = "#base \"b.kv\"\n\"k1\" \"v1\"\n\"k2\" \"v2\"\n";
    let file_b = "\"k3\" \"v3\"\n";

    let mut resolver = ImportResolver::new("dir/a.kv");

    let first = resolver.next_path().unwrap();
    assert_eq!(first, "dir/a.kv".to_string());
    resolver.add_parsed(parse_input(file_a).unwrap());

    let second = resolver.next_path().unwrap();
    assert_eq!(second, "dir/b.kv".to_string());
    resolver.add_parsed(parse_input(file_b).unwrap());

    assert!(resolver.next_path().is_none());
    let merged = resolver.finish();

    assert_eq!(merged.len(), 3);
    assert_eq!(merged[0].key, "k1".to_string());
    assert_eq!(merged[1].key, "k2".to_string());
    assert_eq!(merged[2].key, "k3".to_string());
}
