use cosy::merge;
use cosy::schema::suggest::{find_best_match, levenshtein};
use cosy::serde::serializer::{SerializeOptions, to_string, to_string_with_options};
use cosy::syntax::lexer::{Position, Token, TokenWithPos};
use cosy::syntax::parser::{Parser, from_str};
use cosy::value::{ObjectMap, Value, ValueKind};

// ---------------------------------------------------------------------------
// Merging
// ---------------------------------------------------------------------------

#[test]
fn test_merge_scalars() {
    let mut base = Value::new(ValueKind::Integer(1));
    merge(&mut base, Value::new(ValueKind::Integer(2)));
    assert_eq!(base, Value::new(ValueKind::Integer(2)));
}

#[test]
fn test_merge_different_types() {
    let mut base = Value::new(ValueKind::Integer(1));
    merge(&mut base, Value::new(ValueKind::String("foo".to_string())));
    assert_eq!(base, Value::new(ValueKind::String("foo".to_string())));
}

#[test]
fn test_merge_arrays_replaces() {
    let mut base = from_str("[1, 2]").unwrap();
    let override_val = from_str("[3]").unwrap();
    merge(&mut base, override_val);
    assert_eq!(base, from_str("[3]").unwrap());
}

#[test]
fn test_merge_objects_simple() {
    let mut base = from_str("{ a: 1, b: 2 }").unwrap();
    let override_val = from_str("{ b: 3, c: 4 }").unwrap();
    merge(&mut base, override_val);

    if let ValueKind::Object(map) = base.kind {
        assert_eq!(map.get("a"), Some(&Value::new(ValueKind::Integer(1))));
        assert_eq!(map.get("b"), Some(&Value::new(ValueKind::Integer(3))));
        assert_eq!(map.get("c"), Some(&Value::new(ValueKind::Integer(4))));
    } else {
        panic!("Expected object");
    }
}

#[test]
fn test_merge_objects_deep() {
    let mut base = from_str(
        "{ 
            server: { 
                host: \"localhost\", 
                port: 8080 
            } 
        }",
    )
    .unwrap();

    let override_val = from_str(
        "{ 
            server: { 
                port: 9000 
            } 
        }",
    )
    .unwrap();

    merge(&mut base, override_val);

    if let ValueKind::Object(root) = base.kind {
        if let Some(server) = root.get("server") {
            if let ValueKind::Object(server) = &server.kind {
                assert_eq!(
                    server.get("host"),
                    Some(&Value::new(ValueKind::String("localhost".to_string())))
                );
                assert_eq!(server.get("port"), Some(&Value::new(ValueKind::Integer(9000))));
            } else {
                panic!("server not object");
            }
        } else {
            panic!("server not object");
        }
    } else {
        panic!("root not object");
    }
}

// ---------------------------------------------------------------------------
// Serializing
// ---------------------------------------------------------------------------

#[test]
fn test_serialize_null() {
    assert_eq!(to_string(&Value::new(ValueKind::Null)), "null");
}

#[test]
fn test_serialize_booleans() {
    assert_eq!(to_string(&Value::new(ValueKind::Bool(true))), "true");
    assert_eq!(to_string(&Value::new(ValueKind::Bool(false))), "false");
}

#[test]
fn test_serialize_numbers() {
    assert_eq!(to_string(&Value::new(ValueKind::Integer(42))), "42");
    assert_eq!(to_string(&Value::new(ValueKind::Integer(-10))), "-10");
    assert_eq!(to_string(&Value::new(ValueKind::Float("3.14".to_string()))), "3.14");
}

#[test]
fn test_serialize_strings() {
    assert_eq!(
        to_string(&Value::new(ValueKind::String("hello".to_string()))),
        r#""hello""#
    );
    assert_eq!(
        to_string(&Value::new(ValueKind::String("hello\nworld".to_string()))),
        r#""hello\nworld""#
    );
}

#[test]
fn test_serialize_empty_array() {
    assert_eq!(to_string(&Value::new(ValueKind::Array(vec![]))), "[]");
}

#[test]
fn test_serialize_simple_array() {
    let arr = Value::new(ValueKind::Array(vec![
        Value::new(ValueKind::Integer(1)),
        Value::new(ValueKind::Integer(2)),
        Value::new(ValueKind::Integer(3)),
    ]));
    let output = to_string(&arr);
    assert!(output.contains("\n"));
    assert!(output.contains("1"));
    assert!(output.contains("2"));
    assert!(output.contains("3"));
}

#[test]
fn test_serialize_array_compact() {
    let arr = Value::new(ValueKind::Array(vec![
        Value::new(ValueKind::Integer(1)),
        Value::new(ValueKind::Integer(2)),
        Value::new(ValueKind::Integer(3)),
    ]));
    let options = SerializeOptions {
        use_newlines: false,
        ..Default::default()
    };
    let output = to_string_with_options(&arr, options);
    assert_eq!(output, "[1, 2, 3]");
}

#[test]
fn test_serialize_empty_object() {
    let obj = Value::new(ValueKind::Object(ObjectMap::new()));
    assert_eq!(to_string(&obj), "{}");
}

#[test]
fn test_serialize_simple_object() {
    let mut obj = ObjectMap::new();
    obj.insert(
        "name".to_string(),
        Value::new(ValueKind::String("Alice".to_string())),
    );
    obj.insert("age".to_string(), Value::new(ValueKind::Integer(30)));
    let value = Value::new(ValueKind::Object(obj));

    let output = to_string(&value);
    assert!(output.contains("name"));
    assert!(output.contains("Alice"));
    assert!(output.contains("age"));
    assert!(output.contains("30"));
}

#[test]
fn test_serialize_object_key_order() {
    let mut obj = ObjectMap::new();
    obj.insert("first".to_string(), Value::new(ValueKind::Integer(1)));
    obj.insert("second".to_string(), Value::new(ValueKind::Integer(2)));
    obj.insert("third".to_string(), Value::new(ValueKind::Integer(3)));
    let value = Value::new(ValueKind::Object(obj));

    let output = to_string(&value);
    let first_pos = output.find("first").expect("missing 'first'");
    let second_pos = output.find("second").expect("missing 'second'");
    let third_pos = output.find("third").expect("missing 'third'");

    assert!(first_pos < second_pos);
    assert!(second_pos < third_pos);
}

#[test]
fn test_serialize_nested_structure() {
    let mut inner = ObjectMap::new();
    inner.insert("x".to_string(), Value::new(ValueKind::Integer(1)));
    inner.insert("y".to_string(), Value::new(ValueKind::Integer(2)));

    let mut outer = ObjectMap::new();
    outer.insert("point".to_string(), Value::new(ValueKind::Object(inner)));
    let value = Value::new(ValueKind::Object(outer));

    let output = to_string(&value);
    assert!(output.contains("point"));
    assert!(output.contains("x"));
    assert!(output.contains("y"));
}

#[test]
fn test_serialize_with_trailing_commas() {
    let arr = Value::new(ValueKind::Array(vec![
        Value::new(ValueKind::Integer(1)),
        Value::new(ValueKind::Integer(2)),
    ]));
    let options = SerializeOptions {
        trailing_commas: true,
        ..Default::default()
    };
    let output = to_string_with_options(&arr, options);
    assert!(output.contains(",\n"));
}

#[test]
fn test_roundtrip_parse_serialize() {
    let input = r#"{
            name: "Alice"
            scores: [95, 87, 92]
        }"#;

    let parsed = from_str(input).unwrap();
    let serialized = to_string(&parsed);

    let reparsed = from_str(&serialized).unwrap();
    assert_eq!(parsed, reparsed);
}

// ---------------------------------------------------------------------------
// Suggestions
// ---------------------------------------------------------------------------

#[test]
fn test_levenshtein() {
    assert_eq!(levenshtein("kitten", "sitting"), 3);
    assert_eq!(levenshtein("book", "back"), 2);
    assert_eq!(levenshtein("", "abc"), 3);
    assert_eq!(levenshtein("abc", ""), 3);
    assert_eq!(levenshtein("same", "same"), 0);
}

#[test]
fn test_best_match() {
    let candidates = vec!["port".to_string(), "host".to_string(), "debug".to_string()];

    assert_eq!(
        find_best_match("prt", &candidates, 2),
        Some("port".to_string())
    );
    assert_eq!(
        find_best_match("pot", &candidates, 2),
        Some("port".to_string())
    );
    assert_eq!(
        find_best_match("hst", &candidates, 2),
        Some("host".to_string())
    );

    assert_eq!(find_best_match("xyz", &candidates, 2), None);
}

// ---------------------------------------------------------------------------
// Parsing tokens
// ---------------------------------------------------------------------------

#[test]
fn test_parse_null() {
    let tokens = vec![
        TokenWithPos::new(Token::Null, Position::new(1, 1)),
        TokenWithPos::new(Token::Eof, Position::new(1, 5)),
    ];
    let mut parser = Parser::new(tokens);
    let value = parser.parse().unwrap();
    assert_eq!(value.kind, ValueKind::Null);
}

#[test]
fn test_error_has_position() {
    let tokens = vec![
        TokenWithPos::new(Token::Integer(42), Position::new(2, 10)),
        TokenWithPos::new(Token::Integer(99), Position::new(2, 13)),
        TokenWithPos::new(Token::Eof, Position::new(2, 16)),
    ];
    let mut parser = Parser::new(tokens);
    let result = parser.parse();

    assert!(result.is_err());
    let err = result.unwrap_err();
    assert_eq!(err.line, 2);
    assert_eq!(err.column, 13);
}

#[test]
fn test_integration_with_lexer() {
    let input = r#"{
        name: "Alice"
        age: 30
        scores: [95, 87, 92]
    }"#;
    let value = from_str(input).unwrap();

    match value.kind {
        ValueKind::Object(obj) => {
            let name = obj.get("name").unwrap();
            match &name.kind {
                ValueKind::String(s) => assert_eq!(s, "Alice"),
                _ => panic!("Expected string"),
            }

            let age = obj.get("age").unwrap();
            match &age.kind {
                ValueKind::Integer(i) => assert_eq!(*i, 30),
                _ => panic!("Expected integer"),
            }
        }
        _ => panic!("Expected object"),
    }
}

#[test]
fn test_key_order_preservation() {
    let input = r#"{
        first: 1
        second: 2
        third: 3
        fourth: 4
    }"#;
    let value = from_str(input).unwrap();

    match value.kind {
        ValueKind::Object(obj) => {
            let keys: Vec<&String> = obj.keys();
            assert_eq!(keys, vec!["first", "second", "third", "fourth"]);
        }
        _ => panic!("Expected object"),
    }
}
