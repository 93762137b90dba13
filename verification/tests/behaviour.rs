use cosy::error::CosynError;
use cosy::inclusion::IncludeError;
use cosy::merge;
use cosy::schema::suggest::{find_best_match, levenshtein};
use cosy::schema::{ValidationItem, ValidationLevel, validate};
use cosy::serde::data::{
    DeserializeError, EnumForm, SerializeError, SerializeObject, ValueDeserializer, ValueSerializer,
};
use cosy::serde::serializer::{
    SerializeOptions, Serializer, indentation_fits, to_string, to_string_with_options,
};
use cosy::syntax::lexer::{LexError, Lexer, Position, Token, TokenWithPos};
use cosy::syntax::parser::{ParseError, Parser, from_str};
use cosy::value::{ObjectMap, Value, ValueKind};

fn obj(v: &Value) -> &ObjectMap {
    match &v.kind {
        ValueKind::Object(m) => m,
        _ => panic!("Expected object"),
    }
}

// ---------------------------------------------------------------------------
// Reading back what was written
// ---------------------------------------------------------------------------

#[test]
fn test_read_after_write_all_layouts() {
    let input = r#"// the root
    {
        // the name
        name: "Ann \"A\"\tB"
        list: [1, -2, 3.5e-1, [], {}, [true]]
        nested: { x: null, y: [ "a" ] }
        big: -9223372036854775808
    }"#;
    let v = from_str(input).unwrap();
    let layouts = [
        SerializeOptions::default(),
        SerializeOptions { indent_size: 2, use_newlines: true, trailing_commas: true },
        SerializeOptions { indent_size: 0, use_newlines: false, trailing_commas: false },
        SerializeOptions { indent_size: 3, use_newlines: false, trailing_commas: true },
    ];
    for o in layouts.iter() {
        let text = to_string_with_options(&v, *o);
        assert_eq!(from_str(&text).unwrap(), v, "layout {:?} gave {}", o, text);
    }
}

#[test]
fn test_write_is_stable_after_one_read() {
    let v = from_str("{ b: [1, 2], a: { c: \"x\" } }").unwrap();
    let once = to_string(&v);
    let twice = to_string(&from_str(&once).unwrap());
    assert_eq!(once, twice);
}

#[test]
fn test_non_identifier_key_does_not_read_back() {
    // A quoted key that is not an identifier is written bare.
    let v = from_str(r#"{ "my-key": 1 }"#).unwrap();
    assert!(from_str(&to_string(&v)).is_err());
}

#[test]
fn test_serializer_layout() {
    let v = from_str("{ a: [1, 2], b: {} }").unwrap();
    assert_eq!(to_string(&v), "{\n    a: [\n        1,\n        2\n    ],\n    b: {}\n}");
    let compact = SerializeOptions { indent_size: 4, use_newlines: false, trailing_commas: false };
    assert_eq!(to_string_with_options(&v, compact), "{a: [1, 2], b: {}}");
    let s = Serializer::new();
    assert_eq!(s.indent_level, 0);
    assert_eq!(s.options, SerializeOptions::default());
    assert_eq!(s.serialize_string("a\"b\\c\nd"), "\"a\\\"b\\\\c\\nd\"");
}

#[test]
fn test_serializer_comments() {
    let v = from_str("[\n// one\n1\n]").unwrap();
    assert_eq!(to_string(&v), "[// one\n1]");
}

// ---------------------------------------------------------------------------
// Merging
// ---------------------------------------------------------------------------

#[test]
fn test_merge_keeps_base_order_and_appends() {
    let mut base = from_str("{ a: 1, b: { x: 1 } }").unwrap();
    merge(&mut base, from_str("{ c: 3, b: { y: 2 } }").unwrap());
    assert_eq!(obj(&base).keys(), vec!["a", "b", "c"]);
    assert_eq!(base, from_str("{ a: 1, b: { x: 1, y: 2 }, c: 3 }").unwrap());
}

#[test]
fn test_merge_with_itself_and_with_empty() {
    let v = from_str("{ a: [1], b: { c: true } }").unwrap();
    let mut same = v.deep_clone();
    merge(&mut same, v.deep_clone());
    assert_eq!(same, v);
    let mut with_empty = v.deep_clone();
    merge(&mut with_empty, Value::object(ObjectMap::new()));
    assert_eq!(with_empty, v);
}

#[test]
fn test_merge_keeps_base_comments() {
    let mut base = from_str("// base\n{ a: 1 }").unwrap();
    merge(&mut base, from_str("// over\n{ a: 2 }").unwrap());
    assert_eq!(base.comments, vec!["base".to_string()]);
}

// ---------------------------------------------------------------------------
// Suggestions
// ---------------------------------------------------------------------------

#[test]
fn test_levenshtein_laws_on_examples() {
    for (a, b) in [("kitten", "sitting"), ("", "xyz"), ("flaw", "lawn"), ("ab", "ba")] {
        assert_eq!(levenshtein(a, b), levenshtein(b, a));
        let diff = (a.chars().count() as i64 - b.chars().count() as i64).unsigned_abs() as usize;
        assert!(levenshtein(a, b) >= diff);
    }
    assert_eq!(levenshtein("flaw", "lawn"), 2);
    assert_eq!(levenshtein("über", "uber"), 1);
    assert_eq!(levenshtein("x", "x"), 0);
}

// ---------------------------------------------------------------------------
// Validation
// ---------------------------------------------------------------------------

#[test]
fn test_validation_messages() {
    let schema = from_str(r#"{ port: "integer", tags: ["string"], opt: { type: "bool", optional: true } }"#).unwrap();
    let inst = from_str(r#"{ prot: 1, tags: ["a", 2] }"#).unwrap();
    let report = validate(&inst, &schema).unwrap();
    let texts: Vec<String> = report.iter().map(|i| i.to_string()).collect();
    assert_eq!(
        texts,
        vec![
            "[Error at $] Missing required field 'port'".to_string(),
            "[Error at $.tags[1]] Type mismatch: expected string, found integer".to_string(),
            "[Error at $] Unknown field 'prot'; did you mean 'port'?".to_string(),
        ]
    );
}

#[test]
fn test_validation_schema_errors() {
    let inst = from_str("{ a: 1 }").unwrap();
    let bad_type = validate(&inst, &from_str(r#"{ a: "whole" }"#).unwrap()).unwrap_err();
    assert_eq!(bad_type.message, "Unknown type 'whole'");
    assert_eq!(bad_type.path, "$.a");
    let bad_array = validate(&inst, &from_str(r#"{ a: ["integer", "string"] }"#).unwrap()).unwrap_err();
    assert_eq!(bad_array.message, "Array schema must contain exactly one element specifier");
    let bad_schema = validate(&inst, &from_str("{ a: 5 }").unwrap()).unwrap_err();
    assert_eq!(bad_schema.message, "Unsupported schema value type: integer");
    let item = ValidationItem {
        level: ValidationLevel::Warning,
        path: "$.x".to_string(),
        message: "Deprecated usage: old".to_string(),
    };
    assert_eq!(item.to_string(), "[Warning at $.x] Deprecated usage: old");
}

#[test]
fn test_validation_shape_mismatch() {
    let report = validate(&from_str("[1]").unwrap(), &from_str("{ a: \"any\" }").unwrap()).unwrap();
    assert_eq!(report[0].message, "Expected object, found array");
    let report = validate(&from_str("{}").unwrap(), &from_str("[\"any\"]").unwrap()).unwrap();
    assert_eq!(report[0].message, "Expected array, found object");
    let report = validate(&from_str("1.5").unwrap(), &from_str("\"number\"").unwrap()).unwrap();
    assert!(report.is_empty());
}

// ---------------------------------------------------------------------------
// Lexing and errors
// ---------------------------------------------------------------------------

#[test]
fn test_lex_errors() {
    let cases = [
        ("{ @ }", "Unexpected character '@'", 1, 3),
        ("\"abc", "Unterminated string", 1, 1),
        ("\"a\\qb\"", "Invalid escape sequence '\\q'", 1, 3),
        ("99999999999999999999", "Integer out of range", 1, 1),
        ("-", "Invalid number: expected a digit", 1, 2),
        ("1.", "Invalid number: expected a digit after '.'", 1, 3),
        ("1e+", "Invalid number: expected a digit in the exponent", 1, 4),
        ("\n  ${NOPE}", "Environment variable 'NOPE' not found", 2, 3),
    ];
    for (input, message, line, column) in cases {
        match from_str(input) {
            Err(CosynError::Lex(e)) => {
                assert_eq!(e.message, message, "input {:?}", input);
                assert_eq!((e.line, e.column), (line, column), "input {:?}", input);
            }
            other => panic!("Expected a lex error for {:?}, got {:?}", input, other),
        }
    }
}

#[test]
fn test_parse_errors() {
    let cases = [
        ("{ a 1 }", "Expected ':' after object key", 1, 5),
        ("[1 2]", "Expected ',' or ']' in array, found 2", 1, 4),
        ("{ a: 1 b: 2 }", "Expected ',' or '}' in object, found b", 1, 8),
        ("{ 1: 2 }", "Expected object key (identifier or string), found 1", 1, 3),
        ("1 2", "Unexpected tokens after value", 1, 3),
        (":", "Expected value, found ':'", 1, 1),
    ];
    for (input, message, line, column) in cases {
        match from_str(input) {
            Err(CosynError::Parse(e)) => {
                assert_eq!(e.message, message, "input {:?}", input);
                assert_eq!((e.line, e.column), (line, column), "input {:?}", input);
            }
            other => panic!("Expected a parse error for {:?}, got {:?}", input, other),
        }
    }
}

#[test]
fn test_error_texts() {
    let lex = CosynError::Lex(LexError { message: "m".to_string(), line: 2, column: 7 });
    assert_eq!(lex.to_string(), "Lex error at line 2, column 7: m");
    assert_eq!((lex.line(), lex.column(), lex.message()), (2, 7, "m".to_string()));
    let parse = ParseError { message: "p".to_string(), line: 1, column: 3 };
    assert_eq!(parse.to_string(), "Parse error at line 1, column 3: p");
    assert_eq!(CosynError::Parse(parse).to_string(), "Parse error at line 1, column 3: p");
    let io = CosynError::Io("gone".to_string());
    assert_eq!(io.to_string(), "IO error: gone");
    assert_eq!((io.line(), io.column(), io.message()), (0, 0, "gone".to_string()));
    assert_eq!(CosynError::Include("x".to_string()).to_string(), "Include error: x");
}

#[test]
fn test_include_error_texts() {
    assert_eq!(
        IncludeError::IoError("no file".to_string()).to_string(),
        "IO error during include: no file"
    );
    let inner = CosynError::Io("z".to_string());
    assert_eq!(
        IncludeError::ParseError(inner).to_string(),
        "Parse error in included file: IO error: z"
    );
    assert_eq!(
        IncludeError::InvalidIncludePath { path: "p".to_string(), message: "bad".to_string() }
            .to_string(),
        "Invalid include path 'p': bad"
    );
    assert_eq!(
        IncludeError::RecursionLimitExceeded.to_string(),
        "Recursion limit exceeded (max 10 depth)"
    );
    assert_eq!(
        IncludeError::InvalidIncludeTarget("t".to_string()).to_string(),
        "Invalid include usage: t"
    );
}

#[test]
fn test_lexer_tokens_and_positions() {
    let toks = Lexer::new("{ a: // c \n 1.5e3 }").tokenize().unwrap();
    let kinds: Vec<Token> = toks.iter().map(|t| t.token.clone()).collect();
    assert_eq!(
        kinds,
        vec![
            Token::LeftBrace,
            Token::Identifier("a".to_string()),
            Token::Colon,
            Token::Comment("c".to_string()),
            Token::Newline,
            Token::Float("1.5e3".to_string()),
            Token::RightBrace,
            Token::Eof,
        ]
    );
    assert_eq!(toks[5].pos, Position::new(2, 2));
    assert_eq!(toks[7].pos, Position::new(2, 9));
}

#[test]
fn test_env_tokens_outside_strings() {
    let env = vec![
        ("N".to_string(), "-12".to_string()),
        ("F".to_string(), "false".to_string()),
        ("S".to_string(), "12abc".to_string()),
    ];
    let toks = Lexer::with_env("${N} ${F} ${S}", env).tokenize().unwrap();
    assert_eq!(toks[0].token, Token::Integer(-12));
    assert_eq!(toks[1].token, Token::False);
    assert_eq!(toks[2].token, Token::String("12abc".to_string()));
}

// ---------------------------------------------------------------------------
// The parser's steps
// ---------------------------------------------------------------------------

#[test]
fn test_parser_steps() {
    let tokens = vec![
        TokenWithPos::new(Token::Newline, Position::new(1, 1)),
        TokenWithPos::new(Token::Comment("x".to_string()), Position::new(2, 1)),
        TokenWithPos::new(Token::LeftBrace, Position::new(3, 1)),
        TokenWithPos::new(Token::Eof, Position::new(3, 5)),
    ];
    let mut p = Parser::new(tokens);
    assert!(!p.is_at_end());
    let (comments, newline) = p.consume_newlines_and_comments_captured();
    assert_eq!(comments, vec!["x".to_string()]);
    assert!(newline);
    assert_eq!(p.current_token(), Token::LeftBrace);
    assert_eq!(p.current_position(), Position::new(3, 1));
    let err = p.expect(Token::Colon, "need a colon").unwrap_err();
    assert_eq!((err.message.as_str(), err.line, err.column), ("need a colon", 3, 1));
    // Only punctuation is expected this way.
    assert!(p.expect(Token::Null, "need null").is_err());
    assert!(p.expect(Token::LeftBrace, "need a brace").is_ok());
    assert_eq!(p.current_token(), Token::Eof);
    assert!(!p.is_at_end());
    let e = p.error_at_current("here".to_string());
    assert_eq!((e.line, e.column), (3, 5));
    p.advance();
    assert!(p.is_at_end());
    p.advance();
    assert!(p.is_at_end());
    assert_eq!(p.current_token(), Token::Eof);
    // Past the last token, errors point at the start.
    assert_eq!(p.current_position(), Position::new(1, 1));
}

// ---------------------------------------------------------------------------
// Values
// ---------------------------------------------------------------------------

#[test]
fn test_value_display_and_names() {
    let v = from_str(r#"{ a: 1, b: [true, "x", null, 2.5], c: {} }"#).unwrap();
    assert_eq!(v.to_string(), r#"{a: 1, b: [true, "x", null, 2.5], c: {}}"#);
    assert_eq!(v.kind_name(), "object");
    assert_eq!(Value::float("1.0".to_string()).kind_name(), "float");
    assert_eq!(ValueKind::Array(vec![]).kind_name(), "array");
    assert_eq!(Value::null().to_string(), "null");
}

#[test]
fn test_object_map_operations() {
    let mut m = ObjectMap::new();
    assert!(m.is_empty());
    m.insert("x".to_string(), Value::integer(1));
    m.insert("y".to_string(), Value::integer(2));
    m.insert("x".to_string(), Value::integer(3));
    assert_eq!(m.len(), 2);
    assert_eq!(m.keys(), vec!["x", "y"]);
    assert_eq!(m.get("x"), Some(&Value::integer(3)));
    assert_eq!(m.position("y"), Some(1));
    assert_eq!(m.shift_remove("x"), Some(Value::integer(3)));
    assert_eq!(m.shift_remove("x"), None);
    assert_eq!(m.keys(), vec!["y"]);
    assert!(!m.contains_key("x"));
}

#[test]
fn test_deep_clone_is_equal() {
    let v = from_str("// c\n{ a: [1, { b: \"x\" }], d: 1.5 }").unwrap();
    assert_eq!(v.deep_clone(), v);
}

// ---------------------------------------------------------------------------
// The value side of Serde
// ---------------------------------------------------------------------------

#[test]
fn test_value_serializer() {
    assert_eq!(ValueSerializer::serialize_u64(5), Value::integer(5));
    assert_eq!(ValueSerializer::serialize_u64(u64::MAX), Value::integer(-1));
    assert_eq!(ValueSerializer::serialize_u64(1 << 63), Value::integer(i64::MIN));
    assert_eq!(ValueSerializer::serialize_char('é'), Value::string("é".to_string()));
    assert_eq!(
        ValueSerializer::serialize_bytes(&[1, 255]),
        Value::array(vec![Value::integer(1), Value::integer(255)])
    );
    assert_eq!(ValueSerializer::serialize_unit_variant("On"), Value::string("On".to_string()));
    let nv = ValueSerializer::serialize_newtype_variant("Num", Value::integer(4));
    assert_eq!(nv, from_str("{ Num: 4 }").unwrap());
}

#[test]
fn test_serialize_object_protocol() {
    let mut o = SerializeObject::new(None);
    let err = o.serialize_value(Value::integer(1)).unwrap_err();
    assert_eq!(err.0, "serialize_value called before serialize_key");
    assert_eq!(err.to_string(), "Serialization error: serialize_value called before serialize_key");
    let err = o.serialize_key(Value::integer(1)).unwrap_err();
    assert_eq!(err, SerializeError("keys must be strings".to_string()));
    o.serialize_key(Value::string("k".to_string())).unwrap();
    o.serialize_value(Value::boolean(true)).unwrap();
    o.serialize_field("z", Value::null());
    assert_eq!(o.end(), from_str("{ k: true, z: null }").unwrap());
}

#[test]
fn test_value_deserializer() {
    let de = |t: &str| ValueDeserializer::new(from_str(t).unwrap());
    assert_eq!(de("true").deserialize_bool(), Ok(true));
    assert_eq!(de("1").deserialize_bool(), Err(DeserializeError("expected bool".to_string())));
    assert_eq!(de("-3").deserialize_i64(), Ok(-3));
    assert_eq!(de("7").deserialize_u64(), Ok(7));
    assert_eq!(
        de("-7").deserialize_u64(),
        Err(DeserializeError("expected non-negative integer".to_string()))
    );
    assert_eq!(de("\"s\"").deserialize_u64(), Err(DeserializeError("expected integer".to_string())));
    assert_eq!(de("\"s\"").deserialize_string(), Ok("s".to_string()));
    assert_eq!(de("[1]").deserialize_seq(), Ok(vec![Value::integer(1)]));
    assert_eq!(de("1").deserialize_map().unwrap_err().to_string(), "Deserialization error: expected object");
    assert_eq!(de("null").deserialize_option(), None);
    assert_eq!(de("2").deserialize_option(), Some(Value::integer(2)));
    assert_eq!(de("\"On\"").deserialize_enum(), Ok(EnumForm::Unit("On".to_string())));
    assert_eq!(
        de("{ Num: 4 }").deserialize_enum(),
        Ok(EnumForm::Newtype("Num".to_string(), Value::integer(4)))
    );
    assert_eq!(
        de("{ a: 1, b: 2 }").deserialize_enum(),
        Err(DeserializeError(
            "enum variants with multiple fields are not supported (use newtype or unit variants)"
                .to_string()
        ))
    );
    assert_eq!(
        de("3").deserialize_enum(),
        Err(DeserializeError("expected enum (string or single-key object)".to_string()))
    );
}

// ---------------------------------------------------------------------------
// Conversions, copies, objects, suggestions, parsing from a position
// ---------------------------------------------------------------------------

#[test]
fn test_value_from_conversions() {
    assert_eq!(Value::from(true).kind, ValueKind::Bool(true));
    assert_eq!(Value::from(42i64).kind, ValueKind::Integer(42));
    assert_eq!(Value::from("hi").kind, ValueKind::String("hi".to_string()));
    assert_eq!(Value::from("yo".to_string()).kind, ValueKind::String("yo".to_string()));
    assert_eq!(Value::from(ValueKind::Null).kind, ValueKind::Null);
    assert!(Value::from(false).comments.is_empty());
}

#[test]
fn test_value_clone_keeps_everything() {
    let v = from_str("// c\n{ a: [1, { b: \"x\" }], c: 2.5 }").unwrap();
    let w = v.clone();
    assert_eq!(v, w);
    let m = obj(&v).clone();
    assert_eq!(&m, obj(&v));
    assert_eq!(v.kind.clone(), v.kind);
}

#[test]
fn test_object_keys_stay_distinct() {
    let mut m = ObjectMap::new();
    m.insert("a".to_string(), Value::integer(1));
    m.insert("b".to_string(), Value::integer(2));
    m.insert("a".to_string(), Value::integer(3));
    let es = m.into_entries();
    assert_eq!(es.len(), 2);
    assert_eq!(es[0].0, "a");
    assert_eq!(es[0].1.kind, ValueKind::Integer(3));
    assert_eq!(es[1].0, "b");
    let v = from_str("{ k: 1, k: 2 }").unwrap();
    assert_eq!(obj(&v).len(), 1);
    assert_eq!(obj(&v).get("k").unwrap().kind, ValueKind::Integer(2));
}

#[test]
fn test_best_match_with_widest_bound() {
    let cands = vec!["a".to_string()];
    assert_eq!(find_best_match("a", &cands, usize::MAX), Some("a".to_string()));
    let cands = vec!["xyz".to_string(), "abc".to_string()];
    assert_eq!(find_best_match("", &cands, usize::MAX), Some("xyz".to_string()));
    assert_eq!(find_best_match("", &cands, 2), None);
}

#[test]
fn test_levenshtein_triangle() {
    let words = ["kitten", "sitting", "mitten", "", "sit"];
    for a in words {
        for b in words {
            for c in words {
                assert!(levenshtein(a, c) <= levenshtein(a, b) + levenshtein(b, c));
            }
        }
    }
}

#[test]
fn test_parse_from_current_position() {
    let tokens = Lexer::new("1 2").tokenize().unwrap();
    let mut p = Parser::new(tokens);
    p.position = 1;
    assert_eq!(p.parse().unwrap().kind, ValueKind::Integer(2));
    let tokens = Lexer::new("1 2").tokenize().unwrap();
    let n = tokens.len();
    let mut p = Parser::new(tokens);
    p.position = n + 5;
    let e = p.parse().unwrap_err();
    assert_eq!(e.message, "Expected value, found end of input");
    assert_eq!((e.line, e.column), (1, 1));
}

#[test]
fn test_indentation_fits() {
    let v = from_str("{ a: [[1]] }").unwrap();
    assert!(indentation_fits(&v, SerializeOptions::default()));
    assert!(!indentation_fits(&v, SerializeOptions { indent_size: usize::MAX, use_newlines: true, trailing_commas: false }));
    assert!(indentation_fits(&Value::integer(1), SerializeOptions { indent_size: usize::MAX, use_newlines: true, trailing_commas: false }));
}

#[test]
fn test_object_equality_ignores_entry_order() {
    let a = from_str("{ x: 1, y: { p: true, q: [1, 2] } }").unwrap();
    let b = from_str("{ y: { q: [1, 2], p: true }, x: 1 }").unwrap();
    assert_eq!(a, b);
    assert_eq!(obj(&a), obj(&b));
    assert_eq!(a.kind, b.kind);
    let c = from_str("{ x: 1, y: { p: true, q: [2, 1] } }").unwrap();
    assert_ne!(a, c);
    let d = from_str("{ x: 1 }").unwrap();
    assert_ne!(a, d);
    let e = from_str("// note\n{ x: 1 }").unwrap();
    assert_ne!(d, e);
}

#[test]
fn test_keys_distinct_walks_nested_values() {
    let v = from_str("{ a: [{ b: 1, b: 2 }, [{ c: {} }]], d: 3 }").unwrap();
    v.keys_distinct();
    let inner = &obj(&v).get("a").unwrap();
    match &inner.kind {
        ValueKind::Array(items) => assert_eq!(obj(&items[0]).len(), 1),
        _ => panic!("Expected array"),
    }
}
