use cosy::inclusion::{Halt, IncludeError, Loaded, resolve};
use cosy::load::{LoadHalt, load_and_merge};
use cosy::value::{ObjectMap, Value, ValueKind};
use cosy::{CosynError, from_str};

/// The directory that the files of a test live in.
const DIR: &str = "/config";

/// The source table entry for `name` in `files`, if the test has that file.
fn source(files: &[(&str, &str)], base_dir: &str, path: &str) -> Option<Loaded> {
    for (name, content) in files {
        if *name == path {
            return Some(Loaded {
                base_dir: base_dir.to_string(),
                path: path.to_string(),
                content: content.to_string(),
                dir: base_dir.to_string(),
            });
        }
    }
    None
}

/// Resolve `value` from `DIR` against the files of a test, loading each file
/// that resolution asks for.
fn resolve_with(value: &mut Value, files: &[(&str, &str)]) -> Result<(), IncludeError> {
    let mut table: Vec<Loaded> = Vec::new();
    let env: Vec<(String, String)> = Vec::new();
    loop {
        let mut attempt = value.deep_clone();
        match resolve(&mut attempt, &DIR.to_string(), &table, &env) {
            Ok(()) => {
                *value = attempt;
                return Ok(());
            }
            Err(Halt::Failed(e)) => {
                *value = attempt;
                return Err(e);
            }
            Err(Halt::NeedsFile { base_dir, path }) => match source(files, &base_dir, &path) {
                Some(l) => table.push(l),
                None => {
                    *value = attempt;
                    return Err(IncludeError::IoError(format!("no such file: {}", path)));
                }
            },
        }
    }
}

/// Load and merge the given texts, all read from `DIR`.
fn load_with(texts: &[&str], files: &[(&str, &str)]) -> Result<Value, CosynError> {
    let sources: Vec<(String, String)> =
        texts.iter().map(|t| (t.to_string(), DIR.to_string())).collect();
    let mut table: Vec<Loaded> = Vec::new();
    let env: Vec<(String, String)> = Vec::new();
    loop {
        match load_and_merge(&sources, &table, &env) {
            Ok(v) => return Ok(v),
            Err(LoadHalt::Failed(e)) => return Err(e),
            Err(LoadHalt::NeedsFile { base_dir, path }) => match source(files, &base_dir, &path) {
                Some(l) => table.push(l),
                None => return Err(CosynError::Io(format!("no such file: {}", path))),
            },
        }
    }
}

fn as_object(v: &Value) -> Option<&ObjectMap> {
    match &v.kind {
        ValueKind::Object(map) => Some(map),
        _ => None,
    }
}

fn as_array(v: &Value) -> Option<&Vec<Value>> {
    match &v.kind {
        ValueKind::Array(arr) => Some(arr),
        _ => None,
    }
}

// ---------------------------------------------------------------------------
// The mixin directive
// ---------------------------------------------------------------------------

#[test]
fn test_basic_inclusion() {
    let files = [(
        "base.cosy",
        r#"{
        debug: false
        port: 8000
    }"#,
    )];
    let app = r#"{
        include: "base.cosy"
        debug: true
    }"#;
    let mut config = from_str(app).unwrap();
    resolve_with(&mut config, &files).unwrap();

    if let ValueKind::Object(map) = config.kind {
        assert_eq!(map.get("port"), Some(&Value::integer(8000)));
        assert_eq!(map.get("debug"), Some(&Value::boolean(true)));
        assert!(!map.contains_key("include"));
    } else {
        panic!("Expected object");
    }
}

#[test]
fn test_nested_inclusion() {
    let files = [
        ("base.cosy", r#"{ a: 1 }"#),
        ("mid.cosy", r#"{ include: "base.cosy", b: 2 }"#),
    ];
    let mut config = from_str(r#"{ include: "mid.cosy", c: 3 }"#).unwrap();
    resolve_with(&mut config, &files).unwrap();

    if let ValueKind::Object(map) = config.kind {
        assert_eq!(map.get("a"), Some(&Value::integer(1)));
        assert_eq!(map.get("b"), Some(&Value::integer(2)));
        assert_eq!(map.get("c"), Some(&Value::integer(3)));
    } else {
        panic!("Expected object");
    }
}

#[test]
fn test_include_in_sub_object() {
    let files = [("db.cosy", r#"{ host: "localhost", port: 5432 }"#)];
    let config_str = r#"{
        database: {
            include: "db.cosy"
            user: "admin"
        }
    }"#;
    let mut config = from_str(config_str).unwrap();
    resolve_with(&mut config, &files).unwrap();

    if let ValueKind::Object(root) = config.kind {
        if let Some(db_val) = root.get("database") {
            if let ValueKind::Object(db) = &db_val.kind {
                assert_eq!(db.get("host"), Some(&Value::string("localhost".to_string())));
                assert_eq!(db.get("port"), Some(&Value::integer(5432)));
                assert_eq!(db.get("user"), Some(&Value::string("admin".to_string())));
            } else {
                panic!("database should be an object");
            }
        } else {
            panic!("database field missing");
        }
    } else {
        panic!("root should be an object");
    }
}

#[test]
fn test_include_cycle_detection() {
    let files = [
        ("a.cosy", r#"{ include: "b.cosy" }"#),
        ("b.cosy", r#"{ include: "a.cosy" }"#),
    ];
    let mut config = from_str(r#"{ include: "b.cosy" }"#).unwrap();
    let result = resolve_with(&mut config, &files);
    assert!(result.is_err());
    assert!(result.unwrap_err().to_string().contains("Recursion limit exceeded"));
}

// ---------------------------------------------------------------------------
// The base directive
// ---------------------------------------------------------------------------

#[test]
fn test_extends_basic() {
    let files = [(
        "base.cosy",
        r#"{
        color: "blue"
        font: "Arial"
    }"#,
    )];
    let input = r#"{
        extends: "base.cosy"
        color: "red"
    }"#;
    let mut val = from_str(input).unwrap();
    resolve_with(&mut val, &files).unwrap();

    if let ValueKind::Object(map) = val.kind {
        assert_eq!(map.get("color").unwrap().kind, ValueKind::String("red".into()));
        assert_eq!(map.get("font").unwrap().kind, ValueKind::String("Arial".into()));
    } else {
        panic!("Expected object");
    }
}

#[test]
fn test_extends_and_include_order() {
    let files = [
        ("base.cosy", "{ A: 1, B: 1 }"),
        ("mixin.cosy", "{ B: 2, C: 2 }"),
    ];
    let input = r#"{
        extends: "base.cosy"
        include: "mixin.cosy"
        C: 3
    }"#;
    let mut val = from_str(input).unwrap();
    resolve_with(&mut val, &files).unwrap();

    if let ValueKind::Object(map) = val.kind {
        assert_eq!(map.get("A").unwrap().kind, ValueKind::Integer(1));
        assert_eq!(map.get("B").unwrap().kind, ValueKind::Integer(2));
        assert_eq!(map.get("C").unwrap().kind, ValueKind::Integer(3));
    } else {
        panic!("Expected object");
    }
}

#[test]
fn test_local_child_recursion_fix() {
    let files = [
        ("base.cosy", "{ base_val: true }"),
        ("nested.cosy", "{ nested_val: true }"),
    ];
    let input = r#"{
        extends: "base.cosy"
        
        local_child: {
            include: "nested.cosy"
        }
    }"#;
    let mut val = from_str(input).unwrap();
    resolve_with(&mut val, &files).unwrap();

    if let ValueKind::Object(map) = val.kind {
        assert!(map.contains_key("base_val"));
        let child = map.get("local_child").unwrap();
        if let ValueKind::Object(child_map) = &child.kind {
            assert!(child_map.contains_key("nested_val"));
            assert!(!child_map.contains_key("include"));
        } else {
            panic!("local_child should be an object");
        }
    }
}

#[test]
fn test_recursive_extends() {
    let files = [
        ("gp.cosy", "{ level: 1 }"),
        ("parent.cosy", "{ extends: \"gp.cosy\", level: 2 }"),
    ];
    let input = r#"{
        extends: "parent.cosy"
        level: 3
    }"#;
    let mut val = from_str(input).unwrap();
    resolve_with(&mut val, &files).unwrap();

    if let ValueKind::Object(map) = val.kind {
        assert_eq!(map.get("level").unwrap().kind, ValueKind::Integer(3));
    }
}

#[test]
fn test_resolved_value_keeps_no_directives() {
    let files = [
        ("gp.cosy", "{ level: 1, deep: { include: \"leaf.cosy\" } }"),
        ("leaf.cosy", "{ leaf: true }"),
        ("parent.cosy", "{ extends: \"gp.cosy\", level: 2 }"),
        ("mix.cosy", "{ mixed: [ { extends: \"leaf.cosy\" } ] }"),
    ];
    let input = r#"{
        extends: "parent.cosy"
        include: "mix.cosy"
        own: { include: "leaf.cosy", x: 1 }
    }"#;
    let mut val = from_str(input).unwrap();
    resolve_with(&mut val, &files).unwrap();
    let map = as_object(&val).unwrap();
    assert!(!map.contains_key("extends"));
    assert!(!map.contains_key("include"));
    assert_eq!(map.get("level").unwrap().kind, ValueKind::Integer(2));
    let deep = as_object(map.get("deep").unwrap()).unwrap();
    assert!(!deep.contains_key("include"));
    assert_eq!(deep.get("leaf").unwrap().kind, ValueKind::Bool(true));
    let own = as_object(map.get("own").unwrap()).unwrap();
    assert!(!own.contains_key("include"));
    assert_eq!(own.get("leaf").unwrap().kind, ValueKind::Bool(true));
    let mixed = as_array(map.get("mixed").unwrap()).unwrap();
    let first = as_object(&mixed[0]).unwrap();
    assert!(!first.contains_key("extends"));
    assert_eq!(first.get("leaf").unwrap().kind, ValueKind::Bool(true));
}

#[test]
fn test_directive_must_be_string() {
    let mut val = from_str("{ extends: 42 }").unwrap();
    let err = resolve_with(&mut val, &[]).unwrap_err();
    assert_eq!(
        err.to_string(),
        "Invalid include usage: Extends value must be a string, found integer"
    );
}

#[test]
fn test_named_file_must_be_object() {
    let files = [("list.cosy", "[1, 2]")];
    let mut val = from_str(r#"{ include: "list.cosy" }"#).unwrap();
    let err = resolve_with(&mut val, &files).unwrap_err();
    assert_eq!(
        err.to_string(),
        "Invalid include usage: Included/Extended file 'list.cosy' must be an Object, found array"
    );
}

#[test]
fn test_named_file_parse_error() {
    let files = [("bad.cosy", "{ a: }")];
    let mut val = from_str(r#"{ include: "bad.cosy" }"#).unwrap();
    let err = resolve_with(&mut val, &files).unwrap_err();
    assert!(err.to_string().starts_with("Parse error in included file: Parse error at line 1"));
}

#[test]
fn test_resolution_stops_on_missing_file() {
    let mut val = from_str(r#"{ x: { extends: "a.cosy" } }"#).unwrap();
    let r = resolve(&mut val, &"/etc".to_string(), &Vec::new(), &Vec::new());
    match r {
        Err(Halt::NeedsFile { base_dir, path }) => {
            assert_eq!(base_dir, "/etc");
            assert_eq!(path, "a.cosy");
        }
        _ => panic!("Expected a request for a file"),
    }
}

#[test]
fn test_failed_resolution_leaves_partial_value() {
    let files = [("a.cosy", "{ a: 1 }"), ("bad.cosy", "[1]")];
    let input = r#"{
        include: "a.cosy"
        first: { extends: "a.cosy", own: 2 }
        second: { x: 1, include: "bad.cosy", y: { include: "a.cosy" } }
        third: { include: "a.cosy" }
    }"#;
    let mut val = from_str(input).unwrap();
    let err = resolve_with(&mut val, &files).unwrap_err();
    assert_eq!(
        err.to_string(),
        "Invalid include usage: Included/Extended file 'bad.cosy' must be an Object, found array"
    );
    let expected = from_str(
        r#"{
        first: { a: 1, own: 2 }
        second: { x: 1, y: { a: 1 } }
        third: { include: "a.cosy" }
    }"#,
    )
    .unwrap();
    assert_eq!(val, expected);
}

#[test]
fn test_missing_file_leaves_partial_array() {
    let mut val = from_str(r#"[1, { include: "missing.cosy" }, 3]"#).unwrap();
    let err = resolve_with(&mut val, &[]).unwrap_err();
    assert_eq!(err.to_string(), "IO error during include: no such file: missing.cosy");
    let expected = from_str("[1, {}, 3]").unwrap();
    assert_eq!(val, expected);
}

#[test]
fn test_no_directives_unchanged() {
    let text = r#"{ a: [1, { b: "x" }], c: null }"#;
    let mut val = from_str(text).unwrap();
    resolve_with(&mut val, &[]).unwrap();
    assert_eq!(val, from_str(text).unwrap());
}

// ---------------------------------------------------------------------------
// Deep merging through composition
// ---------------------------------------------------------------------------

#[test]
fn test_repro_shallow_merge() {
    let files = [(
        "base.cosy",
        r#"{
        server: {
            host: "0.0.0.0"
            port: 8080
        }
    }"#,
    )];
    let app = r#"{
        include: "base.cosy"
        server: {
            port: 9000
        }
    }"#;
    let mut config = from_str(app).unwrap();
    resolve_with(&mut config, &files).unwrap();

    if let ValueKind::Object(root) = config.kind {
        if let Some(server_val) = root.get("server") {
            if let ValueKind::Object(server) = &server_val.kind {
                assert_eq!(server.get("port"), Some(&Value::integer(9000)));
                assert_eq!(
                    server.get("host"),
                    Some(&Value::string("0.0.0.0".to_string())),
                    "Expected host to be preserved"
                );
            } else {
                panic!("server should be an object");
            }
        } else {
            panic!("server field missing");
        }
    } else {
        panic!("root should be an object");
    }
}

#[test]
fn test_deep_merge_complex() {
    let files = [(
        "base.cosy",
        r#"{
        database: {
            host: "localhost"
            port: 5432
            options: {
                timeout: 30
                ssl: true
            }
        }
        logging: {
            level: "info"
            outputs: ["stdout"]
        }
    }"#,
    )];
    let app = r#"{
        include: "base.cosy"
        database: {
            port: 6000
            options: {
                timeout: 60
            }
        }
        logging: {
            outputs: ["file"]
        }
    }"#;
    let mut config = from_str(app).unwrap();
    resolve_with(&mut config, &files).unwrap();

    let db = as_object(as_object(&config).unwrap().get("database").unwrap()).unwrap();
    assert_eq!(db.get("host"), Some(&Value::string("localhost".to_string())));
    assert_eq!(db.get("port"), Some(&Value::integer(6000)));
    let options = as_object(db.get("options").unwrap()).unwrap();
    assert_eq!(options.get("ssl"), Some(&Value::boolean(true)));
    assert_eq!(options.get("timeout"), Some(&Value::integer(60)));
    let logging = as_object(as_object(&config).unwrap().get("logging").unwrap()).unwrap();
    assert_eq!(logging.get("level"), Some(&Value::string("info".to_string())));
    let outputs = as_array(logging.get("outputs").unwrap()).unwrap();
    assert_eq!(outputs.len(), 1);
    assert_eq!(outputs[0], Value::string("file".to_string()));
}

// ---------------------------------------------------------------------------
// Loading several sources
// ---------------------------------------------------------------------------

#[test]
fn test_load_and_merge_basic() {
    let config = load_with(&[r#"{ a: 1, b: 2 }"#, r#"{ b: 3, c: 4 }"#], &[]).unwrap();
    if let ValueKind::Object(map) = config.kind {
        assert_eq!(map.get("a"), Some(&Value::integer(1)));
        assert_eq!(map.get("b"), Some(&Value::integer(3)));
        assert_eq!(map.get("c"), Some(&Value::integer(4)));
    } else {
        panic!("Expected object");
    }
}

#[test]
fn test_load_and_merge_nested() {
    let config = load_with(
        &[
            r#"{ server: { host: "localhost", port: 80 } }"#,
            r#"{ server: { port: 443 } }"#,
        ],
        &[],
    )
    .unwrap();
    let server = as_object(as_object(&config).unwrap().get("server").unwrap()).unwrap();
    assert_eq!(server.get("host"), Some(&Value::string("localhost".to_string())));
    assert_eq!(server.get("port"), Some(&Value::integer(443)));
}

#[test]
fn test_load_and_merge_resolves_each_source() {
    let files = [("shared.cosy", "{ level: \"info\", color: true }")];
    let config = load_with(
        &[r#"{ include: "shared.cosy", level: "debug" }"#, "{ color: false }"],
        &files,
    )
    .unwrap();
    let map = as_object(&config).unwrap();
    assert_eq!(map.get("level"), Some(&Value::string("debug".to_string())));
    assert_eq!(map.get("color"), Some(&Value::boolean(false)));
    assert!(!map.contains_key("include"));
}

#[test]
fn test_load_and_merge_errors() {
    match load_with(&["{ a: 1 }", "{ b: }"], &[]) {
        Err(CosynError::Parse(e)) => assert_eq!(e.line, 1),
        _ => panic!("Expected a parse error"),
    }
    match load_with(&["{ extends: 1 }"], &[]) {
        Err(CosynError::Include(m)) => assert_eq!(
            m,
            "Invalid include usage: Extends value must be a string, found integer"
        ),
        _ => panic!("Expected an inclusion error"),
    }
    let empty: [&str; 0] = [];
    assert_eq!(load_with(&empty, &[]).unwrap(), Value::object(ObjectMap::new()));
}
