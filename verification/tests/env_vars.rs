use cosy::syntax::parser::from_str_with_env;
use cosy::value::{Value, ValueKind};
use cosy::from_str;

fn env_of(key: &str, value: &str) -> Vec<(String, String)> {
    vec![(key.to_string(), value.to_string())]
}

#[test]
fn test_env_var_in_string() {
    let key = "COSY_TEST_VAR_STRING";
    let input = format!(r#"{{ key: "Value is ${{{}}}" }}"#, key);
    let value = from_str_with_env(&input, env_of(key, "interpolated")).unwrap();

    if let ValueKind::Object(obj) = value.kind {
        assert_eq!(
            obj.get("key"),
            Some(&Value::string("Value is interpolated".to_string()))
        );
    } else {
        panic!("Expected object");
    }
}

#[test]
fn test_env_var_standalone_integer() {
    let key = "COSY_TEST_VAR_INT";
    let input = format!(r#"{{ port: ${{{}}} }}"#, key);
    let value = from_str_with_env(&input, env_of(key, "42")).unwrap();

    if let ValueKind::Object(obj) = value.kind {
        assert_eq!(obj.get("port"), Some(&Value::integer(42)));
    } else {
        panic!("Expected object");
    }
}

#[test]
fn test_env_var_standalone_bool() {
    let key = "COSY_TEST_VAR_BOOL";
    let input = format!(r#"{{ flag: ${{{}}} }}"#, key);
    let value = from_str_with_env(&input, env_of(key, "true")).unwrap();

    if let ValueKind::Object(obj) = value.kind {
        assert_eq!(obj.get("flag"), Some(&Value::boolean(true)));
    } else {
        panic!("Expected object");
    }
}

#[test]
fn test_env_var_standalone_float() {
    let key = "COSY_TEST_VAR_FLOAT";
    let input = format!(r#"{{ pi: ${{{}}} }}"#, key);
    let value = from_str_with_env(&input, env_of(key, "3.14159")).unwrap();

    if let ValueKind::Object(obj) = value.kind {
        match &obj.get("pi").unwrap().kind {
            ValueKind::Float(t) => assert_eq!(t.parse::<f64>().unwrap(), 3.14159),
            _ => panic!("Expected float"),
        }
    } else {
        panic!("Expected object");
    }
}

#[test]
fn test_env_var_standalone_string_fallback() {
    let key = "COSY_TEST_VAR_FALLBACK";
    let input = format!(r#"{{ val: ${{{}}} }}"#, key);
    let value = from_str_with_env(&input, env_of(key, "not_a_number")).unwrap();

    if let ValueKind::Object(obj) = value.kind {
        assert_eq!(
            obj.get("val"),
            Some(&Value::string("not_a_number".to_string()))
        );
    } else {
        panic!("Expected object");
    }
}

#[test]
fn test_env_var_missing_error() {
    let key = "COSY_TEST_VAR_MISSING_XYZ";
    let input = format!(r#"{{ val: ${{{}}} }}"#, key);
    let result = from_str_with_env(&input, Vec::new());

    assert!(result.is_err());
    let err = result.unwrap_err();
    assert!(err.to_string().contains("not found"));
}

#[test]
fn test_env_var_escaping() {
    let input = r#"{ val: "\${VAR}" }"#;
    let value = from_str(input).unwrap();

    if let ValueKind::Object(obj) = value.kind {
        assert_eq!(obj.get("val"), Some(&Value::string("${VAR}".to_string())));
    } else {
        panic!("Expected object");
    }
}
