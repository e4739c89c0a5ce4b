use fastjson::{from_str, parse, to_string, Error, Number, Value};
use std::collections::HashMap;

fn num(x: i64) -> Value {
    Value::Number(Number::from_i64(x))
}

#[test]
fn test_serialize_primitive_types() {
    assert_eq!(to_string(&true).unwrap(), "true");
    assert_eq!(to_string(&false).unwrap(), "false");
    assert_eq!(to_string(&42_i32).unwrap(), "42");
    let pi = Value::Number(Number { negative: false, magnitude: 314, exponent: -2 });
    assert_eq!(to_string(&pi).unwrap(), "3.14");
    assert_eq!(to_string(&"hello".to_string()).unwrap(), "\"hello\"");
    assert_eq!(to_string(&"hello\nworld".to_string()).unwrap(), "\"hello\\nworld\"");
}

#[test]
fn test_serialize_complex_types() {
    let vec = vec![1, 2, 3];
    assert_eq!(to_string(&vec).unwrap(), "[1, 2, 3]");

    let mut map = HashMap::new();
    map.insert("a".to_string(), 1);
    map.insert("b".to_string(), 2);
    let json = to_string(&map).unwrap();
    assert!(json == "{\"a\": 1, \"b\": 2}" || json == "{\"b\": 2, \"a\": 1}");
}

#[test]
fn test_parse_and_deserialize() {
    assert_eq!(parse("null").unwrap(), Value::Null);
    assert_eq!(parse("true").unwrap(), Value::Bool(true));
    let n = parse("42").unwrap();
    if let Value::Number(_) = n {
    } else {
        panic!("Expected number");
    }
    assert_eq!(parse("\"hello\"").unwrap(), Value::String("hello".to_string()));
}

#[test]
fn test_deserialize_primitive_types() {
    assert_eq!(from_str::<bool>("true").unwrap(), true);
    assert_eq!(from_str::<String>("\"hello\"").unwrap(), "hello".to_string());
}

#[test]
fn test_deserialize_complex_types() {
    let json = "[1, 2, 3]";
    let parsed: Vec<i32> = from_str(json).unwrap();
    assert_eq!(parsed, vec![1, 2, 3]);

    let json = "{\"name\": \"Alice\", \"age\": 30}";
    let mut expected = HashMap::new();
    expected.insert("name".to_string(), Value::String("Alice".to_string()));
    expected.insert("age".to_string(), num(30));
    let parsed: HashMap<String, Value> = from_str(json).unwrap();
    assert_eq!(parsed, expected);
}

#[test]
fn test_json_with_whitespace() {
    let parsed = parse(" 42 ").unwrap();
    assert_eq!(parsed, num(42));

    let parsed = parse(" { \"age\" : 30 } ").unwrap();
    if parsed.is_object() {
        assert_eq!(parsed.get("age"), Some(&num(30)));
    } else {
        panic!("Expected object");
    }

    let parsed = parse(" { \"name\" : \"Alice\" , \"age\" : 30 } ").unwrap();
    if parsed.is_object() {
        assert_eq!(parsed.get("name"), Some(&Value::String("Alice".to_string())));
        assert_eq!(parsed.get("age"), Some(&num(30)));
    } else {
        panic!("Expected object");
    }
}

#[test]
fn lib_test_error_handling() {
    assert!(parse("{").is_err());
    assert!(parse("[1, 2, ]").is_err());
    assert!(parse("\"unterminated").is_err());
    assert!(parse("invalid").is_err());
}

#[test]
fn leading_and_trailing_whitespace_around_a_number() {
    assert_eq!(parse("  42  ").unwrap(), num(42));
    match parse("42 x") {
        Err(Error::Syntax { position, .. }) => assert_eq!(position, 3),
        other => panic!("expected a syntax error, got {:?}", other),
    }
}

#[test]
fn i8_out_of_range_is_a_type_error() {
    match from_str::<i8>("300") {
        Err(Error::TypeError(_)) => {}
        other => panic!("expected a type error, got {:?}", other),
    }
}

#[test]
fn error_constructors_hold_their_arguments() {
    assert_eq!(Error::custom("boom"), Error::Custom("boom".to_string()));
    assert_eq!(Error::syntax(7, "bad"), Error::Syntax { position: 7, message: "bad".to_string() });
    assert_eq!(
        Error::expected_found("':'", "x", 2),
        Error::ExpectedFound { expected: "':'".to_string(), found: "x".to_string(), position: 2 }
    );
}
