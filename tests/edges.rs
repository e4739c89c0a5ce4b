use fastjson::{
    decode_variant, emit_compact, emit_pretty, encode_tuple, encode_unit, extract_enum_variants, extract_name,
    extract_struct_fields, from_str, object_insert, parse, parse_input, to_string, Deserialize, Error, InputType,
    Number, Serialize, Value, Variant, VariantKind, VariantMatch,
};

fn num(x: i64) -> Value {
    Value::Number(Number::from_i64(x))
}

#[test]
fn compact_and_pretty_round_trip_through_the_parser() {
    let mut inner: Vec<(String, Value)> = Vec::new();
    object_insert(&mut inner, "z".to_string(), Value::Array(vec![num(1), Value::Null, Value::Bool(false)]));
    object_insert(&mut inner, "a\"b".to_string(), Value::String("line\nnext\u{1}tab\t".to_string()));
    object_insert(&mut inner, "n".to_string(), Value::Number(Number { negative: true, magnitude: 25, exponent: -3 }));
    let v = Value::Array(vec![Value::Object(inner), Value::Array(vec![]), Value::Object(vec![])]);
    assert_eq!(parse(&emit_compact(&v)).unwrap(), v);
    assert_eq!(parse(&emit_pretty(&v)).unwrap(), v);
    let again = parse(&emit_compact(&parse(&emit_compact(&v)).unwrap())).unwrap();
    assert_eq!(again, v);
}

#[test]
fn compact_text_is_exact() {
    let v = parse(r#"{"b": [1, 2.50, -0.001e1], "a": {"x": null}, "c": "é\/"}"#).unwrap();
    assert_eq!(emit_compact(&v), r#"{"a": {"x": null}, "b": [1, 2.5, -0.01], "c": "é/"}"#);
}

#[test]
fn pretty_text_is_exact() {
    let v = parse(r#"{"a": [1, {}], "b": []}"#).unwrap();
    assert_eq!(emit_pretty(&v), "{\n  \"a\": [\n    1,\n    {}\n  ],\n  \"b\": []\n}");
}

#[test]
fn control_characters_are_escaped() {
    assert_eq!(emit_compact(&Value::String("\u{1}\u{8}\u{c}\\".to_string())), "\"\\u0001\\b\\f\\\\\"");
}

#[test]
fn trailing_text_is_rejected() {
    assert!(parse("[1] 2").is_err());
    assert!(parse("{} x").is_err());
    assert!(parse("null null").is_err());
    assert!(parse("[1] \n\t ").is_ok());
}

#[test]
fn duplicate_keys_keep_the_last_value() {
    let v = parse(r#"{"k": 1, "k": 2}"#).unwrap();
    assert_eq!(v, Value::Object(vec![("k".to_string(), num(2))]));
}

#[test]
fn object_key_order_does_not_matter() {
    assert_eq!(parse(r#"{"a": 1, "b": 2}"#).unwrap(), parse(r#"{"b": 2, "a": 1}"#).unwrap());
}

#[test]
fn numbers_follow_the_grammar() {
    assert!(parse("01").is_err());
    assert!(parse("+1").is_err());
    assert!(parse("1.").is_err());
    assert!(parse("1e").is_err());
    assert!(parse("-").is_err());
    assert!(parse("NaN").is_err());
    assert!(parse("Infinity").is_err());
    assert!(parse("1e400").is_err());
    assert_eq!(parse("1e-400").unwrap(), num(0));
    assert_eq!(parse("-0").unwrap(), num(0));
    assert_eq!(parse("1.5E+2").unwrap(), num(150));
    assert_eq!(parse("100").unwrap(), Value::Number(Number { negative: false, magnitude: 1, exponent: 2 }));
    assert_eq!(parse("0.10").unwrap(), Value::Number(Number { negative: false, magnitude: 1, exponent: -1 }));
}

#[test]
fn strings_follow_the_grammar() {
    assert_eq!(parse(r#""Aé""#).unwrap(), Value::String("Aé".to_string()));
    assert!(parse(r#""\q""#).is_err());
    assert!(parse(r#""\ud800""#).is_err());
    assert!(matches!(parse("\"abc"), Err(Error::Eof)));
    assert!(parse(r#""\u12""#).is_err());
}

#[test]
fn keywords_must_be_whole() {
    assert!(parse("nul").is_err());
    assert!(parse("[tru]").is_err());
    assert_eq!(parse("[true, false, null]").unwrap(), Value::Array(vec![Value::Bool(true), Value::Bool(false), Value::Null]));
}

#[test]
fn structural_errors_carry_positions() {
    match parse("[1, 2, ]") {
        Err(Error::Syntax { position, .. }) => assert_eq!(position, 7),
        other => panic!("unexpected {:?}", other),
    }
    match parse("{\"a\" 1}") {
        Err(Error::ExpectedFound { position, .. }) => assert_eq!(position, 5),
        other => panic!("unexpected {:?}", other),
    }
    assert!(matches!(parse(""), Err(Error::Eof)));
    assert!(matches!(parse("[1, 2"), Err(Error::Eof)));
}

#[test]
fn deep_nesting_is_bounded() {
    let deep = "[".repeat(600) + &"]".repeat(600);
    assert!(parse(&deep).is_err());
    let ok = "[".repeat(100) + &"]".repeat(100);
    assert!(parse(&ok).is_ok());
}

#[test]
fn integer_carriers_check_fraction_and_range() {
    assert!(from_str::<u8>("255").is_ok());
    assert!(from_str::<u8>("256").is_err());
    assert!(from_str::<u8>("-1").is_err());
    assert_eq!(from_str::<i16>("-32768").unwrap(), -32768);
    assert!(from_str::<i32>("1.5").is_err());
    assert_eq!(from_str::<i32>("1.50e1").unwrap(), 15);
    assert_eq!(from_str::<u64>("9007199254740991").unwrap(), 9007199254740991);
    assert!(from_str::<u64>("9007199254740992").is_err());
    assert!(from_str::<i64>("-9007199254740992").is_err());
    assert!(to_string(&9007199254740992u64).is_err());
    assert!(to_string(&(-9007199254740992i64)).is_err());
    assert_eq!(to_string(&(-9007199254740991i64)).unwrap(), "-9007199254740991");
    assert!(from_str::<bool>("1").is_err());
    assert!(from_str::<String>("1").is_err());
}

#[test]
fn optional_and_sequence_carriers() {
    assert_eq!(from_str::<Option<u32>>("null").unwrap(), None);
    assert_eq!(from_str::<Option<u32>>("7").unwrap(), Some(7));
    assert_eq!(to_string(&None::<u32>).unwrap(), "null");
    assert_eq!(from_str::<Vec<Option<bool>>>("[true, null]").unwrap(), vec![Some(true), None]);
    assert!(from_str::<Vec<u8>>("[1, 300]").is_err());
    assert!(from_str::<Vec<u8>>("{}").is_err());
    assert_eq!(Value::deserialize(&num(3)).unwrap(), num(3));
}

#[test]
fn non_canonical_values_are_not_encoded() {
    let bad = Value::Object(vec![("b".to_string(), num(1)), ("a".to_string(), num(2))]);
    assert!(bad.serialize().is_err());
    let bad_number = Value::Number(Number { negative: false, magnitude: 10, exponent: 0 });
    assert!(bad_number.serialize().is_err());
}

#[test]
fn variants_round_trip_and_reject_wrong_arity() {
    let vs = vec![
        Variant::with("A", Some("alpha"), VariantKind::Unit),
        Variant::with("P", None, VariantKind::Tuple(vec!["u8".to_string(), "u8".to_string()])),
    ];
    assert!(matches!(decode_variant(&encode_unit("alpha"), &vs), Ok(VariantMatch::Unit(0))));
    assert!(matches!(decode_variant(&encode_unit("A"), &vs), Err(Error::TypeError(_))));
    assert!(matches!(decode_variant(&encode_tuple("P", vec![num(1), num(2)]), &vs), Ok(VariantMatch::Tuple(1, _))));
    assert!(matches!(decode_variant(&encode_tuple("P", vec![num(1)]), &vs), Err(Error::TypeError(_))));
    let untagged = parse(r#"{"data": []}"#).unwrap();
    match decode_variant(&untagged, &vs) {
        Err(Error::MissingField(f)) => assert_eq!(f, "type"),
        other => panic!("unexpected {:?}", other.is_ok()),
    }
    assert!(matches!(decode_variant(&num(1), &vs), Err(Error::TypeError(_))));
}

#[test]
fn record_declarations_are_read() {
    let src = "#[derive(Serialize)] struct Person { name : String , age : u32 , #[fastjson(rename = \"emailAddress\")] email : Option < String > , #[fastjson(skip)] _internal_id : Option < u64 > , map : HashMap < String , u32 > , #[fastjson(skip_if_none)] conditional : Option < u32 > }";
    assert_eq!(extract_name(src), "Person");
    let fields = extract_struct_fields(src);
    let names: Vec<&str> = fields.iter().map(|f| f.name.as_str()).collect();
    assert_eq!(names, vec!["name", "age", "email", "_internal_id", "map", "conditional"]);
    assert_eq!(fields[2].rename.as_deref(), Some("emailAddress"));
    assert!(fields[2].is_option);
    assert!(fields[3].skip && !fields[3].skip_if_none);
    assert!(!fields[4].is_option);
    assert!(fields[5].skip_if_none && !fields[5].skip && fields[5].is_option);
    match parse_input(src) {
        InputType::Struct { name, fields } => {
            assert_eq!(name, "Person");
            assert_eq!(fields.len(), 6);
        }
        _ => panic!("expected a record"),
    }
}

#[test]
fn union_declarations_are_read() {
    let src = "enum Status { Active , #[fastjson(rename = \"off\")] Inactive , Pending (String) , Pair (u8 , Vec < u8 >) , Custom { code : u32 , message : String } }";
    let vs = extract_enum_variants(src);
    assert_eq!(vs.len(), 5);
    assert_eq!(vs[1].name, "Inactive");
    assert_eq!(vs[1].rename.as_deref(), Some("off"));
    match &vs[3].kind {
        VariantKind::Tuple(ts) => assert_eq!(ts, &vec!["u8".to_string(), "Vec < u8 >".to_string()]),
        _ => panic!("expected a positional variant"),
    }
    match &vs[4].kind {
        VariantKind::Struct(fs) => assert_eq!(fs.len(), 2),
        _ => panic!("expected a named variant"),
    }
    assert!(matches!(vs[0].kind, VariantKind::Unit));
    assert!(matches!(parse_input(src), InputType::Enum { .. }));
    assert!(matches!(parse_input("type X = u8;"), InputType::Unknown));
}

#[test]
fn record_impl_text_is_rendered() {
    let fields = vec![
        fastjson::Field::with("id", None, false, false, false),
        fastjson::Field::with("tag", Some("label"), false, true, true),
    ];
    let text = fastjson::generate_struct_serialize("GenItem", &fields);
    let expected = "impl ::fastjson::Serialize for GenItem {\n    fn serialize(&self) -> ::std::result::Result<::fastjson::Value, ::fastjson::Error> {\n        let mut entries: ::std::vec::Vec<(::std::string::String, ::fastjson::Value)> = ::std::vec::Vec::new();\n        ::fastjson::object_insert(&mut entries, ::std::string::String::from(\"id\"), ::fastjson::Serialize::serialize(&self.id)?);\n        if let ::std::option::Option::Some(v) = &self.tag { ::fastjson::object_insert(&mut entries, ::std::string::String::from(\"label\"), ::fastjson::Serialize::serialize(v)?); }\n        ::std::result::Result::Ok(::fastjson::Value::Object(entries))\n    }\n}\n";
    assert_eq!(text, expected);
    let de = fastjson::generate_struct_deserialize("GenItem", &fields);
    let expected_de = "impl ::fastjson::Deserialize for GenItem {\n    fn deserialize(value: &::fastjson::Value) -> ::std::result::Result<Self, ::fastjson::Error> {\n        ::fastjson::object_entries(value)?;\n        ::std::result::Result::Ok(Self {\n            id: match value.get(\"id\") { ::std::option::Option::Some(v) => ::fastjson::Deserialize::deserialize(v)?, ::std::option::Option::None => return ::std::result::Result::Err(::fastjson::Error::MissingField(::std::string::String::from(\"id\"))) },\n            tag: match value.get(\"label\") { ::std::option::Option::Some(v) if !v.is_null() => ::std::option::Option::Some(::fastjson::Deserialize::deserialize(v)?), _ => ::std::option::Option::None },\n        })\n    }\n}\n";
    assert_eq!(de, expected_de);
    let skipped = vec![fastjson::Field::with("n", None, true, false, false)];
    assert!(fastjson::generate_struct_deserialize("S", &skipped).contains("n: ::std::default::Default::default(),"));
    let item = GenItem { id: 7, tag: None };
    assert_eq!(to_string(&item).unwrap(), "{\"id\": 7}");
    assert_eq!(from_str::<GenItem>("{\"id\": 7}").unwrap(), item);
    let tagged = GenItem { id: 1, tag: Some("x".to_string()) };
    assert_eq!(to_string(&tagged).unwrap(), "{\"id\": 1, \"label\": \"x\"}");
    assert_eq!(from_str::<GenItem>(&to_string(&tagged).unwrap()).unwrap(), tagged);
    assert!(matches!(from_str::<GenItem>("{}"), Err(Error::MissingField(f)) if f == "id"));
}

#[derive(Debug, PartialEq)]
struct GenItem {
    id: u32,
    tag: Option<String>,
}

impl ::fastjson::Serialize for GenItem {
    fn serialize(&self) -> ::std::result::Result<::fastjson::Value, ::fastjson::Error> {
        let mut entries: ::std::vec::Vec<(::std::string::String, ::fastjson::Value)> = ::std::vec::Vec::new();
        ::fastjson::object_insert(&mut entries, ::std::string::String::from("id"), ::fastjson::Serialize::serialize(&self.id)?);
        if let ::std::option::Option::Some(v) = &self.tag { ::fastjson::object_insert(&mut entries, ::std::string::String::from("label"), ::fastjson::Serialize::serialize(v)?); }
        ::std::result::Result::Ok(::fastjson::Value::Object(entries))
    }
}

impl ::fastjson::Deserialize for GenItem {
    fn deserialize(value: &::fastjson::Value) -> ::std::result::Result<Self, ::fastjson::Error> {
        ::fastjson::object_entries(value)?;
        ::std::result::Result::Ok(Self {
            id: match value.get("id") { ::std::option::Option::Some(v) => ::fastjson::Deserialize::deserialize(v)?, ::std::option::Option::None => return ::std::result::Result::Err(::fastjson::Error::MissingField(::std::string::String::from("id"))) },
            tag: match value.get("label") { ::std::option::Option::Some(v) if !v.is_null() => ::std::option::Option::Some(::fastjson::Deserialize::deserialize(v)?), _ => ::std::option::Option::None },
        })
    }
}

#[derive(Debug, PartialEq)]
enum Shape {
    Dot,
    Square(u32),
    Rect { w: u32, h: Option<u32> },
}

impl ::fastjson::Serialize for Shape {
    fn serialize(&self) -> ::std::result::Result<::fastjson::Value, ::fastjson::Error> {
        match self {
            Shape::Dot => ::std::result::Result::Ok(::fastjson::encode_unit("Dot")),
            Shape::Square(x0) => ::std::result::Result::Ok(::fastjson::encode_tuple("sq", ::std::vec::Vec::from([::fastjson::Serialize::serialize(x0)?, ]))),
            Shape::Rect { w, h } => {
                let mut entries: ::std::vec::Vec<(::std::string::String, ::fastjson::Value)> = ::std::vec::Vec::new();
                ::fastjson::object_insert(&mut entries, ::std::string::String::from("type"), ::fastjson::Value::String(::std::string::String::from("Rect")));
                ::fastjson::object_insert(&mut entries, ::std::string::String::from("w"), ::fastjson::Serialize::serialize(w)?);
                ::fastjson::object_insert(&mut entries, ::std::string::String::from("h"), ::fastjson::Serialize::serialize(h)?);
                ::std::result::Result::Ok(::fastjson::Value::Object(entries))
            }
        }
    }
}

impl ::fastjson::Deserialize for Shape {
    fn deserialize(value: &::fastjson::Value) -> ::std::result::Result<Self, ::fastjson::Error> {
        match value {
            ::fastjson::Value::String(s) => match s.as_str() {
                "Dot" => ::std::result::Result::Ok(Shape::Dot),
                _ => ::std::result::Result::Err(::fastjson::Error::TypeError(::std::string::String::from("unknown enum variant"))),
            },
            ::fastjson::Value::Object(_) => match value.get("type") {
                ::std::option::Option::Some(::fastjson::Value::String(t)) => match t.as_str() {
                        "sq" => match value.get("data") { ::std::option::Option::Some(::fastjson::Value::Array(items)) if items.len() == 1 => ::std::result::Result::Ok(Shape::Square(::fastjson::Deserialize::deserialize(&items[0])?, )), _ => ::std::result::Result::Err(::fastjson::Error::TypeError(::std::string::String::from("wrong data for enum variant"))) },
                        "Rect" => ::std::result::Result::Ok(Shape::Rect {
                            w: match value.get("w") { ::std::option::Option::Some(v) => ::fastjson::Deserialize::deserialize(v)?, ::std::option::Option::None => return ::std::result::Result::Err(::fastjson::Error::MissingField(::std::string::String::from("w"))) },
                            h: match value.get("h") { ::std::option::Option::Some(v) if !v.is_null() => ::std::option::Option::Some(::fastjson::Deserialize::deserialize(v)?), _ => ::std::option::Option::None },
                        }),
                        _ => ::std::result::Result::Err(::fastjson::Error::TypeError(::std::string::String::from("unknown enum variant type"))),
                },
                _ => ::std::result::Result::Err(::fastjson::Error::MissingField(::std::string::String::from("type"))),
            },
            _ => ::std::result::Result::Err(::fastjson::Error::TypeError(::std::string::String::from("expected string or object for enum"))),
        }
    }
}

#[test]
fn union_impl_text_is_rendered() {
    let src = "enum Shape { Dot , #[fastjson(rename = \"sq\")] Square (u32) , Rect { w : u32 , h : Option < u32 > } }";
    let ser = fastjson::derive_serialize_source(src).unwrap();
    assert!(ser.contains("\n            Shape::Dot => ::std::result::Result::Ok(::fastjson::encode_unit(\"Dot\")),\n"));
    assert!(ser.contains("\n            Shape::Square(x0) => ::std::result::Result::Ok(::fastjson::encode_tuple(\"sq\", ::std::vec::Vec::from([::fastjson::Serialize::serialize(x0)?, ]))),\n"));
    assert!(ser.contains("\n            Shape::Rect { w, h } => {\n"));
    assert!(ser.contains("\n                ::fastjson::object_insert(&mut entries, ::std::string::String::from(\"type\"), ::fastjson::Value::String(::std::string::String::from(\"Rect\")));\n"));
    assert!(ser.contains("\n                ::fastjson::object_insert(&mut entries, ::std::string::String::from(\"h\"), ::fastjson::Serialize::serialize(h)?);\n"));
    let de = fastjson::derive_deserialize_source(src).unwrap();
    assert!(de.contains("\n                \"Dot\" => ::std::result::Result::Ok(Shape::Dot),\n"));
    assert!(de.contains("\n                        \"sq\" => match value.get(\"data\") { ::std::option::Option::Some(::fastjson::Value::Array(items)) if items.len() == 1 => ::std::result::Result::Ok(Shape::Square(::fastjson::Deserialize::deserialize(&items[0])?, )), _ => ::std::result::Result::Err(::fastjson::Error::TypeError(::std::string::String::from(\"wrong data for enum variant\"))) },\n"));
    assert!(de.contains("\n                        \"Rect\" => ::std::result::Result::Ok(Shape::Rect {\n"));
    assert!(de.contains("\n                            h: match value.get(\"h\") { ::std::option::Option::Some(v) if !v.is_null() => ::std::option::Option::Some(::fastjson::Deserialize::deserialize(v)?), _ => ::std::option::Option::None },\n"));
    assert!(fastjson::derive_serialize_source("fn f() {}").is_none());
    for x in [Shape::Dot, Shape::Square(3), Shape::Rect { w: 2, h: None }, Shape::Rect { w: 2, h: Some(5) }] {
        let text = to_string(&x).unwrap();
        assert_eq!(from_str::<Shape>(&text).unwrap(), x);
    }
    assert_eq!(to_string(&Shape::Square(3)).unwrap(), "{\"data\": [3], \"type\": \"sq\"}");
    assert!(matches!(from_str::<Shape>("{\"type\": \"sq\", \"data\": [1, 2]}"), Err(Error::TypeError(_))));
    assert!(matches!(from_str::<Shape>("{\"w\": 1}"), Err(Error::MissingField(f)) if f == "type"));
}

#[test]
fn code_builder_indents_and_balances() {
    let mut b = fastjson::CodeBuilder::new();
    b.line("fn f() {");
    b.block("if x {", "}", &vec!["y();"]);
    assert_eq!(b.build(), "fn f() {\nif x {\n    y();\n}\n// WARNING: unbalanced delimiters\n");
    b.line("}");
    assert_eq!(b.build(), "fn f() {\nif x {\n    y();\n}\n}\n");
}

#[test]
fn accessors_narrow_by_shape() {
    let mut v = parse(r#"{"a": [1, true, "x", null]}"#).unwrap();
    assert!(v.is_object() && !v.is_array() && !v.is_null());
    let a = v.get("a").unwrap();
    assert!(a.is_array());
    assert_eq!(a.get_index(1).and_then(|x| x.as_bool()), Some(true));
    assert_eq!(a.get_index(2).and_then(|x| x.as_str()), Some("x"));
    assert_eq!(a.get_index(0).and_then(|x| x.as_number()), Some(Number::from_u64(1)));
    assert!(a.get_index(3).unwrap().is_null());
    assert_eq!(a.get_index(4), None);
    assert_eq!(a.get("a"), None);
    assert_eq!(v.get("b"), None);
    assert_eq!(Value::default(), Value::Null);
    if let Some(e) = v.as_object_mut() {
        object_insert(e, "b".to_string(), Value::Bool(false));
    }
    assert_eq!(v.get("b"), Some(&Value::Bool(false)));
    let mut arr = Value::Array(vec![]);
    if let Some(items) = arr.as_array_mut() {
        items.push(num(7));
    }
    assert_eq!(emit_compact(&arr), "[7]");
    assert_eq!(arr.clone(), arr);
}

#[test]
fn keyword_is_read_where_the_item_starts() {
    let union = "#[doc = \" A struct-like mode\"] enum Mode { Fast, Slow }";
    match parse_input(union) {
        InputType::Enum { name, variants } => {
            assert_eq!(name, "Mode");
            let names: Vec<&str> = variants.iter().map(|v| v.name.as_str()).collect();
            assert_eq!(names, vec!["Fast", "Slow"]);
        }
        _ => panic!("expected a tagged union"),
    }
    let record = "#[doc = \" enum-like {x}\"] pub(crate) struct P { x : u32 }";
    match parse_input(record) {
        InputType::Struct { name, fields } => {
            assert_eq!(name, "P");
            assert_eq!(fields.len(), 1);
            assert_eq!(fields[0].name, "x");
        }
        _ => panic!("expected a record"),
    }
}

#[test]
fn long_numerals_keep_their_leading_digits() {
    assert_eq!(
        parse("31415926535897932384").unwrap(),
        Value::Number(Number { negative: false, magnitude: 3141592653589793238, exponent: 1 })
    );
    assert_eq!(
        parse("0.123456789012345678901234").unwrap(),
        Value::Number(Number { negative: false, magnitude: 1234567890123456789, exponent: -19 })
    );
}

#[test]
fn error_kinds_follow_the_failure() {
    assert!(matches!(parse("\"\\x\""), Err(Error::Syntax { position: 2, .. })));
    assert!(matches!(parse("1e400"), Err(Error::Syntax { position: 0, .. })));
    assert!(matches!(parse("42\u{A0}"), Err(Error::Syntax { position: 2, .. })));
    assert!(matches!(parse("[1]\u{C}"), Err(Error::Syntax { position: 3, .. })));
    assert!(matches!(parse("[1 2]"), Err(Error::ExpectedFound { position: 3, .. })));
    assert!(matches!(parse("{\"a\" 1}"), Err(Error::ExpectedFound { position: 5, .. })));
    assert!(matches!(from_str::<i32>("42.5"), Err(Error::TypeError(_))));
    assert!(matches!(from_str::<u64>("9007199254740992"), Err(Error::TypeError(_))));
    assert!(matches!(from_str::<Vec<u8>>("[1, 256]"), Err(Error::TypeError(_))));
}

#[test]
fn maps_round_trip() {
    let mut m: std::collections::HashMap<String, u32> = std::collections::HashMap::new();
    m.insert("z".to_string(), 1);
    m.insert("a\"b".to_string(), 2);
    let text = to_string(&m).unwrap();
    assert_eq!(text, "{\"a\\\"b\": 2, \"z\": 1}");
    let back: std::collections::HashMap<String, u32> = from_str(&text).unwrap();
    assert_eq!(back, m);
    assert!(from_str::<std::collections::HashMap<String, u32>>("[1]").is_err());
}

#[test]
fn declarations_with_arrows_and_quoted_commas() {
    let src = "struct F { cb : fn (u8) -> u8 , #[fastjson(rename = \"a,b\")] n : u32 , m : Option < u8 > }";
    let fields = extract_struct_fields(src);
    let names: Vec<&str> = fields.iter().map(|f| f.name.as_str()).collect();
    assert_eq!(names, vec!["cb", "n", "m"]);
    assert_eq!(fields[1].rename.as_deref(), Some("a,b"));
    assert!(fields[2].is_option);
}
