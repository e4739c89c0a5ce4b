use fastjson::{
    decode_variant, encode_record, encode_struct, encode_tuple, encode_unit, from_str, object_entries,
    object_insert, resolve_field, to_string, to_string_pretty, Deserialize, Error, Field, Number, Serialize,
    Slot, Value, Variant, VariantKind, VariantMatch,
};

fn opt<T: Serialize>(x: &Option<T>) -> Result<Option<Value>, Error> {
    match x {
        Some(v) => Ok(Some(v.serialize()?)),
        None => Ok(None),
    }
}

fn read<T: Deserialize + Default>(f: &Field, e: &Vec<(String, Value)>) -> Result<T, Error> {
    match resolve_field(f, e)? {
        Slot::Present(v) => T::deserialize(&v),
        _ => Ok(T::default()),
    }
}

fn read_opt<T: Deserialize>(f: &Field, e: &Vec<(String, Value)>) -> Result<Option<T>, Error> {
    match resolve_field(f, e)? {
        Slot::Present(v) => Ok(Some(T::deserialize(&v)?)),
        _ => Ok(None),
    }
}

fn plain(name: &str) -> Field {
    Field::with(name, None, false, false, false)
}

fn optional(name: &str) -> Field {
    Field::with(name, None, false, false, true)
}

#[derive(Debug, PartialEq)]
struct Person {
    name: String,
    age: u32,
    is_active: bool,
    email: Option<String>,
    _internal_id: Option<u64>,
}

fn person_fields() -> Vec<Field> {
    vec![
        plain("name"),
        plain("age"),
        plain("is_active"),
        Field::with("email", Some("emailAddress"), false, false, true),
        Field::with("_internal_id", None, true, false, true),
    ]
}

impl Serialize for Person {
    fn serialize(&self) -> Result<Value, Error> {
        let values = vec![
            Some(self.name.serialize()?),
            Some(self.age.serialize()?),
            Some(self.is_active.serialize()?),
            opt(&self.email)?,
            None,
        ];
        Ok(encode_record(&person_fields(), &values))
    }
}

impl Deserialize for Person {
    fn deserialize(value: &Value) -> Result<Self, Error> {
        let e = object_entries(value)?;
        let f = person_fields();
        Ok(Person {
            name: read(&f[0], e)?,
            age: read(&f[1], e)?,
            is_active: read(&f[2], e)?,
            email: read_opt(&f[3], e)?,
            _internal_id: read_opt(&f[4], e)?,
        })
    }
}

#[derive(Debug, PartialEq)]
enum Status {
    Active,
    Inactive,
    Pending(String),
    Custom { code: u32, message: String },
}

fn custom_fields() -> Vec<Field> {
    vec![plain("code"), plain("message")]
}

fn status_variants() -> Vec<Variant> {
    vec![
        Variant::with("Active", None, VariantKind::Unit),
        Variant::with("Inactive", None, VariantKind::Unit),
        Variant::with("Pending", None, VariantKind::Tuple(vec!["String".to_string()])),
        Variant::with("Custom", None, VariantKind::Struct(custom_fields())),
    ]
}

impl Serialize for Status {
    fn serialize(&self) -> Result<Value, Error> {
        match self {
            Status::Active => Ok(encode_unit("Active")),
            Status::Inactive => Ok(encode_unit("Inactive")),
            Status::Pending(s) => Ok(encode_tuple("Pending", vec![s.serialize()?])),
            Status::Custom { code, message } => Ok(encode_struct(
                "Custom",
                &custom_fields(),
                &vec![Some(code.serialize()?), Some(message.serialize()?)],
            )),
        }
    }
}

impl Deserialize for Status {
    fn deserialize(value: &Value) -> Result<Self, Error> {
        match decode_variant(value, &status_variants())? {
            VariantMatch::Unit(0) => Ok(Status::Active),
            VariantMatch::Unit(1) => Ok(Status::Inactive),
            VariantMatch::Tuple(2, items) => Ok(Status::Pending(String::deserialize(&items[0])?)),
            VariantMatch::Struct(3) => {
                let e = object_entries(value)?;
                let f = custom_fields();
                Ok(Status::Custom { code: read(&f[0], e)?, message: read(&f[1], e)? })
            }
            _ => Err(Error::TypeError("unknown variant".to_string())),
        }
    }
}

#[test]
fn test_basic_serialization() {
    let person = Person {
        name: "John Doe".to_string(),
        age: 30,
        is_active: true,
        email: Some("john@example.com".to_string()),
        _internal_id: Some(12345),
    };
    let json = to_string(&person).unwrap();
    println!("JSON output: {}", json);
    assert!(json.contains(r#""name": "John Doe""#));
    assert!(json.contains(r#""age": 30"#));
    assert!(json.contains(r#""is_active": true"#));
    assert!(json.contains(r#""emailAddress": "john@example.com""#));
    assert!(!json.contains("_internal_id"));
}

#[derive(Debug, PartialEq)]
struct SimpleTest {
    name: String,
    value: u32,
}

impl Deserialize for SimpleTest {
    fn deserialize(value: &Value) -> Result<Self, Error> {
        let e = object_entries(value)?;
        Ok(SimpleTest { name: read(&plain("name"), e)?, value: read(&plain("value"), e)? })
    }
}

#[test]
fn test_basic_deserialization() {
    let json = r#"{"name":"test","value":42}"#;
    let parsed = fastjson::parse(json);
    if let Ok(value) = &parsed {
        println!("Parsed value: {:?}", value);
    } else if let Err(e) = &parsed {
        println!("Parse error: {:?}", e);
    }
    let result = from_str::<SimpleTest>(json);
    if let Err(ref e) = result {
        println!("Deserialization error: {:?}", e);
    }
    let simple = result.unwrap();
    assert_eq!(simple.name, "test");
    assert_eq!(simple.value, 42);
}

#[test]
fn test_pretty_print() {
    let person = Person {
        name: "John Doe".to_string(),
        age: 30,
        is_active: true,
        email: Some("john@example.com".to_string()),
        _internal_id: None,
    };
    let json = to_string_pretty(&person).unwrap();
    assert!(json.contains("{\n"));
    assert!(json.contains("\n}"));
    assert!(json.contains(r#""name": "John Doe""#));
    assert!(json.contains(r#""age": 30"#));
}

#[derive(Debug, PartialEq)]
struct SimpleString {
    text: String,
}

impl Deserialize for SimpleString {
    fn deserialize(value: &Value) -> Result<Self, Error> {
        let e = object_entries(value)?;
        Ok(SimpleString { text: read(&plain("text"), e)? })
    }
}

#[derive(Debug, PartialEq)]
enum SimpleEnum {
    First,
    Second,
}

impl Serialize for SimpleEnum {
    fn serialize(&self) -> Result<Value, Error> {
        match self {
            SimpleEnum::First => Ok(encode_unit("First")),
            SimpleEnum::Second => Ok(encode_unit("Second")),
        }
    }
}

impl Deserialize for SimpleEnum {
    fn deserialize(value: &Value) -> Result<Self, Error> {
        let vs = vec![Variant::with("First", None, VariantKind::Unit), Variant::with("Second", None, VariantKind::Unit)];
        match decode_variant(value, &vs)? {
            VariantMatch::Unit(0) => Ok(SimpleEnum::First),
            VariantMatch::Unit(1) => Ok(SimpleEnum::Second),
            _ => Err(Error::TypeError("unknown variant".to_string())),
        }
    }
}

#[test]
fn test_round_trip() {
    let enum_value = SimpleEnum::First;
    let enum_json = to_string(&enum_value).unwrap();
    println!("Enum JSON: {}", enum_json);
    let enum_value_back: SimpleEnum = from_str(&enum_json).unwrap();
    assert_eq!(enum_value, enum_value_back);

    let json = r#"{"text":"Hello world"}"#;
    println!("Simple JSON: {}", json);
    let result = from_str::<SimpleString>(json);
    if let Err(e) = &result {
        println!("Deserialization error: {:?}", e);
    }
    let deserialized = result.unwrap();
    assert_eq!(deserialized.text, "Hello world");
}

#[test]
fn test_enum_serialization() {
    let status1 = Status::Active;
    let status2 = Status::Pending("Approval required".to_string());
    let status3 = Status::Custom { code: 42, message: "Custom status".to_string() };

    let json1 = to_string(&status1).unwrap();
    assert_eq!(json1, r#""Active""#);

    let json2 = to_string(&status2).unwrap();
    assert!(json2.contains(r#""type": "Pending""#));
    assert!(json2.contains(r#""data": ["Approval required"]"#));

    let json3 = to_string(&status3).unwrap();
    assert!(json3.contains(r#""type": "Custom""#));
    assert!(json3.contains(r#""code": 42"#));
    assert!(json3.contains(r#""message": "Custom status""#));

    let decoded1: Status = from_str(&json1).unwrap();
    let decoded2: Status = from_str(&json2).unwrap();
    let decoded3: Status = from_str(&json3).unwrap();
    assert_eq!(status1, decoded1);
    assert_eq!(status2, decoded2);
    assert_eq!(status3, decoded3);
}

#[derive(Debug, PartialEq)]
enum SimpleColors {
    Red,
    Green,
    Custom(String),
    RGB { r: u8, g: u8, b: u8, alpha: Option<Number> },
}

fn rgb_fields() -> Vec<Field> {
    vec![plain("r"), plain("g"), plain("b"), optional("alpha")]
}

impl Serialize for SimpleColors {
    fn serialize(&self) -> Result<Value, Error> {
        match self {
            SimpleColors::Red => Ok(encode_unit("Red")),
            SimpleColors::Green => Ok(encode_unit("Green")),
            SimpleColors::Custom(s) => Ok(encode_tuple("Custom", vec![s.serialize()?])),
            SimpleColors::RGB { r, g, b, alpha } => Ok(encode_struct(
                "RGB",
                &rgb_fields(),
                &vec![Some(r.serialize()?), Some(g.serialize()?), Some(b.serialize()?), opt(alpha)?],
            )),
        }
    }
}

impl Deserialize for SimpleColors {
    fn deserialize(value: &Value) -> Result<Self, Error> {
        let vs = vec![
            Variant::with("Red", None, VariantKind::Unit),
            Variant::with("Green", None, VariantKind::Unit),
            Variant::with("Custom", None, VariantKind::Tuple(vec!["String".to_string()])),
            Variant::with("RGB", None, VariantKind::Struct(rgb_fields())),
        ];
        match decode_variant(value, &vs)? {
            VariantMatch::Unit(0) => Ok(SimpleColors::Red),
            VariantMatch::Unit(1) => Ok(SimpleColors::Green),
            VariantMatch::Tuple(2, items) => Ok(SimpleColors::Custom(String::deserialize(&items[0])?)),
            VariantMatch::Struct(3) => {
                let e = object_entries(value)?;
                let f = rgb_fields();
                Ok(SimpleColors::RGB { r: read(&f[0], e)?, g: read(&f[1], e)?, b: read(&f[2], e)?, alpha: read_opt(&f[3], e)? })
            }
            _ => Err(Error::TypeError("unknown variant".to_string())),
        }
    }
}

fn half() -> Number {
    Number { negative: false, magnitude: 5, exponent: -1 }
}

#[test]
fn test_enum_with_derive() {
    let color1 = SimpleColors::Red;
    let json1 = to_string(&color1).unwrap();
    assert_eq!(json1, r#""Red""#);

    let color2 = SimpleColors::Custom("#336699".to_string());
    let json2 = to_string(&color2).unwrap();
    assert!(json2.contains(r#""type": "Custom""#));
    assert!(json2.contains(r#""data""#));
    assert!(json2.contains(r#"#336699"#));

    let color3 = SimpleColors::RGB { r: 255, g: 0, b: 0, alpha: Some(half()) };
    let json3 = to_string(&color3).unwrap();
    assert!(json3.contains(r#""type": "RGB""#));
    assert!(json3.contains(r#""r": 255"#));
    assert!(json3.contains(r#""alpha": 0.5"#));
    println!("JSON for struct variant with Some: {}", json3);

    let color4 = SimpleColors::RGB { r: 0, g: 255, b: 0, alpha: None };
    let json4 = to_string(&color4).unwrap();
    println!("JSON for struct variant with None: {}", json4);
    assert!(json4.contains(r#""type": "RGB""#));
    assert!(json4.contains(r#""g": 255"#));
    assert!(json4.contains(r#""alpha": null"#));

    let decoded1: SimpleColors = from_str(&json1).unwrap();
    assert_eq!(color1, decoded1);

    let decoded2_result = from_str::<SimpleColors>(&json2);
    if let Err(ref e) = decoded2_result {
        println!("Error deserializing tuple variant: {:?}", e);
    } else {
        let decoded2 = decoded2_result.unwrap();
        assert_eq!(color2, decoded2);
    }
}

#[derive(Debug, PartialEq)]
enum ThreeWays {
    One,
    Two(String),
    Three { value: i32 },
}

impl Serialize for ThreeWays {
    fn serialize(&self) -> Result<Value, Error> {
        match self {
            ThreeWays::One => Ok(encode_unit("One")),
            ThreeWays::Two(s) => Ok(encode_tuple("Two", vec![s.serialize()?])),
            ThreeWays::Three { value } => Ok(encode_struct("Three", &vec![plain("value")], &vec![Some(value.serialize()?)])),
        }
    }
}

impl Deserialize for ThreeWays {
    fn deserialize(value: &Value) -> Result<Self, Error> {
        let vs = vec![
            Variant::with("One", None, VariantKind::Unit),
            Variant::with("Two", None, VariantKind::Tuple(vec!["String".to_string()])),
            Variant::with("Three", None, VariantKind::Struct(vec![plain("value")])),
        ];
        match decode_variant(value, &vs)? {
            VariantMatch::Unit(0) => Ok(ThreeWays::One),
            VariantMatch::Tuple(1, items) => Ok(ThreeWays::Two(String::deserialize(&items[0])?)),
            VariantMatch::Struct(2) => {
                let e = object_entries(value)?;
                Ok(ThreeWays::Three { value: read(&plain("value"), e)? })
            }
            _ => Err(Error::TypeError("unknown variant".to_string())),
        }
    }
}

#[test]
fn test_simple_enum() {
    let enum1 = ThreeWays::One;
    let enum2 = ThreeWays::Two("test".to_string());
    let enum3 = ThreeWays::Three { value: 42 };

    let json1 = to_string(&enum1).unwrap();
    assert_eq!(json1, r#""One""#);

    let json2 = to_string(&enum2).unwrap();
    assert!(json2.contains(r#""type": "Two""#));
    assert!(json2.contains(r#""data""#));
    assert!(json2.contains(r#""test""#));

    let json3 = to_string(&enum3).unwrap();
    assert!(json3.contains(r#""type": "Three""#));
    assert!(json3.contains(r#""value": 42"#));

    let decoded1: ThreeWays = from_str(&json1).unwrap();
    let decoded2: ThreeWays = from_str(&json2).unwrap();
    let decoded3: ThreeWays = from_str(&json3).unwrap();
    assert_eq!(enum1, decoded1);
    assert_eq!(enum2, decoded2);
    assert_eq!(enum3, decoded3);
}

#[derive(Debug, PartialEq)]
struct RequiredField {
    required_field: String,
}

impl Deserialize for RequiredField {
    fn deserialize(value: &Value) -> Result<Self, Error> {
        let e = object_entries(value)?;
        Ok(RequiredField { required_field: read(&plain("required_field"), e)? })
    }
}

#[test]
fn test_error_handling() {
    let json1 = r#"
    {
        "age": 30,
        "is_active": true
    }
    "#;
    let result1: Result<Person, _> = from_str(json1);
    assert!(result1.is_err());

    let json_missing = r#"{"optional":42}"#;
    let missing_result: Result<RequiredField, _> = from_str(json_missing);
    assert!(missing_result.is_err());
    if let Err(err) = missing_result {
        match err {
            Error::MissingField(field) => assert_eq!(field, "required_field"),
            _ => panic!("Expected MissingField error"),
        }
    }

    let json2 = r#"
    {
        "name": "John", 
        "age": 30,
    }
    "#;
    let result2: Result<Person, _> = from_str(json2);
    assert!(result2.is_err());

    let json3 = r#"
    {
        "name": "John",
        "age": "thirty",
        "is_active": true
    }
    "#;
    let result3: Result<Person, _> = from_str(json3);
    assert!(result3.is_err());
}

#[test]
fn test_enum_documentation_example() {
    let status1 = Status::Active;
    let status2 = Status::Inactive;
    let status3 = Status::Pending("Awaiting approval".to_string());
    let status4 = Status::Custom { code: 42, message: "Custom status".to_string() };

    let json1 = to_string(&status1).unwrap();
    let json2 = to_string(&status2).unwrap();
    let json3 = to_string(&status3).unwrap();
    let json4 = to_string(&status4).unwrap();

    let decoded1: Status = from_str(&json1).unwrap();
    let decoded2: Status = from_str(&json2).unwrap();
    let decoded3: Status = from_str(&json3).unwrap();
    let decoded4: Status = from_str(&json4).unwrap();

    assert_eq!(status1, decoded1);
    assert_eq!(status2, decoded2);
    assert_eq!(status3, decoded3);
    assert_eq!(status4, decoded4);
}

#[derive(Debug, PartialEq)]
enum ColorChoice {
    Red,
    Green,
    Custom(String),
    RGB { r: u8, g: u8, b: u8, alpha: Option<Number> },
}

fn entry(e: &mut Vec<(String, Value)>, k: &str, v: Value) {
    object_insert(e, k.to_string(), v);
}

impl Serialize for ColorChoice {
    fn serialize(&self) -> Result<Value, Error> {
        match self {
            ColorChoice::Red => Ok(Value::String("red".to_owned())),
            ColorChoice::Green => Ok(Value::String("green".to_owned())),
            ColorChoice::Custom(s) => {
                let mut map = Vec::new();
                entry(&mut map, "type", Value::String("custom-color".to_owned()));
                entry(&mut map, "data", Value::Array(vec![s.serialize()?]));
                Ok(Value::Object(map))
            }
            ColorChoice::RGB { r, g, b, alpha } => {
                let mut map = Vec::new();
                entry(&mut map, "type", Value::String("rgb".to_owned()));
                entry(&mut map, "r", Value::Number(Number::from_u64(*r as u64)));
                entry(&mut map, "g", Value::Number(Number::from_u64(*g as u64)));
                entry(&mut map, "b", Value::Number(Number::from_u64(*b as u64)));
                if let Some(a) = alpha {
                    entry(&mut map, "alpha", Value::Number(*a));
                }
                Ok(Value::Object(map))
            }
        }
    }
}

impl Deserialize for ColorChoice {
    fn deserialize(value: &Value) -> Result<Self, Error> {
        match value {
            Value::String(s) => match s.as_str() {
                "red" => Ok(ColorChoice::Red),
                "green" => Ok(ColorChoice::Green),
                _ => Err(Error::TypeError(format!("unknown enum variant: {}", s))),
            },
            Value::Object(_) => {
                if let Some(Value::String(t)) = value.get("type") {
                    match t.as_str() {
                        "custom-color" => {
                            if let Some(Value::Array(arr)) = value.get("data") {
                                if arr.len() != 1 {
                                    return Err(Error::TypeError(format!(
                                        "expected array with 1 element, found array with {} elements",
                                        arr.len()
                                    )));
                                }
                                let s = String::deserialize(&arr[0])?;
                                return Ok(ColorChoice::Custom(s));
                            }
                            Err(Error::TypeError("expected array for enum variant data".to_string()))
                        }
                        "rgb" => {
                            let r = match value.get("r") {
                                Some(v) => u8::deserialize(v)?,
                                None => return Err(Error::MissingField("r".to_string())),
                            };
                            let g = match value.get("g") {
                                Some(v) => u8::deserialize(v)?,
                                None => return Err(Error::MissingField("g".to_string())),
                            };
                            let b = match value.get("b") {
                                Some(v) => u8::deserialize(v)?,
                                None => return Err(Error::MissingField("b".to_string())),
                            };
                            let alpha = match value.get("alpha") {
                                Some(v) => Some(Number::deserialize(v)?),
                                None => None,
                            };
                            Ok(ColorChoice::RGB { r, g, b, alpha })
                        }
                        _ => Err(Error::TypeError(format!("unknown enum variant type: {}", t))),
                    }
                } else {
                    Err(Error::MissingField("type".to_string()))
                }
            }
            _ => Err(Error::TypeError(format!("expected string or object for enum, found {:?}", value))),
        }
    }
}

#[test]
fn test_enum_with_attributes() {
    let color1 = ColorChoice::Red;
    let json1 = to_string(&color1).unwrap();
    assert_eq!(json1, r#""red""#);

    let color2 = ColorChoice::Custom("#336699".to_string());
    let json2 = to_string(&color2).unwrap();
    assert!(json2.contains(r#""type": "custom-color""#));
    assert!(json2.contains(r#""data""#));
    assert!(json2.contains(r#"#336699"#));

    let color3 = ColorChoice::RGB { r: 255, g: 0, b: 0, alpha: Some(half()) };
    let json3 = to_string(&color3).unwrap();
    assert!(json3.contains(r#""type": "rgb""#));
    assert!(json3.contains(r#""r": 255"#));
    assert!(json3.contains(r#""alpha": 0.5"#));

    let color4 = ColorChoice::RGB { r: 0, g: 255, b: 0, alpha: None };
    let json4 = to_string(&color4).unwrap();
    assert!(json4.contains(r#""type": "rgb""#));
    assert!(json4.contains(r#""g": 255"#));
    assert!(!json4.contains("alpha"));

    let decoded1: ColorChoice = from_str(&json1).unwrap();
    let decoded2: ColorChoice = from_str(&json2).unwrap();
    let decoded3: ColorChoice = from_str(&json3).unwrap();
    let decoded4: ColorChoice = from_str(&json4).unwrap();
    assert_eq!(color1, decoded1);
    assert_eq!(color2, decoded2);
    assert_eq!(color3, decoded3);
    assert_eq!(color4, decoded4);
}

#[derive(Debug, PartialEq)]
struct Item {
    id: u32,
    name: String,
}

impl Serialize for Item {
    fn serialize(&self) -> Result<Value, Error> {
        Ok(encode_record(&vec![plain("id"), plain("name")], &vec![Some(self.id.serialize()?), Some(self.name.serialize()?)]))
    }
}

impl Deserialize for Item {
    fn deserialize(value: &Value) -> Result<Self, Error> {
        let e = object_entries(value)?;
        Ok(Item { id: read(&plain("id"), e)?, name: read(&plain("name"), e)? })
    }
}

#[derive(Debug, PartialEq)]
struct Container {
    title: String,
    items: Vec<Item>,
}

impl Serialize for Container {
    fn serialize(&self) -> Result<Value, Error> {
        Ok(encode_record(&vec![plain("title"), plain("items")], &vec![Some(self.title.serialize()?), Some(self.items.serialize()?)]))
    }
}

impl Deserialize for Container {
    fn deserialize(value: &Value) -> Result<Self, Error> {
        let e = object_entries(value)?;
        Ok(Container { title: read(&plain("title"), e)?, items: read(&plain("items"), e)? })
    }
}

#[test]
fn test_nested_structures() {
    let container = Container {
        title: "Test Container".to_string(),
        items: vec![
            Item { id: 1, name: "Item 1".to_string() },
            Item { id: 2, name: "Item 2".to_string() },
        ],
    };
    let json = to_string(&container).unwrap();
    let parsed: Container = from_str(&json).unwrap();
    assert_eq!(parsed, container);
}

#[derive(Debug, PartialEq)]
struct TestOptional {
    required: String,
    optional: Option<String>,
    conditional: Option<u32>,
}

fn optional_fields() -> Vec<Field> {
    vec![plain("required"), optional("optional"), Field::with("conditional", None, false, true, true)]
}

impl Serialize for TestOptional {
    fn serialize(&self) -> Result<Value, Error> {
        let values = vec![Some(self.required.serialize()?), opt(&self.optional)?, opt(&self.conditional)?];
        Ok(encode_record(&optional_fields(), &values))
    }
}

impl Deserialize for TestOptional {
    fn deserialize(value: &Value) -> Result<Self, Error> {
        let e = object_entries(value)?;
        let f = optional_fields();
        Ok(TestOptional { required: read(&f[0], e)?, optional: read_opt(&f[1], e)?, conditional: read_opt(&f[2], e)? })
    }
}

#[test]
fn test_option_serialization() {
    let test1 = TestOptional { required: "hello".to_string(), optional: Some("world".to_string()), conditional: Some(42) };
    let json1 = to_string(&test1).unwrap();
    assert!(json1.contains(r#""required": "hello""#));
    assert!(json1.contains(r#""optional": "world""#));
    assert!(json1.contains(r#""conditional": 42"#));

    let test2 = TestOptional { required: "hello".to_string(), optional: None, conditional: Some(42) };
    let json2 = to_string(&test2).unwrap();
    assert!(json2.contains(r#""required": "hello""#));
    assert!(json2.contains(r#""optional": null"#));
    assert!(json2.contains(r#""conditional": 42"#));

    let test3 = TestOptional { required: "hello".to_string(), optional: Some("world".to_string()), conditional: None };
    let json3 = to_string(&test3).unwrap();
    assert!(json3.contains(r#""required": "hello""#));
    assert!(json3.contains(r#""optional": "world""#));
    assert!(!json3.contains("conditional"));

    let decoded1 = from_str::<TestOptional>(&json1);
    if decoded1.is_err() {
        println!("Error deserializing json1: {:?}", decoded1.err());
    } else {
        let decoded1 = decoded1.unwrap();
        assert_eq!(test1, decoded1);
    }
    println!("JSON1: {}", json1);
    println!("JSON2: {}", json2);
    println!("JSON3: {}", json3);
}

#[test]
fn test_number_range_validation() {
    let big_num: u64 = 10000000000000000000;
    let result = to_string(&big_num);
    assert!(result.is_err());

    let json = "300";
    let result: Result<i8, _> = from_str(json);
    assert!(result.is_err());

    let json = "42.5";
    let result: Result<i32, _> = from_str(json);
    assert!(result.is_err());
}

#[test]
fn person_scenario_has_exactly_the_written_keys() {
    let person = Person {
        name: "John Doe".to_string(),
        age: 30,
        is_active: true,
        email: Some("john@example.com".to_string()),
        _internal_id: Some(12345),
    };
    let v = person.serialize().unwrap();
    let keys: Vec<String> = object_entries(&v).unwrap().iter().map(|(k, _)| k.clone()).collect();
    assert_eq!(keys, vec!["age", "emailAddress", "is_active", "name"]);
    assert_eq!(v.get("name"), Some(&Value::String("John Doe".to_string())));
    assert_eq!(v.get("age"), Some(&Value::Number(Number::from_u64(30))));
    assert_eq!(v.get("is_active"), Some(&Value::Bool(true)));
    assert_eq!(v.get("emailAddress"), Some(&Value::String("john@example.com".to_string())));
}

#[test]
fn person_without_name_is_missing_field_name() {
    match from_str::<Person>(r#"{"age": 30, "is_active": true}"#) {
        Err(Error::MissingField(f)) => assert_eq!(f, "name"),
        other => panic!("expected MissingField, got {:?}", other),
    }
}

#[test]
fn pending_status_has_type_and_data() {
    let v = Status::Pending("Approval required".to_string()).serialize().unwrap();
    assert_eq!(v.get("type"), Some(&Value::String("Pending".to_string())));
    assert_eq!(v.get("data"), Some(&Value::Array(vec![Value::String("Approval required".to_string())])));
    assert_eq!(object_entries(&v).unwrap().len(), 2);
    assert_eq!(Status::deserialize(&v).unwrap(), Status::Pending("Approval required".to_string()));
    assert_eq!(Status::Active.serialize().unwrap(), Value::String("Active".to_string()));
}

#[test]
fn skip_if_none_field_is_omitted_when_absent() {
    let absent = TestOptional { required: "r".to_string(), optional: None, conditional: None }.serialize().unwrap();
    assert_eq!(absent.get("conditional"), None);
    let present = TestOptional { required: "r".to_string(), optional: None, conditional: Some(42) }.serialize().unwrap();
    assert_eq!(present.get("conditional"), Some(&Value::Number(Number::from_u64(42))));
}
