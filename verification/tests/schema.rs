use pybag_rs::error::PybagError;
use pybag_rs::schema::decode::{decode_message, Value};
use pybag_rs::schema::ros2msg::{find_schema, Ros2MsgParser};
use pybag_rs::schema::types::{FieldType, FieldValue, PrimitiveType, Schema, StringType};

#[test]
fn test_parse_simple_schema() {
    let parser = Ros2MsgParser::new();
    let schema_data = b"float64 x\nfloat64 y\nfloat64 z\n";
    let (schema, _) = parser.parse("geometry_msgs/msg/Point", schema_data).unwrap();

    assert_eq!(schema.name, "geometry_msgs/msg/Point");
    assert_eq!(schema.fields.len(), 3);
    assert_eq!(schema.fields[0].name, "x");
    assert_eq!(schema.fields[1].name, "y");
    assert_eq!(schema.fields[2].name, "z");
}

#[test]
fn test_parse_with_constants() {
    let parser = Ros2MsgParser::new();
    let schema_data = b"byte OK=0\nbyte WARN=1\nbyte ERROR=2\nbyte level\nstring message\n";
    let (schema, _) = parser.parse("diagnostic_msgs/msg/DiagnosticStatus", schema_data).unwrap();

    assert_eq!(schema.constants.len(), 3);
    assert_eq!(schema.fields.len(), 2);
}

#[test]
fn point_has_three_float_fields_and_nothing_else() {
    let (schema, subs) = Ros2MsgParser::new()
        .parse("geometry_msgs/msg/Point", b"float64 x\nfloat64 y\nfloat64 z\n")
        .unwrap();
    for f in &schema.fields {
        assert_eq!(f.field_type, FieldType::Primitive(PrimitiveType::Float64));
        assert!(f.default_value.is_none());
    }
    assert_eq!(schema.constants.len(), 0);
    assert_eq!(subs.len(), 0);
}

#[test]
fn constants_carry_their_values() {
    let (schema, _) = Ros2MsgParser::new()
        .parse(
            "diagnostic_msgs/msg/DiagnosticStatus",
            b"byte OK=0\nbyte WARN=1\nbyte ERROR=2\nbyte level\nstring message\n",
        )
        .unwrap();
    let values: Vec<&FieldValue> = schema.constants.iter().map(|c| &c.value).collect();
    assert_eq!(values, vec![&FieldValue::Uint(0), &FieldValue::Uint(1), &FieldValue::Uint(2)]);
    let names: Vec<&str> = schema.constants.iter().map(|c| c.name.as_str()).collect();
    assert_eq!(names, vec!["OK", "WARN", "ERROR"]);
    assert_eq!(schema.fields[0].name, "level");
    assert_eq!(schema.fields[1].name, "message");
    assert_eq!(
        schema.fields[1].field_type,
        FieldType::String(StringType { is_wide: false, max_length: None })
    );
}

#[test]
fn primitive_keywords() {
    assert_eq!(PrimitiveType::from_str("bool"), Some(PrimitiveType::Bool));
    assert_eq!(PrimitiveType::from_str("octet"), Some(PrimitiveType::Byte));
    assert_eq!(PrimitiveType::from_str("byte"), Some(PrimitiveType::Byte));
    assert_eq!(PrimitiveType::from_str("uint64"), Some(PrimitiveType::Uint64));
    assert_eq!(PrimitiveType::from_str("float"), None);
    assert_eq!(PrimitiveType::Float32.as_str(), "float32");
    assert_eq!(PrimitiveType::Byte.as_str(), "byte");
    assert_eq!(PrimitiveType::Char.as_str(), "char");
    let s = Schema::new("a/B".to_string());
    assert_eq!(s.name, "a/B");
    assert!(s.fields.is_empty() && s.constants.is_empty());
}

#[test]
fn types_of_every_shape() {
    let text = b"# a comment line\n\
int32[3] fixed   # trailing comment\n\
uint8[<=5] bounded\n\
string[] names\n\
string<=10 short\n\
wstring wide\n\
Header header\n\
Pose pose\n\
other_msgs/Thing thing\n\
just_one_word\n\
\n\
int32 count 7\n\
float64 ratio -1.5e3\n\
string label \"hello world\"\n\
bool flag true\n\
char letter x\n\
int16[] list [1, -2, 3]\n\
int32 X = 4\n\
string NAME=\"#1\"\n";
    let (schema, subs) = Ros2MsgParser::new().parse("pkg/msg/Sample", text).unwrap();
    assert_eq!(subs.len(), 0);
    let t: Vec<&FieldType> = schema.fields.iter().map(|f| &f.field_type).collect();
    let int32 = || Box::new(FieldType::Primitive(PrimitiveType::Int32));
    assert_eq!(t[0], &FieldType::Array { element_type: int32(), length: 3, is_bounded: false });
    assert_eq!(
        t[1],
        &FieldType::Array {
            element_type: Box::new(FieldType::Primitive(PrimitiveType::Uint8)),
            length: 5,
            is_bounded: true
        }
    );
    assert_eq!(
        t[2],
        &FieldType::Sequence {
            element_type: Box::new(FieldType::String(StringType {
                is_wide: false,
                max_length: None
            })),
            max_length: None
        }
    );
    assert_eq!(t[3], &FieldType::String(StringType { is_wide: false, max_length: Some(10) }));
    assert_eq!(t[4], &FieldType::String(StringType { is_wide: true, max_length: None }));
    assert_eq!(t[5], &FieldType::Complex { full_name: "std_msgs/Header".to_string() });
    assert_eq!(t[6], &FieldType::Complex { full_name: "pkg/Pose".to_string() });
    assert_eq!(t[7], &FieldType::Complex { full_name: "other_msgs/Thing".to_string() });
    let names: Vec<&str> = schema.fields.iter().map(|f| f.name.as_str()).collect();
    assert_eq!(
        names,
        vec![
            "fixed", "bounded", "names", "short", "wide", "header", "pose", "thing", "count",
            "ratio", "label", "flag", "letter", "list"
        ]
    );
    assert_eq!(schema.fields[8].default_value, Some(FieldValue::Int(7)));
    assert_eq!(schema.fields[9].default_value, Some(FieldValue::Float("-1.5e3".to_string())));
    assert_eq!(schema.fields[10].default_value, Some(FieldValue::String("hello world".to_string())));
    assert_eq!(schema.fields[11].default_value, Some(FieldValue::Bool(true)));
    assert_eq!(schema.fields[12].default_value, Some(FieldValue::Uint('x' as u64)));
    assert_eq!(
        schema.fields[13].default_value,
        Some(FieldValue::Array(vec![
            FieldValue::Int(1),
            FieldValue::Int(-2),
            FieldValue::Int(3)
        ]))
    );
    assert_eq!(schema.constants.len(), 2);
    assert_eq!(schema.constants[0].name, "X");
    assert_eq!(schema.constants[0].value, FieldValue::Int(4));
    assert_eq!(schema.constants[1].name, "NAME");
    assert_eq!(schema.constants[1].value, FieldValue::String("#1".to_string()));
}

#[test]
fn malformed_definitions_are_refused() {
    let parser = Ros2MsgParser::new();
    for text in [
        &b"int32 x abc\n"[..],
        b"uint8 x -1\n",
        b"float32 x 1.2.3\n",
        b"int32[x] a\n",
        b"int32[<=] a\n",
        b"int32[3 a\n",
        b"string<=q s\n",
        b"Pose p 1\n",
        b"int32[] a 1,2\n",
        b"int64 big 9223372036854775808\n",
        b"\xff\xfe",
    ] {
        assert!(matches!(parser.parse("p/T", text), Err(PybagError::SchemaParseError(_))));
    }
    let (ok, _) = parser
        .parse("p/T", b"int64 low -9223372036854775808\nuint64 high 18446744073709551615\nfloat64 f .5\nfloat32 g inf\nfloat32 h +NaN\nfloat64 i 1.\n")
        .unwrap();
    assert_eq!(ok.fields[0].default_value, Some(FieldValue::Int(i64::MIN)));
    assert_eq!(ok.fields[1].default_value, Some(FieldValue::Uint(u64::MAX)));
    assert_eq!(ok.fields.len(), 6);
}

const DIVIDER: &str =
    "================================================================================";

#[test]
fn sub_schemas_and_built_in_types() {
    let text = format!(
        "std_msgs/Header header\nPoint position\nbuiltin_interfaces/Time stamp\n{d}\nMSG: std_msgs/Header\nbuiltin_interfaces/Time stamp\nstring frame_id\n{d}\nMSG: geometry_msgs/Point\nfloat64 x\nfloat64 y\n{d}\nnot a header line\nint32 ignored\n{d}\n",
        d = DIVIDER
    );
    let (schema, subs) =
        Ros2MsgParser::new().parse("geometry_msgs/msg/Stamped", text.as_bytes()).unwrap();
    assert_eq!(schema.fields.len(), 3);
    let names: Vec<&str> = subs.iter().map(|s| s.name.as_str()).collect();
    assert_eq!(names, vec!["std_msgs/Header", "geometry_msgs/Point", "builtin_interfaces/Time"]);
    let header = find_schema(&subs, "std_msgs/Header").unwrap();
    assert_eq!(header.fields.len(), 2);
    let time = find_schema(&subs, "builtin_interfaces/Time").unwrap();
    assert_eq!(time.fields[0].name, "sec");
    assert_eq!(time.fields[0].field_type, FieldType::Primitive(PrimitiveType::Int32));
    assert_eq!(time.fields[1].name, "nanosec");
    assert_eq!(time.fields[1].field_type, FieldType::Primitive(PrimitiveType::Uint32));
    assert!(find_schema(&subs, "builtin_interfaces/Duration").is_none());

    // sec=1, nanosec=2, frame "ab", then the point, then the stamp
    let mut data = vec![0u8, 1, 0, 0];
    data.extend_from_slice(&1i32.to_le_bytes());
    data.extend_from_slice(&2u32.to_le_bytes());
    data.extend_from_slice(&3u32.to_le_bytes());
    data.extend_from_slice(b"ab\0");
    data.push(0); // the payload is 15 bytes long here: one byte of padding

    data.extend_from_slice(&1.5f64.to_le_bytes());
    data.extend_from_slice(&2.5f64.to_le_bytes());
    data.extend_from_slice(&(-7i32).to_le_bytes());
    data.extend_from_slice(&9u32.to_le_bytes());
    let value = decode_message(&data, &schema, &subs).unwrap();
    let time = |s: i32, n: u32| {
        Value::Message(vec![
            ("sec".to_string(), Value::Int32(s)),
            ("nanosec".to_string(), Value::Uint32(n)),
        ])
    };
    assert_eq!(
        value,
        Value::Message(vec![
            (
                "header".to_string(),
                Value::Message(vec![
                    ("stamp".to_string(), time(1, 2)),
                    ("frame_id".to_string(), Value::String("ab".to_string())),
                ])
            ),
            (
                "position".to_string(),
                Value::Message(vec![
                    ("x".to_string(), Value::Float64(1.5f64.to_bits())),
                    ("y".to_string(), Value::Float64(2.5f64.to_bits())),
                ])
            ),
            ("stamp".to_string(), time(-7, 9)),
        ])
    );
}

#[test]
fn decoding_follows_the_field_tree() {
    let (schema, subs) = Ros2MsgParser::new()
        .parse(
            "p/msg/T",
            b"bool b\nint8 i\nchar c\nuint16[2] pair\nint32[] seq\nwstring w\nbyte raw\nfloat32 f\n",
        )
        .unwrap();
    let mut data = vec![0u8, 0, 0, 0];
    data.push(1);
    data.push(0xFE);
    data.push(b'Z');
    data.push(0); // padding before the 16-bit numbers
    data.extend_from_slice(&0x0102u16.to_be_bytes());
    data.extend_from_slice(&0x0304u16.to_be_bytes());
    data.extend_from_slice(&2u32.to_be_bytes());
    data.extend_from_slice(&(-5i32).to_be_bytes());
    data.extend_from_slice(&6i32.to_be_bytes());
    data.extend_from_slice(&3u32.to_be_bytes());
    data.extend_from_slice(&('h' as u32).to_be_bytes());
    data.extend_from_slice(&('i' as u32).to_be_bytes());
    data.extend_from_slice(&0u32.to_be_bytes());
    data.push(0x7F);
    data.extend_from_slice(&[0u8; 3]);
    data.extend_from_slice(&2.5f32.to_bits().to_be_bytes());
    let value = decode_message(&data, &schema, &subs).unwrap();
    assert_eq!(
        value,
        Value::Message(vec![
            ("b".to_string(), Value::Bool(true)),
            ("i".to_string(), Value::Int8(-2)),
            ("c".to_string(), Value::Char('Z')),
            ("pair".to_string(), Value::List(vec![Value::Uint16(0x0102), Value::Uint16(0x0304)])),
            ("seq".to_string(), Value::List(vec![Value::Int32(-5), Value::Int32(6)])),
            ("w".to_string(), Value::String("hi".to_string())),
            ("raw".to_string(), Value::Byte(0x7F)),
            ("f".to_string(), Value::Float32(2.5f32.to_bits())),
        ])
    );
    assert!(matches!(
        decode_message(&data[..data.len() - 1], &schema, &subs),
        Err(PybagError::BufferTooSmall { needed: 4, available: 3 })
    ));
    assert!(matches!(decode_message(&data[..3], &schema, &subs), Err(PybagError::CdrDecodeError(_))));
}

#[test]
fn unknown_and_endless_types_fail() {
    let parser = Ros2MsgParser::new();
    let (schema, subs) = parser.parse("p/msg/T", b"Missing m\n").unwrap();
    assert!(matches!(
        decode_message(&[0, 1, 0, 0], &schema, &subs),
        Err(PybagError::CdrDecodeError(_))
    ));
    let text = format!("p/Loop l\n{d}\nMSG: p/Loop\np/Loop again\n", d = DIVIDER);
    let (schema, subs) = parser.parse("p/msg/T", text.as_bytes()).unwrap();
    assert!(matches!(
        decode_message(&[0, 1, 0, 0], &schema, &subs),
        Err(PybagError::CdrDecodeError(_))
    ));
    let text = format!("p/msg/Inner i\n{d}\nMSG: p/Inner\nuint8 v\n", d = DIVIDER);
    let (schema, subs) = parser.parse("p/msg/T", text.as_bytes()).unwrap();
    assert_eq!(
        decode_message(&[0, 1, 0, 0, 9], &schema, &subs).unwrap(),
        Value::Message(vec![(
            "i".to_string(),
            Value::Message(vec![("v".to_string(), Value::Uint8(9))])
        )])
    );
}

#[test]
fn schema_trees_can_be_copied() {
    let (schema, _) = Ros2MsgParser::new()
        .parse("p/msg/T", b"int32[] list [1, 2]\nstring s \"x\"\nint8 K=3\n")
        .unwrap();
    let copy = schema.clone();
    assert_eq!(copy.name, schema.name);
    assert_eq!(copy.fields.len(), 2);
    assert_eq!(copy.fields[0].field_type, schema.fields[0].field_type);
    assert_eq!(copy.fields[0].default_value, schema.fields[0].default_value);
    assert_eq!(copy.fields[1].default_value, Some(FieldValue::String("x".to_string())));
    assert_eq!(copy.constants[0].value, FieldValue::Int(3));
}

#[test]
fn a_fresh_parser_knows_both_built_in_types_in_order() {
    let text = b"builtin_interfaces/Duration span\nbuiltin_interfaces/Time stamp\n";
    let (schema, subs) = Ros2MsgParser::new().parse("pkg/msg/Timed", text).unwrap();
    assert_eq!(schema.fields.len(), 2);
    let names: Vec<&str> = subs.iter().map(|s| s.name.as_str()).collect();
    assert_eq!(names, vec!["builtin_interfaces/Time", "builtin_interfaces/Duration"]);
    for sub in &subs {
        assert_eq!(sub.fields.len(), 2);
        assert_eq!(sub.fields[0].name, "sec");
        assert_eq!(sub.fields[0].field_type, FieldType::Primitive(PrimitiveType::Int32));
        assert!(sub.fields[0].default_value.is_none());
        assert_eq!(sub.fields[1].name, "nanosec");
        assert_eq!(sub.fields[1].field_type, FieldType::Primitive(PrimitiveType::Uint32));
        assert!(sub.fields[1].default_value.is_none());
        assert!(sub.constants.is_empty());
    }
}

#[test]
fn a_default_parser_parses_as_a_fresh_one() {
    let text = b"builtin_interfaces/Time stamp\nint32 count\n";
    let (a, a_subs) = Ros2MsgParser::new().parse("pkg/msg/Counted", text).unwrap();
    let (b, b_subs) = Ros2MsgParser::default().parse("pkg/msg/Counted", text).unwrap();
    assert_eq!(format!("{:?}", a), format!("{:?}", b));
    assert_eq!(format!("{:?}", a_subs), format!("{:?}", b_subs));
    assert_eq!(a_subs.len(), 1);
    assert_eq!(a_subs[0].name, "builtin_interfaces/Time");
}

#[test]
fn a_built_in_type_that_the_text_defines_is_not_added_again() {
    let text = format!(
        "builtin_interfaces/Time stamp\n{d}\nMSG: builtin_interfaces/Time\nint64 ticks\n",
        d = DIVIDER
    );
    let (_, subs) = Ros2MsgParser::new().parse("pkg/msg/Own", text.as_bytes()).unwrap();
    assert_eq!(subs.len(), 1);
    assert_eq!(subs[0].name, "builtin_interfaces/Time");
    assert_eq!(subs[0].fields.len(), 1);
    assert_eq!(subs[0].fields[0].name, "ticks");
}

#[test]
fn no_built_in_type_is_added_where_the_text_names_none() {
    let (_, subs) = Ros2MsgParser::new().parse("pkg/msg/Plain", b"int32 a\n").unwrap();
    assert!(subs.is_empty());
}

#[test]
fn a_type_that_is_defined_twice_stands_once_with_its_last_definition() {
    let text = format!(
        "pkg/Part a\n{d}\nMSG: pkg/Part\nint32 first\n{d}\nMSG: pkg/Other\nint8 x\n{d}\nMSG: pkg/Part\nint64 second\nint64 third\n",
        d = DIVIDER
    );
    let (_, subs) = Ros2MsgParser::new().parse("pkg/msg/Whole", text.as_bytes()).unwrap();
    let names: Vec<&str> = subs.iter().map(|s| s.name.as_str()).collect();
    assert_eq!(names, vec!["pkg/Part", "pkg/Other"]);
    assert_eq!(subs[0].fields.len(), 2);
    assert_eq!(subs[0].fields[0].name, "second");
}

#[test]
fn a_field_name_that_is_declared_twice_stands_once_with_its_last_value() {
    let text = b"uint8 a\nuint8 b\nuint8 a\n";
    let (schema, subs) = Ros2MsgParser::new().parse("pkg/msg/Twice", text).unwrap();
    assert_eq!(schema.fields.len(), 3);
    let value = decode_message(&[0, 1, 0, 0, 10, 20, 30], &schema, &subs).unwrap();
    assert_eq!(
        value,
        Value::Message(vec![("a".to_string(), Value::Uint8(30)), ("b".to_string(), Value::Uint8(20))])
    );
}

#[test]
fn only_the_keyword_names_a_string_type() {
    let text = b"string a\nstring<=10 b\nwstring c\nwstring<=3 d\nstringy e\nwstrings f\nstring10 g\n";
    let (schema, _) = Ros2MsgParser::new().parse("pkg/msg/Texts", text).unwrap();
    let types: Vec<&FieldType> = schema.fields.iter().map(|f| &f.field_type).collect();
    assert_eq!(types.len(), 7);
    assert_eq!(*types[0], FieldType::String(StringType { is_wide: false, max_length: None }));
    assert_eq!(*types[1], FieldType::String(StringType { is_wide: false, max_length: Some(10) }));
    assert_eq!(*types[2], FieldType::String(StringType { is_wide: true, max_length: None }));
    assert_eq!(*types[3], FieldType::String(StringType { is_wide: true, max_length: Some(3) }));
    assert_eq!(*types[4], FieldType::Complex { full_name: "pkg/stringy".to_string() });
    assert_eq!(*types[5], FieldType::Complex { full_name: "pkg/wstrings".to_string() });
    assert_eq!(*types[6], FieldType::Complex { full_name: "pkg/string10".to_string() });
    assert!(matches!(
        Ros2MsgParser::new().parse("pkg/msg/Bad", b"string<=ten a\n"),
        Err(PybagError::SchemaParseError(_))
    ));
    assert!(matches!(
        Ros2MsgParser::new().parse("pkg/msg/Bad", b"wstring<= a\n"),
        Err(PybagError::SchemaParseError(_))
    ));
}
