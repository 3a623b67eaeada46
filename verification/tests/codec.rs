//! End-to-end tests of the codec: option decoding, call binding, encoding
//! under each flag, strict decoding, and the exact error positions.

use orjson::{
    dumps, encode, error_position, loads, resolve, BindError, DateV, DecKind, DumpsError,
    EncodeError, Fallback, FloatValue, NoFallback, NumBuf, NumElem, OptionError, OptionSet,
    Param, ResolveError, Scalar, Temporal, TimeV, Value,
};

fn none_fb() -> Option<&'static NoFallback> {
    None
}

fn opts(bits: u64) -> OptionSet {
    OptionSet { bits }
}

#[test]
fn option_roundtrip_all() {
    for raw in 0..=16383i64 {
        let o = OptionSet::decode(raw).expect("in-range option must decode");
        assert_eq!(o.to_bits(), raw as u64);
    }
    assert!(matches!(OptionSet::decode(16384), Err(OptionError::OutOfRange)));
    assert!(matches!(OptionSet::decode(-1), Err(OptionError::OutOfRange)));
}

#[test]
fn encode_scalars() {
    assert_eq!(encode(&Value::Null, none_fb(), opts(0)).unwrap(), b"null".to_vec());
    assert_eq!(encode(&Value::Bool(true), none_fb(), opts(0)).unwrap(), b"true".to_vec());
    assert_eq!(encode(&Value::Bool(false), none_fb(), opts(0)).unwrap(), b"false".to_vec());
    assert_eq!(encode(&Value::Int(0), none_fb(), opts(0)).unwrap(), b"0".to_vec());
    assert_eq!(encode(&Value::Int(-42), none_fb(), opts(0)).unwrap(), b"-42".to_vec());
    assert_eq!(
        encode(&Value::Int(i64::MIN), none_fb(), opts(0)).unwrap(),
        b"-9223372036854775808".to_vec()
    );
    assert_eq!(
        encode(&Value::Float(FloatValue::Finite(b"2.5".to_vec())), none_fb(), opts(0)).unwrap(),
        b"2.5".to_vec()
    );
    assert_eq!(
        encode(&Value::Str(b"a\"b\\c\ntail".to_vec()), none_fb(), opts(0)).unwrap(),
        b"\"a\\\"b\\\\c\\ntail\"".to_vec()
    );
}

#[test]
fn invalid_floats_fail() {
    assert_eq!(
        encode(&Value::Float(FloatValue::NotANumber), none_fb(), opts(0)),
        Err(EncodeError::InvalidFloat)
    );
    assert_eq!(
        encode(&Value::Float(FloatValue::Infinite(true)), none_fb(), opts(0)),
        Err(EncodeError::InvalidFloat)
    );
}

#[test]
fn sort_keys_orders_object() {
    let obj = Value::Object(vec![
        (Value::Str(b"b".to_vec()), Value::Int(1)),
        (Value::Str(b"a".to_vec()), Value::Int(2)),
    ]);
    let sorted = encode(&obj, none_fb(), opts(orjson::opt::SORT_KEYS)).unwrap();
    assert_eq!(sorted, b"{\"a\":2,\"b\":1}".to_vec());
    let plain = encode(&obj, none_fb(), opts(0)).unwrap();
    assert_eq!(plain, b"{\"b\":1,\"a\":2}".to_vec());
}

#[test]
fn strict_integer_rejects_past_53_bits() {
    let v = Value::Int(9007199254740993);
    assert_eq!(
        encode(&v, none_fb(), opts(orjson::opt::STRICT_INTEGER)),
        Err(EncodeError::IntegerOutOfRange)
    );
    assert_eq!(encode(&v, none_fb(), opts(0)).unwrap(), b"9007199254740993".to_vec());
}

#[test]
fn leading_zero_fails_at_its_offset() {
    let doc = b"{\"a\": 01}";
    let err = loads(doc).unwrap_err();
    assert_eq!(err.kind, DecKind::LeadingZero);
    assert_eq!(err.position, 6);
    assert_eq!(err.document, doc.to_vec());
}

#[test]
fn resolver_binds_keywords() {
    let frame = resolve(
        vec![Value::Null],
        vec![
            (b"default".to_vec(), Value::Opaque(7)),
            (b"option".to_vec(), Value::Int(5)),
        ],
    )
    .expect("binding must succeed");
    assert!(matches!(frame.obj, Value::Null));
    assert!(matches!(frame.default, Some(Value::Opaque(7))));
    assert_eq!(frame.option, Some(OptionSet { bits: 5 }));
}

#[test]
fn resolver_rejects_duplicate_default() {
    let err = resolve(
        vec![Value::Null, Value::Opaque(1)],
        vec![(b"default".to_vec(), Value::Opaque(2))],
    )
    .unwrap_err();
    assert!(matches!(
        err,
        ResolveError::Bind(BindError::DuplicateArgument(Param::DefaultArg))
    ));
}

#[test]
fn resolver_rejects_unknown_keyword_and_bad_option() {
    let err = resolve(vec![Value::Null], vec![(b"extra".to_vec(), Value::Null)]).unwrap_err();
    assert!(matches!(err, ResolveError::Bind(BindError::UnexpectedKeyword(ref n)) if n.as_slice() == b"extra".as_slice()));
    let err = resolve(vec![], vec![]).unwrap_err();
    assert!(matches!(err, ResolveError::Bind(BindError::MissingRequired(Param::ObjArg))));
    let err = resolve(vec![Value::Null, Value::Null, Value::Int(16384)], vec![]).unwrap_err();
    assert!(matches!(err, ResolveError::BadOption(OptionError::OutOfRange)));
    let err = resolve(vec![Value::Null, Value::Null, Value::Str(b"5".to_vec())], vec![])
        .unwrap_err();
    assert!(matches!(err, ResolveError::BadOption(OptionError::NotAnInteger)));
}

#[test]
fn deep_nesting_fails_with_recursion_limit() {
    let mut v = Value::Int(1);
    for _ in 0..1025 {
        v = Value::Array(vec![v]);
    }
    assert_eq!(
        encode(&v, none_fb(), opts(0)),
        Err(EncodeError::RecursionLimitExceeded)
    );
    let mut doc: Vec<u8> = Vec::new();
    for _ in 0..1030 {
        doc.push(b'[');
    }
    let err = loads(&doc).unwrap_err();
    assert_eq!(err.kind, DecKind::RecursionLimitExceeded);
}

#[test]
fn append_newline_appends_one_byte() {
    let out = dumps(
        &Value::Null,
        None::<&NoFallback>,
        Some(orjson::opt::APPEND_NEWLINE as i64),
    )
    .unwrap();
    assert_eq!(out, b"null\n".to_vec());
}

#[test]
fn dumps_rejects_invalid_option() {
    let err = dumps(&Value::Null, None::<&NoFallback>, Some(16384)).unwrap_err();
    assert_eq!(err, DumpsError::InvalidOption(OptionError::OutOfRange));
}

#[test]
fn decode_then_encode_preserves_structure() {
    let doc = b"{\"a\":[1,2.5,true,null,\"x\\n\"],\"b\":{}}";
    let v = loads(doc).unwrap();
    assert_eq!(encode(&v, none_fb(), opts(0)).unwrap(), doc.to_vec());
    let doc2 = b"[\"\",-7,0.125e-2,[[]],{\"k\":\"v\"}]";
    let v2 = loads(doc2).unwrap();
    assert_eq!(encode(&v2, none_fb(), opts(0)).unwrap(), doc2.to_vec());
}

#[test]
fn unicode_escapes_decode_to_utf8() {
    let v = loads(b"\"\\u0041\\u00e9\\ud83d\\ude00\"").unwrap();
    match &v {
        Value::Str(s) => assert_eq!(s.as_slice(), "A\u{e9}\u{1f600}".as_bytes()),
        _ => panic!("expected a string"),
    }
    let err = loads(b"\"\\ud83d\"").unwrap_err();
    assert_eq!(err.kind, DecKind::InvalidEscape);
    let err = loads(b"\"\\q\"").unwrap_err();
    assert_eq!(err.kind, DecKind::InvalidEscape);
}

#[test]
fn invalid_utf8_is_rejected() {
    let err = loads(b"\"\xff\"").unwrap_err();
    assert_eq!(err.kind, DecKind::InvalidUtf8);
    let err = loads(b"\"\xc3\"").unwrap_err();
    assert_eq!(err.kind, DecKind::InvalidUtf8);
    let ok = loads("\"\u{e9}\"".as_bytes()).unwrap();
    match ok {
        Value::Str(s) => assert_eq!(s, "\u{e9}".as_bytes().to_vec()),
        _ => panic!("expected a string"),
    }
}

#[test]
fn decoder_reports_grammar_errors() {
    assert_eq!(loads(b"").unwrap_err().kind, DecKind::UnexpectedEnd);
    assert_eq!(loads(b"tru").unwrap_err().kind, DecKind::InvalidLiteral);
    assert_eq!(loads(b"[1,]").unwrap_err().kind, DecKind::UnexpectedCharacter);
    assert_eq!(loads(b"[1 2]").unwrap_err().kind, DecKind::ExpectedCommaOrEnd);
    assert_eq!(loads(b"{\"a\" 1}").unwrap_err().kind, DecKind::ExpectedColon);
    assert_eq!(loads(b"{1:2}").unwrap_err().kind, DecKind::UnexpectedCharacter);
    assert_eq!(loads(b"\"abc").unwrap_err().kind, DecKind::UnterminatedString);
    assert_eq!(loads(b"null x").unwrap_err().kind, DecKind::TrailingData);
    assert_eq!(loads(b"9223372036854775808").unwrap_err().kind, DecKind::IntegerOutOfRange);
    let v = loads(b"-9223372036854775808").unwrap();
    assert_eq!(encode(&v, none_fb(), opts(0)).unwrap(), b"-9223372036854775808".to_vec());
}

#[test]
fn duplicate_keys_keep_first_position_last_value() {
    let v = loads(b"{\"a\":1,\"b\":2,\"a\":3}").unwrap();
    assert_eq!(encode(&v, none_fb(), opts(0)).unwrap(), b"{\"a\":3,\"b\":2}".to_vec());
}

#[test]
fn error_position_translates_to_line_and_column() {
    let doc = b"{\n  \"a\": 01\n}";
    let err = loads(doc).unwrap_err();
    assert_eq!(err.kind, DecKind::LeadingZero);
    let (line, col) = error_position(&err.document, err.position);
    assert_eq!((line, col), (2, 8));
}

struct SubStr;

impl Fallback for SubStr {
    fn substitute(&self, v: &Value) -> Option<Value> {
        match v {
            Value::Opaque(1) => Some(Value::Str(b"sub".to_vec())),
            Value::Opaque(2) => Some(Value::Opaque(2)),
            _ => None,
        }
    }
}

#[test]
fn fallback_substitutes_unclassified_values() {
    let out = dumps(&Value::Opaque(1), Some(&SubStr), None).unwrap();
    assert_eq!(out, b"\"sub\"".to_vec());
    let err = dumps(&Value::Opaque(2), Some(&SubStr), None).unwrap_err();
    assert_eq!(err, DumpsError::Encode(EncodeError::TypeNotSerializable));
    let err = dumps(&Value::Opaque(3), Some(&SubStr), None).unwrap_err();
    assert_eq!(err, DumpsError::Encode(EncodeError::TypeNotSerializable));
    let err = dumps(&Value::Opaque(1), None::<&NoFallback>, None).unwrap_err();
    assert_eq!(err, DumpsError::Encode(EncodeError::TypeNotSerializable));
}

#[test]
fn non_string_keys_need_their_flag() {
    let obj = Value::Object(vec![(Value::Int(5), Value::Int(1))]);
    assert_eq!(
        encode(&obj, none_fb(), opts(0)),
        Err(EncodeError::KeyMustBeString)
    );
    assert_eq!(
        encode(&obj, none_fb(), opts(orjson::opt::NON_STR_KEYS)).unwrap(),
        b"{\"5\":1}".to_vec()
    );
    let arr_key = Value::Object(vec![(Value::Array(vec![]), Value::Int(1))]);
    assert_eq!(
        encode(&arr_key, none_fb(), opts(orjson::opt::NON_STR_KEYS)),
        Err(EncodeError::KeyMustBeString)
    );
}

#[test]
fn uuid_serializes_under_its_flag() {
    let u = Value::UniqueId(orjson::UniqueId { hi: 0x123e4567e89b12d3, lo: 0xa456426614174000 });
    assert_eq!(
        encode(&u, none_fb(), opts(orjson::opt::SERIALIZE_UUID)).unwrap(),
        b"\"123e4567-e89b-12d3-a456-426614174000\"".to_vec()
    );
    assert_eq!(
        encode(&u, none_fb(), opts(0)),
        Err(EncodeError::TypeNotSerializable)
    );
}

#[test]
fn temporal_renders_iso8601() {
    let date = DateV { year: 2023, month: 7, day: 4 };
    let time = TimeV { hour: 12, minute: 30, second: 45, microsecond: 123456 };
    let dt = |off| Value::Temporal(Temporal::DateTime { date, time, offset_minutes: off });
    assert_eq!(
        encode(&dt(None), none_fb(), opts(0)).unwrap(),
        b"\"2023-07-04T12:30:45.123456\"".to_vec()
    );
    assert_eq!(
        encode(&dt(None), none_fb(), opts(orjson::opt::NAIVE_UTC)).unwrap(),
        b"\"2023-07-04T12:30:45.123456+00:00\"".to_vec()
    );
    assert_eq!(
        encode(&dt(Some(0)), none_fb(), opts(orjson::opt::UTC_Z)).unwrap(),
        b"\"2023-07-04T12:30:45.123456Z\"".to_vec()
    );
    assert_eq!(
        encode(
            &dt(Some(-330)),
            none_fb(),
            opts(orjson::opt::OMIT_MICROSECONDS)
        )
        .unwrap(),
        b"\"2023-07-04T12:30:45-05:30\"".to_vec()
    );
    assert_eq!(
        encode(&Value::Temporal(Temporal::Date(date)), none_fb(), opts(0)).unwrap(),
        b"\"2023-07-04\"".to_vec()
    );
    assert_eq!(
        encode(&dt(None), none_fb(), opts(orjson::opt::PASSTHROUGH_DATETIME)),
        Err(EncodeError::TypeNotSerializable)
    );
}

#[test]
fn numeric_buffer_serializes_under_its_flag() {
    let buf = Value::NumericBuffer(NumBuf::Rows(vec![
        NumBuf::Elems(vec![NumElem::I(1), NumElem::I(2)]),
        NumBuf::Elems(vec![NumElem::I(3), NumElem::F(FloatValue::Finite(b"4.5".to_vec()))]),
    ]));
    assert_eq!(
        encode(&buf, none_fb(), opts(orjson::opt::SERIALIZE_NUMPY)).unwrap(),
        b"[[1,2],[3,4.5]]".to_vec()
    );
    assert_eq!(
        encode(&buf, none_fb(), opts(0)),
        Err(EncodeError::TypeNotSerializable)
    );
}

#[test]
fn record_serializes_as_object_under_its_flag() {
    let rec = Value::Record(vec![
        (b"name".to_vec(), Value::Str(b"x".to_vec())),
        (b"n".to_vec(), Value::Int(2)),
    ]);
    assert_eq!(
        encode(&rec, none_fb(), opts(orjson::opt::SERIALIZE_DATACLASS)).unwrap(),
        b"{\"name\":\"x\",\"n\":2}".to_vec()
    );
    assert_eq!(
        encode(&rec, none_fb(), opts(0)),
        Err(EncodeError::TypeNotSerializable)
    );
    assert_eq!(
        encode(
            &rec,
            none_fb(),
            opts(orjson::opt::SERIALIZE_DATACLASS | orjson::opt::PASSTHROUGH_DATACLASS)
        ),
        Err(EncodeError::TypeNotSerializable)
    );
}

#[test]
fn wrapper_kinds_encode_their_content() {
    let sub = Value::Subclass(Box::new(Value::Int(5)));
    assert_eq!(encode(&sub, none_fb(), opts(0)).unwrap(), b"5".to_vec());
    assert_eq!(
        encode(&sub, none_fb(), opts(orjson::opt::PASSTHROUGH_SUBCLASS)),
        Err(EncodeError::TypeNotSerializable)
    );
    let en = Value::Enumerated(Scalar::Int(3));
    assert_eq!(encode(&en, none_fb(), opts(0)).unwrap(), b"3".to_vec());
    let es = Value::Enumerated(Scalar::Str(b"red".to_vec()));
    assert_eq!(encode(&es, none_fb(), opts(0)).unwrap(), b"\"red\"".to_vec());
}

#[test]
fn indent_pretty_prints_two_spaces() {
    let v = loads(b"[1,{\"a\":2},[]]").unwrap();
    let out = encode(&v, none_fb(), opts(orjson::opt::INDENT_2)).unwrap();
    let expected = b"[\n  1,\n  {\n    \"a\": 2\n  },\n  []\n]".to_vec();
    assert_eq!(String::from_utf8_lossy(&out), String::from_utf8_lossy(&expected));
}

#[test]
fn whitespace_and_literals_parse() {
    let v = loads(b" \t\r\n [ true , false , null ] ").unwrap();
    assert_eq!(encode(&v, none_fb(), opts(0)).unwrap(), b"[true,false,null]".to_vec());
    let v = loads(b"-0").unwrap();
    assert_eq!(encode(&v, none_fb(), opts(0)).unwrap(), b"0".to_vec());
    let v = loads(b"1e3").unwrap();
    assert_eq!(encode(&v, none_fb(), opts(0)).unwrap(), b"1e3".to_vec());
}
