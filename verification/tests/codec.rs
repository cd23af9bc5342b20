//! End-to-end tests of the codec: encoding, decoding, flattening,
//! optionals, both sequence strategies, and the failure modes.

use flatquery::array::Array;
use flatquery::decode::{from_str, Deserializer};
use flatquery::encode::{to_string, Serializer};
use flatquery::scalar::{Scalar, ScalarKind};
use flatquery::value::{Shape, Value};
use flatquery::Query;

fn s(text: &str) -> Value {
    Value::Scalar(Scalar::Str(text.to_string()))
}

fn i(v: i32) -> Value {
    Value::Scalar(Scalar::I32(v))
}

fn present(v: Value) -> Value {
    Value::Opt(Some(Box::new(v)))
}

fn absent() -> Value {
    Value::Opt(None)
}

fn record(fields: Vec<(&str, Value)>) -> Value {
    Value::Record(fields.into_iter().map(|(n, v)| (n.to_string(), v)).collect())
}

fn record_shape(fields: Vec<(&str, Shape)>) -> Shape {
    Shape::Record(fields.into_iter().map(|(n, v)| (n.to_string(), v)).collect())
}

/// The shape mirroring the record used by the two literal scenarios.
fn de_shape() -> Shape {
    record_shape(vec![
        ("name", Shape::Scalar(ScalarKind::Str)),
        ("age", Shape::Scalar(ScalarKind::I32)),
        (
            "pagination",
            record_shape(vec![
                ("limit", Shape::Scalar(ScalarKind::I32)),
                ("offset", Shape::Scalar(ScalarKind::I32)),
            ]),
        ),
        ("ids", Shape::List(ScalarKind::I32)),
        ("hobbies", Shape::Opt(Box::new(Shape::List(ScalarKind::Str)))),
        ("op", Shape::Opt(Box::new(Shape::Scalar(ScalarKind::Str)))),
    ])
}

fn de_value() -> Value {
    record(vec![
        ("name", s("test")),
        ("age", i(37)),
        (
            "pagination",
            record(vec![("limit", i(10)), ("offset", i(0))]),
        ),
        (
            "ids",
            Value::List(vec![Scalar::I32(1), Scalar::I32(2)]),
        ),
        (
            "hobbies",
            present(Value::List(vec![
                Scalar::Str("moto".to_string()),
                Scalar::Str("code".to_string()),
            ])),
        ),
        ("op", present(s("some"))),
    ])
}

#[test]
fn test_to_string() {
    let se = de_value();
    let text = to_string(&se).unwrap();
    assert!(
        text == "name=test&age=37&limit=10&offset=0&ids=1&ids=2&hobbies=moto&hobbies=code&op=some"
    );
}

#[test]
fn test_deserializer() {
    let mut deserializer = Deserializer::try_from_str(
        "age=37&name=test&offset=0&limit=10&ids=1&ids=2&op=some&hobbies=moto&hobbies=code",
    )
    .unwrap();
    let de = deserializer.deserialize(&de_shape()).unwrap();
    let fields = match de {
        Value::Record(fields) => fields,
        _ => panic!("expected a record"),
    };
    assert!(fields[0] == ("name".to_string(), s("test")));
    assert!(fields[1] == ("age".to_string(), i(37)));
    assert!(
        fields[2]
            == (
                "pagination".to_string(),
                record(vec![("limit", i(10)), ("offset", i(0))])
            )
    );
    assert!(
        fields[3] == ("ids".to_string(), Value::List(vec![Scalar::I32(1), Scalar::I32(2)]))
    );
    assert!(
        fields[4]
            == (
                "hobbies".to_string(),
                present(Value::List(vec![
                    Scalar::Str("moto".to_string()),
                    Scalar::Str("code".to_string()),
                ]))
            )
    );
    assert!(fields[5] == ("op".to_string(), present(s("some"))));
}

#[test]
fn test_serializer() {
    let v = record(vec![
        ("name", s("test")),
        ("age", i(37)),
        (
            "ids",
            Value::Arr(Array(vec![
                "1".to_string(),
                "2".to_string(),
                "3".to_string(),
            ])),
        ),
        (
            "pagination",
            present(record(vec![("limit", i(10)), ("offset", i(0))])),
        ),
    ]);
    let text = to_string(&v).unwrap();
    println!("{}", text);
    assert_eq!(text, "name=test&age=37&ids=[\"1\",\"2\",\"3\"]&limit=10&offset=0");
}

#[test]
fn test_serialize_empty() {
    let v = record(vec![("a", absent()), ("b", absent()), ("c", absent())]);
    let text = to_string(&v).unwrap();
    println!("{}", text);
    assert_eq!(text, "");
}

#[test]
fn test_serde_normal_vec() {
    let v = record(vec![(
        "ids",
        Value::List(vec![
            Scalar::Str("1".to_string()),
            Scalar::Str("2".to_string()),
            Scalar::Str("3".to_string()),
        ]),
    )]);
    let text = to_string(&v).unwrap();
    println!("{}", text);
    assert_eq!(text, "ids=1&ids=2&ids=3");
}

#[test]
fn round_trip_scalars_optionals_records() {
    let v = record(vec![
        ("name", s("test")),
        ("age", i(37)),
        ("op", present(s("some"))),
        ("missing", absent()),
        ("nested", record(vec![("limit", i(10))])),
    ]);
    let shape = record_shape(vec![
        ("name", Shape::Scalar(ScalarKind::Str)),
        ("age", Shape::Scalar(ScalarKind::I32)),
        ("op", Shape::Opt(Box::new(Shape::Scalar(ScalarKind::Str)))),
        ("missing", Shape::Opt(Box::new(Shape::Scalar(ScalarKind::Str)))),
        (
            "nested",
            record_shape(vec![("limit", Shape::Scalar(ScalarKind::I32))]),
        ),
    ]);
    let text = to_string(&v).unwrap();
    assert_eq!(text, "name=test&age=37&op=some&limit=10");
    let back = from_str(&shape, &text).unwrap();
    assert_eq!(back, v);
}

#[test]
fn repeated_key_sequence_round_trip() {
    let v = record(vec![(
        "ids",
        Value::List(vec![Scalar::I32(1), Scalar::I32(2), Scalar::I32(3)]),
    )]);
    let text = to_string(&v).unwrap();
    assert_eq!(text, "ids=1&ids=2&ids=3");
    let shape = record_shape(vec![("ids", Shape::List(ScalarKind::I32))]);
    let back = from_str(&shape, &text).unwrap();
    assert_eq!(back, v);
}

#[test]
fn empty_sequence_is_omitted() {
    let v = record(vec![("a", s("x")), ("ids", Value::List(vec![]))]);
    assert_eq!(to_string(&v).unwrap(), "a=x");
}

#[test]
fn absent_key_decodes_to_empty_sequence() {
    let shape = record_shape(vec![("ids", Shape::List(ScalarKind::I32))]);
    let v = from_str(&shape, "other=1").unwrap();
    assert_eq!(v, record(vec![("ids", Value::List(vec![]))]));
}

#[test]
fn key_order_does_not_matter() {
    let shape = record_shape(vec![
        ("age", Shape::Scalar(ScalarKind::I32)),
        ("name", Shape::Scalar(ScalarKind::Str)),
        (
            "pagination",
            record_shape(vec![
                ("limit", Shape::Scalar(ScalarKind::I32)),
                ("offset", Shape::Scalar(ScalarKind::I32)),
            ]),
        ),
    ]);
    let expected = record(vec![
        ("age", i(37)),
        ("name", s("test")),
        (
            "pagination",
            record(vec![("limit", i(10)), ("offset", i(0))]),
        ),
    ]);
    let a = from_str(&shape, "age=37&name=test&limit=10&offset=0").unwrap();
    let b = from_str(&shape, "offset=0&limit=10&name=test&age=37").unwrap();
    assert_eq!(a, expected);
    assert_eq!(b, expected);
}

#[test]
fn flattened_equals_inline_fields() {
    // the same wire text decodes at a nested shape and at the flat union
    let nested = record_shape(vec![
        ("age", Shape::Scalar(ScalarKind::I32)),
        (
            "pagination",
            record_shape(vec![
                ("limit", Shape::Scalar(ScalarKind::I32)),
                ("offset", Shape::Scalar(ScalarKind::I32)),
            ]),
        ),
    ]);
    let flat = record_shape(vec![
        ("age", Shape::Scalar(ScalarKind::I32)),
        ("limit", Shape::Scalar(ScalarKind::I32)),
        ("offset", Shape::Scalar(ScalarKind::I32)),
    ]);
    let text = "age=37&limit=10&offset=0";
    let n = from_str(&nested, text).unwrap();
    let f = from_str(&flat, text).unwrap();
    assert_eq!(
        n,
        record(vec![
            ("age", i(37)),
            ("pagination", record(vec![("limit", i(10)), ("offset", i(0))])),
        ])
    );
    assert_eq!(
        f,
        record(vec![("age", i(37)), ("limit", i(10)), ("offset", i(0))])
    );
}

#[test]
fn malformed_pair_fails() {
    let shape = record_shape(vec![("a", Shape::Scalar(ScalarKind::Str))]);
    let e = from_str(&shape, "a=b=c").unwrap_err();
    assert_eq!(e.message, "invalid pair");
    assert!(e.cause.is_none());
    let e = from_str(&shape, "novalue").unwrap_err();
    assert_eq!(e.message, "invalid pair");
    assert!(e.cause.is_none());
    let e = from_str(&shape, "a=b&novalue").unwrap_err();
    assert_eq!(e.message, "invalid pair");
    assert!(e.cause.is_none());
}

#[test]
fn scalar_mismatch_fails_with_cause() {
    let shape = record_shape(vec![("age", Shape::Scalar(ScalarKind::I32))]);
    let e = from_str(&shape, "age=notanumber").unwrap_err();
    assert_eq!(e.message, "invalid i32 literal");
    assert!(e.cause.is_some());
    let text = e.describe();
    assert_eq!(text, "invalid i32 literal: invalid digit in numeric literal");
}

#[test]
fn missing_required_key_fails() {
    let shape = record_shape(vec![("age", Shape::Scalar(ScalarKind::I32))]);
    let e = from_str(&shape, "name=test").unwrap_err();
    assert_eq!(e.message, "no value");
    assert!(e.cause.is_none());
}

#[test]
fn signed_literals_accept_plus() {
    let shape = record_shape(vec![("age", Shape::Scalar(ScalarKind::I32))]);
    assert_eq!(from_str(&shape, "age=+37").unwrap(), record(vec![("age", i(37))]));
}

#[test]
fn top_level_must_be_record() {
    let e = to_string(&s("plain")).unwrap_err();
    assert_eq!(e.message, "top-level value must be a record");
    let e = from_str(&Shape::Scalar(ScalarKind::Str), "a=1").unwrap_err();
    assert_eq!(e.message, "top-level shape must be a record");
}

#[test]
fn consumed_key_reads_as_absent() {
    // values are removed as they are consumed: a second walk over the
    // same map finds the optional key gone and yields absent
    let shape = record_shape(vec![("op", Shape::Opt(Box::new(Shape::Scalar(ScalarKind::Str))))]);
    let mut d = Deserializer::try_from_str("op=x").unwrap();
    assert_eq!(d.deserialize(&shape).unwrap(), record(vec![("op", present(s("x")))]));
    assert_eq!(d.deserialize(&shape).unwrap(), record(vec![("op", absent())]));
}

#[test]
fn array_wrapper_round_trip() {
    let v = record(vec![(
        "ids",
        Value::Arr(Array(vec!["1".to_string(), "2".to_string()])),
    )]);
    let text = to_string(&v).unwrap();
    assert_eq!(text, "ids=[\"1\",\"2\"]");
    let shape = record_shape(vec![("ids", Shape::Arr)]);
    let back = from_str(&shape, &text).unwrap();
    assert_eq!(back, v);
}

#[test]
fn array_document_parses() {
    let a = Array::deserialize("[\"1\", \"2\", \"3\", \"4\", \"5\"]").unwrap();
    assert_eq!(
        a,
        Array(vec![
            "1".to_string(),
            "2".to_string(),
            "3".to_string(),
            "4".to_string(),
            "5".to_string(),
        ])
    );
}

#[test]
fn array_document_must_be_valid() {
    let shape = record_shape(vec![("ids", Shape::Arr)]);
    let e = from_str(&shape, "ids=notjson").unwrap_err();
    assert_eq!(e.message, "invalid array document");
    assert!(e.cause.is_some());
}

#[test]
fn serializer_commits_fields_in_order() {
    let mut ser = Serializer::new();
    ser.serialize_field("name", &s("test")).unwrap();
    ser.serialize_field("skip", &absent()).unwrap();
    ser.serialize_field("age", &i(37)).unwrap();
    assert_eq!(ser.end(), "name=test&age=37");
}

#[test]
fn query_wrapper_hands_value_back() {
    let q = Query(i(5));
    assert_eq!(q.into_inner(), i(5));
}
