//! Tests of the scalar codec: canonical text forms, width-exact parsing,
//! and the failure modes of each kind.

use flatquery::encode::to_string;
use flatquery::error::Error;
use flatquery::scalar::{decode_scalar, scalar_to_text, Scalar, ScalarKind};
use flatquery::value::Value;

fn text_of(sc: Scalar) -> String {
    scalar_to_text(&sc)
}

#[test]
fn scalar_text_forms() {
    assert_eq!(text_of(Scalar::Bool(true)), "true");
    assert_eq!(text_of(Scalar::Bool(false)), "false");
    assert_eq!(text_of(Scalar::I32(0)), "0");
    assert_eq!(text_of(Scalar::I32(-42)), "-42");
    assert_eq!(text_of(Scalar::I8(-128)), "-128");
    assert_eq!(text_of(Scalar::U64(18446744073709551615)), "18446744073709551615");
    assert_eq!(
        text_of(Scalar::I128(-170141183460469231731687303715884105728)),
        "-170141183460469231731687303715884105728"
    );
    assert_eq!(
        text_of(Scalar::U128(340282366920938463463374607431768211455)),
        "340282366920938463463374607431768211455"
    );
    assert_eq!(text_of(Scalar::Char('z')), "z");
    assert_eq!(text_of(Scalar::Str("moto".to_string())), "moto");
}

#[test]
fn bytes_encode_as_base64() {
    let v = Value::Record(vec![(
        "blob".to_string(),
        Value::Scalar(Scalar::Bytes(vec![1, 2, 3])),
    )]);
    assert_eq!(to_string(&v).unwrap(), "blob=AQID");
}

#[test]
fn bytes_do_not_decode() {
    let e = decode_scalar(ScalarKind::Bytes, "AQID").unwrap_err();
    assert_eq!(e.message, "unsupported scalar kind");
}

#[test]
fn integer_decode_is_width_exact() {
    assert_eq!(decode_scalar(ScalarKind::I32, "37").unwrap(), Scalar::I32(37));
    assert_eq!(decode_scalar(ScalarKind::I32, "-37").unwrap(), Scalar::I32(-37));
    assert_eq!(decode_scalar(ScalarKind::I8, "-128").unwrap(), Scalar::I8(-128));
    assert_eq!(decode_scalar(ScalarKind::U8, "255").unwrap(), Scalar::U8(255));
    // no implicit widening: a value that fits i32 still fails at i16
    let e = decode_scalar(ScalarKind::I16, "40000").unwrap_err();
    assert_eq!(e.message, "invalid i16 literal");
    assert!(e.cause.is_some());
    assert_eq!(e.describe(), "invalid i16 literal: numeric literal out of range");
    assert!(decode_scalar(ScalarKind::U8, "256").is_err());
    assert!(decode_scalar(ScalarKind::U8, "-1").is_err());
    assert!(decode_scalar(ScalarKind::I8, "128").is_err());
    assert_eq!(decode_scalar(ScalarKind::I8, "-0").unwrap(), Scalar::I8(0));
}

#[test]
fn extreme_integers_round_trip() {
    let cases = vec![
        Scalar::I128(-170141183460469231731687303715884105728),
        Scalar::I128(170141183460469231731687303715884105727),
        Scalar::U128(340282366920938463463374607431768211455),
        Scalar::I64(-9223372036854775808),
        Scalar::U64(18446744073709551615),
    ];
    for sc in cases {
        let kind = match sc {
            Scalar::I64(_) => ScalarKind::I64,
            Scalar::U64(_) => ScalarKind::U64,
            Scalar::I128(_) => ScalarKind::I128,
            Scalar::U128(_) => ScalarKind::U128,
            _ => unreachable!(),
        };
        let text = scalar_to_text(&sc);
        assert_eq!(decode_scalar(kind, &text).unwrap(), sc);
    }
}

#[test]
fn leading_plus_is_accepted() {
    assert_eq!(decode_scalar(ScalarKind::I32, "+37").unwrap(), Scalar::I32(37));
    assert_eq!(decode_scalar(ScalarKind::U8, "+255").unwrap(), Scalar::U8(255));
    assert!(decode_scalar(ScalarKind::I32, "+").is_err());
    assert!(decode_scalar(ScalarKind::I32, "+-1").is_err());
}

#[test]
fn numeric_syntax_errors() {
    assert!(decode_scalar(ScalarKind::I32, "").is_err());
    assert!(decode_scalar(ScalarKind::I32, "-").is_err());
    assert!(decode_scalar(ScalarKind::I32, "1.5").is_err());
    assert_eq!(
        decode_scalar(ScalarKind::I32, "").unwrap_err().describe(),
        "invalid i32 literal: empty numeric literal"
    );
    assert!(decode_scalar(ScalarKind::I32, " 1").is_err());
    assert!(decode_scalar(ScalarKind::U32, "-1").is_err());
    let e = decode_scalar(ScalarKind::U128, "340282366920938463463374607431768211456").unwrap_err();
    assert_eq!(e.describe(), "invalid u128 literal: numeric literal too large");
}

#[test]
fn bool_decode() {
    assert_eq!(decode_scalar(ScalarKind::Bool, "true").unwrap(), Scalar::Bool(true));
    assert_eq!(decode_scalar(ScalarKind::Bool, "false").unwrap(), Scalar::Bool(false));
    let e = decode_scalar(ScalarKind::Bool, "TRUE").unwrap_err();
    assert_eq!(e.message, "invalid bool literal");
    assert!(e.cause.is_some());
}

#[test]
fn char_decode() {
    assert_eq!(decode_scalar(ScalarKind::Char, "z").unwrap(), Scalar::Char('z'));
    assert!(decode_scalar(ScalarKind::Char, "").is_err());
    assert!(decode_scalar(ScalarKind::Char, "zz").is_err());
}

#[test]
fn string_decode_is_verbatim() {
    assert_eq!(
        decode_scalar(ScalarKind::Str, "some text").unwrap(),
        Scalar::Str("some text".to_string())
    );
    assert_eq!(decode_scalar(ScalarKind::Str, "").unwrap(), Scalar::Str(String::new()));
}

#[test]
fn error_describe_chains_causes() {
    let inner = Error::new("inner failure", None);
    let outer = Error::new("outer failure", Some(Box::new(inner)));
    assert_eq!(outer.describe(), "outer failure: inner failure");
    assert_eq!(Error::new("alone", None).describe(), "alone");
}
