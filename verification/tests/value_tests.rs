//! Tests of the value coercion cascade.

use rheader::FITSValue;
use rheader::HeaderError;
use rheader::parse_keyword_value;

#[test]
fn integer_token() {
    assert_eq!(parse_keyword_value(b"10"), Ok(FITSValue::Integer(10)));
    assert_eq!(parse_keyword_value(b"-42"), Ok(FITSValue::Integer(-42)));
    assert_eq!(parse_keyword_value(b"+7"), Ok(FITSValue::Integer(7)));
    assert_eq!(parse_keyword_value(b"  13  "), Ok(FITSValue::Integer(13)));
}

#[test]
fn integer_limits() {
    assert_eq!(
        parse_keyword_value(b"9223372036854775807"),
        Ok(FITSValue::Integer(i64::MAX))
    );
    assert_eq!(
        parse_keyword_value(b"-9223372036854775808"),
        Ok(FITSValue::Integer(i64::MIN))
    );
    // one past the range: no longer an integer, but still a number
    assert_eq!(
        parse_keyword_value(b"9223372036854775808"),
        Ok(FITSValue::Float(String::from("9223372036854775808")))
    );
    assert_eq!(
        parse_keyword_value(b"-9223372036854775809"),
        Ok(FITSValue::Float(String::from("-9223372036854775809")))
    );
}

#[test]
fn bool_tokens_case_insensitive() {
    assert_eq!(parse_keyword_value(b"T"), Ok(FITSValue::Bool(true)));
    assert_eq!(parse_keyword_value(b"t"), Ok(FITSValue::Bool(true)));
    assert_eq!(parse_keyword_value(b"F"), Ok(FITSValue::Bool(false)));
    assert_eq!(parse_keyword_value(b"f"), Ok(FITSValue::Bool(false)));
}

#[test]
fn null_tokens() {
    assert_eq!(parse_keyword_value(b"NULL"), Ok(FITSValue::Null));
    assert_eq!(parse_keyword_value(b"null"), Ok(FITSValue::Null));
    assert_eq!(parse_keyword_value(b""), Ok(FITSValue::Null));
    assert_eq!(parse_keyword_value(b"   "), Ok(FITSValue::Null));
}

#[test]
fn quoted_strings() {
    assert_eq!(
        parse_keyword_value(b"'hello'"),
        Ok(FITSValue::String(String::from("hello")))
    );
    // trailing blanks inside the quotes are stripped, leading ones kept
    assert_eq!(
        parse_keyword_value(b"' padded   '"),
        Ok(FITSValue::String(String::from(" padded")))
    );
    assert_eq!(parse_keyword_value(b"''"), Ok(FITSValue::String(String::new())));
    // a quoted T stays a string; the cascade tries quoting first
    assert_eq!(
        parse_keyword_value(b"'T'"),
        Ok(FITSValue::String(String::from("T")))
    );
}

#[test]
fn float_tokens() {
    assert_eq!(
        parse_keyword_value(b"1.5e3"),
        Ok(FITSValue::Float(String::from("1.5e3")))
    );
    assert_eq!(
        parse_keyword_value(b".5"),
        Ok(FITSValue::Float(String::from(".5")))
    );
    assert_eq!(
        parse_keyword_value(b"5."),
        Ok(FITSValue::Float(String::from("5.")))
    );
    assert_eq!(
        parse_keyword_value(b"-2.25"),
        Ok(FITSValue::Float(String::from("-2.25")))
    );
    assert_eq!(
        parse_keyword_value(b"inf"),
        Ok(FITSValue::Float(String::from("inf")))
    );
    assert_eq!(
        parse_keyword_value(b"-InFiNiTy"),
        Ok(FITSValue::Float(String::from("-InFiNiTy")))
    );
    assert_eq!(
        parse_keyword_value(b"NaN"),
        Ok(FITSValue::Float(String::from("NaN")))
    );
    // every Float token binds to a machine float
    match parse_keyword_value(b"1.5e3") {
        Ok(FITSValue::Float(t)) => assert_eq!(t.parse::<f64>().unwrap(), 1500.0f64),
        other => panic!("expected a float token, got {:?}", other),
    }
}

#[test]
fn unrecognized_tokens() {
    assert_eq!(parse_keyword_value(b"abc$%"), Err(HeaderError::UnrecognizedValue));
    assert_eq!(parse_keyword_value(b"+"), Err(HeaderError::UnrecognizedValue));
    assert_eq!(parse_keyword_value(b"1.2.3"), Err(HeaderError::UnrecognizedValue));
    assert_eq!(parse_keyword_value(b"--5"), Err(HeaderError::UnrecognizedValue));
    assert_eq!(parse_keyword_value(b"1e"), Err(HeaderError::UnrecognizedValue));
    assert_eq!(parse_keyword_value(b"."), Err(HeaderError::UnrecognizedValue));
    assert_eq!(parse_keyword_value(b"'unclosed"), Err(HeaderError::UnrecognizedValue));
    // a lone quote is not a quoted token
    assert_eq!(parse_keyword_value(b"'"), Err(HeaderError::UnrecognizedValue));
}

#[test]
fn numeric_recognition_agrees_with_str_parse() {
    // a token coerces to Integer or Float exactly when the standard library
    // would read it as a 64-bit float (integers are a subset of floats)
    let tokens: Vec<&str> = vec![
        "1.5", "5.", ".5", "1e5", "1.e5", ".5e-3", "1E+33", "inf", "Infinity", "nan", "NAN",
        "+nan", "-inf", "-0", "+0.0", "007", "1e", "e5", ".", "1.2.3", "--1", "++1", "1.5e",
        "1.5e+", "infi", "infinit", "infinityy", "0x10", "1_000", "1,5", "nan(123)", "+", "-",
        "1e999", "9999999999999999999999", "3.", ".e5", "5e0", "5.0e", "12345678901234567890e2",
    ];
    for t in tokens {
        let reference = t.parse::<f64>().is_ok();
        let ours = parse_keyword_value(t.as_bytes());
        let ours_numeric = matches!(
            ours,
            Ok(FITSValue::Float(_)) | Ok(FITSValue::Integer(_))
        );
        assert_eq!(ours_numeric, reference, "numeric classification of {:?}", t);
    }
}

#[test]
fn integer_recognition_agrees_with_str_parse() {
    let tokens: Vec<&str> = vec![
        "0", "-0", "+17", "9223372036854775807", "9223372036854775808", "-9223372036854775808",
        "-9223372036854775809", "007", "1.0", "1e3", "--1", "+", "", "12 3", "0x10",
    ];
    for t in tokens {
        let reference = t.parse::<i64>().ok();
        let ours = match parse_keyword_value(t.as_bytes()) {
            Ok(FITSValue::Integer(v)) => Some(v),
            _ => None,
        };
        assert_eq!(ours, reference, "integer reading of {:?}", t);
    }
}

#[test]
fn error_description() {
    assert_eq!(
        HeaderError::UnrecognizedValue.describe(),
        "unrecognized value token"
    );
    assert_eq!(
        HeaderError::TruncatedHeader.describe(),
        "stream ended before the END sentinel was found"
    );
}
