use jsonval::parser::{
    parse_array, parse_bool, parse_json, parse_null, parse_number, parse_object, parse_string,
    parse_value, sep_with_space,
};
use jsonval::value::{Dec, JsonValue, Num, ParseError};

/// The floating-point value a parsed number denotes.
fn num_to_f64(n: &Num) -> f64 {
    match n {
        Num::Int(v) => *v as f64,
        Num::Float(d) => {
            let mut s = String::new();
            if d.neg {
                s.push('-');
            }
            s.push_str(&d.whole.to_string());
            s.push('.');
            for digit in &d.frac {
                s.push((b'0' + digit) as char);
            }
            s.parse::<f64>().unwrap()
        }
    }
}

#[test]
fn test_parse_null() {
    let input = "null";
    assert!(parse_null(input.as_bytes(), 0).is_ok());
}

#[test]
fn test_parse_bool() {
    let input = "true";
    let result = parse_bool(input.as_bytes(), 0).unwrap();
    assert!(result.0);

    let input = "false";
    let result = parse_bool(input.as_bytes(), 0).unwrap();
    assert!(!result.0);
}

#[test]
fn test_parse_number() {
    let input = "123.45";
    let result = parse_number(input.as_bytes(), 0).unwrap();
    assert_eq!(num_to_f64(&result.0), 123.45);

    let input = "-123.45";
    let result = parse_number(input.as_bytes(), 0).unwrap();
    assert_eq!(num_to_f64(&result.0), -123.45);
}

#[test]
fn test_parse_string() {
    let input = "\"Hello, World!\"";
    let result = parse_string(input.as_bytes(), 0).unwrap();
    assert_eq!(result.0, b"Hello, World!".to_vec());
}

#[test]
fn test_parse_array() {
    let input = "[1, 2, 3]";
    let result = parse_array(input.as_bytes(), 0).unwrap();
    assert_eq!(
        result.0,
        vec![
            JsonValue::Number(Num::Int(1)),
            JsonValue::Number(Num::Int(2)),
            JsonValue::Number(Num::Int(3))
        ]
    );

    let input = "[\"a\", null, 1]";
    let result = parse_array(input.as_bytes(), 0).unwrap();
    assert_eq!(
        result.0,
        vec![
            JsonValue::Str(b"a".to_vec()),
            JsonValue::Null,
            JsonValue::Number(Num::Int(1))
        ]
    );

    let input = "[123.45, 122.3]";
    let result = parse_array(input.as_bytes(), 0).unwrap();
    println!("{:?}", result);
    assert_eq!(
        result.0,
        vec![
            JsonValue::Number(Num::Float(Dec { neg: false, whole: 123, frac: vec![4, 5] })),
            JsonValue::Number(Num::Float(Dec { neg: false, whole: 122, frac: vec![3] }))
        ]
    );
}

#[test]
fn test_parse_object() {
    let input = "{\"name\": \"John Doe\", \"age\": 30}";
    let result = parse_object(input.as_bytes(), 0).unwrap();
    let expected = vec![
        (b"name".to_vec(), JsonValue::Str(b"John Doe".to_vec())),
        (b"age".to_vec(), JsonValue::Number(Num::Int(30))),
    ];
    assert_eq!(result.0, expected);
}

#[test]
fn scenario_null_document() {
    assert_eq!(parse_json(b"null").unwrap(), JsonValue::Null);
}

#[test]
fn scenario_float_documents() {
    let v = parse_json(b"123.45").unwrap();
    match v {
        JsonValue::Number(n) => assert_eq!(num_to_f64(&n), 123.45),
        other => panic!("expected a number, got {:?}", other),
    }
    let v = parse_json(b"-123.45").unwrap();
    match v {
        JsonValue::Number(n) => assert_eq!(num_to_f64(&n), -123.45),
        other => panic!("expected a number, got {:?}", other),
    }
}

#[test]
fn scenario_array_of_ints() {
    let v = parse_json(b"[1, 2, 3]").unwrap();
    assert_eq!(
        v,
        JsonValue::Array(vec![
            JsonValue::Number(Num::Int(1)),
            JsonValue::Number(Num::Int(2)),
            JsonValue::Number(Num::Int(3))
        ])
    );
}

#[test]
fn scenario_mixed_array() {
    let v = parse_json(b"[\"a\", null, 1]").unwrap();
    assert_eq!(
        v,
        JsonValue::Array(vec![
            JsonValue::Str(b"a".to_vec()),
            JsonValue::Null,
            JsonValue::Number(Num::Int(1))
        ])
    );
}

#[test]
fn scenario_object() {
    let v = parse_json(b"{\"name\": \"John Doe\", \"age\": 30}").unwrap();
    assert_eq!(
        v,
        JsonValue::Object(vec![
            (b"name".to_vec(), JsonValue::Str(b"John Doe".to_vec())),
            (b"age".to_vec(), JsonValue::Number(Num::Int(30))),
        ])
    );
}

#[test]
fn scenario_invalid_token_fails() {
    let r = parse_json(b"{invalid}");
    assert!(r.is_err());
}

#[test]
fn booleans_parse_as_values() {
    assert_eq!(parse_json(b"true").unwrap(), JsonValue::Bool(true));
    assert_eq!(parse_json(b"false").unwrap(), JsonValue::Bool(false));
}

#[test]
fn integer_and_sign() {
    let (n, end) = parse_number(b"123", 0).unwrap();
    assert_eq!(n, Num::Int(123));
    assert_eq!(end, 3);
    let (n, end) = parse_number(b"-9001", 0).unwrap();
    assert_eq!(n, Num::Int(-9001));
    assert_eq!(end, 5);
}

#[test]
fn fraction_keeps_leading_zeros() {
    let (n, _) = parse_number(b"1.05", 0).unwrap();
    assert_eq!(n, Num::Float(Dec { neg: false, whole: 1, frac: vec![0, 5] }));
    assert_eq!(num_to_f64(&n), 1.05);
}

#[test]
fn largest_integer_parses() {
    let (n, _) = parse_number(b"9223372036854775807", 0).unwrap();
    assert_eq!(n, Num::Int(i64::MAX));
}

#[test]
fn integer_overflow_is_invalid() {
    let r = parse_number(b"9223372036854775808", 0);
    assert_eq!(r.unwrap_err(), ParseError::InvalidNumericLiteral(0));
}

#[test]
fn number_needs_digits() {
    assert_eq!(parse_number(b"-", 0).unwrap_err(), ParseError::UnexpectedToken(1));
    assert_eq!(parse_number(b"abc", 0).unwrap_err(), ParseError::UnexpectedToken(0));
}

#[test]
fn dot_without_fraction_fails() {
    assert_eq!(parse_number(b"12.", 0).unwrap_err(), ParseError::UnexpectedToken(3));
}

#[test]
fn unterminated_string_fails() {
    assert_eq!(
        parse_string(b"\"no closing quote", 0).unwrap_err(),
        ParseError::UnterminatedLiteral(0)
    );
}

#[test]
fn backslash_is_an_ordinary_byte() {
    let (t, end) = parse_string(b"\"a\\\"b\"", 0).unwrap();
    assert_eq!(t, b"a\\".to_vec());
    assert_eq!(end, 4);
}

#[test]
fn empty_array_allowed() {
    assert_eq!(parse_json(b"[]").unwrap(), JsonValue::Array(vec![]));
    assert_eq!(parse_json(b"[   ]").unwrap(), JsonValue::Array(vec![]));
}

#[test]
fn whitespace_around_delimiters() {
    let v = parse_json(b" [ 1 ,\t2 ,\r\n3 ] ").unwrap();
    assert_eq!(
        v,
        JsonValue::Array(vec![
            JsonValue::Number(Num::Int(1)),
            JsonValue::Number(Num::Int(2)),
            JsonValue::Number(Num::Int(3))
        ])
    );
}

#[test]
fn trailing_comma_fails() {
    assert!(parse_json(b"[1, 2,]").is_err());
}

#[test]
fn unmatched_bracket_fails() {
    assert!(parse_json(b"[1, 2").is_err());
}

#[test]
fn unterminated_containers() {
    assert_eq!(parse_array(b"[1, 2", 0).unwrap_err(), ParseError::UnterminatedLiteral(0));
    assert_eq!(parse_object(b"{\"a\": 1", 0).unwrap_err(), ParseError::UnterminatedLiteral(0));
    assert_eq!(parse_array(b"[1 2]", 0).unwrap_err(), ParseError::UnexpectedToken(3));
}

#[test]
fn empty_object_is_rejected() {
    assert!(parse_object(b"{}", 0).is_err());
}

#[test]
fn duplicate_key_final_value_wins() {
    let v = parse_json(b"{\"a\": 1, \"b\": 2, \"a\": 3}").unwrap();
    assert_eq!(
        v,
        JsonValue::Object(vec![
            (b"a".to_vec(), JsonValue::Number(Num::Int(3))),
            (b"b".to_vec(), JsonValue::Number(Num::Int(2))),
        ])
    );
}

#[test]
fn nested_document() {
    let text = b"{\"marks\": [90, -80, 85.1], \"address\": {\"zip\": 10001}}";
    let v = parse_json(text).unwrap();
    assert_eq!(
        v,
        JsonValue::Object(vec![
            (
                b"marks".to_vec(),
                JsonValue::Array(vec![
                    JsonValue::Number(Num::Int(90)),
                    JsonValue::Number(Num::Int(-80)),
                    JsonValue::Number(Num::Float(Dec { neg: false, whole: 85, frac: vec![1] })),
                ])
            ),
            (
                b"address".to_vec(),
                JsonValue::Object(vec![(b"zip".to_vec(), JsonValue::Number(Num::Int(10001)))])
            ),
        ])
    );
}

#[test]
fn exhausted_alternatives_at_position() {
    assert_eq!(parse_json(b"@").unwrap_err(), ParseError::ExhaustedAlternatives(0));
    assert_eq!(parse_value(b"@", 0).unwrap_err(), ParseError::ExhaustedAlternatives(0));
}

#[test]
fn trailing_input_is_left_to_the_caller() {
    let (v, end) = parse_value(b"123abc", 0).unwrap();
    assert_eq!(v, JsonValue::Number(Num::Int(123)));
    assert_eq!(end, 3);
    assert_eq!(parse_json(b"123abc").unwrap(), JsonValue::Number(Num::Int(123)));
}

#[test]
fn exponent_notation_is_not_recognized() {
    let (v, end) = parse_value(b"1e10", 0).unwrap();
    assert_eq!(v, JsonValue::Number(Num::Int(1)));
    assert_eq!(end, 1);
}

#[test]
fn separator_with_space() {
    assert_eq!(sep_with_space(b"  ,  x", 0, b',').unwrap(), 5);
    assert_eq!(sep_with_space(b"x", 0, b',').unwrap_err(), ParseError::UnexpectedToken(0));
}
