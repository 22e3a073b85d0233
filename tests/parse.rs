use json_parser::error::ParseError;
use json_parser::reader::JsonReader;
use json_parser::token::{JsonTokenizer, Token};
use json_parser::value::{FloatLiteral, Number, Value};
use json_parser::JsonParser;

fn parse(text: &str) -> Result<Value, ParseError> {
    JsonParser::parse_from_bytes(text.as_bytes())
}

fn entry<'a>(v: &'a Value, key: &str) -> Option<&'a Value> {
    match v {
        Value::Object(entries) => entries.iter().find(|(k, _)| k == key).map(|(_, v)| v),
        _ => None,
    }
}

fn string(s: &str) -> Value {
    Value::String(s.to_string())
}

fn float_of(n: &FloatLiteral) -> f64 {
    let m: f64 = n.mantissa.parse().unwrap();
    match &n.exponent {
        Some(e) => m * 10f64.powf(e.parse::<f64>().unwrap()),
        None => m,
    }
}

fn read_all(mut r: JsonReader) -> Result<Vec<char>, ParseError> {
    let mut out = Vec::new();
    loop {
        match r.next_char()? {
            Some(c) => out.push(c),
            None => return Ok(out),
        }
    }
}

#[test]
fn from_bytes() {
    let input_json_string = r#"{"key1":"value1","key2":"value2"}"#;
    let v = JsonParser::parse_from_bytes(input_json_string.as_bytes()).unwrap();
    assert_eq!(
        v,
        Value::Object(vec![
            ("key1".to_string(), string("value1")),
            ("key2".to_string(), string("value2")),
        ])
    );
}

#[test]
fn empty_object_and_array() {
    assert_eq!(parse("{}"), Ok(Value::Object(vec![])));
    assert_eq!(parse("[]"), Ok(Value::Array(vec![])));
}

#[test]
fn two_string_entries() {
    let v = parse(r#"{"key1":"value1","key2":"value2"}"#).unwrap();
    match &v {
        Value::Object(entries) => assert_eq!(entries.len(), 2),
        _ => panic!("not an object"),
    }
    assert_eq!(entry(&v, "key1"), Some(&string("value1")));
    assert_eq!(entry(&v, "key2"), Some(&string("value2")));
}

#[test]
fn integer_array() {
    assert_eq!(
        parse("[1,2,3]"),
        Ok(Value::Array(vec![
            Value::Number(Number::Integer(1)),
            Value::Number(Number::Integer(2)),
            Value::Number(Number::Integer(3)),
        ]))
    );
}

#[test]
fn negative_integer() {
    assert_eq!(parse("-42"), Ok(Value::Number(Number::Integer(-42))));
}

#[test]
fn decimal_float() {
    let v = parse("3.14").unwrap();
    match &v {
        Value::Number(Number::Float(f)) => {
            assert_eq!(f.mantissa, "3.14");
            assert_eq!(f.exponent, None);
            assert_eq!(float_of(f), 3.14);
        }
        _ => panic!("not a float"),
    }
}

#[test]
fn exponent_float() {
    let v = parse("1.5e2").unwrap();
    match &v {
        Value::Number(Number::Float(f)) => {
            assert_eq!(f.mantissa, "1.5");
            assert_eq!(f.exponent, Some("2".to_string()));
            assert_eq!(float_of(f), 150.0);
        }
        _ => panic!("not a float"),
    }
}

#[test]
fn exponent_forces_float() {
    let v = parse("2E-1").unwrap();
    match &v {
        Value::Number(Number::Float(f)) => {
            assert_eq!(f.mantissa, "2");
            assert_eq!(f.exponent, Some("-1".to_string()));
        }
        _ => panic!("not a float"),
    }
}

#[test]
fn nested_structures() {
    let v = parse(r#"{"a":{"b":[1,2]}}"#).unwrap();
    let a = entry(&v, "a").unwrap();
    let b = entry(a, "b").unwrap();
    assert_eq!(
        b,
        &Value::Array(vec![Value::Number(Number::Integer(1)), Value::Number(Number::Integer(2))])
    );
}

#[test]
fn keywords() {
    assert_eq!(parse("null"), Ok(Value::Null));
    assert_eq!(parse("true"), Ok(Value::Boolean(true)));
    assert_eq!(parse(" false "), Ok(Value::Boolean(false)));
    assert_eq!(
        parse(r#"[true, null, "x"]"#),
        Ok(Value::Array(vec![Value::Boolean(true), Value::Null, string("x")]))
    );
}

#[test]
fn duplicate_key_last_wins() {
    let v = parse(r#"{"k":1,"j":2,"k":3}"#).unwrap();
    assert_eq!(
        v,
        Value::Object(vec![
            ("k".to_string(), Value::Number(Number::Integer(3))),
            ("j".to_string(), Value::Number(Number::Integer(2))),
        ])
    );
}

#[test]
fn last_top_level_value_kept() {
    assert_eq!(parse("1 2"), Ok(Value::Number(Number::Integer(2))));
    assert_eq!(parse(""), Ok(Value::Null));
}

#[test]
fn nul_ends_input() {
    assert_eq!(parse("[7]\0garbage"), Ok(Value::Array(vec![Value::Number(Number::Integer(7))])));
}

#[test]
fn integer_limits() {
    assert_eq!(parse("9223372036854775807"), Ok(Value::Number(Number::Integer(i64::MAX))));
    assert_eq!(parse("-9223372036854775808"), Ok(Value::Number(Number::Integer(i64::MIN))));
    assert_eq!(parse("9223372036854775808"), Err(ParseError::NumberFormat { pos: 0 }));
    assert_eq!(parse("-9223372036854775809"), Err(ParseError::NumberFormat { pos: 0 }));
    assert_eq!(parse("123456789012345678901234567890"), Err(ParseError::NumberFormat { pos: 0 }));
}

#[test]
fn malformed_numbers() {
    assert_eq!(parse("-"), Err(ParseError::NumberFormat { pos: 0 }));
    assert_eq!(parse("1-2"), Err(ParseError::NumberFormat { pos: 0 }));
    assert_eq!(parse("[1.2.3]"), Err(ParseError::NumberFormat { pos: 1 }));
    assert_eq!(parse("1e"), Err(ParseError::NumberFormat { pos: 0 }));
    assert_eq!(parse("1x"), Err(ParseError::UnexpectedCharacter { pos: 1, found: 'x' }));
}

#[test]
fn loose_exponent_kept() {
    let v = parse("1e1.5").unwrap();
    match &v {
        Value::Number(Number::Float(f)) => {
            assert_eq!(f.mantissa, "1");
            assert_eq!(f.exponent, Some("1.5".to_string()));
            assert!((float_of(f) - 10f64.powf(1.5)).abs() < 1e-9);
        }
        _ => panic!("not a float"),
    }
}

#[test]
fn unterminated_string_reported() {
    assert_eq!(parse(r#"{"abc"#), Err(ParseError::UnterminatedString { pos: 1 }));
}

#[test]
fn mismatched_literal_reported() {
    assert_eq!(parse("nul"), Err(ParseError::MalformedLiteral { pos: 0 }));
    assert_eq!(parse("[trxe]"), Err(ParseError::MalformedLiteral { pos: 1 }));
    assert_eq!(parse("fals"), Err(ParseError::MalformedLiteral { pos: 0 }));
}

#[test]
fn double_exponent_reported() {
    assert_eq!(parse("1e2e3"), Err(ParseError::DoubleExponentMarker { pos: 3 }));
}

#[test]
fn unexpected_character_reported() {
    assert_eq!(parse("@"), Err(ParseError::UnexpectedCharacter { pos: 0, found: '@' }));
    assert_eq!(parse("[1, +2]"), Err(ParseError::UnexpectedCharacter { pos: 4, found: '+' }));
}

#[test]
fn invalid_utf8_reported() {
    assert_eq!(
        JsonParser::parse_from_bytes(&[b'[', b'1', b',', 0xff, b']']),
        Err(ParseError::Utf8Decode { offset: 3 })
    );
    assert_eq!(
        JsonParser::parse_from_bytes(&[b'"', b'a', 0xe2, 0x82]),
        Err(ParseError::Utf8Decode { offset: 2 })
    );
}

#[test]
fn multibyte_strings_across_windows() {
    let text = "{\"k\u{e9}y\":\"a\u{20ac}b\u{1f600}c\u{e9}\"}";
    let v = parse(text).unwrap();
    assert_eq!(entry(&v, "k\u{e9}y"), Some(&string("a\u{20ac}b\u{1f600}c\u{e9}")));
}

#[test]
fn streaming_decode_matches_whole_decode() {
    let samples = ["", "abc", "a\u{e9}", "\u{20ac}\u{20ac}\u{20ac}", "x\u{1f600}y\u{1f600}", "\u{e9}\u{1f600}\u{20ac}z"];
    for s in samples {
        for pad in 0..4 {
            let text = format!("{}{}", "-".repeat(pad), s);
            let chars = read_all(JsonReader::from_bytes(text.as_bytes())).unwrap();
            assert_eq!(chars, text.chars().collect::<Vec<char>>());
        }
    }
}

#[test]
fn reader_stops_at_invalid_window() {
    let chars = JsonReader::from_bytes(&[b'a', 0xc3, 0xa9, 0x80, b'b']);
    assert_eq!(read_all(chars), Err(ParseError::Utf8Decode { offset: 3 }));
}

#[test]
fn repeated_parses_agree() {
    let text = r#"{"a":[1,{"b":null}],"c":"d"}"#;
    let first = parse(text).unwrap();
    let second = parse(text).unwrap();
    assert_eq!(first, second);
}

#[test]
fn tokens_of_object() {
    let t = JsonTokenizer::new(JsonReader::from_bytes(br#"{"a": 1}"#));
    assert_eq!(
        t.tokenize_json(),
        Ok(vec![
            Token::CurlyOpen,
            Token::Quotes,
            Token::String("a".to_string()),
            Token::Quotes,
            Token::Colon,
            Token::Number(Number::Integer(1)),
            Token::CurlyClose,
        ])
    );
}

#[test]
fn tree_from_tokens() {
    let tokens = vec![
        Token::ArrayOpen,
        Token::Number(Number::Integer(5)),
        Token::Comma,
        Token::CurlyOpen,
        Token::Quotes,
        Token::String("k".to_string()),
        Token::Quotes,
        Token::Colon,
        Token::Boolean(false),
        Token::CurlyClose,
        Token::ArrayClose,
    ];
    assert_eq!(
        JsonParser::tokens_to_value(&tokens),
        Value::Array(vec![
            Value::Number(Number::Integer(5)),
            Value::Object(vec![("k".to_string(), Value::Boolean(false))]),
        ])
    );
    let mut cursor = 1;
    let items = JsonParser::process_array(&tokens, &mut cursor);
    assert_eq!(items.len(), 2);
    assert_eq!(cursor, tokens.len());
}

#[test]
fn object_state_machine_quirks() {
    // a value without a colon is still stored under the pending key
    assert_eq!(
        parse(r#"{"a" 1}"#),
        Ok(Value::Object(vec![("a".to_string(), Value::Number(Number::Integer(1)))]))
    );
    // a value with no pending key is dropped
    assert_eq!(parse(r#"{"a":1 2}"#), Ok(Value::Object(vec![("a".to_string(), Value::Number(Number::Integer(1)))])));
}

#[test]
fn exponent_with_two_dots_rejected() {
    assert_eq!(parse("1e1.5.2"), Err(ParseError::NumberFormat { pos: 0 }));
    assert_eq!(parse("[2.5e-0.5]").is_ok(), true);
}

#[test]
fn reader_end_and_error_are_repeated() {
    let mut r = JsonReader::from_bytes(b"");
    assert_eq!(r.next_char(), Ok(None));
    assert_eq!(r.next_char(), Ok(None));
    let mut bad = JsonReader::from_bytes(&[0xff]);
    assert_eq!(bad.next_char(), Err(ParseError::Utf8Decode { offset: 0 }));
    assert_eq!(bad.next_char(), Err(ParseError::Utf8Decode { offset: 0 }));
}

#[test]
fn error_positions_are_byte_offsets() {
    assert_eq!(
        parse("[\"\u{e9}\", @]"),
        Err(ParseError::UnexpectedCharacter { pos: 7, found: '@' })
    );
    assert_eq!(parse("\u{20ac}"), Err(ParseError::UnexpectedCharacter { pos: 0, found: '\u{20ac}' }));
    assert_eq!(parse("[\"\u{1f600}\",nulx]"), Err(ParseError::MalformedLiteral { pos: 8 }));
}
