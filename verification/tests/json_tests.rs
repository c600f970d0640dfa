use rust_performance_test::json_grammar::ContainerCtx;
use rust_performance_test::json_grammar::LiteralKind;
use rust_performance_test::json_grammar::ParseError;
use rust_performance_test::parse_text;
use rust_performance_test::serialize_json;
use rust_performance_test::JsonNumber;
use rust_performance_test::JsonParser;
use rust_performance_test::JsonValue;

fn num(neg: bool, int_digits: &str, frac_digits: &str) -> JsonValue {
    JsonValue::Number(JsonNumber {
        neg,
        int_digits: int_digits.to_string(),
        frac_digits: frac_digits.to_string(),
    })
}

#[test]
fn empty_object_parses_to_empty_mapping() {
    let v = parse_text("{}").unwrap();
    assert_eq!(v, JsonValue::Object(Vec::new()));
}

#[test]
fn empty_array_parses_to_empty_sequence() {
    let v = parse_text("[]").unwrap();
    assert_eq!(v, JsonValue::Array(Vec::new()));
}

#[test]
fn duplicate_keys_last_write_wins() {
    let v = parse_text("{\"a\":1,\"a\":2}").unwrap();
    let expected = JsonValue::Object(vec![("a".to_string(), num(false, "2", ""))]);
    assert_eq!(v, expected);
    assert_eq!(v.object_get(&"a".to_string()), Some(&num(false, "2", "")));
}

#[test]
fn object_get_and_set() {
    let mut v = parse_text("{\"a\":1,\"b\":2}").unwrap();
    assert_eq!(v.object_get(&"b".to_string()), Some(&num(false, "2", "")));
    assert_eq!(v.object_get(&"c".to_string()), None);
    v.object_set("b".to_string(), JsonValue::Bool(true));
    v.object_set("c".to_string(), JsonValue::Null);
    assert_eq!(serialize_json(&v), "{\"a\":1,\"b\":true,\"c\":null}".to_string());
    let mut w = JsonValue::Bool(false);
    assert_eq!(w.object_get(&"a".to_string()), None);
    w.object_set("a".to_string(), JsonValue::Null);
    assert_eq!(w, JsonValue::Bool(false));
}

#[test]
fn escape_fidelity_literal_newline() {
    let v = parse_text("\"hi\\nthere\"").unwrap();
    assert_eq!(v, JsonValue::String("hi\nthere".to_string()));
}

#[test]
fn unknown_escape_is_copied_verbatim() {
    let v = parse_text("\"a\\qb\\/c\"").unwrap();
    assert_eq!(v, JsonValue::String("aqb/c".to_string()));
}

#[test]
fn missing_closing_brace_is_container_error() {
    let e = parse_text("{\"a\":1").unwrap_err();
    assert_eq!(e, ParseError::MalformedContainer(ContainerCtx::ObjectDelimiter));
}

#[test]
fn trailing_content_after_number() {
    let e = parse_text("123 abc").unwrap_err();
    assert_eq!(e, ParseError::TrailingContent);
}

#[test]
fn nested_document_structure() {
    let v = parse_text("{\"name\":\"Test\",\"list\":[1,2],\"flag\":true,\"none\":null}").unwrap();
    let expected = JsonValue::Object(vec![
        ("name".to_string(), JsonValue::String("Test".to_string())),
        (
            "list".to_string(),
            JsonValue::Array(vec![num(false, "1", ""), num(false, "2", "")]),
        ),
        ("flag".to_string(), JsonValue::Bool(true)),
        ("none".to_string(), JsonValue::Null),
    ]);
    assert_eq!(v, expected);
}

#[test]
fn whitespace_around_tokens_is_skipped() {
    let v = parse_text("  [ 1 , \t\r\n 2 ]  ").unwrap();
    assert_eq!(v, JsonValue::Array(vec![num(false, "1", ""), num(false, "2", "")]));
}

#[test]
fn unicode_whitespace_is_skipped() {
    let v = parse_text("\u{00A0}\u{2003}[1]\u{00A0}").unwrap();
    assert_eq!(v, JsonValue::Array(vec![num(false, "1", "")]));
}

#[test]
fn numbers_with_sign_and_fraction() {
    assert_eq!(parse_text("-7").unwrap(), num(true, "7", ""));
    assert_eq!(parse_text("0.25").unwrap(), num(false, "0", "25"));
    assert_eq!(parse_text("-12.5").unwrap(), num(true, "12", "5"));
}

#[test]
fn number_format_errors() {
    assert_eq!(parse_text("-").unwrap_err(), ParseError::NumberFormat);
    assert_eq!(parse_text("5.").unwrap_err(), ParseError::NumberFormat);
    assert_eq!(parse_text("-.5").unwrap_err(), ParseError::NumberFormat);
    assert_eq!(parse_text("5.x").unwrap_err(), ParseError::NumberFormat);
}

#[test]
fn unexpected_character_error() {
    assert_eq!(parse_text("@").unwrap_err(), ParseError::UnexpectedCharacter);
    assert_eq!(parse_text("").unwrap_err(), ParseError::UnexpectedCharacter);
}

#[test]
fn unrecognized_literal_error() {
    assert_eq!(
        parse_text("tru").unwrap_err(),
        ParseError::UnrecognizedLiteral(LiteralKind::True)
    );
    assert_eq!(
        parse_text("falsy").unwrap_err(),
        ParseError::UnrecognizedLiteral(LiteralKind::False)
    );
    assert_eq!(
        parse_text("nul").unwrap_err(),
        ParseError::UnrecognizedLiteral(LiteralKind::Null)
    );
}

#[test]
fn unterminated_string_errors() {
    assert_eq!(parse_text("\"abc").unwrap_err(), ParseError::UnterminatedString);
    assert_eq!(parse_text("\"abc\\").unwrap_err(), ParseError::UnterminatedEscape);
}

#[test]
fn expected_colon_error() {
    assert_eq!(parse_text("{\"a\" 1}").unwrap_err(), ParseError::ExpectedColon);
}

#[test]
fn expected_key_error() {
    assert_eq!(
        parse_text("{1:2}").unwrap_err(),
        ParseError::MalformedContainer(ContainerCtx::ObjectKey)
    );
}

#[test]
fn array_delimiter_error() {
    assert_eq!(
        parse_text("[1 2]").unwrap_err(),
        ParseError::MalformedContainer(ContainerCtx::ArrayDelimiter)
    );
}

#[test]
fn error_messages() {
    assert_eq!(
        parse_text("@").unwrap_err().message(),
        "Unexpected character".to_string()
    );
    assert_eq!(
        parse_text("{\"a\":1").unwrap_err().message(),
        "Expected ',' or '}' in object".to_string()
    );
    assert_eq!(
        parse_text("123 abc").unwrap_err().message(),
        "Extra characters after JSON value".to_string()
    );
}

#[test]
fn serialize_exact_texts() {
    assert_eq!(serialize_json(&JsonValue::Null), "null".to_string());
    assert_eq!(serialize_json(&JsonValue::Bool(true)), "true".to_string());
    assert_eq!(serialize_json(&JsonValue::Bool(false)), "false".to_string());
    assert_eq!(serialize_json(&num(true, "12", "5")), "-12.5".to_string());
    assert_eq!(serialize_json(&num(false, "7", "")), "7".to_string());
    assert_eq!(
        serialize_json(&JsonValue::Object(vec![("a".to_string(), num(false, "1", ""))])),
        "{\"a\":1}".to_string()
    );
    assert_eq!(
        serialize_json(&JsonValue::Array(vec![JsonValue::Null, JsonValue::Bool(false)])),
        "[null,false]".to_string()
    );
}

#[test]
fn serialize_escapes_only_quote_and_backslash() {
    let v = JsonValue::String("a\"b\\c\nd".to_string());
    assert_eq!(serialize_json(&v), "\"a\\\"b\\\\c\nd\"".to_string());
}

#[test]
fn round_trip_structural_equality() {
    let v = JsonValue::Object(vec![
        ("s".to_string(), JsonValue::String("he said \"hi\"\\\n".to_string())),
        (
            "a".to_string(),
            JsonValue::Array(vec![
                num(true, "3", "14"),
                JsonValue::Null,
                JsonValue::Bool(true),
                JsonValue::Object(Vec::new()),
            ]),
        ),
        ("n".to_string(), num(false, "0", "001")),
    ]);
    let text = serialize_json(&v);
    let back = parse_text(&text).unwrap();
    assert_eq!(back, v);
}

#[test]
fn round_trip_of_parsed_document() {
    let doc = "{\"users\":[{\"id\":1,\"name\":\"Alice\"},{\"id\":2,\"name\":\"Bob\"}],\"total\":2}";
    let v = parse_text(doc).unwrap();
    let text = serialize_json(&v);
    let again = parse_text(&text).unwrap();
    assert_eq!(again, v);
    // Insertion order is kept, so this serializer even reproduces the text.
    assert_eq!(text, doc.to_string());
}

#[test]
fn parser_type_drives_one_document() {
    let mut parser = JsonParser::new("[true]");
    let v = parser.parse().unwrap();
    assert_eq!(v, JsonValue::Array(vec![JsonValue::Bool(true)]));
}

#[test]
fn non_ascii_text_round_trips() {
    let v = parse_text("{\"gr\u{00FC}\u{00DF}e\":\"\u{4F60}\u{597D}\"}").unwrap();
    let expected = JsonValue::Object(vec![(
        "gr\u{00FC}\u{00DF}e".to_string(),
        JsonValue::String("\u{4F60}\u{597D}".to_string()),
    )]);
    assert_eq!(v, expected);
    assert_eq!(parse_text(&serialize_json(&v)).unwrap(), expected);
}
