use basic_json_parser::driver::deserialize;
use basic_json_parser::parser::Parser;
use basic_json_parser::value::{JsonError, JsonNumber, JsonValue};

fn integer(i: i64) -> JsonValue {
    JsonValue::Number(JsonNumber::Integer(i))
}

fn text(s: &str) -> JsonValue {
    JsonValue::String(s.to_string())
}

fn invalid_token(line: usize, col: usize) -> Result<JsonValue, JsonError> {
    Err(JsonError::InvalidToken { line, col })
}

#[test]
fn parsed_scalars() {
    assert_eq!(deserialize("null"), Ok(JsonValue::Null));
    assert_eq!(deserialize("true"), Ok(JsonValue::Bool(true)));
    assert_eq!(deserialize("false"), Ok(JsonValue::Bool(false)));
    assert_eq!(deserialize("42"), Ok(integer(42)));
    assert_eq!(deserialize("\"a\""), Ok(text("a")));
    assert_eq!(deserialize("  \n null \t"), Ok(JsonValue::Null));
}

#[test]
fn numbers_keep_their_kind() {
    assert_eq!(deserialize("9223372036854775807"), Ok(integer(9223372036854775807)));
    assert_eq!(
        deserialize("18446744073709551615"),
        Ok(JsonValue::Number(JsonNumber::UnsignedInteger(18446744073709551615)))
    );
    assert_eq!(
        deserialize("1.0"),
        Ok(JsonValue::Number(JsonNumber::Float("1.0".to_string())))
    );
    assert_eq!(
        deserialize("1e2"),
        Ok(JsonValue::Number(JsonNumber::Float("1e2".to_string())))
    );
    assert_eq!(
        deserialize("-18446744073709551615"),
        Ok(JsonValue::Number(JsonNumber::Float("-18446744073709551615".to_string())))
    );
    assert_eq!("-18446744073709551615".parse::<f64>(), Ok(-18446744073709551615.0));
}

#[test]
fn empty_containers() {
    assert_eq!(deserialize("[]"), Ok(JsonValue::Array(vec![])));
    assert_eq!(deserialize("{}"), Ok(JsonValue::Object(vec![])));
    assert_eq!(deserialize("[ ]"), Ok(JsonValue::Array(vec![])));
    assert_eq!(deserialize(" {\n} "), Ok(JsonValue::Object(vec![])));
}

#[test]
fn arrays_and_objects_nest() {
    assert_eq!(
        deserialize("[1, [2, []], {\"a\": [true]}]"),
        Ok(JsonValue::Array(vec![
            integer(1),
            JsonValue::Array(vec![integer(2), JsonValue::Array(vec![])]),
            JsonValue::Object(vec![(
                "a".to_string(),
                JsonValue::Array(vec![JsonValue::Bool(true)])
            )]),
        ]))
    );
}

#[test]
fn members_keep_their_order_and_equal_keys_are_kept() {
    assert_eq!(
        deserialize("{\"b\": 1, \"a\": 2, \"b\": 3}"),
        Ok(JsonValue::Object(vec![
            ("b".to_string(), integer(1)),
            ("a".to_string(), integer(2)),
            ("b".to_string(), integer(3)),
        ]))
    );
}

#[test]
fn a_comma_before_the_closing_bracket_is_refused() {
    assert_eq!(deserialize("[1,2,]"), invalid_token(1, 7));
    assert_eq!(deserialize("{\"a\":1,}"), invalid_token(1, 9));
    assert_eq!(deserialize("[,]"), invalid_token(1, 3));
    assert_eq!(deserialize("[1,,2]"), invalid_token(1, 5));
}

#[test]
fn anything_behind_the_value_is_refused() {
    assert_eq!(deserialize("1 2"), invalid_token(1, 4));
    assert_eq!(deserialize("[] []"), invalid_token(1, 5));
    assert_eq!(deserialize("null,"), invalid_token(1, 6));
    assert_eq!(deserialize("{}}"), invalid_token(1, 4));
}

#[test]
fn a_text_without_a_value_is_refused() {
    assert_eq!(deserialize(""), invalid_token(1, 1));
    assert_eq!(deserialize("   "), invalid_token(1, 4));
    assert_eq!(deserialize("]"), invalid_token(1, 2));
    assert_eq!(deserialize(":"), invalid_token(1, 2));
}

#[test]
fn arrays_that_are_not_closed_or_not_separated() {
    assert_eq!(deserialize("["), invalid_token(1, 2));
    assert_eq!(deserialize("[1"), invalid_token(1, 3));
    assert_eq!(deserialize("[1 2]"), invalid_token(1, 5));
    assert_eq!(deserialize("[1:2]"), invalid_token(1, 4));
    assert_eq!(deserialize("[1}"), invalid_token(1, 4));
}

#[test]
fn objects_with_a_wrong_key_colon_or_separator() {
    assert_eq!(deserialize("{1:2}"), invalid_token(1, 3));
    assert_eq!(deserialize("{\"a\" 1}"), invalid_token(1, 7));
    assert_eq!(deserialize("{\"a\":}"), invalid_token(1, 7));
    assert_eq!(deserialize("{\"a\":1 \"b\":2}"), invalid_token(1, 11));
    assert_eq!(deserialize("{\"a\":1]"), invalid_token(1, 8));
    assert_eq!(deserialize("{\"a\""), invalid_token(1, 5));
    assert_eq!(deserialize("{"), invalid_token(1, 2));
    assert_eq!(deserialize("{\"name\": \"test\", \"value\": }"), invalid_token(1, 28));
}

#[test]
fn errors_of_the_lexer_come_through() {
    assert_eq!(
        deserialize("[1, \"abc]"),
        Err(JsonError::UnexpectedEof { line: 1, col: 5 })
    );
    assert_eq!(
        deserialize("{\"a\\x\": 1}"),
        Err(JsonError::InvalidEscapeSequence { line: 1, col: 6 })
    );
    assert_eq!(
        deserialize("[1, 2-3]"),
        Err(JsonError::InvalidNumber { line: 1, col: 5 })
    );
    assert_eq!(deserialize("[1, nul]"), invalid_token(1, 5));
    assert_eq!(deserialize("1 @"), invalid_token(1, 3));
    assert_eq!(deserialize("@"), invalid_token(1, 1));
}

#[test]
fn errors_carry_the_line() {
    assert_eq!(deserialize("[\n  1,\n  2,\n]"), invalid_token(4, 2));
    assert_eq!(
        deserialize("{\n  \"a\": \"b\n"),
        Err(JsonError::UnexpectedEof { line: 2, col: 8 })
    );
}

#[test]
fn a_parser_is_made_and_run_in_two_steps() {
    let mut parser = Parser::new("[true]").unwrap();
    assert_eq!(parser.parse(), Ok(JsonValue::Array(vec![JsonValue::Bool(true)])));
    assert_eq!(Parser::new("\"abc").err(), Some(JsonError::UnexpectedEof { line: 1, col: 1 }));
}

#[test]
fn deep_nesting() {
    let depth = 200;
    let text = format!("{}{}", "[".repeat(depth), "]".repeat(depth));
    let mut expected = JsonValue::Array(vec![]);
    for _ in 1..depth {
        expected = JsonValue::Array(vec![expected]);
    }
    assert_eq!(deserialize(&text), Ok(expected));
}
