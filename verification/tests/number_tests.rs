use basic_json_parser::number::NumberParser;
use basic_json_parser::value::{JsonError, JsonNumber};

fn float(text: &str) -> JsonNumber {
    JsonNumber::Float(text.to_string())
}

#[test]
fn test_display_integer() {
    let num = JsonNumber::Integer(42);
    assert_eq!(num.to_string(), "42");

    let neg = JsonNumber::Integer(-123);
    assert_eq!(neg.to_string(), "-123");
}

#[test]
fn test_display_unsigned() {
    let num = JsonNumber::UnsignedInteger(18446744073709551615);
    assert_eq!(num.to_string(), "18446744073709551615");
}

#[test]
fn test_from_str_simple() {
    assert_eq!(JsonNumber::from_str_simple("42").unwrap(), JsonNumber::Integer(42));
    assert_eq!(
        JsonNumber::from_str_simple("18446744073709551615").unwrap(),
        JsonNumber::UnsignedInteger(18446744073709551615)
    );
    assert_eq!(JsonNumber::from_str_simple("3.14").unwrap(), float("3.14"));
    assert_eq!("3.14".parse::<f64>().unwrap(), 3.14);
    assert_eq!(JsonNumber::from_str_simple("1e10").unwrap(), float("1e10"));
    assert_eq!("1e10".parse::<f64>().unwrap(), 1e10);
}

#[test]
fn display_of_the_extreme_integers() {
    assert_eq!(JsonNumber::Integer(0).to_string(), "0");
    assert_eq!(JsonNumber::Integer(i64::MIN).to_string(), "-9223372036854775808");
    assert_eq!(JsonNumber::Integer(i64::MAX).to_string(), "9223372036854775807");
    assert_eq!(JsonNumber::UnsignedInteger(0).to_string(), "0");
    assert_eq!(JsonNumber::UnsignedInteger(1000).to_string(), "1000");
}

#[test]
fn display_of_a_float_is_its_literal() {
    assert_eq!(float("2.50e+3").to_string(), "2.50e+3");
}

#[test]
fn the_narrowest_kind_is_chosen() {
    assert_eq!(
        NumberParser::parse("9223372036854775807"),
        Ok(JsonNumber::Integer(9223372036854775807))
    );
    assert_eq!(
        NumberParser::parse("-9223372036854775808"),
        Ok(JsonNumber::Integer(i64::MIN))
    );
    assert_eq!(
        NumberParser::parse("9223372036854775808"),
        Ok(JsonNumber::UnsignedInteger(9223372036854775808))
    );
    assert_eq!(
        NumberParser::parse("18446744073709551615"),
        Ok(JsonNumber::UnsignedInteger(u64::MAX))
    );
    assert_eq!(
        NumberParser::parse("18446744073709551616"),
        Ok(float("18446744073709551616"))
    );
    assert_eq!(
        NumberParser::parse("-18446744073709551615"),
        Ok(float("-18446744073709551615"))
    );
    assert_eq!(
        NumberParser::parse("-9223372036854775809"),
        Ok(float("-9223372036854775809"))
    );
    assert_eq!(NumberParser::parse("1.0"), Ok(float("1.0")));
    assert_eq!(NumberParser::parse("1e2"), Ok(float("1e2")));
    assert_eq!(NumberParser::parse("1E2"), Ok(float("1E2")));
}

#[test]
fn signs_and_leading_zeros_of_integers() {
    assert_eq!(NumberParser::parse("+5"), Ok(JsonNumber::Integer(5)));
    assert_eq!(NumberParser::parse("-0"), Ok(JsonNumber::Integer(0)));
    assert_eq!(NumberParser::parse("007"), Ok(JsonNumber::Integer(7)));
    assert_eq!(
        NumberParser::parse("+18446744073709551615"),
        Ok(JsonNumber::UnsignedInteger(u64::MAX))
    );
    assert_eq!(
        NumberParser::parse("000000000000000000000000000000042"),
        Ok(JsonNumber::Integer(42))
    );
}

#[test]
fn literals_that_are_no_numbers() {
    let refused = Err(JsonError::InvalidNumber { line: 0, col: 0 });
    for text in [
        "", "-", "+", ".", "e5", "1e", "1e+", "1-2", "--1", "1.2.3", "1e5.5", "0x10", "1 ", " 1",
        "abc", "in", "infinit", "1_000", "١",
    ] {
        assert_eq!(NumberParser::parse(text), refused, "{:?}", text);
    }
}

#[test]
fn every_form_of_a_float_literal() {
    for text in [
        "1.", ".5", "-.5", "+1.5", "1.5e10", "1.5E-10", "1.e+3", "0.0", "-0.0", "1e400", "inf",
        "-inf", "+Infinity", "nan", "NaN", "INFINITY",
    ] {
        assert_eq!(NumberParser::parse(text), Ok(float(text)), "{:?}", text);
    }
}

#[test]
fn the_float_grammar_is_that_of_the_standard_library() {
    let pieces = ["", "1", "0", "-", "+", ".", "e", "E", "inf", "nan", "12", "i", "x"];
    for a in pieces {
        for b in pieces {
            for c in pieces {
                for d in pieces {
                    let text = format!("{}{}{}{}", a, b, c, d);
                    let expected = text.parse::<i64>().is_ok() || text.parse::<u64>().is_ok()
                        || text.parse::<f64>().is_ok();
                    assert_eq!(NumberParser::parse(&text).is_ok(), expected, "{:?}", text);
                    if let Ok(JsonNumber::Integer(i)) = NumberParser::parse(&text) {
                        assert_eq!(Ok(i), text.parse::<i64>());
                    }
                    if let Ok(JsonNumber::UnsignedInteger(u)) = NumberParser::parse(&text) {
                        assert_eq!(Ok(u), text.parse::<u64>());
                    }
                }
            }
        }
    }
}

#[test]
fn error_messages() {
    assert_eq!(
        JsonError::InvalidToken { line: 3, col: 14 }.to_string(),
        "Invalid token at 3:14"
    );
    assert_eq!(
        JsonError::UnexpectedEof { line: 1, col: 1 }.to_string(),
        "Unexpected EOF at 1:1"
    );
    assert_eq!(
        JsonError::InvalidEscapeSequence { line: 10, col: 200 }.to_string(),
        "Invalid escape at 10:200"
    );
    assert_eq!(
        JsonError::InvalidNumber { line: 0, col: 0 }.to_string(),
        "Invalid number at 0:0"
    );
}
