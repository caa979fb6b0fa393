use basic_json_parser::driver::{deserialize, serialize, serialize_pretty};
use basic_json_parser::escape::StringEscaper;
use basic_json_parser::value::{JsonError, JsonNumber, JsonValue};

const DOCUMENTS: [&str; 14] = [
    "null",
    "true",
    "-0",
    "9223372036854775807",
    "18446744073709551615",
    "1.0",
    "-1.5e-7",
    "123456789012345678901234567890",
    "\"\"",
    "\"a \\\" \\\\ \\/ \\b \\f \\n \\r \\t \\u0000 \\u001f \\u007f \\u2028 \\ud83d\\ude00 \u{e9}\"",
    "[]",
    "{}",
    "[[[]],{},[{}],[1,[2,[3,[4]]]]]",
    "{\"a\":{\"b\":{\"c\":[1,2.5,\"x\",null,true,false]}},\"a\":[],\"\":{\"\":\"\"}}",
];

#[test]
fn compact_text_is_parsed_to_the_value_it_came_from() {
    for document in DOCUMENTS {
        let value = deserialize(document).unwrap();
        assert_eq!(deserialize(&serialize(&value)), Ok(value), "{}", document);
    }
}

#[test]
fn indented_text_is_parsed_to_the_value_it_came_from() {
    for document in DOCUMENTS {
        let value = deserialize(document).unwrap();
        assert_eq!(deserialize(&serialize_pretty(&value)), Ok(value), "{}", document);
    }
}

#[test]
fn an_unsigned_integer_in_the_signed_range_does_not_come_back() {
    let value = JsonValue::Number(JsonNumber::UnsignedInteger(5));
    assert_eq!(
        deserialize(&serialize(&value)),
        Ok(JsonValue::Number(JsonNumber::Integer(5)))
    );
}

#[test]
fn a_string_literal_is_read_as_the_text_it_was_made_from() {
    let mut texts = vec![
        String::new(),
        "plain".to_string(),
        "\"\\/\u{8}\u{c}\n\r\t".to_string(),
        "\u{0}\u{1}\u{1f}\u{7f}\u{80}\u{2028}\u{2029}".to_string(),
        "\u{ffff}\u{10000}\u{1F600}\u{10FFFF}".to_string(),
        "\\u0041 \\n \\\\".to_string(),
    ];
    let mut all = String::new();
    for code in (0..0x300u32).chain(0x2020..0x2030).chain(0xFFF0..0x10010) {
        if let Some(c) = char::from_u32(code) {
            texts.push(c.to_string());
            all.push(c);
        }
    }
    texts.push(all);
    for text in texts {
        let literal = format!("\"{}\"", StringEscaper::escape(&text));
        assert_eq!(deserialize(&literal), Ok(JsonValue::String(text.clone())), "{:?}", text);
    }
}

fn with_whitespace(pieces: &[&str], gap: &str) -> String {
    let mut out = String::from(gap);
    for piece in pieces {
        out.push_str(piece);
        out.push_str(gap);
    }
    out
}

#[test]
fn whitespace_between_tokens_does_not_change_the_value() {
    let pieces = [
        "{", "\"a b\"", ":", "[", "1", ",", "-2.5e3", ",", "true", ",", "null", "]", ",", "\"c\"",
        ":", "{", "}", "}",
    ];
    let expected = deserialize(&pieces.concat()).unwrap();
    for gap in ["", " ", "\n", "\t\r\n ", "\u{a0}\u{2003}\u{3000}", "  \n\n  "] {
        assert_eq!(deserialize(&with_whitespace(&pieces, gap)), Ok(expected.clone()), "{:?}", gap);
    }
}

#[test]
fn whitespace_in_one_gap_does_not_change_the_value() {
    let text = "[1,{\"a\":\"b c\"},null]";
    let expected = deserialize(text).unwrap();
    let boundaries = [0, 1, 2, 3, 4, 7, 8, 13, 14, 15, 19, 20];
    for at in boundaries {
        let spaced = format!("{} \n\t{}", &text[..at], &text[at..]);
        assert_eq!(deserialize(&spaced), Ok(expected.clone()), "{}", at);
    }
}

#[test]
fn whitespace_between_tokens_keeps_the_kind_of_an_error() {
    assert_eq!(deserialize("[1,]"), Err(JsonError::InvalidToken { line: 1, col: 5 }));
    assert_eq!(deserialize("[ 1 ,\n ]"), Err(JsonError::InvalidToken { line: 2, col: 3 }));
    assert_eq!(deserialize("[\"a"), Err(JsonError::UnexpectedEof { line: 1, col: 2 }));
    assert_eq!(deserialize("[\n\"a"), Err(JsonError::UnexpectedEof { line: 2, col: 1 }));
    assert_eq!(deserialize("[1-2"), Err(JsonError::InvalidNumber { line: 1, col: 2 }));
    assert_eq!(deserialize("[  1-2"), Err(JsonError::InvalidNumber { line: 1, col: 4 }));
}

#[test]
fn whitespace_inside_a_token_is_another_matter() {
    assert_eq!(deserialize("12"), Ok(JsonValue::Number(JsonNumber::Integer(12))));
    assert_eq!(deserialize("1 2"), Err(JsonError::InvalidToken { line: 1, col: 4 }));
    assert_eq!(deserialize("\"ab\""), Ok(JsonValue::String("ab".to_string())));
    assert_eq!(deserialize("\"a b\""), Ok(JsonValue::String("a b".to_string())));
}
