use basic_json_parser::lexer::Lexer;
use basic_json_parser::value::{JsonError, JsonNumber, Token};

fn tokens(text: &str) -> Vec<Result<Token, JsonError>> {
    let mut lexer = Lexer::new(text);
    let mut out = Vec::new();
    loop {
        let token = lexer.next_token();
        let done = token == Ok(Token::Eof) || token.is_err();
        out.push(token);
        if done {
            return out;
        }
    }
}

fn string(text: &str) -> Result<Token, JsonError> {
    Ok(Token::String(text.to_string()))
}

#[test]
fn a_new_lexer_stands_at_line_one_column_one() {
    let lexer = Lexer::new("abc");
    assert_eq!((lexer.line(), lexer.col()), (1, 1));
}

#[test]
fn advancing_counts_lines_and_columns() {
    let mut lexer = Lexer::new("ab\nc\n");
    assert_eq!(lexer.advance_char(), Some('a'));
    assert_eq!((lexer.line(), lexer.col()), (1, 2));
    assert_eq!(lexer.advance_char(), Some('b'));
    assert_eq!((lexer.line(), lexer.col()), (1, 3));
    assert_eq!(lexer.advance_char(), Some('\n'));
    assert_eq!((lexer.line(), lexer.col()), (2, 1));
    assert_eq!(lexer.advance_char(), Some('c'));
    assert_eq!((lexer.line(), lexer.col()), (2, 2));
    assert_eq!(lexer.advance_char(), Some('\n'));
    assert_eq!((lexer.line(), lexer.col()), (3, 1));
    assert_eq!(lexer.advance_char(), None);
    assert_eq!((lexer.line(), lexer.col()), (3, 1));
    assert_eq!(lexer.advance_char(), None);
}

#[test]
fn whitespace_is_skipped_up_to_the_next_character() {
    let mut lexer = Lexer::new(" \t\r\n\u{a0}\u{3000} x ");
    lexer.skip_whitespace();
    assert_eq!((lexer.line(), lexer.col()), (2, 4));
    assert_eq!(lexer.advance_char(), Some('x'));
    lexer.skip_whitespace();
    assert_eq!(lexer.advance_char(), None);
    lexer.skip_whitespace();
    assert_eq!(lexer.advance_char(), None);
}

#[test]
fn whitespace_is_what_the_standard_library_calls_whitespace() {
    for code in 0..=0x10FFFFu32 {
        if let Some(c) = char::from_u32(code) {
            let text = c.to_string();
            let mut lexer = Lexer::new(&text);
            lexer.skip_whitespace();
            assert_eq!(lexer.advance_char().is_none(), c.is_whitespace(), "{:?}", c);
        }
    }
}

#[test]
fn skipping_stops_at_once_where_no_whitespace_stands() {
    let mut lexer = Lexer::new("x");
    lexer.skip_whitespace();
    assert_eq!((lexer.line(), lexer.col()), (1, 1));
    assert_eq!(lexer.advance_char(), Some('x'));
}

#[test]
fn every_kind_of_token() {
    assert_eq!(
        tokens("{ } [ ] : , \"s\" 12 true false null"),
        vec![
            Ok(Token::CurlyLeft),
            Ok(Token::CurlyRight),
            Ok(Token::SquareLeft),
            Ok(Token::SquareRight),
            Ok(Token::Colon),
            Ok(Token::Comma),
            string("s"),
            Ok(Token::Number(JsonNumber::Integer(12))),
            Ok(Token::True),
            Ok(Token::False),
            Ok(Token::Null),
            Ok(Token::Eof),
        ]
    );
}

#[test]
fn tokens_need_no_whitespace_between_them() {
    assert_eq!(
        tokens("[1,\"a\"]truefalse"),
        vec![
            Ok(Token::SquareLeft),
            Ok(Token::Number(JsonNumber::Integer(1))),
            Ok(Token::Comma),
            string("a"),
            Ok(Token::SquareRight),
            Ok(Token::True),
            Ok(Token::False),
            Ok(Token::Eof),
        ]
    );
}

#[test]
fn the_end_of_the_text_is_a_token_as_often_as_asked() {
    let mut lexer = Lexer::new("  ");
    assert_eq!(lexer.next_token(), Ok(Token::Eof));
    assert_eq!(lexer.next_token(), Ok(Token::Eof));
    assert_eq!((lexer.line(), lexer.col()), (1, 3));
    assert_eq!(tokens(""), vec![Ok(Token::Eof)]);
}

#[test]
fn escapes_in_strings() {
    assert_eq!(tokens("\"a\\nb\"")[0], string("a\nb"));
    assert_eq!(tokens("\"\\\"\\\\\\/\\b\\f\\n\\r\\t\"")[0], string("\"\\/\u{8}\u{c}\n\r\t"));
    assert_eq!(tokens("\"\\u0041\\u00e9\\u00E9\"")[0], string("A\u{e9}\u{e9}"));
    assert_eq!(tokens("\"\"")[0], string(""));
    assert_eq!(tokens("\"a\nb\"")[0], string("a\nb"));
    assert_eq!(tokens("\"\u{1F600}\"")[0], string("\u{1F600}"));
}

#[test]
fn surrogate_pairs_in_strings() {
    assert_eq!(tokens("\"\\ud83d\\ude00\"")[0], string("\u{1F600}"));
    assert_eq!(tokens("\"\\uD83D\\uDE00!\"")[0], string("\u{1F600}!"));
    assert_eq!(tokens("\"\\ud800\\udc00\\udbff\\udfff\"")[0], string("\u{10000}\u{10FFFF}"));
}

#[test]
fn surrogates_that_stand_alone_are_refused() {
    assert_eq!(
        tokens("\"\\ud83d\""),
        vec![Err(JsonError::InvalidEscapeSequence { line: 1, col: 9 })]
    );
    assert_eq!(
        tokens("\"\\ud83dx\""),
        vec![Err(JsonError::InvalidEscapeSequence { line: 1, col: 9 })]
    );
    assert_eq!(
        tokens("\"\\ud83d\\n\""),
        vec![Err(JsonError::InvalidEscapeSequence { line: 1, col: 10 })]
    );
    assert_eq!(
        tokens("\"\\ud83d\\u0041\""),
        vec![Err(JsonError::InvalidEscapeSequence { line: 1, col: 14 })]
    );
    assert_eq!(
        tokens("\"\\ude00\""),
        vec![Err(JsonError::InvalidEscapeSequence { line: 1, col: 8 })]
    );
    assert_eq!(
        tokens("\"\\ud83d\\ud83d\""),
        vec![Err(JsonError::InvalidEscapeSequence { line: 1, col: 14 })]
    );
    assert_eq!(
        tokens("\"\\ud83d\\u12"),
        vec![Err(JsonError::InvalidEscapeSequence { line: 1, col: 12 })]
    );
}

#[test]
fn invalid_escapes_are_reported_where_reading_stopped() {
    assert_eq!(
        tokens("\"\\x\""),
        vec![Err(JsonError::InvalidEscapeSequence { line: 1, col: 4 })]
    );
    assert_eq!(
        tokens("\"ab\\"),
        vec![Err(JsonError::InvalidEscapeSequence { line: 1, col: 5 })]
    );
    assert_eq!(
        tokens("\"\\u12G4\""),
        vec![Err(JsonError::InvalidEscapeSequence { line: 1, col: 7 })]
    );
    assert_eq!(
        tokens("\"\\u12"),
        vec![Err(JsonError::InvalidEscapeSequence { line: 1, col: 6 })]
    );
    assert_eq!(
        tokens("\n \"a\\q"),
        vec![Err(JsonError::InvalidEscapeSequence { line: 2, col: 6 })]
    );
}

#[test]
fn a_string_without_its_closing_quote_is_reported_at_the_opening_quote() {
    assert_eq!(
        tokens("  \"abc"),
        vec![Err(JsonError::UnexpectedEof { line: 1, col: 3 })]
    );
    assert_eq!(
        tokens("\n\n \"a\nb"),
        vec![Err(JsonError::UnexpectedEof { line: 3, col: 2 })]
    );
    assert_eq!(
        tokens("\"a\\\""),
        vec![Err(JsonError::UnexpectedEof { line: 1, col: 1 })]
    );
}

#[test]
fn words_that_are_cut_short_or_misspelt_are_reported_at_their_beginning() {
    assert_eq!(tokens("tru"), vec![Err(JsonError::InvalidToken { line: 1, col: 1 })]);
    assert_eq!(tokens(" nul1"), vec![Err(JsonError::InvalidToken { line: 1, col: 2 })]);
    assert_eq!(tokens("\nfalsy"), vec![Err(JsonError::InvalidToken { line: 2, col: 1 })]);
    assert_eq!(tokens("n"), vec![Err(JsonError::InvalidToken { line: 1, col: 1 })]);
}

#[test]
fn a_misspelt_word_is_consumed_up_to_the_character_that_differs() {
    let mut lexer = Lexer::new("trax 1");
    assert_eq!(lexer.next_token(), Err(JsonError::InvalidToken { line: 1, col: 1 }));
    assert_eq!((lexer.line(), lexer.col()), (1, 4));
    assert_eq!(lexer.next_token(), Err(JsonError::InvalidToken { line: 1, col: 4 }));
    assert_eq!(lexer.next_token(), Ok(Token::Number(JsonNumber::Integer(1))));
    assert_eq!(lexer.next_token(), Ok(Token::Eof));
}

#[test]
fn any_other_character_is_reported_and_consumed() {
    let mut lexer = Lexer::new(" @1");
    assert_eq!(lexer.next_token(), Err(JsonError::InvalidToken { line: 1, col: 2 }));
    assert_eq!((lexer.line(), lexer.col()), (1, 3));
    assert_eq!(lexer.next_token(), Ok(Token::Number(JsonNumber::Integer(1))));
    assert_eq!(tokens("+1"), vec![Err(JsonError::InvalidToken { line: 1, col: 1 })]);
    assert_eq!(tokens(".5"), vec![Err(JsonError::InvalidToken { line: 1, col: 1 })]);
    assert_eq!(tokens("'a'"), vec![Err(JsonError::InvalidToken { line: 1, col: 1 })]);
}

#[test]
fn a_number_takes_every_character_of_a_number_that_follows() {
    assert_eq!(tokens("1-2"), vec![Err(JsonError::InvalidNumber { line: 1, col: 1 })]);
    assert_eq!(tokens("  --1"), vec![Err(JsonError::InvalidNumber { line: 1, col: 3 })]);
    assert_eq!(tokens("\n1.2.3"), vec![Err(JsonError::InvalidNumber { line: 2, col: 1 })]);
    assert_eq!(tokens("-"), vec![Err(JsonError::InvalidNumber { line: 1, col: 1 })]);
    assert_eq!(tokens("1e"), vec![Err(JsonError::InvalidNumber { line: 1, col: 1 })]);
    let mut lexer = Lexer::new("1-2,");
    assert_eq!(lexer.next_token(), Err(JsonError::InvalidNumber { line: 1, col: 1 }));
    assert_eq!((lexer.line(), lexer.col()), (1, 4));
    assert_eq!(lexer.next_token(), Ok(Token::Comma));
}

#[test]
fn numbers_of_the_three_kinds() {
    assert_eq!(
        tokens("-12 18446744073709551615 1.5e3 12a")[..4],
        [
            Ok(Token::Number(JsonNumber::Integer(-12))),
            Ok(Token::Number(JsonNumber::UnsignedInteger(u64::MAX))),
            Ok(Token::Number(JsonNumber::Float("1.5e3".to_string()))),
            Ok(Token::Number(JsonNumber::Integer(12))),
        ]
    );
}
