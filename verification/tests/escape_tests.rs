use basic_json_parser::escape::StringEscaper;
use basic_json_parser::value::JsonError;

const REFUSED: JsonError = JsonError::InvalidEscapeSequence { line: 0, col: 0 };

#[test]
fn plain_text_is_left_as_it_is() {
    assert_eq!(StringEscaper::escape("hello, world"), "hello, world");
    assert_eq!(StringEscaper::escape(""), "");
    assert_eq!(StringEscaper::escape("caf\u{e9} \u{ffff}"), "caf\u{e9} \u{ffff}");
    assert!(!StringEscaper::needs_escaping("hello / world"));
}

#[test]
fn escapes_of_one_character() {
    assert_eq!(StringEscaper::escape("a\"b"), "a\\\"b");
    assert_eq!(StringEscaper::escape("a\\b"), "a\\\\b");
    assert_eq!(
        StringEscaper::escape("\u{8}\u{c}\n\r\t"),
        "\\b\\f\\n\\r\\t"
    );
}

#[test]
fn control_characters_and_separators_get_four_digits() {
    assert_eq!(StringEscaper::escape("\u{0}"), "\\u0000");
    assert_eq!(StringEscaper::escape("\u{1f}"), "\\u001f");
    assert_eq!(StringEscaper::escape("\u{b}"), "\\u000b");
    assert_eq!(StringEscaper::escape("\u{7f}"), "\\u007f");
    assert_eq!(StringEscaper::escape("\u{2028}\u{2029}"), "\\u2028\\u2029");
    assert_eq!(StringEscaper::escape("\u{80}"), "\u{80}");
}

#[test]
fn characters_above_the_basic_plane_get_a_surrogate_pair() {
    assert_eq!(StringEscaper::escape("\u{1F600}"), "\\ud83d\\ude00");
    assert_eq!(StringEscaper::escape("\u{10000}"), "\\ud800\\udc00");
    assert_eq!(StringEscaper::escape("\u{10FFFF}"), "\\udbff\\udfff");
    assert_eq!(StringEscaper::escape("a\u{1F600}b"), "a\\ud83d\\ude00b");
}

#[test]
fn which_texts_need_escaping() {
    for text in ["\"", "\\", "\n", "\u{0}", "\u{1f}", "\u{7f}", "\u{2028}", "\u{2029}", "\u{10000}"] {
        assert!(StringEscaper::needs_escaping(text), "{:?}", text);
        assert!(StringEscaper::needs_escaping(&format!("abc{}", text)), "{:?}", text);
    }
    for text in ["", "abc", "/", " ", "\u{20}", "\u{7e}", "\u{80}", "\u{ffff}", "\u{2027}"] {
        assert!(!StringEscaper::needs_escaping(text), "{:?}", text);
    }
}

#[test]
fn the_eight_escapes_of_one_character() {
    assert_eq!(StringEscaper::unescape_char('"'), Ok('"'));
    assert_eq!(StringEscaper::unescape_char('\\'), Ok('\\'));
    assert_eq!(StringEscaper::unescape_char('/'), Ok('/'));
    assert_eq!(StringEscaper::unescape_char('b'), Ok('\u{8}'));
    assert_eq!(StringEscaper::unescape_char('f'), Ok('\u{c}'));
    assert_eq!(StringEscaper::unescape_char('n'), Ok('\n'));
    assert_eq!(StringEscaper::unescape_char('r'), Ok('\r'));
    assert_eq!(StringEscaper::unescape_char('t'), Ok('\t'));
    for c in ['x', 'u', 'N', '0', ' ', '\n'] {
        assert_eq!(StringEscaper::unescape_char(c), Err(REFUSED), "{:?}", c);
    }
}

#[test]
fn four_hexadecimal_digits_name_a_character() {
    assert_eq!(StringEscaper::parse_unicode_hex("0041"), Ok('A'));
    assert_eq!(StringEscaper::parse_unicode_hex("00e9"), Ok('\u{e9}'));
    assert_eq!(StringEscaper::parse_unicode_hex("00E9"), Ok('\u{e9}'));
    assert_eq!(StringEscaper::parse_unicode_hex("0000"), Ok('\u{0}'));
    assert_eq!(StringEscaper::parse_unicode_hex("d7ff"), Ok('\u{d7ff}'));
    assert_eq!(StringEscaper::parse_unicode_hex("e000"), Ok('\u{e000}'));
    assert_eq!(StringEscaper::parse_unicode_hex("FFFF"), Ok('\u{ffff}'));
    assert_eq!(StringEscaper::parse_unicode_hex("aBcD"), Ok('\u{abcd}'));
}

#[test]
fn what_names_no_character() {
    for hex in [
        "", "41", "041", "00041", "004g", "zzzz", "+abc", "-abc", " 041", "d800", "dbff", "dc00",
        "DFFF", "\u{e9}12", "\u{1F600}",
    ] {
        assert_eq!(StringEscaper::parse_unicode_hex(hex), Err(REFUSED), "{:?}", hex);
    }
}

#[test]
fn the_number_of_four_digits() {
    assert_eq!(StringEscaper::parse_hex_unit("0000"), Some(0));
    assert_eq!(StringEscaper::parse_hex_unit("d83d"), Some(0xD83D));
    assert_eq!(StringEscaper::parse_hex_unit("FfFf"), Some(0xFFFF));
    assert_eq!(StringEscaper::parse_hex_unit("1234"), Some(0x1234));
    assert_eq!(StringEscaper::parse_hex_unit("123"), None);
    assert_eq!(StringEscaper::parse_hex_unit("12345"), None);
    assert_eq!(StringEscaper::parse_hex_unit("12g4"), None);
}

#[test]
fn two_surrogates_make_a_character() {
    assert_eq!(StringEscaper::join_surrogates(0xD83D, 0xDE00), Some('\u{1F600}'));
    assert_eq!(StringEscaper::join_surrogates(0xD800, 0xDC00), Some('\u{10000}'));
    assert_eq!(StringEscaper::join_surrogates(0xDBFF, 0xDFFF), Some('\u{10FFFF}'));
    assert_eq!(StringEscaper::join_surrogates(0xDE00, 0xD83D), None);
    assert_eq!(StringEscaper::join_surrogates(0xD83D, 0x0041), None);
    assert_eq!(StringEscaper::join_surrogates(0x0041, 0xDE00), None);
    assert_eq!(StringEscaper::join_surrogates(0xD83D, 0xD83D), None);
}
