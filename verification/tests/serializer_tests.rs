use basic_json_parser::driver::{serialize, serialize_pretty};
use basic_json_parser::serializer::indent_str;
use basic_json_parser::value::{JsonNumber, JsonValue};

fn integer(i: i64) -> JsonValue {
    JsonValue::Number(JsonNumber::Integer(i))
}

fn text(s: &str) -> JsonValue {
    JsonValue::String(s.to_string())
}

fn object(members: Vec<(&str, JsonValue)>) -> JsonValue {
    JsonValue::Object(members.into_iter().map(|(k, v)| (k.to_string(), v)).collect())
}

#[test]
fn rendered_scalars() {
    assert_eq!(serialize(&JsonValue::Null), "null");
    assert_eq!(serialize(&JsonValue::Bool(true)), "true");
    assert_eq!(serialize(&JsonValue::Bool(false)), "false");
    assert_eq!(serialize(&integer(-7)), "-7");
    assert_eq!(
        serialize(&JsonValue::Number(JsonNumber::UnsignedInteger(u64::MAX))),
        "18446744073709551615"
    );
    assert_eq!(
        serialize(&JsonValue::Number(JsonNumber::Float("1.5e3".to_string()))),
        "1.5e3"
    );
    assert_eq!(serialize(&text("a\"b\n")), "\"a\\\"b\\n\"");
    assert_eq!(serialize_pretty(&JsonValue::Null), "null");
    assert_eq!(serialize_pretty(&text("\u{1F600}")), "\"\\ud83d\\ude00\"");
}

#[test]
fn empty_containers_are_two_brackets_in_both_forms() {
    assert_eq!(serialize(&JsonValue::Array(vec![])), "[]");
    assert_eq!(serialize(&JsonValue::Object(vec![])), "{}");
    assert_eq!(serialize_pretty(&JsonValue::Array(vec![])), "[]");
    assert_eq!(serialize_pretty(&JsonValue::Object(vec![])), "{}");
    assert_eq!(
        serialize_pretty(&JsonValue::Array(vec![JsonValue::Array(vec![]), object(vec![])])),
        "[\n    [],\n    {}\n]"
    );
}

#[test]
fn one_member_indented() {
    assert_eq!(serialize_pretty(&object(vec![("a", integer(1))])), "{\n    \"a\": 1\n}");
}

#[test]
fn compact_text_has_no_whitespace() {
    let v = object(vec![
        ("a", JsonValue::Array(vec![integer(1), integer(2), JsonValue::Null])),
        ("b", object(vec![("c", text("d e"))])),
    ]);
    assert_eq!(serialize(&v), "{\"a\":[1,2,null],\"b\":{\"c\":\"d e\"}}");
}

#[test]
fn indented_text_nests_by_four_spaces() {
    let v = object(vec![
        ("a", JsonValue::Array(vec![integer(1), JsonValue::Array(vec![integer(2)])])),
        ("b", object(vec![("c", JsonValue::Bool(true))])),
    ]);
    assert_eq!(
        serialize_pretty(&v),
        "{\n    \"a\": [\n        1,\n        [\n            2\n        ]\n    ],\n    \"b\": {\n        \"c\": true\n    }\n}"
    );
}

#[test]
fn keys_are_escaped_and_keep_their_order() {
    let v = object(vec![("z\"", integer(1)), ("a\\", integer(2)), ("z\"", integer(3))]);
    assert_eq!(serialize(&v), "{\"z\\\"\":1,\"a\\\\\":2,\"z\\\"\":3}");
}

#[test]
fn the_methods_of_a_value() {
    let v = JsonValue::Array(vec![integer(1), integer(2)]);
    assert_eq!(v.to_json_string(), "[1,2]");
    assert_eq!(v.to_json_string_pretty(), "[\n    1,\n    2\n]");
    assert_eq!(v.to_json_string_indent(0), "[\n    1,\n    2\n]");
    assert_eq!(v.to_json_string_indent(2), "[\n            1,\n            2\n        ]");
    assert_eq!(integer(5).to_json_string_indent(3), "5");
}

#[test]
fn indentation_of_a_level() {
    assert_eq!(indent_str(0), "");
    assert_eq!(indent_str(1), "    ");
    assert_eq!(indent_str(3), "            ");
    assert_eq!(indent_str(25).len(), 100);
}
