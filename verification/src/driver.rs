//! The two operations that callers use: text to value, value to text.

use vstd::prelude::*;
use crate::parser::{parse_document, value_result_view, Parser};
use crate::roundtrip::{is_parsed_value, lemma_parse_document_parsed};
use crate::serializer::render;
use crate::value::{JsonError, JsonValue};

verus! {

/// The value that the JSON text `input` denotes. Any violation of the grammar,
/// and anything but whitespace behind the value, is an error.
pub fn deserialize(input: &str) -> (r: Result<JsonValue, JsonError>)
    ensures
        value_result_view(r) == parse_document(input@),
        r matches Ok(v) ==> is_parsed_value(v@),
{
    proof {
        lemma_parse_document_parsed(input@);
    }
    match Parser::new(input) {
        Ok(parser) => {
            let mut parser = parser;
            parser.parse()
        },
        Err(e) => Err(e),
    }
}

/// The indented text of `value`: four spaces for each level of nesting.
pub fn serialize_pretty(value: &JsonValue) -> (r: String)
    ensures
        r@ == render(value@, 0, true),
{
    value.to_json_string_pretty()
}

/// The compact text of `value`.
pub fn serialize(value: &JsonValue) -> (r: String)
    ensures
        r@ == render(value@, 0, false),
{
    value.to_json_string()
}

} // verus!
