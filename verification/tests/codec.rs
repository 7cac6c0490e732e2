use json_codec::json::parser::{codepoint_from_hex, flatten, parse_json};
use json_codec::json::{JsonNode, NumberLit, ParseError};

fn num(x: f64) -> JsonNode {
    JsonNode::Number(NumberLit { bits: x.to_bits(), text: x.to_string() })
}

#[test]
fn test_null_ok() {
    assert_eq!(JsonNode::from_str("null"), JsonNode::Null);
}

#[test]
fn test_number_ok() {
    // we provide an extra character to make parser realize the number is complete.
    assert_eq!(JsonNode::from_str("0 "), num(0.0));
    assert_eq!(JsonNode::from_str("+0 "), num(0.0));
    assert_eq!(JsonNode::from_str("-0 "), num(0.0));

    assert_eq!(JsonNode::from_str(".0 "), num(0.0));
    assert_eq!(JsonNode::from_str("0.0 "), num(0.0));
    assert_eq!(JsonNode::from_str("00.000 "), num(0.0));

    assert_eq!(JsonNode::from_str("1 "), num(1.0));
    assert_eq!(JsonNode::from_str("00012345 "), num(12345.0));
    assert_eq!(JsonNode::from_str("12.345000 "), num(12.345));
    assert_eq!(JsonNode::from_str("67e89 "), num(67e89));
    assert_eq!(JsonNode::from_str("-67e89 "), num(-67e89));
    assert_eq!(JsonNode::from_str("5.67e-89 "), num(5.67e-89));
}

#[test]
fn test_empty_string_ok() {
    assert_eq!(JsonNode::from_str("\"\""), JsonNode::String("".to_string()));
}

#[test]
fn test_strings_ok() {
    assert_eq!(JsonNode::from_str("\" \""), JsonNode::String(" ".to_string()));
    assert_eq!(JsonNode::from_str("\"#€%&/()=\""), JsonNode::String("#€%&/()=".to_string()));
}

#[test]
fn test_escaped_strings_ok() {
    assert_eq!(JsonNode::from_str("\"\\\"\""), JsonNode::String("\"".to_string()));
    assert_eq!(JsonNode::from_str("\"\\\\\""), JsonNode::String("\\".to_string()));
    assert_eq!(JsonNode::from_str("\"\\/\""), JsonNode::String("/".to_string()));
    assert_eq!(JsonNode::from_str("\"\\b\""), JsonNode::String("\08".to_string()));
    assert_eq!(JsonNode::from_str("\"\\n\""), JsonNode::String("\n".to_string()));
    assert_eq!(JsonNode::from_str("\"\\r\""), JsonNode::String("\r".to_string()));
    assert_eq!(JsonNode::from_str("\"\\t\""), JsonNode::String("\t".to_string()));
    assert_eq!(JsonNode::from_str("\"\\u211D\""), JsonNode::String("\u{211D}".to_string()));
}

#[test]
fn test_empty_list_ok() {
    let expected = Vec::new();
    assert_eq!(JsonNode::from_str("[]"), JsonNode::Array(expected));
}

#[test]
fn test_lists_within_lists_ok() {
    let mut expected = Vec::new();
    expected.push(JsonNode::Array(Vec::new()));
    assert_eq!(JsonNode::from_str("[[]]"), JsonNode::Array(expected));

    let mut expected = Vec::new();
    expected.push(JsonNode::Array(Vec::new()));
    expected.push(JsonNode::Array(Vec::new()));
    assert_eq!(JsonNode::from_str("[[],[]]"), JsonNode::Array(expected));

    let mut expected = Vec::new();
    let mut inner = Vec::new();
    inner.push(JsonNode::Array(Vec::new()));
    expected.push(JsonNode::Array(inner));
    assert_eq!(JsonNode::from_str("[[[]]]"), JsonNode::Array(expected));
}

#[test]
fn test_empty_object_ok() {
    let expected = Vec::new();
    assert_eq!(JsonNode::from_str("{}"), JsonNode::Object(expected));
}

#[test]
fn test_object_ok() {
    let mut expected = Vec::new();
    expected.push(("foo".to_string(), JsonNode::Null));
    assert_eq!(JsonNode::from_str("{\"foo\":null}"), JsonNode::Object(expected));
}

#[test]
fn test_output_format_ok() {
    let json_string = "[1.23,null,\"foo\"]";
    let json = JsonNode::from_str(json_string);
    let output = json.to_text();
    assert_eq!(output.as_str(), json_string);
}

// Malformed inputs: a comma that does not separate two elements fails the
// whole decode, with no partial array.
#[test]
fn test_list_with_a_comma_only_is_malformed() {
    assert_eq!(parse_json(b"[,]"), Err(ParseError::Malformed));
}

#[test]
fn test_list_with_extra_comma_is_malformed() {
    assert_eq!(parse_json(b"[[],]"), Err(ParseError::Malformed));
}

#[test]
fn test_list_starting_with_comma_is_malformed() {
    assert_eq!(parse_json(b"[,[]]"), Err(ParseError::Malformed));
}

// Empty input is incomplete, not malformed: more bytes might resolve it.
#[test]
fn test_empty_input_is_incomplete() {
    assert_eq!(parse_json(b""), Err(ParseError::Incomplete));
}

#[test]
fn test_bad_syntax_is_malformed() {
    assert_eq!(parse_json(b"x"), Err(ParseError::Malformed));
}

#[test]
fn test_truncated_inputs_are_incomplete() {
    assert_eq!(parse_json(b"nul"), Err(ParseError::Incomplete));
    assert_eq!(parse_json(b"12"), Err(ParseError::Incomplete));
    assert_eq!(parse_json(b"12."), Err(ParseError::Incomplete));
    assert_eq!(parse_json(b"12e"), Err(ParseError::Incomplete));
    assert_eq!(parse_json(b"\"abc"), Err(ParseError::Incomplete));
    assert_eq!(parse_json(b"\"a\\u21"), Err(ParseError::Incomplete));
    assert_eq!(parse_json(b"[1,2"), Err(ParseError::Incomplete));
    assert_eq!(parse_json(b"{\"a\":1"), Err(ParseError::Incomplete));
    assert_eq!(parse_json(b"{\"a\""), Err(ParseError::Incomplete));
}

#[test]
fn test_more_malformed_inputs() {
    assert_eq!(parse_json(b"nuxl"), Err(ParseError::Malformed));
    assert_eq!(parse_json(b". "), Err(ParseError::Malformed));
    assert_eq!(parse_json(b"- "), Err(ParseError::Malformed));
    assert_eq!(parse_json(b"\"\\x\""), Err(ParseError::Malformed));
    assert_eq!(parse_json(b"\"\\uZZZZ\""), Err(ParseError::Malformed));
    assert_eq!(parse_json(b"\"\\uD800\""), Err(ParseError::Malformed));
    assert_eq!(parse_json(b"{\"a\"1}"), Err(ParseError::Malformed));
    assert_eq!(parse_json(b"{1:2}"), Err(ParseError::Malformed));
    assert_eq!(parse_json(b"[1 2]"), Err(ParseError::Malformed));
    // string content that is not valid UTF-8 cannot be carried
    assert_eq!(parse_json(b"\"\xff\""), Err(ParseError::Malformed));
}

// The entry production never requires consuming the whole input: the
// unconsumed suffix comes back to the caller.
#[test]
fn test_remainder_is_returned() {
    let (rest, node) = parse_json(b"null  [1]").expect("decodes");
    assert_eq!(node, JsonNode::Null);
    assert_eq!(rest, &b"  [1]"[..]);

    let (rest, node) = parse_json(b"[1,2]tail").expect("decodes");
    assert_eq!(node, JsonNode::Array(vec![num(1.0), num(2.0)]));
    assert_eq!(rest, &b"tail"[..]);
}

// Duplicate object keys: the value from the key's first source occurrence
// wins; later duplicates are parsed but discarded.
#[test]
fn test_duplicate_keys_first_occurrence_wins() {
    let expected = JsonNode::Object(vec![("a".to_string(), num(1.0))]);
    assert_eq!(JsonNode::from_str("{\"a\":1,\"a\":2}"), expected);

    let expected = JsonNode::Object(vec![
        ("a".to_string(), num(1.0)),
        ("b".to_string(), num(3.0)),
    ]);
    assert_eq!(JsonNode::from_str("{\"a\":1,\"b\":3,\"a\":2}"), expected);
}

// Matching bracket counts at arbitrary depth round-trip.
#[test]
fn test_nesting_round_trips() {
    let text = "[[[[[[]]]]]]";
    let node = JsonNode::from_str(text);
    assert_eq!(node.to_text().as_str(), text);
}

// A mixed tree survives the encode/decode round trip.
#[test]
fn test_round_trip_mixed_tree() {
    let v = JsonNode::Array(vec![
        num(1.23),
        JsonNode::Null,
        JsonNode::String("foo".to_string()),
        JsonNode::Object(vec![
            ("k".to_string(), JsonNode::Array(Vec::new())),
            ("l".to_string(), num(-0.5)),
        ]),
    ]);
    let text = v.to_text();
    let mut bytes = text.as_bytes().to_vec();
    bytes.push(b' ');
    let (rest, back) = parse_json(&bytes).expect("decodes");
    assert_eq!(rest, &b" "[..]);
    assert_eq!(back, v);
}

// The serializer renders numbers from their bits, compactly and without
// whitespace.
#[test]
fn test_to_text_of_built_values() {
    assert_eq!(num(12.345).to_text().as_str(), "12.345");
    assert_eq!(num(-0.0).to_text().as_str(), "-0");
    assert_eq!(JsonNode::Null.to_text().as_str(), "null");
    let v = JsonNode::Object(vec![("a".to_string(), num(1.0))]);
    assert_eq!(v.to_text().as_str(), "{\"a\":1}");
}

#[test]
fn test_flatten_concatenates() {
    let flat = flatten(vec![vec![1u8, 2], vec![], vec![3, 4, 5]]);
    assert_eq!(flat, vec![1u8, 2, 3, 4, 5]);
    let flat: Vec<u8> = flatten(Vec::new());
    assert_eq!(flat, Vec::<u8>::new());
}

#[test]
fn test_codepoint_from_hex_encodes_utf8() {
    assert_eq!(codepoint_from_hex(b"211D"), "\u{211D}".as_bytes().to_vec());
    assert_eq!(codepoint_from_hex(b"0041"), b"A".to_vec());
    assert_eq!(codepoint_from_hex(b"00e9"), "é".as_bytes().to_vec());
}

// Numbers compare as the floats they denote: the two zeros are equal.
#[test]
fn test_zero_signs_compare_equal() {
    assert_eq!(num(-0.0), num(0.0));
    assert!(num(1.0) != num(2.0));
}

// Edges of the permissive numeric token: a trailing dot is part of the
// token, an exponent marker without digits is not.
#[test]
fn test_numeric_token_edges() {
    let (rest, node) = parse_json(b"67e ").expect("decodes");
    assert_eq!(node, num(67.0));
    assert_eq!(rest, &b"e "[..]);

    let (rest, node) = parse_json(b"5. ").expect("decodes");
    assert_eq!(node, num(5.0));
    assert_eq!(rest, &b" "[..]);

    let (rest, node) = parse_json(b"0.e5 ").expect("decodes");
    assert_eq!(node, num(0.0));
    assert_eq!(rest, &b" "[..]);

    let (rest, node) = parse_json(b"1e+5 ").expect("decodes");
    assert_eq!(node, num(1e5));
    assert_eq!(rest, &b" "[..]);
}
