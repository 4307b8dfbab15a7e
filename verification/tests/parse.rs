use lenient_json::number::JsonNumber;
use lenient_json::parser::{
    parse_chars, parse_json, parse_json_array, parse_json_object, parse_json_value, scalar_value,
};
use lenient_json::token::JsonToken;
use lenient_json::value::{JsonObject, JsonValue};

fn chars(text: &str) -> Vec<char> {
    text.chars().collect()
}

fn number(negative: bool, integer: &str, fraction: &str, exp_negative: bool, exp: &str) -> JsonNumber {
    JsonNumber {
        negative,
        integer: integer.to_string(),
        fraction: fraction.to_string(),
        exponent_negative: exp_negative,
        exponent: exp.to_string(),
    }
}

fn whole(integer: &str) -> JsonValue {
    JsonValue::Number(number(false, integer, "", false, ""))
}

fn invalid(text: &str) -> JsonValue {
    JsonValue::Invalid(text.to_string())
}

/// The double that a literal denotes: the integer part plus the fraction,
/// the sign applied once to the sum, then the power of ten.
fn to_f64(n: &JsonNumber) -> f64 {
    let mut magnitude = 0.0f64;
    for c in n.integer.chars() {
        magnitude = magnitude * 10.0 + c.to_digit(10).unwrap() as f64;
    }
    let mut fraction = 0.0f64;
    let mut divider = 10.0f64;
    for c in n.fraction.chars() {
        fraction += c.to_digit(10).unwrap() as f64 / divider;
        divider *= 10.0;
    }
    magnitude += fraction;
    if n.negative {
        magnitude *= -1.0;
    }
    let mut exponent: i32 = 0;
    for c in n.exponent.chars() {
        exponent = exponent.saturating_mul(10).saturating_add(c.to_digit(10).unwrap() as i32);
    }
    if n.exponent_negative {
        exponent = -exponent;
    }
    if exponent != 0 {
        magnitude *= 10f64.powi(exponent);
    }
    magnitude
}

fn as_f64(value: &JsonValue) -> f64 {
    match value {
        JsonValue::Number(n) => to_f64(n),
        other => panic!("not a number: {:?}", other),
    }
}

#[test]
fn array_of_three_numbers() {
    let value = parse_json("[1,2,3]");
    assert_eq!(value, JsonValue::Array(vec![whole("1"), whole("2"), whole("3")]));
    match &value {
        JsonValue::Array(items) => {
            assert_eq!(items.len(), 3);
            assert_eq!(as_f64(&items[0]), 1.0);
            assert_eq!(as_f64(&items[1]), 2.0);
            assert_eq!(as_f64(&items[2]), 3.0);
        }
        other => panic!("not an array: {:?}", other),
    }
}

#[test]
fn object_with_number_and_bool() {
    let value = parse_json("{\"a\":1,\"b\":false}");
    match &value {
        JsonValue::Object(object) => {
            assert_eq!(object.len(), 2);
            assert_eq!(object.get("a"), Some(&whole("1")));
            assert_eq!(as_f64(object.get("a").unwrap()), 1.0);
            assert_eq!(object.get("b"), Some(&JsonValue::Bool(false)));
            assert_eq!(object.get("c"), None);
        }
        other => panic!("not an object: {:?}", other),
    }
}

#[test]
fn negative_half_has_its_sign_once() {
    let value = parse_json("-0.5");
    assert_eq!(value, JsonValue::Number(number(true, "0", "5", false, "")));
    assert_eq!(as_f64(&value), -0.5);
}

#[test]
fn trailing_comma_is_recorded() {
    let value = parse_json("[1,]");
    match &value {
        JsonValue::Array(items) => {
            assert_eq!(as_f64(&items[0]), 1.0);
            assert!(matches!(items[1], JsonValue::Invalid(_)));
        }
        other => panic!("not an array: {:?}", other),
    }
    // The closing bracket stands where a value is expected, so it is taken
    // as that value, and the array then runs into the end of the input.
    assert_eq!(value, JsonValue::Array(vec![whole("1"), invalid("]"), invalid("<END>")]));
}

#[test]
fn unterminated_string_is_kept() {
    assert_eq!(parse_json("\"unterminated"), JsonValue::String("unterminated".to_string()));
}

#[test]
fn empty_input_is_a_diagnostic() {
    assert_eq!(parse_json(""), invalid("<END>"));
    assert_eq!(parse_json(" \t\n"), invalid("<END>"));
}

#[test]
fn thousand_levels_of_nesting() {
    let text = "[".repeat(1000);
    let value = parse_json(&text);
    let mut depth = 0;
    let mut current = &value;
    loop {
        match current {
            JsonValue::Array(items) => {
                depth += 1;
                assert_eq!(items.last(), Some(&invalid("<END>")));
                if items.len() == 1 {
                    break;
                }
                assert_eq!(items.len(), 2);
                current = &items[0];
            }
            other => panic!("not an array: {:?}", other),
        }
    }
    assert_eq!(depth, 1000);
}

#[test]
fn words_are_matched_exactly() {
    assert_eq!(parse_json("true"), JsonValue::Bool(true));
    assert_eq!(parse_json("false"), JsonValue::Bool(false));
    assert_eq!(parse_json("null"), JsonValue::Null);
    assert_eq!(parse_json("True"), invalid("True"));
    assert_eq!(parse_json("nulls"), invalid("nulls"));
    assert_eq!(parse_json("  \n\ttrue"), JsonValue::Bool(true));
}

#[test]
fn stray_tokens_become_diagnostics() {
    assert_eq!(parse_json("]"), invalid("]"));
    assert_eq!(parse_json("}"), invalid("}"));
    assert_eq!(parse_json(","), invalid(","));
    assert_eq!(parse_json(":"), invalid(":"));
    assert_eq!(parse_json("?"), invalid("?"));
    assert_eq!(parse_json("+5"), invalid("+"));
}

#[test]
fn only_the_first_value_is_read() {
    assert_eq!(parse_json("1 2"), whole("1"));
    assert_eq!(parse_chars(&chars("null true")), JsonValue::Null);
}

#[test]
fn nested_document() {
    let value = parse_json("[89.3, true, {}, [\"hey\", [79.3, null, -49.221e-2], false]]");
    let expected = JsonValue::Array(vec![
        JsonValue::Number(number(false, "89", "3", false, "")),
        JsonValue::Bool(true),
        JsonValue::Object(JsonObject::new()),
        JsonValue::Array(vec![
            JsonValue::String("hey".to_string()),
            JsonValue::Array(vec![
                JsonValue::Number(number(false, "79", "3", false, "")),
                JsonValue::Null,
                JsonValue::Number(number(true, "49", "221", true, "2")),
            ]),
            JsonValue::Bool(false),
        ]),
    ]);
    assert_eq!(value, expected);
}

#[test]
fn empty_containers() {
    assert_eq!(parse_json("[]"), JsonValue::Array(vec![]));
    assert_eq!(parse_json("{}"), JsonValue::Object(JsonObject::new()));
    assert_eq!(parse_json("[ ]"), JsonValue::Array(vec![]));
}

#[test]
fn array_left_open_ends_with_a_diagnostic() {
    assert_eq!(parse_json("[1"), JsonValue::Array(vec![whole("1"), invalid("<END>")]));
    assert_eq!(parse_json("["), JsonValue::Array(vec![invalid("<END>")]));
    assert_eq!(
        parse_json("[1,"),
        JsonValue::Array(vec![whole("1"), invalid("<END>"), invalid("<END>")])
    );
}

#[test]
fn missing_comma_is_recorded_and_the_value_kept() {
    assert_eq!(parse_json("[1 2]"), JsonValue::Array(vec![whole("1"), invalid("2"), whole("2")]));
    assert_eq!(
        parse_json("[1 \"a\"]"),
        JsonValue::Array(vec![whole("1"), invalid("\"a\""), JsonValue::String("a".to_string())])
    );
}

#[test]
fn double_comma_gives_a_diagnostic_value() {
    assert_eq!(
        parse_json("[1,,2]"),
        JsonValue::Array(vec![whole("1"), invalid(","), invalid("2"), whole("2")])
    );
}

#[test]
fn leading_comma_is_a_value_position() {
    assert_eq!(parse_json("[,1]"), JsonValue::Array(vec![invalid(","), invalid("1"), whole("1")]));
}

#[test]
fn array_parser_wants_an_opening_bracket() {
    let (items, end) = parse_json_array(&chars("1,2]"), 0);
    assert_eq!(items, vec![invalid("bad array start character")]);
    assert_eq!(end, 1);
    let (items, end) = parse_json_array(&chars(" [true] x"), 0);
    assert_eq!(items, vec![JsonValue::Bool(true)]);
    assert_eq!(end, 7);
}

#[test]
fn object_parser_wants_an_opening_brace() {
    let (object, end) = parse_json_object(&chars("[1]"), 0);
    assert_eq!(object.len(), 1);
    assert_eq!(object.get("INVALID MAP"), Some(&invalid("bad map start character")));
    assert_eq!(end, 1);
}

#[test]
fn later_key_overwrites_earlier() {
    let value = parse_json("{\"a\":1,\"b\":2,\"a\":3}");
    match &value {
        JsonValue::Object(object) => {
            assert_eq!(object.len(), 2);
            assert_eq!(object.get("a"), Some(&whole("3")));
            assert_eq!(object.get("b"), Some(&whole("2")));
            assert_eq!(object.entries[0].0, "a");
            assert_eq!(object.entries[1].0, "b");
        }
        other => panic!("not an object: {:?}", other),
    }
}

#[test]
fn key_that_is_no_string_goes_under_invalid() {
    let value = parse_json("{1:2}");
    match &value {
        JsonValue::Object(object) => {
            assert_eq!(object.len(), 1);
            assert_eq!(object.get("INVALID"), Some(&invalid("1")));
        }
        other => panic!("not an object: {:?}", other),
    }
    let value = parse_json("{[1]:2}");
    match &value {
        JsonValue::Object(object) => {
            assert_eq!(object.get("INVALID"), Some(&invalid("[\n  1\n]")));
        }
        other => panic!("not an object: {:?}", other),
    }
}

#[test]
fn missing_colon_is_recorded() {
    let value = parse_json("{\"a\" 1, \"b\":2}");
    match &value {
        JsonValue::Object(object) => {
            assert_eq!(object.get("INVALID"), Some(&invalid("1")));
            assert_eq!(object.get("b"), Some(&whole("2")));
            assert_eq!(object.get("a"), None);
            assert_eq!(object.len(), 2);
        }
        other => panic!("not an object: {:?}", other),
    }
}

#[test]
fn object_left_open_ends_with_a_diagnostic() {
    let value = parse_json("{\"a\":1");
    match &value {
        JsonValue::Object(object) => {
            assert_eq!(object.len(), 2);
            assert_eq!(object.get("a"), Some(&whole("1")));
            assert_eq!(object.get("<END>"), Some(&invalid("<END>")));
        }
        other => panic!("not an object: {:?}", other),
    }
}

#[test]
fn missing_comma_in_object_is_recorded_under_the_token() {
    let value = parse_json("{\"a\":1 \"b\":2}");
    match &value {
        JsonValue::Object(object) => {
            assert_eq!(object.len(), 3);
            assert_eq!(object.get("a"), Some(&whole("1")));
            assert_eq!(object.get("\"b\""), Some(&invalid("\"b\"")));
            assert_eq!(object.get("b"), Some(&whole("2")));
        }
        other => panic!("not an object: {:?}", other),
    }
}

#[test]
fn value_parser_reports_the_position_behind_the_value() {
    let input = chars("  [1, 2]  true");
    let (value, end) = parse_json_value(&input, 0);
    assert_eq!(value, JsonValue::Array(vec![whole("1"), whole("2")]));
    assert_eq!(end, 8);
    let (value, end) = parse_json_value(&input, end);
    assert_eq!(value, JsonValue::Bool(true));
    assert_eq!(end, 14);
    let (value, end) = parse_json_value(&input, end);
    assert_eq!(value, invalid("<END>"));
    assert_eq!(end, 14);
    let (value, end) = parse_json_value(&input, 99);
    assert_eq!(value, invalid("<END>"));
    assert_eq!(end, 99);
}

#[test]
fn scalar_values_of_tokens() {
    assert_eq!(scalar_value(JsonToken::Invalid('#')), invalid("#"));
    assert_eq!(scalar_value(JsonToken::End), invalid("<END>"));
    assert_eq!(scalar_value(JsonToken::Colon), invalid(":"));
    assert_eq!(scalar_value(JsonToken::Identifier("null".to_string())), JsonValue::Null);
    assert_eq!(scalar_value(JsonToken::String("x".to_string())), JsonValue::String("x".to_string()));
}
