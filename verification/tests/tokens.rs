use lenient_json::number::{parse_json_number, JsonNumber};
use lenient_json::scan::{skip_whitespace, take_run, CharClass};
use lenient_json::text::chars_of;
use lenient_json::token::{next_token, parse_json_string, unescape_char, JsonToken};

fn chars(text: &str) -> Vec<char> {
    text.chars().collect()
}

fn number(negative: bool, integer: &str, fraction: &str, exp_negative: bool, exp: &str) -> JsonNumber {
    JsonNumber {
        negative,
        integer: integer.to_string(),
        fraction: fraction.to_string(),
        exponent_negative: exp_negative,
        exponent: exp.to_string(),
    }
}

#[test]
fn chars_of_keeps_order_and_unicode() {
    assert_eq!(chars_of("a\u{4eac}b"), vec!['a', '\u{4eac}', 'b']);
    assert_eq!(chars_of(""), Vec::<char>::new());
}

#[test]
fn whitespace_is_space_tab_and_line_feed_only() {
    assert_eq!(skip_whitespace(&chars(" \t\n x"), 0), 4);
    assert_eq!(skip_whitespace(&chars("\r x"), 0), 0);
    assert_eq!(skip_whitespace(&chars("\u{a0}x"), 0), 0);
    assert_eq!(skip_whitespace(&chars("x  "), 1), 3);
    assert_eq!(skip_whitespace(&chars("x"), 0), 0);
    assert_eq!(skip_whitespace(&chars(""), 0), 0);
    assert_eq!(skip_whitespace(&chars("  "), 7), 7);
}

#[test]
fn skipping_whitespace_twice_changes_nothing() {
    let input = chars("  \n\t  a  b");
    let once = skip_whitespace(&input, 0);
    assert_eq!(once, 6);
    assert_eq!(skip_whitespace(&input, once), once);
}

#[test]
fn runs_are_maximal() {
    assert_eq!(take_run(&chars("123a"), 0, CharClass::Digit), ("123".to_string(), 3));
    assert_eq!(take_run(&chars("abc1"), 0, CharClass::Alphabetic), ("abc".to_string(), 3));
    assert_eq!(take_run(&chars("abc1"), 3, CharClass::Alphabetic), ("".to_string(), 3));
    assert_eq!(take_run(&chars("\u{e9}t\u{e9}!"), 0, CharClass::Alphabetic), ("\u{e9}t\u{e9}".to_string(), 3));
    assert_eq!(take_run(&chars("\u{0663}"), 0, CharClass::Digit), ("".to_string(), 0));
    assert!(CharClass::Alphabetic.test('x'));
    assert!(!CharClass::Alphabetic.test('1'));
    assert!(CharClass::Digit.test('0'));
    assert!(CharClass::Digit.test('9'));
    assert!(!CharClass::Digit.test('/'));
    assert!(!CharClass::Digit.test(':'));
    assert!(CharClass::Whitespace.test('\n'));
    assert!(!CharClass::Whitespace.test('\r'));
}

#[test]
fn number_with_all_parts() {
    let (n, end) = parse_json_number(&chars("-12.50e+3,"), 0);
    assert_eq!(n, number(true, "12", "50", false, "3"));
    assert_eq!(end, 9);
    let (n, end) = parse_json_number(&chars("9.25e-2abc"), 0);
    assert_eq!(n, number(false, "9", "25", true, "2"));
    assert_eq!(end, 7);
    let (n, end) = parse_json_number(&chars("7E10"), 0);
    assert_eq!(n, number(false, "7", "", false, "10"));
    assert_eq!(end, 4);
}

#[test]
fn empty_digit_runs_count_as_zero() {
    assert_eq!(parse_json_number(&chars("-"), 0), (number(true, "", "", false, ""), 1));
    assert_eq!(parse_json_number(&chars("-.5"), 0), (number(true, "", "5", false, ""), 3));
    assert_eq!(parse_json_number(&chars("1."), 0), (number(false, "1", "", false, ""), 2));
    assert_eq!(parse_json_number(&chars("1e"), 0), (number(false, "1", "", false, ""), 2));
    assert_eq!(parse_json_number(&chars("1e-"), 0), (number(false, "1", "", true, ""), 3));
    assert_eq!(parse_json_number(&chars("x"), 0), (number(false, "", "", false, ""), 0));
    assert_eq!(parse_json_number(&chars(""), 0), (number(false, "", "", false, ""), 0));
    assert_eq!(parse_json_number(&chars("12"), 5), (number(false, "", "", false, ""), 5));
}

#[test]
fn leading_plus_is_no_part_of_a_number() {
    assert_eq!(parse_json_number(&chars("+5"), 0), (number(false, "", "", false, ""), 0));
    assert_eq!(next_token(&chars("+5"), 0), (JsonToken::Invalid('+'), 1));
}

#[test]
fn number_stops_at_a_second_point_or_sign() {
    assert_eq!(parse_json_number(&chars("1.2.3"), 0), (number(false, "1", "2", false, ""), 3));
    assert_eq!(parse_json_number(&chars("--1"), 0), (number(true, "", "", false, ""), 1));
    assert_eq!(parse_json_number(&chars("1e+-2"), 0), (number(false, "1", "", false, ""), 3));
}

#[test]
fn long_digit_runs_are_kept_whole() {
    let (n, end) = parse_json_number(&chars("123456789012345678901234567890"), 0);
    assert_eq!(n.integer, "123456789012345678901234567890");
    assert_eq!(end, 30);
}

#[test]
fn number_text_is_the_literal() {
    assert_eq!(number(true, "0", "5", false, "").to_string(), "-0.5");
    assert_eq!(number(false, "12", "", false, "").to_string(), "12");
    assert_eq!(number(false, "1", "25", true, "3").to_string(), "1.25e-3");
    assert_eq!(number(false, "1", "", false, "10").to_string(), "1e10");
    assert_eq!(number(true, "", "", false, "").to_string(), "-");
    assert_eq!(number(false, "", "", true, "").to_string(), "e-");
}

#[test]
fn number_text_reads_back_as_the_number() {
    for text in ["-0.5", "12", "1.25e-3", "1e10", "-", "007.100", "0.0e0"] {
        let (first, end) = parse_json_number(&chars(text), 0);
        assert_eq!(end, text.chars().count());
        let written = first.to_string();
        let (second, end) = parse_json_number(&chars(&written), 0);
        assert_eq!(end, written.chars().count());
        assert_eq!(first, second);
    }
}

#[test]
fn exponent_as_machine_integer() {
    assert_eq!(number(false, "1", "", false, "").exponent_i32(), 0);
    assert_eq!(number(false, "1", "", false, "12").exponent_i32(), 12);
    assert_eq!(number(false, "1", "", true, "12").exponent_i32(), -12);
    assert_eq!(number(false, "1", "", false, "0012").exponent_i32(), 12);
    assert_eq!(number(false, "1", "", false, "2147483647").exponent_i32(), i32::MAX);
    assert_eq!(number(false, "1", "", false, "2147483646").exponent_i32(), 2147483646);
    assert_eq!(number(false, "1", "", false, "2147483648").exponent_i32(), i32::MAX);
    assert_eq!(number(false, "1", "", false, "99999999999999999999999").exponent_i32(), i32::MAX);
    assert_eq!(number(false, "1", "", true, "2147483647").exponent_i32(), -2147483647);
    assert_eq!(number(false, "1", "", true, "2147483648").exponent_i32(), i32::MIN);
    assert_eq!(number(false, "1", "", true, "99999999999999999999999").exponent_i32(), i32::MIN);
}

#[test]
fn string_with_escapes() {
    let input = chars("\"test\\n\\\"string\"a");
    let (text, end) = parse_json_string(&input, 0);
    assert_eq!(text, "test\n\"string");
    assert_eq!(end, 16);
    assert_eq!(input[end], 'a');
}

#[test]
fn every_known_escape() {
    let (text, end) = parse_json_string(&chars("\"\\\"\\\\\\/\\b\\f\\n\\r\\t\""), 0);
    assert_eq!(text, "\"\\/\u{8}\u{c}\n\r\t");
    assert_eq!(end, 18);
    assert_eq!(unescape_char('n'), '\n');
    assert_eq!(unescape_char('b'), '\u{8}');
    assert_eq!(unescape_char('f'), '\u{c}');
    assert_eq!(unescape_char('/'), '/');
}

#[test]
fn unknown_escape_is_the_replacement_character() {
    let (text, end) = parse_json_string(&chars("\"a\\u0041b\""), 0);
    assert_eq!(text, "a\u{fffd}0041b");
    assert_eq!(end, 10);
    assert_eq!(unescape_char('u'), '\u{fffd}');
    assert_eq!(unescape_char('x'), '\u{fffd}');
}

#[test]
fn string_without_a_quote_reads_nothing() {
    assert_eq!(parse_json_string(&chars("abc\""), 0), ("".to_string(), 0));
    assert_eq!(parse_json_string(&chars(""), 0), ("".to_string(), 0));
    assert_eq!(parse_json_string(&chars("\"a\""), 9), ("".to_string(), 9));
}

#[test]
fn string_that_the_input_ends_in() {
    assert_eq!(parse_json_string(&chars("\"abc"), 0), ("abc".to_string(), 4));
    assert_eq!(parse_json_string(&chars("\""), 0), ("".to_string(), 1));
    assert_eq!(parse_json_string(&chars("\"abc\\"), 0), ("abc".to_string(), 5));
    assert_eq!(parse_json_string(&chars("\"abc\\\""), 0), ("abc\"".to_string(), 6));
}

#[test]
fn structural_tokens() {
    let input = chars(" { } [ ] , : ");
    let mut pos = 0;
    let mut seen = Vec::new();
    loop {
        let (token, next) = next_token(&input, pos);
        if token == JsonToken::End {
            assert_eq!(next, input.len());
            break;
        }
        seen.push(token);
        pos = next;
    }
    assert_eq!(
        seen,
        vec![
            JsonToken::ObjectOpen,
            JsonToken::ObjectClose,
            JsonToken::ArrayOpen,
            JsonToken::ArrayClose,
            JsonToken::Comma,
            JsonToken::Colon,
        ]
    );
}

#[test]
fn literal_tokens() {
    assert_eq!(next_token(&chars("  12.5]"), 0), (JsonToken::Number(number(false, "12", "5", false, "")), 6));
    assert_eq!(next_token(&chars("-x"), 0), (JsonToken::Number(number(true, "", "", false, "")), 1));
    assert_eq!(next_token(&chars("\"hi\" "), 0), (JsonToken::String("hi".to_string()), 4));
    assert_eq!(next_token(&chars("true,"), 0), (JsonToken::Identifier("true".to_string()), 4));
    assert_eq!(next_token(&chars("abc123"), 0), (JsonToken::Identifier("abc".to_string()), 3));
    assert_eq!(next_token(&chars("\u{e9}t\u{e9}"), 0), (JsonToken::Identifier("\u{e9}t\u{e9}".to_string()), 3));
    assert_eq!(next_token(&chars("#1"), 0), (JsonToken::Invalid('#'), 1));
    assert_eq!(next_token(&chars("\r"), 0), (JsonToken::Invalid('\r'), 1));
    assert_eq!(next_token(&chars(""), 0), (JsonToken::End, 0));
    assert_eq!(next_token(&chars("   "), 1), (JsonToken::End, 3));
    assert_eq!(next_token(&chars("ab"), 5), (JsonToken::End, 5));
}

#[test]
fn looking_ahead_takes_nothing() {
    let input = chars("[1]");
    let first = next_token(&input, 0);
    let again = next_token(&input, 0);
    assert_eq!(first, again);
    assert_eq!(first, (JsonToken::ArrayOpen, 1));
}

#[test]
fn token_texts() {
    assert_eq!(JsonToken::ArrayOpen.to_string(), "[");
    assert_eq!(JsonToken::ArrayClose.to_string(), "]");
    assert_eq!(JsonToken::Comma.to_string(), ",");
    assert_eq!(JsonToken::ObjectOpen.to_string(), "{");
    assert_eq!(JsonToken::ObjectClose.to_string(), "}");
    assert_eq!(JsonToken::Colon.to_string(), ":");
    assert_eq!(JsonToken::Number(number(true, "1", "5", false, "")).to_string(), "-1.5");
    assert_eq!(JsonToken::String("a b".to_string()).to_string(), "\"a b\"");
    assert_eq!(JsonToken::Identifier("word".to_string()).to_string(), "word");
    assert_eq!(JsonToken::Invalid('#').to_string(), "<INVALID VALUE '#'>");
    assert_eq!(JsonToken::End.to_string(), "<END>");
}
