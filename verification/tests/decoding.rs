use compact_notation::{parse, Date, Number, Object, Value};

fn number(text: &str) -> Value {
    Value::Number(Number::from_text(text).expect("a numeral"))
}

fn text(value: &str) -> Value {
    Value::String(value.to_owned())
}

fn failure(input: &str) -> (String, usize) {
    let error = parse(input).expect_err("a failure");
    (error.message, error.position)
}

#[test]
fn parses_object() {
    let value = parse("(status: ok, count: 3)").unwrap();
    if let Value::Object(map) = value {
        assert_eq!(map.get("status"), Some(&Value::String("ok".to_owned())));
    } else {
        panic!("expected object");
    }
}

#[test]
fn parses_datetime() {
    let value = parse("(at: 2024-03-01/18:22:10.001)").unwrap();
    if let Value::Object(map) = value {
        assert!(matches!(map.get("at").unwrap(), Value::Date(_)));
    } else {
        panic!("expected object");
    }
}

#[test]
fn object_holds_both_entries() {
    let value = parse("(status: ok, count: 3)").unwrap();
    let mut expected = Object::new();
    expected.insert("status".to_owned(), text("ok"));
    expected.insert("count".to_owned(), number("3"));
    assert_eq!(value, Value::Object(expected));
    if let Value::Object(map) = value {
        assert_eq!(map.len(), 2);
        assert_eq!(map.get("count"), Some(&number("3")));
        assert_eq!(map.get("missing"), None);
    } else {
        panic!("expected object");
    }
}

#[test]
fn date_holds_the_fields_of_the_stamp() {
    let value = parse("(at: 2024-03-01/18:22:10.001)").unwrap();
    let expected = Date::new(2024, 3, 1, 18, 22, 10, 1).unwrap();
    if let Value::Object(map) = value {
        assert_eq!(map.get("at"), Some(&Value::Date(expected)));
    } else {
        panic!("expected object");
    }
    let date = match parse("1999-12-31/23:59:58.987").unwrap() {
        Value::Date(date) => date,
        other => panic!("expected a date, got {:?}", other),
    };
    assert_eq!(date.year(), 1999);
    assert_eq!(date.month(), 12);
    assert_eq!(date.day(), 31);
    assert_eq!(date.hour(), 23);
    assert_eq!(date.minute(), 59);
    assert_eq!(date.second(), 58);
    assert_eq!(date.millisecond(), 987);
}

#[test]
fn leap_second_is_second_sixty() {
    let date = match parse("2016-12-31/23:59:60.500").unwrap() {
        Value::Date(date) => date,
        other => panic!("expected a date, got {:?}", other),
    };
    assert_eq!(date.second(), 60);
    assert_eq!(date.millisecond(), 500);
    assert_eq!(date, Date::new(2016, 12, 31, 23, 59, 60, 500).unwrap());
}

#[test]
fn leap_day_needs_a_leap_year() {
    assert!(matches!(parse("2024-02-29/00:00:00.000"), Ok(Value::Date(_))));
    assert!(matches!(parse("2000-02-29/00:00:00.000"), Ok(Value::Date(_))));
    assert_eq!(
        failure("2023-02-29/00:00:00.000"),
        ("Invalid number boundary".to_owned(), 10)
    );
    assert_eq!(
        failure("1900-02-29/00:00:00.000"),
        ("Invalid number boundary".to_owned(), 10)
    );
}

#[test]
fn stamp_out_of_range_is_no_date() {
    for input in [
        "2024-13-01/00:00:00.000",
        "2024-00-10/00:00:00.000",
        "2024-04-31/00:00:00.000",
        "2024-01-00/00:00:00.000",
        "2024-01-01/24:00:00.000",
        "2024-01-01/00:60:00.000",
        "2024-01-01/00:00:61.000",
    ] {
        assert_eq!(failure(input), ("Invalid number boundary".to_owned(), 10), "{}", input);
    }
}

#[test]
fn stamp_must_end_the_token() {
    assert_eq!(
        failure("2024-03-01/18:22:10.001x"),
        ("Invalid number boundary".to_owned(), 10)
    );
    assert!(matches!(parse("2024-03-01/18:22:10.001 "), Ok(Value::Date(_))));
    assert!(matches!(parse("[2024-03-01/18:22:10.001]"), Ok(Value::Array(_))));
}

#[test]
fn stamp_cut_through_a_character_is_no_date() {
    let input = "1234567890123456789012\u{e9}";
    assert_eq!(failure(input), ("Invalid number boundary".to_owned(), 22));
}

#[test]
fn parses_array() {
    let value = parse("[1|2|3]").unwrap();
    assert_eq!(value, Value::Array(vec![number("1"), number("2"), number("3")]));
}

#[test]
fn parses_empty_containers() {
    assert_eq!(parse("[]").unwrap(), Value::Array(vec![]));
    assert_eq!(parse("[ \n ]").unwrap(), Value::Array(vec![]));
    assert_eq!(parse("()").unwrap(), Value::Object(Object::new()));
    assert_eq!(parse("( \t)").unwrap(), Value::Object(Object::new()));
}

#[test]
fn parses_nested_values() {
    let value = parse(" ( list : [ true | ( x : null ) | 'a b' ] ) ").unwrap();
    let mut inner = Object::new();
    inner.insert("x".to_owned(), Value::Null);
    let mut outer = Object::new();
    outer.insert(
        "list".to_owned(),
        Value::Array(vec![Value::Bool(true), Value::Object(inner), text("a b")]),
    );
    assert_eq!(value, Value::Object(outer));
}

#[test]
fn keyword_needs_a_boundary() {
    assert_eq!(parse("nullish").unwrap(), text("nullish"));
    assert_eq!(parse("truex").unwrap(), text("truex"));
    assert_eq!(parse("falsehood").unwrap(), text("falsehood"));
    assert_eq!(parse("null").unwrap(), Value::Null);
    assert_eq!(parse("true").unwrap(), Value::Bool(true));
    assert_eq!(parse("false").unwrap(), Value::Bool(false));
    assert_eq!(parse("[true|false|null]").unwrap(), Value::Array(vec![
        Value::Bool(true),
        Value::Bool(false),
        Value::Null,
    ]));
}

#[test]
fn keyword_in_key_position_is_a_string() {
    let value = parse("(true: 1, 12: 2)").unwrap();
    let mut expected = Object::new();
    expected.insert("true".to_owned(), number("1"));
    expected.insert("12".to_owned(), number("2"));
    assert_eq!(value, Value::Object(expected));
}

#[test]
fn empty_input_fails_at_the_start() {
    assert_eq!(failure(""), ("Unexpected end of input".to_owned(), 0));
    assert_eq!(failure("   "), ("Unexpected end of input".to_owned(), 3));
}

#[test]
fn later_duplicate_key_wins() {
    let value = parse("(a:1,a:2)").unwrap();
    let mut expected = Object::new();
    expected.insert("a".to_owned(), number("2"));
    assert_eq!(value, Value::Object(expected));
    if let Value::Object(map) = value {
        assert_eq!(map.len(), 1);
        assert_eq!(map.get("a"), Some(&number("2")));
    } else {
        panic!("expected object");
    }
}

#[test]
fn trailing_content_fails() {
    assert_eq!(failure("true false"), ("Unexpected trailing content".to_owned(), 5));
    assert_eq!(failure("[1] ,"), ("Unexpected trailing content".to_owned(), 4));
}

#[test]
fn short_unicode_escape_fails() {
    assert_eq!(failure("'\\u12'"), ("Invalid unicode escape".to_owned(), 3));
    assert_eq!(failure("'\\u12"), ("Invalid unicode escape".to_owned(), 3));
}

#[test]
fn unicode_escape_needs_four_hex_digits() {
    assert_eq!(parse("'\\u0041'").unwrap(), text("A"));
    assert_eq!(parse("'\\u00e9\\u20AC'").unwrap(), text("\u{e9}\u{20ac}"));
    assert_eq!(failure("'\\u00g1'"), ("Invalid unicode escape".to_owned(), 3));
    assert_eq!(failure("'\\u+123'"), ("Invalid unicode escape".to_owned(), 3));
    assert_eq!(failure("'\\u1\u{e9}\u{e9}'"), ("Invalid unicode escape".to_owned(), 3));
}

#[test]
fn surrogate_escape_fails() {
    assert_eq!(failure("'\\ud800'"), ("Invalid unicode escape".to_owned(), 7));
    assert_eq!(failure("'\\udfff'"), ("Invalid unicode escape".to_owned(), 7));
    assert_eq!(failure("'\\uD800'"), ("Invalid unicode escape".to_owned(), 7));
    assert_eq!(parse("'\\ud7ff'").unwrap(), text("\u{d7ff}"));
    assert_eq!(parse("'\\ue000'").unwrap(), text("\u{e000}"));
}

#[test]
fn escapes_stand_for_their_characters() {
    assert_eq!(
        parse("'\\\"\\'\\\\\\/\\b\\f\\n\\r\\t'").unwrap(),
        text("\"'\\/\u{8}\u{c}\n\r\t")
    );
    assert_eq!(parse("\"it's\"").unwrap(), text("it's"));
    assert_eq!(parse("'say \"hi\"'").unwrap(), text("say \"hi\""));
}

#[test]
fn unknown_escape_fails() {
    assert_eq!(failure("'\\x'"), ("Unknown escape sequence".to_owned(), 3));
}

#[test]
fn escape_at_the_end_fails() {
    assert_eq!(failure("'abc\\"), ("Invalid escape".to_owned(), 5));
}

#[test]
fn unterminated_string_fails() {
    assert_eq!(failure("'abc"), ("Unterminated string literal".to_owned(), 4));
    assert_eq!(failure("\"abc'"), ("Unterminated string literal".to_owned(), 5));
}

#[test]
fn quoted_string_is_read_byte_by_byte() {
    assert_eq!(parse("'\u{e9}'").unwrap(), text("\u{c3}\u{a9}"));
}

#[test]
fn bare_string_keeps_its_characters() {
    assert_eq!(parse("caf\u{e9}").unwrap(), text("caf\u{e9}"));
    assert_eq!(parse("(k\u{fc}che: \u{20ac}5)").unwrap(), {
        let mut expected = Object::new();
        expected.insert("k\u{fc}che".to_owned(), text("\u{20ac}5"));
        Value::Object(expected)
    });
}

#[test]
fn bare_string_is_trimmed() {
    assert_eq!(parse("\u{b}abc\u{c}").unwrap(), text("abc"));
    assert_eq!(parse("\u{a0}abc\u{2003}").unwrap(), text("abc"));
    assert_eq!(parse("a\u{a0}b").unwrap(), text("a\u{a0}b"));
}

#[test]
fn empty_bare_string_fails() {
    assert_eq!(failure("(: 1)"), ("Empty string value".to_owned(), 1));
    assert_eq!(failure("\u{a0}"), ("Empty string value".to_owned(), 2));
    assert_eq!(failure("[1|]"), ("Empty string value".to_owned(), 3));
    assert_eq!(failure("("), ("Empty string value".to_owned(), 1));
}

#[test]
fn missing_colon_fails() {
    assert_eq!(failure("(a 1)"), ("Expected ':' after key".to_owned(), 3));
    assert_eq!(failure("(a"), ("Expected ':' after key".to_owned(), 2));
}

#[test]
fn missing_comma_or_paren_fails() {
    assert_eq!(failure("(a: 1 b: 2)"), ("Expected ',' or ')'".to_owned(), 6));
    assert_eq!(failure("(a: 1"), ("Expected ',' or ')'".to_owned(), 5));
    assert_eq!(failure("(a: 1]"), ("Expected ',' or ')'".to_owned(), 5));
}

#[test]
fn missing_pipe_or_bracket_fails() {
    assert_eq!(failure("[1 2]"), ("Expected '|' or ']'".to_owned(), 3));
    assert_eq!(failure("[1"), ("Expected '|' or ']'".to_owned(), 2));
    assert_eq!(failure("[1,2]"), ("Expected '|' or ']'".to_owned(), 2));
}

#[test]
fn number_must_end_the_token() {
    assert_eq!(failure("12abc"), ("Invalid number boundary".to_owned(), 2));
    assert_eq!(failure("-x"), ("Invalid number boundary".to_owned(), 1));
}

#[test]
fn malformed_number_fails() {
    assert_eq!(failure("1.2.3"), ("Invalid number".to_owned(), 5));
    assert_eq!(failure("-"), ("Invalid number".to_owned(), 1));
    assert_eq!(failure("1e"), ("Invalid number".to_owned(), 2));
    assert_eq!(failure("1e+"), ("Invalid number".to_owned(), 3));
    assert_eq!(failure("--1"), ("Invalid number".to_owned(), 3));
    assert_eq!(failure("1-2"), ("Invalid number".to_owned(), 3));
    assert_eq!(failure("[1e5e5]"), ("Invalid number".to_owned(), 6));
}

#[test]
fn number_beyond_a_double_fails() {
    assert_eq!(failure("1e309"), ("Non-finite number".to_owned(), 5));
    assert_eq!(failure("-1e309"), ("Non-finite number".to_owned(), 6));
    assert_eq!(failure("[ 2e308 ]"), ("Non-finite number".to_owned(), 7));
    assert_eq!(parse("1e308").unwrap(), number("1e308"));
    assert_eq!(parse("1e-400").unwrap(), number("1e-400"));
}

#[test]
fn first_failure_wins() {
    assert_eq!(failure("[1e999|"), ("Non-finite number".to_owned(), 6));
    assert_eq!(failure("(a: 'x"), ("Unterminated string literal".to_owned(), 6));
}

#[test]
fn numbers_keep_their_numeral() {
    for numeral in ["0", "-0", "3", "-12.5", "5.", "-.5", "1e5", "1E-5", "2.5e+10", "007"] {
        assert_eq!(parse(numeral).unwrap(), number(numeral), "{}", numeral);
    }
}

#[test]
fn sign_and_point_do_not_start_a_number() {
    assert_eq!(parse("+5").unwrap(), text("+5"));
    assert_eq!(parse(".5").unwrap(), text(".5"));
    assert_eq!(parse("e5").unwrap(), text("e5"));
}

#[test]
fn whitespace_is_space_tab_return_and_newline() {
    assert_eq!(parse(" \t\r\n7\n\r\t ").unwrap(), number("7"));
}

#[test]
fn error_renders_message_and_position() {
    let error = parse("true false").unwrap_err();
    assert_eq!(error.to_string(), "Unexpected trailing content at position 5");
    let error = parse("").unwrap_err();
    assert_eq!(error.to_string(), "Unexpected end of input at position 0");
    let error = parse("[1|2|3|4|5|6|7|8|9|10|11|").unwrap_err();
    assert_eq!(error.to_string(), "Unexpected end of input at position 25");
}

#[test]
fn failure_lies_within_the_text() {
    for input in [
        "", " ", "(", "[", "'", "\"", "(a", "(a:", "(a: 1", "[1", "[1|", "'\\", "'\\u", "'\\u12",
        "'\\ud800", "1e999", "1x", "-", "true false", "(a: [1 | (b: 'x", "\u{a0}",
    ] {
        let error = parse(input).unwrap_err();
        assert!(error.position <= input.len(), "{:?}", input);
    }
}
