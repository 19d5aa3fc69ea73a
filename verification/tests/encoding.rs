use compact_notation::{format_key, format_string, parse, Date, Number, Object, Value};

fn number(text: &str) -> Value {
    Value::Number(Number::from_text(text).expect("a numeral"))
}

fn text(value: &str) -> Value {
    Value::String(value.to_owned())
}

#[test]
fn encodes_scalars() {
    assert_eq!(compact_notation::stringify(&Value::Null), "null");
    assert_eq!(compact_notation::stringify(&Value::Bool(true)), "true");
    assert_eq!(compact_notation::stringify(&Value::Bool(false)), "false");
    assert_eq!(compact_notation::stringify(&number("3")), "3");
    assert_eq!(compact_notation::stringify(&number("-12.5e3")), "-12.5e3");
    assert_eq!(compact_notation::stringify(&text("ok")), "'ok'");
}

#[test]
fn encodes_strings_in_single_quotes() {
    assert_eq!(format_string(""), "''");
    assert_eq!(format_string("plain"), "'plain'");
    assert_eq!(format_string("it's"), "'it\\'s'");
    assert_eq!(format_string("a\\b"), "'a\\\\b'");
    assert_eq!(format_string("l1\nl2\r\tend"), "'l1\\nl2\\r\\tend'");
    assert_eq!(format_string("say \"hi\""), "'say \"hi\"'");
    assert_eq!(format_string("caf\u{e9} \u{8}"), "'caf\u{e9} \u{8}'");
}

#[test]
fn encodes_keys_bare_where_possible() {
    assert_eq!(format_key("name"), "name");
    assert_eq!(format_key("k\u{fc}che"), "k\u{fc}che");
    assert_eq!(format_key("a-b.c"), "a-b.c");
    assert_eq!(format_key(""), "''");
    assert_eq!(format_key("a b"), "'a b'");
    assert_eq!(format_key("a:b"), "'a:b'");
    assert_eq!(format_key("a,b"), "'a,b'");
    assert_eq!(format_key("(a"), "'(a'");
    assert_eq!(format_key("a)"), "'a)'");
    assert_eq!(format_key("[a"), "'[a'");
    assert_eq!(format_key("a]"), "'a]'");
    assert_eq!(format_key("a|b"), "'a|b'");
    assert_eq!(format_key("a\"b"), "'a\"b'");
    assert_eq!(format_key("a'b"), "'a\\'b'");
    assert_eq!(format_key("a\nb"), "'a\\nb'");
    assert_eq!(format_key("a\u{a0}b"), "'a\u{a0}b'");
    assert_eq!(format_key("a\u{3000}"), "'a\u{3000}'");
}

#[test]
fn encodes_arrays_with_pipes() {
    assert_eq!(compact_notation::stringify(&Value::Array(vec![])), "[]");
    assert_eq!(compact_notation::stringify(&Value::Array(vec![number("1")])), "[1]");
    assert_eq!(
        compact_notation::stringify(&Value::Array(vec![number("1"), text("two"), Value::Null])),
        "[1 | 'two' | null]"
    );
}

#[test]
fn encodes_objects_in_key_order() {
    assert_eq!(compact_notation::stringify(&Value::Object(Object::new())), "()");
    let mut map = Object::new();
    map.insert("b".to_owned(), text("x"));
    assert_eq!(compact_notation::stringify(&Value::Object(map.clone())), "(b: 'x')");
    map.insert("a".to_owned(), text("y"));
    map.insert("a b".to_owned(), Value::Bool(true));
    assert_eq!(compact_notation::stringify(&Value::Object(map)), "(a: 'y', 'a b': true, b: 'x')");
}

#[test]
fn decoded_keys_come_back_in_ascending_order() {
    let value = parse("(b: 'x', a: 'y')").unwrap();
    assert_eq!(compact_notation::stringify(&value), "(a: 'y', b: 'x')");
    let value = parse("(z: 1, B: 2, a: 3, \u{e9}: 4, 10: 5, 9: 6)").unwrap();
    assert_eq!(compact_notation::stringify(&value), "(10: 5, 9: 6, B: 2, a: 3, z: 1, \u{e9}: 4)");
}

#[test]
fn encodes_dates_as_stamps() {
    let date = Date::new(2024, 3, 1, 18, 22, 10, 1).unwrap();
    assert_eq!(compact_notation::stringify(&Value::Date(date)), "2024-03-01/18:22:10.001");
    let date = Date::new(7, 1, 2, 3, 4, 5, 60).unwrap();
    assert_eq!(compact_notation::stringify(&Value::Date(date)), "0007-01-02/03:04:05.060");
    let date = Date::new(0, 12, 31, 0, 0, 0, 0).unwrap();
    assert_eq!(compact_notation::stringify(&Value::Date(date)), "0000-12-31/00:00:00.000");
    let date = Date::new(9999, 12, 31, 23, 59, 59, 999).unwrap();
    assert_eq!(compact_notation::stringify(&Value::Date(date)), "9999-12-31/23:59:59.999");
    let date = Date::new(2016, 12, 31, 23, 59, 60, 250).unwrap();
    assert_eq!(compact_notation::stringify(&Value::Date(date)), "2016-12-31/23:59:60.250");
    assert_eq!(date.to_text(), "2016-12-31/23:59:60.250");
}

#[test]
fn encodes_nested_values() {
    let mut inner = Object::new();
    inner.insert("when".to_owned(), Value::Date(Date::new(2001, 2, 3, 4, 5, 6, 7).unwrap()));
    inner.insert("tags".to_owned(), Value::Array(vec![text("a|b"), Value::Array(vec![])]));
    let mut outer = Object::new();
    outer.insert("inner".to_owned(), Value::Object(inner));
    outer.insert("n".to_owned(), number("-0.5"));
    assert_eq!(
        compact_notation::stringify(&Value::Object(outer)),
        "(inner: (tags: ['a|b' | []], when: 2001-02-03/04:05:06.007), n: -0.5)"
    );
}

fn round_trip(value: Value) {
    let written = compact_notation::stringify(&value);
    assert_eq!(parse(&written), Ok(value), "{}", written);
}

#[test]
fn decoding_what_was_encoded_gives_the_value_back() {
    round_trip(Value::Null);
    round_trip(Value::Bool(true));
    round_trip(Value::Bool(false));
    round_trip(number("0"));
    round_trip(number("-17.25e-3"));
    round_trip(number("123456789012345678901234567890"));
    round_trip(text(""));
    round_trip(text("plain"));
    round_trip(text("it's a \\ \"test\"\n\r\t | ( ) [ ] : ,"));
    round_trip(text("null"));
    round_trip(text("12"));
    round_trip(Value::Date(Date::new(2024, 2, 29, 23, 59, 60, 999).unwrap()));
    round_trip(Value::Array(vec![]));
    round_trip(Value::Object(Object::new()));
    let mut inner = Object::new();
    inner.insert("x".to_owned(), Value::Array(vec![number("1"), number("2")]));
    inner.insert("a key".to_owned(), Value::Null);
    inner.insert("".to_owned(), text("empty key"));
    inner.insert("k\u{fc}che".to_owned(), Value::Bool(false));
    let mut outer = Object::new();
    outer.insert("inner".to_owned(), Value::Object(inner.clone()));
    outer.insert("list".to_owned(), Value::Array(vec![
        Value::Object(inner),
        Value::Date(Date::new(1, 1, 1, 0, 0, 0, 0).unwrap()),
        Value::Array(vec![Value::Array(vec![])]),
        number("2024"),
        number("-2024"),
    ]));
    round_trip(Value::Object(outer));
}

#[test]
fn quoted_text_beyond_ascii_does_not_come_back() {
    let value = text("caf\u{e9}");
    let written = compact_notation::stringify(&value);
    assert_eq!(written, "'caf\u{e9}'");
    assert_eq!(parse(&written), Ok(text("caf\u{c3}\u{a9}")));
}

#[test]
fn clone_is_a_deep_copy() {
    let mut map = Object::new();
    map.insert("list".to_owned(), Value::Array(vec![number("1"), text("x")]));
    let value = Value::Object(map);
    let copy = value.clone();
    assert_eq!(copy, value);
    assert_eq!(compact_notation::stringify(&copy), compact_notation::stringify(&value));
}
