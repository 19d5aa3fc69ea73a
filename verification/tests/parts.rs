use compact_notation::date::is_well_shaped;
use compact_notation::decode::hex_digit_value;
use compact_notation::encode::{format_value, is_key_mark, is_white};
use compact_notation::lexis::{is_digit, is_number_byte, is_quote};
use compact_notation::number::{fits_double, is_numeral, layout, limit_digit_at, scan_digits};
use compact_notation::text::slice_text;
use compact_notation::value::{str_before, str_equal};
use compact_notation::{Date, Error, ErrorKind, Number, Object, Parser, Value};

#[test]
fn white_space_is_the_unicode_property() {
    for code in 0u32..=0x10ffff {
        if let Some(c) = char::from_u32(code) {
            assert_eq!(is_white(c), c.is_whitespace(), "{:x}", code);
            let mark = matches!(c, ':' | ',' | '(' | ')' | '[' | ']' | '|' | '"' | '\'')
                || c.is_whitespace();
            assert_eq!(is_key_mark(c), mark, "{:x}", code);
        }
    }
}

#[test]
fn byte_classes() {
    for byte in 0u8..=255 {
        assert_eq!(is_quote(byte), byte == b'\'' || byte == b'"', "{}", byte);
        assert_eq!(is_digit(byte), byte.is_ascii_digit(), "{}", byte);
        let number = byte.is_ascii_digit() || matches!(byte, b'+' | b'-' | b'.' | b'e' | b'E');
        assert_eq!(is_number_byte(byte), number, "{}", byte);
        let hex = (byte as char).to_digit(16);
        assert_eq!(hex_digit_value(byte), hex, "{}", byte);
    }
}

#[test]
fn keys_are_ordered_as_strings_are() {
    let samples = [
        "", "a", "A", "aa", "ab", "b", "a\u{0}", "\u{7f}", "\u{80}", "\u{7ff}", "\u{800}",
        "\u{ffff}", "\u{10000}", "\u{10ffff}", "z\u{e9}", "z\u{e8}", "10", "9", " ", "~",
    ];
    for a in samples {
        for b in samples {
            assert_eq!(str_before(a, b), a < b, "{:?} {:?}", a, b);
            assert_eq!(str_equal(a, b), a == b, "{:?} {:?}", a, b);
        }
    }
}

#[test]
fn limit_is_the_midpoint_above_the_greatest_double() {
    let text = "179769313486231580793728971405303415079934132710037826936173778980444968292764750946649017977587207096330286416692887910946555547851940402630657488671505820681908902000708383676273854845817711531764475730270069855571366959622842914819860834936475292719074168444365510704342711559699508093042880177904174497792";
    assert_eq!(text.len(), 309);
    let digits: String = (0..309).map(|i| limit_digit_at(i) as char).collect();
    assert_eq!(digits, text);
    for index in 309..400 {
        assert_eq!(limit_digit_at(index), b'0');
    }
    assert!(text.parse::<f64>().unwrap().is_infinite());
    assert_eq!(
        "179769313486231580793728971405303415079934132710037826936173778980444968292764750946649017977587207096330286416692887910946555547851940402630657488671505820681908902000708383676273854845817711531764475730270069855571366959622842914819860834936475292719074168444365510704342711559699508093042880177904174497791"
            .parse::<f64>()
            .unwrap(),
        f64::MAX
    );
}

#[test]
fn numerals_have_parts() {
    assert_eq!(scan_digits(b"123x", 0), 3);
    assert_eq!(scan_digits(b"123x", 1), 3);
    assert_eq!(scan_digits(b"123x", 3), 3);
    assert_eq!(scan_digits(b"123", 3), 3);
    let parts = layout(b"-12.345e+67");
    assert_eq!(
        (parts.whole_start, parts.whole_end, parts.fraction_start, parts.fraction_end),
        (1, 3, 4, 7)
    );
    assert_eq!(parts.exponent_start, 9);
    let parts = layout(b"12");
    assert_eq!(
        (parts.whole_start, parts.whole_end, parts.fraction_start, parts.fraction_end),
        (0, 2, 2, 2)
    );
    assert!(is_numeral(b"+1.5E-3"));
    assert!(is_numeral(b".5"));
    assert!(!is_numeral(b"."));
    assert!(!is_numeral(b"1e"));
    assert!(fits_double(b"+1.5E-3"));
    assert!(fits_double(b"0.0e99999"));
    assert!(fits_double(b"00000000000000000001e308"));
    assert!(!fits_double(b"1e309"));
    assert!(!fits_double(b"18e307"));
    assert!(fits_double(b"17e307"));
    assert!(!fits_double(b"0.0018e311"));
}

#[test]
fn stamps_have_one_shape() {
    assert!(is_well_shaped(b"2024-03-01/18:22:10.001"));
    assert!(is_well_shaped(b"9999-99-99/99:99:99.999"));
    assert!(!is_well_shaped(b"2024-03-01T18:22:10.001"));
    assert!(!is_well_shaped(b"2024-03-01/18:22:10,001"));
    assert!(!is_well_shaped(b"2024-03-01/18:22:10.00"));
    assert!(!is_well_shaped(b"2024-03-01/18:22:10.0011"));
    assert!(!is_well_shaped(b"2O24-03-01/18:22:10.001"));
    assert!(!is_well_shaped(b""));
}

#[test]
fn text_is_cut_between_characters() {
    let text = "a\u{e9}\u{20ac}z";
    assert_eq!(slice_text(text, 0, text.len()), text);
    assert_eq!(slice_text(text, 1, 3), "\u{e9}");
    assert_eq!(slice_text(text, 3, 6), "\u{20ac}");
    assert_eq!(slice_text(text, 6, 6), "");
}

#[test]
fn error_kinds_have_fixed_messages() {
    let kinds = [
        (ErrorKind::UnexpectedEnd, "Unexpected end of input"),
        (ErrorKind::ExpectedColon, "Expected ':' after key"),
        (ErrorKind::ExpectedCommaOrClose, "Expected ',' or ')'"),
        (ErrorKind::ExpectedPipeOrClose, "Expected '|' or ']'"),
        (ErrorKind::UnterminatedString, "Unterminated string literal"),
        (ErrorKind::InvalidEscape, "Invalid escape"),
        (ErrorKind::InvalidUnicodeEscape, "Invalid unicode escape"),
        (ErrorKind::UnknownEscape, "Unknown escape sequence"),
        (ErrorKind::EmptyString, "Empty string value"),
        (ErrorKind::InvalidNumberBoundary, "Invalid number boundary"),
        (ErrorKind::InvalidNumber, "Invalid number"),
        (ErrorKind::NonFiniteNumber, "Non-finite number"),
        (ErrorKind::TrailingContent, "Unexpected trailing content"),
    ];
    for (kind, message) in kinds {
        assert_eq!(kind.text(), message);
    }
    let error = Error { message: "m".to_owned(), position: 18446744073709551615 };
    assert_eq!(error.to_string(), "m at position 18446744073709551615");
    let error = Error { message: "".to_owned(), position: 10 };
    assert_eq!(error.to_string(), " at position 10");
}

fn number(text: &str) -> Value {
    Value::Number(Number::from_text(text).expect("a numeral"))
}

#[test]
fn parser_reads_values_in_steps() {
    let mut parser = Parser::new("  [1 | (a: null)] tail");
    let value = parser.parse_value().unwrap();
    let mut inner = Object::new();
    inner.insert("a".to_owned(), Value::Null);
    assert_eq!(value, Value::Array(vec![number("1"), Value::Object(inner)]));
    assert_eq!(parser.peek(), Some(b' '));

    let mut parser = Parser::new("(k: v)x");
    let mut expected = Object::new();
    expected.insert("k".to_owned(), Value::String("v".to_owned()));
    assert_eq!(parser.parse_object(), Ok(Value::Object(expected)));
    assert_eq!(parser.peek(), Some(b'x'));

    let mut parser = Parser::new("[true]x");
    assert_eq!(parser.parse_array(), Ok(Value::Array(vec![Value::Bool(true)])));
    assert_eq!(parser.peek(), Some(b'x'));

    let mut parser = Parser::new("-1.5e3,");
    assert_eq!(parser.parse_number(), Ok(number("-1.5e3")));
    assert_eq!(parser.peek(), Some(b','));

    let mut parser = Parser::new("2024-03-01/18:22:10.001|");
    assert_eq!(
        parser.try_parse_datetime(),
        Ok(Some(Date::new(2024, 3, 1, 18, 22, 10, 1).unwrap()))
    );
    assert_eq!(parser.peek(), Some(b'|'));
    let mut parser = Parser::new("2024-03-01/18:22:10.001+");
    assert_eq!(parser.try_parse_datetime(), Ok(None));
    assert_eq!(parser.peek(), Some(b'2'));
    let mut parser = Parser::new("2024-03-01");
    assert_eq!(parser.try_parse_datetime(), Ok(None));

    let mut parser = Parser::new("null)");
    assert_eq!(parser.match_keyword(b"true"), None);
    assert_eq!(parser.peek(), Some(b'n'));
    assert_eq!(parser.match_keyword(b"null"), Some(Value::Null));
    assert_eq!(parser.peek(), Some(b')'));
    let mut parser = Parser::new("falsey");
    assert_eq!(parser.match_keyword(b"false"), None);
    assert_eq!(parser.peek(), Some(b'f'));
    let mut parser = Parser::new("false");
    assert_eq!(parser.match_keyword(b"false"), Some(Value::Bool(false)));
    assert!(parser.is_end());
    let mut parser = Parser::new("true ");
    assert_eq!(parser.match_keyword(b"true"), Some(Value::Bool(true)));
}

#[test]
fn format_value_is_the_encoder() {
    let value = Value::Array(vec![number("1"), Value::Bool(false)]);
    assert_eq!(format_value(&value), "[1 | false]");
    assert_eq!(format_value(&value), compact_notation::stringify(&value));
}
