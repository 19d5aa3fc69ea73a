use compact_notation::{
    is_delimiter, is_whitespace, parse, Date, Error, Number, Object, Parser, Value,
};

#[test]
fn delimiters_are_the_seven_structural_bytes() {
    for byte in 0u8..=255 {
        let expected = matches!(byte, b':' | b',' | b'(' | b')' | b'[' | b']' | b'|');
        assert_eq!(is_delimiter(byte), expected, "{}", byte);
    }
}

#[test]
fn whitespace_is_four_bytes() {
    for byte in 0u8..=255 {
        let expected = matches!(byte, b' ' | b'\t' | b'\r' | b'\n');
        assert_eq!(is_whitespace(byte), expected, "{}", byte);
    }
}

#[test]
fn number_admits_what_a_double_can_hold() {
    let lexemes = [
        "0", "-0", "1", "-1", "007", "1.", "1.5", ".5", "-.5", "-5.", "1e5", "1E5", "1e+5", "1e-5",
        "1.5e300", "1.5e308", "1e308", "1.7976931348623157e308", "1.7976931348623158e308",
        "1.7976931348623159e308", "1.8e308", "2e308", "1e309", "1e400", "-1e400", "1e-400",
        "0e999999999999999999999999999", "0.0e999", "1e99999999999999999999999999",
        "1e-99999999999999999999999999", "0.000001e314", "0.000001e315", "100000e303",
        "100000e304", "17976931348623157e292", "17976931348623159e292",
        "179769313486231570814527423731704356798070567525844996598917476803157260780028538760589558632766878171540458953514382464234321326889464182768467546703537516986049910576551282076245490090389328944075868508455133942304583236903222948165808559332123348274797826204144723168738177180919299881250404026184124858368",
        "179769313486231580793728971405303415079934132710037826936173778980444968292764750946649017977587207096330286416692887910946555547851940402630657488671505820681908902000708383676273854845817711531764475730270069855571366959622842914819860834936475292719074168444365510704342711559699508093042880177904174497791",
        "179769313486231580793728971405303415079934132710037826936173778980444968292764750946649017977587207096330286416692887910946555547851940402630657488671505820681908902000708383676273854845817711531764475730270069855571366959622842914819860834936475292719074168444365510704342711559699508093042880177904174497791.9999",
        "179769313486231580793728971405303415079934132710037826936173778980444968292764750946649017977587207096330286416692887910946555547851940402630657488671505820681908902000708383676273854845817711531764475730270069855571366959622842914819860834936475292719074168444365510704342711559699508093042880177904174497792",
        "179769313486231580793728971405303415079934132710037826936173778980444968292764750946649017977587207096330286416692887910946555547851940402630657488671505820681908902000708383676273854845817711531764475730270069855571366959622842914819860834936475292719074168444365510704342711559699508093042880177904174497792.0",
        "0.179769313486231580793728971405303415079934132710037826936173778980444968292764750946649017977587207096330286416692887910946555547851940402630657488671505820681908902000708383676273854845817711531764475730270069855571366959622842914819860834936475292719074168444365510704342711559699508093042880177904174497791e309",
        "0.179769313486231580793728971405303415079934132710037826936173778980444968292764750946649017977587207096330286416692887910946555547851940402630657488671505820681908902000708383676273854845817711531764475730270069855571366959622842914819860834936475292719074168444365510704342711559699508093042880177904174497792e309",
        "", "-", "+", ".", "-.", "e", "e5", "1e", "1e+", "1e-", "1.2.3", "1..2", "--1", "1-", "1+1",
        "1e5.5", "1e5e5", "+1", "+.5", "1 ", " 1", "1x", "0x10", "inf", "-inf", "nan", "NaN",
        "infinity",
    ];
    for lexeme in lexemes {
        let starts_like_a_number = lexeme.starts_with('-')
            || lexeme.chars().next().map_or(false, |c| c.is_ascii_digit());
        let expected = starts_like_a_number
            && lexeme.parse::<f64>().map_or(false, |v| v.is_finite());
        assert_eq!(Number::from_text(lexeme).is_some(), expected, "{:?}", lexeme);
        assert_eq!(Number::from_bytes(lexeme.as_bytes()).is_some(), expected, "{:?}", lexeme);
    }
}

#[test]
fn number_gives_its_numeral_back() {
    let number = Number::from_text("-12.50e3").unwrap();
    assert_eq!(number.text(), "-12.50e3");
    assert_eq!(number.as_bytes(), b"-12.50e3");
    assert_eq!(number.text().parse::<f64>().unwrap(), -12500.0);
    assert_eq!(number.clone(), number);
}

#[test]
fn date_new_checks_the_calendar() {
    assert!(Date::new(2024, 2, 29, 0, 0, 0, 0).is_some());
    assert!(Date::new(2023, 2, 29, 0, 0, 0, 0).is_none());
    assert!(Date::new(2000, 2, 29, 0, 0, 0, 0).is_some());
    assert!(Date::new(1900, 2, 29, 0, 0, 0, 0).is_none());
    assert!(Date::new(0, 2, 29, 0, 0, 0, 0).is_some());
    assert!(Date::new(2024, 4, 30, 0, 0, 0, 0).is_some());
    assert!(Date::new(2024, 4, 31, 0, 0, 0, 0).is_none());
    assert!(Date::new(2024, 12, 31, 23, 59, 60, 999).is_some());
    assert!(Date::new(2024, 0, 1, 0, 0, 0, 0).is_none());
    assert!(Date::new(2024, 13, 1, 0, 0, 0, 0).is_none());
    assert!(Date::new(2024, 1, 0, 0, 0, 0, 0).is_none());
    assert!(Date::new(2024, 1, 32, 0, 0, 0, 0).is_none());
    assert!(Date::new(2024, 1, 1, 24, 0, 0, 0).is_none());
    assert!(Date::new(2024, 1, 1, 0, 60, 0, 0).is_none());
    assert!(Date::new(2024, 1, 1, 0, 0, 61, 0).is_none());
    assert!(Date::new(2024, 1, 1, 0, 0, 0, 1000).is_none());
    assert!(Date::new(-1, 1, 1, 0, 0, 0, 0).is_none());
    assert!(Date::new(10000, 1, 1, 0, 0, 0, 0).is_none());
}

#[test]
fn date_reads_its_own_stamp() {
    for (y, mo, d, h, mi, s, ms) in [
        (2024, 3, 1, 18, 22, 10, 1),
        (0, 1, 1, 0, 0, 0, 0),
        (9999, 12, 31, 23, 59, 59, 999),
        (1972, 6, 30, 23, 59, 60, 0),
        (2000, 2, 29, 12, 0, 0, 500),
    ] {
        let date = Date::new(y, mo, d, h, mi, s, ms).unwrap();
        let stamp = date.to_text();
        assert_eq!(stamp.len(), 23);
        assert_eq!(Date::read(stamp.as_bytes()), Some(date), "{}", stamp);
    }
    assert_eq!(Date::read(b"2024-03-01 18:22:10.001"), None);
    assert_eq!(Date::read(b"2024-3-01/18:22:10.0001"), None);
    assert_eq!(Date::read(b"-001-01-01/00:00:00.000"), None);
    assert_eq!(Date::read(b"2024-03-01/18:22:10.00"), None);
    assert_eq!(Date::read(b""), None);
}

#[test]
fn object_keeps_its_keys_apart_and_in_order() {
    let mut map = Object::new();
    assert!(map.is_empty());
    map.insert("b".to_owned(), Value::Bool(true));
    map.insert("a".to_owned(), Value::Null);
    map.insert("c".to_owned(), Value::Bool(false));
    map.insert("b".to_owned(), Value::String("again".to_owned()));
    map.insert("ab".to_owned(), Value::Null);
    assert_eq!(map.len(), 4);
    assert!(!map.is_empty());
    let keys: Vec<&str> = (0..map.len()).map(|i| map.key_at(i).as_str()).collect();
    assert_eq!(keys, ["a", "ab", "b", "c"]);
    assert_eq!(map.value_at(2), &Value::String("again".to_owned()));
    assert_eq!(map.get("b"), Some(&Value::String("again".to_owned())));
    assert_eq!(map.get("a"), Some(&Value::Null));
    assert_eq!(map.get("d"), None);
    assert_eq!(map.get(""), None);
}

#[test]
fn object_orders_keys_by_their_bytes() {
    let mut map = Object::new();
    for key in ["\u{e9}", "z", "Z", "", "a", "\u{10000}", "\u{ffff}", "aa"] {
        map.insert(key.to_owned(), Value::Null);
    }
    let keys: Vec<&str> = (0..map.len()).map(|i| map.key_at(i).as_str()).collect();
    let mut expected = vec!["\u{e9}", "z", "Z", "", "a", "\u{10000}", "\u{ffff}", "aa"];
    expected.sort();
    assert_eq!(keys, expected);
}

#[test]
fn parser_moves_over_its_text() {
    let mut parser = Parser::new("  ab");
    assert!(!parser.is_end());
    assert_eq!(parser.peek(), Some(b' '));
    parser.skip_whitespace();
    assert_eq!(parser.peek(), Some(b'a'));
    parser.advance(1);
    assert_eq!(parser.peek(), Some(b'b'));
    let error = parser.error("here");
    assert_eq!(error, Error { message: "here".to_owned(), position: 3 });
    parser.advance(1);
    assert!(parser.is_end());
    assert_eq!(parser.peek(), None);
    parser.skip_whitespace();
    assert!(parser.is_end());
    assert!(Parser::new("").is_end());
}

#[test]
fn parser_reads_strings() {
    let mut parser = Parser::new("'a\\tb' rest");
    assert_eq!(parser.parse_quoted_string(), Ok("a\tb".to_owned()));
    assert_eq!(parser.peek(), Some(b' '));
    parser.skip_whitespace();
    assert_eq!(parser.parse_unquoted_string(), Ok("rest".to_owned()));
    assert!(parser.is_end());

    let mut parser = Parser::new("key:\"v\"");
    assert_eq!(parser.parse_string_like(), Ok("key".to_owned()));
    assert_eq!(parser.peek(), Some(b':'));
    parser.advance(1);
    assert_eq!(parser.parse_string_like(), Ok("v".to_owned()));

    let mut parser = Parser::new("n0041");
    assert_eq!(parser.parse_escape(b'n'), Ok('\n'));
    assert_eq!(parser.peek(), Some(b'0'));
    let mut parser = Parser::new("u0041x");
    assert_eq!(parser.parse_escape(b'u'), Ok('A'));
    assert_eq!(parser.peek(), Some(b'x'));
    let mut parser = Parser::new("q");
    assert_eq!(
        parser.parse_escape(b'q'),
        Err(Error { message: "Unknown escape sequence".to_owned(), position: 1 })
    );

    let mut parser = Parser::new(",");
    assert_eq!(
        parser.parse_unquoted_string(),
        Err(Error { message: "Empty string value".to_owned(), position: 0 })
    );
}

#[test]
fn values_compare_by_structure() {
    assert_eq!(parse("[1|(a: x)]"), parse(" [ 1 | ( a : 'x' ) ] "));
    assert_ne!(parse("[1|2]"), parse("[2|1]"));
    assert_eq!(parse("(a: 1, b: 2)"), parse("(b: 2, a: 1)"));
    assert_ne!(parse("1"), parse("'1'"));
}
