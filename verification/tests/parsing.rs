use scheme_core::parse::{parse, ParseError, SchemeParserValue};

#[test]
fn parse_integer() {
    match parse("42") {
        Ok(SchemeParserValue::IntNumber(x)) => assert_eq!(x, 42),
        other => panic!("expected integer, got {:?}", other),
    }
}

#[test]
fn parse_booleans() {
    assert!(matches!(parse("#t"), Ok(SchemeParserValue::Boolean(true))));
    assert!(matches!(parse("#f"), Ok(SchemeParserValue::Boolean(false))));
}

#[test]
fn parse_characters() {
    assert!(matches!(parse("#\\a"), Ok(SchemeParserValue::Character('a'))));
    assert!(matches!(parse("#\\newline"), Ok(SchemeParserValue::Character('\n'))));
    assert!(matches!(parse("#\\space"), Ok(SchemeParserValue::Character(' '))));
}

#[test]
fn parse_string_with_escapes() {
    match parse("\"he\\\"ll\\\\o\"") {
        Ok(SchemeParserValue::Text(s)) => assert_eq!(s, "he\"ll\\o"),
        other => panic!("expected string, got {:?}", other),
    }
}

#[test]
fn parse_empty_string_literal() {
    match parse("\"\"") {
        Ok(SchemeParserValue::Text(s)) => assert_eq!(s, ""),
        other => panic!("expected string, got {:?}", other),
    }
}

#[test]
fn parse_symbols() {
    match parse("abc!") {
        Ok(SchemeParserValue::Symbol(s)) => assert_eq!(s, "abc!"),
        other => panic!("expected symbol, got {:?}", other),
    }
    match parse("+") {
        Ok(SchemeParserValue::Symbol(s)) => assert_eq!(s, "+"),
        other => panic!("expected symbol, got {:?}", other),
    }
    match parse("...") {
        Ok(SchemeParserValue::Symbol(s)) => assert_eq!(s, "..."),
        other => panic!("expected symbol, got {:?}", other),
    }
}

#[test]
fn parse_empty_list() {
    match parse("()") {
        Ok(SchemeParserValue::List(l)) => assert_eq!(l.len(), 0),
        other => panic!("expected list, got {:?}", other),
    }
}

#[test]
fn parse_proper_list() {
    match parse("(+ 1 2)") {
        Ok(SchemeParserValue::List(l)) => {
            assert_eq!(l.len(), 3);
            assert!(matches!(&l[0], SchemeParserValue::Symbol(s) if s == "+"));
            assert!(matches!(l[1], SchemeParserValue::IntNumber(1)));
            assert!(matches!(l[2], SchemeParserValue::IntNumber(2)));
        },
        other => panic!("expected list, got {:?}", other),
    }
}

#[test]
fn parse_nested_list() {
    match parse("(quote (1 2))") {
        Ok(SchemeParserValue::List(l)) => {
            assert_eq!(l.len(), 2);
            assert!(matches!(&l[1], SchemeParserValue::List(inner) if inner.len() == 2));
        },
        other => panic!("expected list, got {:?}", other),
    }
}

#[test]
fn parse_dotted_pair() {
    match parse("(a . b)") {
        Ok(SchemeParserValue::Improper(l, t)) => {
            assert_eq!(l.len(), 1);
            assert!(matches!(&l[0], SchemeParserValue::Symbol(s) if s == "a"));
            assert!(matches!(&*t, SchemeParserValue::Symbol(s) if s == "b"));
        },
        other => panic!("expected dotted pair, got {:?}", other),
    }
}

#[test]
fn parse_dotted_list() {
    match parse("(1 2 . 3)") {
        Ok(SchemeParserValue::Improper(l, t)) => {
            assert_eq!(l.len(), 2);
            assert!(matches!(&*t, SchemeParserValue::IntNumber(3)));
        },
        other => panic!("expected dotted list, got {:?}", other),
    }
}

#[test]
fn parse_empty_input_fails() {
    assert_eq!(parse(""), Err(ParseError::InvalidDatum));
}

#[test]
fn parse_trailing_character_fails() {
    assert_eq!(parse("1)"), Err(ParseError::TrailingCharacter(')')));
}

#[test]
fn parse_unterminated_string_fails() {
    assert_eq!(parse("\"abc"), Err(ParseError::InvalidDatum));
}

#[test]
fn parse_huge_integer_fails() {
    assert_eq!(parse("99999999999999999999"), Err(ParseError::InvalidDatum));
}

#[test]
fn parse_max_integer() {
    match parse("9223372036854775807") {
        Ok(SchemeParserValue::IntNumber(x)) => assert_eq!(x, i64::MAX),
        other => panic!("expected integer, got {:?}", other),
    }
}

#[test]
fn constructors_build_the_expected_shapes() {
    let p = SchemeParserValue::pair(
        SchemeParserValue::symbol(String::from("a")),
        SchemeParserValue::int_number(1),
    );
    assert!(matches!(&p, SchemeParserValue::Improper(l, _) if l.len() == 1));
    let il = SchemeParserValue::improper_list(
        vec![SchemeParserValue::int_number(1), SchemeParserValue::int_number(2)],
        SchemeParserValue::boolean(true),
    );
    assert!(matches!(&il, SchemeParserValue::Improper(l, t)
        if l.len() == 2 && matches!(&**t, SchemeParserValue::Boolean(true))));
    assert!(matches!(
        SchemeParserValue::string(String::from("hi")),
        SchemeParserValue::Text(_)
    ));
    assert!(matches!(SchemeParserValue::character('x'), SchemeParserValue::Character('x')));
    assert!(matches!(SchemeParserValue::list(vec![]), SchemeParserValue::List(_)));
}
