use scheme_core::syntax::SchemeParserValue;

#[test]
fn atom_and_literals() {
    assert!(matches!(
        SchemeParserValue::atom(String::from("spin")),
        SchemeParserValue::Atom(s) if s == "spin"
    ));
    assert!(matches!(SchemeParserValue::int_number(7), SchemeParserValue::IntNumber(7)));
    assert!(matches!(SchemeParserValue::boolean(false), SchemeParserValue::Boolean(false)));
    assert!(matches!(SchemeParserValue::character('k'), SchemeParserValue::Character('k')));
    assert!(matches!(
        SchemeParserValue::string(String::from("hey")),
        SchemeParserValue::Text(s) if s == "hey"
    ));
}

#[test]
fn pair_is_an_explicit_dotted_pair() {
    let p = SchemeParserValue::pair(
        SchemeParserValue::int_number(1),
        SchemeParserValue::int_number(2),
    );
    match p {
        SchemeParserValue::DottedPair(a, d) => {
            assert!(matches!(*a, SchemeParserValue::IntNumber(1)));
            assert!(matches!(*d, SchemeParserValue::IntNumber(2)));
        },
        other => panic!("expected dotted pair, got {:?}", other),
    }
}

#[test]
fn left_nested_groups_the_leading_data() {
    let v = SchemeParserValue::left_nested(
        vec![SchemeParserValue::int_number(1), SchemeParserValue::int_number(2)],
        SchemeParserValue::int_number(3),
    );
    match v {
        SchemeParserValue::DottedPair(a, d) => {
            assert!(matches!(&*a, SchemeParserValue::List(l) if l.len() == 2));
            assert!(matches!(*d, SchemeParserValue::IntNumber(3)));
        },
        other => panic!("expected dotted pair, got {:?}", other),
    }
}

#[test]
fn list_keeps_its_elements() {
    let v = SchemeParserValue::list(vec![SchemeParserValue::boolean(true)]);
    assert!(matches!(v, SchemeParserValue::List(l) if l.len() == 1));
}
