use scheme_core::env::{Environment, Object, ObjectReference, Value};
use scheme_core::load::build_environment;
use scheme_core::parse::parse;

fn load(text: &str) -> (Environment, ObjectReference) {
    build_environment(parse(text).unwrap())
}

/// Walks a proper-list chain, returning the element handles in order.
fn walk(env: &Environment, mut r: ObjectReference) -> Vec<ObjectReference> {
    let mut out = Vec::new();
    loop {
        match env.get_object(r) {
            Object::Nil => return out,
            Object::Cons(car, cdr) => {
                out.push(car);
                r = cdr;
            },
            other => panic!("not a proper list: {:?}", other),
        }
    }
}

#[test]
fn literal_loads_as_its_value() {
    let (env, r) = load("42");
    assert_eq!(env.get_object(r), Object::Val(Value::IntNumber(42)));
    let (env, r) = load("#t");
    assert_eq!(env.get_object(r), Object::Val(Value::Boolean(true)));
    let (env, r) = load("#\\q");
    assert_eq!(env.get_object(r), Object::Val(Value::Character('q')));
    let (env, r) = load("\"hi\"");
    match env.get_object(r) {
        Object::Val(Value::StringRef(sr)) => assert_eq!(env.get_string(sr), "hi"),
        other => panic!("expected string value, got {:?}", other),
    }
}

#[test]
fn list_of_literals_round_trips() {
    let (env, r) = load("(1 2 3)");
    let elems = walk(&env, r);
    assert_eq!(elems.len(), 3);
    assert_eq!(env.get_object(elems[0]), Object::Val(Value::IntNumber(1)));
    assert_eq!(env.get_object(elems[1]), Object::Val(Value::IntNumber(2)));
    assert_eq!(env.get_object(elems[2]), Object::Val(Value::IntNumber(3)));
}

#[test]
fn empty_list_loads_as_nil() {
    let (env, r) = load("()");
    assert_eq!(env.get_object(r), Object::Nil);
}

#[test]
fn dotted_pair_loads_as_a_single_pair() {
    let (env, r) = load("(a . b)");
    match env.get_object(r) {
        Object::Cons(car, cdr) => {
            match env.get_object(car) {
                Object::Val(Value::Symbol(s)) => assert_eq!(env.find_symbol(s), "a"),
                other => panic!("expected symbol in car, got {:?}", other),
            }
            match env.get_object(cdr) {
                Object::Val(Value::Symbol(s)) => assert_eq!(env.find_symbol(s), "b"),
                other => panic!("expected symbol in cdr, got {:?}", other),
            }
        },
        other => panic!("expected a single pair, got {:?}", other),
    }
}

#[test]
fn dotted_list_loads_with_tail() {
    let (env, r) = load("(1 2 . 3)");
    match env.get_object(r) {
        Object::Cons(car, cdr) => {
            assert_eq!(env.get_object(car), Object::Val(Value::IntNumber(1)));
            match env.get_object(cdr) {
                Object::Cons(car2, cdr2) => {
                    assert_eq!(env.get_object(car2), Object::Val(Value::IntNumber(2)));
                    assert_eq!(env.get_object(cdr2), Object::Val(Value::IntNumber(3)));
                },
                other => panic!("expected inner pair, got {:?}", other),
            }
        },
        other => panic!("expected a pair, got {:?}", other),
    }
}

#[test]
fn loading_interns_reserved_names_as_tags() {
    let (env, r) = load("(+ 1 2)");
    let elems = walk(&env, r);
    assert_eq!(
        env.get_object(elems[0]),
        Object::Val(Value::StandardFunc(scheme_core::builtin::StandardFunc::Plus))
    );
}

#[test]
fn loading_same_symbol_twice_shares_the_handle() {
    let (env, r) = load("(x x)");
    let elems = walk(&env, r);
    let s0 = match env.get_object(elems[0]) {
        Object::Val(Value::Symbol(s)) => s,
        other => panic!("expected symbol, got {:?}", other),
    };
    let s1 = match env.get_object(elems[1]) {
        Object::Val(Value::Symbol(s)) => s,
        other => panic!("expected symbol, got {:?}", other),
    };
    assert_eq!(s0, s1);
}
