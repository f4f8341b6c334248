use scheme_core::builtin::{Keyword, StandardFunc};
use scheme_core::env::{Environment, Object, SchemeError, Value};

fn intern(env: &mut Environment, name: &str) -> scheme_core::env::SymbolReference {
    match env.push_symbol(String::from(name)) {
        Value::Symbol(s) => s,
        other => panic!("expected a plain symbol, got {:?}", other),
    }
}

#[test]
fn interning_is_idempotent() {
    let mut env = Environment::new();
    let a1 = env.push_symbol(String::from("alpha"));
    let b = env.push_symbol(String::from("beta"));
    let a2 = env.push_symbol(String::from("alpha"));
    assert_eq!(a1, a2);
    assert_ne!(a1, b);
}

#[test]
fn reserved_names_never_become_symbols() {
    let mut env = Environment::new();
    assert_eq!(env.push_symbol(String::from("quote")), Value::Keyword(Keyword::Quote));
    assert_eq!(env.push_symbol(String::from("if")), Value::Keyword(Keyword::If));
    assert_eq!(env.push_symbol(String::from("set!")), Value::Keyword(Keyword::SetBang));
    assert_eq!(env.push_symbol(String::from("define")), Value::Keyword(Keyword::Define));
    assert_eq!(env.push_symbol(String::from("lambda")), Value::Keyword(Keyword::Lambda));
    assert_eq!(env.push_symbol(String::from("begin")), Value::Keyword(Keyword::Begin));
    assert_eq!(env.push_symbol(String::from("+")), Value::StandardFunc(StandardFunc::Plus));
    assert_eq!(env.push_symbol(String::from("-")), Value::StandardFunc(StandardFunc::Minus));
}

#[test]
fn find_symbol_recovers_the_name() {
    let mut env = Environment::new();
    let s = intern(&mut env, "carrot");
    assert_eq!(env.find_symbol(s), "carrot");
}

#[test]
fn keyword_and_standard_func_tables() {
    assert_eq!(Keyword::get("begin"), Some(Keyword::Begin));
    assert_eq!(Keyword::get("bogus"), None);
    assert_eq!(StandardFunc::get("-"), Some(StandardFunc::Minus));
    assert_eq!(StandardFunc::get("*"), None);
}

#[test]
fn strings_are_not_deduplicated() {
    let mut env = Environment::new();
    let r1 = env.push_string(String::from("twin"));
    let r2 = env.push_string(String::from("twin"));
    assert_ne!(r1, r2);
    assert_eq!(env.get_string(r1), "twin");
    assert_eq!(env.get_string(r2), "twin");
}

#[test]
fn objects_read_back_as_stored() {
    let mut env = Environment::new();
    let a = env.push_object(Object::Val(Value::IntNumber(7)));
    let b = env.push_object(Object::Cons(a, a));
    assert_eq!(env.get_object(a), Object::Val(Value::IntNumber(7)));
    assert_eq!(env.get_object(b), Object::Cons(a, a));
}

#[test]
fn scoping_shadows_and_uncovers() {
    let mut env = Environment::new();
    let x = intern(&mut env, "x");
    let a = env.push_object(Object::Val(Value::IntNumber(1)));
    let b = env.push_object(Object::Val(Value::IntNumber(2)));
    env.enter_scope();
    env.set_var_with_ref(x, a);
    env.enter_scope();
    env.set_var_with_ref(x, b);
    assert_eq!(env.get_var(x), Ok(b));
    env.exit_scope();
    assert_eq!(env.get_var(x), Ok(a));
}

#[test]
fn unbound_lookup_reports_the_name() {
    let mut env = Environment::new();
    let y = intern(&mut env, "y");
    match env.get_var(y) {
        Err(SchemeError::UnboundVariable(n)) => assert_eq!(n, "y"),
        other => panic!("expected unbound-variable error, got {:?}", other),
    }
}

#[test]
fn assign_overwrites_the_nearest_binding() {
    let mut env = Environment::new();
    let x = intern(&mut env, "x");
    let a = env.push_object(Object::Val(Value::IntNumber(1)));
    let b = env.push_object(Object::Val(Value::IntNumber(2)));
    env.set_var_with_ref(x, a);
    env.enter_scope();
    assert_eq!(env.assign(x, b), Ok(()));
    assert_eq!(env.get_var(x), Ok(b));
    env.exit_scope();
    assert_eq!(env.get_var(x), Ok(b));
}

#[test]
fn assign_unbound_fails() {
    let mut env = Environment::new();
    let z = intern(&mut env, "z");
    let a = env.push_object(Object::Nil);
    match env.assign(z, a) {
        Err(SchemeError::UnboundVariable(n)) => assert_eq!(n, "z"),
        other => panic!("expected unbound-variable error, got {:?}", other),
    }
}

#[test]
fn push_list_chains_and_reads_back() {
    let mut env = Environment::new();
    let a = env.push_object(Object::Val(Value::IntNumber(10)));
    let b = env.push_object(Object::Val(Value::IntNumber(20)));
    let head = env.push_list(vec![a, b]);
    match env.get_object(head) {
        Object::Cons(car, cdr) => {
            assert_eq!(env.get_object(car), Object::Val(Value::IntNumber(10)));
            match env.get_object(cdr) {
                Object::Cons(car2, cdr2) => {
                    assert_eq!(env.get_object(car2), Object::Val(Value::IntNumber(20)));
                    assert_eq!(env.get_object(cdr2), Object::Nil);
                },
                other => panic!("expected a pair, got {:?}", other),
            }
        },
        other => panic!("expected a pair, got {:?}", other),
    }
}

#[test]
fn set_var_stores_and_binds() {
    let mut env = Environment::new();
    let x = intern(&mut env, "x");
    env.set_var(x, Object::Val(Value::Boolean(true)));
    let r = env.get_var(x).unwrap();
    assert_eq!(env.get_object(r), Object::Val(Value::Boolean(true)));
}
