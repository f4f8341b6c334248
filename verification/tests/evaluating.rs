use scheme_core::env::{Environment, Object, ObjectKind, ObjectReference, SchemeError, Value};
use scheme_core::interpret::{eval, eval_steps};
use scheme_core::load::build_environment;
use scheme_core::parse::parse;

fn run(text: &str) -> (Environment, Result<ObjectReference, SchemeError>) {
    let (mut env, prog) = build_environment(parse(text).unwrap());
    let r = eval(&mut env, prog);
    (env, r)
}

fn run_int(text: &str) -> i64 {
    let (env, r) = run(text);
    match env.get_object(r.unwrap()) {
        Object::Val(Value::IntNumber(x)) => x,
        other => panic!("expected integer result, got {:?}", other),
    }
}

#[test]
fn literals_evaluate_to_themselves() {
    assert_eq!(run_int("42"), 42);
    let (env, r) = run("#f");
    assert_eq!(env.get_object(r.unwrap()), Object::Val(Value::Boolean(false)));
    let (env, r) = run("#\\z");
    assert_eq!(env.get_object(r.unwrap()), Object::Val(Value::Character('z')));
    let (env, r) = run("\"hi\"");
    match env.get_object(r.unwrap()) {
        Object::Val(Value::StringRef(sr)) => assert_eq!(env.get_string(sr), "hi"),
        other => panic!("expected string result, got {:?}", other),
    }
}

#[test]
fn addition_of_two_integers() {
    assert_eq!(run_int("(+ 1 2)"), 3);
}

#[test]
fn subtraction_of_two_integers() {
    assert_eq!(run_int("(- 5 2)"), 3);
}

#[test]
fn addition_type_mismatch() {
    let (_, r) = run("(+ 1 \"x\")");
    assert_eq!(r, Err(SchemeError::TypeMismatch(ObjectKind::Integer, ObjectKind::Str)));
}

#[test]
fn addition_arity_mismatch() {
    let (_, r) = run("(+ 1)");
    assert_eq!(r, Err(SchemeError::ArityMismatch(2, 1)));
}

#[test]
fn quote_returns_the_datum_unevaluated() {
    let (env, r) = run("(quote (1 2))");
    match env.get_object(r.unwrap()) {
        Object::Cons(car, cdr) => {
            assert_eq!(env.get_object(car), Object::Val(Value::IntNumber(1)));
            match env.get_object(cdr) {
                Object::Cons(car2, cdr2) => {
                    assert_eq!(env.get_object(car2), Object::Val(Value::IntNumber(2)));
                    assert_eq!(env.get_object(cdr2), Object::Nil);
                },
                other => panic!("expected pair, got {:?}", other),
            }
        },
        other => panic!("expected pair, got {:?}", other),
    }
}

#[test]
fn quote_does_not_look_symbols_up() {
    let (_, r) = run("(quote (nosuchvariable))");
    assert!(r.is_ok());
}

#[test]
fn unbound_symbol_reports_its_name() {
    let (_, r) = run("nowheredefined");
    match r {
        Err(SchemeError::UnboundVariable(n)) => assert_eq!(n, "nowheredefined"),
        other => panic!("expected unbound-variable error, got {:?}", other),
    }
}

#[test]
fn define_binds_and_symbols_resolve() {
    assert_eq!(run_int("(begin (define x 41) (+ x 1))"), 42);
}

#[test]
fn set_bang_mutates_an_existing_binding() {
    assert_eq!(run_int("(begin (define x 1) (set! x 2) x)"), 2);
}

#[test]
fn set_bang_on_unbound_fails() {
    let (_, r) = run("(set! nowhere 1)");
    match r {
        Err(SchemeError::UnboundVariable(n)) => assert_eq!(n, "nowhere"),
        other => panic!("expected unbound-variable error, got {:?}", other),
    }
}

#[test]
fn if_takes_the_alternative_on_false() {
    assert_eq!(run_int("(if #f 1 2)"), 2);
}

#[test]
fn if_treats_everything_but_false_as_true() {
    assert_eq!(run_int("(if 0 1 2)"), 1);
    assert_eq!(run_int("(if #t 1 2)"), 1);
}

#[test]
fn begin_returns_the_last_result() {
    assert_eq!(run_int("(begin 1 2 3)"), 3);
}

#[test]
fn lambda_application_binds_parameters() {
    assert_eq!(run_int("(begin (define inc (lambda (x) (+ x 1))) (inc 2))"), 3);
}

#[test]
fn procedures_capture_their_defining_scope() {
    assert_eq!(
        run_int("(begin (define mk (lambda (a) (lambda (b) (+ a b)))) (define addtwo (mk 2)) (addtwo 3))"),
        5
    );
}

#[test]
fn application_arity_mismatch() {
    let (_, r) = run("(begin (define inc (lambda (x) (+ x 1))) (inc 1 2))");
    assert_eq!(r, Err(SchemeError::ArityMismatch(1, 2)));
}

#[test]
fn value_in_head_position_is_not_callable() {
    let (_, r) = run("(1 2)");
    assert_eq!(r, Err(SchemeError::NotCallable(Object::Val(Value::IntNumber(1)))));
}

#[test]
fn bound_non_procedure_is_not_callable() {
    let (_, r) = run("(begin (define x 1) (x 2))");
    assert_eq!(r, Err(SchemeError::NotCallable(Object::Val(Value::IntNumber(1)))));
}

#[test]
fn malformed_argument_list_is_reported() {
    let (_, r) = run("(+ . 1)");
    assert_eq!(r, Err(SchemeError::MalformedArgumentList));
}

#[test]
fn exhausted_step_budget_is_reported() {
    let (mut env, prog) = build_environment(parse("(+ 1 2)").unwrap());
    assert_eq!(eval_steps(&mut env, prog, 0), Err(SchemeError::StepLimitExceeded));
}

#[test]
fn deep_recursion_runs_out_of_steps() {
    let (mut env, prog) =
        build_environment(parse("(begin (define loopy (lambda (x) (loopy x))) (loopy 1))").unwrap());
    assert_eq!(eval_steps(&mut env, prog, 1000), Err(SchemeError::StepLimitExceeded));
}

#[test]
fn special_form_shape_errors() {
    let (_, r) = run("(quote)");
    assert_eq!(r, Err(SchemeError::UnsupportedForm));
    let (_, r) = run("(quote 1 2)");
    assert_eq!(r, Err(SchemeError::UnsupportedForm));
    let (_, r) = run("(if #t 1)");
    assert_eq!(r, Err(SchemeError::UnsupportedForm));
    let (_, r) = run("(define 1 2)");
    assert_eq!(r, Err(SchemeError::UnsupportedForm));
    let (_, r) = run("(begin)");
    assert_eq!(r, Err(SchemeError::UnsupportedForm));
}

#[test]
fn wrapping_addition_on_overflow() {
    assert_eq!(run_int("(+ 9223372036854775807 1)"), i64::MIN);
}

#[test]
fn lambda_evaluates_to_a_procedure() {
    let (env, r) = run("(lambda (x) x)");
    assert!(matches!(env.get_object(r.unwrap()), Object::Func(_, _, _)));
}

#[test]
fn pair_in_head_position_is_not_callable() {
    let (_, r) = run("((lambda (x) x) 1)");
    assert!(matches!(r, Err(SchemeError::NotCallable(_))));
}

#[test]
fn non_symbol_parameter_is_a_type_mismatch() {
    let (_, r) = run("(begin (define f (lambda (1) 2)) (f 3))");
    assert_eq!(r, Err(SchemeError::TypeMismatch(ObjectKind::Symbol, ObjectKind::Integer)));
}

#[test]
fn dotted_parameter_list_is_unsupported() {
    let (_, r) = run("(begin (define f (lambda (a . b) 1)) (f 1 2))");
    assert_eq!(r, Err(SchemeError::UnsupportedForm));
}
