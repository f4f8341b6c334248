//! The builtin registry: fixed tables mapping reserved names to
//! special-form tags and standard-procedure tags. The interning code
//! consults these tables so that a reserved name never becomes an
//! ordinary symbol handle.

use vstd::prelude::*;

use crate::env::{
    binding_frame, kind_of, last_binding_index, list_elems, Environment, Object, ObjectReference,
    ObjectKind, SchemeError, Value,
};
use crate::interpret::{
    eval_evolve, eval_steps, lemma_evolve_refl, lemma_evolve_trans, quoted_datum, self_evaluating,
    two_operands,
};

verus! {

/// Tags for the special forms, whose operands are passed unevaluated.
#[derive(Clone, Copy, Debug, PartialEq, Eq, Structural)]
pub enum Keyword {
    Quote,
    If,
    SetBang,
    Define,
    Lambda,
    Begin,
}

/// Tags for the standard procedures, whose operands are evaluated
/// left to right before the handler runs.
#[derive(Clone, Copy, Debug, PartialEq, Eq, Structural)]
pub enum StandardFunc {
    Plus,
    Minus,
}

/// The special-form table: which reserved name maps to which tag.
pub open spec fn keyword_spec(t: Seq<char>) -> Option<Keyword> {
    if t == "quote"@ {
        Some(Keyword::Quote)
    } else if t == "if"@ {
        Some(Keyword::If)
    } else if t == "set!"@ {
        Some(Keyword::SetBang)
    } else if t == "define"@ {
        Some(Keyword::Define)
    } else if t == "lambda"@ {
        Some(Keyword::Lambda)
    } else if t == "begin"@ {
        Some(Keyword::Begin)
    } else {
        None
    }
}

/// The standard-procedure table: which reserved name maps to which tag.
pub open spec fn standard_func_spec(t: Seq<char>) -> Option<StandardFunc> {
    if t == "+"@ {
        Some(StandardFunc::Plus)
    } else if t == "-"@ {
        Some(StandardFunc::Minus)
    } else {
        None
    }
}

impl Keyword {
    /// Looks a name up in the special-form table.
    pub fn get(name: &str) -> (r: Option<Keyword>)
        ensures
            r == keyword_spec(name@),
    {
        let owned = name.to_owned();
        if owned == "quote".to_owned() {
            Some(Keyword::Quote)
        } else if owned == "if".to_owned() {
            Some(Keyword::If)
        } else if owned == "set!".to_owned() {
            Some(Keyword::SetBang)
        } else if owned == "define".to_owned() {
            Some(Keyword::Define)
        } else if owned == "lambda".to_owned() {
            Some(Keyword::Lambda)
        } else if owned == "begin".to_owned() {
            Some(Keyword::Begin)
        } else {
            None
        }
    }
}

/// Everything one special-form dispatch owes: the exact outcome of
/// `quote` and `lambda`, the exact shape errors of every form, and the
/// exact outcome of `if`, `define`, `set!` and `begin` whenever the
/// operands involved are self-evaluating. `pre` is the store as the
/// handler started on the unevaluated operand list `args`, `post` the
/// store it left behind, `r` its result.
pub open spec fn keyword_apply_obligation(
    k: Keyword,
    pre: Environment,
    post: Environment,
    args: ObjectReference,
    r: Result<ObjectReference, SchemeError>,
) -> bool {
    &&& (k == Keyword::Quote ==> match quoted_datum(pre.objects@, args) {
        Some(x) => r == Ok::<ObjectReference, SchemeError>(x) && post == pre,
        None => r == Err::<ObjectReference, SchemeError>(SchemeError::UnsupportedForm)
            && post == pre,
    })
    &&& (k == Keyword::Lambda ==> match two_operands(pre.objects@, args) {
        Some(pb) => {
            &&& post.objects@ == pre.objects@.push(
                Object::Func(pb.0, pb.1, pre.current),
            )
            &&& post.frames@ == pre.frames@
            &&& r == Ok::<ObjectReference, SchemeError>(
                ObjectReference(pre.objects@.len() as usize),
            )
        },
        None => r == Err::<ObjectReference, SchemeError>(SchemeError::UnsupportedForm)
            && post == pre,
    })
    &&& (k == Keyword::If ==> match list_elems(pre.objects@, args) {
        None => r == Err::<ObjectReference, SchemeError>(SchemeError::UnsupportedForm)
            && post == pre,
        Some(es) => {
            &&& es.len() != 3 ==> r == Err::<ObjectReference, SchemeError>(
                SchemeError::UnsupportedForm,
            ) && post == pre
            &&& es.len() == 3 && self_evaluating(pre.objects@[es[0].0 as int]) ==> (
            if pre.objects@[es[0].0 as int] == Object::Val(Value::Boolean(false)) {
                self_evaluating(pre.objects@[es[2].0 as int]) ==> r == Ok::<
                    ObjectReference,
                    SchemeError,
                >(es[2]) && post == pre
            } else {
                self_evaluating(pre.objects@[es[1].0 as int]) ==> r == Ok::<
                    ObjectReference,
                    SchemeError,
                >(es[1]) && post == pre
            })
        },
    })
    &&& (k == Keyword::Begin ==> match list_elems(pre.objects@, args) {
        None => r == Err::<ObjectReference, SchemeError>(SchemeError::UnsupportedForm)
            && post == pre,
        Some(es) => {
            &&& es.len() == 0 ==> r == Err::<ObjectReference, SchemeError>(
                SchemeError::UnsupportedForm,
            ) && post == pre
            &&& es.len() >= 1 && (forall|i: int|
                0 <= i < es.len() ==> self_evaluating(
                    pre.objects@[(#[trigger] es[i]).0 as int],
                )) ==> r == Ok::<ObjectReference, SchemeError>(es[es.len() - 1]) && post == pre
        },
    })
    &&& (k == Keyword::Define ==> match list_elems(pre.objects@, args) {
        None => r == Err::<ObjectReference, SchemeError>(SchemeError::UnsupportedForm)
            && post == pre,
        Some(es) => {
            &&& es.len() != 2 ==> r == Err::<ObjectReference, SchemeError>(
                SchemeError::UnsupportedForm,
            ) && post == pre
            &&& es.len() == 2 && !(pre.objects@[es[0].0 as int] matches Object::Val(
                Value::Symbol(_),
            )) ==> r == Err::<ObjectReference, SchemeError>(SchemeError::UnsupportedForm)
                && post == pre
            &&& match pre.objects@[es[0].0 as int] {
                Object::Val(Value::Symbol(sym)) => es.len() == 2 && self_evaluating(
                    pre.objects@[es[1].0 as int],
                ) ==> {
                    &&& r == Ok::<ObjectReference, SchemeError>(es[1])
                    &&& post.objects@ == pre.objects@
                    &&& post.frames@.len() == pre.frames@.len()
                    &&& forall|i: int|
                        0 <= i < pre.frames@.len() && i != pre.current.0 as int
                            ==> post.frames@[i] == pre.frames@[i]
                    &&& post.frames@[pre.current.0 as int].bindings@ == pre.frames@[pre.current.0 as int].bindings@.push((sym, es[1]))
                },
                _ => true,
            }
        },
    })
    &&& (k == Keyword::SetBang ==> match list_elems(pre.objects@, args) {
        None => r == Err::<ObjectReference, SchemeError>(SchemeError::UnsupportedForm)
            && post == pre,
        Some(es) => {
            &&& es.len() != 2 ==> r == Err::<ObjectReference, SchemeError>(
                SchemeError::UnsupportedForm,
            ) && post == pre
            &&& es.len() == 2 && !(pre.objects@[es[0].0 as int] matches Object::Val(
                Value::Symbol(_),
            )) ==> r == Err::<ObjectReference, SchemeError>(SchemeError::UnsupportedForm)
                && post == pre
            &&& match pre.objects@[es[0].0 as int] {
                Object::Val(Value::Symbol(sym)) => es.len() == 2 && self_evaluating(
                    pre.objects@[es[1].0 as int],
                ) ==> {
                    &&& post.objects@ == pre.objects@
                    &&& match binding_frame(
                        pre.frames@,
                        pre.current.0 as int,
                        sym,
                    ) {
                        Some(f) => {
                            &&& r == Ok::<ObjectReference, SchemeError>(es[1])
                            &&& forall|i: int|
                                0 <= i < pre.frames@.len() && i != f ==> post.frames@[i] == pre.frames@[i]
                            &&& post.frames@[f].bindings@ == pre.frames@[f].bindings@.update(
                                last_binding_index(pre.frames@[f].bindings@, sym),
                                (sym, es[1]),
                            )
                        },
                        None => r matches Err(e2) && (e2
                            matches SchemeError::UnboundVariable(n) && n@ == pre.symbol_names@[sym.0 as int]@) && post.frames@ == pre.frames@,
                    }
                },
                _ => true,
            }
        },
    })
}

impl Keyword {
    /// Executes one special form against its unevaluated operand list
    /// `args`. `quote` returns its single operand handle untouched;
    /// `lambda` stores a procedure capturing the current frame; `if`
    /// evaluates the test and then exactly one branch (everything except
    /// `#f` counts as true); `define` evaluates its expression and binds
    /// the symbol in the innermost frame; `set!` evaluates its expression
    /// and overwrites the nearest existing binding; `begin` evaluates its
    /// operands in order and returns the last. `define` and `set!` return
    /// the evaluated value's handle. Any operand shape a handler does not
    /// implement fails with `UnsupportedForm`.
    #[verifier::loop_isolation(false)]
    pub fn apply(self, env: &mut Environment, args: ObjectReference, fuel: u64) -> (r: Result<
        ObjectReference,
        SchemeError,
    >)
        requires
            old(env).wf(),
            args.0 < old(env).objects@.len(),
        ensures
            eval_evolve(*old(env), *final(env)),
            r matches Ok(o) ==> o.0 < final(env).objects@.len(),
            keyword_apply_obligation(self, *old(env), *final(env), args, r),
        decreases fuel, 1int,
    {
        proof {
            lemma_evolve_refl(*old(env));
        }
        let a = env.get_object(args);
        proof {
            assert(crate::env::obj_wf(
                env.objects@[args.0 as int],
                args.0 as int,
                env.symbol_names@.len() as int,
                env.strings@.len() as int,
                env.frames@.len() as int,
            ));
        }
        match self {
            Keyword::Quote => {
                if let Object::Cons(x, n) = a {
                    if let Object::Nil = env.get_object(n) {
                        return Ok(x);
                    }
                }
                Err(SchemeError::UnsupportedForm)
            },
            Keyword::Lambda => {
                if let Object::Cons(p, r2) = a {
                    let a2 = env.get_object(r2);
                    proof {
                        assert(crate::env::obj_wf(
                            env.objects@[r2.0 as int],
                            r2.0 as int,
                            env.symbol_names@.len() as int,
                            env.strings@.len() as int,
                            env.frames@.len() as int,
                        ));
                    }
                    if let Object::Cons(b, n) = a2 {
                        if let Object::Nil = env.get_object(n) {
                            let cur = env.current;
                            let f = env.push_object(Object::Func(p, b, cur));
                            proof {
                                assert(env.objects@.subrange(
                                    0,
                                    old(env).objects@.len() as int,
                                ) =~= old(env).objects@);
                            }
                            return Ok(f);
                        }
                    }
                }
                Err(SchemeError::UnsupportedForm)
            },
            Keyword::If => {
                let ops = match env.list_as_vec(args) {
                    Some(v) => v,
                    None => {
                        return Err(SchemeError::UnsupportedForm);
                    },
                };
                if ops.len() != 3 {
                    return Err(SchemeError::UnsupportedForm);
                }
                proof {
                    crate::env::lemma_list_elems_valid(*env, args);
                }
                let ghost pre = *env;
                match eval_steps(env, ops[0], fuel) {
                    Ok(tv) => {
                        let tobj = env.get_object(tv);
                        let take_alt = match tobj {
                            Object::Val(Value::Boolean(false)) => true,
                            _ => false,
                        };
                        let branch = if take_alt {
                            ops[2]
                        } else {
                            ops[1]
                        };
                        proof {
                            assert(ops@[1].0 < pre.objects@.len());
                            assert(ops@[2].0 < pre.objects@.len());
                        }
                        let ghost mid = *env;
                        let res = eval_steps(env, branch, fuel);
                        proof {
                            lemma_evolve_trans(pre, mid, *env);
                        }
                        res
                    },
                    Err(e) => Err(e),
                }
            },
            Keyword::Define => {
                let ops = match env.list_as_vec(args) {
                    Some(v) => v,
                    None => {
                        return Err(SchemeError::UnsupportedForm);
                    },
                };
                if ops.len() != 2 {
                    return Err(SchemeError::UnsupportedForm);
                }
                proof {
                    crate::env::lemma_list_elems_valid(*env, args);
                }
                let name_obj = env.get_object(ops[0]);
                proof {
                    assert(crate::env::obj_wf(
                        env.objects@[ops@[0].0 as int],
                        ops@[0].0 as int,
                        env.symbol_names@.len() as int,
                        env.strings@.len() as int,
                        env.frames@.len() as int,
                    ));
                }
                let s = match name_obj {
                    Object::Val(Value::Symbol(s)) => s,
                    _ => {
                        return Err(SchemeError::UnsupportedForm);
                    },
                };
                let ghost pre = *env;
                match eval_steps(env, ops[1], fuel) {
                    Ok(v) => {
                        let ghost mid = *env;
                        env.set_var_with_ref(s, v);
                        proof {
                            assert(eval_evolve(mid, *env)) by {
                                assert(env.objects@.subrange(0, mid.objects@.len() as int)
                                    =~= env.objects@);
                            }
                            lemma_evolve_trans(pre, mid, *env);
                        }
                        Ok(v)
                    },
                    Err(e) => Err(e),
                }
            },
            Keyword::SetBang => {
                let ops = match env.list_as_vec(args) {
                    Some(v) => v,
                    None => {
                        return Err(SchemeError::UnsupportedForm);
                    },
                };
                if ops.len() != 2 {
                    return Err(SchemeError::UnsupportedForm);
                }
                proof {
                    crate::env::lemma_list_elems_valid(*env, args);
                }
                let name_obj = env.get_object(ops[0]);
                proof {
                    assert(crate::env::obj_wf(
                        env.objects@[ops@[0].0 as int],
                        ops@[0].0 as int,
                        env.symbol_names@.len() as int,
                        env.strings@.len() as int,
                        env.frames@.len() as int,
                    ));
                }
                let s = match name_obj {
                    Object::Val(Value::Symbol(s)) => s,
                    _ => {
                        return Err(SchemeError::UnsupportedForm);
                    },
                };
                let ghost pre = *env;
                match eval_steps(env, ops[1], fuel) {
                    Ok(v) => {
                        let ghost mid = *env;
                        match env.assign(s, v) {
                            Ok(_) => {
                                proof {
                                    match binding_frame(mid.frames@, mid.current.0 as int, s) {
                                        Some(f) => {
                                            crate::env::lemma_binding_frame_binds(
                                                mid.frames@,
                                                mid.current.0 as int,
                                                s,
                                                f,
                                            );
                                            crate::env::lemma_last_binding_index_sym(
                                                mid.frames@[f].bindings@,
                                                s,
                                            );
                                        },
                                        None => {},
                                    }
                                    assert(eval_evolve(mid, *env)) by {
                                        assert(env.objects@.subrange(
                                            0,
                                            mid.objects@.len() as int,
                                        ) =~= env.objects@);
                                    }
                                    lemma_evolve_trans(pre, mid, *env);
                                }
                                Ok(v)
                            },
                            Err(e) => {
                                proof {
                                    assert(eval_evolve(mid, *env)) by {
                                        assert(env.objects@.subrange(
                                            0,
                                            mid.objects@.len() as int,
                                        ) =~= env.objects@);
                                    }
                                    lemma_evolve_trans(pre, mid, *env);
                                }
                                Err(e)
                            },
                        }
                    },
                    Err(e) => Err(e),
                }
            },
            Keyword::Begin => {
                let ops = match env.list_as_vec(args) {
                    Some(v) => v,
                    None => {
                        return Err(SchemeError::UnsupportedForm);
                    },
                };
                if ops.len() == 0 {
                    return Err(SchemeError::UnsupportedForm);
                }
                proof {
                    crate::env::lemma_list_elems_valid(*env, args);
                }
                let ghost pre = *env;
                let n = ops.len();
                let mut last_val = ops[0];
                let mut k: usize = 0;
                while k < n
                    invariant
                        k <= n,
                        n == ops@.len(),
                        n >= 1,
                        pre.wf(),
                        eval_evolve(pre, *env),
                        forall|i: int|
                            0 <= i < ops@.len() ==> (#[trigger] ops@[i]).0
                                < pre.objects@.len(),
                        last_val.0 < env.objects@.len(),
                        (forall|i: int|
                            0 <= i < ops@.len() ==> self_evaluating(
                                pre.objects@[(#[trigger] ops@[i]).0 as int],
                            )) ==> *env == pre && (k >= 1 ==> last_val == ops@[k - 1]),
                    decreases n - k,
                {
                    let ghost mid = *env;
                    match eval_steps(env, ops[k], fuel) {
                        Ok(v) => {
                            last_val = v;
                        },
                        Err(e) => {
                            proof {
                                lemma_evolve_trans(pre, mid, *env);
                            }
                            return Err(e);
                        },
                    }
                    proof {
                        lemma_evolve_trans(pre, mid, *env);
                    }
                    k += 1;
                }
                Ok(last_val)
            },
        }
    }
}

/// The result an arithmetic builtin computes from two integers, with
/// two's-complement wraparound on overflow.
pub open spec fn arith_spec(f: StandardFunc, x: i64, y: i64) -> i64 {
    match f {
        StandardFunc::Plus => vstd::wrapping::i64_specs::wrapping_add(x, y),
        StandardFunc::Minus => vstd::wrapping::i64_specs::wrapping_sub(x, y),
    }
}

impl StandardFunc {
    /// Runs one standard procedure on its already-evaluated argument list:
    /// both `+` and `-` demand exactly two integer arguments and store
    /// their (wrapping) sum or difference as a fresh integer object. A
    /// malformed chain fails with `MalformedArgumentList`, a wrong count
    /// with `ArityMismatch`, and a non-integer argument with
    /// `TypeMismatch` (the first offender, left to right).
    pub fn apply(self, env: &mut Environment, args: ObjectReference) -> (r: Result<
        ObjectReference,
        SchemeError,
    >)
        requires
            old(env).wf(),
            args.0 < old(env).objects@.len(),
        ensures
            eval_evolve(*old(env), *final(env)),
            r matches Ok(o) ==> o.0 < final(env).objects@.len(),
            match list_elems(old(env).objects@, args) {
                None => r == Err::<ObjectReference, SchemeError>(
                    SchemeError::MalformedArgumentList,
                ) && *final(env) == *old(env),
                Some(es) => if es.len() != 2 {
                    r == Err::<ObjectReference, SchemeError>(
                        SchemeError::ArityMismatch(2, es.len() as usize),
                    ) && *final(env) == *old(env)
                } else {
                    match (
                        old(env).objects@[es[0].0 as int],
                        old(env).objects@[es[1].0 as int],
                    ) {
                        (
                            Object::Val(Value::IntNumber(x)),
                            Object::Val(Value::IntNumber(y)),
                        ) => {
                            &&& final(env).objects@ == old(env).objects@.push(
                                Object::Val(Value::IntNumber(arith_spec(self, x, y))),
                            )
                            &&& final(env).frames@ == old(env).frames@
                            &&& r == Ok::<ObjectReference, SchemeError>(
                                ObjectReference(old(env).objects@.len() as usize),
                            )
                        },
                        (Object::Val(Value::IntNumber(_)), o2) => r == Err::<
                            ObjectReference,
                            SchemeError,
                        >(SchemeError::TypeMismatch(ObjectKind::Integer, kind_of(o2)))
                            && *final(env) == *old(env),
                        (o1, _) => r == Err::<ObjectReference, SchemeError>(
                            SchemeError::TypeMismatch(ObjectKind::Integer, kind_of(o1)),
                        ) && *final(env) == *old(env),
                    }
                },
            },
    {
        proof {
            lemma_evolve_refl(*old(env));
        }
        let elems = match env.list_as_vec(args) {
            Some(v) => v,
            None => {
                return Err(SchemeError::MalformedArgumentList);
            },
        };
        if elems.len() != 2 {
            return Err(SchemeError::ArityMismatch(2, elems.len()));
        }
        proof {
            crate::env::lemma_list_elems_valid(*env, args);
        }
        let a = env.get_object(elems[0]);
        let b = env.get_object(elems[1]);
        let x = match a {
            Object::Val(Value::IntNumber(x)) => x,
            _ => {
                return Err(SchemeError::TypeMismatch(ObjectKind::Integer, crate::env::object_kind(a)));
            },
        };
        let y = match b {
            Object::Val(Value::IntNumber(y)) => y,
            _ => {
                return Err(SchemeError::TypeMismatch(ObjectKind::Integer, crate::env::object_kind(b)));
            },
        };
        let z = match self {
            StandardFunc::Plus => x.wrapping_add(y),
            StandardFunc::Minus => x.wrapping_sub(y),
        };
        let out = env.push_object(Object::Val(Value::IntNumber(z)));
        proof {
            assert(env.objects@.subrange(0, old(env).objects@.len() as int) =~= old(env).objects@);
        }
        Ok(out)
    }
}

impl StandardFunc {
    /// Looks a name up in the standard-procedure table.
    pub fn get(name: &str) -> (r: Option<StandardFunc>)
        ensures
            r == standard_func_spec(name@),
    {
        let owned = name.to_owned();
        if owned == "+".to_owned() {
            Some(StandardFunc::Plus)
        } else if owned == "-".to_owned() {
            Some(StandardFunc::Minus)
        } else {
            None
        }
    }
}

} // verus!
