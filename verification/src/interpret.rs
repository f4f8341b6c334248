//! The evaluator: classifies an expression object and either returns it
//! unchanged (self-evaluating), resolves a bare symbol through the
//! environment, executes a special form against unevaluated operands, or
//! evaluates operands left to right before invoking a builtin or
//! user-defined procedure.
//!
//! Evaluation is recursive and a user program may recurse without bound,
//! so every evaluation entry point carries an explicit step budget and
//! fails with `StepLimitExceeded` when it runs out; `eval` supplies a
//! default budget.

use vstd::prelude::*;

use crate::builtin::Keyword;
use crate::env::{
    kind_of, list_elems, lookup_chain, Environment, Object, ObjectReference, SchemeError,
    SymbolReference, Value,
};

verus! {

/// The step budget `eval` hands to `eval_steps`.
pub const DEFAULT_STEPS: u64 = 1000000;

/// An expression object that evaluates to itself: anything that is not a
/// pair and not a bare symbol.
pub open spec fn self_evaluating(o: Object) -> bool {
    match o {
        Object::Nil => true,
        Object::Cons(_, _) => false,
        Object::Func(_, _, _) => true,
        Object::Val(v) => !(v is Symbol),
    }
}

/// What any evaluation step may do to the store: keep it well-formed,
/// append to (never rewrite) the arena, leave the interning tables alone,
/// keep every existing frame's parent, and return with the same innermost
/// frame it started from. An existing frame's bindings change only the
/// way `define` and `set!` do: new entries may be appended and an
/// existing entry may be retargeted, but every existing entry keeps its
/// symbol.
pub open spec fn eval_evolve(pre: Environment, post: Environment) -> bool {
    &&& post.wf()
    &&& post.symbol_names@ == pre.symbol_names@
    &&& post.strings@ == pre.strings@
    &&& pre.objects@.len() <= post.objects@.len()
    &&& post.objects@.subrange(0, pre.objects@.len() as int) == pre.objects@
    &&& pre.frames@.len() <= post.frames@.len()
    &&& forall|i: int|
        0 <= i < pre.frames@.len() ==> (#[trigger] post.frames@[i]).parent
            == pre.frames@[i].parent
    &&& forall|i: int|
        0 <= i < pre.frames@.len() ==> pre.frames@[i].bindings@.len() <= (
        #[trigger] post.frames@[i]).bindings@.len()
    &&& forall|i: int, j: int|
        0 <= i < pre.frames@.len() && 0 <= j < pre.frames@[i].bindings@.len() ==> (
        #[trigger] post.frames@[i].bindings@[j]).0 == pre.frames@[i].bindings@[j].0
    &&& post.current == pre.current
}

/// A store evolves from itself.
pub proof fn lemma_evolve_refl(e: Environment)
    requires
        e.wf(),
    ensures
        eval_evolve(e, e),
{
    assert(e.objects@.subrange(0, e.objects@.len() as int) =~= e.objects@);
}

/// Evolution steps compose.
pub proof fn lemma_evolve_trans(a: Environment, b: Environment, c: Environment)
    requires
        eval_evolve(a, b),
        eval_evolve(b, c),
    ensures
        eval_evolve(a, c),
{
    let alen = a.objects@.len() as int;
    let blen = b.objects@.len() as int;
    assert forall|i: int| 0 <= i < alen implies c.objects@[i] == a.objects@[i] by {
        assert(b.objects@[i] == b.objects@.subrange(0, alen)[i]);
        assert(c.objects@[i] == c.objects@.subrange(0, blen)[i]);
    }
    assert(c.objects@.subrange(0, alen) =~= a.objects@);
}

/// If the expression is `(quote x)` — a pair whose head is the `quote`
/// keyword and whose operand list holds exactly one datum — the handle of
/// that datum.
pub open spec fn quote_operand(objs: Seq<Object>, oref: ObjectReference) -> Option<
    ObjectReference,
> {
    if oref.0 < objs.len() {
        match objs[oref.0 as int] {
            Object::Cons(h, rest) => if h.0 < objs.len() {
                match objs[h.0 as int] {
                    Object::Val(Value::Keyword(Keyword::Quote)) => quoted_datum(objs, rest),
                    _ => None,
                }
            } else {
                None
            },
            _ => None,
        }
    } else {
        None
    }
}

/// A one-element operand list `(x)`: the handle of `x`.
pub open spec fn quoted_datum(objs: Seq<Object>, rest: ObjectReference) -> Option<
    ObjectReference,
> {
    if rest.0 < objs.len() {
        match objs[rest.0 as int] {
            Object::Cons(x, n) => if n.0 < objs.len() && objs[n.0 as int] is Nil {
                Some(x)
            } else {
                None
            },
            _ => None,
        }
    } else {
        None
    }
}

/// A two-element operand list `(p b)`: the handles of `p` and `b`.
pub open spec fn two_operands(objs: Seq<Object>, rest: ObjectReference) -> Option<
    (ObjectReference, ObjectReference),
> {
    if rest.0 < objs.len() {
        match objs[rest.0 as int] {
            Object::Cons(p, r2) => if r2.0 < objs.len() {
                match objs[r2.0 as int] {
                    Object::Cons(b, n) => if n.0 < objs.len() && objs[n.0 as int] is Nil {
                        Some((p, b))
                    } else {
                        None
                    },
                    _ => None,
                }
            } else {
                None
            },
            _ => None,
        }
    } else {
        None
    }
}

/// If the expression applies a standard procedure: the procedure's tag
/// and its unevaluated operand list.
pub open spec fn builtin_application(objs: Seq<Object>, oref: ObjectReference) -> Option<
    (crate::builtin::StandardFunc, ObjectReference),
> {
    if oref.0 < objs.len() {
        match objs[oref.0 as int] {
            Object::Cons(h, rest) => if h.0 < objs.len() {
                match objs[h.0 as int] {
                    Object::Val(Value::StandardFunc(f)) => Some((f, rest)),
                    _ => None,
                }
            } else {
                None
            },
            _ => None,
        }
    } else {
        None
    }
}

/// What applying a standard procedure to fully evaluated, self-evaluating
/// operands must come to, starting from `pre`: first the freshly built
/// argument list, then the arithmetic result or the exact error. The
/// `bool` says whether the claim holds of the outcome `r` and the final
/// state `post`.
pub open spec fn builtin_literal_outcome(
    pre: Environment,
    post: Environment,
    f: crate::builtin::StandardFunc,
    es: Seq<ObjectReference>,
    r: Result<ObjectReference, SchemeError>,
) -> bool {
    let base = pre.objects@.len() as int;
    let chained = pre.objects@ + crate::env::chain_objs(base, es);
    &&& post.frames@ == pre.frames@
    &&& if es.len() != 2 {
        post.objects@ == chained && r == Err::<ObjectReference, SchemeError>(
            SchemeError::ArityMismatch(2, es.len() as usize),
        )
    } else {
        match (pre.objects@[es[0].0 as int], pre.objects@[es[1].0 as int]) {
            (Object::Val(Value::IntNumber(x)), Object::Val(Value::IntNumber(y))) => {
                &&& post.objects@ == chained.push(
                    Object::Val(Value::IntNumber(crate::builtin::arith_spec(f, x, y))),
                )
                &&& r == Ok::<ObjectReference, SchemeError>(
                    ObjectReference((base + es.len() + 1) as usize),
                )
            },
            (Object::Val(Value::IntNumber(_)), o2) => post.objects@ == chained && r == Err::<
                ObjectReference,
                SchemeError,
            >(SchemeError::TypeMismatch(crate::env::ObjectKind::Integer, kind_of(o2))),
            (o1, _) => post.objects@ == chained && r == Err::<ObjectReference, SchemeError>(
                SchemeError::TypeMismatch(crate::env::ObjectKind::Integer, kind_of(o1)),
            ),
        }
    }
}

/// If the expression is a special form: the keyword's tag and the
/// unevaluated operand list.
pub open spec fn keyword_head(objs: Seq<Object>, oref: ObjectReference) -> Option<
    (Keyword, ObjectReference),
> {
    if oref.0 < objs.len() {
        match objs[oref.0 as int] {
            Object::Cons(h, rest) => if h.0 < objs.len() {
                match objs[h.0 as int] {
                    Object::Val(Value::Keyword(k)) => Some((k, rest)),
                    _ => None,
                }
            } else {
                None
            },
            _ => None,
        }
    } else {
        None
    }
}

/// If the expression applies whatever a symbol is bound to: that symbol.
pub open spec fn symbol_head(objs: Seq<Object>, oref: ObjectReference) -> Option<SymbolReference> {
    if oref.0 < objs.len() {
        match objs[oref.0 as int] {
            Object::Cons(h, _) => if h.0 < objs.len() {
                match objs[h.0 as int] {
                    Object::Val(Value::Symbol(s)) => Some(s),
                    _ => None,
                }
            } else {
                None
            },
            _ => None,
        }
    } else {
        None
    }
}

/// If the expression is a pair whose head object can never be applied
/// (anything but a keyword, builtin tag or symbol), that head object.
pub open spec fn head_not_callable(objs: Seq<Object>, oref: ObjectReference) -> Option<Object> {
    if oref.0 < objs.len() {
        match objs[oref.0 as int] {
            Object::Cons(h, _) => if h.0 < objs.len() {
                match objs[h.0 as int] {
                    Object::Val(Value::Keyword(_)) => None,
                    Object::Val(Value::StandardFunc(_)) => None,
                    Object::Val(Value::Symbol(_)) => None,
                    o => Some(o),
                }
            } else {
                None
            },
            _ => None,
        }
    } else {
        None
    }
}

/// Evaluates one expression with the default step budget. See
/// `eval_steps` for the contract; the budget only bounds recursion depth
/// and loop length, it is not observable otherwise.
pub fn eval(env: &mut Environment, oref: ObjectReference) -> (r: Result<
    ObjectReference,
    SchemeError,
>)
    requires
        old(env).wf(),
        oref.0 < old(env).objects@.len(),
    ensures
        eval_evolve(*old(env), *final(env)),
        r matches Ok(o) ==> o.0 < final(env).objects@.len(),
        self_evaluating(old(env).objects@[oref.0 as int]) ==> r == Ok::<
            ObjectReference,
            SchemeError,
        >(oref) && *final(env) == *old(env),
        old(env).objects@[oref.0 as int] matches Object::Val(Value::Symbol(s)) ==> *final(env)
            == *old(env) && (match lookup_chain(old(env).frames@, old(env).current.0 as int, s) {
            Some(o) => r == Ok::<ObjectReference, SchemeError>(o),
            None => r matches Err(e) && e matches SchemeError::UnboundVariable(n) && n@ == old(
                env,
            ).symbol_names@[s.0 as int]@,
        }),
        quote_operand(old(env).objects@, oref) matches Some(x) ==> r == Ok::<
            ObjectReference,
            SchemeError,
        >(x) && *final(env) == *old(env),
        head_not_callable(old(env).objects@, oref) matches Some(ho) ==> r == Err::<
            ObjectReference,
            SchemeError,
        >(SchemeError::NotCallable(ho)) && *final(env) == *old(env),
        match keyword_head(old(env).objects@, oref) {
            Some(kr) => crate::builtin::keyword_apply_obligation(
                kr.0,
                *old(env),
                *final(env),
                kr.1,
                r,
            ),
            None => true,
        },
        match symbol_head(old(env).objects@, oref) {
            Some(s) => match lookup_chain(old(env).frames@, old(env).current.0 as int, s) {
                None => r matches Err(e) && (e matches SchemeError::UnboundVariable(n) && n@
                    == old(env).symbol_names@[s.0 as int]@) && *final(env) == *old(env),
                Some(fref) => !(old(env).objects@[fref.0 as int] is Func) ==> r == Err::<
                    ObjectReference,
                    SchemeError,
                >(SchemeError::NotCallable(old(env).objects@[fref.0 as int])) && *final(env)
                    == *old(env),
            },
            None => true,
        },
        match builtin_application(old(env).objects@, oref) {
            Some(fa) => match list_elems(old(env).objects@, fa.1) {
                Some(es) => (forall|i: int|
                    0 <= i < es.len() ==> self_evaluating(
                        old(env).objects@[(#[trigger] es[i]).0 as int],
                    )) ==> builtin_literal_outcome(*old(env), *final(env), fa.0, es, r),
                None => r == Err::<ObjectReference, SchemeError>(
                    SchemeError::MalformedArgumentList,
                ) && *final(env) == *old(env),
            },
            None => true,
        },
{
    eval_steps(env, oref, DEFAULT_STEPS)
}

/// Evaluates one expression within a step budget.
pub fn eval_steps(env: &mut Environment, oref: ObjectReference, fuel: u64) -> (r: Result<
    ObjectReference,
    SchemeError,
>)
    requires
        old(env).wf(),
        oref.0 < old(env).objects@.len(),
    ensures
        eval_evolve(*old(env), *final(env)),
        r matches Ok(o) ==> o.0 < final(env).objects@.len(),
        self_evaluating(old(env).objects@[oref.0 as int]) ==> r == Ok::<
            ObjectReference,
            SchemeError,
        >(oref) && *final(env) == *old(env),
        old(env).objects@[oref.0 as int] matches Object::Val(Value::Symbol(s)) ==> *final(env)
            == *old(env) && (match lookup_chain(old(env).frames@, old(env).current.0 as int, s) {
            Some(o) => r == Ok::<ObjectReference, SchemeError>(o),
            None => r matches Err(e) && e matches SchemeError::UnboundVariable(n) && n@ == old(
                env,
            ).symbol_names@[s.0 as int]@,
        }),
        old(env).objects@[oref.0 as int] is Cons && fuel == 0 ==> r == Err::<
            ObjectReference,
            SchemeError,
        >(SchemeError::StepLimitExceeded) && *final(env) == *old(env),
        fuel >= 1 ==> (quote_operand(old(env).objects@, oref) matches Some(x) ==> r == Ok::<
            ObjectReference,
            SchemeError,
        >(x) && *final(env) == *old(env)),
        fuel >= 1 ==> (head_not_callable(old(env).objects@, oref) matches Some(ho) ==> r
            == Err::<ObjectReference, SchemeError>(SchemeError::NotCallable(ho)) && *final(env)
            == *old(env)),
        fuel >= 1 ==> (match keyword_head(old(env).objects@, oref) {
            Some(kr) => crate::builtin::keyword_apply_obligation(
                kr.0,
                *old(env),
                *final(env),
                kr.1,
                r,
            ),
            None => true,
        }),
        fuel >= 1 ==> (match symbol_head(old(env).objects@, oref) {
            Some(s) => match lookup_chain(old(env).frames@, old(env).current.0 as int, s) {
                None => r matches Err(e) && (e matches SchemeError::UnboundVariable(n) && n@
                    == old(env).symbol_names@[s.0 as int]@) && *final(env) == *old(env),
                Some(fref) => !(old(env).objects@[fref.0 as int] is Func) ==> r == Err::<
                    ObjectReference,
                    SchemeError,
                >(SchemeError::NotCallable(old(env).objects@[fref.0 as int])) && *final(env)
                    == *old(env),
            },
            None => true,
        }),
        fuel >= 1 ==> (match builtin_application(old(env).objects@, oref) {
            Some(fa) => match list_elems(old(env).objects@, fa.1) {
                Some(es) => (forall|i: int|
                    0 <= i < es.len() ==> self_evaluating(
                        old(env).objects@[(#[trigger] es[i]).0 as int],
                    )) ==> builtin_literal_outcome(*old(env), *final(env), fa.0, es, r),
                None => r == Err::<ObjectReference, SchemeError>(
                    SchemeError::MalformedArgumentList,
                ) && *final(env) == *old(env),
            },
            None => true,
        }),
    decreases fuel, 0int,
{
    proof {
        lemma_evolve_refl(*old(env));
    }
    let obj = env.get_object(oref);
    proof {
        assert(crate::env::obj_wf(
            env.objects@[oref.0 as int],
            oref.0 as int,
            env.symbol_names@.len() as int,
            env.strings@.len() as int,
            env.frames@.len() as int,
        ));
    }
    match obj {
        Object::Val(Value::Symbol(s)) => {
            proof {
                crate::env::lemma_lookup_chain_valid(
                    env.frames@,
                    env.current.0 as int,
                    s,
                    env.symbol_names@.len() as int,
                    env.objects@.len() as int,
                );
            }
            env.get_var(s)
        },
        Object::Nil | Object::Val(_) | Object::Func(_, _, _) => Ok(oref),
        Object::Cons(head, rest) => {
            if fuel == 0 {
                return Err(SchemeError::StepLimitExceeded);
            }
            let h = env.get_object(head);
            match h {
                Object::Val(Value::Keyword(k)) => k.apply(env, rest, fuel - 1),
                Object::Val(Value::StandardFunc(f)) => {
                    let ghost mid0 = *env;
                    match eval_args(env, rest, fuel - 1) {
                        Ok(a) => {
                            let ghost mid1 = *env;
                            let arena_len = env.objects.len();
                            proof {
                                assert(arena_len == mid1.objects@.len());
                                match list_elems(mid0.objects@, rest) {
                                    Some(es) => {
                                        if forall|i: int|
                                            0 <= i < es.len() ==> self_evaluating(
                                                mid0.objects@[(#[trigger] es[i]).0 as int],
                                            ) {
                                            crate::env::lemma_chain_elems(
                                                mid0.objects@,
                                                es,
                                                es.len() as int,
                                            );
                                            assert(es.subrange(0, es.len() as int) =~= es);
                                            crate::env::lemma_list_elems_valid(mid0, rest);
                                        }
                                    },
                                    None => {},
                                }
                            }
                            let res = f.apply(env, a);
                            proof {
                                lemma_evolve_trans(mid0, mid1, *env);
                            }
                            res
                        },
                        Err(e) => Err(e),
                    }
                },
                Object::Val(Value::Symbol(s)) => {
                    proof {
                        crate::env::lemma_lookup_chain_valid(
                            env.frames@,
                            env.current.0 as int,
                            s,
                            env.symbol_names@.len() as int,
                            env.objects@.len() as int,
                        );
                    }
                    match env.get_var(s) {
                        Ok(fref) => {
                            let fobj = env.get_object(fref);
                            proof {
                                assert(crate::env::obj_wf(
                                    env.objects@[fref.0 as int],
                                    fref.0 as int,
                                    env.symbol_names@.len() as int,
                                    env.strings@.len() as int,
                                    env.frames@.len() as int,
                                ));
                            }
                            match fobj {
                                Object::Func(syms, expr, cap) => {
                                    let ghost mid0 = *env;
                                    match eval_args(env, rest, fuel - 1) {
                                        Ok(a) => {
                                            let ghost mid1 = *env;
                                            let res = apply_func(env, syms, expr, cap, a, fuel - 1);
                                            proof {
                                                lemma_evolve_trans(mid0, mid1, *env);
                                            }
                                            res
                                        },
                                        Err(e) => Err(e),
                                    }
                                },
                                _ => Err(SchemeError::NotCallable(fobj)),
                            }
                        },
                        Err(e) => Err(e),
                    }
                },
                _ => Err(SchemeError::NotCallable(h)),
            }
        },
    }
}

/// Walks a proper-list chain of expressions and evaluates each element
/// left to right; the result is a freshly built list of the result
/// handles, in the same order. A chain with a non-`Nil`, non-`Cons` tail
/// fails with `MalformedArgumentList` before anything is evaluated.
#[verifier::loop_isolation(false)]
pub fn eval_args(env: &mut Environment, args: ObjectReference, fuel: u64) -> (r: Result<
    ObjectReference,
    SchemeError,
>)
    requires
        old(env).wf(),
        args.0 < old(env).objects@.len(),
    ensures
        eval_evolve(*old(env), *final(env)),
        r matches Ok(o) ==> o.0 < final(env).objects@.len() && list_elems(
            final(env).objects@,
            o,
        ) is Some,
        match list_elems(old(env).objects@, args) {
            Some(src_es) => r matches Ok(o) ==> list_elems(
                final(env).objects@,
                o,
            ).unwrap().len() == src_es.len(),
            None => true,
        },
        list_elems(old(env).objects@, args) is None ==> r == Err::<
            ObjectReference,
            SchemeError,
        >(SchemeError::MalformedArgumentList) && *final(env) == *old(env),
        match list_elems(old(env).objects@, args) {
            Some(es) => (forall|i: int|
                0 <= i < es.len() ==> self_evaluating(
                    old(env).objects@[(#[trigger] es[i]).0 as int],
                )) ==> {
                &&& final(env).objects@ == old(env).objects@ + crate::env::chain_objs(
                    old(env).objects@.len() as int,
                    es,
                )
                &&& final(env).frames@ == old(env).frames@
                &&& r == Ok::<ObjectReference, SchemeError>(
                    ObjectReference((old(env).objects@.len() + es.len()) as usize),
                )
            },
            None => true,
        },
    decreases fuel, 1int,
{
    proof {
        lemma_evolve_refl(*old(env));
    }
    let elems = match env.list_as_vec(args) {
        Some(v) => v,
        None => {
            return Err(SchemeError::MalformedArgumentList);
        },
    };
    proof {
        crate::env::lemma_list_elems_valid(*env, args);
    }
    let ghost pre = *old(env);
    let ghost es = elems@;
    proof {
        assert(list_elems(pre.objects@, args) == Some(es));
        assert forall|i: int| 0 <= i < es.len() implies (#[trigger] es[i]).0
            < pre.objects@.len() by {}
    }
    let n = elems.len();
    let mut results: Vec<ObjectReference> = Vec::new();
    let mut idx: usize = 0;
    while idx < n
        invariant
            idx <= n,
            n == es.len(),
            elems@ == es,
            list_elems(pre.objects@, args) == Some(es),
            pre.wf(),
            eval_evolve(pre, *env),
            forall|i: int| 0 <= i < es.len() ==> (#[trigger] es[i]).0 < pre.objects@.len(),
            results@.len() == idx,
            forall|i: int|
                0 <= i < idx ==> (#[trigger] results@[i]).0 < env.objects@.len(),
            (forall|i: int|
                0 <= i < es.len() ==> self_evaluating(
                    pre.objects@[(#[trigger] es[i]).0 as int],
                )) ==> *env == pre && results@ == es.subrange(0, idx as int),
        decreases n - idx,
    {
        let ghost env0 = *env;
        let e = elems[idx];
        let r = eval_steps(env, e, fuel);
        proof {
            lemma_evolve_trans(pre, env0, *env);
        }
        match r {
            Ok(o) => {
                results.push(o);
                proof {
                    if forall|i: int|
                        0 <= i < es.len() ==> self_evaluating(
                            pre.objects@[(#[trigger] es[i]).0 as int],
                        ) {
                        assert(results@ =~= es.subrange(0, idx + 1));
                    }
                }
            },
            Err(e2) => {
                return Err(e2);
            },
        }
        proof {
            assert forall|i: int|
                0 <= i < results@.len() implies (#[trigger] results@[i]).0
                < env.objects@.len() by {}
        }
        idx += 1;
    }
    let ghost env1 = *env;
    let ghost rs = results@;
    let out = env.push_list(results);
    proof {
        assert(eval_evolve(env1, *env)) by {
            assert(env.objects@.subrange(0, env1.objects@.len() as int) =~= env1.objects@);
        }
        lemma_evolve_trans(pre, env1, *env);
        if forall|i: int|
            0 <= i < es.len() ==> self_evaluating(pre.objects@[(#[trigger] es[i]).0 as int]) {
            assert(rs =~= es);
        }
    }
    Ok(out)
}

/// The fresh frame's bindings pair the parameter symbols with the
/// argument handles, one to one and in order.
pub open spec fn params_bound(
    objs: Seq<Object>,
    ps: Seq<ObjectReference>,
    args: Seq<ObjectReference>,
    bindings: Seq<(SymbolReference, ObjectReference)>,
) -> bool {
    &&& bindings.len() == ps.len()
    &&& forall|i: int|
        0 <= i < ps.len() ==> objs[(#[trigger] ps[i]).0 as int] == Object::Val(
            Value::Symbol(bindings[i].0),
        ) && bindings[i].1 == args[i]
}

/// Applies a user-defined procedure: restores the captured scope chain,
/// enters a fresh frame, binds the parameter symbols to the evaluated
/// arguments one to one, evaluates the body there, and returns to the
/// caller's scope. A dotted parameter list is a shape this minimal design
/// does not implement (`UnsupportedForm`); a parameter that is not a
/// symbol fails with `TypeMismatch`, and a length mismatch with
/// `ArityMismatch`; in each of those cases the store is unchanged.
#[verifier::loop_isolation(false)]
pub fn apply_func(
    env: &mut Environment,
    arg_syms: ObjectReference,
    expr: ObjectReference,
    captured: crate::env::FrameReference,
    args: ObjectReference,
    fuel: u64,
) -> (r: Result<ObjectReference, SchemeError>)
    requires
        old(env).wf(),
        arg_syms.0 < old(env).objects@.len(),
        expr.0 < old(env).objects@.len(),
        captured.0 < old(env).frames@.len(),
        args.0 < old(env).objects@.len(),
        list_elems(old(env).objects@, args) is Some,
    ensures
        eval_evolve(*old(env), *final(env)),
        r matches Ok(o) ==> o.0 < final(env).objects@.len(),
        list_elems(old(env).objects@, arg_syms) is None ==> r == Err::<
            ObjectReference,
            SchemeError,
        >(SchemeError::UnsupportedForm) && *final(env) == *old(env),
        match list_elems(old(env).objects@, arg_syms) {
            Some(ps) => match first_non_symbol(old(env).objects@, ps) {
                Some(o) => r == Err::<ObjectReference, SchemeError>(
                    SchemeError::TypeMismatch(crate::env::ObjectKind::Symbol, kind_of(o)),
                ) && *final(env) == *old(env),
                None => true,
            },
            None => true,
        },
        match list_elems(old(env).objects@, arg_syms) {
            Some(ps) => first_non_symbol(old(env).objects@, ps) is None && ps.len()
                != list_elems(old(env).objects@, args).unwrap().len() ==> r == Err::<
                ObjectReference,
                SchemeError,
            >(
                SchemeError::ArityMismatch(
                    ps.len() as usize,
                    list_elems(old(env).objects@, args).unwrap().len() as usize,
                ),
            ) && *final(env) == *old(env),
            None => true,
        },
        match list_elems(old(env).objects@, arg_syms) {
            Some(ps) => first_non_symbol(old(env).objects@, ps) is None && ps.len()
                == list_elems(old(env).objects@, args).unwrap().len() ==> {
                &&& final(env).frames@.len() > old(env).frames@.len()
                &&& final(env).frames@[old(env).frames@.len() as int].parent == Some(captured)
            },
            None => true,
        },
        match list_elems(old(env).objects@, arg_syms) {
            Some(ps) => match list_elems(old(env).objects@, args) {
                Some(argrefs) => first_non_symbol(old(env).objects@, ps) is None && ps.len()
                    == argrefs.len() && self_evaluating(old(env).objects@[expr.0 as int]) ==> {
                    &&& r == Ok::<ObjectReference, SchemeError>(expr)
                    &&& final(env).objects@ == old(env).objects@
                    &&& final(env).frames@.len() == old(env).frames@.len() + 1
                    &&& forall|i: int|
                        0 <= i < old(env).frames@.len() ==> final(env).frames@[i] == old(
                            env,
                        ).frames@[i]
                    &&& final(env).frames@.last().parent == Some(captured)
                    &&& params_bound(
                        old(env).objects@,
                        ps,
                        argrefs,
                        final(env).frames@.last().bindings@,
                    )
                    &&& final(env).current == old(env).current
                },
                None => true,
            },
            None => true,
        },
    decreases fuel, 1int,
{
    proof {
        lemma_evolve_refl(*old(env));
    }
    let params = match env.list_as_vec(arg_syms) {
        Some(v) => v,
        None => {
            return Err(SchemeError::UnsupportedForm);
        },
    };
    proof {
        crate::env::lemma_list_elems_valid(*env, arg_syms);
    }
    // extract the parameter symbols, rejecting any non-symbol element
    let mut syms: Vec<crate::env::SymbolReference> = Vec::new();
    let mut i: usize = 0;
    let ghost ps = params@;
    while i < params.len()
        invariant
            *env == *old(env),
            env.wf(),
            i <= params.len(),
            params@ == ps,
            forall|k: int| 0 <= k < ps.len() ==> (#[trigger] ps[k]).0 < env.objects@.len(),
            syms@.len() == i,
            forall|k: int|
                0 <= k < i ==> env.objects@[(#[trigger] ps[k]).0 as int] == Object::Val(
                    Value::Symbol(syms@[k]),
                ),
            forall|k: int|
                0 <= k < i ==> (#[trigger] syms@[k]).0 < env.symbol_names@.len(),
        decreases params.len() - i,
    {
        let p = params[i];
        let pobj = env.get_object(p);
        proof {
            assert(crate::env::obj_wf(
                env.objects@[p.0 as int],
                p.0 as int,
                env.symbol_names@.len() as int,
                env.strings@.len() as int,
                env.frames@.len() as int,
            ));
        }
        match pobj {
            Object::Val(Value::Symbol(s)) => {
                syms.push(s);
            },
            o => {
                proof {
                    lemma_first_non_symbol_at(env.objects@, ps, i as int);
                }
                return Err(
                    SchemeError::TypeMismatch(
                        crate::env::ObjectKind::Symbol,
                        crate::env::object_kind(o),
                    ),
                );
            },
        }
        i += 1;
    }
    proof {
        lemma_first_non_symbol_at(env.objects@, ps, ps.len() as int);
    }
    let argv = match env.list_as_vec(args) {
        Some(v) => v,
        None => {
            proof {
                assert(false);
            }
            return Err(SchemeError::MalformedArgumentList);
        },
    };
    proof {
        crate::env::lemma_list_elems_valid(*env, args);
    }
    if syms.len() != argv.len() {
        return Err(SchemeError::ArityMismatch(syms.len(), argv.len()));
    }
    // switch to the captured chain and bind the parameters in a new frame
    let saved = env.current;
    let ghost checked = *env;
    env.current = captured;
    env.enter_scope();
    let ghost entered = *env;
    proof {
        lemma_evolve_refl(entered);
        assert(env.objects@ == checked.objects@);
        assert forall|k: int| 0 <= k < argv@.len() implies (#[trigger] argv@[k]).0
            < env.objects@.len() by {}
    }
    let mut j: usize = 0;
    while j < syms.len()
        invariant
            j <= syms.len(),
            syms.len() == argv.len(),
            env.wf(),
            forall|k: int|
                0 <= k < syms@.len() ==> (#[trigger] syms@[k]).0 < env.symbol_names@.len(),
            forall|k: int|
                0 <= k < argv@.len() ==> (#[trigger] argv@[k]).0 < env.objects@.len(),
            eval_evolve(entered, *env),
            env.objects@ == entered.objects@,
            env.frames@.len() == entered.frames@.len(),
            env.current == entered.current,
            forall|k: int|
                0 <= k < entered.frames@.len() && k != entered.current.0 as int
                    ==> env.frames@[k] == entered.frames@[k],
            env.frames@[entered.current.0 as int].parent == entered.frames@[entered.current.0
                as int].parent,
            env.frames@[entered.current.0 as int].bindings@.len() == j,
            forall|k: int|
                0 <= k < j ==> env.frames@[entered.current.0 as int].bindings@[k] == (
                    syms@[k],
                    argv@[k],
                ),
        decreases syms.len() - j,
    {
        let s = syms[j];
        let a = argv[j];
        let ghost before = *env;
        env.set_var_with_ref(s, a);
        proof {
            assert(eval_evolve(before, *env)) by {
                assert(env.objects@.subrange(0, before.objects@.len() as int) =~= env.objects@);
            }
            lemma_evolve_trans(entered, before, *env);
        }
        j += 1;
    }
    // evaluate the body in the new scope, then return to the caller's chain
    let ghost bound = *env;
    let body_res = eval_steps(env, expr, fuel);
    proof {
        lemma_evolve_trans(entered, bound, *env);
        assert(env.frames@[env.current.0 as int].parent == entered.frames@[entered.current.0
            as int].parent);
    }
    env.exit_scope();
    env.current = saved;
    proof {
        let a = *old(env);
        assert(env.objects@.subrange(0, a.objects@.len() as int) == entered.objects@);
        assert forall|k: int| 0 <= k < a.frames@.len() implies (#[trigger] env.frames@[k]).parent
            == a.frames@[k].parent by {
            assert(entered.frames@[k].parent == a.frames@[k].parent);
        }
        assert(eval_evolve(a, *env));
        let fresh = a.frames@.len() as int;
        assert(env.frames@[fresh].parent == entered.frames@[fresh].parent);
        if self_evaluating(a.objects@[expr.0 as int]) {
            assert(env.objects@ == bound.objects@);
            assert(env.frames@ == bound.frames@);
            assert(env.frames@.last() == env.frames@[fresh]);
            assert forall|k: int| 0 <= k < a.frames@.len() implies env.frames@[k]
                == a.frames@[k] by {
                assert(env.frames@[k] == entered.frames@[k]);
            }
        }
    }
    body_res
}

/// The first parameter-list element that is not a symbol, if any.
pub open spec fn first_non_symbol(objs: Seq<Object>, ps: Seq<ObjectReference>) -> Option<Object>
    decreases ps.len(),
{
    if ps.len() == 0 {
        None
    } else if ps[0].0 < objs.len() {
        match objs[ps[0].0 as int] {
            Object::Val(Value::Symbol(_)) => first_non_symbol(objs, ps.drop_first()),
            o => Some(o),
        }
    } else {
        Some(Object::Nil)
    }
}

/// If every element before `i` is a symbol, the first non-symbol of the
/// whole list is decided at position `i`: there is none if `i` is the
/// end, and it is the object at `i` otherwise.
proof fn lemma_first_non_symbol_at(objs: Seq<Object>, ps: Seq<ObjectReference>, i: int)
    requires
        0 <= i <= ps.len(),
        forall|k: int| 0 <= k < ps.len() ==> (#[trigger] ps[k]).0 < objs.len(),
        forall|k: int|
            0 <= k < i ==> objs[(#[trigger] ps[k]).0 as int] matches Object::Val(
                Value::Symbol(_),
            ),
    ensures
        i == ps.len() ==> first_non_symbol(objs, ps) is None,
        i < ps.len() && !(objs[ps[i].0 as int] matches Object::Val(Value::Symbol(_)))
            ==> first_non_symbol(objs, ps) == Some(objs[ps[i].0 as int]),
    decreases ps.len(),
{
    if ps.len() == 0 {
    } else if i == 0 {
    } else {
        let tail = ps.drop_first();
        assert(ps[0].0 < objs.len());
        assert(objs[ps[0].0 as int] matches Object::Val(Value::Symbol(_)));
        assert(forall|k: int| 0 <= k < tail.len() ==> tail[k] == ps[k + 1]);
        lemma_first_non_symbol_at(objs, tail, i - 1);
        if i < ps.len() {
            assert(tail[i - 1] == ps[i]);
        }
    }
}


} // verus!
