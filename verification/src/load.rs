//! The loader: lowers a parsed syntax value into arena objects, interning
//! symbols and strings on the way, and materializing list structure as
//! chained pair objects. Lowering is total over any syntactically valid
//! parsed value; type and arity errors surface later, during evaluation.

use vstd::prelude::*;

use crate::env::{
    chain_objs, intern_spec, Environment, Object, ObjectReference, StringReference, Value,
};
use crate::parse::SchemeParserValue;

verus! {

/// The part of the store that lowering touches: the symbol table, the
/// object arena and the string table. Frames are never touched.
#[verifier::ext_equal]
pub struct LowerState {
    pub symbol_names: Seq<String>,
    pub objects: Seq<Object>,
    pub strings: Seq<String>,
}

/// The lowering-relevant part of an environment.
pub open spec fn lstate(e: Environment) -> LowerState {
    LowerState { symbol_names: e.symbol_names@, objects: e.objects@, strings: e.strings@ }
}

/// The object records that chaining `vals` onto an existing tail handle
/// appends to an arena holding `base` records: one `Cons` per element,
/// built from the rear, the innermost one holding the tail.
pub open spec fn dotted_chain_objs(
    base: int,
    vals: Seq<ObjectReference>,
    tail: ObjectReference,
) -> Seq<Object> {
    Seq::new(
        vals.len() as nat,
        |k: int|
            if k == 0 {
                Object::Cons(vals[vals.len() - 1], tail)
            } else {
                Object::Cons(vals[vals.len() - 1 - k], ObjectReference((base + k - 1) as usize))
            },
    )
}

/// Lowering one parsed value, abstractly: which records it appends and
/// which handle it returns. An atom becomes one `Val` record (interning
/// symbol or string text first); a proper list becomes the lowered
/// elements followed by a `Nil`-terminated chain; a dotted form becomes
/// the lowered elements and tail followed by a chain ending in the tail.
pub open spec fn lower_value(st: LowerState, v: SchemeParserValue) -> (LowerState, ObjectReference)
    decreases v,
{
    match v {
        SchemeParserValue::Symbol(s) => {
            let (names2, val) = intern_spec(st.symbol_names, s);
            (
                LowerState {
                    symbol_names: names2,
                    objects: st.objects.push(Object::Val(val)),
                    strings: st.strings,
                },
                ObjectReference(st.objects.len() as usize),
            )
        },
        SchemeParserValue::IntNumber(i) => (
            LowerState {
                objects: st.objects.push(Object::Val(Value::IntNumber(i))),
                ..st
            },
            ObjectReference(st.objects.len() as usize),
        ),
        SchemeParserValue::Boolean(b) => (
            LowerState { objects: st.objects.push(Object::Val(Value::Boolean(b))), ..st },
            ObjectReference(st.objects.len() as usize),
        ),
        SchemeParserValue::Character(c) => (
            LowerState {
                objects: st.objects.push(Object::Val(Value::Character(c))),
                ..st
            },
            ObjectReference(st.objects.len() as usize),
        ),
        SchemeParserValue::Text(s) => (
            LowerState {
                symbol_names: st.symbol_names,
                objects: st.objects.push(
                    Object::Val(Value::StringRef(StringReference(st.strings.len() as usize))),
                ),
                strings: st.strings.push(s),
            },
            ObjectReference(st.objects.len() as usize),
        ),
        SchemeParserValue::List(l) => {
            let (st2, refs) = lower_values(st, l@);
            (
                LowerState {
                    objects: st2.objects + chain_objs(st2.objects.len() as int, refs),
                    ..st2
                },
                ObjectReference((st2.objects.len() + refs.len()) as usize),
            )
        },
        SchemeParserValue::Improper(l, t) => {
            let (st2, refs) = lower_values(st, l@);
            let (st3, tref) = lower_value(st2, *t);
            (
                LowerState {
                    objects: st3.objects + dotted_chain_objs(st3.objects.len() as int, refs, tref),
                    ..st3
                },
                if refs.len() == 0 {
                    tref
                } else {
                    ObjectReference((st3.objects.len() + refs.len() - 1) as usize)
                },
            )
        },
    }
}

/// Lowering a sequence of parsed values left to right, collecting the
/// handle of each.
pub open spec fn lower_values(st: LowerState, l: Seq<SchemeParserValue>) -> (
    LowerState,
    Seq<ObjectReference>,
)
    decreases l,
{
    if l.len() == 0 {
        (st, Seq::empty())
    } else {
        let (st2, r) = lower_value(st, l[0]);
        let (st3, rest) = lower_values(st2, l.drop_first());
        (st3, seq![r] + rest)
    }
}

/// Lowering never removes records: the arena only grows.
pub proof fn lemma_lower_value_grows(st: LowerState, v: SchemeParserValue)
    ensures
        st.objects.len() <= lower_value(st, v).0.objects.len(),
    decreases v,
{
    match v {
        SchemeParserValue::List(l) => {
            lemma_lower_values_grows(st, l@);
        },
        SchemeParserValue::Improper(l, t) => {
            lemma_lower_values_grows(st, l@);
            lemma_lower_value_grows(lower_values(st, l@).0, *t);
        },
        _ => {},
    }
}

/// Lowering a sequence never removes records either.
pub proof fn lemma_lower_values_grows(st: LowerState, l: Seq<SchemeParserValue>)
    ensures
        st.objects.len() <= lower_values(st, l).0.objects.len(),
    decreases l,
{
    if l.len() > 0 {
        lemma_lower_value_grows(st, l[0]);
        lemma_lower_values_grows(lower_value(st, l[0]).0, l.drop_first());
    }
}

/// Lowering appends: the records already stored stay exactly where they
/// were, and so do the interned strings.
pub proof fn lemma_lower_value_prefix(st: LowerState, v: SchemeParserValue)
    ensures
        st.objects.len() <= lower_value(st, v).0.objects.len(),
        lower_value(st, v).0.objects.subrange(0, st.objects.len() as int) == st.objects,
        st.strings.len() <= lower_value(st, v).0.strings.len(),
        lower_value(st, v).0.strings.subrange(0, st.strings.len() as int) == st.strings,
    decreases v,
{
    let post = lower_value(st, v).0;
    match v {
        SchemeParserValue::List(l) => {
            lemma_lower_values_prefix(st, l@);
            let mid = lower_values(st, l@).0;
            assert(post.objects.subrange(0, st.objects.len() as int) =~= st.objects) by {
                assert(forall|i: int|
                    0 <= i < st.objects.len() ==> post.objects[i] == mid.objects[i]);
                assert(forall|i: int|
                    0 <= i < st.objects.len() ==> mid.objects[i] == mid.objects.subrange(
                        0,
                        st.objects.len() as int,
                    )[i]);
            }
        },
        SchemeParserValue::Improper(l, t) => {
            lemma_lower_values_prefix(st, l@);
            let mid = lower_values(st, l@).0;
            lemma_lower_value_prefix(mid, *t);
            let mid2 = lower_value(mid, *t).0;
            assert(post.objects.subrange(0, st.objects.len() as int) =~= st.objects) by {
                assert(forall|i: int|
                    0 <= i < mid.objects.len() ==> mid2.objects[i] == mid2.objects.subrange(
                        0,
                        mid.objects.len() as int,
                    )[i]);
                assert(forall|i: int|
                    0 <= i < st.objects.len() ==> mid.objects[i] == mid.objects.subrange(
                        0,
                        st.objects.len() as int,
                    )[i]);
            }
            assert(post.strings.subrange(0, st.strings.len() as int) =~= st.strings) by {
                assert(forall|i: int|
                    0 <= i < mid.strings.len() ==> mid2.strings[i] == mid2.strings.subrange(
                        0,
                        mid.strings.len() as int,
                    )[i]);
                assert(forall|i: int|
                    0 <= i < st.strings.len() ==> mid.strings[i] == mid.strings.subrange(
                        0,
                        st.strings.len() as int,
                    )[i]);
            }
        },
        _ => {
            assert(post.objects.subrange(0, st.objects.len() as int) =~= st.objects);
            assert(post.strings.subrange(0, st.strings.len() as int) =~= st.strings);
        },
    }
}

/// Lowering a sequence appends too.
pub proof fn lemma_lower_values_prefix(st: LowerState, l: Seq<SchemeParserValue>)
    ensures
        st.objects.len() <= lower_values(st, l).0.objects.len(),
        lower_values(st, l).0.objects.subrange(0, st.objects.len() as int) == st.objects,
        st.strings.len() <= lower_values(st, l).0.strings.len(),
        lower_values(st, l).0.strings.subrange(0, st.strings.len() as int) == st.strings,
    decreases l,
{
    let post = lower_values(st, l).0;
    if l.len() == 0 {
        assert(post.objects.subrange(0, st.objects.len() as int) =~= st.objects);
        assert(post.strings.subrange(0, st.strings.len() as int) =~= st.strings);
    } else {
        lemma_lower_value_prefix(st, l[0]);
        let mid = lower_value(st, l[0]).0;
        lemma_lower_values_prefix(mid, l.drop_first());
        assert(post.objects.subrange(0, st.objects.len() as int) =~= st.objects) by {
            assert(forall|i: int|
                0 <= i < mid.objects.len() ==> post.objects[i] == post.objects.subrange(
                    0,
                    mid.objects.len() as int,
                )[i]);
            assert(forall|i: int|
                0 <= i < st.objects.len() ==> mid.objects[i] == mid.objects.subrange(
                    0,
                    st.objects.len() as int,
                )[i]);
        }
        assert(post.strings.subrange(0, st.strings.len() as int) =~= st.strings) by {
            assert(forall|i: int|
                0 <= i < mid.strings.len() ==> post.strings[i] == post.strings.subrange(
                    0,
                    mid.strings.len() as int,
                )[i]);
            assert(forall|i: int|
                0 <= i < st.strings.len() ==> mid.strings[i] == mid.strings.subrange(
                    0,
                    st.strings.len() as int,
                )[i]);
        }
    }
}

/// A parsed atom that is not a symbol: an integer, boolean, character or
/// string literal.
pub open spec fn is_literal(v: SchemeParserValue) -> bool {
    match v {
        SchemeParserValue::IntNumber(_) => true,
        SchemeParserValue::Boolean(_) => true,
        SchemeParserValue::Character(_) => true,
        SchemeParserValue::Text(_) => true,
        _ => false,
    }
}

/// The object at `r` carries exactly the literal `v` (a string literal
/// through its payload in the string table).
pub open spec fn literal_object_matches(
    objs: Seq<Object>,
    strings: Seq<String>,
    r: ObjectReference,
    v: SchemeParserValue,
) -> bool {
    r.0 < objs.len() && match v {
        SchemeParserValue::IntNumber(i) => objs[r.0 as int] == Object::Val(Value::IntNumber(i)),
        SchemeParserValue::Boolean(b) => objs[r.0 as int] == Object::Val(Value::Boolean(b)),
        SchemeParserValue::Character(c) => objs[r.0 as int] == Object::Val(Value::Character(c)),
        SchemeParserValue::Text(s) => match objs[r.0 as int] {
            Object::Val(Value::StringRef(sr)) => sr.0 < strings.len() && strings[sr.0 as int]@
                == s@,
            _ => false,
        },
        _ => false,
    }
}

/// Self-evaluation, loader half: a literal lowers to a single fresh
/// value record carrying exactly the literal's value, and that record is
/// self-evaluating — so by the evaluator's contract, evaluating the
/// returned handle hands the same handle back with the store untouched.
pub proof fn lemma_literal_self_evaluation(st: LowerState, v: SchemeParserValue)
    requires
        is_literal(v),
        st.objects.len() < usize::MAX,
        st.strings.len() < usize::MAX,
    ensures
        lower_value(st, v).1.0 == st.objects.len(),
        lower_value(st, v).0.objects.len() == st.objects.len() + 1,
        literal_object_matches(
            lower_value(st, v).0.objects,
            lower_value(st, v).0.strings,
            lower_value(st, v).1,
            v,
        ),
        crate::interpret::self_evaluating(
            lower_value(st, v).0.objects[lower_value(st, v).1.0 as int],
        ),
{
}

/// List-construction round trip: lowering a proper list of `n` literals
/// (the `List` case of `lower_value` composes exactly these two steps)
/// appends one value record per literal and then a chain of `n` pair
/// records ending in a fresh `Nil` record; walking the chain from the
/// returned head handle recovers the `n` element handles in order, and
/// each of them carries exactly its literal's value.
pub proof fn lemma_list_round_trip(st: LowerState, l: Seq<SchemeParserValue>)
    requires
        forall|i: int| 0 <= i < l.len() ==> is_literal(#[trigger] l[i]),
        st.objects.len() + 2 * l.len() + 1 <= usize::MAX,
        st.strings.len() + l.len() <= usize::MAX,
    ensures
        ({
            let (st2, refs) = lower_values(st, l);
            let objs = st2.objects + chain_objs(st2.objects.len() as int, refs);
            let head = ObjectReference((st2.objects.len() + refs.len()) as usize);
            &&& refs.len() == l.len()
            &&& st2.objects.len() == st.objects.len() + l.len()
            &&& chain_objs(st2.objects.len() as int, refs).len() == l.len() + 1
            &&& crate::env::list_elems(objs, head) == Some(refs)
            &&& forall|i: int|
                0 <= i < l.len() ==> literal_object_matches(
                    objs,
                    st2.strings,
                    #[trigger] refs[i],
                    l[i],
                )
        }),
    decreases l.len(),
{
    let (st2, refs) = lower_values(st, l);
    let objs = st2.objects + chain_objs(st2.objects.len() as int, refs);
    lemma_lower_literals(st, l);
    crate::env::lemma_chain_elems(st2.objects, refs, refs.len() as int);
    assert(refs.subrange(0, refs.len() as int) =~= refs);
    assert forall|i: int| 0 <= i < l.len() implies literal_object_matches(
        objs,
        st2.strings,
        #[trigger] refs[i],
        l[i],
    ) by {
        assert(literal_object_matches(st2.objects, st2.strings, refs[i], l[i]));
        assert(objs[refs[i].0 as int] == st2.objects[refs[i].0 as int]);
    }
}

/// Lowering a sequence of literals appends exactly one value record per
/// literal, each matching its literal.
proof fn lemma_lower_literals(st: LowerState, l: Seq<SchemeParserValue>)
    requires
        forall|i: int| 0 <= i < l.len() ==> is_literal(#[trigger] l[i]),
        st.objects.len() + l.len() <= usize::MAX,
        st.strings.len() + l.len() <= usize::MAX,
    ensures
        ({
            let (st2, refs) = lower_values(st, l);
            &&& refs.len() == l.len()
            &&& st2.objects.len() == st.objects.len() + l.len()
            &&& st2.symbol_names == st.symbol_names
            &&& forall|i: int|
                0 <= i < l.len() ==> literal_object_matches(
                    st2.objects,
                    st2.strings,
                    #[trigger] refs[i],
                    l[i],
                )
        }),
    decreases l.len(),
{
    if l.len() > 0 {
        let first = l[0];
        lemma_literal_self_evaluation(st, first);
        let mid = lower_value(st, first).0;
        let r0 = lower_value(st, first).1;
        lemma_lower_literals(mid, l.drop_first());
        let st2 = lower_values(mid, l.drop_first()).0;
        let rest = lower_values(mid, l.drop_first()).1;
        lemma_lower_values_prefix(mid, l.drop_first());
        assert(literal_object_matches(st2.objects, st2.strings, r0, first)) by {
            assert(st2.objects[r0.0 as int] == st2.objects.subrange(
                0,
                mid.objects.len() as int,
            )[r0.0 as int]);
            match first {
                SchemeParserValue::Text(_) => {
                    let sr = st.strings.len() as int;
                    assert(st2.strings[sr] == st2.strings.subrange(
                        0,
                        mid.strings.len() as int,
                    )[sr]);
                },
                _ => {},
            }
        }
        let refs = lower_values(st, l).1;
        assert(refs == seq![r0] + rest);
        assert forall|i: int| 0 <= i < l.len() implies literal_object_matches(
            st2.objects,
            st2.strings,
            #[trigger] refs[i],
            l[i],
        ) by {
            if i == 0 {
            } else {
                assert(refs[i] == rest[i - 1]);
                assert(l.drop_first()[i - 1] == l[i]);
            }
        }
    }
}

/// Dotted-pair construction: lowering a dotted pair of two symbols
/// `(a . b)` appends exactly the two symbol records and then one single
/// `Cons` — no `Nil` terminator and no extra list wrapper — whose car is
/// the record interned for the first symbol and whose cdr the record
/// interned for the second.
pub proof fn lemma_dotted_pair_loads_as_single_pair(
    st: LowerState,
    v: SchemeParserValue,
    sa: String,
    sb: String,
)
    requires
        v matches SchemeParserValue::Improper(l, t) && l@.len() == 1 && l@[0]
            == SchemeParserValue::Symbol(sa) && *t == SchemeParserValue::Symbol(sb),
        st.objects.len() + 3 <= usize::MAX,
    ensures
        ({
            let (st2, r) = lower_value(st, v);
            let car_val = intern_spec(st.symbol_names, sa).1;
            let cdr_val = intern_spec(intern_spec(st.symbol_names, sa).0, sb).1;
            &&& st2.objects.len() == st.objects.len() + 3
            &&& r.0 == st.objects.len() + 2
            &&& st2.objects[r.0 as int] == Object::Cons(
                ObjectReference(st.objects.len() as usize),
                ObjectReference((st.objects.len() + 1) as usize),
            )
            &&& st2.objects[st.objects.len() as int] == Object::Val(car_val)
            &&& st2.objects[st.objects.len() as int + 1] == Object::Val(cdr_val)
        }),
{
    match v {
        SchemeParserValue::Improper(l, t) => {
            let ls = l@;
            assert(ls.drop_first() =~= Seq::<SchemeParserValue>::empty());
            let (st1, refs) = lower_values(st, ls);
            assert(lower_values(lower_value(st, ls[0]).0, ls.drop_first()) == (
                lower_value(st, ls[0]).0,
                Seq::<ObjectReference>::empty(),
            ));
            assert(refs =~= seq![lower_value(st, ls[0]).1]);
            let (st3, tref) = lower_value(st1, *t);
            let chain = dotted_chain_objs(st3.objects.len() as int, refs, tref);
            assert(chain.len() == 1);
            assert(chain[0] == Object::Cons(refs[0], tref));
            let (st2, r) = lower_value(st, v);
            assert(st2.objects =~= st3.objects + chain);
            assert(st2.objects[st.objects.len() as int] == Object::Val(
                intern_spec(st.symbol_names, sa).1,
            ));
        },
        _ => {},
    }
}

/// Builds a fresh store (global frame already entered) and lowers one
/// parsed program into it, returning the store and the handle of the
/// top-level expression.
pub fn build_environment(input: SchemeParserValue) -> (r: (Environment, ObjectReference))
    ensures
        r.0.wf(),
        (lstate(r.0), r.1) == lower_value(
            LowerState {
                symbol_names: Seq::empty(),
                objects: Seq::empty(),
                strings: Seq::empty(),
            },
            input,
        ),
        r.1.0 < r.0.objects@.len(),
        r.0.frames@.len() == 1,
        r.0.frames@[0].parent is None,
        r.0.frames@[0].bindings@.len() == 0,
        r.0.current.0 == 0,
{
    let mut env = Environment::new();
    proof {
        assert(lstate(env) =~= LowerState {
            symbol_names: Seq::empty(),
            objects: Seq::empty(),
            strings: Seq::empty(),
        });
    }
    let program = build_value(&mut env, input);
    (env, program)
}

/// Lowers one parsed value into the store, returning the handle of the
/// object built for it.
pub fn build_value(env: &mut Environment, input: SchemeParserValue) -> (r: ObjectReference)
    requires
        old(env).wf(),
    ensures
        final(env).wf(),
        (lstate(*final(env)), r) == lower_value(lstate(*old(env)), input),
        r.0 < final(env).objects@.len(),
        final(env).frames@ == old(env).frames@,
        final(env).current == old(env).current,
    decreases input,
{
    let ghost pre = lstate(*old(env));
    match input {
        SchemeParserValue::Symbol(s) => {
            let n_syms = env.symbol_names.len();
            proof {
                assert(pre.symbol_names.len() == n_syms as int);
            }
            let sval = env.push_symbol(s);
            proof {
                match sval {
                    Value::Symbol(sr) => {
                        crate::env::lemma_intern_symbol_in_range(pre.symbol_names, s, sr);
                    },
                    _ => {},
                }
            }
            let r = env.push_object(Object::Val(sval));
            proof {
                assert(lstate(*env) =~= lower_value(pre, SchemeParserValue::Symbol(s)).0);
            }
            r
        },
        SchemeParserValue::IntNumber(i) => {
            let r = env.push_object(Object::Val(Value::IntNumber(i)));
            proof {
                assert(lstate(*env) =~= lower_value(pre, SchemeParserValue::IntNumber(i)).0);
            }
            r
        },
        SchemeParserValue::Boolean(b) => {
            let r = env.push_object(Object::Val(Value::Boolean(b)));
            proof {
                assert(lstate(*env) =~= lower_value(pre, SchemeParserValue::Boolean(b)).0);
            }
            r
        },
        SchemeParserValue::Character(c) => {
            let r = env.push_object(Object::Val(Value::Character(c)));
            proof {
                assert(lstate(*env) =~= lower_value(pre, SchemeParserValue::Character(c)).0);
            }
            r
        },
        SchemeParserValue::Text(s) => {
            let sref = env.push_string(s);
            let r = env.push_object(Object::Val(Value::StringRef(sref)));
            proof {
                assert(lstate(*env) =~= lower_value(pre, SchemeParserValue::Text(s)).0);
            }
            r
        },
        SchemeParserValue::List(l) => {
            let ghost lseq = l@;
            let refs = build_values(env, l);
            let r = env.push_list(refs);
            proof {
                assert(lstate(*env) =~= lower_value(pre, SchemeParserValue::List(l)).0);
            }
            r
        },
        SchemeParserValue::Improper(l, t) => {
            let ghost lseq = l@;
            let refs = build_values(env, l);
            let ghost st1 = lstate(*env);
            let tail = *t;
            let tref = build_value(env, tail);
            let ghost st3 = lstate(*env);
            let ghost base = env.objects@.len() as int;
            proof {
                lemma_lower_value_grows(st1, tail);
            }
            let mut cur_ref = tref;
            let n = refs.len();
            let mut i: usize = n;
            proof {
                assert(env.objects@ =~= st3.objects + dotted_chain_objs(
                    base,
                    refs@,
                    tref,
                ).subrange(0, 0));
            }
            while i > 0
                invariant
                    i <= n,
                    n == refs@.len(),
                    env.wf(),
                    base == st3.objects.len(),
                    forall|k: int| 0 <= k < refs@.len() ==> (#[trigger] refs@[k]).0 < base,
                    tref.0 < base,
                    env.objects@ == st3.objects + dotted_chain_objs(base, refs@, tref).subrange(
                        0,
                        n - i,
                    ),
                    cur_ref.0 == if i == n {
                        tref.0 as int
                    } else {
                        base + (n - i) - 1
                    },
                    env.symbol_names@ == st3.symbol_names,
                    env.strings@ == st3.strings,
                    env.frames@ == old(env).frames@,
                    env.current == old(env).current,
                decreases i,
            {
                let a = refs[i - 1];
                proof {
                    assert(dotted_chain_objs(base, refs@, tref)[n - i] == Object::Cons(
                        a,
                        cur_ref,
                    ));
                }
                let new_ref = env.push_object(Object::Cons(a, cur_ref));
                proof {
                    assert(env.objects@ =~= st3.objects + dotted_chain_objs(
                        base,
                        refs@,
                        tref,
                    ).subrange(0, n - (i - 1)));
                }
                cur_ref = new_ref;
                i -= 1;
            }
            proof {
                assert(dotted_chain_objs(base, refs@, tref).subrange(0, n as int)
                    =~= dotted_chain_objs(base, refs@, tref));
                assert(lstate(*env) =~= lower_value(
                    pre,
                    SchemeParserValue::Improper(l, t),
                ).0);
            }
            cur_ref
        },
    }
}

/// Lowers each value of a parsed sequence left to right, collecting the
/// handle of each.
pub fn build_values(env: &mut Environment, mut input: Vec<SchemeParserValue>) -> (refs: Vec<
    ObjectReference,
>)
    requires
        old(env).wf(),
    ensures
        final(env).wf(),
        (lstate(*final(env)), refs@) == lower_values(lstate(*old(env)), input@),
        forall|k: int| 0 <= k < refs@.len() ==> (#[trigger] refs@[k]).0 < final(env).objects@.len(),
        final(env).frames@ == old(env).frames@,
        final(env).current == old(env).current,
    decreases input@,
{
    if input.len() == 0 {
        let refs: Vec<ObjectReference> = Vec::new();
        proof {
            assert(refs@ =~= Seq::<ObjectReference>::empty());
        }
        refs
    } else {
        let ghost inseq = input@;
        let first = input.remove(0);
        proof {
            assert(first == inseq[0]);
            assert(input@ =~= inseq.drop_first());
        }
        let r = build_value(env, first);
        let ghost st_mid = lstate(*env);
        let rest = build_values(env, input);
        proof {
            lemma_lower_values_grows(st_mid, inseq.drop_first());
        }
        let mut refs = rest;
        refs.insert(0, r);
        proof {
            assert(refs@ =~= seq![r] + refs@.subrange(1, refs@.len() as int));
        }
        refs
    }
}

} // verus!
