//! The object arena, the interning tables and the scope-chain environment.
//!
//! All storage is owned by one `Environment` value: an append-only arena of
//! object records addressed by `ObjectReference`, a symbol table addressed
//! by `SymbolReference`, a string table addressed by `StringReference`, and
//! a chain of binding frames addressed by `FrameReference`. Handles are
//! plain indices; an object record never holds owned variable-length data
//! directly, only handles into the tables.

use vstd::prelude::*;

use crate::builtin;

verus! {

/// Handle of an object record in the arena.
#[derive(Clone, Copy, Debug, PartialEq, Eq, Structural)]
pub struct ObjectReference(pub usize);

/// Handle of an owned string in the string table.
#[derive(Clone, Copy, Debug, Hash, PartialEq, Eq, Structural)]
pub struct StringReference(pub usize);

/// Handle of an interned symbol name.
#[derive(Clone, Copy, Debug, Hash, PartialEq, Eq, Structural)]
pub struct SymbolReference(pub usize);

/// Handle of a binding frame in the scope chain.
#[derive(Clone, Copy, Debug, PartialEq, Eq, Structural)]
pub struct FrameReference(pub usize);

/// A tagged object record stored in the arena. Records are small and
/// value-like; structural sharing goes through handles only.
#[derive(Clone, Copy, Debug, PartialEq, Eq, Structural)]
pub enum Object {
    /// The empty list / list terminator.
    Nil,
    /// A pair of handles. For a proper list the second handle leads to
    /// `Nil` or another `Cons`; a dotted pair may hold any other object
    /// there.
    Cons(ObjectReference, ObjectReference),
    /// A user-defined procedure: its parameter-list object, its body
    /// expression object, and the frame that was innermost when the
    /// procedure was created (the captured lexical environment).
    Func(ObjectReference, ObjectReference, FrameReference),
    /// An atomic value.
    Val(Value),
}

/// An atomic value held inside an object record.
#[derive(Clone, Copy, Debug, PartialEq, Eq, Structural)]
pub enum Value {
    Keyword(builtin::Keyword),
    StandardFunc(builtin::StandardFunc),
    Symbol(SymbolReference),
    IntNumber(i64),
    Boolean(bool),
    StringRef(StringReference),
    Character(char),
}

/// The shape of an object, for error reports.
#[derive(Clone, Copy, Debug, PartialEq, Eq, Structural)]
pub enum ObjectKind {
    Nil,
    Pair,
    Procedure,
    Keyword,
    Builtin,
    Symbol,
    Integer,
    Boolean,
    Str,
    Character,
}

/// The shape of a given object record.
pub open spec fn kind_of(o: Object) -> ObjectKind {
    match o {
        Object::Nil => ObjectKind::Nil,
        Object::Cons(_, _) => ObjectKind::Pair,
        Object::Func(_, _, _) => ObjectKind::Procedure,
        Object::Val(v) => match v {
            Value::Keyword(_) => ObjectKind::Keyword,
            Value::StandardFunc(_) => ObjectKind::Builtin,
            Value::Symbol(_) => ObjectKind::Symbol,
            Value::IntNumber(_) => ObjectKind::Integer,
            Value::Boolean(_) => ObjectKind::Boolean,
            Value::StringRef(_) => ObjectKind::Str,
            Value::Character(_) => ObjectKind::Character,
        },
    }
}

/// Computes the shape tag of an object record.
pub fn object_kind(o: Object) -> (r: ObjectKind)
    ensures
        r == kind_of(o),
{
    match o {
        Object::Nil => ObjectKind::Nil,
        Object::Cons(_, _) => ObjectKind::Pair,
        Object::Func(_, _, _) => ObjectKind::Procedure,
        Object::Val(v) => match v {
            Value::Keyword(_) => ObjectKind::Keyword,
            Value::StandardFunc(_) => ObjectKind::Builtin,
            Value::Symbol(_) => ObjectKind::Symbol,
            Value::IntNumber(_) => ObjectKind::Integer,
            Value::Boolean(_) => ObjectKind::Boolean,
            Value::StringRef(_) => ObjectKind::Str,
            Value::Character(_) => ObjectKind::Character,
        },
    }
}

/// A user-program error, surfaced as a typed result instead of aborting.
#[derive(Clone, Debug, PartialEq, Eq)]
pub enum SchemeError {
    /// A symbol was looked up or assigned that no frame binds; carries the
    /// symbol's name text.
    UnboundVariable(String),
    /// The head of a combination resolved to something that cannot be
    /// applied; carries the offending object record.
    NotCallable(Object),
    /// An argument had the wrong shape: expected kind, then actual kind.
    TypeMismatch(ObjectKind, ObjectKind),
    /// A chain walked as an argument list had a non-`Nil`, non-`Cons` tail.
    MalformedArgumentList,
    /// Wrong number of arguments: expected count, then actual count.
    ArityMismatch(usize, usize),
    /// A special form or builtin was invoked with a shape its handler does
    /// not implement.
    UnsupportedForm,
    /// The step budget handed to the evaluator ran out before evaluation
    /// finished.
    StepLimitExceeded,
}

/// One level of the binding chain: a frame created on entering a lexical
/// scope, holding its bindings in insertion order (a later entry for the
/// same symbol shadows an earlier one) and a handle to the frame it was
/// entered from.
#[derive(Clone, Debug)]
pub struct Frame {
    pub parent: Option<FrameReference>,
    pub bindings: Vec<(SymbolReference, ObjectReference)>,
}

/// The runtime store: interning tables, object arena and scope chain.
#[derive(Clone, Debug)]
pub struct Environment {
    /// Interned symbol names; a `SymbolReference` is an index here.
    pub symbol_names: Vec<String>,
    /// The append-only object arena; an `ObjectReference` is an index here.
    pub objects: Vec<Object>,
    /// Owned string payloads; a `StringReference` is an index here.
    pub strings: Vec<String>,
    /// Every frame ever entered. Frames are kept after their scope is left
    /// so that a procedure's captured chain stays valid (no reclamation in
    /// this design).
    pub frames: Vec<Frame>,
    /// The innermost frame of the live scope chain.
    pub current: FrameReference,
}

/// Well-formedness of one object record at arena index `i`: every handle
/// it holds was issued earlier by the same arena (so the stored graph is
/// acyclic), and table handles are in range.
pub open spec fn obj_wf(o: Object, i: int, n_syms: int, n_strs: int, n_frames: int) -> bool {
    match o {
        Object::Nil => true,
        Object::Cons(a, d) => a.0 < i && d.0 < i,
        Object::Func(p, b, f) => p.0 < i && b.0 < i && f.0 < n_frames,
        Object::Val(v) => match v {
            Value::Symbol(s) => s.0 < n_syms,
            Value::StringRef(r) => r.0 < n_strs,
            _ => true,
        },
    }
}

/// Well-formedness of one frame at index `i`: its parent was created
/// earlier (so parent chains terminate) and its bindings are in range.
pub open spec fn frame_wf(f: Frame, i: int, n_syms: int, n_objs: int) -> bool {
    &&& match f.parent {
        Some(p) => p.0 < i,
        None => true,
    }
    &&& forall|j: int|
        0 <= j < f.bindings@.len() ==> (#[trigger] f.bindings@[j]).0.0 < n_syms
            && f.bindings@[j].1.0 < n_objs
}

/// The symbol table holds each name at most once, and never holds a
/// reserved name (those resolve to `Keyword` or `StandardFunc` values at
/// intern time instead).
pub open spec fn names_ok(names: Seq<String>) -> bool {
    &&& forall|i: int, j: int| 0 <= i < j < names.len() ==> names[i]@ != names[j]@
    &&& forall|i: int|
        0 <= i < names.len() ==> builtin::keyword_spec((#[trigger] names[i])@) is None
            && builtin::standard_func_spec(names[i]@) is None
}

/// Whether some table entry holds exactly this name text.
pub open spec fn has_name(names: Seq<String>, t: Seq<char>) -> bool {
    exists|i: int| 0 <= i < names.len() && names[i]@ == t
}

/// Interning, abstractly: a reserved name maps to its tag and leaves the
/// table alone; a known name maps to its existing handle; a new name is
/// appended and maps to the fresh handle.
pub open spec fn intern_spec(names: Seq<String>, name: String) -> (Seq<String>, Value) {
    match builtin::keyword_spec(name@) {
        Some(k) => (names, Value::Keyword(k)),
        None => match builtin::standard_func_spec(name@) {
            Some(f) => (names, Value::StandardFunc(f)),
            None => if has_name(names, name@) {
                let i = choose|i: int| 0 <= i < names.len() && names[i]@ == name@;
                (names, Value::Symbol(SymbolReference(i as usize)))
            } else {
                (names.push(name), Value::Symbol(SymbolReference(names.len() as usize)))
            },
        },
    }
}

/// Looks a symbol up in one frame's bindings: the latest entry wins.
pub open spec fn frame_lookup(
    bindings: Seq<(SymbolReference, ObjectReference)>,
    sym: SymbolReference,
) -> Option<ObjectReference>
    decreases bindings.len(),
{
    if bindings.len() == 0 {
        None
    } else if bindings.last().0 == sym {
        Some(bindings.last().1)
    } else {
        frame_lookup(bindings.drop_last(), sym)
    }
}

/// Looks a symbol up along the scope chain starting at frame `cur`,
/// innermost first.
pub open spec fn lookup_chain(frames: Seq<Frame>, cur: int, sym: SymbolReference) -> Option<
    ObjectReference,
>
    decreases cur,
{
    if !(0 <= cur < frames.len()) {
        None
    } else {
        match frame_lookup(frames[cur].bindings@, sym) {
            Some(o) => Some(o),
            None => match frames[cur].parent {
                Some(p) => if p.0 < cur {
                    lookup_chain(frames, p.0 as int, sym)
                } else {
                    None
                },
                None => None,
            },
        }
    }
}

/// The index of the latest entry for `sym` in one frame's bindings, or -1
/// if the frame does not bind it.
pub open spec fn last_binding_index(
    bindings: Seq<(SymbolReference, ObjectReference)>,
    sym: SymbolReference,
) -> int
    decreases bindings.len(),
{
    if bindings.len() == 0 {
        -1
    } else if bindings.last().0 == sym {
        bindings.len() - 1
    } else {
        last_binding_index(bindings.drop_last(), sym)
    }
}

/// The first frame along the chain from `cur` that binds `sym` (where an
/// assignment must land), if any.
pub open spec fn binding_frame(frames: Seq<Frame>, cur: int, sym: SymbolReference) -> Option<int>
    decreases cur,
{
    if !(0 <= cur < frames.len()) {
        None
    } else if frame_lookup(frames[cur].bindings@, sym) is Some {
        Some(cur)
    } else {
        match frames[cur].parent {
            Some(p) => if p.0 < cur {
                binding_frame(frames, p.0 as int, sym)
            } else {
                None
            },
            None => None,
        }
    }
}

/// A symbol handle coming out of interning is in range of the resulting
/// symbol table.
pub proof fn lemma_intern_symbol_in_range(names: Seq<String>, name: String, sr: SymbolReference)
    requires
        names.len() <= usize::MAX,
        intern_spec(names, name).1 == Value::Symbol(sr),
    ensures
        sr.0 < intern_spec(names, name).0.len(),
{
    if builtin::keyword_spec(name@) is None && builtin::standard_func_spec(name@) is None {
        if has_name(names, name@) {
            let i = choose|i: int| 0 <= i < names.len() && names[i]@ == name@;
            assert(sr.0 == i as usize);
        }
    }
}

/// The latest entry for a bound symbol really is an entry for that
/// symbol.
pub proof fn lemma_last_binding_index_sym(
    bindings: Seq<(SymbolReference, ObjectReference)>,
    sym: SymbolReference,
)
    requires
        frame_lookup(bindings, sym) is Some,
    ensures
        0 <= last_binding_index(bindings, sym) < bindings.len(),
        bindings[last_binding_index(bindings, sym)].0 == sym,
    decreases bindings.len(),
{
    if bindings.len() > 0 && bindings.last().0 != sym {
        lemma_last_binding_index_sym(bindings.drop_last(), sym);
    }
}

/// The frame that `binding_frame` points at really binds the symbol and
/// lies in range.
pub proof fn lemma_binding_frame_binds(frames: Seq<Frame>, cur: int, sym: SymbolReference, f: int)
    requires
        binding_frame(frames, cur, sym) == Some(f),
    ensures
        0 <= f < frames.len(),
        frame_lookup(frames[f].bindings@, sym) is Some,
    decreases cur,
{
    if 0 <= cur < frames.len() {
        if frame_lookup(frames[cur].bindings@, sym) is Some {
        } else {
            match frames[cur].parent {
                Some(p) => {
                    if p.0 < cur {
                        lemma_binding_frame_binds(frames, p.0 as int, sym, f);
                    }
                },
                None => {},
            }
        }
    }
}

/// Interning idempotence: against a duplicate-free table, interning two
/// texts yields the same symbol handle exactly when the texts are the
/// same. In particular interning one text twice hands back the first
/// handle again, and two different texts can never share a handle.
pub proof fn lemma_intern_idempotent(names: Seq<String>, a: String, b: String)
    requires
        names_ok(names),
        names.len() < usize::MAX,
        builtin::keyword_spec(a@) is None,
        builtin::standard_func_spec(a@) is None,
        builtin::keyword_spec(b@) is None,
        builtin::standard_func_spec(b@) is None,
    ensures
        (intern_spec(intern_spec(names, a).0, b).1 == intern_spec(names, a).1) <==> (a@ == b@),
{
    let n1 = intern_spec(names, a).0;
    let v1 = intern_spec(names, a).1;
    let v2 = intern_spec(n1, b).1;
    if has_name(names, a@) {
        let i = choose|i: int| 0 <= i < names.len() && names[i]@ == a@;
        assert(v1 == Value::Symbol(SymbolReference(i as usize)));
        assert(n1 == names);
        if a@ == b@ {
            let j = choose|j: int| 0 <= j < names.len() && names[j]@ == b@;
            assert(names[i]@ == names[j]@);
            assert(j == i);
        } else {
            if has_name(names, b@) {
                let j = choose|j: int| 0 <= j < names.len() && names[j]@ == b@;
                assert(j != i);
                assert(v2 == Value::Symbol(SymbolReference(j as usize)));
            } else {
                assert(v2 == Value::Symbol(SymbolReference(names.len() as usize)));
            }
        }
    } else {
        assert(v1 == Value::Symbol(SymbolReference(names.len() as usize)));
        assert(n1 == names.push(a));
        assert(names_ok(n1)) by {
            assert(forall|k: int| 0 <= k < names.len() ==> n1[k] == names[k]);
            assert(n1[names.len() as int] == a);
        }
        if a@ == b@ {
            assert(n1[names.len() as int]@ == b@);
            assert(has_name(n1, b@));
            let j = choose|j: int| 0 <= j < n1.len() && n1[j]@ == b@;
            assert(j == names.len()) by {
                if j < names.len() {
                    assert(names[j]@ == a@);
                    assert(has_name(names, a@));
                }
            }
        } else {
            if has_name(n1, b@) {
                let j = choose|j: int| 0 <= j < n1.len() && n1[j]@ == b@;
                assert(j != names.len());
                assert(v2 == Value::Symbol(SymbolReference(j as usize)));
            } else {
                assert(v2 == Value::Symbol(SymbolReference(n1.len() as usize)));
            }
        }
    }
}

/// Lexical shadowing: with an inner frame (entered from an outer one)
/// binding `x` to `b` while the outer frame binds `x` to `a`, a lookup
/// from the inner frame sees `b`; a lookup from the outer frame — where
/// the chain continues after the inner scope is left — sees `a` again.
pub proof fn lemma_scope_shadowing(
    frames: Seq<Frame>,
    x: SymbolReference,
    a: ObjectReference,
    b: ObjectReference,
)
    requires
        frames.len() >= 2,
        frames[frames.len() - 1].parent == Some(
            FrameReference((frames.len() - 2) as usize),
        ),
        frames.len() - 1 <= usize::MAX,
        frame_lookup(frames[frames.len() - 1].bindings@, x) == Some(b),
        frame_lookup(frames[frames.len() - 2].bindings@, x) == Some(a),
    ensures
        lookup_chain(frames, frames.len() - 1, x) == Some(b),
        lookup_chain(frames, frames.len() - 2, x) == Some(a),
{
}

/// Unbound lookup: a symbol that no frame binds is found nowhere along
/// any chain; `get_var` then reports it as an unbound variable under its
/// interned name.
pub proof fn lemma_unbound_lookup(frames: Seq<Frame>, cur: int, sym: SymbolReference)
    requires
        forall|i: int|
            0 <= i < frames.len() ==> frame_lookup(
                (#[trigger] frames[i]).bindings@,
                sym,
            ) is None,
    ensures
        lookup_chain(frames, cur, sym) is None,
    decreases cur,
{
    if 0 <= cur < frames.len() {
        match frames[cur].parent {
            Some(p) => {
                if p.0 < cur {
                    lemma_unbound_lookup(frames, p.0 as int, sym);
                }
            },
            None => {},
        }
    }
}

/// What one frame hands out is one of its stored binding targets.
pub proof fn lemma_frame_lookup_valid(
    bindings: Seq<(SymbolReference, ObjectReference)>,
    sym: SymbolReference,
    n_syms: int,
    n_objs: int,
)
    requires
        forall|j: int|
            0 <= j < bindings.len() ==> (#[trigger] bindings[j]).0.0 < n_syms && bindings[j].1.0
                < n_objs,
    ensures
        frame_lookup(bindings, sym) matches Some(o) ==> o.0 < n_objs,
    decreases bindings.len(),
{
    if bindings.len() > 0 && bindings.last().0 != sym {
        lemma_frame_lookup_valid(bindings.drop_last(), sym, n_syms, n_objs);
    }
}

/// What a chain lookup hands out is an in-range object handle.
pub proof fn lemma_lookup_chain_valid(
    frames: Seq<Frame>,
    cur: int,
    sym: SymbolReference,
    n_syms: int,
    n_objs: int,
)
    requires
        forall|i: int| 0 <= i < frames.len() ==> frame_wf(#[trigger] frames[i], i, n_syms, n_objs),
    ensures
        lookup_chain(frames, cur, sym) matches Some(o) ==> o.0 < n_objs,
    decreases cur,
{
    if 0 <= cur < frames.len() {
        lemma_frame_lookup_valid(frames[cur].bindings@, sym, n_syms, n_objs);
        match frames[cur].parent {
            Some(p) => {
                if p.0 < cur {
                    lemma_lookup_chain_valid(frames, p.0 as int, sym, n_syms, n_objs);
                }
            },
            None => {},
        }
    }
}

/// The sequence of object records that building a proper list of `vals`
/// appends to an arena that already holds `base` records: one `Nil`
/// terminator, then one `Cons` per element, built from the rear.
pub open spec fn chain_objs(base: int, vals: Seq<ObjectReference>) -> Seq<Object> {
    Seq::new(
        vals.len() + 1,
        |k: int|
            if k == 0 {
                Object::Nil
            } else {
                Object::Cons(vals[vals.len() - k], ObjectReference((base + k - 1) as usize))
            },
    )
}

/// Reads a proper-list chain out of the arena: the elements of the chain
/// of `Cons` records starting at `r`, in order, if the chain ends in `Nil`;
/// `None` if the walk meets a non-`Nil`, non-`Cons` tail, an out-of-range
/// handle, or a `Cons` whose tail handle is not older than itself.
pub open spec fn list_elems(objs: Seq<Object>, r: ObjectReference) -> Option<Seq<ObjectReference>>
    decreases r.0,
{
    if r.0 >= objs.len() {
        None
    } else {
        match objs[r.0 as int] {
            Object::Nil => Some(Seq::empty()),
            Object::Cons(a, d) => if d.0 < r.0 {
                match list_elems(objs, d) {
                    Some(t) => Some(seq![a] + t),
                    None => None,
                }
            } else {
                None
            },
            _ => None,
        }
    }
}

/// Growing the arena does not change what any existing handle's chain
/// reads as.
pub proof fn lemma_list_elems_extend(objs: Seq<Object>, ext: Seq<Object>, r: ObjectReference)
    requires
        r.0 < objs.len(),
    ensures
        list_elems(objs + ext, r) == list_elems(objs, r),
    decreases r.0,
{
    let all = objs + ext;
    assert(all[r.0 as int] == objs[r.0 as int]);
    match objs[r.0 as int] {
        Object::Cons(a, d) => {
            if d.0 < r.0 {
                lemma_list_elems_extend(objs, ext, d);
            }
        },
        _ => {},
    }
}

/// In a well-formed store, the elements a proper-list walk hands out are
/// in-range object handles.
pub proof fn lemma_list_elems_valid(e: Environment, r: ObjectReference)
    requires
        e.wf(),
        r.0 < e.objects@.len(),
    ensures
        list_elems(e.objects@, r) matches Some(es) ==> forall|i: int|
            0 <= i < es.len() ==> (#[trigger] es[i]).0 < e.objects@.len(),
    decreases r.0,
{
    match e.objects@[r.0 as int] {
        Object::Cons(a, d) => {
            assert(obj_wf(
                e.objects@[r.0 as int],
                r.0 as int,
                e.symbol_names@.len() as int,
                e.strings@.len() as int,
                e.frames@.len() as int,
            ));
            if d.0 < r.0 {
                lemma_list_elems_valid(e, d);
            }
        },
        _ => {},
    }
}

/// A freshly built chain reads back as exactly the handles it was built
/// from: `chain_objs` and `list_elems` agree.
pub proof fn lemma_chain_elems(pre: Seq<Object>, vals: Seq<ObjectReference>, k: int)
    requires
        0 <= k <= vals.len(),
        pre.len() + vals.len() <= usize::MAX,
    ensures
        list_elems(
            pre + chain_objs(pre.len() as int, vals),
            ObjectReference((pre.len() + k) as usize),
        ) == Some(vals.subrange(vals.len() - k, vals.len() as int)),
    decreases k,
{
    let objs = pre + chain_objs(pre.len() as int, vals);
    let base = pre.len() as int;
    if k == 0 {
        assert(objs[base] == Object::Nil);
        assert(vals.subrange(vals.len() as int, vals.len() as int) =~= Seq::<
            ObjectReference,
        >::empty());
    } else {
        lemma_chain_elems(pre, vals, k - 1);
        assert(objs[base + k] == Object::Cons(
            vals[vals.len() - k],
            ObjectReference((base + k - 1) as usize),
        ));
        assert(seq![vals[vals.len() - k]] + vals.subrange(vals.len() - (k - 1), vals.len() as int)
            =~= vals.subrange(vals.len() - k, vals.len() as int));
    }
}

impl Environment {
    /// Internal invariant: every stored handle is in range, object and
    /// parent references only lead to earlier entries, the current frame
    /// exists, and the symbol table is duplicate-free and reserved-free.
    pub open spec fn wf(&self) -> bool {
        &&& forall|i: int|
            0 <= i < self.objects@.len() ==> obj_wf(
                #[trigger] self.objects@[i],
                i,
                self.symbol_names@.len() as int,
                self.strings@.len() as int,
                self.frames@.len() as int,
            )
        &&& forall|i: int|
            0 <= i < self.frames@.len() ==> frame_wf(
                #[trigger] self.frames@[i],
                i,
                self.symbol_names@.len() as int,
                self.objects@.len() as int,
            )
        &&& self.current.0 < self.frames@.len()
        &&& names_ok(self.symbol_names@)
    }

    /// Creates a fresh runtime store with the single global frame already
    /// entered; that frame lives for the lifetime of the store.
    pub fn new() -> (r: Environment)
        ensures
            r.wf(),
            r.symbol_names@.len() == 0,
            r.objects@.len() == 0,
            r.strings@.len() == 0,
            r.frames@.len() == 1,
            r.frames@[0].parent is None,
            r.frames@[0].bindings@.len() == 0,
            r.current == (FrameReference(0usize)),
    {
        let global = Frame { parent: None, bindings: Vec::new() };
        let mut frames: Vec<Frame> = Vec::new();
        frames.push(global);
        Environment {
            symbol_names: Vec::new(),
            objects: Vec::new(),
            strings: Vec::new(),
            frames,
            current: FrameReference(0),
        }
    }

    /// Interns a symbol name: a reserved name resolves to its `Keyword` or
    /// `StandardFunc` tag and is never stored; any other name receives a
    /// stable handle, the same one on every later call with the same text.
    pub fn push_symbol(&mut self, name: String) -> (r: Value)
        requires
            old(self).wf(),
        ensures
            final(self).wf(),
            (final(self).symbol_names@, r) == intern_spec(old(self).symbol_names@, name),
            final(self).objects@ == old(self).objects@,
            final(self).strings@ == old(self).strings@,
            final(self).frames@ == old(self).frames@,
            final(self).current == old(self).current,
    {
        if let Some(k) = builtin::Keyword::get(name.as_str()) {
            return Value::Keyword(k);
        }
        if let Some(f) = builtin::StandardFunc::get(name.as_str()) {
            return Value::StandardFunc(f);
        }
        let n = self.symbol_names.len();
        let mut i: usize = 0;
        while i < n
            invariant
                *self == *old(self),
                self.wf(),
                n == self.symbol_names@.len(),
                i <= n,
                forall|k: int| 0 <= k < i ==> (#[trigger] self.symbol_names@[k])@ != name@,
                builtin::keyword_spec(name@) is None,
                builtin::standard_func_spec(name@) is None,
            decreases n - i,
        {
            if self.symbol_names[i] == name {
                proof {
                    let w = choose|w: int|
                        0 <= w < self.symbol_names@.len() && self.symbol_names@[w]@ == name@;
                    assert(self.symbol_names@[i as int]@ == name@);
                    assert(w == i);
                }
                return Value::Symbol(SymbolReference(i));
            }
            i += 1;
        }
        assert(!has_name(self.symbol_names@, name@));
        self.symbol_names.push(name);
        Value::Symbol(SymbolReference(n))
    }

    /// Returns the name text behind a symbol handle, for diagnostics. An
    /// out-of-range handle is a programming-error fault and is excluded by
    /// the precondition.
    pub fn find_symbol(&self, sref: SymbolReference) -> (r: String)
        requires
            sref.0 < self.symbol_names@.len(),
        ensures
            r@ == self.symbol_names@[sref.0 as int]@,
    {
        self.symbol_names[sref.0].clone()
    }

    /// Appends an object record to the arena and returns its fresh handle.
    /// Never fails; the handle stays valid for the arena's lifetime.
    pub fn push_object(&mut self, obj: Object) -> (r: ObjectReference)
        requires
            old(self).wf(),
            obj_wf(
                obj,
                old(self).objects@.len() as int,
                old(self).symbol_names@.len() as int,
                old(self).strings@.len() as int,
                old(self).frames@.len() as int,
            ),
        ensures
            final(self).wf(),
            r.0 == old(self).objects@.len(),
            final(self).objects@ == old(self).objects@.push(obj),
            final(self).symbol_names@ == old(self).symbol_names@,
            final(self).strings@ == old(self).strings@,
            final(self).frames@ == old(self).frames@,
            final(self).current == old(self).current,
    {
        let i = self.objects.len();
        self.objects.push(obj);
        ObjectReference(i)
    }

    /// Returns a copy of the object record behind a handle. A handle not
    /// issued by this arena is a programming-error fault and is excluded
    /// by the precondition.
    pub fn get_object(&self, oref: ObjectReference) -> (r: Object)
        requires
            oref.0 < self.objects@.len(),
        ensures
            r == self.objects@[oref.0 as int],
    {
        self.objects[oref.0]
    }

    /// Stores an owned string payload, always allocating a new handle
    /// (strings are not deduplicated).
    pub fn push_string(&mut self, st: String) -> (r: StringReference)
        requires
            old(self).wf(),
        ensures
            final(self).wf(),
            r.0 == old(self).strings@.len(),
            final(self).strings@ == old(self).strings@.push(st),
            final(self).symbol_names@ == old(self).symbol_names@,
            final(self).objects@ == old(self).objects@,
            final(self).frames@ == old(self).frames@,
            final(self).current == old(self).current,
    {
        let i = self.strings.len();
        self.strings.push(st);
        StringReference(i)
    }

    /// Returns the text behind a string handle. A foreign or out-of-range
    /// handle is a programming-error fault and is excluded by the
    /// precondition.
    pub fn get_string(&self, sref: StringReference) -> (r: String)
        requires
            sref.0 < self.strings@.len(),
        ensures
            r@ == self.strings@[sref.0 as int]@,
    {
        self.strings[sref.0].clone()
    }

    /// Pushes a new, empty binding frame whose parent is the frame that
    /// was innermost so far.
    pub fn enter_scope(&mut self)
        requires
            old(self).wf(),
        ensures
            final(self).wf(),
            final(self).frames@.len() == old(self).frames@.len() + 1,
            forall|i: int|
                0 <= i < old(self).frames@.len() ==> final(self).frames@[i] == old(self).frames@[i],
            final(self).frames@.last().parent == Some(old(self).current),
            final(self).frames@.last().bindings@.len() == 0,
            final(self).current.0 == old(self).frames@.len(),
            final(self).symbol_names@ == old(self).symbol_names@,
            final(self).objects@ == old(self).objects@,
            final(self).strings@ == old(self).strings@,
    {
        let i = self.frames.len();
        self.frames.push(Frame { parent: Some(self.current), bindings: Vec::new() });
        self.current = FrameReference(i);
    }

    /// Leaves the innermost frame: the chain continues at its parent. The
    /// frame record itself is kept, so a procedure that captured it stays
    /// valid. Leaving the global frame is a programming-error fault and is
    /// excluded by the precondition.
    pub fn exit_scope(&mut self)
        requires
            old(self).wf(),
            old(self).frames@[old(self).current.0 as int].parent is Some,
        ensures
            final(self).wf(),
            Some(final(self).current) == old(self).frames@[old(self).current.0 as int].parent,
            final(self).frames@ == old(self).frames@,
            final(self).symbol_names@ == old(self).symbol_names@,
            final(self).objects@ == old(self).objects@,
            final(self).strings@ == old(self).strings@,
    {
        let p = self.frames[self.current.0].parent;
        match p {
            Some(pr) => {
                self.current = pr;
            },
            None => {
                proof {
                    assert(false);
                }
            },
        }
    }

    /// Binds `sym` to `val` in the innermost frame (used by `define` and
    /// by parameter binding), shadowing any outer binding of the same
    /// symbol.
    pub fn set_var_with_ref(&mut self, sym: SymbolReference, val: ObjectReference)
        requires
            old(self).wf(),
            sym.0 < old(self).symbol_names@.len(),
            val.0 < old(self).objects@.len(),
        ensures
            final(self).wf(),
            final(self).frames@.len() == old(self).frames@.len(),
            forall|i: int|
                0 <= i < old(self).frames@.len() && i != old(self).current.0 as int ==> final(self).frames@[i] == old(self).frames@[i],
            final(self).frames@[old(self).current.0 as int].parent == old(self).frames@[old(self).current.0 as int].parent,
            final(self).frames@[old(self).current.0 as int].bindings@ == old(self).frames@[old(self).current.0 as int].bindings@.push((sym, val)),
            final(self).current == old(self).current,
            final(self).symbol_names@ == old(self).symbol_names@,
            final(self).objects@ == old(self).objects@,
            final(self).strings@ == old(self).strings@,
    {
        let cur = self.current.0;
        self.frames[cur].bindings.push((sym, val));
    }

    /// Stores an object and binds `sym` to it in the innermost frame.
    pub fn set_var(&mut self, sym: SymbolReference, val: Object)
        requires
            old(self).wf(),
            sym.0 < old(self).symbol_names@.len(),
            obj_wf(
                val,
                old(self).objects@.len() as int,
                old(self).symbol_names@.len() as int,
                old(self).strings@.len() as int,
                old(self).frames@.len() as int,
            ),
        ensures
            final(self).wf(),
            final(self).objects@ == old(self).objects@.push(val),
            final(self).frames@.len() == old(self).frames@.len(),
            forall|i: int|
                0 <= i < old(self).frames@.len() && i != old(self).current.0 as int ==> final(self).frames@[i] == old(self).frames@[i],
            final(self).frames@[old(self).current.0 as int].parent == old(self).frames@[old(self).current.0 as int].parent,
            final(self).frames@[old(self).current.0 as int].bindings@ == old(self).frames@[old(self).current.0 as int].bindings@.push(
                (sym, ObjectReference(old(self).objects@.len() as usize)),
            ),
            final(self).current == old(self).current,
            final(self).symbol_names@ == old(self).symbol_names@,
            final(self).strings@ == old(self).strings@,
    {
        let oref = self.push_object(val);
        self.set_var_with_ref(sym, oref);
    }

    /// Scans one frame's bindings from the latest entry backwards; returns
    /// the index of the entry that binds `sym`, if any.
    fn frame_find_index(
        bindings: &Vec<(SymbolReference, ObjectReference)>,
        sym: SymbolReference,
    ) -> (r: Option<usize>)
        ensures
            match r {
                Some(j) => {
                    &&& j < bindings@.len()
                    &&& j == last_binding_index(bindings@, sym)
                    &&& bindings@[j as int].0 == sym
                    &&& frame_lookup(bindings@, sym) == Some(bindings@[j as int].1)
                },
                None => frame_lookup(bindings@, sym) is None,
            },
    {
        let mut j = bindings.len();
        proof {
            assert(bindings@.subrange(0, j as int) =~= bindings@);
        }
        while j > 0
            invariant
                j <= bindings@.len(),
                frame_lookup(bindings@, sym) == frame_lookup(
                    bindings@.subrange(0, j as int),
                    sym,
                ),
                last_binding_index(bindings@, sym) == last_binding_index(
                    bindings@.subrange(0, j as int),
                    sym,
                ),
            decreases j,
        {
            let entry = bindings[j - 1];
            proof {
                assert(bindings@.subrange(0, j as int).last() == bindings@[j - 1]);
                assert(bindings@.subrange(0, j as int).drop_last() =~= bindings@.subrange(
                    0,
                    j - 1,
                ));
            }
            if entry.0 == sym {
                return Some(j - 1);
            }
            j -= 1;
        }
        proof {
            assert(bindings@.subrange(0, 0) =~= Seq::<(SymbolReference, ObjectReference)>::empty());
        }
        None
    }

    /// Walks the chain from frame `cur` outwards, looking `sym` up.
    fn lookup_from(&self, cur: usize, sym: SymbolReference) -> (r: Option<ObjectReference>)
        requires
            self.wf(),
            cur < self.frames@.len(),
        ensures
            r == lookup_chain(self.frames@, cur as int, sym),
        decreases cur,
    {
        let found = Self::frame_find_index(&self.frames[cur].bindings, sym);
        match found {
            Some(j) => Some(self.frames[cur].bindings[j].1),
            None => {
                let p = self.frames[cur].parent;
                match p {
                    Some(pr) => {
                        assert(frame_wf(
                            self.frames@[cur as int],
                            cur as int,
                            self.symbol_names@.len() as int,
                            self.objects@.len() as int,
                        ));
                        self.lookup_from(pr.0, sym)
                    },
                    None => None,
                }
            },
        }
    }

    /// Looks a symbol up along the scope chain, innermost frame first.
    /// Returns the bound object handle, or `UnboundVariable` with the
    /// symbol's name if no live frame binds it.
    pub fn get_var(&self, sym: SymbolReference) -> (r: Result<ObjectReference, SchemeError>)
        requires
            self.wf(),
            sym.0 < self.symbol_names@.len(),
        ensures
            match lookup_chain(self.frames@, self.current.0 as int, sym) {
                Some(o) => r == Ok::<ObjectReference, SchemeError>(o),
                None => exists|name: String|
                    r == Err::<ObjectReference, SchemeError>(SchemeError::UnboundVariable(name))
                        && name@ == self.symbol_names@[sym.0 as int]@,
            },
    {
        match self.lookup_from(self.current.0, sym) {
            Some(o) => Ok(o),
            None => Err(SchemeError::UnboundVariable(self.find_symbol(sym))),
        }
    }

    /// Walks the chain from frame `cur` outwards; returns the first frame
    /// that binds `sym`, if any.
    fn find_binding_frame(&self, cur: usize, sym: SymbolReference) -> (r: Option<usize>)
        requires
            self.wf(),
            cur < self.frames@.len(),
        ensures
            match r {
                Some(f) => Some(f as int) == binding_frame(self.frames@, cur as int, sym) && f
                    < self.frames@.len(),
                None => binding_frame(self.frames@, cur as int, sym) is None,
            },
        decreases cur,
    {
        let found = Self::frame_find_index(&self.frames[cur].bindings, sym);
        match found {
            Some(_) => Some(cur),
            None => {
                let p = self.frames[cur].parent;
                match p {
                    Some(pr) => {
                        assert(frame_wf(
                            self.frames@[cur as int],
                            cur as int,
                            self.symbol_names@.len() as int,
                            self.objects@.len() as int,
                        ));
                        self.find_binding_frame(pr.0, sym)
                    },
                    None => None,
                }
            },
        }
    }

    /// Overwrites the binding of `sym` nearest along the chain (used by
    /// assignment): the latest entry for `sym` in the first frame that
    /// binds it now leads to `val`. Fails with `UnboundVariable` if no
    /// frame along the chain binds `sym`; the store is then unchanged.
    pub fn assign(&mut self, sym: SymbolReference, val: ObjectReference) -> (r: Result<
        (),
        SchemeError,
    >)
        requires
            old(self).wf(),
            sym.0 < old(self).symbol_names@.len(),
            val.0 < old(self).objects@.len(),
        ensures
            final(self).wf(),
            final(self).symbol_names@ == old(self).symbol_names@,
            final(self).objects@ == old(self).objects@,
            final(self).strings@ == old(self).strings@,
            final(self).current == old(self).current,
            final(self).frames@.len() == old(self).frames@.len(),
            match binding_frame(old(self).frames@, old(self).current.0 as int, sym) {
                Some(f) => {
                    &&& r is Ok
                    &&& forall|i: int|
                        0 <= i < old(self).frames@.len() && i != f ==> final(self).frames@[i]
                            == old(self).frames@[i]
                    &&& final(self).frames@[f].parent == old(self).frames@[f].parent
                    &&& final(self).frames@[f].bindings@ == old(self).frames@[f].bindings@.update(
                        last_binding_index(old(self).frames@[f].bindings@, sym),
                        (sym, val),
                    )
                },
                None => exists|name: String|
                    r == Err::<(), SchemeError>(SchemeError::UnboundVariable(name)) && name@ == old(
                        self,
                    ).symbol_names@[sym.0 as int]@ && final(self).frames@ == old(self).frames@,
            },
    {
        let found = self.find_binding_frame(self.current.0, sym);
        match found {
            Some(f) => {
                proof {
                    lemma_binding_frame_binds(self.frames@, self.current.0 as int, sym, f as int);
                }
                let j = match Self::frame_find_index(&self.frames[f].bindings, sym) {
                    Some(j) => j,
                    None => {
                        proof {
                            assert(false);
                        }
                        0
                    },
                };
                self.frames[f].bindings[j] = (sym, val);
                Ok(())
            },
            None => Err(SchemeError::UnboundVariable(self.find_symbol(sym))),
        }
    }

    /// Allocates and fills a proper-list chain for the given element
    /// handles: a fresh `Nil`, then one `Cons` per element from the rear.
    /// Returns the head of the chain, whose elements read back as exactly
    /// `vals`.
    pub fn push_list(&mut self, vals: Vec<ObjectReference>) -> (r: ObjectReference)
        requires
            old(self).wf(),
            forall|i: int| 0 <= i < vals@.len() ==> (#[trigger] vals@[i]).0 < old(self).objects@.len(),
        ensures
            final(self).wf(),
            final(self).objects@ == old(self).objects@ + chain_objs(
                old(self).objects@.len() as int,
                vals@,
            ),
            r.0 == old(self).objects@.len() + vals@.len(),
            list_elems(final(self).objects@, r) == Some(vals@),
            final(self).symbol_names@ == old(self).symbol_names@,
            final(self).strings@ == old(self).strings@,
            final(self).frames@ == old(self).frames@,
            final(self).current == old(self).current,
    {
        let ghost base = self.objects@.len() as int;
        let ghost valseq = vals@;
        let n = vals.len();
        let nil_ref = self.push_object(Object::Nil);
        let mut cur_ref = nil_ref;
        let mut i: usize = n;
        proof {
            assert(self.objects@ =~= old(self).objects@ + chain_objs(base, valseq).subrange(
                0,
                1,
            ));
        }
        while i > 0
            invariant
                i <= n,
                n == valseq.len(),
                vals@ == valseq,
                self.wf(),
                base == old(self).objects@.len(),
                forall|k: int| 0 <= k < valseq.len() ==> (#[trigger] valseq[k]).0 < base,
                self.objects@ == old(self).objects@ + chain_objs(base, valseq).subrange(
                    0,
                    n - i + 1,
                ),
                cur_ref.0 == base + (n - i),
                self.symbol_names@ == old(self).symbol_names@,
                self.strings@ == old(self).strings@,
                self.frames@ == old(self).frames@,
                self.current == old(self).current,
            decreases i,
        {
            let a = vals[i - 1];
            proof {
                assert(chain_objs(base, valseq)[n - i + 1] == Object::Cons(
                    valseq[i - 1],
                    ObjectReference((base + n - i) as usize),
                ));
            }
            let new_ref = self.push_object(Object::Cons(a, cur_ref));
            proof {
                assert(self.objects@ =~= old(self).objects@ + chain_objs(base, valseq).subrange(
                    0,
                    n - (i - 1) + 1,
                ));
            }
            cur_ref = new_ref;
            i -= 1;
        }
        proof {
            assert(chain_objs(base, valseq).subrange(0, n + 1) =~= chain_objs(base, valseq));
            lemma_chain_elems(old(self).objects@, valseq, n as int);
        }
        cur_ref
    }

    /// Reads a proper-list chain into a vector of element handles, in
    /// order; `None` if the chain has a non-`Nil`, non-`Cons` tail.
    pub fn list_as_vec(&self, r: ObjectReference) -> (res: Option<Vec<ObjectReference>>)
        requires
            self.wf(),
            r.0 < self.objects@.len(),
        ensures
            match res {
                Some(v) => list_elems(self.objects@, r) == Some(v@) && forall|k: int|
                    0 <= k < v@.len() ==> (#[trigger] v@[k]).0 < self.objects@.len(),
                None => list_elems(self.objects@, r) is None,
            },
        decreases r.0,
    {
        let obj = self.get_object(r);
        match obj {
            Object::Nil => Some(Vec::new()),
            Object::Cons(a, d) => {
                assert(obj_wf(
                    self.objects@[r.0 as int],
                    r.0 as int,
                    self.symbol_names@.len() as int,
                    self.strings@.len() as int,
                    self.frames@.len() as int,
                ));
                match self.list_as_vec(d) {
                    Some(mut t) => {
                        t.insert(0, a);
                        proof {
                            assert(t@ =~= seq![a] + t@.subrange(1, t@.len() as int));
                        }
                        Some(t)
                    },
                    None => None,
                }
            },
            _ => None,
        }
    }
}

} // verus!
