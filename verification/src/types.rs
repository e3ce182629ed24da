//! The tagged-union value model of the interpreter, its mathematical
//! abstraction, structural equality, and the error representation.
use vstd::prelude::*;

verus! {

broadcast use {
    vstd::std_specs::vec::axiom_vec_index_decreases,
    vstd::std_specs::vec::axiom_vec_decreases_to_view,
    vstd::seq::axiom_seq_index_decreases,
};

/// The native functions the root environment registers. Dispatch is by
/// variant, so a `Func` value never depends on the evaluator's layout.
#[derive(Clone, Copy, Debug)]
pub enum NativeFn {
    EqVals,
    ReadString,
    MakeList,
    LessThan,
    LessEq,
    GreaterThan,
    GreaterEq,
    Add,
    Sub,
    Mul,
    Div,
    Prn,
    Cons,
    Concat,
    Nth,
    First,
}

/// A runtime value. Sequences own their elements: every update builds a
/// new sequence, so plain value semantics is observationally the same as
/// reference-counted sharing would be. `MalFunc` captures its defining
/// environment as a frame handle into the `EnvStore`; `Atom` is a handle
/// into the store's cell arena, the one mutable channel besides `def!`.
#[derive(Debug)]
pub enum MalVal {
    Nil,
    Bool(bool),
    Int(i64),
    Str(String),
    Sym(String),
    List(Vec<MalVal>, Box<MalVal>),
    Vector(Vec<MalVal>, Box<MalVal>),
    Hash(Vec<(String, MalVal)>, Box<MalVal>),
    Func(NativeFn, Box<MalVal>),
    MalFunc { ast: Box<MalVal>, env: usize, params: Box<MalVal>, is_macro: bool, meta: Box<MalVal> },
    Atom(usize),
}

/// The mathematical model of a value: strings become character sequences,
/// vectors become `Seq`, a hash becomes its entry sequence.
pub enum ValModel {
    Nil,
    Bool(bool),
    Int(i64),
    Str(Seq<char>),
    Sym(Seq<char>),
    List(Seq<ValModel>, Box<ValModel>),
    Vector(Seq<ValModel>, Box<ValModel>),
    Hash(Seq<(Seq<char>, ValModel)>, Box<ValModel>),
    Func(NativeFn, Box<ValModel>),
    MalFunc { ast: Box<ValModel>, env: int, params: Box<ValModel>, is_macro: bool, meta: Box<ValModel> },
    Atom(int),
}

pub open spec fn models_from(vs: Seq<MalVal>, i: int) -> Seq<ValModel>
    decreases vs, vs.len() - i, 0int,
{
    if i < 0 || i >= vs.len() {
        Seq::empty()
    } else {
        seq![vs[i].model()] + models_from(vs, i + 1)
    }
}

/// Model of a sequence of values.
pub open spec fn models(vs: Seq<MalVal>) -> Seq<ValModel>
    decreases vs, vs.len() + 1, 0int,
{
    models_from(vs, 0)
}

pub open spec fn entry_models_from(es: Seq<(String, MalVal)>, i: int) -> Seq<(Seq<char>, ValModel)>
    decreases es, es.len() - i, 0int,
{
    if i < 0 || i >= es.len() {
        Seq::empty()
    } else {
        seq![(es[i].0@, es[i].1.model())] + entry_models_from(es, i + 1)
    }
}

/// Model of a sequence of key/value entries.
pub open spec fn entry_models(es: Seq<(String, MalVal)>) -> Seq<(Seq<char>, ValModel)>
    decreases es, es.len() + 1, 0int,
{
    entry_models_from(es, 0)
}

impl MalVal {
    pub open spec fn model(self) -> ValModel
        decreases self, 0int, 1int,
    {
        match self {
            MalVal::Nil => ValModel::Nil,
            MalVal::Bool(b) => ValModel::Bool(b),
            MalVal::Int(n) => ValModel::Int(n),
            MalVal::Str(s) => ValModel::Str(s@),
            MalVal::Sym(s) => ValModel::Sym(s@),
            MalVal::List(vs, m) => ValModel::List(models(vs@), Box::new((*m).model())),
            MalVal::Vector(vs, m) => ValModel::Vector(models(vs@), Box::new((*m).model())),
            MalVal::Hash(es, m) => ValModel::Hash(entry_models(es@), Box::new((*m).model())),
            MalVal::Func(f, m) => ValModel::Func(f, Box::new((*m).model())),
            MalVal::MalFunc { ast, env, params, is_macro, meta } => ValModel::MalFunc {
                ast: Box::new((*ast).model()),
                env: env as int,
                params: Box::new((*params).model()),
                is_macro: is_macro,
                meta: Box::new((*meta).model()),
            },
            MalVal::Atom(i) => ValModel::Atom(i as int),
        }
    }
}

impl View for MalVal {
    type V = ValModel;

    open spec fn view(&self) -> ValModel {
        self.model()
    }
}

pub proof fn lemma_models_from(vs: Seq<MalVal>, i: int)
    requires
        0 <= i <= vs.len(),
    ensures
        models_from(vs, i).len() == vs.len() - i,
        forall|j: int| i <= j < vs.len() ==> models_from(vs, i)[j - i] == #[trigger] vs[j]@,
    decreases vs.len() - i,
{
    if i < vs.len() {
        lemma_models_from(vs, i + 1);
    }
}

/// A value sequence and its model have one length.
pub broadcast proof fn lemma_models_len(vs: Seq<MalVal>)
    ensures
        (#[trigger] models(vs)).len() == vs.len(),
{
    lemma_models_from(vs, 0);
}

/// An entry sequence and its model have one length.
pub broadcast proof fn lemma_entry_models_len(es: Seq<(String, MalVal)>)
    ensures
        (#[trigger] entry_models(es)).len() == es.len(),
{
    lemma_entry_models_from(es, 0);
}

/// The model of a value sequence is the sequence of the element models.
pub proof fn lemma_models(vs: Seq<MalVal>)
    ensures
        models(vs).len() == vs.len(),
        forall|j: int| 0 <= j < vs.len() ==> models(vs)[j] == #[trigger] vs[j]@,
{
    lemma_models_from(vs, 0);
}

pub proof fn lemma_entry_models_from(es: Seq<(String, MalVal)>, i: int)
    requires
        0 <= i <= es.len(),
    ensures
        entry_models_from(es, i).len() == es.len() - i,
        forall|j: int| i <= j < es.len()
            ==> #[trigger] entry_models_from(es, i)[j - i].0 == es[j].0@
                && entry_models_from(es, i)[j - i].1 == es[j].1@,
    decreases es.len() - i,
{
    if i < es.len() {
        lemma_entry_models_from(es, i + 1);
        assert forall|j: int| i <= j < es.len() implies #[trigger] entry_models_from(es, i)[j
            - i].0 == es[j].0@ && entry_models_from(es, i)[j - i].1 == es[j].1@ by {
            if j == i {
                assert(entry_models_from(es, i)[0] == (es[i].0@, es[i].1.model()));
            } else {
                assert(entry_models_from(es, i)[j - i] == entry_models_from(es, i + 1)[j - (i
                    + 1)]);
            }
        }
    }
}

/// The model of an entry sequence is the entrywise model.
pub proof fn lemma_entry_models(es: Seq<(String, MalVal)>)
    ensures
        entry_models(es).len() == es.len(),
        forall|j: int| 0 <= j < es.len() ==> (#[trigger] entry_models(es)[j]).0 == es[j].0@,
        forall|j: int| 0 <= j < es.len() ==> (#[trigger] entry_models(es)[j]).1 == es[j].1@,
{
    lemma_entry_models_from(es, 0);
    assert forall|j: int| 0 <= j < es.len() implies (#[trigger] entry_models(es)[j]).0 == es[j].0@
        && entry_models(es)[j].1 == es[j].1@ by {
        assert(entry_models(es)[j] == entry_models_from(es, 0)[j - 0]);
        assert(entry_models_from(es, 0)[j - 0].0 == es[j].0@);
        assert(entry_models_from(es, 0)[j - 0].1 == es[j].1@);
    }
}

/// Structural equality. A `List` and a `Vector` with pairwise-equal elements
/// are equal regardless of tag; hashes are equal key/value mappings;
/// `Func`, `MalFunc` and `Atom` values are never equal to anything, a
/// reference to themselves included. Metadata never takes part.
pub open spec fn eq_model(a: ValModel, b: ValModel) -> bool
    decreases a, 0int,
{
    match (a, b) {
        (ValModel::Nil, ValModel::Nil) => true,
        (ValModel::Bool(x), ValModel::Bool(y)) => x == y,
        (ValModel::Int(x), ValModel::Int(y)) => x == y,
        (ValModel::Str(x), ValModel::Str(y)) => x == y,
        (ValModel::Sym(x), ValModel::Sym(y)) => x == y,
        (ValModel::List(x, _), ValModel::List(y, _)) => seq_eq_model(x, y),
        (ValModel::List(x, _), ValModel::Vector(y, _)) => seq_eq_model(x, y),
        (ValModel::Vector(x, _), ValModel::List(y, _)) => seq_eq_model(x, y),
        (ValModel::Vector(x, _), ValModel::Vector(y, _)) => seq_eq_model(x, y),
        (ValModel::Hash(x, _), ValModel::Hash(y, _)) => hash_eq_model(x, y),
        _ => false,
    }
}

pub open spec fn seq_eq_model(x: Seq<ValModel>, y: Seq<ValModel>) -> bool
    decreases x, 0int,
{
    x.len() == y.len() && forall|i: int| 0 <= i < x.len() ==> eq_model(x[i], #[trigger] y[i])
}

/// Some entry of `y` carries key `k` bound to a value equal to `v`.
pub open spec fn has_entry(y: Seq<(Seq<char>, ValModel)>, k: Seq<char>, v: ValModel) -> bool
    decreases v, 1int,
{
    exists|j: int| 0 <= j < y.len() && (#[trigger] y[j]).0 == k && eq_model(v, y[j].1)
}

/// Hash equality: the same number of entries, and every key of one side is
/// bound on the other side to an equal value. With unique keys on both
/// sides this says the two key/value mappings are equal.
pub open spec fn hash_eq_model(x: Seq<(Seq<char>, ValModel)>, y: Seq<(Seq<char>, ValModel)>) -> bool
    decreases x, 0int,
{
    x.len() == y.len() && forall|i: int|
        0 <= i < x.len() ==> has_entry(y, (#[trigger] x[i]).0, x[i].1)
}

/// Keys of a hash are pairwise distinct.
pub open spec fn keys_unique(es: Seq<(Seq<char>, ValModel)>) -> bool {
    forall|i: int, j: int|
        0 <= i < es.len() && 0 <= j < es.len() && i != j ==> (#[trigger] es[i]).0 != (#[trigger] es[j]).0
}

/// Every hash reachable inside the value has unique keys: established by
/// construction (`_assoc` inserts by replacement) and needed for equality.
pub open spec fn hashes_wf(v: ValModel) -> bool
    decreases v,
{
    match v {
        ValModel::List(vs, m) => (forall|i: int| 0 <= i < vs.len() ==> hashes_wf(#[trigger] vs[i]))
            && hashes_wf(*m),
        ValModel::Vector(vs, m) => (forall|i: int| 0 <= i < vs.len() ==> hashes_wf(#[trigger] vs[i]))
            && hashes_wf(*m),
        ValModel::Hash(es, m) => keys_unique(es)
            && (forall|i: int| 0 <= i < es.len() ==> hashes_wf((#[trigger] es[i]).1))
            && hashes_wf(*m),
        ValModel::Func(_, m) => hashes_wf(*m),
        ValModel::MalFunc { ast, params, meta, .. } => hashes_wf(*ast) && hashes_wf(*params)
            && hashes_wf(*meta),
        _ => true,
    }
}

/// Every environment handle inside the value points below `nf` and every
/// atom handle below `na`: the store invariant for embedded handles.
pub open spec fn val_ok(v: ValModel, nf: int, na: int) -> bool
    decreases v,
{
    match v {
        ValModel::List(vs, m) => (forall|i: int| 0 <= i < vs.len() ==> val_ok(#[trigger] vs[i], nf, na))
            && val_ok(*m, nf, na),
        ValModel::Vector(vs, m) => (forall|i: int|
            0 <= i < vs.len() ==> val_ok(#[trigger] vs[i], nf, na)) && val_ok(*m, nf, na),
        ValModel::Hash(es, m) => (forall|i: int|
            0 <= i < es.len() ==> val_ok((#[trigger] es[i]).1, nf, na)) && val_ok(*m, nf, na),
        ValModel::Func(_, m) => val_ok(*m, nf, na),
        ValModel::MalFunc { ast, env, params, meta, .. } => 0 <= env < nf && val_ok(*ast, nf, na)
            && val_ok(*params, nf, na) && val_ok(*meta, nf, na),
        ValModel::Atom(i) => 0 <= i < na,
        _ => true,
    }
}

/// Cross-tag structural equality: a `List` and a `Vector` built over
/// pairwise-equal element sequences are equal, whatever their metadata.
pub proof fn lemma_cross_tag_eq(
    a: Seq<ValModel>,
    b: Seq<ValModel>,
    ma: Box<ValModel>,
    mb: Box<ValModel>,
)
    requires
        a.len() == b.len(),
        forall|i: int| 0 <= i < a.len() ==> eq_model(a[i], #[trigger] b[i]),
    ensures
        eq_model(ValModel::List(a, ma), ValModel::Vector(b, mb)),
        eq_model(ValModel::Vector(a, ma), ValModel::List(b, mb)),
        eq_model(ValModel::List(a, ma), ValModel::List(b, mb)),
        eq_model(ValModel::Vector(a, ma), ValModel::Vector(b, mb)),
{
}

/// Function identity is uncomparable: a native or interpreted function
/// value equals nothing, not even the very same value; atoms likewise.
pub proof fn lemma_funcs_never_equal(f: ValModel, g: ValModel)
    requires
        f matches ValModel::Func(_, _) || f matches ValModel::MalFunc { .. } || f matches
            ValModel::Atom(_),
    ensures
        !eq_model(f, g),
        !eq_model(g, f),
{
}

/// A value's model has the same constructor as the value, and each
/// payload is the model of the corresponding field.
pub proof fn lemma_model_shape(v: MalVal)
    ensures
        (v.model() matches ValModel::Nil) <==> (v matches MalVal::Nil),
        (v.model() matches ValModel::Bool(_)) <==> (v matches MalVal::Bool(_)),
        (v.model() matches ValModel::Int(_)) <==> (v matches MalVal::Int(_)),
        (v.model() matches ValModel::Str(_)) <==> (v matches MalVal::Str(_)),
        (v.model() matches ValModel::Sym(_)) <==> (v matches MalVal::Sym(_)),
        (v.model() matches ValModel::List(_, _)) <==> (v matches MalVal::List(_, _)),
        (v.model() matches ValModel::Vector(_, _)) <==> (v matches MalVal::Vector(_, _)),
        (v.model() matches ValModel::Hash(_, _)) <==> (v matches MalVal::Hash(_, _)),
        (v.model() matches ValModel::Func(_, _)) <==> (v matches MalVal::Func(_, _)),
        (v.model() matches ValModel::MalFunc { .. }) <==> (v matches MalVal::MalFunc { .. }),
        (v.model() matches ValModel::Atom(_)) <==> (v matches MalVal::Atom(_)),
        v matches MalVal::Bool(b) ==> v.model() == ValModel::Bool(b),
        v matches MalVal::Int(n) ==> v.model() == ValModel::Int(n),
        v matches MalVal::Str(s) ==> v.model() == ValModel::Str(s@),
        v matches MalVal::Sym(s) ==> v.model() == ValModel::Sym(s@),
        v matches MalVal::List(vs, m) ==> v.model() == ValModel::List(
            models(vs@),
            Box::new((*m).model()),
        ),
        v matches MalVal::Vector(vs, m) ==> v.model() == ValModel::Vector(
            models(vs@),
            Box::new((*m).model()),
        ),
        v matches MalVal::Hash(es, m) ==> v.model() == ValModel::Hash(
            entry_models(es@),
            Box::new((*m).model()),
        ),
        v matches MalVal::Func(f, m) ==> v.model() == ValModel::Func(f, Box::new((*m).model())),
        v matches MalVal::MalFunc { ast, env, params, is_macro, meta } ==> v.model()
            == (ValModel::MalFunc {
            ast: Box::new((*ast).model()),
            env: env as int,
            params: Box::new((*params).model()),
            is_macro: is_macro,
            meta: Box::new((*meta).model()),
        }),
        v matches MalVal::Atom(i) ==> v.model() == ValModel::Atom(i as int),
{
    match v {
        MalVal::Nil => {},
        MalVal::Bool(_) => {},
        MalVal::Int(_) => {},
        MalVal::Str(_) => {},
        MalVal::Sym(_) => {},
        MalVal::List(_, _) => {},
        MalVal::Vector(_, _) => {},
        MalVal::Hash(_, _) => {},
        MalVal::Func(_, _) => {},
        MalVal::MalFunc { .. } => {},
        MalVal::Atom(_) => {},
    }
}

/// A value models as a symbol exactly when it is one, and the name carries
/// over.
pub proof fn lemma_sym_model(v: MalVal)
    ensures
        (v.model() matches ValModel::Sym(_)) <==> (v matches MalVal::Sym(_)),
        v matches MalVal::Sym(s) ==> v.model() == ValModel::Sym(s@),
{
    match v {
        MalVal::Nil => {},
        MalVal::Bool(_) => {},
        MalVal::Int(_) => {},
        MalVal::Str(_) => {},
        MalVal::Sym(_) => {},
        MalVal::List(_, _) => {},
        MalVal::Vector(_, _) => {},
        MalVal::Hash(_, _) => {},
        MalVal::Func(_, _) => {},
        MalVal::MalFunc { .. } => {},
        MalVal::Atom(_) => {},
    }
}

impl MalVal {
    /// A deep copy whose model equals the original's.
    pub fn duplicate(&self) -> (r: MalVal)
        ensures
            r@ == self@,
        decreases self,
    {
        match self {
            MalVal::Nil => MalVal::Nil,
            MalVal::Bool(b) => MalVal::Bool(*b),
            MalVal::Int(n) => MalVal::Int(*n),
            MalVal::Str(s) => MalVal::Str(s.clone()),
            MalVal::Sym(s) => MalVal::Sym(s.clone()),
            MalVal::List(vs, m) => MalVal::List(dup_vec(vs), Box::new(m.duplicate())),
            MalVal::Vector(vs, m) => MalVal::Vector(dup_vec(vs), Box::new(m.duplicate())),
            MalVal::Hash(es, m) => MalVal::Hash(dup_entries(es), Box::new(m.duplicate())),
            MalVal::Func(f, m) => MalVal::Func(*f, Box::new(m.duplicate())),
            MalVal::MalFunc { ast, env, params, is_macro, meta } => MalVal::MalFunc {
                ast: Box::new(ast.duplicate()),
                env: *env,
                params: Box::new(params.duplicate()),
                is_macro: *is_macro,
                meta: Box::new(meta.duplicate()),
            },
            MalVal::Atom(i) => MalVal::Atom(*i),
        }
    }
}

pub fn dup_vec(vs: &Vec<MalVal>) -> (r: Vec<MalVal>)
    ensures
        models(r@) == models(vs@),
        r@.len() == vs@.len(),
    decreases vs,
{
    let mut r: Vec<MalVal> = Vec::new();
    let mut i: usize = 0;
    while i < vs.len()
        invariant
            0 <= i <= vs@.len(),
            r@.len() == i,
            forall|j: int| 0 <= j < i ==> r@[j]@ == #[trigger] vs@[j]@,
        decreases vs@.len() - i,
    {
        r.push(vs[i].duplicate());
        i = i + 1;
    }
    proof {
        lemma_models(vs@);
        lemma_models(r@);
        assert forall|j: int| 0 <= j < vs@.len() implies models(r@)[j] == models(vs@)[j] by {
            assert(r@[j]@ == vs@[j]@);
        }
        assert(models(r@) =~= models(vs@));
    }
    r
}

pub fn dup_entries(es: &Vec<(String, MalVal)>) -> (r: Vec<(String, MalVal)>)
    ensures
        entry_models(r@) == entry_models(es@),
        r@.len() == es@.len(),
    decreases es,
{
    let mut r: Vec<(String, MalVal)> = Vec::new();
    let mut i: usize = 0;
    while i < es.len()
        invariant
            0 <= i <= es@.len(),
            r@.len() == i,
            forall|j: int| 0 <= j < i ==> (#[trigger] r@[j]).0@ == es@[j].0@,
            forall|j: int| 0 <= j < i ==> (#[trigger] r@[j]).1@ == es@[j].1@,
        decreases es@.len() - i,
    {
        let k = es[i].0.clone();
        let v = es[i].1.duplicate();
        r.push((k, v));
        i = i + 1;
    }
    proof {
        lemma_entry_models(es@);
        lemma_entry_models(r@);
        assert forall|j: int| 0 <= j < es@.len() implies entry_models(r@)[j] == entry_models(
            es@,
        )[j] by {
            assert(r@[j].0@ == es@[j].0@ && r@[j].1@ == es@[j].1@);
            assert(entry_models(r@)[j] =~= entry_models(es@)[j]);
        }
        assert(entry_models(r@) =~= entry_models(es@));
    }
    r
}

/// The error kinds of the interpreter's message errors.
#[derive(Debug)]
pub enum ErrorKind {
    EmptyInput,
    Underflow,
    Arity,
    TypeMismatch,
    IndexOutOfRange,
    NotFound(String),
    NotCallable,
    Overflow,
    DivideByZero,
    OutOfFuel,
    Custom(String),
}

/// An evaluation failure: either a message error or a value raised by the
/// interpreted program itself (catchable with `try*`/`catch*`).
#[derive(Debug)]
pub enum MalErr {
    ErrMsg(ErrorKind),
    ErrMalVal(MalVal),
}

/// Mathematical model of an error.
pub enum ErrModel {
    EmptyInput,
    Underflow,
    Arity,
    TypeMismatch,
    IndexOutOfRange,
    NotFound(Seq<char>),
    NotCallable,
    Overflow,
    DivideByZero,
    OutOfFuel,
    Custom(Seq<char>),
    Raised(ValModel),
}

impl MalErr {
    pub open spec fn model(self) -> ErrModel {
        match self {
            MalErr::ErrMsg(ErrorKind::EmptyInput) => ErrModel::EmptyInput,
            MalErr::ErrMsg(ErrorKind::Underflow) => ErrModel::Underflow,
            MalErr::ErrMsg(ErrorKind::Arity) => ErrModel::Arity,
            MalErr::ErrMsg(ErrorKind::TypeMismatch) => ErrModel::TypeMismatch,
            MalErr::ErrMsg(ErrorKind::IndexOutOfRange) => ErrModel::IndexOutOfRange,
            MalErr::ErrMsg(ErrorKind::NotFound(s)) => ErrModel::NotFound(s@),
            MalErr::ErrMsg(ErrorKind::NotCallable) => ErrModel::NotCallable,
            MalErr::ErrMsg(ErrorKind::Overflow) => ErrModel::Overflow,
            MalErr::ErrMsg(ErrorKind::DivideByZero) => ErrModel::DivideByZero,
            MalErr::ErrMsg(ErrorKind::OutOfFuel) => ErrModel::OutOfFuel,
            MalErr::ErrMsg(ErrorKind::Custom(s)) => ErrModel::Custom(s@),
            MalErr::ErrMalVal(v) => ErrModel::Raised(v.model()),
        }
    }
}

impl View for MalErr {
    type V = ErrModel;

    open spec fn view(&self) -> ErrModel {
        self.model()
    }
}

/// Arguments handed to a function.
pub type MalArgs = Vec<MalVal>;

/// The result of evaluation or application.
pub type MalRet = Result<MalVal, MalErr>;

/// Model of a `MalRet`.
pub open spec fn ret_model(r: MalRet) -> Result<ValModel, ErrModel> {
    match r {
        Ok(v) => Ok(v.model()),
        Err(e) => Err(e.model()),
    }
}

/// Raise a free-form message error.
pub fn error(s: &str) -> (r: MalRet)
    ensures
        r matches Err(e) && e@ == ErrModel::Custom(s@),
{
    Err(MalErr::ErrMsg(ErrorKind::Custom(s.to_owned())))
}

/// Wrap a native function reference as a value, with `Nil` metadata.
pub fn func(f: NativeFn) -> (r: MalVal)
    ensures
        r@ == ValModel::Func(f, Box::new(ValModel::Nil)),
{
    proof {
        assert((MalVal::Nil).model() == ValModel::Nil);
    }
    MalVal::Func(f, Box::new(MalVal::Nil))
}

/// Character-for-character equality of two strings.
pub fn string_eq(x: &String, y: &String) -> (r: bool)
    ensures
        r == (x@ == y@),
{
    x.eq(y)
}

/// First index in `y` whose key equals `k`, scanning from the front.
pub fn find_key(y: &Vec<(String, MalVal)>, k: &String) -> (r: Option<usize>)
    ensures
        match r {
            Some(j) => j < y@.len() && y@[j as int].0@ == k@ && (forall|j2: int|
                0 <= j2 < j ==> (#[trigger] y@[j2]).0@ != k@),
            None => forall|j2: int| 0 <= j2 < y@.len() ==> (#[trigger] y@[j2]).0@ != k@,
        },
{
    let mut j: usize = 0;
    while j < y.len()
        invariant
            0 <= j <= y@.len(),
            forall|j2: int| 0 <= j2 < j ==> (#[trigger] y@[j2]).0@ != k@,
        decreases y@.len() - j,
    {
        if string_eq(&y[j].0, k) {
            return Some(j);
        }
        j = j + 1;
    }
    None
}

pub fn seq_val_eq(x: &Vec<MalVal>, y: &Vec<MalVal>) -> (r: bool)
    requires
        forall|i: int| 0 <= i < x@.len() ==> hashes_wf((#[trigger] x@[i])@),
        forall|i: int| 0 <= i < y@.len() ==> hashes_wf((#[trigger] y@[i])@),
    ensures
        r == seq_eq_model(models(x@), models(y@)),
    decreases x, 0int,
{
    proof {
        lemma_models(x@);
        lemma_models(y@);
    }
    if x.len() != y.len() {
        return false;
    }
    let mut i: usize = 0;
    while i < x.len()
        invariant
            x@.len() == y@.len(),
            0 <= i <= x@.len(),
            forall|i2: int| 0 <= i2 < x@.len() ==> hashes_wf((#[trigger] x@[i2])@),
            forall|i2: int| 0 <= i2 < y@.len() ==> hashes_wf((#[trigger] y@[i2])@),
            forall|j: int| 0 <= j < i ==> eq_model(x@[j]@, (#[trigger] y@[j])@),
        decreases x@.len() - i,
    {
        if !val_eq(&x[i], &y[i]) {
            proof {
                lemma_models(x@);
                lemma_models(y@);
                assert(!eq_model(models(x@)[i as int], models(y@)[i as int]));
            }
            return false;
        }
        i = i + 1;
    }
    proof {
        assert forall|j: int| 0 <= j < models(x@).len() implies eq_model(
            models(x@)[j],
            #[trigger] models(y@)[j],
        ) by {
            assert(models(x@)[j] == x@[j]@ && models(y@)[j] == y@[j]@);
        }
    }
    true
}

pub fn hash_val_eq(x: &Vec<(String, MalVal)>, y: &Vec<(String, MalVal)>) -> (r: bool)
    requires
        keys_unique(entry_models(x@)),
        keys_unique(entry_models(y@)),
        forall|i: int| 0 <= i < x@.len() ==> hashes_wf((#[trigger] x@[i]).1@),
        forall|i: int| 0 <= i < y@.len() ==> hashes_wf((#[trigger] y@[i]).1@),
    ensures
        r == hash_eq_model(entry_models(x@), entry_models(y@)),
    decreases x, 0int,
{
    proof {
        lemma_entry_models(x@);
        lemma_entry_models(y@);
    }
    if x.len() != y.len() {
        return false;
    }
    let ghost xm = entry_models(x@);
    let ghost ym = entry_models(y@);
    let mut i: usize = 0;
    while i < x.len()
        invariant
            x@.len() == y@.len(),
            0 <= i <= x@.len(),
            xm == entry_models(x@),
            ym == entry_models(y@),
            xm.len() == x@.len() && ym.len() == y@.len(),
            forall|j: int| 0 <= j < x@.len()
                ==> #[trigger] xm[j].0 == x@[j].0@ && xm[j].1 == x@[j].1@,
            forall|j: int| 0 <= j < y@.len()
                ==> #[trigger] ym[j].0 == y@[j].0@ && ym[j].1 == y@[j].1@,
            keys_unique(xm),
            keys_unique(ym),
            forall|i2: int| 0 <= i2 < x@.len() ==> hashes_wf((#[trigger] x@[i2]).1@),
            forall|i2: int| 0 <= i2 < y@.len() ==> hashes_wf((#[trigger] y@[i2]).1@),
            forall|i2: int| 0 <= i2 < i ==> has_entry(ym, (#[trigger] xm[i2]).0, xm[i2].1),
        decreases x@.len() - i,
    {
        match find_key(y, &x[i].0) {
            None => {
                proof {
                    let i0 = i as int;
                    assert forall|j: int| 0 <= j < ym.len() implies (#[trigger] ym[j]).0
                        != xm[i0].0 by {
                        assert(y@[j].0@ != x@[i0].0@);
                    }
                    assert(!has_entry(ym, xm[i0].0, xm[i0].1));
                    assert(!hash_eq_model(xm, ym));
                }
                return false;
            },
            Some(j) => {
                if !val_eq(&x[i].1, &y[j].1) {
                    proof {
                        let i0 = i as int;
                        assert forall|j2: int|
                            0 <= j2 < ym.len() && (#[trigger] ym[j2]).0 == xm[i0].0 implies !eq_model(
                            xm[i0].1,
                            ym[j2].1,
                        ) by {
                            if j2 != j as int {
                                assert(ym[j2].0 != ym[j as int].0);
                            }
                        }
                        assert(!has_entry(ym, xm[i0].0, xm[i0].1));
                        assert(!hash_eq_model(xm, ym));
                    }
                    return false;
                }
                proof {
                    let i0 = i as int;
                    let j0 = j as int;
                    assert(0 <= j0 < ym.len() && ym[j0].0 == xm[i0].0 && eq_model(
                        xm[i0].1,
                        ym[j0].1,
                    ));
                    assert(has_entry(ym, xm[i0].0, xm[i0].1));
                }
            },
        }
        i = i + 1;
    }
    true
}

/// Executable structural equality, matching `eq_model` on the models.
pub fn val_eq(a: &MalVal, b: &MalVal) -> (r: bool)
    requires
        hashes_wf(a@),
        hashes_wf(b@),
    ensures
        r == eq_model(a@, b@),
    decreases a, 2int,
{
    match (a, b) {
        (MalVal::Nil, MalVal::Nil) => true,
        (MalVal::Bool(x), MalVal::Bool(y)) => *x == *y,
        (MalVal::Int(x), MalVal::Int(y)) => *x == *y,
        (MalVal::Str(x), MalVal::Str(y)) => string_eq(x, y),
        (MalVal::Sym(x), MalVal::Sym(y)) => string_eq(x, y),
        (MalVal::List(x, _), MalVal::List(y, _)) => {
            proof {
                lemma_seq_children_wf(a, x);
                lemma_seq_children_wf(b, y);
            }
            seq_val_eq(x, y)
        },
        (MalVal::List(x, _), MalVal::Vector(y, _)) => {
            proof {
                lemma_seq_children_wf(a, x);
                lemma_seq_children_wf(b, y);
            }
            seq_val_eq(x, y)
        },
        (MalVal::Vector(x, _), MalVal::List(y, _)) => {
            proof {
                lemma_seq_children_wf(a, x);
                lemma_seq_children_wf(b, y);
            }
            seq_val_eq(x, y)
        },
        (MalVal::Vector(x, _), MalVal::Vector(y, _)) => {
            proof {
                lemma_seq_children_wf(a, x);
                lemma_seq_children_wf(b, y);
            }
            seq_val_eq(x, y)
        },
        (MalVal::Hash(x, _), MalVal::Hash(y, _)) => {
            proof {
                lemma_entry_models(x@);
                lemma_entry_models(y@);
                assert forall|i: int| 0 <= i < x@.len() implies hashes_wf(
                    (#[trigger] x@[i]).1@,
                ) by {
                    assert(entry_models(x@)[i].0 == x@[i].0@ && entry_models(x@)[i].1
                        == x@[i].1@);
                }
                assert forall|i: int| 0 <= i < y@.len() implies hashes_wf(
                    (#[trigger] y@[i]).1@,
                ) by {
                    assert(entry_models(y@)[i].0 == y@[i].0@ && entry_models(y@)[i].1
                        == y@[i].1@);
                }
            }
            hash_val_eq(x, y)
        },
        _ => {
            proof {
                assert(!eq_model(a@, b@));
            }
            false
        },
    }
}

pub proof fn lemma_seq_children_wf(a: &MalVal, x: &Vec<MalVal>)
    requires
        hashes_wf(a@),
        (a@ matches ValModel::List(s, _) && s == models(x@)) || (a@ matches ValModel::Vector(
            s,
            _,
        ) && s == models(x@)),
    ensures
        forall|i: int| 0 <= i < x@.len() ==> hashes_wf((#[trigger] x@[i])@),
{
    lemma_models(x@);
    assert forall|i: int| 0 <= i < x@.len() implies hashes_wf((#[trigger] x@[i])@) by {
        assert(models(x@)[i] == x@[i]@);
    }
}


/// Inserting a binding into an entry sequence: an existing key is
/// overwritten in place, a new key is appended.
pub open spec fn insert_entry(
    es: Seq<(Seq<char>, ValModel)>,
    k: Seq<char>,
    v: ValModel,
) -> Seq<(Seq<char>, ValModel)>
    decreases es.len(),
{
    if es.len() == 0 {
        seq![(k, v)]
    } else if es[0].0 == k {
        seq![(k, v)] + es.drop_first()
    } else {
        seq![es[0]] + insert_entry(es.drop_first(), k, v)
    }
}

/// With no matching key, inserting appends.
pub proof fn lemma_insert_absent(es: Seq<(Seq<char>, ValModel)>, k: Seq<char>, v: ValModel)
    requires
        forall|j: int| 0 <= j < es.len() ==> (#[trigger] es[j]).0 != k,
    ensures
        insert_entry(es, k, v) =~= es.push((k, v)),
    decreases es.len(),
{
    if es.len() > 0 {
        assert(es[0].0 != k);
        let tail = es.drop_first();
        assert forall|j: int| 0 <= j < tail.len() implies (#[trigger] tail[j]).0 != k by {
            assert(tail[j] == es[j + 1]);
        }
        lemma_insert_absent(es.drop_first(), k, v);
        assert(insert_entry(es, k, v) =~= seq![es[0]] + es.drop_first().push((k, v)));
    }
}

/// With a first match at `j`, inserting overwrites that entry in place.
pub proof fn lemma_insert_present(
    es: Seq<(Seq<char>, ValModel)>,
    k: Seq<char>,
    v: ValModel,
    j: int,
)
    requires
        0 <= j < es.len(),
        es[j].0 == k,
        forall|j2: int| 0 <= j2 < j ==> (#[trigger] es[j2]).0 != k,
    ensures
        insert_entry(es, k, v) =~= es.update(j, (k, v)),
    decreases es.len(),
{
    if j == 0 {
        assert(insert_entry(es, k, v) =~= seq![(k, v)] + es.drop_first());
    } else {
        assert(es[0].0 != k);
        let tail = es.drop_first();
        assert forall|j2: int| 0 <= j2 < j - 1 implies (#[trigger] tail[j2]).0 != k by {
            assert(tail[j2] == es[j2 + 1]);
        }
        assert(tail[j - 1] == es[j]);
        lemma_insert_present(es.drop_first(), k, v, j - 1);
        assert(insert_entry(es, k, v) =~= seq![es[0]] + es.drop_first().update(j - 1, (k, v)));
    }
}

/// Folding key/value arguments into an entry sequence: the argument count
/// must be even, every key must be a string, and each pair is inserted in
/// order (a later binding of the same key wins).
pub open spec fn assoc_model(es: Seq<(Seq<char>, ValModel)>, kvs: Seq<ValModel>) -> Result<
    Seq<(Seq<char>, ValModel)>,
    ErrModel,
>
    decreases kvs.len(),
{
    if kvs.len() % 2 != 0 {
        Err(ErrModel::Arity)
    } else if kvs.len() == 0 {
        Ok(es)
    } else {
        match kvs[0] {
            ValModel::Str(s) => assoc_model(insert_entry(es, s, kvs[1]), kvs.skip(2)),
            _ => Err(ErrModel::TypeMismatch),
        }
    }
}

/// Fold key/value arguments into the given entries and wrap the result as
/// a hash value.
pub fn _assoc(hm: Vec<(String, MalVal)>, kvs: MalArgs) -> (r: MalRet)
    ensures
        match assoc_model(entry_models(hm@), models(kvs@)) {
            Ok(es) => r matches Ok(rv) && rv@ == ValModel::Hash(es, Box::new(ValModel::Nil)),
            Err(e) => r matches Err(re) && re@ == e,
        },
{
    let ghost em0 = entry_models(hm@);
    let ghost kvm = models(kvs@);
    proof {
        lemma_models(kvs@);
        lemma_entry_models(hm@);
    }
    if kvs.len() % 2 != 0 {
        return Err(MalErr::ErrMsg(ErrorKind::Arity));
    }
    proof {
        assert(kvm.skip(0) =~= kvm);
    }
    let mut out = dup_entries(&hm);
    let mut i: usize = 0;
    while i < kvs.len()
        invariant
            kvm == models(kvs@),
            kvm.len() == kvs@.len(),
            forall|j: int| 0 <= j < kvs@.len() ==> kvm[j] == #[trigger] kvs@[j]@,
            kvs@.len() % 2 == 0,
            i % 2 == 0,
            0 <= i <= kvs@.len(),
            em0 == entry_models(hm@),
            assoc_model(em0, kvm) == assoc_model(entry_models(out@), kvm.skip(i as int)),
        decreases kvs@.len() - i,
    {
        proof {
            assert((kvs@.len() - i) % 2 == 0);
            assert(kvs@.len() - i >= 2);
            lemma_model_shape(kvs@[i as int]);
            assert(kvm[i as int] == kvs@[i as int]@);
            assert(kvm[i as int + 1] == kvs@[i as int + 1]@);
            assert(kvm.skip(i as int)[0] == kvm[i as int]);
            assert(kvm.skip(i as int)[1] == kvm[i as int + 1]);
        }
        let k = match &kvs[i] {
            MalVal::Str(ks) => ks.clone(),
            _ => {
                return Err(MalErr::ErrMsg(ErrorKind::TypeMismatch));
            },
        };
        let v = kvs[i + 1].duplicate();
        let ghost outpre = out@;
        let ghost pre = entry_models(out@);
        let ghost vm = v@;
        let ghost ks = kvm[i as int]->Str_0;
        proof {
            lemma_entry_models(outpre);
            assert(k@ == ks);
        }
        match find_key(&out, &k) {
            Some(j) => {
                out.set(j, (k, v));
                proof {
                    lemma_entry_models(out@);
                    let post = entry_models(out@);
                    assert forall|j2: int| 0 <= j2 < j implies (#[trigger] pre[j2]).0 != ks by {
                        assert(pre[j2].0 == outpre[j2].0@);
                        assert(outpre[j2].0@ != ks);
                    }
                    assert(pre[j as int].0 == outpre[j as int].0@);
                    assert(pre[j as int].0 == ks);
                    lemma_insert_present(pre, ks, vm, j as int);
                    assert forall|j2: int| 0 <= j2 < post.len() implies post[j2] =~= pre.update(
                        j as int,
                        (ks, vm),
                    )[j2] by {
                        if j2 == j {
                            assert(out@[j2].0@ == ks && out@[j2].1@ == vm);
                        } else {
                            assert(out@[j2] == outpre[j2]);
                            assert(pre[j2].0 == outpre[j2].0@ && pre[j2].1 == outpre[j2].1@);
                        }
                    }
                    assert(post =~= insert_entry(pre, ks, vm));
                }
            },
            None => {
                out.push((k, v));
                proof {
                    lemma_entry_models(out@);
                    let post = entry_models(out@);
                    assert forall|j2: int| 0 <= j2 < pre.len() implies (#[trigger] pre[j2]).0
                        != ks by {
                        assert(pre[j2].0 == outpre[j2].0@);
                        assert(outpre[j2].0@ != ks);
                    }
                    lemma_insert_absent(pre, ks, vm);
                    assert forall|j2: int| 0 <= j2 < post.len() implies post[j2] =~= pre.push(
                        (ks, vm),
                    )[j2] by {
                        if j2 < pre.len() {
                            assert(out@[j2] == outpre[j2]);
                            assert(pre[j2].0 == outpre[j2].0@ && pre[j2].1 == outpre[j2].1@);
                        } else {
                            assert(out@[j2].0@ == ks && out@[j2].1@ == vm);
                        }
                    }
                    assert(post =~= insert_entry(pre, ks, vm));
                }
            },
        }
        proof {
            let post = entry_models(out@);
            assert(kvm.skip(i as int).skip(2) =~= kvm.skip(i as int + 2));
            assert(assoc_model(pre, kvm.skip(i as int)) == assoc_model(
                insert_entry(pre, ks, vm),
                kvm.skip(i as int + 2),
            ));
            assert(assoc_model(em0, kvm) == assoc_model(post, kvm.skip(i as int + 2)));
        }
        i = i + 2;
    }
    proof {
        assert(kvm.skip(kvs@.len() as int) =~= Seq::<ValModel>::empty());
    }
    let ghost emf = entry_models(out@);
    let r = MalVal::Hash(out, Box::new(MalVal::Nil));
    proof {
        assert((MalVal::Nil)@ == ValModel::Nil);
        assert(r@ == ValModel::Hash(emf, Box::new(ValModel::Nil)));
    }
    Ok(r)
}

/// Build a hash from key/value arguments.
pub fn hash_map(kvs: MalArgs) -> (r: MalRet)
    ensures
        match assoc_model(Seq::empty(), models(kvs@)) {
            Ok(es) => r matches Ok(rv) && rv@ == ValModel::Hash(es, Box::new(ValModel::Nil)),
            Err(e) => r matches Err(re) && re@ == e,
        },
{
    let hm: Vec<(String, MalVal)> = Vec::new();
    proof {
        lemma_entry_models(hm@);
        assert(entry_models(hm@) =~= Seq::<(Seq<char>, ValModel)>::empty());
    }
    _assoc(hm, kvs)
}

} // verus!
