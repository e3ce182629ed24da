//! The native function library: the semantics of each built-in, the
//! dispatcher that the evaluator calls, and the registration of the
//! name-to-function pairs into the root environment.
use crate::env::EnvStore;
use crate::printer::{pr_seq, print_items};
use crate::reader::{read_str, read_str_model};
use crate::types::{
    eq_model, hashes_wf, lemma_model_shape, lemma_models, models, val_eq, val_ok, ErrModel,
    ErrorKind, MalArgs, MalErr, MalRet, MalVal, NativeFn, ValModel,
};
use vstd::prelude::*;

verus! {

/// `cons`: a new list with the first argument prepended to the elements of
/// the second, which must be a list or a vector.
pub open spec fn cons_model(args: Seq<ValModel>) -> Result<ValModel, ErrModel> {
    if args.len() < 2 {
        Err(ErrModel::Arity)
    } else {
        match args[1] {
            ValModel::List(vs, _) => Ok(
                ValModel::List(seq![args[0]] + vs, Box::new(ValModel::Nil)),
            ),
            ValModel::Vector(vs, _) => Ok(
                ValModel::List(seq![args[0]] + vs, Box::new(ValModel::Nil)),
            ),
            _ => Err(ErrModel::TypeMismatch),
        }
    }
}

/// `concat`: all arguments must be lists or vectors; the result is a new
/// list of all their elements in argument order.
pub open spec fn concat_model(args: Seq<ValModel>, i: int) -> Result<Seq<ValModel>, ErrModel>
    decreases args.len() - i,
{
    if i < 0 || i >= args.len() {
        Ok(Seq::empty())
    } else {
        match args[i] {
            ValModel::List(vs, _) => match concat_model(args, i + 1) {
                Ok(rest) => Ok(vs + rest),
                Err(e) => Err(e),
            },
            ValModel::Vector(vs, _) => match concat_model(args, i + 1) {
                Ok(rest) => Ok(vs + rest),
                Err(e) => Err(e),
            },
            _ => Err(ErrModel::TypeMismatch),
        }
    }
}

/// `nth`: the element of a sequence at an integer index; an index outside
/// the sequence fails with an index error.
pub open spec fn nth_model(args: Seq<ValModel>) -> Result<ValModel, ErrModel> {
    if args.len() < 2 {
        Err(ErrModel::Arity)
    } else {
        match (args[0], args[1]) {
            (ValModel::List(vs, _), ValModel::Int(i)) => if 0 <= i < vs.len() {
                Ok(vs[i as int])
            } else {
                Err(ErrModel::IndexOutOfRange)
            },
            (ValModel::Vector(vs, _), ValModel::Int(i)) => if 0 <= i < vs.len() {
                Ok(vs[i as int])
            } else {
                Err(ErrModel::IndexOutOfRange)
            },
            _ => Err(ErrModel::TypeMismatch),
        }
    }
}

/// `first`: `Nil` and empty sequences yield `Nil`; a non-empty sequence
/// yields its first element; anything else is a type mismatch.
pub open spec fn first_model(args: Seq<ValModel>) -> Result<ValModel, ErrModel> {
    if args.len() < 1 {
        Err(ErrModel::Arity)
    } else {
        match args[0] {
            ValModel::Nil => Ok(ValModel::Nil),
            ValModel::List(vs, _) => if vs.len() == 0 {
                Ok(ValModel::Nil)
            } else {
                Ok(vs[0])
            },
            ValModel::Vector(vs, _) => if vs.len() == 0 {
                Ok(ValModel::Nil)
            } else {
                Ok(vs[0])
            },
            _ => Err(ErrModel::TypeMismatch),
        }
    }
}

/// The two integer operands of a comparison or arithmetic built-in; any
/// other argument shape is a type mismatch.
pub open spec fn int_args(args: Seq<ValModel>) -> Result<(i64, i64), ErrModel> {
    if args.len() < 2 {
        Err(ErrModel::TypeMismatch)
    } else {
        match (args[0], args[1]) {
            (ValModel::Int(a), ValModel::Int(b)) => Ok((a, b)),
            _ => Err(ErrModel::TypeMismatch),
        }
    }
}

/// Arithmetic is total: an unrepresentable result fails with an overflow
/// error, and division by zero with its own error, rather than wrapping
/// or tearing the process down.
pub open spec fn arith_model(f: NativeFn, a: i64, b: i64) -> Result<ValModel, ErrModel> {
    match f {
        NativeFn::Add => match a.checked_add(b) {
            Some(v) => Ok(ValModel::Int(v)),
            None => Err(ErrModel::Overflow),
        },
        NativeFn::Sub => match a.checked_sub(b) {
            Some(v) => Ok(ValModel::Int(v)),
            None => Err(ErrModel::Overflow),
        },
        NativeFn::Mul => match a.checked_mul(b) {
            Some(v) => Ok(ValModel::Int(v)),
            None => Err(ErrModel::Overflow),
        },
        NativeFn::Div => if b == 0 {
            Err(ErrModel::DivideByZero)
        } else {
            match a.checked_div(b) {
                Some(v) => Ok(ValModel::Int(v)),
                None => Err(ErrModel::Overflow),
            }
        },
        _ => Err(ErrModel::TypeMismatch),
    }
}

/// What each native returns.
pub open spec fn native_result(f: NativeFn, args: Seq<ValModel>) -> Result<ValModel, ErrModel> {
    match f {
        NativeFn::EqVals => if args.len() < 2 {
            Err(ErrModel::Arity)
        } else {
            Ok(ValModel::Bool(eq_model(args[0], args[1])))
        },
        NativeFn::ReadString => if args.len() < 1 {
            Err(ErrModel::Arity)
        } else {
            match args[0] {
                ValModel::Str(s) => read_str_model(s),
                _ => Err(ErrModel::TypeMismatch),
            }
        },
        NativeFn::MakeList => Ok(ValModel::List(args, Box::new(ValModel::Nil))),
        NativeFn::LessThan => match int_args(args) {
            Ok((a, b)) => Ok(ValModel::Bool(a < b)),
            Err(e) => Err(e),
        },
        NativeFn::LessEq => match int_args(args) {
            Ok((a, b)) => Ok(ValModel::Bool(a <= b)),
            Err(e) => Err(e),
        },
        NativeFn::GreaterThan => match int_args(args) {
            Ok((a, b)) => Ok(ValModel::Bool(a > b)),
            Err(e) => Err(e),
        },
        NativeFn::GreaterEq => match int_args(args) {
            Ok((a, b)) => Ok(ValModel::Bool(a >= b)),
            Err(e) => Err(e),
        },
        NativeFn::Add => match int_args(args) {
            Ok((a, b)) => arith_model(NativeFn::Add, a, b),
            Err(e) => Err(e),
        },
        NativeFn::Sub => match int_args(args) {
            Ok((a, b)) => arith_model(NativeFn::Sub, a, b),
            Err(e) => Err(e),
        },
        NativeFn::Mul => match int_args(args) {
            Ok((a, b)) => arith_model(NativeFn::Mul, a, b),
            Err(e) => Err(e),
        },
        NativeFn::Div => match int_args(args) {
            Ok((a, b)) => arith_model(NativeFn::Div, a, b),
            Err(e) => Err(e),
        },
        NativeFn::Prn => Ok(ValModel::Nil),
        NativeFn::Cons => cons_model(args),
        NativeFn::Concat => match concat_model(args, 0) {
            Ok(vs) => Ok(ValModel::List(vs, Box::new(ValModel::Nil))),
            Err(e) => Err(e),
        },
        NativeFn::Nth => nth_model(args),
        NativeFn::First => first_model(args),
    }
}

/// The lines a native writes to the output sink: `prn` writes its
/// arguments space-separated in readable form; every other native writes
/// nothing.
pub open spec fn native_out(f: NativeFn, args: Seq<ValModel>) -> Seq<Seq<char>> {
    match f {
        NativeFn::Prn => seq![print_items(args, 0, true)],
        _ => Seq::empty(),
    }
}

/// Prepend the first argument to the elements of the second.
pub fn cons(a: &MalArgs) -> (r: MalRet)
    ensures
        match cons_model(models(a@)) {
            Ok(v) => r matches Ok(rv) && rv@ == v,
            Err(e) => r matches Err(re) && re@ == e,
        },
{
    proof {
        lemma_models(a@);
    }
    if a.len() < 2 {
        return Err(MalErr::ErrMsg(ErrorKind::Arity));
    }
    proof {
        lemma_model_shape(a@[1]);
        assert(models(a@)[1] == a@[1]@);
        assert(models(a@)[0] == a@[0]@);
    }
    let vs: &Vec<MalVal> = match &a[1] {
        MalVal::List(vs, _) => vs,
        MalVal::Vector(vs, _) => vs,
        _ => {
            return Err(MalErr::ErrMsg(ErrorKind::TypeMismatch));
        },
    };
    let mut out: Vec<MalVal> = Vec::new();
    out.push(a[0].duplicate());
    let mut i: usize = 0;
    while i < vs.len()
        invariant
            0 <= i <= vs@.len(),
            out@.len() == i + 1,
            out@[0]@ == a@[0]@,
            forall|j: int| 0 <= j < i ==> out@[j + 1]@ == (#[trigger] vs@[j])@,
        decreases vs@.len() - i,
    {
        out.push(vs[i].duplicate());
        i = i + 1;
    }
    let r = MalVal::List(out, Box::new(MalVal::Nil));
    proof {
        lemma_models(r->List_0@);
        lemma_models(vs@);
        lemma_model_shape(a@[1]);
        let argm = models(a@);
        let vsm = models(vs@);
        let em = seq![argm[0]] + vsm;
        assert(cons_model(argm) == Ok::<ValModel, ErrModel>(
            ValModel::List(em, Box::new(ValModel::Nil)),
        ));
        assert forall|j: int| 0 <= j < em.len() implies models(r->List_0@)[j] == em[j] by {
            assert(models(r->List_0@)[j] == r->List_0@[j]@);
            if j > 0 {
                assert(em[j] == vsm[j - 1]);
                assert(vsm[j - 1] == vs@[j - 1]@);
            }
        }
        assert(models(r->List_0@) =~= em);
    }
    Ok(r)
}

/// Concatenate the elements of every argument, each a list or a vector.
pub fn concat(a: &MalArgs) -> (r: MalRet)
    ensures
        match native_result(NativeFn::Concat, models(a@)) {
            Ok(v) => r matches Ok(rv) && rv@ == v,
            Err(e) => r matches Err(re) && re@ == e,
        },
{
    let ghost argm = models(a@);
    proof {
        lemma_models(a@);
    }
    let mut out: Vec<MalVal> = Vec::new();
    let mut i: usize = 0;
    while i < a.len()
        invariant
            argm == models(a@),
            argm.len() == a@.len(),
            forall|j: int| 0 <= j < a@.len() ==> argm[j] == #[trigger] a@[j]@,
            0 <= i <= a@.len(),
            concat_model(argm, 0) == (match concat_model(argm, i as int) {
                Ok(rest) => Ok::<Seq<ValModel>, ErrModel>(models(out@) + rest),
                Err(e) => Err::<Seq<ValModel>, ErrModel>(e),
            }),
        decreases a@.len() - i,
    {
        let ghost out0 = out@;
        proof {
            lemma_model_shape(a@[i as int]);
            assert(argm[i as int] == a@[i as int]@);
        }
        let vs: &Vec<MalVal> = match &a[i] {
            MalVal::List(vs, _) => vs,
            MalVal::Vector(vs, _) => vs,
            _ => {
                return Err(MalErr::ErrMsg(ErrorKind::TypeMismatch));
            },
        };
        let mut k: usize = 0;
        while k < vs.len()
            invariant
                0 <= k <= vs@.len(),
                out@.len() == out0.len() + k,
                forall|j: int| 0 <= j < out0.len() ==> #[trigger] out@[j] == out0[j],
                forall|j: int| 0 <= j < k ==> out@[out0.len() + j]@ == (#[trigger] vs@[j])@,
            decreases vs@.len() - k,
        {
            out.push(vs[k].duplicate());
            k = k + 1;
        }
        proof {
            lemma_models(vs@);
            lemma_models(out0);
            lemma_models(out@);
            assert forall|j: int| 0 <= j < out@.len() implies models(out@)[j] == (models(out0)
                + models(vs@))[j] by {
                assert(models(out@)[j] == out@[j]@);
                if j < out0.len() {
                    assert(models(out0)[j] == out0[j]@);
                } else {
                    assert(models(vs@)[j - out0.len()] == vs@[j - out0.len()]@);
                }
            }
            assert(models(out@) =~= models(out0) + models(vs@));
            let vm = argm[i as int]->List_0;
            if argm[i as int] matches ValModel::Vector(w, _) {
                assert(models(out@) =~= models(out0) + argm[i as int]->Vector_0);
            }
            assert forall|rest: Seq<ValModel>| true implies (models(out0) + (models(vs@) + rest))
                =~= (models(out@) + rest) by {
                assert(models(out@) =~= models(out0) + models(vs@));
            }
        }
        i = i + 1;
    }
    let r = MalVal::List(out, Box::new(MalVal::Nil));
    proof {
        assert(concat_model(argm, a@.len() as int) == Ok::<Seq<ValModel>, ErrModel>(
            Seq::empty(),
        ));
        lemma_models(r->List_0@);
        assert(models(r->List_0@) + Seq::<ValModel>::empty() =~= models(r->List_0@));
    }
    Ok(r)
}

/// The element of a sequence at an index.
pub fn nth(a: &MalArgs) -> (r: MalRet)
    ensures
        match nth_model(models(a@)) {
            Ok(v) => r matches Ok(rv) && rv@ == v,
            Err(e) => r matches Err(re) && re@ == e,
        },
{
    proof {
        lemma_models(a@);
    }
    if a.len() < 2 {
        return Err(MalErr::ErrMsg(ErrorKind::Arity));
    }
    proof {
        lemma_model_shape(a@[0]);
        lemma_model_shape(a@[1]);
        assert(models(a@)[0] == a@[0]@);
        assert(models(a@)[1] == a@[1]@);
    }
    let idx: i64 = match &a[1] {
        MalVal::Int(i) => *i,
        _ => {
            return Err(MalErr::ErrMsg(ErrorKind::TypeMismatch));
        },
    };
    let vs: &Vec<MalVal> = match &a[0] {
        MalVal::List(vs, _) => vs,
        MalVal::Vector(vs, _) => vs,
        _ => {
            return Err(MalErr::ErrMsg(ErrorKind::TypeMismatch));
        },
    };
    proof {
        lemma_models(vs@);
    }
    if idx < 0 {
        return Err(MalErr::ErrMsg(ErrorKind::IndexOutOfRange));
    }
    if (idx as u64) >= (vs.len() as u64) {
        return Err(MalErr::ErrMsg(ErrorKind::IndexOutOfRange));
    }
    let iu = idx as usize;
    Ok(vs[iu].duplicate())
}

/// The first element of a sequence, or `Nil` for `Nil` and empty
/// sequences.
pub fn first(a: &MalArgs) -> (r: MalRet)
    ensures
        match first_model(models(a@)) {
            Ok(v) => r matches Ok(rv) && rv@ == v,
            Err(e) => r matches Err(re) && re@ == e,
        },
{
    proof {
        lemma_models(a@);
    }
    if a.len() < 1 {
        return Err(MalErr::ErrMsg(ErrorKind::Arity));
    }
    proof {
        lemma_model_shape(a@[0]);
        assert(models(a@)[0] == a@[0]@);
    }
    match &a[0] {
        MalVal::Nil => Ok(MalVal::Nil),
        MalVal::List(vs, _) => {
            proof {
                lemma_models(vs@);
            }
            if vs.len() == 0 {
                Ok(MalVal::Nil)
            } else {
                Ok(vs[0].duplicate())
            }
        },
        MalVal::Vector(vs, _) => {
            proof {
                lemma_models(vs@);
            }
            if vs.len() == 0 {
                Ok(MalVal::Nil)
            } else {
                Ok(vs[0].duplicate())
            }
        },
        _ => Err(MalErr::ErrMsg(ErrorKind::TypeMismatch)),
    }
}

/// Dispatch a native call. Only `prn` touches the store: it appends one
/// line to the output sink.
pub fn native_apply(f: NativeFn, a: &MalArgs, store: &mut EnvStore) -> (r: MalRet)
    requires
        forall|i: int| 0 <= i < a@.len() ==> hashes_wf((#[trigger] a@[i])@),
    ensures
        match native_result(f, models(a@)) {
            Ok(v) => r matches Ok(rv) && rv@ == v,
            Err(e) => r matches Err(re) && re@ == e,
        },
        final(store)@.frames == old(store)@.frames,
        final(store)@.atoms == old(store)@.atoms,
        final(store)@.out == old(store)@.out + native_out(f, models(a@)),
{
    proof {
        lemma_models(a@);
    }
    match f {
        NativeFn::EqVals => {
            if a.len() < 2 {
                return Err(MalErr::ErrMsg(ErrorKind::Arity));
            }
            proof {
                assert(models(a@)[0] == a@[0]@);
                assert(models(a@)[1] == a@[1]@);
            }
            Ok(MalVal::Bool(val_eq(&a[0], &a[1])))
        },
        NativeFn::ReadString => {
            if a.len() < 1 {
                return Err(MalErr::ErrMsg(ErrorKind::Arity));
            }
            proof {
                lemma_model_shape(a@[0]);
                assert(models(a@)[0] == a@[0]@);
            }
            match &a[0] {
                MalVal::Str(s) => read_str(s.clone()),
                _ => Err(MalErr::ErrMsg(ErrorKind::TypeMismatch)),
            }
        },
        NativeFn::MakeList => {
            let mut out: Vec<MalVal> = Vec::new();
            let mut i: usize = 0;
            while i < a.len()
                invariant
                    0 <= i <= a@.len(),
                    out@.len() == i,
                    forall|j: int| 0 <= j < i ==> out@[j]@ == (#[trigger] a@[j])@,
                decreases a@.len() - i,
            {
                out.push(a[i].duplicate());
                i = i + 1;
            }
            let r = MalVal::List(out, Box::new(MalVal::Nil));
            proof {
                lemma_models(r->List_0@);
                lemma_models(a@);
                assert forall|j: int| 0 <= j < a@.len() implies models(r->List_0@)[j] == models(
                    a@,
                )[j] by {
                    assert(models(r->List_0@)[j] == r->List_0@[j]@);
                    assert(models(a@)[j] == a@[j]@);
                }
                assert(models(r->List_0@) =~= models(a@));
            }
            Ok(r)
        },
        NativeFn::LessThan => {
            match get_ints(a) {
                Ok((x, y)) => Ok(MalVal::Bool(x < y)),
                Err(e) => Err(e),
            }
        },
        NativeFn::LessEq => {
            match get_ints(a) {
                Ok((x, y)) => Ok(MalVal::Bool(x <= y)),
                Err(e) => Err(e),
            }
        },
        NativeFn::GreaterThan => {
            match get_ints(a) {
                Ok((x, y)) => Ok(MalVal::Bool(x > y)),
                Err(e) => Err(e),
            }
        },
        NativeFn::GreaterEq => {
            match get_ints(a) {
                Ok((x, y)) => Ok(MalVal::Bool(x >= y)),
                Err(e) => Err(e),
            }
        },
        NativeFn::Add => {
            match get_ints(a) {
                Ok((x, y)) => match x.checked_add(y) {
                    Some(v) => Ok(MalVal::Int(v)),
                    None => Err(MalErr::ErrMsg(ErrorKind::Overflow)),
                },
                Err(e) => Err(e),
            }
        },
        NativeFn::Sub => {
            match get_ints(a) {
                Ok((x, y)) => match x.checked_sub(y) {
                    Some(v) => Ok(MalVal::Int(v)),
                    None => Err(MalErr::ErrMsg(ErrorKind::Overflow)),
                },
                Err(e) => Err(e),
            }
        },
        NativeFn::Mul => {
            match get_ints(a) {
                Ok((x, y)) => match x.checked_mul(y) {
                    Some(v) => Ok(MalVal::Int(v)),
                    None => Err(MalErr::ErrMsg(ErrorKind::Overflow)),
                },
                Err(e) => Err(e),
            }
        },
        NativeFn::Div => {
            match get_ints(a) {
                Ok((x, y)) => {
                    if y == 0 {
                        Err(MalErr::ErrMsg(ErrorKind::DivideByZero))
                    } else {
                        match x.checked_div(y) {
                            Some(v) => Ok(MalVal::Int(v)),
                            None => Err(MalErr::ErrMsg(ErrorKind::Overflow)),
                        }
                    }
                },
                Err(e) => Err(e),
            }
        },
        NativeFn::Prn => {
            let line = pr_seq(a, true, "", "");
            proof {
                reveal_strlit("");
                assert(""@ =~= Seq::<char>::empty());
                assert(line@ =~= print_items(models(a@), 0, true));
            }
            store.out.push(line);
            proof {
                let o0 = old(store)@.out;
                assert forall|j: int| 0 <= j < store.out@.len() implies crate::env::out_models(
                    store.out@,
                )[j] == (o0 + native_out(NativeFn::Prn, models(a@)))[j] by {
                    if j < o0.len() {
                        assert(store.out@[j] == old(store).out@[j]);
                    } else {
                        assert(store.out@[j] == store.out@.last());
                    }
                }
                assert(crate::env::out_models(store.out@) =~= o0 + native_out(
                    NativeFn::Prn,
                    models(a@),
                ));
            }
            Ok(MalVal::Nil)
        },
        NativeFn::Cons => cons(a),
        NativeFn::Concat => concat(a),
        NativeFn::Nth => nth(a),
        NativeFn::First => first(a),
    }
}

/// The two integer operands, or the argument-shape error.
fn get_ints(a: &MalArgs) -> (r: Result<(i64, i64), MalErr>)
    ensures
        match int_args(models(a@)) {
            Ok((x, y)) => r matches Ok(p) && p.0 == x && p.1 == y,
            Err(e) => r matches Err(re) && re@ == e,
        },
{
    proof {
        lemma_models(a@);
    }
    if a.len() < 2 {
        return Err(MalErr::ErrMsg(ErrorKind::TypeMismatch));
    }
    proof {
        lemma_model_shape(a@[0]);
        lemma_model_shape(a@[1]);
        assert(models(a@)[0] == a@[0]@);
        assert(models(a@)[1] == a@[1]@);
    }
    match (&a[0], &a[1]) {
        (MalVal::Int(x), MalVal::Int(y)) => Ok((*x, *y)),
        _ => Err(MalErr::ErrMsg(ErrorKind::TypeMismatch)),
    }
}



/// The registry's contents, in order: each native name paired with its
/// function value (always with `Nil` metadata).
pub open spec fn ns_model() -> Seq<(Seq<char>, ValModel)> {
    seq![
        ("="@, ValModel::Func(NativeFn::EqVals, Box::new(ValModel::Nil))),
        ("read-string"@, ValModel::Func(NativeFn::ReadString, Box::new(ValModel::Nil))),
        ("list"@, ValModel::Func(NativeFn::MakeList, Box::new(ValModel::Nil))),
        ("<"@, ValModel::Func(NativeFn::LessThan, Box::new(ValModel::Nil))),
        ("<="@, ValModel::Func(NativeFn::LessEq, Box::new(ValModel::Nil))),
        (">"@, ValModel::Func(NativeFn::GreaterThan, Box::new(ValModel::Nil))),
        (">="@, ValModel::Func(NativeFn::GreaterEq, Box::new(ValModel::Nil))),
        ("+"@, ValModel::Func(NativeFn::Add, Box::new(ValModel::Nil))),
        ("-"@, ValModel::Func(NativeFn::Sub, Box::new(ValModel::Nil))),
        ("*"@, ValModel::Func(NativeFn::Mul, Box::new(ValModel::Nil))),
        ("/"@, ValModel::Func(NativeFn::Div, Box::new(ValModel::Nil))),
        ("prn"@, ValModel::Func(NativeFn::Prn, Box::new(ValModel::Nil))),
        ("cons"@, ValModel::Func(NativeFn::Cons, Box::new(ValModel::Nil))),
        ("concat"@, ValModel::Func(NativeFn::Concat, Box::new(ValModel::Nil))),
        ("nth"@, ValModel::Func(NativeFn::Nth, Box::new(ValModel::Nil))),
        ("first"@, ValModel::Func(NativeFn::First, Box::new(ValModel::Nil))),
    ]
}

/// The name-to-function pairs the root environment receives.
pub fn ns() -> (r: Vec<(&'static str, MalVal)>)
    ensures
        r@.len() == ns_model().len(),
        forall|j: int| 0 <= j < r@.len() ==> (#[trigger] r@[j]).0@ == ns_model()[j].0
            && r@[j].1@ == ns_model()[j].1,
{
    let mut r: Vec<(&'static str, MalVal)> = Vec::new();
    r.push(("=", crate::types::func(NativeFn::EqVals)));
    r.push(("read-string", crate::types::func(NativeFn::ReadString)));
    r.push(("list", crate::types::func(NativeFn::MakeList)));
    r.push(("<", crate::types::func(NativeFn::LessThan)));
    r.push(("<=", crate::types::func(NativeFn::LessEq)));
    r.push((">", crate::types::func(NativeFn::GreaterThan)));
    r.push((">=", crate::types::func(NativeFn::GreaterEq)));
    r.push(("+", crate::types::func(NativeFn::Add)));
    r.push(("-", crate::types::func(NativeFn::Sub)));
    r.push(("*", crate::types::func(NativeFn::Mul)));
    r.push(("/", crate::types::func(NativeFn::Div)));
    r.push(("prn", crate::types::func(NativeFn::Prn)));
    r.push(("cons", crate::types::func(NativeFn::Cons)));
    r.push(("concat", crate::types::func(NativeFn::Concat)));
    r.push(("nth", crate::types::func(NativeFn::Nth)));
    r.push(("first", crate::types::func(NativeFn::First)));
    proof {
        assert forall|j: int| 0 <= j < r@.len() implies (#[trigger] r@[j]).0@ == ns_model()[j].0
            && r@[j].1@ == ns_model()[j].1 by {
            assert(0 <= j < 16);
        }
    }
    r
}

} // verus!
