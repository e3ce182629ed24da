//! The evaluator and the eval/apply contract. Evaluation is bounded by a
//! fuel parameter: a program that would run beyond it fails with a budget
//! error instead of holding the thread forever.
use crate::env::{
    bind_model, env_bind, env_define, env_get, env_lookup, env_new, store_inv, Env, EnvStore,
    FrameModel, StoreModel,
};
use crate::natives::{native_apply, native_out, native_result};
use crate::printer::format_error;
use crate::reader::{parse_form, parse_seq, read_str, read_str_model, tokenize_model};
use crate::types::{
    entry_models, hashes_wf, lemma_model_shape, lemma_models, models, ret_model, val_ok, ErrModel,
    ErrorKind, MalArgs, MalErr, MalRet, MalVal, ValModel,
};
use vstd::prelude::*;

verus! {

broadcast use {
    crate::types::lemma_models_len,
    crate::types::lemma_entry_models_len,
    crate::env::lemma_frame_models_len,
    crate::env::lemma_out_models_len,
};

/// A sequence extended at the end keeps its prefix.
pub open spec fn seq_extends(pre: Seq<Seq<char>>, post: Seq<Seq<char>>) -> bool {
    pre.len() <= post.len() && pre =~= post.take(pre.len() as int)
}

pub proof fn lemma_extends_trans(a: Seq<Seq<char>>, b: Seq<Seq<char>>, c: Seq<Seq<char>>)
    requires
        seq_extends(a, b),
        seq_extends(b, c),
    ensures
        seq_extends(a, c),
{
    assert(a =~= c.take(a.len() as int));
}

pub proof fn lemma_extends_concat(a: Seq<Seq<char>>, b: Seq<Seq<char>>)
    ensures
        seq_extends(a, a + b),
{
    assert(a =~= (a + b).take(a.len() as int));
}

/// Values produced by the reader hold no handles and no hash, so they are
/// well formed for any store.
pub proof fn lemma_parse_form_ok(toks: Seq<Seq<char>>, p: int, fuel: nat, nf: int, na: int)
    ensures
        parse_form(toks, p, fuel) matches Ok(vp) ==> hashes_wf(vp.0) && val_ok(vp.0, nf, na),
        parse_form(toks, p, fuel) matches Err(e) ==> !(e matches ErrModel::Raised(_)),
    decreases fuel,
{
    assert(hashes_wf(ValModel::Nil) && val_ok(ValModel::Nil, nf, na));
    if fuel > 0 && 0 <= p < toks.len() {
        lemma_parse_form_ok(toks, p + 1, (fuel - 1) as nat, nf, na);
        lemma_parse_seq_ok(toks, p + 1, ")"@, (fuel - 1) as nat, nf, na);
        lemma_parse_seq_ok(toks, p + 1, "]"@, (fuel - 1) as nat, nf, na);
        if toks[p] == "'"@ {
            match parse_form(toks, p + 1, (fuel - 1) as nat) {
                Ok(vp) => {
                    let items = seq![ValModel::Sym("quote"@), vp.0];
                    assert forall|i: int| 0 <= i < items.len() implies hashes_wf(
                        #[trigger] items[i],
                    ) && val_ok(items[i], nf, na) by {
                        if i == 0 {
                            assert(items[0] == ValModel::Sym("quote"@));
                        } else {
                            assert(items[1] == vp.0);
                        }
                    }
                },
                Err(_) => {},
            }
        }
    }
}

pub proof fn lemma_parse_seq_ok(
    toks: Seq<Seq<char>>,
    p: int,
    close: Seq<char>,
    fuel: nat,
    nf: int,
    na: int,
)
    ensures
        parse_seq(toks, p, close, fuel) matches Ok(vp) ==> forall|i: int|
            0 <= i < vp.0.len() ==> hashes_wf(#[trigger] vp.0[i]) && val_ok(vp.0[i], nf, na),
        parse_seq(toks, p, close, fuel) matches Err(e) ==> !(e matches ErrModel::Raised(_)),
    decreases fuel,
{
    if fuel > 0 && 0 <= p < toks.len() && toks[p] != close {
        lemma_parse_form_ok(toks, p, (fuel - 1) as nat, nf, na);
        match parse_form(toks, p, (fuel - 1) as nat) {
            Ok(vp1) => {
                lemma_parse_seq_ok(toks, vp1.1, close, (fuel - 1) as nat, nf, na);
            },
            Err(_) => {},
        }
    }
}

/// A value the reader produced is well formed for any store.
pub proof fn lemma_read_ok(text: Seq<char>, nf: int, na: int)
    ensures
        read_str_model(text) matches Ok(v) ==> hashes_wf(v) && val_ok(v, nf, na),
        read_str_model(text) matches Err(e) ==> !(e matches ErrModel::Raised(_)),
{
    let toks = tokenize_model(text);
    lemma_parse_form_ok(toks, 0, (2 * toks.len() + 1) as nat, nf, na);
}

/// `concat` only rearranges its arguments' elements.
pub proof fn lemma_concat_vals(args: Seq<ValModel>, i: int, nf: int, na: int)
    requires
        forall|j: int| 0 <= j < args.len() ==> hashes_wf(#[trigger] args[j]) && val_ok(
            args[j],
            nf,
            na,
        ),
    ensures
        crate::natives::concat_model(args, i) matches Ok(vs) ==> forall|j: int|
            0 <= j < vs.len() ==> hashes_wf(#[trigger] vs[j]) && val_ok(vs[j], nf, na),
        crate::natives::concat_model(args, i) matches Err(e) ==> e == ErrModel::TypeMismatch,
    decreases args.len() - i,
{
    if 0 <= i < args.len() {
        lemma_concat_vals(args, i + 1, nf, na);
    }
}

/// A native's result is built from its arguments (or by the reader), so
/// it is well formed whenever the arguments are.
pub proof fn lemma_native_wf(f: crate::types::NativeFn, args: Seq<ValModel>, nf: int, na: int)
    requires
        forall|j: int| 0 <= j < args.len() ==> hashes_wf(#[trigger] args[j]) && val_ok(
            args[j],
            nf,
            na,
        ),
    ensures
        native_result(f, args) matches Ok(v) ==> hashes_wf(v) && val_ok(v, nf, na),
        native_result(f, args) matches Err(ErrModel::Raised(v)) ==> hashes_wf(v) && val_ok(
            v,
            nf,
            na,
        ),
{
    assert(hashes_wf(ValModel::Nil) && val_ok(ValModel::Nil, nf, na));
    match f {
        crate::types::NativeFn::ReadString => {
            if args.len() >= 1 {
                match args[0] {
                    ValModel::Str(s) => {
                        lemma_read_ok(s, nf, na);
                    },
                    _ => {},
                }
            }
        },
        crate::types::NativeFn::Concat => {
            lemma_concat_vals(args, 0, nf, na);
            match crate::natives::concat_model(args, 0) {
                Ok(vs) => {
                    assert(hashes_wf(ValModel::List(vs, Box::new(ValModel::Nil))));
                    assert(val_ok(ValModel::List(vs, Box::new(ValModel::Nil)), nf, na));
                },
                Err(_) => {},
            }
        },
        crate::types::NativeFn::MakeList => {
            let v = ValModel::List(args, Box::new(ValModel::Nil));
            assert(hashes_wf(v) && val_ok(v, nf, na));
        },
        crate::types::NativeFn::Cons => {
            if args.len() >= 2 {
                match args[1] {
                    ValModel::List(vs, _) => {
                        let em = seq![args[0]] + vs;
                        assert forall|i: int| 0 <= i < em.len() implies hashes_wf(
                            #[trigger] em[i],
                        ) && val_ok(em[i], nf, na) by {
                            if i == 0 {
                                assert(em[0] == args[0]);
                            } else {
                                assert(em[i] == vs[i - 1]);
                                assert(hashes_wf(args[1]) && val_ok(args[1], nf, na));
                            }
                        }
                    },
                    ValModel::Vector(vs, _) => {
                        let em = seq![args[0]] + vs;
                        assert forall|i: int| 0 <= i < em.len() implies hashes_wf(
                            #[trigger] em[i],
                        ) && val_ok(em[i], nf, na) by {
                            if i == 0 {
                                assert(em[0] == args[0]);
                            } else {
                                assert(em[i] == vs[i - 1]);
                                assert(hashes_wf(args[1]) && val_ok(args[1], nf, na));
                            }
                        }
                    },
                    _ => {},
                }
            }
        },
        crate::types::NativeFn::Nth => {
            if args.len() >= 2 {
                assert(hashes_wf(args[0]) && val_ok(args[0], nf, na));
            }
        },
        crate::types::NativeFn::First => {
            if args.len() >= 1 {
                assert(hashes_wf(args[0]) && val_ok(args[0], nf, na));
            }
        },
        _ => {
            assert(!(native_result(f, args) matches Err(ErrModel::Raised(_))));
        },
    }
}

/// Defining one well-formed value in an existing frame keeps the store
/// invariant.
pub proof fn lemma_inv_define(s0: StoreModel, s1: StoreModel, e: int, name: Seq<char>, v: ValModel)
    requires
        store_inv(s0),
        0 <= e < s0.frames.len(),
        hashes_wf(v),
        val_ok(v, s0.frames.len() as int, s0.atoms.len() as int),
        s1.frames == s0.frames.update(
            e,
            FrameModel { entries: s0.frames[e].entries.push((name, v)), parent: s0.frames[e].parent },
        ),
        s1.atoms == s0.atoms,
    ensures
        store_inv(s1),
{
    assert forall|i: int|
        0 <= i < s1.frames.len() implies match (#[trigger] s1.frames[i]).parent {
        Some(p) => 0 <= p < i,
        None => true,
    } by {
        assert(s0.frames[i].parent == s1.frames[i].parent);
    }
    assert forall|i: int, j: int|
        0 <= i < s1.frames.len() && 0 <= j < (#[trigger] s1.frames[i]).entries.len() implies {
        &&& hashes_wf((#[trigger] s1.frames[i].entries[j]).1)
        &&& val_ok(s1.frames[i].entries[j].1, s1.frames.len() as int, s1.atoms.len() as int)
    } by {
        if i == e && j == s1.frames[i].entries.len() - 1 {
            assert(s1.frames[i].entries[j] == (name, v));
        } else {
            assert(s1.frames[i].entries[j] == s0.frames[i].entries[j]);
        }
    }
}

/// Pushing one frame whose entry values are well formed at the grown
/// arena keeps the store invariant.
pub proof fn lemma_inv_push_frame(
    s0: StoreModel,
    s1: StoreModel,
    parent: Option<usize>,
    es: Seq<(Seq<char>, ValModel)>,
)
    requires
        store_inv(s0),
        parent matches Some(p) ==> p < s0.frames.len(),
        forall|j: int| 0 <= j < es.len() ==> hashes_wf((#[trigger] es[j]).1) && val_ok(
            es[j].1,
            s0.frames.len() as int + 1,
            s0.atoms.len() as int,
        ),
        s1.frames == s0.frames.push(FrameModel { entries: es, parent: parent }),
        s1.atoms == s0.atoms,
    ensures
        store_inv(s1),
{
    let n = s0.frames.len() as int;
    assert forall|i: int|
        0 <= i < s1.frames.len() implies match (#[trigger] s1.frames[i]).parent {
        Some(p) => 0 <= p < i,
        None => true,
    } by {
        if i < n {
            assert(s1.frames[i] == s0.frames[i]);
        }
    }
    assert forall|i: int, j: int|
        0 <= i < s1.frames.len() && 0 <= j < (#[trigger] s1.frames[i]).entries.len() implies {
        &&& hashes_wf((#[trigger] s1.frames[i].entries[j]).1)
        &&& val_ok(s1.frames[i].entries[j].1, s1.frames.len() as int, s1.atoms.len() as int)
    } by {
        if i < n {
            assert(s1.frames[i] == s0.frames[i]);
            crate::env::lemma_val_ok_grow(
                s0.frames[i].entries[j].1,
                n,
                s0.atoms.len() as int,
                n + 1,
                s0.atoms.len() as int,
            );
        }
    }
    assert forall|k: int|
        0 <= k < s1.atoms.len() implies hashes_wf(#[trigger] s1.atoms[k]) && val_ok(
        s1.atoms[k],
        s1.frames.len() as int,
        s1.atoms.len() as int,
    ) by {
        crate::env::lemma_val_ok_grow(
            s0.atoms[k],
            n,
            s0.atoms.len() as int,
            n + 1,
            s0.atoms.len() as int,
        );
    }
}

/// The values a call frame binds come from the arguments, so they are
/// well formed whenever the arguments are.
pub proof fn lemma_bind_vals(params: ValModel, args: Seq<ValModel>, nf: int, na: int)
    requires
        forall|j: int| 0 <= j < args.len() ==> hashes_wf(#[trigger] args[j]) && val_ok(
            args[j],
            nf,
            na,
        ),
    ensures
        bind_model(params, args) matches Ok(es) ==> forall|j: int|
            0 <= j < es.len() ==> hashes_wf((#[trigger] es[j]).1) && val_ok(es[j].1, nf, na),
{
    match bind_model(params, args) {
        Ok(es) => {
            assert forall|j: int|
                0 <= j < es.len() implies hashes_wf((#[trigger] es[j]).1) && val_ok(
                es[j].1,
                nf,
                na,
            ) by {
                let ps = match params {
                    ValModel::List(ps0, _) => ps0,
                    _ => params->Vector_0,
                };
                assert(crate::env::bind_entries(ps, args) == Ok::<
                    Seq<(Seq<char>, ValModel)>,
                    crate::types::ErrModel,
                >(es));
                assert(crate::env::all_syms(ps));
                assert(hashes_wf(ValModel::Nil) && val_ok(ValModel::Nil, nf, na));
                crate::env::lemma_find_amp_bounds(ps, 0);
                match crate::env::find_amp(ps, 0) {
                    None => {
                        assert(es.len() == ps.len());
                        assert(es[j] == (ps[j]->Sym_0, args[j]));
                        assert(es[j].1 == args[j]);
                    },
                    Some(n) => {
                        assert(es.len() == n + 1);
                        if j < n {
                            assert(es[j] == (ps[j]->Sym_0, args[j]));
                            assert(es[j].1 == args[j]);
                        } else {
                            let rest = args.skip(n);
                            assert(es[j] == (
                                ps[n + 1]->Sym_0,
                                ValModel::List(rest, Box::new(ValModel::Nil)),
                            ));
                            assert forall|k: int| 0 <= k < rest.len() implies hashes_wf(
                                #[trigger] rest[k],
                            ) && val_ok(rest[k], nf, na) by {
                                assert(rest[k] == args[k + n]);
                            }
                            assert(hashes_wf(es[j].1));
                            assert(val_ok(es[j].1, nf, na));
                        }
                    },
                }
            }
        },
        Err(_) => {},
    }
}


/// `nil` and `false` are the only falsy values.
pub open spec fn falsy(v: ValModel) -> bool {
    v matches ValModel::Nil || v == ValModel::Bool(false)
}

/// The store after defining `name` in frame `e`: exactly `env_define`.
pub open spec fn define_model(s: StoreModel, e: int, name: Seq<char>, v: ValModel) -> StoreModel {
    StoreModel {
        frames: s.frames.update(
            e,
            FrameModel { entries: s.frames[e].entries.push((name, v)), parent: s.frames[e].parent },
        ),
        ..s
    }
}

/// What applying a value to arguments returns, and the store it leaves:
/// a native runs directly and only `prn` extends the output; a closure
/// binds a call frame under its captured environment and evaluates its
/// stored body there; anything else fails as not callable.
pub open spec fn apply_model(s: StoreModel, f: ValModel, args: Seq<ValModel>, fuel: nat) -> (
    Result<ValModel, ErrModel>,
    StoreModel,
)
    decreases fuel, 3int, 0int,
{
    match f {
        ValModel::Func(g, _) => (
            native_result(g, args),
            StoreModel { out: s.out + native_out(g, args), ..s },
        ),
        ValModel::MalFunc { ast, env, params, .. } => if fuel == 0 {
            (Err(ErrModel::OutOfFuel), s)
        } else {
            match bind_model(*params, args) {
                Err(em) => (Err(em), s),
                Ok(es) => {
                    let fe = s.frames.len() as int;
                    let s1 = StoreModel {
                        frames: s.frames.push(
                            FrameModel { entries: es, parent: Some(env as usize) },
                        ),
                        ..s
                    };
                    eval_model(s1, *ast, fe, (fuel - 1) as nat)
                },
            }
        },
        _ => (Err(ErrModel::NotCallable), s),
    }
}

/// What evaluating a form returns, and the store it leaves. This is the
/// evaluator's semantics in full: symbols look up along the chain,
/// vectors evaluate elementwise, lists are special forms or calls, and
/// everything else evaluates to itself.
pub open spec fn eval_model(s: StoreModel, ast: ValModel, env: int, fuel: nat) -> (
    Result<ValModel, ErrModel>,
    StoreModel,
)
    decreases fuel, 2int, 0int,
{
    match ast {
        ValModel::Sym(name) => (
            match env_lookup(s.frames, env, name) {
                Some(v) => Ok(v),
                None => Err(ErrModel::NotFound(name)),
            },
            s,
        ),
        ValModel::List(items, _) => eval_list_model(s, ast, items, env, fuel),
        ValModel::Vector(items, _) => if fuel == 0 {
            (Err(ErrModel::OutOfFuel), s)
        } else {
            match eval_each_model(s, items, 0, env, (fuel - 1) as nat) {
                (Ok(vs), s1) => (Ok(ValModel::Vector(vs, Box::new(ValModel::Nil))), s1),
                (Err(e), s1) => (Err(e), s1),
            }
        },
        _ => (Ok(ast), s),
    }
}

/// Evaluating the elements of `items` from `from` on, in order.
pub open spec fn eval_each_model(
    s: StoreModel,
    items: Seq<ValModel>,
    from: int,
    env: int,
    fuel: nat,
) -> (Result<Seq<ValModel>, ErrModel>, StoreModel)
    decreases fuel, 0int, items.len() - from, 0int,
{
    if from >= items.len() {
        (Ok(Seq::empty()), s)
    } else if fuel == 0 {
        (Err(ErrModel::OutOfFuel), s)
    } else {
        match eval_model(s, items[from], env, (fuel - 1) as nat) {
            (Ok(v), s1) => match eval_each_model(s1, items, from + 1, env, fuel) {
                (Ok(vs), s2) => (Ok(seq![v] + vs), s2),
                (Err(e), s2) => (Err(e), s2),
            },
            (Err(e), s1) => (Err(e), s1),
        }
    }
}

/// Evaluating a `do` body from index `i`, carrying the last result.
pub open spec fn eval_do_model(
    s: StoreModel,
    items: Seq<ValModel>,
    i: int,
    last: ValModel,
    env: int,
    fuel: nat,
) -> (Result<ValModel, ErrModel>, StoreModel)
    decreases fuel, 0int, items.len() - i, 0int,
{
    if i >= items.len() {
        (Ok(last), s)
    } else if fuel == 0 {
        (Err(ErrModel::OutOfFuel), s)
    } else {
        match eval_model(s, items[i], env, (fuel - 1) as nat) {
            (Ok(v), s1) => eval_do_model(s1, items, i + 1, v, env, fuel),
            (Err(e), s1) => (Err(e), s1),
        }
    }
}

/// Evaluating a non-empty list per the special-form and call rules.
pub open spec fn eval_list_model(
    s: StoreModel,
    ast: ValModel,
    items: Seq<ValModel>,
    env: int,
    fuel: nat,
) -> (Result<ValModel, ErrModel>, StoreModel)
    decreases fuel, 1int, 0int, 0int,
{
    if items.len() == 0 {
        (Ok(ast), s)
    } else if fuel == 0 {
        (Err(ErrModel::OutOfFuel), s)
    } else {
        match items[0] {
            ValModel::Sym(h) => if h == "def!"@ || h == "defmacro!"@ {
                if items.len() != 3 {
                    (Err(ErrModel::Arity), s)
                } else {
                    match items[1] {
                        ValModel::Sym(key) => match eval_model(s, items[2], env, (fuel - 1) as nat) {
                            (Ok(v), s1) => if h == "defmacro!"@ {
                                match v {
                                    ValModel::MalFunc { ast: fa, env: fe, params: fp, is_macro: _, meta: fm } => {
                                        let bound = ValModel::MalFunc {
                                            ast: fa,
                                            env: fe,
                                            params: fp,
                                            is_macro: true,
                                            meta: fm,
                                        };
                                        (Ok(bound), define_model(s1, env, key, bound))
                                    },
                                    _ => (Err(ErrModel::TypeMismatch), s1),
                                }
                            } else {
                                (Ok(v), define_model(s1, env, key, v))
                            },
                            (Err(e), s1) => (Err(e), s1),
                        },
                        _ => (Err(ErrModel::TypeMismatch), s),
                    }
                }
            } else if h == "lambda"@ {
                if items.len() != 3 {
                    (Err(ErrModel::Arity), s)
                } else {
                    (
                        Ok(
                            ValModel::MalFunc {
                                ast: Box::new(items[2]),
                                env: env,
                                params: Box::new(items[1]),
                                is_macro: false,
                                meta: Box::new(ValModel::Nil),
                            },
                        ),
                        s,
                    )
                }
            } else if h == "quote"@ {
                if items.len() != 2 {
                    (Err(ErrModel::Arity), s)
                } else {
                    (Ok(items[1]), s)
                }
            } else if h == "if"@ {
                if items.len() != 3 && items.len() != 4 {
                    (Err(ErrModel::Arity), s)
                } else {
                    match eval_model(s, items[1], env, (fuel - 1) as nat) {
                        (Ok(c), s1) => if !falsy(c) {
                            eval_model(s1, items[2], env, (fuel - 1) as nat)
                        } else if items.len() == 4 {
                            eval_model(s1, items[3], env, (fuel - 1) as nat)
                        } else {
                            (Ok(ValModel::Nil), s1)
                        },
                        (Err(e), s1) => (Err(e), s1),
                    }
                }
            } else if h == "do"@ {
                eval_do_model(s, items, 1, ValModel::Nil, env, fuel)
            } else if h == "throw"@ {
                if items.len() != 2 {
                    (Err(ErrModel::Arity), s)
                } else {
                    match eval_model(s, items[1], env, (fuel - 1) as nat) {
                        (Ok(v), s1) => (Err(ErrModel::Raised(v)), s1),
                        (Err(e), s1) => (Err(e), s1),
                    }
                }
            } else if h == "try*"@ {
                if items.len() != 3 {
                    (Err(ErrModel::Arity), s)
                } else {
                    match items[2] {
                        ValModel::List(cl, _) => if cl.len() != 3 {
                            (Err(ErrModel::TypeMismatch), s)
                        } else if !(cl[0] matches ValModel::Sym(ch) && ch == "catch*"@) {
                            (Err(ErrModel::TypeMismatch), s)
                        } else {
                            match cl[1] {
                                ValModel::Sym(cname) => match eval_model(
                                    s,
                                    items[1],
                                    env,
                                    (fuel - 1) as nat,
                                ) {
                                    (Ok(v), s1) => (Ok(v), s1),
                                    (Err(e), s1) => {
                                        let caught = match e {
                                            ErrModel::Raised(v) => v,
                                            _ => ValModel::Str(crate::printer::err_text(e)),
                                        };
                                        let ce = s1.frames.len() as int;
                                        let s2 = StoreModel {
                                            frames: s1.frames.push(
                                                FrameModel {
                                                    entries: Seq::empty(),
                                                    parent: Some(env as usize),
                                                },
                                            ),
                                            ..s1
                                        };
                                        let s3 = define_model(s2, ce, cname, caught);
                                        eval_model(s3, cl[2], ce, (fuel - 1) as nat)
                                    },
                                },
                                _ => (Err(ErrModel::TypeMismatch), s),
                            }
                        },
                        _ => (Err(ErrModel::TypeMismatch), s),
                    }
                }
            } else {
                eval_call_model(s, items, env, fuel)
            },
            _ => eval_call_model(s, items, env, fuel),
        }
    }
}

/// Evaluating a call: the head first; a macro head is applied to the
/// unevaluated argument forms and its expansion evaluated in its place;
/// otherwise the arguments are evaluated and the head applied to them.
pub open spec fn eval_call_model(s: StoreModel, items: Seq<ValModel>, env: int, fuel: nat) -> (
    Result<ValModel, ErrModel>,
    StoreModel,
)
    decreases fuel, 0int, 0int, 1int,
{
    if fuel == 0 {
        (Err(ErrModel::OutOfFuel), s)
    } else {
        match eval_model(s, items[0], env, (fuel - 1) as nat) {
            (Err(e), s1) => (Err(e), s1),
            (Ok(fv), s1) => if fv matches ValModel::MalFunc { is_macro: true, .. } {
                match apply_model(s1, fv, items.skip(1), (fuel - 1) as nat) {
                    (Ok(exp), s2) => eval_model(s2, exp, env, (fuel - 1) as nat),
                    (Err(e), s2) => (Err(e), s2),
                }
            } else {
                match eval_each_model(s1, items, 1, env, (fuel - 1) as nat) {
                    (Ok(argv), s2) => apply_model(s2, fv, argv, (fuel - 1) as nat),
                    (Err(e), s2) => (Err(e), s2),
                }
            },
        }
    }
}

/// Children of a sequence value are well formed when the value is.
pub proof fn lemma_children_wf(a: ValModel, vs: Seq<MalVal>, nf: int, na: int)
    requires
        hashes_wf(a),
        val_ok(a, nf, na),
        (a matches ValModel::List(s, _) && s == models(vs)) || (a matches ValModel::Vector(s, _)
            && s == models(vs)),
    ensures
        forall|j: int| 0 <= j < vs.len() ==> hashes_wf((#[trigger] vs[j])@) && val_ok(
            vs[j]@,
            nf,
            na,
        ),
{
    lemma_models(vs);
    assert forall|j: int| 0 <= j < vs.len() implies hashes_wf((#[trigger] vs[j])@) && val_ok(
        vs[j]@,
        nf,
        na,
    ) by {
        assert(models(vs)[j] == vs[j]@);
    }
}

impl MalVal {
    /// Apply a value to arguments. A native function runs directly; an
    /// interpreted closure binds a call frame under its captured
    /// environment and evaluates its stored body there; any other value
    /// fails as not callable.
    pub fn apply(&self, store: &mut EnvStore, args: &MalArgs, fuel: u64) -> (r: MalRet)
        requires
            store_inv(old(store)@),
            hashes_wf(self@),
            val_ok(self@, old(store).frames@.len() as int, old(store).atoms@.len() as int),
            forall|j: int| 0 <= j < args@.len() ==> hashes_wf((#[trigger] args@[j])@) && val_ok(
                args@[j]@,
                old(store).frames@.len() as int,
                old(store).atoms@.len() as int,
            ),
        ensures
            store_inv(final(store)@),
            old(store)@.frames.len() <= final(store)@.frames.len(),
            final(store)@.atoms == old(store)@.atoms,
            seq_extends(old(store)@.out, final(store)@.out),
            r matches Ok(v) ==> hashes_wf(v@) && val_ok(
                v@,
                final(store)@.frames.len() as int,
                final(store)@.atoms.len() as int,
            ),
            r matches Err(e) ==> (e@ matches ErrModel::Raised(rv) ==> hashes_wf(rv) && val_ok(
                rv,
                final(store)@.frames.len() as int,
                final(store)@.atoms.len() as int,
            )),
            self@ matches ValModel::Func(f, _) ==> {
                &&& final(store)@.frames == old(store)@.frames
                &&& final(store)@.out == old(store)@.out + native_out(f, models(args@))
                &&& match native_result(f, models(args@)) {
                    Ok(v) => r matches Ok(rv) && rv@ == v,
                    Err(e) => r matches Err(re) && re@ == e,
                }
            },
            !(self@ matches ValModel::Func(_, _)) && !(self@ matches ValModel::MalFunc { .. })
                ==> (r matches Err(e) && e@ == ErrModel::NotCallable && final(store)@ == old(
                store,
            )@),
            fuel >= 1 ==> (self@ matches ValModel::MalFunc { params, .. } ==> (bind_model(
                (*params),
                models(args@),
            ) matches Err(em) ==> (r matches Err(re) && re@ == em && final(store)@ == old(
                store,
            )@))),
            ret_model(r) == apply_model(old(store)@, self@, models(args@), fuel as nat).0,
            final(store)@ == apply_model(old(store)@, self@, models(args@), fuel as nat).1,
        decreases fuel, 3int, 0int,
    {
        proof {
            lemma_model_shape(*self);
            lemma_models(args@);
        }
        let ghost s0m = old(store)@;
        match self {
            MalVal::Func(f, _) => {
                let r = native_apply(*f, args, store);
                proof {
                    assert forall|j: int| 0 <= j < models(args@).len() implies hashes_wf(
                        #[trigger] models(args@)[j],
                    ) && val_ok(
                        models(args@)[j],
                        old(store).frames@.len() as int,
                        old(store).atoms@.len() as int,
                    ) by {
                        assert(models(args@)[j] == args@[j]@);
                    }
                    lemma_native_wf(
                        *f,
                        models(args@),
                        old(store).frames@.len() as int,
                        old(store).atoms@.len() as int,
                    );
                    lemma_extends_concat(old(store)@.out, native_out(*f, models(args@)));
                }
                r
            },
            MalVal::MalFunc { ast, env, params, .. } => {
                if fuel == 0 {
                    return Err(MalErr::ErrMsg(ErrorKind::OutOfFuel));
                }
                let fe = match env_bind(store, Some(*env), params, args) {
                    Ok(fe) => fe,
                    Err(e) => {
                        return Err(e);
                    },
                };
                proof {
                    assert forall|j: int| 0 <= j < models(args@).len() implies hashes_wf(
                        #[trigger] models(args@)[j],
                    ) && val_ok(
                        models(args@)[j],
                        old(store).frames@.len() as int + 1,
                        old(store).atoms@.len() as int,
                    ) by {
                        assert(models(args@)[j] == args@[j]@);
                        crate::env::lemma_val_ok_grow(
                            args@[j]@,
                            old(store).frames@.len() as int,
                            old(store).atoms@.len() as int,
                            old(store).frames@.len() as int + 1,
                            old(store).atoms@.len() as int,
                        );
                    }
                    lemma_bind_vals(
                        (*params)@,
                        models(args@),
                        old(store).frames@.len() as int + 1,
                        old(store).atoms@.len() as int,
                    );
                    let es = bind_model((*params)@, models(args@))->Ok_0;
                    lemma_inv_push_frame(old(store)@, store@, Some(*env), es);
                    crate::env::lemma_val_ok_grow(
                        (*ast)@,
                        old(store).frames@.len() as int,
                        old(store).atoms@.len() as int,
                        store.frames@.len() as int,
                        store.atoms@.len() as int,
                    );
                }
                eval(store, ast, fe, fuel - 1)
            },
            _ => {
                proof {
                    assert(!(self@ matches ValModel::Func(_, _)));
                    assert(!(self@ matches ValModel::MalFunc { .. }));
                }
                Err(MalErr::ErrMsg(ErrorKind::NotCallable))
            },
        }
    }
}

/// The generic guarantees every evaluation step gives: the invariant is
/// kept, frames only grow, atoms stay, output only extends, and a result
/// or raised value is well formed for the final store.
pub open spec fn eval_post(s0: StoreModel, s1: StoreModel, r: MalRet) -> bool {
    &&& store_inv(s1)
    &&& s0.frames.len() <= s1.frames.len()
    &&& s1.atoms == s0.atoms
    &&& seq_extends(s0.out, s1.out)
    &&& (r matches Ok(v) ==> hashes_wf(v@) && val_ok(
        v@,
        s1.frames.len() as int,
        s1.atoms.len() as int,
    ))
    &&& (r matches Err(e) ==> (e@ matches ErrModel::Raised(rv) ==> hashes_wf(rv) && val_ok(
        rv,
        s1.frames.len() as int,
        s1.atoms.len() as int,
    )))
}

/// Evaluate one form in the given environment. Self-evaluating values
/// come back unchanged; a symbol is looked up along the chain; a list is
/// a special form or a call (a macro head is applied to the unevaluated
/// argument forms and its expansion evaluated in its place); a vector
/// evaluates elementwise. `fuel` bounds the recursion.
#[verifier::rlimit(100)]
pub fn eval(store: &mut EnvStore, ast: &MalVal, env: Env, fuel: u64) -> (r: MalRet)
    requires
        store_inv(old(store)@),
        env < old(store).frames@.len(),
        hashes_wf(ast@),
        val_ok(ast@, old(store).frames@.len() as int, old(store).atoms@.len() as int),
    ensures
        store_inv(final(store)@),
        old(store)@.frames.len() <= final(store)@.frames.len(),
        final(store)@.atoms == old(store)@.atoms,
        seq_extends(old(store)@.out, final(store)@.out),
        r matches Ok(v) ==> hashes_wf(v@) && val_ok(
            v@,
            final(store)@.frames.len() as int,
            final(store)@.atoms.len() as int,
        ),
        r matches Err(e) ==> (e@ matches ErrModel::Raised(rv) ==> hashes_wf(rv) && val_ok(
            rv,
            final(store)@.frames.len() as int,
            final(store)@.atoms.len() as int,
        )),
        (ast@ matches ValModel::Nil || ast@ matches ValModel::Bool(_) || ast@
            matches ValModel::Int(_) || ast@ matches ValModel::Str(_) || ast@
            matches ValModel::Func(_, _) || ast@ matches ValModel::MalFunc { .. } || ast@
            matches ValModel::Hash(_, _) || ast@ matches ValModel::Atom(_)) ==> (r matches Ok(v)
            && v@ == ast@ && final(store)@ == old(store)@),
        ast@ matches ValModel::List(s, _) ==> (s.len() == 0 ==> (r matches Ok(v) && v@ == ast@
            && final(store)@ == old(store)@)),
        ast@ matches ValModel::Sym(s) ==> (final(store)@ == old(store)@ && (match env_lookup(
            old(store)@.frames,
            env as int,
            s,
        ) {
            Some(v) => r matches Ok(rv) && rv@ == v,
            None => r matches Err(e) && e@ == ErrModel::NotFound(s),
        })),
        ret_model(r) == eval_model(old(store)@, ast@, env as int, fuel as nat).0,
        final(store)@ == eval_model(old(store)@, ast@, env as int, fuel as nat).1,
    decreases fuel, 2int, 0int,
{
    proof {
        lemma_model_shape(*ast);
    }
    match ast {
        MalVal::Sym(name) => {
            let r = env_get(store, env, name);
            match r {
                Ok(v) => {
                    proof {
                        let (wi, wj): (int, int) = choose|wi: int, wj: int|
                            0 <= wi < store@.frames.len() && 0 <= wj
                                < (#[trigger] store@.frames[wi]).entries.len()
                                && (#[trigger] store@.frames[wi].entries[wj]).1 == v@;
                        assert(hashes_wf(store@.frames[wi].entries[wj].1));
                        assert(val_ok(
                            store@.frames[wi].entries[wj].1,
                            store.frames@.len() as int,
                            store.atoms@.len() as int,
                        ));
                    }
                    Ok(v)
                },
                Err(e) => Err(e),
            }
        },
        MalVal::List(items, _) => eval_list(store, ast, items, env, fuel),
        MalVal::Vector(items, _) => {
            if fuel == 0 {
                return Err(MalErr::ErrMsg(ErrorKind::OutOfFuel));
            }
            proof {
                lemma_children_wf(
                    ast@,
                    items@,
                    old(store).frames@.len() as int,
                    old(store).atoms@.len() as int,
                );
            }
            let out = match eval_each(store, items, 0, env, fuel - 1) {
                Ok(out) => out,
                Err(e) => {
                    return Err(e);
                },
            };
            let ghost outm = out@;
            let r = MalVal::Vector(out, Box::new(MalVal::Nil));
            proof {
                lemma_models(outm);
                assert(hashes_wf(ValModel::Nil) && val_ok(ValModel::Nil, 0, 0));
                assert((MalVal::Nil)@ == ValModel::Nil);
                assert(r->Vector_0@ == outm);
                assert forall|j: int| 0 <= j < outm.len() implies hashes_wf(
                    #[trigger] models(outm)[j],
                ) && val_ok(
                    models(outm)[j],
                    store@.frames.len() as int,
                    store@.atoms.len() as int,
                ) by {
                    assert(models(outm)[j] == outm[j]@);
                }
                let vm = ValModel::Vector(models(outm), Box::new(ValModel::Nil));
                assert(r@ == vm);
                assert(hashes_wf(vm)) by {
                    reveal_with_fuel(crate::types::hashes_wf, 2);
                }
                assert(val_ok(vm, store@.frames.len() as int, store@.atoms.len() as int)) by {
                    reveal_with_fuel(crate::types::val_ok, 2);
                }
            }
            Ok(r)
        },
        _ => Ok(ast.duplicate()),
    }
}

/// Evaluate the elements of `items` from `from` on, in order.
#[verifier::rlimit(100)]
fn eval_each(store: &mut EnvStore, items: &Vec<MalVal>, from: usize, env: Env, fuel: u64) -> (r:
    Result<Vec<MalVal>, MalErr>)
    requires
        store_inv(old(store)@),
        env < old(store).frames@.len(),
        from <= items@.len(),
        forall|j: int| 0 <= j < items@.len() ==> hashes_wf((#[trigger] items@[j])@) && val_ok(
            items@[j]@,
            old(store).frames@.len() as int,
            old(store).atoms@.len() as int,
        ),
    ensures
        store_inv(final(store)@),
        old(store)@.frames.len() <= final(store)@.frames.len(),
        final(store)@.atoms == old(store)@.atoms,
        seq_extends(old(store)@.out, final(store)@.out),
        r matches Ok(vs) ==> vs@.len() == items@.len() - from && forall|j: int|
            0 <= j < vs@.len() ==> hashes_wf((#[trigger] vs@[j])@) && val_ok(
                vs@[j]@,
                final(store)@.frames.len() as int,
                final(store)@.atoms.len() as int,
            ),
        r matches Err(e) ==> (e@ matches ErrModel::Raised(rv) ==> hashes_wf(rv) && val_ok(
            rv,
            final(store)@.frames.len() as int,
            final(store)@.atoms.len() as int,
        )),
        (match r {
            Ok(vs) => Ok::<Seq<ValModel>, ErrModel>(models(vs@)),
            Err(e) => Err::<Seq<ValModel>, ErrModel>(e@),
        }) == eval_each_model(
            old(store)@,
            models(items@),
            from as int,
            env as int,
            fuel as nat,
        ).0,
        final(store)@ == eval_each_model(
            old(store)@,
            models(items@),
            from as int,
            env as int,
            fuel as nat,
        ).1,
    decreases fuel, 0int, items@.len() - from,
{
    proof {
        lemma_models(items@);
    }
    if from >= items.len() {
        let r: Vec<MalVal> = Vec::new();
        proof {
            lemma_models(r@);
            assert(models(r@) =~= Seq::<ValModel>::empty());
        }
        return Ok(r);
    }
    if fuel == 0 {
        return Err(MalErr::ErrMsg(ErrorKind::OutOfFuel));
    }
    let ghost s0 = store@;
    proof {
        assert(models(items@)[from as int] == items@[from as int]@);
    }
    let v = match eval(store, &items[from], env, fuel - 1) {
        Ok(v) => v,
        Err(e) => {
            return Err(e);
        },
    };
    let ghost s1 = store@;
    proof {
        assert forall|j: int| 0 <= j < items@.len() implies hashes_wf((#[trigger] items@[j])@)
            && val_ok(
            items@[j]@,
            store.frames@.len() as int,
            store.atoms@.len() as int,
        ) by {
            crate::env::lemma_val_ok_grow(
                items@[j]@,
                s0.frames.len() as int,
                s0.atoms.len() as int,
                s1.frames.len() as int,
                s1.atoms.len() as int,
            );
        }
    }
    let ghost vm0 = v@;
    let rest = match eval_each(store, items, from + 1, env, fuel) {
        Ok(rest) => rest,
        Err(e) => {
            return Err(e);
        },
    };
    proof {
        lemma_extends_trans(s0.out, s1.out, store@.out);
        assert(eval_each_model(s0, models(items@), from as int, env as int, fuel as nat).0
            == Ok::<Seq<ValModel>, ErrModel>(seq![vm0] + models(rest@)));
        assert(eval_each_model(s0, models(items@), from as int, env as int, fuel as nat).1
            == store@);
    }
    let mut out: Vec<MalVal> = Vec::new();
    out.push(v);
    let mut rest2 = rest;
    let ghost restseq = rest2@;
    out.append(&mut rest2);
    proof {
        assert forall|j: int| 0 <= j < out@.len() implies hashes_wf((#[trigger] out@[j])@)
            && val_ok(
            out@[j]@,
            store.frames@.len() as int,
            store.atoms@.len() as int,
        ) by {
            if j > 0 {
                assert(out@[j] == restseq[j - 1]);
            } else {
                crate::env::lemma_val_ok_grow(
                    out@[0]@,
                    s1.frames.len() as int,
                    s1.atoms.len() as int,
                    store.frames@.len() as int,
                    store.atoms@.len() as int,
                );
            }
        }
        lemma_models(out@);
        lemma_models(restseq);
        assert forall|j: int| 0 <= j < out@.len() implies models(out@)[j] == (seq![vm0] + models(
            restseq,
        ))[j] by {
            assert(models(out@)[j] == out@[j]@);
            if j > 0 {
                assert(out@[j] == restseq[j - 1]);
                assert(models(restseq)[j - 1] == restseq[j - 1]@);
            }
        }
        assert(models(out@) =~= seq![vm0] + models(restseq));
    }
    Ok(out)
}


/// Evaluate a non-empty list: a special form by its head symbol, or a
/// call. For a call the head is evaluated first; a macro head is applied
/// to the unevaluated argument forms and its expansion is evaluated in
/// place of the original form; otherwise the arguments are evaluated in
/// order and the head applied to them.
#[verifier::rlimit(100)]
fn eval_list(store: &mut EnvStore, ast: &MalVal, items: &Vec<MalVal>, env: Env, fuel: u64) -> (r:
    MalRet)
    requires
        store_inv(old(store)@),
        env < old(store).frames@.len(),
        hashes_wf(ast@),
        val_ok(ast@, old(store).frames@.len() as int, old(store).atoms@.len() as int),
        ast@ matches ValModel::List(s, _) && s == models(items@),
    ensures
        eval_post(old(store)@, final(store)@, r),
        ast@ matches ValModel::List(s, _) ==> (s.len() == 0 ==> (r matches Ok(v) && v@ == ast@
            && final(store)@ == old(store)@)),
        ret_model(r) == eval_list_model(
            old(store)@,
            ast@,
            models(items@),
            env as int,
            fuel as nat,
        ).0,
        final(store)@ == eval_list_model(
            old(store)@,
            ast@,
            models(items@),
            env as int,
            fuel as nat,
        ).1,
    decreases fuel, 1int, 0int,
{
    proof {
        lemma_children_wf(
            ast@,
            items@,
            old(store).frames@.len() as int,
            old(store).atoms@.len() as int,
        );
        lemma_models(items@);
    }
    if items.len() == 0 {
        return Ok(ast.duplicate());
    }
    if fuel == 0 {
        return Err(MalErr::ErrMsg(ErrorKind::OutOfFuel));
    }
    let ghost nf0 = old(store).frames@.len() as int;
    let ghost na0 = old(store).atoms@.len() as int;
    // Special forms are named by a head symbol.
    let head_sym: Option<&String> = match &items[0] {
        MalVal::Sym(s) => Some(s),
        _ => None,
    };
    if let Some(hs) = head_sym {
        if crate::reader::tok_is(hs, "def!") || crate::reader::tok_is(hs, "defmacro!") {
            let as_macro = crate::reader::tok_is(hs, "defmacro!");
            if items.len() != 3 {
                return Err(MalErr::ErrMsg(ErrorKind::Arity));
            }
            let key = match &items[1] {
                MalVal::Sym(s) => s.clone(),
                _ => {
                    return Err(MalErr::ErrMsg(ErrorKind::TypeMismatch));
                },
            };
            let v = match eval(store, &items[2], env, fuel - 1) {
                Ok(v) => v,
                Err(e) => {
                    return Err(e);
                },
            };
            let bound = if as_macro {
                match v {
                    MalVal::MalFunc { ast: fa, env: fe, params: fp, is_macro: _, meta: fm } => {
                        MalVal::MalFunc {
                            ast: fa,
                            env: fe,
                            params: fp,
                            is_macro: true,
                            meta: fm,
                        }
                    },
                    _ => {
                        return Err(MalErr::ErrMsg(ErrorKind::TypeMismatch));
                    },
                }
            } else {
                v
            };
            let ghost s1 = store@;
            let dup = bound.duplicate();
            proof {
                assert(hashes_wf(bound@) && val_ok(
                    bound@,
                    s1.frames.len() as int,
                    s1.atoms.len() as int,
                ));
            }
            env_define(store, env, &key, dup);
            proof {
                lemma_inv_define(s1, store@, env as int, key@, bound@);
                assert(store@.out == s1.out);
            }
            return Ok(bound);
        }
        if crate::reader::tok_is(hs, "lambda") {
            if items.len() != 3 {
                return Err(MalErr::ErrMsg(ErrorKind::Arity));
            }
            let r = MalVal::MalFunc {
                ast: Box::new(items[2].duplicate()),
                env,
                params: Box::new(items[1].duplicate()),
                is_macro: false,
                meta: Box::new(MalVal::Nil),
            };
            proof {
                assert(hashes_wf(ValModel::Nil) && val_ok(ValModel::Nil, nf0, na0));
                assert(hashes_wf(r@) && val_ok(r@, nf0, na0));
            }
            return Ok(r);
        }
        if crate::reader::tok_is(hs, "quote") {
            if items.len() != 2 {
                return Err(MalErr::ErrMsg(ErrorKind::Arity));
            }
            return Ok(items[1].duplicate());
        }
        if crate::reader::tok_is(hs, "if") {
            if items.len() != 3 && items.len() != 4 {
                return Err(MalErr::ErrMsg(ErrorKind::Arity));
            }
            let ghost s0 = store@;
            let c = match eval(store, &items[1], env, fuel - 1) {
                Ok(v) => v,
                Err(e) => {
                    return Err(e);
                },
            };
            let falsy = match &c {
                MalVal::Nil => true,
                MalVal::Bool(b) => !*b,
                _ => false,
            };
            let ghost s1 = store@;
            proof {
                assert forall|j: int| 0 <= j < items@.len() implies hashes_wf(
                    (#[trigger] items@[j])@,
                ) && val_ok(items@[j]@, s1.frames.len() as int, s1.atoms.len() as int) by {
                    crate::env::lemma_val_ok_grow(
                        items@[j]@,
                        nf0,
                        na0,
                        s1.frames.len() as int,
                        s1.atoms.len() as int,
                    );
                }
            }
            let r = if !falsy {
                eval(store, &items[2], env, fuel - 1)
            } else if items.len() == 4 {
                eval(store, &items[3], env, fuel - 1)
            } else {
                Ok(MalVal::Nil)
            };
            proof {
                lemma_extends_trans(s0.out, s1.out, store@.out);
            }
            return r;
        }
        if crate::reader::tok_is(hs, "do") {
            let mut last = MalVal::Nil;
            let mut i: usize = 1;
            let ghost s0 = store@;
            proof {
                assert((MalVal::Nil)@ == ValModel::Nil);
                assert(eval_list_model(s0, ast@, models(items@), env as int, fuel as nat)
                    == eval_do_model(
                    s0,
                    models(items@),
                    1,
                    ValModel::Nil,
                    env as int,
                    fuel as nat,
                ));
            }
            while i < items.len()
                invariant
                    store_inv(store@),
                    env < store.frames@.len(),
                    1 <= i <= items@.len(),
                    fuel >= 1,
                    (ast@ matches ValModel::List(s2, _) && s2 == models(items@)),
                    s0 == old(store)@,
                    s0.frames.len() <= store@.frames.len(),
                    store@.atoms == s0.atoms,
                    seq_extends(s0.out, store@.out),
                    forall|j: int| 0 <= j < items@.len() ==> hashes_wf((#[trigger] items@[j])@)
                        && val_ok(items@[j]@, s0.frames.len() as int, s0.atoms.len() as int),
                    hashes_wf(last@) && val_ok(
                        last@,
                        store.frames@.len() as int,
                        store.atoms@.len() as int,
                    ),
                    eval_list_model(s0, ast@, models(items@), env as int, fuel as nat)
                        == eval_do_model(
                        store@,
                        models(items@),
                        i as int,
                        last@,
                        env as int,
                        fuel as nat,
                    ),
                decreases items@.len() - i,
            {
                let ghost s1 = store@;
                let ghost last_pre = last@;
                proof {
                    crate::env::lemma_val_ok_grow(
                        items@[i as int]@,
                        s0.frames.len() as int,
                        s0.atoms.len() as int,
                        s1.frames.len() as int,
                        s1.atoms.len() as int,
                    );
                    lemma_models(items@);
                    assert(models(items@)[i as int] == items@[i as int]@);
                }
                last = match eval(store, &items[i], env, fuel - 1) {
                    Ok(v) => v,
                    Err(e) => {
                        proof {
                            lemma_extends_trans(s0.out, s1.out, store@.out);
                            assert(eval_do_model(
                                s1,
                                models(items@),
                                i as int,
                                last_pre,
                                env as int,
                                fuel as nat,
                            ) == (Err::<ValModel, ErrModel>(e@), store@));
                        }
                        return Err(e);
                    },
                };
                proof {
                    lemma_extends_trans(s0.out, s1.out, store@.out);
                    assert(eval_do_model(
                        s1,
                        models(items@),
                        i as int,
                        last_pre,
                        env as int,
                        fuel as nat,
                    ) == eval_do_model(
                        store@,
                        models(items@),
                        i as int + 1,
                        last@,
                        env as int,
                        fuel as nat,
                    ));
                }
                i = i + 1;
            }
            return Ok(last);
        }
        if crate::reader::tok_is(hs, "throw") {
            if items.len() != 2 {
                return Err(MalErr::ErrMsg(ErrorKind::Arity));
            }
            let v = match eval(store, &items[1], env, fuel - 1) {
                Ok(v) => v,
                Err(e) => {
                    return Err(e);
                },
            };
            return Err(MalErr::ErrMalVal(v));
        }
        if crate::reader::tok_is(hs, "try*") {
            if items.len() != 3 {
                return Err(MalErr::ErrMsg(ErrorKind::Arity));
            }
            proof {
                lemma_model_shape(items@[2]);
                assert(models(items@)[2] == items@[2]@);
                assert(models(items@)[1] == items@[1]@);
            }
            // The handler must be (catch* <sym> <body>).
            let cl: &Vec<MalVal> = match &items[2] {
                MalVal::List(cl, _) => cl,
                _ => {
                    return Err(MalErr::ErrMsg(ErrorKind::TypeMismatch));
                },
            };
            proof {
                lemma_models(cl@);
            }
            if cl.len() != 3 {
                return Err(MalErr::ErrMsg(ErrorKind::TypeMismatch));
            }
            proof {
                lemma_model_shape(cl@[0]);
                lemma_model_shape(cl@[1]);
                assert(models(cl@)[0] == cl@[0]@);
                assert(models(cl@)[1] == cl@[1]@);
                assert(models(cl@)[2] == cl@[2]@);
            }
            let ok_head = match &cl[0] {
                MalVal::Sym(s) => crate::reader::tok_is(s, "catch*"),
                _ => false,
            };
            if !ok_head {
                return Err(MalErr::ErrMsg(ErrorKind::TypeMismatch));
            }
            let cname = match &cl[1] {
                MalVal::Sym(s) => s.clone(),
                _ => {
                    return Err(MalErr::ErrMsg(ErrorKind::TypeMismatch));
                },
            };
            proof {
                lemma_children_wf(items@[2]@, cl@, nf0, na0);
                lemma_model_shape(items@[2]);
            }
            let ghost s0 = store@;
            match eval(store, &items[1], env, fuel - 1) {
                Ok(v) => Ok(v),
                Err(e) => {
                    let ghost s1 = store@;
                    let caught = match e {
                        MalErr::ErrMalVal(v) => v,
                        MalErr::ErrMsg(k) => MalVal::Str(format_error(MalErr::ErrMsg(k))),
                    };
                    proof {
                        assert(hashes_wf(caught@) && val_ok(
                            caught@,
                            s1.frames.len() as int,
                            s1.atoms.len() as int,
                        ));
                    }
                    let ce = env_new(store, Some(env));
                    proof {
                        lemma_inv_push_frame(
                            s1,
                            store@,
                            Some(env),
                            Seq::<(Seq<char>, ValModel)>::empty(),
                        );
                        crate::env::lemma_val_ok_grow(
                            caught@,
                            s1.frames.len() as int,
                            s1.atoms.len() as int,
                            store.frames@.len() as int,
                            store.atoms@.len() as int,
                        );
                        assert((env as int) as usize == env);
                        assert(store@ == (StoreModel {
                            frames: s1.frames.push(
                                FrameModel { entries: Seq::empty(), parent: Some(env) },
                            ),
                            atoms: s1.atoms,
                            out: s1.out,
                        }));
                    }
                    let ghost s2 = store@;
                    env_define(store, ce, &cname, caught.duplicate());
                    proof {
                        lemma_inv_define(s2, store@, ce as int, cname@, caught@);
                        crate::env::lemma_val_ok_grow(
                            cl@[2]@,
                            nf0,
                            na0,
                            store.frames@.len() as int,
                            store.atoms@.len() as int,
                        );
                    }
                    let ghost s3 = store@;
                    proof {
                        assert(s3 == define_model(s2, ce as int, cname@, caught@));
                    }
                    let r = eval(store, &cl[2], ce, fuel - 1);
                    proof {
                        assert(s2.out == s1.out && s3.out == s2.out);
                        lemma_extends_trans(s0.out, s1.out, s3.out);
                        lemma_extends_trans(s0.out, s3.out, store@.out);
                        assert(eval_list_model(
                            old(store)@,
                            ast@,
                            models(items@),
                            env as int,
                            fuel as nat,
                        ) == eval_model(s3, cl@[2]@, ce as int, (fuel - 1) as nat));
                    }
                    return r;
                },
            }
        } else {
            eval_call(store, items, env, fuel)
        }
    } else {
        eval_call(store, items, env, fuel)
    }
}

/// Evaluate a call form: head, then macro expansion or argument
/// evaluation and application.
#[verifier::rlimit(100)]
fn eval_call(store: &mut EnvStore, items: &Vec<MalVal>, env: Env, fuel: u64) -> (r: MalRet)
    requires
        store_inv(old(store)@),
        env < old(store).frames@.len(),
        fuel >= 1,
        items@.len() >= 1,
        forall|j: int| 0 <= j < items@.len() ==> hashes_wf((#[trigger] items@[j])@) && val_ok(
            items@[j]@,
            old(store).frames@.len() as int,
            old(store).atoms@.len() as int,
        ),
    ensures
        eval_post(old(store)@, final(store)@, r),
        ret_model(r) == eval_call_model(old(store)@, models(items@), env as int, fuel as nat).0,
        final(store)@ == eval_call_model(old(store)@, models(items@), env as int, fuel as nat).1,
    decreases fuel, 0int, 1int,
{
    let ghost s0 = store@;
    let ghost nf0 = old(store).frames@.len() as int;
    let ghost na0 = old(store).atoms@.len() as int;
    proof {
        lemma_models(items@);
        assert(models(items@)[0] == items@[0]@);
    }
    let fv = match eval(store, &items[0], env, fuel - 1) {
        Ok(v) => v,
        Err(e) => {
            return Err(e);
        },
    };
    let ghost s1 = store@;
    proof {
        lemma_model_shape(fv);
    }
    proof {
        assert forall|j: int| 0 <= j < items@.len() implies hashes_wf((#[trigger] items@[j])@)
            && val_ok(items@[j]@, s1.frames.len() as int, s1.atoms.len() as int) by {
            crate::env::lemma_val_ok_grow(
                items@[j]@,
                nf0,
                na0,
                s1.frames.len() as int,
                s1.atoms.len() as int,
            );
        }
    }
    let is_macro_head = match &fv {
        MalVal::MalFunc { is_macro, .. } => *is_macro,
        _ => false,
    };
    if is_macro_head {
        // Macro contract: the macro is applied to the unevaluated
        // argument forms, and the expansion is evaluated in place of the
        // original form.
        let mut raw: MalArgs = Vec::new();
        let mut i: usize = 1;
        while i < items.len()
            invariant
                1 <= i <= items@.len(),
                raw@.len() == i - 1,
                forall|j: int| 0 <= j < i - 1 ==> (#[trigger] raw@[j])@ == items@[j + 1]@,
            decreases items@.len() - i,
        {
            raw.push(items[i].duplicate());
            i = i + 1;
        }
        proof {
            assert forall|j: int| 0 <= j < raw@.len() implies hashes_wf((#[trigger] raw@[j])@)
                && val_ok(raw@[j]@, s1.frames.len() as int, s1.atoms.len() as int) by {
                assert(raw@[j]@ == items@[j + 1]@);
            }
            lemma_models(raw@);
            assert forall|j: int| 0 <= j < models(raw@).len() implies models(raw@)[j] == models(
                items@,
            ).skip(1)[j] by {
                assert(models(raw@)[j] == raw@[j]@);
                assert(raw@[j]@ == items@[j + 1]@);
                assert(models(items@)[j + 1] == items@[j + 1]@);
            }
            assert(models(raw@) =~= models(items@).skip(1));
        }
        let exp = match fv.apply(store, &raw, fuel - 1) {
            Ok(v) => v,
            Err(e) => {
                proof {
                    lemma_extends_trans(s0.out, s1.out, store@.out);
                    assert(eval_call_model(s0, models(items@), env as int, fuel as nat).0
                        == Err::<ValModel, ErrModel>(e@));
                    assert(eval_call_model(s0, models(items@), env as int, fuel as nat).1
                        == store@);
                }
                return Err(e);
            },
        };
        let ghost s2 = store@;
        let r = eval(store, &exp, env, fuel - 1);
        proof {
            lemma_extends_trans(s0.out, s1.out, s2.out);
            lemma_extends_trans(s0.out, s2.out, store@.out);
            assert(eval_call_model(s0, models(items@), env as int, fuel as nat) == eval_model(
                s2,
                exp@,
                env as int,
                (fuel - 1) as nat,
            ));
        }
        r
    } else {
        let argv = match eval_each(store, items, 1, env, fuel - 1) {
            Ok(vs) => vs,
            Err(e) => {
                proof {
                    lemma_extends_trans(s0.out, s1.out, store@.out);
                }
                return Err(e);
            },
        };
        let ghost s2 = store@;
        proof {
            crate::env::lemma_val_ok_grow(
                fv@,
                s1.frames.len() as int,
                s1.atoms.len() as int,
                s2.frames.len() as int,
                s2.atoms.len() as int,
            );
        }
        let r = fv.apply(store, &argv, fuel - 1);
        proof {
            lemma_extends_trans(s0.out, s1.out, s2.out);
            lemma_extends_trans(s0.out, s2.out, store@.out);
            assert(eval_call_model(s0, models(items@), env as int, fuel as nat) == apply_model(
                s2,
                fv@,
                models(argv@),
                (fuel - 1) as nat,
            ));
        }
        r
    }
}



/// The fuel budget the bootstrap library is evaluated with.
pub const BOOT_FUEL: u64 = 1000000;

/// The bootstrap library's source, one form per line.
pub open spec fn boot_lines() -> Seq<Seq<char>> {
    seq!["(def! not (lambda (a) (if a false true)))"@]
}

/// The store after registering `pairs[i..]` into frame `e`, in order.
pub open spec fn register_model(
    s: StoreModel,
    e: int,
    pairs: Seq<(Seq<char>, ValModel)>,
    i: int,
) -> StoreModel
    decreases pairs.len() - i,
{
    if i < 0 || i >= pairs.len() {
        s
    } else {
        register_model(define_model(s, e, pairs[i].0, pairs[i].1), e, pairs, i + 1)
    }
}

/// The store after running the bootstrap lines from `i` on through the
/// read-eval pipeline, each line's error discarded.
pub open spec fn load_lib_model(s: StoreModel, lines: Seq<Seq<char>>, i: int, e: int) -> StoreModel
    decreases lines.len() - i,
{
    if i < 0 || i >= lines.len() {
        s
    } else {
        load_lib_model(rep_model(s, lines[i], e, BOOT_FUEL as nat).1, lines, i + 1, e)
    }
}

/// Appending a binding of another key leaves a lookup unchanged.
pub proof fn lemma_lookup_push_other(
    es: Seq<(Seq<char>, ValModel)>,
    k: Seq<char>,
    v: ValModel,
    n: Seq<char>,
)
    requires
        n != k,
    ensures
        crate::env::lookup_entries(es.push((k, v)), n) == crate::env::lookup_entries(es, n),
{
    assert(es.push((k, v)).drop_last() =~= es);
}

/// Defining one name leaves the lookup of any other name unchanged.
pub proof fn lemma_define_preserves(
    s: StoreModel,
    e: int,
    k: Seq<char>,
    v: ValModel,
    x: int,
    n: Seq<char>,
)
    requires
        0 <= e < s.frames.len(),
        n != k,
    ensures
        env_lookup(define_model(s, e, k, v).frames, x, n) == env_lookup(s.frames, x, n),
    decreases x,
{
    let f1 = define_model(s, e, k, v).frames;
    if 0 <= x < s.frames.len() {
        if x == e {
            lemma_lookup_push_other(s.frames[e].entries, k, v, n);
        } else {
            assert(f1[x] == s.frames[x]);
        }
        assert(f1[x].parent == s.frames[x].parent);
        match s.frames[x].parent {
            Some(p) => {
                if p < x {
                    lemma_define_preserves(s, e, k, v, p as int, n);
                }
            },
            None => {},
        }
    }
}

/// The defined name looks up to the defined value in its frame.
pub proof fn lemma_define_binds(s: StoreModel, e: int, k: Seq<char>, v: ValModel)
    requires
        0 <= e < s.frames.len(),
    ensures
        env_lookup(define_model(s, e, k, v).frames, e, k) == Some(v),
{
    let es = define_model(s, e, k, v).frames[e].entries;
    assert(es.last() == (k, v));
}

/// Registration does not change the arena's shape, the atoms or the output.
pub proof fn lemma_register_facts(
    s: StoreModel,
    e: int,
    pairs: Seq<(Seq<char>, ValModel)>,
    i: int,
)
    requires
        0 <= e < s.frames.len(),
    ensures
        register_model(s, e, pairs, i).frames.len() == s.frames.len(),
        register_model(s, e, pairs, i).atoms == s.atoms,
        register_model(s, e, pairs, i).out == s.out,
    decreases pairs.len() - i,
{
    if 0 <= i < pairs.len() {
        lemma_register_facts(define_model(s, e, pairs[i].0, pairs[i].1), e, pairs, i + 1);
    }
}

/// A name bound by none of the remaining pairs keeps its lookup through
/// the registration.
pub proof fn lemma_register_preserves(
    s: StoreModel,
    e: int,
    pairs: Seq<(Seq<char>, ValModel)>,
    i: int,
    n: Seq<char>,
    expected: Option<ValModel>,
)
    requires
        0 <= e < s.frames.len(),
        env_lookup(s.frames, e, n) == expected,
        forall|j: int| i <= j < pairs.len() ==> (#[trigger] pairs[j]).0 != n,
    ensures
        env_lookup(register_model(s, e, pairs, i).frames, e, n) == expected,
    decreases pairs.len() - i,
{
    if 0 <= i < pairs.len() {
        lemma_define_preserves(s, e, pairs[i].0, pairs[i].1, e, n);
        lemma_register_preserves(
            define_model(s, e, pairs[i].0, pairs[i].1),
            e,
            pairs,
            i + 1,
            n,
            expected,
        );
    }
}

/// With pairwise-distinct names, registration binds every pair: each name
/// looks up to its value in the target frame.
pub proof fn lemma_register_binds(
    s: StoreModel,
    e: int,
    pairs: Seq<(Seq<char>, ValModel)>,
    i: int,
    k: int,
)
    requires
        0 <= e < s.frames.len(),
        0 <= i <= k < pairs.len(),
        forall|a: int, b: int|
            i <= a < b < pairs.len() ==> (#[trigger] pairs[a]).0 != (#[trigger] pairs[b]).0,
    ensures
        env_lookup(register_model(s, e, pairs, i).frames, e, pairs[k].0) == Some(pairs[k].1),
    decreases pairs.len() - i,
{
    let s1 = define_model(s, e, pairs[i].0, pairs[i].1);
    if k == i {
        lemma_define_binds(s, e, pairs[i].0, pairs[i].1);
        assert forall|j: int| i + 1 <= j < pairs.len() implies (#[trigger] pairs[j]).0 != pairs[
            i].0 by {
            assert(pairs[i].0 != pairs[j].0);
        }
        lemma_register_preserves(s1, e, pairs, i + 1, pairs[i].0, Some(pairs[i].1));
    } else {
        lemma_register_binds(s1, e, pairs, i + 1, k);
    }
}

/// The sixteen native names are pairwise distinct.
pub proof fn lemma_ns_distinct()
    ensures
        forall|a: int, b: int|
            0 <= a < b < crate::natives::ns_model().len() ==> (
            #[trigger] crate::natives::ns_model()[a]).0 != (
            #[trigger] crate::natives::ns_model()[b]).0,
{
    reveal_strlit("=");
    reveal_strlit("read-string");
    reveal_strlit("list");
    reveal_strlit("<");
    reveal_strlit("<=");
    reveal_strlit(">");
    reveal_strlit(">=");
    reveal_strlit("+");
    reveal_strlit("-");
    reveal_strlit("*");
    reveal_strlit("/");
    reveal_strlit("prn");
    reveal_strlit("cons");
    reveal_strlit("concat");
    reveal_strlit("nth");
    reveal_strlit("first");
    assert forall|a: int, b: int|
        0 <= a < b < crate::natives::ns_model().len() implies (
    #[trigger] crate::natives::ns_model()[a]).0 != (
    #[trigger] crate::natives::ns_model()[b]).0 by {
        let sa = crate::natives::ns_model()[a].0;
        let sb = crate::natives::ns_model()[b].0;
        if sa == sb {
            assert(sa.len() == sb.len());
            assert(sa[0] == sb[0]);
            assert(sa.len() > 1 ==> sa[1] == sb[1]);
            assert(false);
        }
    }
}

/// What one read-eval-print step returns, and the store it leaves: the
/// read error, or the evaluation's error, or the readable rendering of
/// the evaluation's result.
pub open spec fn rep_model(s: StoreModel, line: Seq<char>, env: int, fuel: nat) -> (
    Result<Seq<char>, ErrModel>,
    StoreModel,
) {
    match read_str_model(line) {
        Err(e) => (Err(e), s),
        Ok(ast) => match eval_model(s, ast, env, fuel) {
            (Ok(v), s1) => (Ok(crate::printer::print_model(v, true)), s1),
            (Err(e), s1) => (Err(e), s1),
        },
    }
}

/// One read-eval-print step: tokenize and read the line, evaluate the
/// form, and render the result readably. A failure at any stage comes
/// back as the error for the boundary to display.
pub fn rep(line: &str, store: &mut EnvStore, env: Env, fuel: u64) -> (r: Result<String, MalErr>)
    requires
        store_inv(old(store)@),
        env < old(store)@.frames.len(),
    ensures
        store_inv(final(store)@),
        old(store)@.frames.len() <= final(store)@.frames.len(),
        final(store)@.atoms == old(store)@.atoms,
        seq_extends(old(store)@.out, final(store)@.out),
        read_str_model(line@) matches Err(e) ==> (r matches Err(re) && re@ == e && final(store)@
            == old(store)@),
        (match r {
            Ok(t) => Ok::<Seq<char>, ErrModel>(t@),
            Err(e) => Err::<Seq<char>, ErrModel>(e@),
        }) == rep_model(old(store)@, line@, env as int, fuel as nat).0,
        final(store)@ == rep_model(old(store)@, line@, env as int, fuel as nat).1,
    decreases fuel,
{
    let text = String::from_str(line);
    let ast = match read_str(text) {
        Ok(v) => v,
        Err(e) => {
            proof {
                assert(seq_extends(store@.out, store@.out));
            }
            return Err(e);
        },
    };
    proof {
        lemma_read_ok(line@, store@.frames.len() as int, store@.atoms.len() as int);
    }
    match eval(store, &ast, env, fuel) {
        Ok(v) => Ok(crate::printer::pr_str(&v, true)),
        Err(e) => Err(e),
    }
}

/// Register a native binding under a literal name.
pub fn env_sets(store: &mut EnvStore, e: Env, name: &str, val: MalVal) -> (r: ())
    requires
        store_inv(old(store)@),
        e < old(store)@.frames.len(),
        hashes_wf(val@),
        val_ok(val@, old(store)@.frames.len() as int, old(store)@.atoms.len() as int),
    ensures
        store_inv(final(store)@),
        final(store)@.frames.len() == old(store)@.frames.len(),
        final(store)@.atoms == old(store)@.atoms,
        final(store)@.out == old(store)@.out,
        env_lookup(final(store)@.frames, e as int, name@) == Some(val@),
        final(store)@ == define_model(old(store)@, e as int, name@, val@),
    decreases 0int,
{
    let key = String::from_str(name);
    let ghost s0 = store@;
    let ghost vm = val@;
    env_define(store, e, &key, val);
    proof {
        lemma_inv_define(s0, store@, e as int, name@, vm);
        let es = store@.frames[e as int].entries;
        assert(es.last() == (name@, vm));
        assert(crate::env::lookup_entries(es, name@) == Some(vm));
        assert(store@ == define_model(s0, e as int, name@, vm));
    }
}

/// Load the native library into `env` and then the bootstrap library,
/// source written in the language itself, through the normal read-eval
/// pipeline; a bootstrap failure is ignored. The final store is exactly
/// the bootstrap's effect on the registered store, and registration
/// leaves every native name bound to its function in `env`.
pub fn load_core(store: &mut EnvStore, env: Env) -> (r: ())
    requires
        store_inv(old(store)@),
        env < old(store)@.frames.len(),
    ensures
        store_inv(final(store)@),
        old(store)@.frames.len() <= final(store)@.frames.len(),
        final(store)@.atoms == old(store)@.atoms,
        seq_extends(old(store)@.out, final(store)@.out),
        final(store)@ == load_lib_model(
            register_model(old(store)@, env as int, crate::natives::ns_model(), 0),
            boot_lines(),
            0,
            env as int,
        ),
        forall|k: int|
            0 <= k < crate::natives::ns_model().len() ==> env_lookup(
                register_model(old(store)@, env as int, crate::natives::ns_model(), 0).frames,
                env as int,
                (#[trigger] crate::natives::ns_model()[k]).0,
            ) == Some(crate::natives::ns_model()[k].1),
{
    let pairs = crate::natives::ns();
    let ghost s0 = store@;
    let ghost nsm = crate::natives::ns_model();
    let mut i: usize = 0;
    while i < pairs.len()
        invariant
            store_inv(store@),
            s0 == old(store)@,
            nsm == crate::natives::ns_model(),
            env < store@.frames.len(),
            store@.frames.len() == s0.frames.len(),
            store@.atoms == s0.atoms,
            store@.out == s0.out,
            0 <= i <= pairs@.len(),
            pairs@.len() == nsm.len(),
            forall|j: int| 0 <= j < pairs@.len() ==> (#[trigger] pairs@[j]).0@ == nsm[j].0
                && pairs@[j].1@ == nsm[j].1,
            register_model(s0, env as int, nsm, 0) == register_model(
                store@,
                env as int,
                nsm,
                i as int,
            ),
        decreases pairs@.len() - i,
    {
        let (name, val) = &pairs[i];
        let ghost s1 = store@;
        proof {
            assert(hashes_wf(ValModel::Nil) && val_ok(ValModel::Nil, 0, 0));
            assert(hashes_wf(pairs@[i as int].1@)) by {
                reveal_with_fuel(crate::types::hashes_wf, 2);
                assert(pairs@[i as int].1@ matches ValModel::Func(g, m) && *m == ValModel::Nil);
            }
            assert(val_ok(
                pairs@[i as int].1@,
                store@.frames.len() as int,
                store@.atoms.len() as int,
            )) by {
                reveal_with_fuel(crate::types::val_ok, 2);
                assert(pairs@[i as int].1@ matches ValModel::Func(g, m) && *m == ValModel::Nil);
            }
        }
        env_sets(store, env, name, val.duplicate());
        proof {
            assert(register_model(s1, env as int, nsm, i as int) == register_model(
                store@,
                env as int,
                nsm,
                i as int + 1,
            ));
        }
        i = i + 1;
    }
    proof {
        assert(register_model(s0, env as int, nsm, 0) == store@);
        lemma_ns_distinct();
        assert forall|k: int| 0 <= k < nsm.len() implies env_lookup(
            register_model(s0, env as int, nsm, 0).frames,
            env as int,
            (#[trigger] nsm[k]).0,
        ) == Some(nsm[k].1) by {
            lemma_register_binds(s0, env as int, nsm, 0, k);
        }
    }
    load_core_lib(store, env);
}

/// Run the bootstrap library, one form per line, in order; a failing
/// form's error is discarded and later forms still run.
pub fn load_core_lib(store: &mut EnvStore, env: Env) -> (r: ())
    requires
        store_inv(old(store)@),
        env < old(store)@.frames.len(),
    ensures
        store_inv(final(store)@),
        old(store)@.frames.len() <= final(store)@.frames.len(),
        final(store)@.atoms == old(store)@.atoms,
        seq_extends(old(store)@.out, final(store)@.out),
        final(store)@ == load_lib_model(old(store)@, boot_lines(), 0, env as int),
{
    let lines = mal();
    let ghost s0 = store@;
    let mut i: usize = 0;
    proof {
        assert(lines@[0]@ == boot_lines()[0]);
    }
    while i < lines.len()
        invariant
            store_inv(store@),
            s0 == old(store)@,
            env < store@.frames.len(),
            s0.frames.len() <= store@.frames.len(),
            store@.atoms == s0.atoms,
            seq_extends(s0.out, store@.out),
            0 <= i <= lines@.len(),
            lines@.len() == boot_lines().len(),
            forall|j: int| 0 <= j < lines@.len() ==> (#[trigger] lines@[j])@ == boot_lines()[j],
            load_lib_model(s0, boot_lines(), 0, env as int) == load_lib_model(
                store@,
                boot_lines(),
                i as int,
                env as int,
            ),
        decreases lines@.len() - i,
    {
        let ghost s1 = store@;
        let _ = rep(lines[i], store, env, BOOT_FUEL);
        proof {
            lemma_extends_trans(s0.out, s1.out, store@.out);
            assert(load_lib_model(s1, boot_lines(), i as int, env as int) == load_lib_model(
                store@,
                boot_lines(),
                i as int + 1,
                env as int,
            ));
        }
        i = i + 1;
    }
}

/// The bootstrap library: language extensions written in the language
/// itself.
pub fn mal() -> (r: Vec<&'static str>)
    ensures
        r@.len() == 1,
        r@[0]@ == "(def! not (lambda (a) (if a false true)))"@,
{
    let mut v: Vec<&'static str> = Vec::new();
    v.push("(def! not (lambda (a) (if a false true)))");
    v
}

} // verus!
