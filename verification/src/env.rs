//! Chained lexical scopes. Frames live in an arena owned by the `EnvStore`
//! and refer to their parent by index, so closures may share a defining
//! frame and chains may outlive the scope that built them. A frame's parent
//! always has a smaller index: chains are acyclic by construction.
use crate::types::{
    MalArgs,
    entry_models, hashes_wf, lemma_entry_models, lemma_models, lemma_sym_model, models, string_eq, val_ok, ErrModel,
    ErrorKind, MalErr, MalRet, MalVal, ValModel,
};
use vstd::prelude::*;

verus! {

/// A frame handle: an index into the store's frame arena.
pub type Env = usize;

/// One lexical scope: bindings plus an optional parent frame.
pub struct Frame {
    pub entries: Vec<(String, MalVal)>,
    pub parent: Option<usize>,
}

/// The interpreter's state: the frame arena, the atom cell arena, and the
/// lines the `prn` native has written to the output sink.
pub struct EnvStore {
    pub frames: Vec<Frame>,
    pub atoms: Vec<MalVal>,
    pub out: Vec<String>,
}

/// Model of a frame.
pub struct FrameModel {
    pub entries: Seq<(Seq<char>, ValModel)>,
    pub parent: Option<usize>,
}

/// Model of the interpreter state.
pub struct StoreModel {
    pub frames: Seq<FrameModel>,
    pub atoms: Seq<ValModel>,
    pub out: Seq<Seq<char>>,
}

impl View for Frame {
    type V = FrameModel;

    open spec fn view(&self) -> FrameModel {
        FrameModel { entries: entry_models(self.entries@), parent: self.parent }
    }
}

pub open spec fn frame_models(fs: Seq<Frame>) -> Seq<FrameModel> {
    fs.map_values(|f: Frame| f@)
}

/// A frame arena and its model have one length.
pub broadcast proof fn lemma_frame_models_len(fs: Seq<Frame>)
    ensures
        (#[trigger] frame_models(fs)).len() == fs.len(),
{
}

/// An output log and its model have one length.
pub broadcast proof fn lemma_out_models_len(out: Seq<String>)
    ensures
        (#[trigger] out_models(out)).len() == out.len(),
{
}

pub open spec fn out_models(out: Seq<String>) -> Seq<Seq<char>> {
    out.map_values(|s: String| s@)
}

impl View for EnvStore {
    type V = StoreModel;

    open spec fn view(&self) -> StoreModel {
        StoreModel {
            frames: frame_models(self.frames@),
            atoms: models(self.atoms@),
            out: out_models(self.out@),
        }
    }
}

/// Looking a name up in one frame's own bindings: the latest definition wins.
pub open spec fn lookup_entries(es: Seq<(Seq<char>, ValModel)>, name: Seq<char>) -> Option<
    ValModel,
>
    decreases es.len(),
{
    if es.len() == 0 {
        None
    } else if es.last().0 == name {
        Some(es.last().1)
    } else {
        lookup_entries(es.drop_last(), name)
    }
}

/// Looking a name up along the parent chain starting at frame `e`.
pub open spec fn env_lookup(frames: Seq<FrameModel>, e: int, name: Seq<char>) -> Option<ValModel>
    decreases e,
{
    if e < 0 || e >= frames.len() {
        None
    } else {
        match lookup_entries(frames[e].entries, name) {
            Some(v) => Some(v),
            None => match frames[e].parent {
                Some(p) => if p < e {
                    env_lookup(frames, p as int, name)
                } else {
                    None
                },
                None => None,
            },
        }
    }
}

/// Every frame's parent stands earlier in the arena.
pub open spec fn parents_wf(frames: Seq<FrameModel>) -> bool {
    forall|i: int|
        0 <= i < frames.len() ==> match (#[trigger] frames[i]).parent {
            Some(p) => 0 <= p < i,
            None => true,
        }
}

/// The store invariant: acyclic parent chains, and every value held in a
/// frame or an atom cell has well-formed hashes and in-range handles.
pub open spec fn store_inv(s: StoreModel) -> bool {
    &&& parents_wf(s.frames)
    &&& forall|i: int, j: int|
        0 <= i < s.frames.len() && 0 <= j < (#[trigger] s.frames[i]).entries.len() ==> {
            &&& hashes_wf((#[trigger] s.frames[i].entries[j]).1)
            &&& val_ok(s.frames[i].entries[j].1, s.frames.len() as int, s.atoms.len() as int)
        }
    &&& forall|k: int|
        0 <= k < s.atoms.len() ==> hashes_wf(#[trigger] s.atoms[k]) && val_ok(
            s.atoms[k],
            s.frames.len() as int,
            s.atoms.len() as int,
        )
}

/// Handle validity survives the arenas growing.
pub proof fn lemma_val_ok_grow(v: ValModel, nf: int, na: int, nf2: int, na2: int)
    requires
        val_ok(v, nf, na),
        nf <= nf2,
        na <= na2,
    ensures
        val_ok(v, nf2, na2),
    decreases v,
{
    match v {
        ValModel::List(vs, m) => {
            assert forall|i: int| 0 <= i < vs.len() implies val_ok(#[trigger] vs[i], nf2, na2) by {
                lemma_val_ok_grow(vs[i], nf, na, nf2, na2);
            }
            lemma_val_ok_grow(*m, nf, na, nf2, na2);
        },
        ValModel::Vector(vs, m) => {
            assert forall|i: int| 0 <= i < vs.len() implies val_ok(#[trigger] vs[i], nf2, na2) by {
                lemma_val_ok_grow(vs[i], nf, na, nf2, na2);
            }
            lemma_val_ok_grow(*m, nf, na, nf2, na2);
        },
        ValModel::Hash(es, m) => {
            assert forall|i: int| 0 <= i < es.len() implies val_ok(
                (#[trigger] es[i]).1,
                nf2,
                na2,
            ) by {
                lemma_val_ok_grow(es[i].1, nf, na, nf2, na2);
            }
            lemma_val_ok_grow(*m, nf, na, nf2, na2);
        },
        ValModel::Func(_, m) => {
            lemma_val_ok_grow(*m, nf, na, nf2, na2);
        },
        ValModel::MalFunc { ast, params, meta, .. } => {
            lemma_val_ok_grow(*ast, nf, na, nf2, na2);
            lemma_val_ok_grow(*params, nf, na, nf2, na2);
            lemma_val_ok_grow(*meta, nf, na, nf2, na2);
        },
        _ => {},
    }
}

/// Create a fresh, empty frame chained to `parent`; returns its handle.
pub fn env_new(store: &mut EnvStore, parent: Option<Env>) -> (e: Env)
    requires
        parent matches Some(p) ==> p < old(store).frames@.len(),
    ensures
        e == old(store)@.frames.len(),
        final(store)@.frames == old(store)@.frames.push(
            FrameModel { entries: Seq::empty(), parent: parent },
        ),
        final(store)@.atoms == old(store)@.atoms,
        final(store)@.out == old(store)@.out,
{
    let e = store.frames.len();
    store.frames.push(Frame { entries: Vec::new(), parent });
    proof {
        lemma_entry_models(Seq::<(String, MalVal)>::empty());
        assert(entry_models(Seq::<(String, MalVal)>::empty()) =~= Seq::<(
            Seq<char>,
            ValModel,
        )>::empty());
        assert(frame_models(store.frames@) =~= frame_models(old(store).frames@).push(
            FrameModel { entries: Seq::empty(), parent: parent },
        ));
    }
    e
}

/// Define `name` in frame `e` alone: ancestors are never touched; a later
/// definition of the same name shadows the earlier one.
pub fn env_define(store: &mut EnvStore, e: Env, name: &String, val: MalVal) -> (r: ())
    requires
        e < old(store).frames@.len(),
    ensures
        final(store)@.frames == old(store)@.frames.update(
            e as int,
            FrameModel {
                entries: old(store)@.frames[e as int].entries.push((name@, val@)),
                parent: old(store)@.frames[e as int].parent,
            },
        ),
        final(store)@.atoms == old(store)@.atoms,
        final(store)@.out == old(store)@.out,
{
    let fr = &mut store.frames[e];
    let k = name.clone();
    fr.entries.push((k, val));
    proof {
        let oldes = old(store).frames@[e as int].entries@;
        let newes = store.frames@[e as int].entries@;
        assert(newes == oldes.push(newes.last()));
        lemma_entry_models_push(oldes, newes.last());
        assert(store.frames@[e as int]@ == FrameModel {
            entries: old(store)@.frames[e as int].entries.push((name@, val@)),
            parent: old(store)@.frames[e as int].parent,
        });
        assert(frame_models(store.frames@) =~= frame_models(old(store).frames@).update(
            e as int,
            store.frames@[e as int]@,
        ));
    }
}

/// Pushing an entry models as pushing its model.
pub proof fn lemma_entry_models_push(es: Seq<(String, MalVal)>, kv: (String, MalVal))
    ensures
        entry_models(es.push(kv)) =~= entry_models(es).push((kv.0@, kv.1@)),
{
    lemma_entry_models(es);
    lemma_entry_models(es.push(kv));
    assert forall|j: int| 0 <= j < es.len() + 1 implies entry_models(es.push(kv))[j]
        == entry_models(es).push((kv.0@, kv.1@))[j] by {
        if j < es.len() {
            assert(es.push(kv)[j] == es[j]);
            assert(entry_models(es.push(kv))[j].0 == es.push(kv)[j].0@);
            assert(entry_models(es.push(kv))[j].1 == es.push(kv)[j].1@);
            assert(entry_models(es)[j].0 == es[j].0@);
            assert(entry_models(es)[j].1 == es[j].1@);
            assert(entry_models(es.push(kv))[j] =~= entry_models(es).push((kv.0@, kv.1@))[j]);
        } else {
            assert(es.push(kv)[j] == kv);
            assert(entry_models(es.push(kv))[j].0 == es.push(kv)[j].0@);
            assert(entry_models(es.push(kv))[j].1 == es.push(kv)[j].1@);
            assert(entry_models(es.push(kv))[j] =~= (kv.0@, kv.1@));
        }
    }
}

/// Pushing a value models as pushing its model.
pub proof fn lemma_models_push(vs: Seq<MalVal>, v: MalVal)
    ensures
        models(vs.push(v)) =~= models(vs).push(v@),
{
    lemma_models(vs);
    lemma_models(vs.push(v));
    assert forall|j: int| 0 <= j < vs.len() + 1 implies models(vs.push(v))[j] == models(vs).push(
        v@,
    )[j] by {
        if j < vs.len() {
            assert(vs.push(v)[j] == vs[j]);
            assert(models(vs.push(v))[j] == vs.push(v)[j]@);
            assert(models(vs)[j] == vs[j]@);
        } else {
            assert(vs.push(v)[j] == v);
            assert(models(vs.push(v))[j] == vs.push(v)[j]@);
        }
    }
}

/// The variadic marker in a parameter specification.
pub open spec fn amp() -> Seq<char> {
    "&"@
}

/// Every parameter is a symbol.
pub open spec fn all_syms(ps: Seq<ValModel>) -> bool {
    forall|i: int| 0 <= i < ps.len() ==> (#[trigger] ps[i]) matches ValModel::Sym(_)
}

/// Index of the first variadic marker, if any.
pub open spec fn find_amp(ps: Seq<ValModel>, i: int) -> Option<int>
    decreases ps.len() - i,
{
    if i < 0 || i >= ps.len() {
        None
    } else if ps[i] matches ValModel::Sym(s) && s == amp() {
        Some(i)
    } else {
        find_amp(ps, i + 1)
    }
}

/// The bindings a call frame receives. Parameters must all be symbols; a
/// `&` must stand right before a single rest-symbol, which is bound to a
/// `List` of the remaining arguments (possibly empty). Without `&` the
/// argument count must equal the parameter count, else the call fails
/// with an arity error.
pub open spec fn bind_entries(ps: Seq<ValModel>, args: Seq<ValModel>) -> Result<
    Seq<(Seq<char>, ValModel)>,
    ErrModel,
> {
    if !all_syms(ps) {
        Err(ErrModel::TypeMismatch)
    } else {
        match find_amp(ps, 0) {
            None => if args.len() != ps.len() {
                Err(ErrModel::Arity)
            } else {
                Ok(Seq::new(ps.len(), |i: int| (ps[i]->Sym_0, args[i])))
            },
            Some(n) => if ps.len() != n + 2 {
                Err(ErrModel::TypeMismatch)
            } else if args.len() < n {
                Err(ErrModel::Arity)
            } else {
                Ok(
                    Seq::new(n as nat, |i: int| (ps[i]->Sym_0, args[i])).push(
                        (
                            ps[n + 1]->Sym_0,
                            ValModel::List(args.skip(n), Box::new(ValModel::Nil)),
                        ),
                    ),
                )
            },
        }
    }
}

/// What `env_bind` does to the store and returns, for a parameter
/// specification value `params` and argument models `args`.
pub open spec fn bind_model(params: ValModel, args: Seq<ValModel>) -> Result<
    Seq<(Seq<char>, ValModel)>,
    ErrModel,
> {
    match params {
        ValModel::List(ps, _) => bind_entries(ps, args),
        ValModel::Vector(ps, _) => bind_entries(ps, args),
        _ => Err(ErrModel::TypeMismatch),
    }
}

/// Build a call frame under `parent` binding `params` to `args`.
/// On a binding failure the store is left unchanged.
pub fn env_bind(store: &mut EnvStore, parent: Option<Env>, params: &MalVal, args: &MalArgs) -> (r:
    Result<Env, MalErr>)
    requires
        parent matches Some(p) ==> p < old(store).frames@.len(),
    ensures
        match bind_model(params@, models(args@)) {
            Ok(es) => r matches Ok(e) && e == old(store)@.frames.len() && final(store)@.frames
                == old(store)@.frames.push(FrameModel { entries: es, parent: parent }),
            Err(em) => r matches Err(er) && er@ == em && final(store)@.frames == old(
                store,
            )@.frames,
        },
        final(store)@.atoms == old(store)@.atoms,
        final(store)@.out == old(store)@.out,
{
    let ps: &Vec<MalVal> = match params {
        MalVal::List(ps, _) => ps,
        MalVal::Vector(ps, _) => ps,
        _ => {
            return Err(MalErr::ErrMsg(ErrorKind::TypeMismatch));
        },
    };
    proof {
        lemma_models(ps@);
        lemma_models(args@);
    }
    let ghost psm = models(ps@);
    let ghost argm = models(args@);
    let amp_str = String::from_str("&");
    // Reject a non-symbol parameter, and find the variadic marker.
    let mut amp_at: Option<usize> = None;
    let mut i: usize = 0;
    while i < ps.len()
        invariant
            psm == models(ps@),
            psm.len() == ps@.len(),
            forall|j: int| 0 <= j < ps@.len() ==> psm[j] == #[trigger] ps@[j]@,
            0 <= i <= ps@.len(),
            amp_str@ == amp(),
            (params@ matches ValModel::List(s, _) && s == psm) || (params@
                matches ValModel::Vector(s, _) && s == psm),
            argm == models(args@),
            forall|j: int| 0 <= j < i ==> (#[trigger] psm[j]) matches ValModel::Sym(_),
            match amp_at {
                Some(k) => k < i && find_amp(psm, 0) == Some(k as int),
                None => find_amp(psm, 0) == find_amp(psm, i as int),
            },
        decreases ps@.len() - i,
    {
        proof {
            lemma_sym_model(ps@[i as int]);
            assert(psm[i as int] == ps@[i as int]@);
        }
        match &ps[i] {
            MalVal::Sym(s) => {
                if amp_at.is_none() {
                    if string_eq(s, &amp_str) {
                        amp_at = Some(i);
                        proof {
                            lemma_find_amp_at(psm, i as int);
                        }
                    } else {
                        proof {
                            assert(psm[i as int] matches ValModel::Sym(s2) && s2 != amp());
                        }
                    }
                }
            },
            _ => {
                proof {
                    assert(!(psm[i as int] matches ValModel::Sym(_)));
                    assert(!all_syms(psm));
                }
                return Err(MalErr::ErrMsg(ErrorKind::TypeMismatch));
            },
        }
        i = i + 1;
    }
    proof {
        assert(all_syms(psm));
        if amp_at is None {
            assert(find_amp(psm, ps@.len() as int) is None);
        }
    }
    let mut entries: Vec<(String, MalVal)> = Vec::new();
    match amp_at {
        None => {
            if args.len() != ps.len() {
                return Err(MalErr::ErrMsg(ErrorKind::Arity));
            }
            let mut k: usize = 0;
            while k < ps.len()
                invariant
                    psm == models(ps@),
                    argm == models(args@),
                    psm.len() == ps@.len(),
                    argm.len() == args@.len(),
                    args@.len() == ps@.len(),
                    forall|j: int| 0 <= j < ps@.len() ==> psm[j] == #[trigger] ps@[j]@,
                    forall|j: int| 0 <= j < args@.len() ==> argm[j] == #[trigger] args@[j]@,
                    all_syms(psm),
                    0 <= k <= ps@.len(),
                    entries@.len() == k,
                    forall|j: int| 0 <= j < k ==> (#[trigger] entries@[j]).0@ == psm[j]->Sym_0,
                    forall|j: int| 0 <= j < k ==> (#[trigger] entries@[j]).1@ == argm[j],
                decreases ps@.len() - k,
            {
                proof {
                    lemma_sym_model(ps@[k as int]);
                    assert(psm[k as int] == ps@[k as int]@);
                }
                let name = match &ps[k] {
                    MalVal::Sym(s) => s.clone(),
                    _ => {
                        proof {
                            assert(false);
                        }
                        String::new()
                    },
                };
                entries.push((name, args[k].duplicate()));
                k = k + 1;
            }
            let e = store.frames.len();
            store.frames.push(Frame { entries, parent });
            proof {
                let es = bind_entries(psm, argm)->Ok_0;
                lemma_entry_models(store.frames@[e as int].entries@);
                assert(entry_models(store.frames@[e as int].entries@) =~= es);
                assert(frame_models(store.frames@) =~= frame_models(old(store).frames@).push(
                    FrameModel { entries: es, parent: parent },
                ));
            }
            Ok(e)
        },
        Some(n) => {
            if ps.len() < 2 || ps.len() - 2 != n {
                proof {
                    assert(bind_entries(psm, argm) == Err::<
                        Seq<(Seq<char>, ValModel)>,
                        ErrModel,
                    >(ErrModel::TypeMismatch));
                }
                return Err(MalErr::ErrMsg(ErrorKind::TypeMismatch));
            }
            if args.len() < n {
                return Err(MalErr::ErrMsg(ErrorKind::Arity));
            }
            let mut k: usize = 0;
            while k < n
                invariant
                    psm == models(ps@),
                    argm == models(args@),
                    psm.len() == ps@.len(),
                    argm.len() == args@.len(),
                    n + 2 == ps@.len(),
                    n <= args@.len(),
                    forall|j: int| 0 <= j < ps@.len() ==> psm[j] == #[trigger] ps@[j]@,
                    forall|j: int| 0 <= j < args@.len() ==> argm[j] == #[trigger] args@[j]@,
                    all_syms(psm),
                    0 <= k <= n,
                    entries@.len() == k,
                    forall|j: int| 0 <= j < k ==> (#[trigger] entries@[j]).0@ == psm[j]->Sym_0,
                    forall|j: int| 0 <= j < k ==> (#[trigger] entries@[j]).1@ == argm[j],
                decreases n - k,
            {
                proof {
                    lemma_sym_model(ps@[k as int]);
                    assert(psm[k as int] == ps@[k as int]@);
                }
                let name = match &ps[k] {
                    MalVal::Sym(s) => s.clone(),
                    _ => {
                        proof {
                            assert(false);
                        }
                        String::new()
                    },
                };
                entries.push((name, args[k].duplicate()));
                k = k + 1;
            }
            // The rest-symbol takes the remaining arguments as a List.
            let mut rest: Vec<MalVal> = Vec::new();
            let mut k2: usize = n;
            while k2 < args.len()
                invariant
                    argm == models(args@),
                    argm.len() == args@.len(),
                    n <= k2 <= args@.len(),
                    forall|j: int| 0 <= j < args@.len() ==> argm[j] == #[trigger] args@[j]@,
                    rest@.len() == k2 - n,
                    forall|j: int| 0 <= j < k2 - n ==> (#[trigger] rest@[j])@ == argm[j + n],
                decreases args@.len() - k2,
            {
                rest.push(args[k2].duplicate());
                k2 = k2 + 1;
            }
            proof {
                lemma_sym_model(ps@[n as int + 1]);
                assert(psm[n as int + 1] == ps@[n as int + 1]@);
            }
            let rest_name = match &ps[n + 1] {
                MalVal::Sym(s) => s.clone(),
                _ => {
                    proof {
                        assert(false);
                    }
                    String::new()
                },
            };
            let ghost restv = rest@;
            let ghost rest_name_m = rest_name@;
            entries.push((rest_name, MalVal::List(rest, Box::new(MalVal::Nil))));
            let e = store.frames.len();
            store.frames.push(Frame { entries, parent });
            proof {
                let es = bind_entries(psm, argm)->Ok_0;
                let built_src = store.frames@[e as int].entries@;
                lemma_entry_models(built_src);
                let built = entry_models(built_src);
                lemma_models(restv);
                assert forall|j: int| 0 <= j < argm.len() - n implies models(restv)[j]
                    == argm.skip(n as int)[j] by {
                    assert(models(restv)[j] == restv[j]@);
                    assert(argm.skip(n as int)[j] == argm[j + n]);
                }
                assert(models(restv) =~= argm.skip(n as int));
                assert(built_src.last().1@ == ValModel::List(
                    models(restv),
                    Box::new((MalVal::Nil).model()),
                ));
                assert(built.len() == es.len());
                assert forall|j: int| 0 <= j < built.len() implies built[j] == es[j] by {
                    assert(built[j].0 == built_src[j].0@ && built[j].1 == built_src[j].1@);
                    if j < n {
                        assert(built[j] =~= es[j]);
                    } else {
                        assert(built_src[j] == built_src.last());
                        assert(built[j].0 == rest_name_m && rest_name_m == psm[n as int
                            + 1]->Sym_0);
                        assert(es[j] == (
                            psm[n as int + 1]->Sym_0,
                            ValModel::List(argm.skip(n as int), Box::new(ValModel::Nil)),
                        ));
                        assert(built[j] =~= es[j]);
                    }
                }
                assert(built =~= es);
                assert(frame_models(store.frames@) =~= frame_models(old(store).frames@).push(
                    FrameModel { entries: es, parent: parent },
                ));
            }
            Ok(e)
        },
    }
}

/// The marker's index lies within the parameter list.
pub proof fn lemma_find_amp_bounds(ps: Seq<ValModel>, i: int)
    ensures
        find_amp(ps, i) matches Some(n) ==> i <= n < ps.len() && 0 <= n,
    decreases ps.len() - i,
{
    if 0 <= i < ps.len() {
        lemma_find_amp_bounds(ps, i + 1);
    }
}

/// Finding the marker at `i` after missing it earlier.
pub proof fn lemma_find_amp_at(ps: Seq<ValModel>, i: int)
    requires
        0 <= i < ps.len(),
        ps[i] matches ValModel::Sym(s) && s == amp(),
        find_amp(ps, 0) == find_amp(ps, i),
    ensures
        find_amp(ps, 0) == Some(i),
{
}

/// Look `name` up along the chain from frame `e`: the local frame first,
/// then the parents; fails with a not-found error at the chain's root.
pub fn env_get(store: &EnvStore, e: Env, name: &String) -> (r: MalRet)
    requires
        e < store.frames@.len(),
        parents_wf(store@.frames),
    ensures
        match env_lookup(store@.frames, e as int, name@) {
            Some(v) => r matches Ok(rv) && rv@ == v,
            None => r matches Err(er) && er@ == ErrModel::NotFound(name@),
        },
        r matches Ok(rv) ==> exists|i: int, j: int|
            0 <= i < store@.frames.len() && 0 <= j < (#[trigger] store@.frames[i]).entries.len()
                && (#[trigger] store@.frames[i].entries[j]).1 == rv@,
{
    let mut cur: usize = e;
    loop
        invariant
            cur < store.frames@.len(),
            parents_wf(store@.frames),
            env_lookup(store@.frames, e as int, name@) == env_lookup(
                store@.frames,
                cur as int,
                name@,
            ),
        decreases cur,
    {
        let fr = &store.frames[cur];
        proof {
            lemma_entry_models(fr.entries@);
            assert(store@.frames[cur as int] == fr@);
            assert(entry_models(fr.entries@).take(fr.entries@.len() as int) =~= entry_models(
                fr.entries@,
            ));
        }
        let mut j: usize = fr.entries.len();
        while j > 0
            invariant
                cur < store.frames@.len(),
                fr == &store.frames@[cur as int],
                env_lookup(store@.frames, e as int, name@) == env_lookup(
                    store@.frames,
                    cur as int,
                    name@,
                ),
                0 <= j <= fr.entries@.len(),
                lookup_entries(store@.frames[cur as int].entries, name@) == lookup_entries(
                    entry_models(fr.entries@).take(j as int),
                    name@,
                ),
                entry_models(fr.entries@).len() == fr.entries@.len(),
                forall|j2: int|
                    0 <= j2 < fr.entries@.len() ==> (#[trigger] entry_models(fr.entries@)[j2]).0
                        == fr.entries@[j2].0@ && entry_models(fr.entries@)[j2].1
                        == fr.entries@[j2].1@,
            decreases j,
        {
            j = j - 1;
            if string_eq(&fr.entries[j].0, name) {
                let r = fr.entries[j].1.duplicate();
                proof {
                    let es = entry_models(fr.entries@).take(j as int + 1);
                    assert(es.last() == entry_models(fr.entries@)[j as int]);
                    assert(es.last().0 == name@);
                    assert(lookup_entries(es, name@) == Some(es.last().1));
                    assert(env_lookup(store@.frames, cur as int, name@) == Some(
                        entry_models(fr.entries@)[j as int].1,
                    ));
                    assert(store@.frames[cur as int].entries[j as int].1 == r@);
                }
                return Ok(r);
            }
            proof {
                let es = entry_models(fr.entries@).take(j as int + 1);
                assert(es.last() == entry_models(fr.entries@)[j as int]);
                assert(es.last().0 != name@);
                assert(es.drop_last() =~= entry_models(fr.entries@).take(j as int));
            }
        }
        proof {
            assert(entry_models(fr.entries@).take(0) =~= Seq::<(Seq<char>, ValModel)>::empty());
        }
        match fr.parent {
            Some(p) => {
                cur = p;
            },
            None => {
                return Err(MalErr::ErrMsg(ErrorKind::NotFound(name.clone())));
            },
        }
    }
}

} // verus!
