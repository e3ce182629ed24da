use mal::env::{env_bind, env_get, env_new, EnvStore};
use mal::eval::{eval, load_core, rep};
use mal::natives::{cons, first, nth};
use mal::printer::{format_error, pr_str};
use mal::reader::{read_str, tokenize};
use mal::types::{error, func, hash_map, val_eq, ErrorKind, MalErr, MalVal, NativeFn};

fn new_store() -> EnvStore {
    EnvStore { frames: Vec::new(), atoms: Vec::new(), out: Vec::new() }
}

fn list(items: Vec<MalVal>) -> MalVal {
    MalVal::List(items, Box::new(MalVal::Nil))
}

fn vector(items: Vec<MalVal>) -> MalVal {
    MalVal::Vector(items, Box::new(MalVal::Nil))
}

fn ints(ns: Vec<i64>) -> Vec<MalVal> {
    ns.into_iter().map(MalVal::Int).collect()
}

#[test]
fn tokenize_nested_arithmetic() {
    let toks = tokenize("(+ 1 (- 5 3))");
    let strs: Vec<&str> = toks.iter().map(|s| s.as_str()).collect();
    assert_eq!(strs, vec!["(", "+", "1", "(", "-", "5", "3", ")", ")"]);
}

#[test]
fn tokenize_comment_and_merge() {
    let toks = tokenize("~@ ;note here\nx");
    let strs: Vec<&str> = toks.iter().map(|s| s.as_str()).collect();
    assert_eq!(strs, vec!["~@", ";note here", "x"]);
    let toks2 = tokenize("~@");
    let strs2: Vec<&str> = toks2.iter().map(|s| s.as_str()).collect();
    assert_eq!(strs2, vec!["~@"]);
}

#[test]
fn read_atoms() {
    assert!(matches!(read_str("42".to_string()), Ok(MalVal::Int(42))));
    assert!(matches!(read_str("nil".to_string()), Ok(MalVal::Nil)));
    assert!(matches!(read_str("true".to_string()), Ok(MalVal::Bool(true))));
    assert!(matches!(read_str("false".to_string()), Ok(MalVal::Bool(false))));
}

#[test]
fn read_symbol_and_string_and_keyword() {
    match read_str("abc".to_string()) {
        Ok(MalVal::Sym(s)) => assert_eq!(s, "abc"),
        other => panic!("unexpected: {:?}", pr(&other)),
    }
    match read_str("\"hi\"".to_string()) {
        Ok(MalVal::Str(s)) => assert_eq!(s, "hi"),
        other => panic!("unexpected: {:?}", pr(&other)),
    }
    match read_str(":kw".to_string()) {
        Ok(MalVal::Str(s)) => assert_eq!(s, "\u{29e}kw"),
        other => panic!("unexpected: {:?}", pr(&other)),
    }
}

fn pr(r: &Result<MalVal, MalErr>) -> String {
    match r {
        Ok(v) => pr_str(v, true),
        Err(_) => "<err>".to_string(),
    }
}

#[test]
fn read_empty_input_fails() {
    assert!(matches!(
        read_str("".to_string()),
        Err(MalErr::ErrMsg(ErrorKind::EmptyInput))
    ));
    assert!(matches!(
        read_str("; only a comment counts as a token".to_string()),
        Ok(MalVal::Sym(_))
    ));
}

#[test]
fn read_unclosed_list_underflows() {
    assert!(matches!(
        read_str("(1 2".to_string()),
        Err(MalErr::ErrMsg(ErrorKind::Underflow))
    ));
}

#[test]
fn read_int_overflow_fails() {
    assert!(matches!(
        read_str("99999999999999999999".to_string()),
        Err(MalErr::ErrMsg(ErrorKind::Overflow))
    ));
}

#[test]
fn read_quote_wraps() {
    let v = read_str("'x".to_string()).unwrap();
    assert_eq!(pr_str(&v, true), "(quote x)");
}

#[test]
fn cross_tag_equality() {
    let a = list(ints(vec![1, 2, 3]));
    let b = vector(ints(vec![1, 2, 3]));
    assert!(val_eq(&a, &b));
    assert!(val_eq(&b, &a));
    let c = vector(ints(vec![1, 2]));
    assert!(!val_eq(&a, &c));
}

#[test]
fn functions_never_equal() {
    let f = func(NativeFn::Add);
    assert!(!val_eq(&f, &f));
    let g = func(NativeFn::Add);
    assert!(!val_eq(&f, &g));
}

#[test]
fn cons_prepends() {
    let args = vec![MalVal::Int(1), list(ints(vec![2, 3]))];
    let r = cons(&args).unwrap();
    assert_eq!(pr_str(&r, true), "(1 2 3)");
    let bad = vec![MalVal::Int(1), MalVal::Int(2)];
    assert!(matches!(cons(&bad), Err(MalErr::ErrMsg(ErrorKind::TypeMismatch))));
}

#[test]
fn concat_joins() {
    let args = vec![list(ints(vec![1, 2])), list(ints(vec![3, 4]))];
    let r = mal::natives::concat(&args).unwrap();
    assert_eq!(pr_str(&r, true), "(1 2 3 4)");
    let bad = vec![list(ints(vec![1, 2])), MalVal::Int(5)];
    assert!(matches!(mal::natives::concat(&bad), Err(MalErr::ErrMsg(ErrorKind::TypeMismatch))));
}

#[test]
fn nth_indexes() {
    let args = vec![list(ints(vec![1, 2, 3])), MalVal::Int(2)];
    assert!(matches!(nth(&args), Ok(MalVal::Int(3))));
    let out = vec![list(ints(vec![1, 2, 3])), MalVal::Int(3)];
    assert!(matches!(nth(&out), Err(MalErr::ErrMsg(ErrorKind::IndexOutOfRange))));
    let neg = vec![list(ints(vec![1, 2, 3])), MalVal::Int(-1)];
    assert!(matches!(nth(&neg), Err(MalErr::ErrMsg(ErrorKind::IndexOutOfRange))));
}

#[test]
fn first_takes_head_or_nil() {
    assert!(matches!(first(&vec![list(vec![])]), Ok(MalVal::Nil)));
    assert!(matches!(first(&vec![MalVal::Nil]), Ok(MalVal::Nil)));
    assert!(matches!(first(&vec![list(ints(vec![7, 8]))]), Ok(MalVal::Int(7))));
    assert!(matches!(
        first(&vec![MalVal::Int(3)]),
        Err(MalErr::ErrMsg(ErrorKind::TypeMismatch))
    ));
}

#[test]
fn env_lookup_not_found() {
    let mut store = new_store();
    let e = env_new(&mut store, None);
    let r = env_get(&store, e, &"missing".to_string());
    assert!(matches!(r, Err(MalErr::ErrMsg(ErrorKind::NotFound(_)))));
    if let Err(e) = env_get(&store, e, &"missing".to_string()) {
        assert_eq!(format_error(e), "missing not found");
    }
}

#[test]
fn bind_arity_and_variadic() {
    let mut store = new_store();
    let base = env_new(&mut store, None);
    let spec2 = list(vec![MalVal::Sym("a".to_string()), MalVal::Sym("b".to_string())]);
    let three = ints(vec![1, 2, 3]);
    assert!(matches!(
        env_bind(&mut store, Some(base), &spec2, &three),
        Err(MalErr::ErrMsg(ErrorKind::Arity))
    ));
    let var = list(vec![
        MalVal::Sym("a".to_string()),
        MalVal::Sym("&".to_string()),
        MalVal::Sym("rest".to_string()),
    ]);
    let frame = env_bind(&mut store, Some(base), &var, &three).unwrap();
    let a = env_get(&store, frame, &"a".to_string()).unwrap();
    assert!(matches!(a, MalVal::Int(1)));
    let rest = env_get(&store, frame, &"rest".to_string()).unwrap();
    assert_eq!(pr_str(&rest, true), "(2 3)");
}

#[test]
fn printer_renders_values() {
    let v = read_str("(1 [2 \"x\"] :k name)".to_string()).unwrap();
    assert_eq!(pr_str(&v, true), "(1 [2 \"x\"] :k name)");
    assert_eq!(pr_str(&MalVal::Int(-42), true), "-42");
    assert_eq!(pr_str(&MalVal::Str("hi".to_string()), false), "hi");
    assert_eq!(pr_str(&MalVal::Str("hi".to_string()), true), "\"hi\"");
}

#[test]
fn read_print_round_trip() {
    for src in ["42", "nil", "true", "sym", "\"str\"", ":kw", "(1 (2 3) [4])", "'x"] {
        let v = read_str(src.to_string()).unwrap();
        let text = pr_str(&v, true);
        let v2 = read_str(text).unwrap();
        assert!(val_eq(&v, &v2), "round trip failed for {}", src);
    }
}

#[test]
fn hash_map_builds_and_overwrites() {
    let kvs = vec![
        MalVal::Str("a".to_string()),
        MalVal::Int(1),
        MalVal::Str("b".to_string()),
        MalVal::Int(2),
        MalVal::Str("a".to_string()),
        MalVal::Int(9),
    ];
    let h = hash_map(kvs).unwrap();
    assert_eq!(pr_str(&h, true), "{\"a\" 9 \"b\" 2}");
    let odd = vec![MalVal::Str("a".to_string())];
    assert!(matches!(hash_map(odd), Err(MalErr::ErrMsg(ErrorKind::Arity))));
    let badkey = vec![MalVal::Int(1), MalVal::Int(2)];
    assert!(matches!(hash_map(badkey), Err(MalErr::ErrMsg(ErrorKind::TypeMismatch))));
}

#[test]
fn custom_error_formats() {
    match error("boom") {
        Err(e) => assert_eq!(format_error(e), "boom"),
        Ok(_) => panic!("expected an error"),
    }
}

fn ready_env(store: &mut EnvStore) -> usize {
    let e = env_new(store, None);
    load_core(store, e);
    e
}

#[test]
fn rep_arithmetic() {
    let mut store = new_store();
    let e = ready_env(&mut store);
    assert_eq!(rep("(+ 1 2)", &mut store, e, 10000).unwrap(), "3");
    assert_eq!(rep("(* 3 (- 10 4))", &mut store, e, 10000).unwrap(), "18");
    assert_eq!(rep("(< 1 2)", &mut store, e, 10000).unwrap(), "true");
    assert!(matches!(
        rep("(/ 1 0)", &mut store, e, 10000),
        Err(MalErr::ErrMsg(ErrorKind::DivideByZero))
    ));
    assert!(matches!(
        rep("(+ 9223372036854775807 1)", &mut store, e, 10000),
        Err(MalErr::ErrMsg(ErrorKind::Overflow))
    ));
}

#[test]
fn rep_def_and_lookup() {
    let mut store = new_store();
    let e = ready_env(&mut store);
    assert_eq!(rep("(def! x 7)", &mut store, e, 10000).unwrap(), "7");
    assert_eq!(rep("x", &mut store, e, 10000).unwrap(), "7");
    assert!(matches!(
        rep("y", &mut store, e, 10000),
        Err(MalErr::ErrMsg(ErrorKind::NotFound(_)))
    ));
}

#[test]
fn rep_lambda_and_closure() {
    let mut store = new_store();
    let e = ready_env(&mut store);
    assert_eq!(
        rep("((lambda (a b) (+ a b)) 2 3)", &mut store, e, 10000).unwrap(),
        "5"
    );
    rep("(def! plus3 (lambda (x) (+ 3 x)))", &mut store, e, 10000).unwrap();
    assert_eq!(rep("(plus3 4)", &mut store, e, 10000).unwrap(), "7");
    assert_eq!(rep("(not false)", &mut store, e, 10000).unwrap(), "true");
}

#[test]
fn rep_special_forms() {
    let mut store = new_store();
    let e = ready_env(&mut store);
    assert_eq!(rep("(if true 1 2)", &mut store, e, 10000).unwrap(), "1");
    assert_eq!(rep("(if nil 1 2)", &mut store, e, 10000).unwrap(), "2");
    assert_eq!(rep("(if false 1)", &mut store, e, 10000).unwrap(), "nil");
    assert_eq!(rep("(do (+ 1 2) (* 3 3) 5)", &mut store, e, 10000).unwrap(), "5");
    assert_eq!(rep("(quote (a b))", &mut store, e, 10000).unwrap(), "(a b)");
    assert_eq!(rep("'(1 2)", &mut store, e, 10000).unwrap(), "(1 2)");
}

#[test]
fn rep_not_callable() {
    let mut store = new_store();
    let e = ready_env(&mut store);
    assert!(matches!(
        rep("(1 2)", &mut store, e, 10000),
        Err(MalErr::ErrMsg(ErrorKind::NotCallable))
    ));
}

#[test]
fn rep_read_string_native() {
    let mut store = new_store();
    let e = ready_env(&mut store);
    assert_eq!(rep("(read-string \"12\")", &mut store, e, 10000).unwrap(), "12");
    assert_eq!(rep("(read-string \"abc\")", &mut store, e, 10000).unwrap(), "abc");
}

#[test]
fn rep_equality_native() {
    let mut store = new_store();
    let e = ready_env(&mut store);
    assert_eq!(rep("(= 2 2)", &mut store, e, 10000).unwrap(), "true");
    assert_eq!(rep("(= (list 1 2) [1 2])", &mut store, e, 10000).unwrap(), "true");
    assert_eq!(rep("(= nil false)", &mut store, e, 10000).unwrap(), "false");
}

#[test]
fn rep_prn_writes_to_sink() {
    let mut store = new_store();
    let e = ready_env(&mut store);
    assert_eq!(rep("(prn 1 \"two\")", &mut store, e, 10000).unwrap(), "nil");
    assert_eq!(store.out.len(), 1);
    assert_eq!(store.out[0], "1 \"two\"");
}

#[test]
fn rep_sequence_natives() {
    let mut store = new_store();
    let e = ready_env(&mut store);
    assert_eq!(rep("(cons 1 [2 3])", &mut store, e, 10000).unwrap(), "(1 2 3)");
    assert_eq!(
        rep("(concat [1 2] (list 3 4) [5 6])", &mut store, e, 10000).unwrap(),
        "(1 2 3 4 5 6)"
    );
    assert_eq!(rep("(nth [1 2 3] 0)", &mut store, e, 10000).unwrap(), "1");
    assert_eq!(rep("(first '((1 2) 2 3))", &mut store, e, 10000).unwrap(), "(1 2)");
}

#[test]
fn rep_macro_expansion() {
    let mut store = new_store();
    let e = ready_env(&mut store);
    rep(
        "(defmacro! unless (lambda (pred a b) (list 'if pred b a)))",
        &mut store,
        e,
        10000,
    )
    .unwrap();
    assert_eq!(rep("(unless false 7 8)", &mut store, e, 10000).unwrap(), "7");
    assert_eq!(rep("(unless true 7 8)", &mut store, e, 10000).unwrap(), "8");
}

#[test]
fn rep_throw_and_catch() {
    let mut store = new_store();
    let e = ready_env(&mut store);
    match rep("(throw 5)", &mut store, e, 10000) {
        Err(MalErr::ErrMalVal(v)) => assert!(matches!(v, MalVal::Int(5))),
        other => panic!("unexpected: {:?}", ok_text(other)),
    }
    assert_eq!(
        rep("(try* (throw 5) (catch* e (+ e 1)))", &mut store, e, 10000).unwrap(),
        "6"
    );
    assert_eq!(
        rep("(try* (+ 1 1) (catch* e 0))", &mut store, e, 10000).unwrap(),
        "2"
    );
}

fn ok_text(r: Result<String, MalErr>) -> String {
    match r {
        Ok(s) => s,
        Err(e) => format_error(e),
    }
}

#[test]
fn rep_out_of_fuel() {
    let mut store = new_store();
    let e = ready_env(&mut store);
    assert!(matches!(
        rep("(+ 1 (+ 2 (+ 3 4)))", &mut store, e, 1),
        Err(MalErr::ErrMsg(ErrorKind::OutOfFuel))
    ));
}

#[test]
fn eval_self_evaluating() {
    let mut store = new_store();
    let e = env_new(&mut store, None);
    let v = eval(&mut store, &MalVal::Int(9), e, 10).unwrap();
    assert!(matches!(v, MalVal::Int(9)));
    let s = eval(&mut store, &MalVal::Str("h".to_string()), e, 10).unwrap();
    assert!(matches!(s, MalVal::Str(_)));
}
