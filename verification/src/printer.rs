//! Rendering values back to text. The `readable` flag quotes strings so
//! the reader can re-parse the text; keywords print with their `:` in
//! either mode; without the flag strings appear raw.
use crate::reader::{
    all_digits, atom_model, dec_val, is_punct, kw_mark, lex_flush, lex_run, lex_step,
    parse_form, push_char, read_str_model, tokenize_model, StateModel,
};
use crate::types::{
    entry_models, lemma_entry_models, lemma_models, models, ErrModel, MalErr, MalVal, ValModel,
};
use vstd::prelude::*;

verus! {

/// The decimal digits of `n >= 0`, most significant first.
pub open spec fn dec_str(n: int) -> Seq<char>
    decreases n,
{
    if n < 10 {
        seq![((48 + if n >= 0 { n } else { 0 }) as u8) as char]
    } else {
        dec_str(n / 10).push(((48 + n % 10) as u8) as char)
    }
}

/// The decimal rendering of an integer, with a leading minus when negative.
pub open spec fn int_str(n: int) -> Seq<char> {
    if n < 0 {
        seq!['-'] + dec_str(-n)
    } else {
        dec_str(n)
    }
}

/// The text a value prints as. Function values and atoms render as opaque
/// markers: they carry no readable form.
pub open spec fn print_model(v: ValModel, readable: bool) -> Seq<char>
    decreases v, 0int, 0int,
{
    match v {
        ValModel::Nil => "nil"@,
        ValModel::Bool(b) => if b {
            "true"@
        } else {
            "false"@
        },
        ValModel::Int(n) => int_str(n as int),
        ValModel::Str(s) => print_string(s, readable),
        ValModel::Sym(s) => s,
        ValModel::List(vs, _) => "("@ + print_items(vs, 0, readable) + ")"@,
        ValModel::Vector(vs, _) => "["@ + print_items(vs, 0, readable) + "]"@,
        ValModel::Hash(es, _) => "{"@ + print_entries(es, 0, readable) + "}"@,
        ValModel::Func(_, _) => "#<function>"@,
        ValModel::MalFunc { .. } => "#<function>"@,
        ValModel::Atom(_) => "#<atom>"@,
    }
}

/// The text of a value of the string space: a keyword with its `:`, else
/// quoted when `readable`, else raw.
pub open spec fn print_string(s: Seq<char>, readable: bool) -> Seq<char> {
    if s.len() > 0 && s[0] == kw_mark() {
        seq![':'] + s.skip(1)
    } else if readable {
        seq!['"'] + s + seq!['"']
    } else {
        s
    }
}

/// Elements from index `i` on, joined with single spaces.
pub open spec fn print_items(vs: Seq<ValModel>, i: int, readable: bool) -> Seq<char>
    decreases vs, vs.len() - i, 1int,
{
    if i < 0 || i >= vs.len() {
        Seq::empty()
    } else if i == vs.len() - 1 {
        print_model(vs[i], readable)
    } else {
        print_model(vs[i], readable) + seq![' '] + print_items(vs, i + 1, readable)
    }
}

/// Hash entries from index `i` on: key, space, value, joined with spaces.
pub open spec fn print_entries(es: Seq<(Seq<char>, ValModel)>, i: int, readable: bool) -> Seq<
    char,
>
    decreases es, es.len() - i, 1int,
{
    if i < 0 || i >= es.len() {
        Seq::empty()
    } else if i == es.len() - 1 {
        print_string(es[i].0, readable) + seq![' '] + print_model(es[i].1, readable)
    } else {
        print_string(es[i].0, readable) + seq![' '] + print_model(es[i].1, readable) + seq![' ']
            + print_entries(es, i + 1, readable)
    }
}

/// The single space put between rendered elements (none before the first,
/// none at the very end).
pub open spec fn sep_at(i: int, len: int) -> Seq<char> {
    if 0 < i < len {
        seq![' ']
    } else {
        Seq::empty()
    }
}

/// Append the decimal digits of `m` to `s`.
pub fn push_dec(s: &mut String, m: u64) -> (r: ())
    ensures
        final(s)@ == old(s)@ + dec_str(m as int),
    decreases m,
{
    if m < 10 {
        push_char(s, ((48 + m) as u8) as char);
        proof {
            assert(s@ =~= old(s)@ + dec_str(m as int));
        }
    } else {
        push_dec(s, m / 10);
        push_char(s, ((48 + (m % 10)) as u8) as char);
        proof {
            assert(s@ =~= old(s)@ + dec_str(m as int));
        }
    }
}

/// The decimal text of a 64-bit integer.
pub fn int_to_string(n: i64) -> (r: String)
    ensures
        r@ == int_str(n as int),
{
    let mut s = String::new();
    if n >= 0 {
        push_dec(&mut s, n as u64);
        proof {
            assert(s@ =~= int_str(n as int));
        }
    } else {
        push_char(&mut s, '-');
        let m: u64 = ((-(n + 1)) as u64) + 1;
        proof {
            assert(m as int == -(n as int));
        }
        push_dec(&mut s, m);
        proof {
            assert(s@ =~= int_str(n as int));
        }
    }
    s
}

/// Render a hash key, which lives in the string space.
fn pr_key(k: &String, readable: bool) -> (r: String)
    ensures
        r@ == print_string(k@, readable),
{
    let st = k.as_str();
    let n = st.unicode_len();
    if n > 0 && st.get_char(0) == '\u{29e}' {
        let mut out = String::new();
        push_char(&mut out, ':');
        out.append(st.substring_char(1, n));
        proof {
            assert(out@ =~= seq![':'] + k@.skip(1));
        }
        out
    } else if readable {
        let mut out = String::new();
        push_char(&mut out, '"');
        out.append(st);
        push_char(&mut out, '"');
        proof {
            assert(out@ =~= seq!['"'] + k@ + seq!['"']);
        }
        out
    } else {
        k.clone()
    }
}

/// Render one value as text.
pub fn pr_str(v: &MalVal, readable: bool) -> (r: String)
    ensures
        r@ == print_model(v@, readable),
    decreases v, 0int,
{
    match v {
        MalVal::Nil => String::from_str("nil"),
        MalVal::Bool(b) => if *b {
            String::from_str("true")
        } else {
            String::from_str("false")
        },
        MalVal::Int(n) => int_to_string(*n),
        MalVal::Str(s) => pr_key(s, readable),
        MalVal::Sym(s) => s.clone(),
        MalVal::List(vs, _) => pr_seq(vs, readable, "(", ")"),
        MalVal::Vector(vs, _) => pr_seq(vs, readable, "[", "]"),
        MalVal::Hash(es, _) => {
            let ghost em = entry_models(es@);
            proof {
                lemma_entry_models(es@);
            }
            let mut out = String::from_str("{");
            let mut i: usize = 0;
            while i < es.len()
                invariant
                    em == entry_models(es@),
                    em.len() == es@.len(),
                    forall|j: int| 0 <= j < es@.len() ==> (#[trigger] em[j]).0 == es@[j].0@,
                    forall|j: int| 0 <= j < es@.len() ==> (#[trigger] em[j]).1 == es@[j].1@,
                    0 <= i <= es@.len(),
                    v matches MalVal::Hash(esv, _) && esv == es,
                    out@ + sep_at(i as int, em.len() as int) + print_entries(em, i as int, readable)
                        =~= "{"@ + print_entries(em, 0, readable),
                decreases es@.len() - i,
            {
                if i > 0 {
                    push_char(&mut out, ' ');
                }
                let ks = pr_key(&es[i].0, readable);
                out.append(ks.as_str());
                push_char(&mut out, ' ');
                let vs = pr_str(&es[i].1, readable);
                out.append(vs.as_str());
                proof {
                    assert(out@ + sep_at(i as int + 1, em.len() as int) + print_entries(
                        em,
                        i as int + 1,
                        readable,
                    ) =~= "{"@ + print_entries(em, 0, readable));
                }
                i = i + 1;
            }
            out.append("}");
            proof {
                assert(out@ =~= "{"@ + print_entries(em, 0, readable) + "}"@);
            }
            out
        },
        MalVal::Func(_, _) => String::from_str("#<function>"),
        MalVal::MalFunc { .. } => String::from_str("#<function>"),
        MalVal::Atom(_) => String::from_str("#<atom>"),
    }
}

/// Render the elements of a sequence joined by single spaces, between the
/// caller-supplied `start` and `end` delimiters. The printer and `prn`
/// share this for lists, vectors and argument rows.
pub fn pr_seq(seq0: &Vec<MalVal>, readable: bool, start: &str, end: &str) -> (r: String)
    ensures
        r@ == start@ + print_items(models(seq0@), 0, readable) + end@,
    decreases seq0, 1int,
{
    let ghost vm = models(seq0@);
    proof {
        lemma_models(seq0@);
    }
    let mut out = String::from_str(start);
    let mut i: usize = 0;
    while i < seq0.len()
        invariant
            vm == models(seq0@),
            vm.len() == seq0@.len(),
            forall|j: int| 0 <= j < seq0@.len() ==> vm[j] == #[trigger] seq0@[j]@,
            0 <= i <= seq0@.len(),
            out@ + sep_at(i as int, vm.len() as int) + print_items(vm, i as int, readable)
                =~= start@ + print_items(vm, 0, readable),
        decreases seq0@.len() - i,
    {
        if i > 0 {
            push_char(&mut out, ' ');
        }
        let es = pr_str(&seq0[i], readable);
        out.append(es.as_str());
        proof {
            assert(out@ + sep_at(i as int + 1, vm.len() as int) + print_items(
                vm,
                i as int + 1,
                readable,
            ) =~= start@ + print_items(vm, 0, readable));
        }
        i = i + 1;
    }
    out.append(end);
    proof {
        assert(out@ =~= start@ + print_items(vm, 0, readable) + end@);
    }
    out
}

/// The display text of an error at the `rep` boundary: a message error
/// renders as its message, a raised value through the readable printer.
pub open spec fn err_text(e: ErrModel) -> Seq<char> {
    match e {
        ErrModel::EmptyInput => "no input"@,
        ErrModel::Underflow => "underflow"@,
        ErrModel::Arity => "arity mismatch"@,
        ErrModel::TypeMismatch => "type mismatch"@,
        ErrModel::IndexOutOfRange => "index out of range"@,
        ErrModel::NotFound(s) => s + " not found"@,
        ErrModel::NotCallable => "attempt to call non-function"@,
        ErrModel::Overflow => "integer overflow"@,
        ErrModel::DivideByZero => "division by zero"@,
        ErrModel::OutOfFuel => "evaluation budget exhausted"@,
        ErrModel::Custom(s) => s,
        ErrModel::Raised(v) => print_model(v, true),
    }
}

/// Format an error for display.
pub fn format_error(e: MalErr) -> (r: String)
    ensures
        r@ == err_text(e@),
{
    match e {
        MalErr::ErrMsg(k) => match k {
            crate::types::ErrorKind::EmptyInput => String::from_str("no input"),
            crate::types::ErrorKind::Underflow => String::from_str("underflow"),
            crate::types::ErrorKind::Arity => String::from_str("arity mismatch"),
            crate::types::ErrorKind::TypeMismatch => String::from_str("type mismatch"),
            crate::types::ErrorKind::IndexOutOfRange => String::from_str("index out of range"),
            crate::types::ErrorKind::NotFound(s) => {
                let mut out = s;
                out.append(" not found");
                out
            },
            crate::types::ErrorKind::NotCallable => String::from_str(
                "attempt to call non-function",
            ),
            crate::types::ErrorKind::Overflow => String::from_str("integer overflow"),
            crate::types::ErrorKind::DivideByZero => String::from_str("division by zero"),
            crate::types::ErrorKind::OutOfFuel => String::from_str("evaluation budget exhausted"),
            crate::types::ErrorKind::Custom(s) => s,
        },
        MalErr::ErrMalVal(v) => pr_str(&v, true),
    }
}


/// A character of the tokenizer's catch-all class: not punctuation, not a
/// space, not a newline, not a comment opener.
pub open spec fn is_plain(c: char) -> bool {
    !is_punct(c) && c != ' ' && c != '\n' && c != ';'
}

/// Scanning plain characters only extends the open accumulator; at the
/// end the whole text is one token.
pub proof fn lemma_lex_plain_run(acc: Seq<char>, s: Seq<char>, i: int)
    requires
        0 <= i <= s.len(),
        forall|j: int| i <= j < s.len() ==> is_plain(#[trigger] s[j]),
    ensures
        lex_run(StateModel::Others(acc), s, i) == seq![acc + s.skip(i)],
    decreases s.len() - i,
{
    if i == s.len() {
        assert(acc + s.skip(i) =~= acc);
        assert(lex_run(StateModel::Others(acc), s, i) =~= seq![acc + s.skip(i)]);
    } else {
        assert(is_plain(s[i]));
        assert(lex_step(StateModel::Others(acc), s[i]) == (
            StateModel::Others(acc.push(s[i])),
            Seq::<Seq<char>>::empty(),
        ));
        lemma_lex_plain_run(acc.push(s[i]), s, i + 1);
        assert(acc.push(s[i]) + s.skip(i + 1) =~= acc + s.skip(i));
        assert(lex_run(StateModel::Others(acc), s, i) =~= seq![acc + s.skip(i)]);
    }
}

/// A non-empty text of plain characters tokenizes to itself, one token.
pub proof fn lemma_tokenize_plain(s: Seq<char>)
    requires
        s.len() > 0,
        forall|j: int| 0 <= j < s.len() ==> is_plain(#[trigger] s[j]),
    ensures
        tokenize_model(s) == seq![s],
{
    assert(is_plain(s[0]));
    assert(lex_step(StateModel::Start, s[0]) == (
        StateModel::Others(seq![s[0]]),
        Seq::<Seq<char>>::empty(),
    ));
    lemma_lex_plain_run(seq![s[0]], s, 1);
    assert(seq![s[0]] + s.skip(1) =~= s);
    assert(tokenize_model(s) =~= seq![s]);
}

/// The decimal digits of a non-negative number: every character is a
/// digit, and reading the digits back gives the number.
pub proof fn lemma_dec_str_digits(n: int)
    requires
        0 <= n,
    ensures
        dec_str(n).len() > 0,
        forall|j: int| 0 <= j < dec_str(n).len() ==> 48 <= (#[trigger] dec_str(n)[j]) as u32 <= 57,
        dec_val(dec_str(n)) == n,
    decreases n,
{
    if n < 10 {
        let c = ((48 + n) as u8) as char;
        assert(c as u32 == 48 + n);
        assert(dec_str(n) == seq![c]);
        assert(dec_str(n).drop_last() =~= Seq::<char>::empty());
        assert(dec_val(dec_str(n)) == dec_val(Seq::<char>::empty()) * 10 + (c as u32 - 48));
    } else {
        lemma_dec_str_digits(n / 10);
        let c = ((48 + n % 10) as u8) as char;
        assert(c as u32 == 48 + n % 10);
        assert(dec_str(n) == dec_str(n / 10).push(c));
        assert(dec_str(n).drop_last() =~= dec_str(n / 10));
        assert forall|j: int| 0 <= j < dec_str(n).len() implies 48 <= (#[trigger] dec_str(n)[
            j]) as u32 <= 57 by {
            if j < dec_str(n / 10).len() {
                assert(dec_str(n)[j] == dec_str(n / 10)[j]);
            } else {
                assert(dec_str(n)[j] == c);
            }
        }
        assert(dec_val(dec_str(n)) == dec_val(dec_str(n / 10)) * 10 + (c as u32 - 48));
        assert((n / 10) * 10 + n % 10 == n);
    }
}

/// The round trip for the atoms the reader can produce: printing `nil`,
/// a boolean, or a non-negative integer readably and reading the text
/// back yields the same value. (Negative integers print with a minus the
/// reader does not accept, and are not themselves reader-producible.)
pub proof fn lemma_atom_round_trip(v: ValModel)
    requires
        v matches ValModel::Nil || v matches ValModel::Bool(_) || (v matches ValModel::Int(n)
            && n >= 0),
    ensures
        read_str_model(print_model(v, true)) == Ok::<ValModel, ErrModel>(v),
{
    match v {
        ValModel::Nil => {
            reveal_strlit("nil");
            reveal_strlit("'");
            reveal_strlit("(");
            reveal_strlit("[");
            let t = "nil"@;
            assert(t.len() == 3 && t[0] == 'n' && t[1] == 'i' && t[2] == 'l');
            assert forall|j: int| 0 <= j < t.len() implies is_plain(#[trigger] t[j]) by {}
            lemma_tokenize_plain(t);
            assert(atom_model(t) == Ok::<ValModel, ErrModel>(ValModel::Nil));
            assert(parse_form(seq![t], 0, 3nat) == Ok::<(ValModel, int), ErrModel>(
                (ValModel::Nil, 1),
            ));
        },
        ValModel::Bool(b) => {
            if b {
                reveal_strlit("true");
                reveal_strlit("nil");
                reveal_strlit("false");
                reveal_strlit("'");
                reveal_strlit("(");
                reveal_strlit("[");
                let t = "true"@;
                assert(t.len() == 4 && t[0] == 't' && t[1] == 'r' && t[2] == 'u' && t[3] == 'e');
                assert forall|j: int| 0 <= j < t.len() implies is_plain(#[trigger] t[j]) by {}
                lemma_tokenize_plain(t);
                assert(atom_model(t) == Ok::<ValModel, ErrModel>(ValModel::Bool(true)));
                assert(parse_form(seq![t], 0, 3nat) == Ok::<(ValModel, int), ErrModel>(
                    (ValModel::Bool(true), 1),
                ));
            } else {
                reveal_strlit("false");
                reveal_strlit("nil");
                reveal_strlit("true");
                reveal_strlit("'");
                reveal_strlit("(");
                reveal_strlit("[");
                let t = "false"@;
                assert(t.len() == 5 && t[0] == 'f' && t[1] == 'a' && t[2] == 'l' && t[3] == 's'
                    && t[4] == 'e');
                assert forall|j: int| 0 <= j < t.len() implies is_plain(#[trigger] t[j]) by {}
                lemma_tokenize_plain(t);
                assert(atom_model(t) == Ok::<ValModel, ErrModel>(ValModel::Bool(false)));
                assert(parse_form(seq![t], 0, 3nat) == Ok::<(ValModel, int), ErrModel>(
                    (ValModel::Bool(false), 1),
                ));
            }
        },
        ValModel::Int(n) => {
            let t = dec_str(n as int);
            lemma_dec_str_digits(n as int);
            assert(print_model(v, true) == t);
            assert forall|j: int| 0 <= j < t.len() implies is_plain(#[trigger] t[j]) by {
                assert(48 <= t[j] as u32 <= 57);
            }
            lemma_tokenize_plain(t);
            reveal_strlit("nil");
            reveal_strlit("false");
            reveal_strlit("true");
            assert(t != "nil"@ && t != "false"@ && t != "true"@) by {
                if t == "nil"@ {
                    assert(t[0] == 'n' && 48 <= t[0] as u32 <= 57);
                }
                if t == "false"@ {
                    assert(t[0] == 'f' && 48 <= t[0] as u32 <= 57);
                }
                if t == "true"@ {
                    assert(t[0] == 't' && 48 <= t[0] as u32 <= 57);
                }
            }
            assert(all_digits(t));
            assert(atom_model(t) == Ok::<ValModel, ErrModel>(ValModel::Int(n)));
            reveal_strlit("'");
            reveal_strlit("(");
            reveal_strlit("[");
            assert(t != "'"@ && t != "("@ && t != "["@) by {
                if t == "'"@ {
                    assert(t[0] == '\'' && 48 <= t[0] as u32 <= 57);
                }
                if t == "("@ {
                    assert(t[0] == '(' && 48 <= t[0] as u32 <= 57);
                }
                if t == "["@ {
                    assert(t[0] == '[' && 48 <= t[0] as u32 <= 57);
                }
            }
            assert(parse_form(seq![t], 0, 3nat) == Ok::<(ValModel, int), ErrModel>(
                (ValModel::Int(n), 1),
            ));
        },
        _ => {},
    }
}

} // verus!
