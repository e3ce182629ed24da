//! Tokenizer and reader. The tokenizer is a four-state scanner over
//! character classes; the reader is a recursive-descent parser that turns
//! the token stream into one value.
use crate::types::{
    models, ErrModel, ErrorKind, MalErr, MalRet, MalVal, ValModel,
};
use vstd::prelude::*;

verus! {

/// Appends one character. Relies on std's `String::push`, which the
/// documentation states appends the given char to the end of the string.
#[verifier::external_body]
pub fn push_char(s: &mut String, c: char) -> (r: ())
    ensures
        final(s)@ == old(s)@.push(c),
{
    s.push(c)
}

/// A one-character string.
pub fn char_string(c: char) -> (r: String)
    ensures
        r@ == seq![c],
{
    let mut s = String::new();
    push_char(&mut s, c);
    proof {
        assert(s@ =~= seq![c]);
    }
    s
}

/// Structural punctuation: each is a token of its own (but for `~@`).
pub open spec fn is_punct(c: char) -> bool {
    c == '`' || c == '\'' || c == '~' || c == '^' || c == '@' || c == '[' || c == ']' || c == '('
        || c == ')' || c == '{' || c == '}'
}

/// The scanner's states: idle, inside a punctuation token, inside a
/// comment, or inside a bare atom.
pub enum State {
    Start,
    StateSym(String),
    Comment(String),
    Others(String),
}

/// Model of a scanner state.
pub enum StateModel {
    Start,
    StateSym(Seq<char>),
    Comment(Seq<char>),
    Others(Seq<char>),
}

impl View for State {
    type V = StateModel;

    open spec fn view(&self) -> StateModel {
        match self {
            State::Start => StateModel::Start,
            State::StateSym(s) => StateModel::StateSym(s@),
            State::Comment(s) => StateModel::Comment(s@),
            State::Others(s) => StateModel::Others(s@),
        }
    }
}

/// One scanner step: the tokens it emits and the state it moves to.
/// Mirrors the transition table exactly: punctuation flushes a pending
/// atom and both punctuation tokens, except that `~` followed by `@` is
/// merged into the single token `~@`, consuming the pending accumulator;
/// space and newline flush; `;` opens a comment; comments swallow
/// everything until a newline.
pub open spec fn lex_step(st: StateModel, c: char) -> (StateModel, Seq<Seq<char>>) {
    if is_punct(c) {
        match st {
            StateModel::Start => (StateModel::StateSym(seq![c]), seq![]),
            StateModel::StateSym(s) => if s == seq!['~'] && c == '@' {
                (StateModel::Start, seq![seq!['~', '@']])
            } else {
                (StateModel::Start, seq![s, seq![c]])
            },
            StateModel::Comment(s) => (StateModel::Comment(s.push(c)), seq![]),
            StateModel::Others(s) => (StateModel::StateSym(seq![c]), seq![s]),
        }
    } else if c == ' ' {
        match st {
            StateModel::Start => (StateModel::Start, seq![]),
            StateModel::StateSym(s) => (StateModel::Start, seq![s]),
            StateModel::Comment(s) => (StateModel::Comment(s.push(c)), seq![]),
            StateModel::Others(s) => (StateModel::Start, seq![s]),
        }
    } else if c == '\n' {
        match st {
            StateModel::Start => (StateModel::Start, seq![]),
            StateModel::StateSym(s) => (StateModel::Start, seq![s]),
            StateModel::Comment(s) => (StateModel::Start, seq![s]),
            StateModel::Others(s) => (StateModel::Start, seq![s]),
        }
    } else if c == ';' {
        match st {
            StateModel::Start => (StateModel::Comment(seq![c]), seq![]),
            StateModel::StateSym(s) => (StateModel::Comment(seq![c]), seq![s]),
            StateModel::Comment(s) => (StateModel::Comment(s.push(c)), seq![]),
            StateModel::Others(s) => (StateModel::Comment(seq![c]), seq![s]),
        }
    } else {
        match st {
            StateModel::Start => (StateModel::Others(seq![c]), seq![]),
            StateModel::StateSym(s) => (StateModel::Others(seq![c]), seq![s]),
            StateModel::Comment(s) => (StateModel::Comment(s.push(c)), seq![]),
            StateModel::Others(s) => (StateModel::Others(s.push(c)), seq![]),
        }
    }
}

/// At the end of input, whatever accumulator is open becomes a last token.
pub open spec fn lex_flush(st: StateModel) -> Seq<Seq<char>> {
    match st {
        StateModel::Start => seq![],
        StateModel::StateSym(s) => seq![s],
        StateModel::Comment(s) => seq![s],
        StateModel::Others(s) => seq![s],
    }
}

/// Running the scanner from state `st` over the characters of `s` from
/// position `i` to the end.
pub open spec fn lex_run(st: StateModel, s: Seq<char>, i: int) -> Seq<Seq<char>>
    decreases s.len() - i,
{
    if i < 0 || i >= s.len() {
        lex_flush(st)
    } else {
        lex_step(st, s[i]).1 + lex_run(lex_step(st, s[i]).0, s, i + 1)
    }
}

/// The token sequence of a source text.
pub open spec fn tokenize_model(s: Seq<char>) -> Seq<Seq<char>> {
    lex_run(StateModel::Start, s, 0)
}

/// The models of a sequence of token strings.
pub open spec fn str_models(ts: Seq<String>) -> Seq<Seq<char>> {
    ts.map_values(|t: String| t@)
}

pub proof fn lemma_str_models_push(ts: Seq<String>, t: String)
    ensures
        str_models(ts.push(t)) =~= str_models(ts).push(t@),
{
    assert forall|j: int| 0 <= j < ts.len() + 1 implies str_models(ts.push(t))[j] == str_models(
        ts,
    ).push(t@)[j] by {
        if j < ts.len() {
            assert(ts.push(t)[j] == ts[j]);
        } else {
            assert(ts.push(t)[j] == t);
        }
    }
}

/// Scan `text` into its tokens.
pub fn tokenize(text: &str) -> (r: Vec<String>)
    ensures
        str_models(r@) == tokenize_model(text@),
{
    let n = text.unicode_len();
    let mut res: Vec<String> = Vec::new();
    let mut state = State::Start;
    let mut i: usize = 0;
    while i < n
        invariant
            n == text@.len(),
            0 <= i <= n,
            tokenize_model(text@) == str_models(res@) + lex_run(state@, text@, i as int),
        decreases n - i,
    {
        let c = text.get_char(i);
        let ghost st0 = state@;
        let ghost res0 = res@;
        state = if c == '`' || c == '\'' || c == '~' || c == '^' || c == '@' || c == '[' || c
            == ']' || c == '(' || c == ')' || c == '{' || c == '}' {
            match state {
                State::Start => State::StateSym(char_string(c)),
                State::StateSym(s) => {
                    if c == '@' && s.as_str().unicode_len() == 1 && s.as_str().get_char(0) == '~' {
                        let mut tok = String::new();
                        push_char(&mut tok, '~');
                        push_char(&mut tok, '@');
                        proof {
                            assert(tok@ =~= seq!['~', '@']);
                            assert(s@ =~= seq!['~']);
                        }
                        res.push(tok);
                        State::Start
                    } else {
                        proof {
                            if s@ == seq!['~'] && c == '@' {
                                assert(s@.len() == 1 && s@[0] == '~');
                                assert(false);
                            }
                        }
                        res.push(s);
                        res.push(char_string(c));
                        State::Start
                    }
                },
                State::Comment(mut s) => {
                    push_char(&mut s, c);
                    State::Comment(s)
                },
                State::Others(s) => {
                    res.push(s);
                    State::StateSym(char_string(c))
                },
            }
        } else if c == ' ' {
            match state {
                State::Start => State::Start,
                State::StateSym(s) => {
                    res.push(s);
                    State::Start
                },
                State::Comment(mut s) => {
                    push_char(&mut s, c);
                    State::Comment(s)
                },
                State::Others(s) => {
                    res.push(s);
                    State::Start
                },
            }
        } else if c == '\n' {
            match state {
                State::Start => State::Start,
                State::StateSym(s) => {
                    res.push(s);
                    State::Start
                },
                State::Comment(s) => {
                    res.push(s);
                    State::Start
                },
                State::Others(s) => {
                    res.push(s);
                    State::Start
                },
            }
        } else if c == ';' {
            match state {
                State::Start => State::Comment(char_string(c)),
                State::StateSym(s) => {
                    res.push(s);
                    State::Comment(char_string(c))
                },
                State::Comment(mut s) => {
                    push_char(&mut s, c);
                    State::Comment(s)
                },
                State::Others(s) => {
                    res.push(s);
                    State::Comment(char_string(c))
                },
            }
        } else {
            match state {
                State::Start => State::Others(char_string(c)),
                State::StateSym(s) => {
                    res.push(s);
                    State::Others(char_string(c))
                },
                State::Comment(mut s) => {
                    push_char(&mut s, c);
                    State::Comment(s)
                },
                State::Others(mut s) => {
                    push_char(&mut s, c);
                    State::Others(s)
                },
            }
        };
        proof {
            let (st1, em) = lex_step(st0, text@[i as int]);
            assert(state@ == st1);
            assert(str_models(res@) =~= str_models(res0) + em) by {
                if em.len() == 0 {
                    assert(res@ == res0);
                    assert(str_models(res0) + em =~= str_models(res0));
                } else if em.len() == 1 {
                    assert(res@ == res0.push(res@.last()));
                    lemma_str_models_push(res0, res@.last());
                    assert(res@.last()@ == em[0]);
                    assert(str_models(res0).push(em[0]) =~= str_models(res0) + em);
                } else {
                    assert(em.len() == 2);
                    assert(res@ == res0.push(res@[res@.len() - 2]).push(res@.last()));
                    lemma_str_models_push(res0, res@[res@.len() - 2]);
                    lemma_str_models_push(res0.push(res@[res@.len() - 2]), res@.last());
                    assert(res@[res@.len() - 2]@ == em[0]);
                    assert(res@.last()@ == em[1]);
                    assert(str_models(res0).push(em[0]).push(em[1]) =~= str_models(res0) + em);
                }
            }
            assert(lex_run(st0, text@, i as int) == em + lex_run(st1, text@, i as int + 1));
            assert(str_models(res0) + (em + lex_run(st1, text@, i as int + 1)) =~= (str_models(
                res0,
            ) + em) + lex_run(st1, text@, i as int + 1));
        }
        i = i + 1;
    }
    let ghost stf = state@;
    let ghost resf = res@;
    match state {
        State::Start => {
            proof {
                assert(str_models(resf) + lex_flush(stf) =~= str_models(resf));
            }
        },
        State::StateSym(s) => {
            res.push(s);
            proof {
                lemma_str_models_push(resf, res@.last());
                assert(str_models(resf) + lex_flush(stf) =~= str_models(resf).push(
                    res@.last()@,
                ));
            }
        },
        State::Comment(s) => {
            res.push(s);
            proof {
                lemma_str_models_push(resf, res@.last());
                assert(str_models(resf) + lex_flush(stf) =~= str_models(resf).push(
                    res@.last()@,
                ));
            }
        },
        State::Others(s) => {
            res.push(s);
            proof {
                lemma_str_models_push(resf, res@.last());
                assert(str_models(resf) + lex_flush(stf) =~= str_models(resf).push(
                    res@.last()@,
                ));
            }
        },
    }
    res
}

/// The token cursor of the reader.
pub struct Reader {
    pub tokens: Vec<String>,
    pub pos: usize,
}

impl Reader {
    /// Take the token under the cursor and advance; the cursor moves on
    /// even when the stream has run out and the call fails with an
    /// underflow error.
    pub fn next(&mut self) -> (r: Result<String, MalErr>)
        requires
            old(self).pos < usize::MAX,
        ensures
            final(self).pos == old(self).pos + 1,
            old(self).pos < old(self).tokens@.len() ==> (r matches Ok(t) && t@ == str_models(
                old(self).tokens@,
            )[old(self).pos as int]),
            old(self).pos >= old(self).tokens@.len() ==> (r matches Err(e) && e@
                == ErrModel::Underflow),
            final(self).tokens == old(self).tokens,
    {
        let r = if self.pos < self.tokens.len() {
            Ok(self.tokens[self.pos].clone())
        } else {
            Err(MalErr::ErrMsg(ErrorKind::Underflow))
        };
        self.pos = self.pos + 1;
        r
    }

    /// Look at the token under the cursor without advancing.
    pub fn peek(&self) -> (r: Result<String, MalErr>)
        ensures
            self.pos < self.tokens@.len() ==> (r matches Ok(t) && t@ == str_models(self.tokens@)[
                self.pos as int]),
            self.pos >= self.tokens@.len() ==> (r matches Err(e) && e@ == ErrModel::Underflow),
            self.tokens@.len() <= usize::MAX,
    {
        if self.pos < self.tokens.len() {
            Ok(self.tokens[self.pos].clone())
        } else {
            Err(MalErr::ErrMsg(ErrorKind::Underflow))
        }
    }
}

/// Every character is an ASCII digit.
pub open spec fn all_digits(s: Seq<char>) -> bool {
    forall|i: int| 0 <= i < s.len() ==> 48 <= (#[trigger] s[i]) as u32 <= 57
}

/// The value of a decimal digit string.
pub open spec fn dec_val(s: Seq<char>) -> int
    decreases s.len(),
{
    if s.len() == 0 {
        0
    } else {
        dec_val(s.drop_last()) * 10 + (s.last() as u32 - 48)
    }
}

pub proof fn lemma_dec_val_extend(s: Seq<char>, i: int)
    requires
        all_digits(s),
        0 <= i <= s.len(),
    ensures
        dec_val(s.take(i)) >= 0,
        dec_val(s) >= dec_val(s.take(i)),
    decreases s.len() - i,
{
    if i == s.len() {
        assert(s.take(i) =~= s);
        lemma_dec_val_nonneg(s);
    } else {
        lemma_dec_val_extend(s, i + 1);
        assert(s.take(i + 1).drop_last() =~= s.take(i));
        assert(dec_val(s.take(i + 1)) == dec_val(s.take(i)) * 10 + (s.take(i + 1).last() as u32
            - 48));
        lemma_dec_val_nonneg(s.take(i));
    }
}

pub proof fn lemma_dec_val_nonneg(s: Seq<char>)
    requires
        all_digits(s),
    ensures
        dec_val(s) >= 0,
    decreases s.len(),
{
    if s.len() > 0 {
        assert(all_digits(s.drop_last()));
        lemma_dec_val_nonneg(s.drop_last());
    }
}

/// Whether the string is all ASCII digits (an empty string counts).
pub fn is_numbers(s: &String) -> (r: bool)
    ensures
        r == all_digits(s@),
{
    let st = s.as_str();
    let n = st.unicode_len();
    let mut i: usize = 0;
    while i < n
        invariant
            st@ == s@,
            n == s@.len(),
            0 <= i <= n,
            forall|j: int| 0 <= j < i ==> 48 <= (#[trigger] s@[j]) as u32 <= 57,
        decreases n - i,
    {
        let c = st.get_char(i);
        let u = c as u32;
        if u < 48 || u > 57 {
            return false;
        }
        i = i + 1;
    }
    true
}

/// Parse a non-empty all-digit token as a 64-bit integer; a value beyond
/// the representable range fails with an overflow error.
pub fn parse_int(t: &String) -> (r: Result<i64, MalErr>)
    requires
        all_digits(t@),
        t@.len() > 0,
    ensures
        dec_val(t@) <= i64::MAX ==> (r matches Ok(n) && n == dec_val(t@)),
        dec_val(t@) > i64::MAX ==> (r matches Err(e) && e@ == ErrModel::Overflow),
{
    let st = t.as_str();
    let n = st.unicode_len();
    let mut acc: i64 = 0;
    let mut i: usize = 0;
    while i < n
        invariant
            st@ == t@,
            all_digits(t@),
            n == t@.len(),
            0 <= i <= n,
            0 <= acc,
            acc == dec_val(t@.take(i as int)),
        decreases n - i,
    {
        let c = st.get_char(i);
        let d = (c as u32 - 48) as i64;
        proof {
            assert(48 <= t@[i as int] as u32 <= 57);
            assert(t@.take(i as int + 1).drop_last() =~= t@.take(i as int));
            assert(dec_val(t@.take(i as int + 1)) == dec_val(t@.take(i as int)) * 10 + (t@[
                i as int] as u32 - 48));
        }
        if acc > (i64::MAX - d) / 10 {
            proof {
                assert(acc * 10 + d > i64::MAX) by (nonlinear_arith)
                    requires
                        acc > (i64::MAX - d) / 10,
                        0 <= d <= 9,
                        acc >= 0,
                {}
                lemma_dec_val_extend(t@, i as int + 1);
                assert(dec_val(t@) > i64::MAX);
            }
            return Err(MalErr::ErrMsg(ErrorKind::Overflow));
        }
        proof {
            assert(acc * 10 + d <= i64::MAX) by (nonlinear_arith)
                requires
                    acc <= (i64::MAX - d) / 10,
                    0 <= d <= 9,
                    acc >= 0,
            {}
        }
        acc = acc * 10 + d;
        i = i + 1;
    }
    proof {
        assert(t@.take(n as int) =~= t@);
    }
    Ok(acc)
}

/// String equality against a literal.
pub fn tok_is(t: &String, lit: &str) -> (r: bool)
    ensures
        r == (t@ == lit@),
{
    let l = String::from_str(lit);
    crate::types::string_eq(t, &l)
}

/// The keyword sentinel: a private code point marking a `:keyword` token
/// stored in the string space.
pub open spec fn kw_mark() -> char {
    '\u{29e}'
}

/// What a single token reads as: `nil`, the booleans, a decimal integer,
/// a quote-delimited string (taken verbatim, no escape processing), a
/// `:keyword` (a string with the sentinel code point prepended), or a
/// symbol.
pub open spec fn atom_model(tok: Seq<char>) -> Result<ValModel, ErrModel> {
    if tok == "nil"@ {
        Ok(ValModel::Nil)
    } else if tok == "false"@ {
        Ok(ValModel::Bool(false))
    } else if tok == "true"@ {
        Ok(ValModel::Bool(true))
    } else if tok.len() > 0 && all_digits(tok) {
        if dec_val(tok) <= i64::MAX {
            Ok(ValModel::Int(dec_val(tok) as i64))
        } else {
            Err(ErrModel::Overflow)
        }
    } else if tok.len() >= 2 && tok[0] == '"' && tok.last() == '"' {
        Ok(ValModel::Str(tok.subrange(1, tok.len() - 1)))
    } else if tok.len() >= 1 && tok[0] == ':' {
        Ok(ValModel::Str(seq![kw_mark()] + tok.skip(1)))
    } else {
        Ok(ValModel::Sym(tok))
    }
}

/// Read one atom: takes the next token and recognises it.
pub fn read_atom(rdr: &mut Reader) -> (r: MalRet)
    requires
        old(rdr).pos < usize::MAX,
    ensures
        final(rdr).tokens == old(rdr).tokens,
        final(rdr).pos == old(rdr).pos + 1,
        old(rdr).pos < old(rdr).tokens@.len() ==> (match atom_model(
            str_models(old(rdr).tokens@)[old(rdr).pos as int],
        ) {
            Ok(v) => r matches Ok(rv) && rv@ == v,
            Err(e) => r matches Err(re) && re@ == e,
        }),
        old(rdr).pos >= old(rdr).tokens@.len() ==> (r matches Err(e) && e@
            == ErrModel::Underflow),
{
    let token = match rdr.next() {
        Ok(t) => t,
        Err(e) => {
            return Err(e);
        },
    };
    if tok_is(&token, "nil") {
        return Ok(MalVal::Nil);
    }
    if tok_is(&token, "false") {
        return Ok(MalVal::Bool(false));
    }
    if tok_is(&token, "true") {
        return Ok(MalVal::Bool(true));
    }
    let st = token.as_str();
    let n = st.unicode_len();
    if n > 0 && is_numbers(&token) {
        return match parse_int(&token) {
            Ok(v) => Ok(MalVal::Int(v)),
            Err(e) => Err(e),
        };
    }
    if n >= 2 && st.get_char(0) == '"' && st.get_char(n - 1) == '"' {
        let inner = st.substring_char(1, n - 1);
        return Ok(MalVal::Str(inner.to_owned()));
    }
    if n >= 1 && st.get_char(0) == ':' {
        let mut kw = String::new();
        push_char(&mut kw, '\u{29e}');
        kw.append(st.substring_char(1, n));
        proof {
            assert(kw@ =~= seq![kw_mark()] + token@.skip(1));
        }
        return Ok(MalVal::Str(kw));
    }
    Ok(MalVal::Sym(token))
}

/// What the reader parses starting at token `p`: one form, and the cursor
/// position after it. A `'` token wraps the next form as `(quote <form>)`;
/// `(` and `[` open a list or a vector read up to the matching closer;
/// anything else is an atom. `fuel` only bounds the recursion; any fuel of
/// at least twice the remaining token count plus one gives the one answer.
pub open spec fn parse_form(toks: Seq<Seq<char>>, p: int, fuel: nat) -> Result<
    (ValModel, int),
    ErrModel,
>
    decreases fuel,
{
    if p < 0 || p >= toks.len() {
        Err(ErrModel::Underflow)
    } else if fuel == 0 {
        Err(ErrModel::OutOfFuel)
    } else if toks[p] == "'"@ {
        match parse_form(toks, p + 1, (fuel - 1) as nat) {
            Ok((v, p2)) => Ok(
                (
                    ValModel::List(
                        seq![ValModel::Sym("quote"@), v],
                        Box::new(ValModel::Nil),
                    ),
                    p2,
                ),
            ),
            Err(e) => Err(e),
        }
    } else if toks[p] == "("@ {
        match parse_seq(toks, p + 1, ")"@, (fuel - 1) as nat) {
            Ok((vs, p2)) => Ok((ValModel::List(vs, Box::new(ValModel::Nil)), p2)),
            Err(e) => Err(e),
        }
    } else if toks[p] == "["@ {
        match parse_seq(toks, p + 1, "]"@, (fuel - 1) as nat) {
            Ok((vs, p2)) => Ok((ValModel::Vector(vs, Box::new(ValModel::Nil)), p2)),
            Err(e) => Err(e),
        }
    } else {
        match atom_model(toks[p]) {
            Ok(v) => Ok((v, p + 1)),
            Err(e) => Err(e),
        }
    }
}

/// Forms read until the closing token is seen; fails with an underflow
/// error if the stream ends first.
pub open spec fn parse_seq(toks: Seq<Seq<char>>, p: int, close: Seq<char>, fuel: nat) -> Result<
    (Seq<ValModel>, int),
    ErrModel,
>
    decreases fuel,
{
    if p < 0 || p >= toks.len() {
        Err(ErrModel::Underflow)
    } else if toks[p] == close {
        Ok((seq![], p + 1))
    } else if fuel == 0 {
        Err(ErrModel::OutOfFuel)
    } else {
        match parse_form(toks, p, (fuel - 1) as nat) {
            Ok((v, p2)) => match parse_seq(toks, p2, close, (fuel - 1) as nat) {
                Ok((vs, p3)) => Ok((seq![v] + vs, p3)),
                Err(e) => Err(e),
            },
            Err(e) => Err(e),
        }
    }
}

/// Read one form at the cursor.
pub fn read_form(rdr: &mut Reader) -> (r: MalRet)
    ensures
        final(rdr).tokens == old(rdr).tokens,
        r matches Ok(_) ==> old(rdr).pos < final(rdr).pos <= old(rdr).tokens@.len(),
        forall|f: nat|
            f >= 2 * (old(rdr).tokens@.len() - old(rdr).pos) + 1
                ==> #[trigger] parse_form(
                str_models(old(rdr).tokens@),
                old(rdr).pos as int,
                f,
            ) == (match r {
                Ok(v) => Ok::<(ValModel, int), ErrModel>((v@, final(rdr).pos as int)),
                Err(e) => Err::<(ValModel, int), ErrModel>(e@),
            }),
    decreases rdr.tokens@.len() - rdr.pos, 0int,
{
    let ghost toks = str_models(rdr.tokens@);
    let ghost p0 = rdr.pos as int;
    let token = match rdr.peek() {
        Ok(t) => t,
        Err(e) => {
            return Err(e);
        },
    };
    if tok_is(&token, "'") {
        let _ = rdr.next();
        let ghost p1 = rdr.pos as int;
        let sub = match read_form(rdr) {
            Ok(v) => v,
            Err(e) => {
                proof {
                    assert forall|f: nat| f >= 2 * (toks.len() - p0) + 1 implies #[trigger]
                        parse_form(toks, p0, f) == Err::<(ValModel, int), ErrModel>(e@) by {
                        assert(parse_form(toks, p1, (f - 1) as nat) == Err::<
                            (ValModel, int),
                            ErrModel,
                        >(e@));
                    }
                }
                return Err(e);
            },
        };
        let quote_sym = MalVal::Sym(String::from_str("quote"));
        let mut items: Vec<MalVal> = Vec::new();
        items.push(quote_sym);
        items.push(sub);
        let r = MalVal::List(items, Box::new(MalVal::Nil));
        proof {
            crate::types::lemma_models(r->List_0@);
            assert(models(r->List_0@) =~= seq![
                ValModel::Sym("quote"@),
                r->List_0@[1]@,
            ]);
            assert forall|f: nat| f >= 2 * (toks.len() - p0) + 1 implies #[trigger] parse_form(
                toks,
                p0,
                f,
            ) == Ok::<(ValModel, int), ErrModel>((r@, rdr.pos as int)) by {
                assert(parse_form(toks, p1, (f - 1) as nat) is Ok);
            }
        }
        return Ok(r);
    }
    if tok_is(&token, "(") {
        let _ = rdr.next();
        let ghost p1 = rdr.pos as int;
        match read_seq(rdr, ")") {
            Ok(items) => {
                let r = MalVal::List(items, Box::new(MalVal::Nil));
                proof {
                    assert forall|f: nat| f >= 2 * (toks.len() - p0) + 1 implies #[trigger]
                        parse_form(toks, p0, f) == Ok::<(ValModel, int), ErrModel>(
                        (r@, rdr.pos as int),
                    ) by {
                        assert(parse_seq(toks, p1, ")"@, (f - 1) as nat) is Ok);
                    }
                }
                return Ok(r);
            },
            Err(e) => {
                proof {
                    assert forall|f: nat| f >= 2 * (toks.len() - p0) + 1 implies #[trigger]
                        parse_form(toks, p0, f) == Err::<(ValModel, int), ErrModel>(e@) by {
                        assert(parse_seq(toks, p1, ")"@, (f - 1) as nat) == Err::<
                            (Seq<ValModel>, int),
                            ErrModel,
                        >(e@));
                    }
                }
                return Err(e);
            },
        }
    }
    if tok_is(&token, "[") {
        let _ = rdr.next();
        let ghost p1 = rdr.pos as int;
        match read_seq(rdr, "]") {
            Ok(items) => {
                let r = MalVal::Vector(items, Box::new(MalVal::Nil));
                proof {
                    assert forall|f: nat| f >= 2 * (toks.len() - p0) + 1 implies #[trigger]
                        parse_form(toks, p0, f) == Ok::<(ValModel, int), ErrModel>(
                        (r@, rdr.pos as int),
                    ) by {
                        assert(parse_seq(toks, p1, "]"@, (f - 1) as nat) is Ok);
                    }
                }
                return Ok(r);
            },
            Err(e) => {
                proof {
                    assert forall|f: nat| f >= 2 * (toks.len() - p0) + 1 implies #[trigger]
                        parse_form(toks, p0, f) == Err::<(ValModel, int), ErrModel>(e@) by {
                        assert(parse_seq(toks, p1, "]"@, (f - 1) as nat) == Err::<
                            (Seq<ValModel>, int),
                            ErrModel,
                        >(e@));
                    }
                }
                return Err(e);
            },
        }
    }
    read_atom(rdr)
}

/// Read forms until the closing token.
pub fn read_seq(rdr: &mut Reader, close: &str) -> (r: Result<Vec<MalVal>, MalErr>)
    ensures
        final(rdr).tokens == old(rdr).tokens,
        r matches Ok(_) ==> old(rdr).pos < final(rdr).pos <= old(rdr).tokens@.len(),
        forall|f: nat|
            f >= 2 * (old(rdr).tokens@.len() - old(rdr).pos) + 2
                ==> #[trigger] parse_seq(
                str_models(old(rdr).tokens@),
                old(rdr).pos as int,
                close@,
                f,
            ) == (match r {
                Ok(vs) => Ok::<(Seq<ValModel>, int), ErrModel>(
                    (models(vs@), final(rdr).pos as int),
                ),
                Err(e) => Err::<(Seq<ValModel>, int), ErrModel>(e@),
            }),
    decreases rdr.tokens@.len() - rdr.pos, 1int,
{
    let ghost toks = str_models(rdr.tokens@);
    let ghost p0 = rdr.pos as int;
    let token = match rdr.peek() {
        Ok(t) => t,
        Err(e) => {
            return Err(e);
        },
    };
    if tok_is(&token, close) {
        let _ = rdr.next();
        let r: Vec<MalVal> = Vec::new();
        proof {
            crate::types::lemma_models(r@);
            assert(models(r@) =~= Seq::<ValModel>::empty());
        }
        return Ok(r);
    }
    let v = match read_form(rdr) {
        Ok(v) => v,
        Err(e) => {
            proof {
                assert forall|f: nat| f >= 2 * (toks.len() - p0) + 2 implies #[trigger] parse_seq(
                    toks,
                    p0,
                    close@,
                    f,
                ) == Err::<(Seq<ValModel>, int), ErrModel>(e@) by {
                    assert(parse_form(toks, p0, (f - 1) as nat) == Err::<
                        (ValModel, int),
                        ErrModel,
                    >(e@));
                }
            }
            return Err(e);
        },
    };
    let ghost p1 = rdr.pos as int;
    let rest = match read_seq(rdr, close) {
        Ok(vs) => vs,
        Err(e) => {
            proof {
                assert forall|f: nat| f >= 2 * (toks.len() - p0) + 2 implies #[trigger] parse_seq(
                    toks,
                    p0,
                    close@,
                    f,
                ) == Err::<(Seq<ValModel>, int), ErrModel>(e@) by {
                    assert(parse_form(toks, p0, (f - 1) as nat) is Ok);
                    assert(parse_seq(toks, p1, close@, (f - 1) as nat) == Err::<
                        (Seq<ValModel>, int),
                        ErrModel,
                    >(e@));
                }
            }
            return Err(e);
        },
    };
    let ghost vm = v@;
    let ghost restseq = rest@;
    let ghost restm = models(rest@);
    let mut out: Vec<MalVal> = Vec::new();
    out.push(v);
    let mut rest2 = rest;
    out.append(&mut rest2);
    proof {
        crate::types::lemma_models(out@);
        crate::types::lemma_models(restseq);
        assert forall|j: int| 0 <= j < out@.len() implies models(out@)[j] == (seq![vm]
            + restm)[j] by {
            assert(models(out@)[j] == out@[j]@);
            if j > 0 {
                assert(out@[j] == restseq[j - 1]);
                assert(restm[j - 1] == restseq[j - 1]@);
            }
        }
        assert(models(out@) =~= seq![vm] + restm);
        assert forall|f: nat| f >= 2 * (toks.len() - p0) + 2 implies #[trigger] parse_seq(
            toks,
            p0,
            close@,
            f,
        ) == Ok::<(Seq<ValModel>, int), ErrModel>((models(out@), rdr.pos as int)) by {
            assert(parse_form(toks, p0, (f - 1) as nat) is Ok);
            assert(parse_seq(toks, p1, close@, (f - 1) as nat) is Ok);
        }
    }
    Ok(out)
}

/// What `read_str` returns for a source text: tokenize, fail on empty
/// input, otherwise parse exactly one leading form.
pub open spec fn read_str_model(text: Seq<char>) -> Result<ValModel, ErrModel> {
    let toks = tokenize_model(text);
    if toks.len() == 0 {
        Err(ErrModel::EmptyInput)
    } else {
        match parse_form(toks, 0, (2 * toks.len() + 1) as nat) {
            Ok((v, _)) => Ok(v),
            Err(e) => Err(e),
        }
    }
}

/// Tokenize `text` and read one form from it.
pub fn read_str(text: String) -> (r: MalRet)
    ensures
        match read_str_model(text@) {
            Ok(v) => r matches Ok(rv) && rv@ == v,
            Err(e) => r matches Err(re) && re@ == e,
        },
{
    let tokens = tokenize(text.as_str());
    if tokens.len() == 0 {
        return Err(MalErr::ErrMsg(ErrorKind::EmptyInput));
    }
    let ghost toks = str_models(tokens@);
    let mut rdr = Reader { tokens, pos: 0 };
    let r = read_form(&mut rdr);
    proof {
        assert(parse_form(toks, 0, (2 * toks.len() + 1) as nat) == (match r {
            Ok(v) => Ok::<(ValModel, int), ErrModel>((v@, rdr.pos as int)),
            Err(e) => Err::<(ValModel, int), ErrModel>(e@),
        }));
    }
    r
}

} // verus!
