use vstd::prelude::*;

use crate::lexer::{texts, tokenize, tokens};
use crate::number::{literal_number, Number};
use crate::text::same_text;
use crate::value::{exps_view, lemma_exps_view, Atom, Exp, Fault, LispError, Val};

verus! {

pub open spec fn open_paren() -> Seq<char> {
    seq!['(']
}

pub open spec fn close_paren() -> Seq<char> {
    seq![')']
}

pub open spec fn true_text() -> Seq<char> {
    seq!['t', 'r', 'u', 'e']
}

pub open spec fn false_text() -> Seq<char> {
    seq!['f', 'a', 'l', 's', 'e']
}

/// The value of an atom token: a boolean literal, a number, or else a symbol.
pub open spec fn atom_of(t: Seq<char>) -> Val {
    if t == true_text() {
        Val::Bool(true)
    } else if t == false_text() {
        Val::Bool(false)
    } else {
        match literal_number(t) {
            Some(n) => Val::Num(n),
            None => Val::Sym(t),
        }
    }
}

/// Reads one expression from `toks` at `pos`: the expression and the position
/// after it.
pub open spec fn read(toks: Seq<Seq<char>>, pos: int) -> Result<(Val, int), Fault>
    decreases toks.len() - pos, 0int,
{
    if pos < 0 || pos >= toks.len() {
        Err(Fault::UnexpectedEof)
    } else if toks[pos] == open_paren() {
        read_list(toks, pos + 1, Seq::empty())
    } else if toks[pos] == close_paren() {
        Err(Fault::UnexpectedCloseParen)
    } else {
        Ok((atom_of(toks[pos]), pos + 1))
    }
}

/// Reads the rest of a list whose items so far are `items`, up to and
/// including its `)`.
pub open spec fn read_list(toks: Seq<Seq<char>>, pos: int, items: Seq<Val>) -> Result<
    (Val, int),
    Fault,
>
    decreases toks.len() - pos, 1int,
{
    if pos < 0 || pos >= toks.len() {
        Err(Fault::UnexpectedEof)
    } else if toks[pos] == close_paren() {
        Ok((Val::List(items), pos + 1))
    } else {
        match read(toks, pos) {
            Err(f) => Err(f),
            Ok((v, p)) => if pos < p <= toks.len() {
                read_list(toks, p, items.push(v))
            } else {
                Err(Fault::UnexpectedEof)
            },
        }
    }
}

/// What parsing the text `s` gives: the first expression of its tokens.
/// Tokens after it are not read.
pub open spec fn parse_text(s: Seq<char>) -> Result<Val, Fault> {
    match read(tokens(s), 0) {
        Ok((v, _)) => Ok(v),
        Err(f) => Err(f),
    }
}

pub open spec fn read_view(r: Result<(Exp, usize), LispError>) -> Result<(Val, int), Fault> {
    match r {
        Ok((e, p)) => Ok((e.view(), p as int)),
        Err(f) => Err(f.view()),
    }
}

/// The expression that an atom token stands for.
fn atom(token: String) -> (r: Exp)
    ensures
        r.view() == atom_of(token@),
{
    proof {
        reveal_strlit("true");
        reveal_strlit("false");
        assert("true"@ =~= true_text());
        assert("false"@ =~= false_text());
    }
    if same_text(token.as_str(), "true") {
        Exp::Bool(true)
    } else if same_text(token.as_str(), "false") {
        Exp::Bool(false)
    } else {
        match Number::from_literal(token.as_str()) {
            Some(n) => Exp::Atom(Atom::Number(n)),
            None => Exp::Atom(Atom::Symbol(token)),
        }
    }
}

fn read_from_tokens(tokens: &Vec<String>, pos: usize) -> (r: Result<(Exp, usize), LispError>)
    ensures
        read_view(r) == read(texts(tokens@), pos as int),
        r matches Ok((_, p)) ==> pos < p <= tokens@.len(),
    decreases tokens@.len() - pos,
{
    let ghost toks = texts(tokens@);
    proof {
        reveal_strlit("(");
        reveal_strlit(")");
        assert("("@ =~= open_paren());
        assert(")"@ =~= close_paren());
    }
    if pos >= tokens.len() {
        return Err(LispError::UnexpectedEof);
    }
    let token = &tokens[pos];
    assert(toks[pos as int] == token@);
    if same_text(token.as_str(), "(") {
        let mut items: Vec<Exp> = Vec::new();
        let mut cur = pos + 1;
        proof {
            assert(exps_view(items@) =~= Seq::<Val>::empty());
        }
        loop
            invariant
                pos < cur <= tokens@.len(),
                toks == texts(tokens@),
                toks.len() == tokens@.len(),
                ")"@ == close_paren(),
                read_list(toks, cur as int, exps_view(items@)) == read(toks, pos as int),
            decreases tokens@.len() - cur,
        {
            if cur >= tokens.len() {
                return Err(LispError::UnexpectedEof);
            }
            assert(toks[cur as int] == tokens@[cur as int]@);
            if same_text(tokens[cur].as_str(), ")") {
                return Ok((Exp::List(items), cur + 1));
            }
            match read_from_tokens(tokens, cur) {
                Err(f) => {
                    return Err(f);
                },
                Ok((e, p)) => {
                    let ghost before = items@;
                    items.push(e);
                    proof {
                        lemma_exps_view(before);
                        lemma_exps_view(items@);
                        assert(exps_view(items@) =~= exps_view(before).push(e.view()));
                    }
                    cur = p;
                },
            }
        }
    } else if same_text(token.as_str(), ")") {
        Err(LispError::UnexpectedCloseParen)
    } else {
        Ok((atom(token.clone()), pos + 1))
    }
}

/// Reads the first expression of `input`.
pub fn parse(input: String) -> (r: Result<Exp, LispError>)
    ensures
        match r {
            Ok(e) => parse_text(input@) == Ok::<Val, Fault>(e.view()),
            Err(f) => parse_text(input@) == Err::<Val, Fault>(f.view()),
        },
{
    let tokens = tokenize(input);
    match read_from_tokens(&tokens, 0) {
        Ok((e, _)) => Ok(e),
        Err(f) => Err(f),
    }
}

} // verus!
