use vstd::prelude::*;

use crate::lexer::{flush, is_delimiter, is_space, lemma_lex_token, lex, tokens};
use crate::number::{lemma_number_text_chars, lemma_number_text_reads_back, literal_number, number_text};
use crate::reader::{atom_of, close_paren, false_text, open_paren, parse_text, read, read_list, true_text};
use crate::render::{render, render_items};
use crate::text::is_digit;
use crate::value::Val;

verus! {

/// A symbol whose text reads back as the same symbol: non-empty, free of
/// white space and parentheses, and neither a boolean nor a number literal.
pub open spec fn is_symbol_text(s: Seq<char>) -> bool {
    &&& s.len() > 0
    &&& forall|i: int| 0 <= i < s.len() ==> !is_delimiter(#[trigger] s[i])
    &&& s != true_text()
    &&& s != false_text()
    &&& literal_number(s) is None
}

/// A value that has a text: booleans, numbers in lowest terms, symbols as
/// above, and lists of such values. Procedures have none.
pub open spec fn representable(v: Val) -> bool
    decreases v,
{
    match v {
        Val::Bool(_) => true,
        Val::Num(n) => n.canonical(),
        Val::Sym(s) => is_symbol_text(s),
        Val::List(items) => forall|i: int|
            0 <= i < items.len() ==> representable(#[trigger] items[i]),
        _ => false,
    }
}

/// The tokens of a value's text.
pub open spec fn render_tokens(v: Val) -> Seq<Seq<char>>
    decreases v, 1int,
{
    match v {
        Val::List(items) => seq![open_paren()] + render_tokens_items(items) + seq![close_paren()],
        _ => seq![render(v)],
    }
}

pub open spec fn render_tokens_items(items: Seq<Val>) -> Seq<Seq<char>>
    decreases items, 0int,
{
    if items.len() == 0 {
        Seq::empty()
    } else {
        render_tokens_items(items.subrange(0, items.len() - 1)) + render_tokens(
            items[items.len() - 1],
        )
    }
}

/// The text of an atom is one word.
proof fn lemma_atom_text(v: Val)
    requires
        representable(v),
        !(v is List),
    ensures
        render(v).len() > 0,
        forall|i: int| 0 <= i < render(v).len() ==> !is_delimiter(#[trigger] render(v)[i]),
        render(v) != open_paren(),
        render(v) != close_paren(),
        atom_of(render(v)) == v,
{
    match v {
        Val::Num(n) => {
            lemma_number_text_chars(n);
            lemma_number_text_reads_back(n);
            let t = number_text(n);
            assert forall|i: int| 0 <= i < t.len() implies !is_delimiter(#[trigger] t[i]) by {
                if is_digit(t[i]) {
                    assert(!is_space(t[i]));
                }
            }
            assert(t != true_text() && t != false_text()) by {
                if t == true_text() {
                    assert(t[0] == 't');
                }
                if t == false_text() {
                    assert(t[0] == 'f');
                }
            }
            assert(t != open_paren()) by {
                if t == open_paren() {
                    assert(is_delimiter(t[0]));
                }
            }
            assert(t != close_paren()) by {
                if t == close_paren() {
                    assert(is_delimiter(t[0]));
                }
            }
        },
        Val::Sym(s) => {
            assert(s != open_paren()) by {
                if s == open_paren() {
                    assert(is_delimiter(s[0]));
                }
            }
            assert(s != close_paren()) by {
                if s == close_paren() {
                    assert(is_delimiter(s[0]));
                }
            }
        },
        Val::Bool(b) => {
            assert(true_text() != false_text()) by {
                assert(true_text().len() != false_text().len());
            }
            assert(true_text() != open_paren()) by {
                assert(true_text().len() != open_paren().len());
            }
            assert(true_text() != close_paren()) by {
                assert(true_text().len() != close_paren().len());
            }
            assert(false_text() != open_paren()) by {
                assert(false_text().len() != open_paren().len());
            }
            assert(false_text() != close_paren()) by {
                assert(false_text().len() != close_paren().len());
            }
        },
        _ => {},
    }
}

/// Tokenizing a value's text, followed by text that begins with a delimiter,
/// gives the value's tokens first.
proof fn lemma_lex_render(v: Val, r: Seq<char>)
    requires
        representable(v),
        r.len() == 0 || is_delimiter(r[0]),
    ensures
        lex(render(v) + r, Seq::empty()) == render_tokens(v) + lex(r, Seq::empty()),
    decreases v, 1int,
{
    match v {
        Val::List(items) => {
            let x = render_items(items);
            let c = seq![')'] + r;
            lemma_lex_render_items(items, c);
            let whole = render(v) + r;
            assert(whole =~= seq!['('] + (x + c));
            assert(whole[0] == '(');
            assert(whole.drop_first() =~= x + c);
            assert(c[0] == ')');
            assert(c.drop_first() =~= r);
            assert(flush(Seq::<char>::empty()) =~= Seq::<Seq<char>>::empty());
            assert(lex(c, Seq::empty()) =~= seq![close_paren()] + lex(r, Seq::empty()));
            assert(lex(whole, Seq::empty()) =~= seq![open_paren()] + lex(x + c, Seq::empty()));
            assert(render_tokens(v) + lex(r, Seq::empty()) =~= seq![open_paren()] + (
            render_tokens_items(items) + (seq![close_paren()] + lex(r, Seq::empty()))));
        },
        _ => {
            lemma_atom_text(v);
            lemma_lex_token(render(v), r);
        },
    }
}

proof fn lemma_lex_render_items(items: Seq<Val>, r: Seq<char>)
    requires
        forall|i: int| 0 <= i < items.len() ==> representable(#[trigger] items[i]),
        r.len() == 0 || is_delimiter(r[0]),
    ensures
        lex(render_items(items) + r, Seq::empty()) == render_tokens_items(items) + lex(
            r,
            Seq::empty(),
        ),
    decreases items, 0int,
{
    if items.len() == 0 {
        assert(render_items(items) + r =~= r);
        assert(render_tokens_items(items) + lex(r, Seq::empty()) =~= lex(r, Seq::empty()));
    } else if items.len() == 1 {
        lemma_lex_render(items[0], r);
        let init = items.subrange(0, 0);
        assert(render_tokens_items(init) =~= Seq::<Seq<char>>::empty());
        assert(render_tokens_items(items) =~= render_tokens(items[0]));
    } else {
        let init = items.subrange(0, items.len() - 1);
        let last = items[items.len() - 1];
        let tail = seq![' '] + render(last) + r;
        lemma_lex_render_items(init, tail);
        lemma_lex_render(last, r);
        assert(render_items(items) + r =~= render_items(init) + tail);
        assert(tail[0] == ' ');
        assert(tail.drop_first() =~= render(last) + r);
        assert(flush(Seq::<char>::empty()) =~= Seq::<Seq<char>>::empty());
        assert(lex(tail, Seq::empty()) =~= lex(render(last) + r, Seq::empty()));
        assert(render_tokens_items(items) + lex(r, Seq::empty()) =~= render_tokens_items(init) + (
        render_tokens(last) + lex(r, Seq::empty())));
    }
}

/// The tokens of a value's text are the value's tokens.
proof fn lemma_tokens_render(v: Val)
    requires
        representable(v),
    ensures
        tokens(render(v)) == render_tokens(v),
{
    lemma_lex_render(v, Seq::empty());
    assert(render(v) + Seq::<char>::empty() =~= render(v));
    assert(render_tokens(v) + lex(Seq::<char>::empty(), Seq::empty()) =~= render_tokens(v));
}

proof fn lemma_render_tokens_shape(v: Val)
    requires
        representable(v),
    ensures
        render_tokens(v).len() >= 1,
        render_tokens(v)[0] != close_paren(),
{
    match v {
        Val::List(_) => {
            assert(open_paren() != close_paren()) by {
                assert(open_paren()[0] != close_paren()[0]);
            }
        },
        _ => {
            lemma_atom_text(v);
        },
    }
}

proof fn lemma_render_tokens_items_concat(a: Seq<Val>, b: Seq<Val>)
    ensures
        render_tokens_items(a + b) == render_tokens_items(a) + render_tokens_items(b),
    decreases b.len(),
{
    if b.len() == 0 {
        assert(a + b =~= a);
        assert(render_tokens_items(a) + render_tokens_items(b) =~= render_tokens_items(a));
    } else {
        let bi = b.subrange(0, b.len() - 1);
        lemma_render_tokens_items_concat(a, bi);
        assert((a + b).subrange(0, (a + b).len() - 1) =~= a + bi);
        assert((a + b)[(a + b).len() - 1] == b[b.len() - 1]);
        assert(render_tokens_items(a) + render_tokens_items(b) =~= render_tokens_items(a)
            + render_tokens_items(bi) + render_tokens(b[b.len() - 1]));
    }
}

/// Reading the tokens of a value, wherever they stand, gives the value and
/// the position after them.
proof fn lemma_read_render(toks: Seq<Seq<char>>, pos: int, v: Val)
    requires
        representable(v),
        0 <= pos,
        pos + render_tokens(v).len() <= toks.len(),
        toks.subrange(pos, pos + render_tokens(v).len()) == render_tokens(v),
    ensures
        read(toks, pos) == Ok::<(Val, int), crate::value::Fault>((v, pos + render_tokens(v).len())),
    decreases v, 0int,
{
    assert(toks[pos] == toks.subrange(pos, pos + render_tokens(v).len())[0]);
    match v {
        Val::List(items) => {
            assert(open_paren() != close_paren()) by {
                assert(open_paren()[0] != close_paren()[0]);
            }
            assert(toks[pos] == open_paren());
            lemma_read_render_list(toks, pos, items, 0);
            assert(items.take(0) =~= Seq::<Val>::empty());
        },
        _ => {
            lemma_atom_text(v);
        },
    }
}

/// The rest of a list's tokens, from item `k` on, read as the whole list.
proof fn lemma_read_render_list(toks: Seq<Seq<char>>, pos: int, items: Seq<Val>, k: int)
    requires
        representable(Val::List(items)),
        0 <= k <= items.len(),
        0 <= pos,
        pos + render_tokens(Val::List(items)).len() <= toks.len(),
        toks.subrange(pos, pos + render_tokens(Val::List(items)).len()) == render_tokens(
            Val::List(items),
        ),
    ensures
        read_list(toks, pos + 1 + render_tokens_items(items.take(k)).len(), items.take(k)) == Ok::<
            (Val, int),
            crate::value::Fault,
        >((Val::List(items), pos + render_tokens(Val::List(items)).len())),
    decreases items, items.len() - k,
{
    let layout = render_tokens(Val::List(items));
    let p = pos + 1 + render_tokens_items(items.take(k)).len();
    lemma_render_tokens_items_concat(items.take(k), items.skip(k));
    assert(items.take(k) + items.skip(k) =~= items);
    let before = render_tokens_items(items.take(k));
    let after = render_tokens_items(items.skip(k));
    assert(layout =~= seq![open_paren()] + before + after + seq![close_paren()]);
    if k == items.len() {
        assert(after =~= Seq::<Seq<char>>::empty()) by {
            assert(items.skip(k) =~= Seq::<Val>::empty());
        }
        assert(toks[p] == layout[p - pos]);
        assert(items.take(k) =~= items);
    } else {
        let x = items[k];
        assert(representable(x));
        let n = render_tokens(x).len();
        lemma_render_tokens_shape(x);
        lemma_render_tokens_items_concat(items.take(k), seq![x]);
        assert(items.take(k + 1) =~= items.take(k) + seq![x]);
        assert(render_tokens_items(seq![x]) =~= render_tokens(x)) by {
            assert(seq![x].subrange(0, 0) =~= Seq::<Val>::empty());
            assert(render_tokens_items(Seq::<Val>::empty()) =~= Seq::<Seq<char>>::empty());
            assert(seq![x][0] == x);
        }
        lemma_render_tokens_items_concat(seq![x], items.skip(k + 1));
        assert(items.skip(k) =~= seq![x] + items.skip(k + 1));
        assert(after =~= render_tokens(x) + render_tokens_items(items.skip(k + 1)));
        assert(toks.subrange(p, p + n) =~= render_tokens(x)) by {
            assert forall|j: int| 0 <= j < n implies toks.subrange(p, p + n)[j] == render_tokens(
                x,
            )[j] by {
                assert(toks[p + j] == layout[p + j - pos]);
            }
        }
        assert(toks[p] == layout[p - pos]);
        assert(toks[p] != close_paren());
        lemma_read_render(toks, p, x);
        lemma_read_render_list(toks, pos, items, k + 1);
        assert(items.take(k).push(x) =~= items.take(k + 1));
    }
}

/// Reading back the text of a value that has one gives the same value.
pub proof fn lemma_parse_render(v: Val)
    requires
        representable(v),
    ensures
        parse_text(render(v)) == Ok::<Val, crate::value::Fault>(v),
{
    lemma_tokens_render(v);
    let toks = render_tokens(v);
    assert(toks.subrange(0, toks.len() as int) =~= toks);
    lemma_read_render(toks, 0, v);
}

} // verus!
