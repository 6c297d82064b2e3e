use vstd::prelude::*;
use vstd::string::StrSliceExecFns;

use crate::number::number_text;
use crate::reader::{false_text, true_text};
use crate::text::push_char;
use crate::value::{exps_view, lemma_exps_view, Atom, Exp, Val};

verus! {

pub open spec fn procedure_text() -> Seq<char> {
    seq!['<', 'f', 'u', 'n', 'c', 't', 'i', 'o', 'n', '>']
}

/// The text of a value: booleans as `true` and `false`, numbers by
/// `number_text`, symbols as they are, lists in parentheses with their items
/// separated by single spaces, and procedures as `<function>`.
pub open spec fn render(v: Val) -> Seq<char>
    decreases v, 1int,
{
    match v {
        Val::Bool(b) => if b {
            true_text()
        } else {
            false_text()
        },
        Val::Num(n) => number_text(n),
        Val::Sym(s) => s,
        Val::List(items) => seq!['('] + render_items(items) + seq![')'],
        _ => procedure_text(),
    }
}

/// The texts of `items`, separated by single spaces.
pub open spec fn render_items(items: Seq<Val>) -> Seq<char>
    decreases items, 0int,
{
    if items.len() == 0 {
        Seq::empty()
    } else if items.len() == 1 {
        render(items[0])
    } else {
        render_items(items.subrange(0, items.len() - 1)) + seq![' '] + render(
            items[items.len() - 1],
        )
    }
}

/// Appends the characters of `lit`.
fn push_str(s: &mut String, lit: &str)
    ensures
        final(s)@ == old(s)@ + lit@,
{
    let n = lit.unicode_len();
    let mut i: usize = 0;
    while i < n
        invariant
            n == lit@.len(),
            i <= n,
            s@ == old(s)@ + lit@.take(i as int),
        decreases n - i,
    {
        push_char(s, lit.get_char(i));
        i = i + 1;
        proof {
            assert(lit@.take(i as int) =~= lit@.take(i - 1).push(lit@[i - 1]));
        }
    }
    proof {
        assert(lit@.take(n as int) =~= lit@);
    }
}

fn write_exp(e: &Exp, out: &mut String)
    ensures
        final(out)@ == old(out)@ + render(e.view()),
    decreases e, 1int,
{
    proof {
        reveal_strlit("true");
        reveal_strlit("false");
        reveal_strlit("<function>");
        assert("true"@ =~= true_text());
        assert("false"@ =~= false_text());
        assert("<function>"@ =~= procedure_text());
    }
    match e {
        Exp::Bool(true) => push_str(out, "true"),
        Exp::Bool(false) => push_str(out, "false"),
        Exp::Atom(Atom::Number(n)) => {
            let t = n.to_text();
            push_str(out, t.as_str());
        },
        Exp::Atom(Atom::Symbol(s)) => push_str(out, s.as_str()),
        Exp::List(items) => {
            push_char(out, '(');
            write_items(items, out);
            push_char(out, ')');
            proof {
                assert(final(out)@ =~= old(out)@ + render(e.view()));
            }
        },
        _ => push_str(out, "<function>"),
    }
}

fn write_items(items: &Vec<Exp>, out: &mut String)
    ensures
        final(out)@ == old(out)@ + render_items(exps_view(items@)),
    decreases items, 0int,
{
    let ghost start = out@;
    let ghost vs = exps_view(items@);
    proof {
        lemma_exps_view(items@);
        assert(vs.take(0) =~= Seq::<Val>::empty());
        assert(out@ =~= start + render_items(vs.take(0)));
    }
    let mut i: usize = 0;
    while i < items.len()
        invariant
            i <= items@.len(),
            start == old(out)@,
            vs == exps_view(items@),
            vs.len() == items@.len(),
            forall|j: int| 0 <= j < items@.len() ==> #[trigger] vs[j] == items@[j].view(),
            out@ == start + render_items(vs.take(i as int)),
        decreases items@.len() - i,
    {
        if i > 0 {
            push_char(out, ' ');
        }
        write_exp(&items[i], out);
        proof {
            let t = vs.take(i + 1);
            assert(t.subrange(0, t.len() - 1) =~= vs.take(i as int));
            assert(out@ =~= start + render_items(t));
        }
        i = i + 1;
    }
    proof {
        assert(vs.take(i as int) =~= vs);
    }
}

impl Exp {
    /// The text of the value, as a caller prints it.
    pub fn to_text(&self) -> (r: String)
        ensures
            r@ == render(self.view()),
    {
        let mut s = String::new();
        write_exp(self, &mut s);
        proof {
            assert(s@ =~= render(self.view()));
        }
        s
    }
}

} // verus!
