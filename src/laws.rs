use vstd::prelude::*;

use crate::semantics::{define_text, eval};
use crate::value::{bind, lookup, position, Bindings, Fault, Val};

verus! {

/// Booleans, numbers and procedures evaluate to themselves and leave the
/// environment as it was.
pub proof fn lemma_self_evaluating(v: Val, env: Bindings, fuel: nat)
    requires
        v is Bool || v is Num || v is Prim || v is Closure,
    ensures
        eval(v, env, fuel) == (Ok::<Val, Fault>(v), env),
{
}

/// Evaluating a symbol that the environment does not bind fails with
/// `UndefinedSymbol` naming that symbol, and changes nothing.
pub proof fn lemma_unbound_symbol(s: Seq<char>, env: Bindings, fuel: nat)
    requires
        lookup(env, s) is None,
    ensures
        eval(Val::Sym(s), env, fuel) == (Err::<Val, Fault>(Fault::UndefinedSymbol(s)), env),
{
}

/// After binding `k` to `v`, looking up `k` gives `v`, and every other name
/// gives what it gave before.
pub proof fn lemma_lookup_bind(env: Bindings, k: Seq<char>, v: Val, other: Seq<char>)
    ensures
        lookup(bind(env, k, v), k) == Some(v),
        other != k ==> lookup(bind(env, k, v), other) == lookup(env, other),
    decreases env.len(),
{
    let b = bind(env, k, v);
    if env.len() == 0 {
        assert(b =~= seq![(k, v)]);
        assert(b.drop_last() =~= env);
    } else if env.last().0 == k {
        assert(position(env, k) == Some(env.len() - 1));
        assert(b.drop_last() =~= env.drop_last());
        assert(b.last() == (k, v));
    } else {
        let t = env.drop_last();
        lemma_lookup_bind(t, k, v, other);
        match position(t, k) {
            Some(i) => {
                assert(position(env, k) == Some(i));
                crate::value::lemma_position(t, k);
                assert(b.drop_last() =~= bind(t, k, v));
                assert(b.last() == env.last());
            },
            None => {
                assert(position(env, k) is None);
                assert(b.drop_last() =~= env);
                assert(b.last() == (k, v));
            },
        }
    }
}

/// A successful `(define name expr)` leaves `name` bound to the value it
/// returns.
pub proof fn lemma_define_binds(name: Seq<char>, expr: Val, env: Bindings, fuel: nat)
    ensures
        ({
            let (r, after) = eval(
                Val::List(seq![Val::Sym(define_text()), Val::Sym(name), expr]),
                env,
                fuel,
            );
            r matches Ok(v) ==> lookup(after, name) == Some(v)
        }),
{
    let (r, env1) = eval(expr, env, fuel);
    if let Ok(v) = r {
        lemma_lookup_bind(env1, name, v, name);
    }
}

/// `(define (name param...) body...)` returns the symbol `name` and binds
/// `name` to a procedure holding the parameters, the body, and the whole
/// environment as it was when the definition ran; later changes to the
/// environment do not reach that copy.
pub proof fn lemma_define_procedure(
    name: Seq<char>,
    params: Seq<Val>,
    body: Seq<Val>,
    env: Bindings,
    fuel: nat,
)
    requires
        body.len() >= 1,
    ensures
        eval(
            Val::List(seq![Val::Sym(define_text()), Val::List(seq![Val::Sym(name)] + params)]
                + body),
            env,
            fuel,
        ) == (
            Ok::<Val, Fault>(Val::Sym(name)),
            bind(env, name, Val::Closure { params, body, env }),
        ),
{
    let items = seq![Val::Sym(define_text()), Val::List(seq![Val::Sym(name)] + params)] + body;
    let header = seq![Val::Sym(name)] + params;
    assert(items[0] == Val::Sym(define_text()));
    assert(items[1] == Val::List(header));
    assert(header.subrange(1, header.len() as int) =~= params);
    assert(items.subrange(2, items.len() as int) =~= body);
}

} // verus!
