use vstd::prelude::*;

use crate::number::Number;
use crate::primitives::apply_primitive;
use crate::value::{bind, lookup, Bindings, Comparison, Fault, Primitive, Val};

verus! {

pub open spec fn define_text() -> Seq<char> {
    seq!['d', 'e', 'f', 'i', 'n', 'e']
}

pub open spec fn if_text() -> Seq<char> {
    seq!['i', 'f']
}

/// The numerator of pi as the nearest 64-bit float has it, over `PI_DENOMINATOR`.
pub const PI_NUMERATOR: i64 = 884279719003555;

/// Two to the 48th.
pub const PI_DENOMINATOR: i64 = 281474976710656;

pub open spec fn pi() -> Number {
    Number::from_ratio(PI_NUMERATOR as int, PI_DENOMINATOR as int)->0
}

/// The bindings of the standard environment, in the order they are made.
pub open spec fn standard_bindings() -> Bindings {
    let e = Seq::<(Seq<char>, Val)>::empty();
    let e = bind(e, seq!['+'], Val::Prim(Primitive::Add));
    let e = bind(e, seq!['-'], Val::Prim(Primitive::Subtract));
    let e = bind(e, seq!['*'], Val::Prim(Primitive::Multiply));
    let e = bind(e, seq!['/'], Val::Prim(Primitive::Divide));
    let e = bind(e, seq!['p', 'i'], Val::Num(pi()));
    let e = bind(e, seq!['='], Val::Prim(Primitive::Compare(Comparison::Equal)));
    let e = bind(e, seq!['>'], Val::Prim(Primitive::Compare(Comparison::Greater)));
    let e = bind(e, seq!['<'], Val::Prim(Primitive::Compare(Comparison::Less)));
    let e = bind(e, seq!['>', '='], Val::Prim(Primitive::Compare(Comparison::GreaterEqual)));
    bind(e, seq!['<', '='], Val::Prim(Primitive::Compare(Comparison::LessEqual)))
}

/// Binds each parameter symbol to the argument at its position, in order.
pub open spec fn bind_params(params: Seq<Val>, args: Seq<Val>, env: Bindings) -> Result<
    Bindings,
    Fault,
>
    decreases params.len(),
{
    if params.len() != args.len() {
        Err(Fault::ArityError)
    } else if params.len() == 0 {
        Ok(env)
    } else {
        match bind_params(params.drop_last(), args.drop_last(), env) {
            Err(f) => Err(f),
            Ok(e) => match params.last() {
                Val::Sym(k) => Ok(bind(e, k, args.last())),
                _ => Err(Fault::MalformedForm),
            },
        }
    }
}

/// Evaluates `e` in `env`, where `fuel` bounds how deeply calls of
/// user-defined procedures may nest: the result and the environment after.
pub open spec fn eval(e: Val, env: Bindings, fuel: nat) -> (Result<Val, Fault>, Bindings)
    decreases fuel, e, 3int,
{
    match e {
        Val::Sym(s) => match lookup(env, s) {
            Some(v) => (Ok(v), env),
            None => (Err(Fault::UndefinedSymbol(s)), env),
        },
        Val::List(items) => eval_list(items, env, fuel),
        _ => (Ok(e), env),
    }
}

/// Evaluates the list form `items`.
pub open spec fn eval_list(items: Seq<Val>, env: Bindings, fuel: nat) -> (
    Result<Val, Fault>,
    Bindings,
)
    decreases fuel, items, 2int,
{
    if items.len() == 0 {
        (Err(Fault::MalformedForm), env)
    } else {
        match items[0] {
            Val::Sym(s) => if s == define_text() {
                eval_define(items, env, fuel)
            } else if s == if_text() {
                eval_if(items, env, fuel)
            } else {
                eval_call(s, items.subrange(1, items.len() as int), env, fuel)
            },
            _ => (Err(Fault::TypeError), env),
        }
    }
}

/// `(define name expr)` binds the value of `expr`, and gives it;
/// `(define (name param...) body...)` binds a procedure that captures `env`,
/// and gives the symbol `name`.
pub open spec fn eval_define(items: Seq<Val>, env: Bindings, fuel: nat) -> (
    Result<Val, Fault>,
    Bindings,
)
    decreases fuel, items, 1int,
{
    if items.len() < 3 {
        (Err(Fault::ArityError), env)
    } else {
        match items[1] {
            Val::List(header) => if header.len() == 0 {
                (Err(Fault::MalformedForm), env)
            } else {
                match header[0] {
                    Val::Sym(name) => (
                        Ok(Val::Sym(name)),
                        bind(
                            env,
                            name,
                            Val::Closure {
                                params: header.subrange(1, header.len() as int),
                                body: items.subrange(2, items.len() as int),
                                env: env,
                            },
                        ),
                    ),
                    _ => (Err(Fault::MalformedForm), env),
                }
            },
            Val::Sym(name) => if items.len() != 3 {
                (Err(Fault::ArityError), env)
            } else {
                let (r, env1) = eval(items[2], env, fuel);
                match r {
                    Ok(v) => (Ok(v), bind(env1, name, v)),
                    Err(f) => (Err(f), env1),
                }
            },
            _ => (Err(Fault::MalformedForm), env),
        }
    }
}

/// `(if condition then else)` evaluates exactly one branch.
pub open spec fn eval_if(items: Seq<Val>, env: Bindings, fuel: nat) -> (
    Result<Val, Fault>,
    Bindings,
)
    decreases fuel, items, 1int,
{
    if items.len() != 4 {
        (Err(Fault::ArityError), env)
    } else {
        let (c, env1) = eval(items[1], env, fuel);
        match c {
            Err(f) => (Err(f), env1),
            Ok(Val::Bool(true)) => eval(items[2], env1, fuel),
            Ok(Val::Bool(false)) => eval(items[3], env1, fuel),
            Ok(_) => (Err(Fault::TypeError), env1),
        }
    }
}

/// A call `(name arg...)`, with `rest` the argument expressions: the arguments are evaluated left to right, then
/// the procedure bound to `name` is applied. A user-defined procedure runs in
/// a copy of its captured environment with its parameters bound; its
/// arguments are evaluated in a copy of `env`, which no call changes.
pub open spec fn eval_call(name: Seq<char>, rest: Seq<Val>, env: Bindings, fuel: nat) -> (
    Result<Val, Fault>,
    Bindings,
)
    decreases fuel, rest, 1int,
{
    match lookup(env, name) {
        Some(Val::Prim(p)) => {
            let (r, env1) = eval_seq(rest, env, fuel);
            match r {
                Ok(args) => (apply_primitive(p, args), env1),
                Err(f) => (Err(f), env1),
            }
        },
        Some(Val::Closure { params, body, env: captured }) => {
            let (r, _) = eval_seq(rest, env, fuel);
            let res = match r {
                Err(f) => Err(f),
                Ok(args) => if fuel == 0 {
                    Err(Fault::DepthExceeded)
                } else {
                    match bind_params(params, args, captured) {
                        Err(f) => Err(f),
                        Ok(local) => eval_body(body, local, (fuel - 1) as nat).0,
                    }
                },
            };
            (res, env)
        },
        _ => (Err(Fault::UndefinedFunction(name)), env),
    }
}

/// Evaluates `items` left to right, each in the environment the one before left.
pub open spec fn eval_seq(items: Seq<Val>, env: Bindings, fuel: nat) -> (
    Result<Seq<Val>, Fault>,
    Bindings,
)
    decreases fuel, items, 0int,
{
    if items.len() == 0 {
        (Ok(Seq::empty()), env)
    } else {
        let (r, env1) = eval_seq(items.subrange(0, items.len() - 1), env, fuel);
        match r {
            Err(f) => (Err(f), env1),
            Ok(vs) => {
                let (r2, env2) = eval(items[items.len() - 1], env1, fuel);
                match r2 {
                    Ok(v) => (Ok(vs.push(v)), env2),
                    Err(f) => (Err(f), env2),
                }
            },
        }
    }
}

/// Evaluates a procedure body in order; the last value is the result, and an
/// empty body gives `false`.
pub open spec fn eval_body(body: Seq<Val>, env: Bindings, fuel: nat) -> (
    Result<Val, Fault>,
    Bindings,
)
    decreases fuel, body, 0int,
{
    if body.len() == 0 {
        (Ok(Val::Bool(false)), env)
    } else {
        let (r, env1) = eval_body(body.subrange(0, body.len() - 1), env, fuel);
        match r {
            Err(f) => (Err(f), env1),
            Ok(_) => eval(body[body.len() - 1], env1, fuel),
        }
    }
}

/// Once a prefix of `items` fails, evaluating all of them fails the same way.
pub proof fn lemma_eval_seq_error_stays(items: Seq<Val>, env: Bindings, fuel: nat, k: int)
    requires
        0 <= k <= items.len(),
        eval_seq(items.take(k), env, fuel).0 is Err,
    ensures
        eval_seq(items, env, fuel) == eval_seq(items.take(k), env, fuel),
    decreases items.len(),
{
    if k < items.len() {
        let t = items.subrange(0, items.len() - 1);
        assert(t.take(k) =~= items.take(k));
        lemma_eval_seq_error_stays(t, env, fuel, k);
    } else {
        assert(items.take(k) =~= items);
    }
}

/// Once a prefix of a body fails, the whole body fails the same way.
pub proof fn lemma_eval_body_error_stays(body: Seq<Val>, env: Bindings, fuel: nat, k: int)
    requires
        0 <= k <= body.len(),
        eval_body(body.take(k), env, fuel).0 is Err,
    ensures
        eval_body(body, env, fuel) == eval_body(body.take(k), env, fuel),
    decreases body.len(),
{
    if k < body.len() {
        let t = body.subrange(0, body.len() - 1);
        assert(t.take(k) =~= body.take(k));
        lemma_eval_body_error_stays(t, env, fuel, k);
    } else {
        assert(body.take(k) =~= body);
    }
}

/// Once binding a prefix of the parameters fails, binding all of them fails
/// the same way.
pub proof fn lemma_bind_params_error_stays(
    params: Seq<Val>,
    args: Seq<Val>,
    env: Bindings,
    k: int,
)
    requires
        params.len() == args.len(),
        0 <= k <= params.len(),
        bind_params(params.take(k), args.take(k), env) is Err,
    ensures
        bind_params(params, args, env) == bind_params(params.take(k), args.take(k), env),
    decreases params.len(),
{
    if k < params.len() {
        assert(params.drop_last().take(k) =~= params.take(k));
        assert(args.drop_last().take(k) =~= args.take(k));
        lemma_bind_params_error_stays(params.drop_last(), args.drop_last(), env, k);
    } else {
        assert(params.take(k) =~= params);
        assert(args.take(k) =~= args);
    }
}

} // verus!
