use vstd::prelude::*;

use crate::number::Number;
use crate::primitives::apply;
use crate::reader::{parse, parse_text};
use crate::semantics::{
    bind_params as bind_params_spec, define_text, eval as eval_spec, eval_body as eval_body_spec,
    eval_call as eval_call_spec, eval_define as eval_define_spec, eval_if as eval_if_spec,
    eval_list as eval_list_spec, eval_seq as eval_seq_spec, if_text,
    lemma_bind_params_error_stays, lemma_eval_body_error_stays, lemma_eval_seq_error_stays,
    standard_bindings, PI_DENOMINATOR, PI_NUMERATOR,
};
use crate::text::same_text;
use crate::value::{
    exps_view, lemma_exps_view, result_view, Atom, Bindings, Comparison, Env, Exp, Fault, LispError,
    Primitive, Val,
};

verus! {

/// How deeply calls of user-defined procedures may nest.
pub const MAX_DEPTH: u64 = 200;

pub open spec fn seq_result_view(r: Result<Vec<Exp>, LispError>) -> Result<Seq<Val>, Fault> {
    match r {
        Ok(v) => Ok(exps_view(v@)),
        Err(f) => Err(f.view()),
    }
}

/// Copies of `v[from..]`.
fn copy_from(v: &Vec<Exp>, from: usize) -> (r: Vec<Exp>)
    requires
        from <= v@.len(),
    ensures
        exps_view(r@) == exps_view(v@).subrange(from as int, v@.len() as int),
{
    proof {
        lemma_exps_view(v@);
    }
    let mut r: Vec<Exp> = Vec::new();
    let mut i = from;
    while i < v.len()
        invariant
            from <= i <= v@.len(),
            r@.len() == i - from,
            forall|j: int| 0 <= j < r@.len() ==> #[trigger] r@[j].view() == v@[j + from].view(),
        decreases v@.len() - i,
    {
        r.push(v[i].duplicate());
        i = i + 1;
    }
    proof {
        lemma_exps_view(r@);
        lemma_exps_view(v@);
        assert(exps_view(r@) =~= exps_view(v@).subrange(from as int, v@.len() as int));
    }
    r
}

/// Evaluates `exp` in `env`, with calls of user-defined procedures nested at
/// most `fuel` deep.
fn evaluate(exp: &Exp, env: &mut Env, fuel: u64) -> (r: Result<Exp, LispError>)
    ensures
        (result_view(r), final(env).view()) == eval_spec(exp.view(), old(env).view(), fuel as nat),
    decreases fuel, exp, 3int,
{
    match exp {
        Exp::Atom(Atom::Symbol(s)) => match env.get(s.as_str()) {
            Some(v) => Ok(v.duplicate()),
            None => Err(LispError::UndefinedSymbol(s.clone())),
        },
        Exp::List(items) => eval_list(items, env, fuel),
        _ => Ok(exp.duplicate()),
    }
}

fn eval_list(items: &Vec<Exp>, env: &mut Env, fuel: u64) -> (r: Result<Exp, LispError>)
    ensures
        (result_view(r), final(env).view()) == eval_list_spec(
            exps_view(items@),
            old(env).view(),
            fuel as nat,
        ),
    decreases fuel, items, 2int,
{
    proof {
        lemma_exps_view(items@);
        reveal_strlit("define");
        reveal_strlit("if");
        assert("define"@ =~= define_text());
        assert("if"@ =~= if_text());
    }
    if items.len() == 0 {
        return Err(LispError::MalformedForm);
    }
    match &items[0] {
        Exp::Atom(Atom::Symbol(s)) => {
            if same_text(s.as_str(), "define") {
                eval_define(items, env, fuel)
            } else if same_text(s.as_str(), "if") {
                eval_if(items, env, fuel)
            } else {
                eval_call(s, items, env, fuel)
            }
        },
        _ => Err(LispError::TypeError),
    }
}

fn eval_define(items: &Vec<Exp>, env: &mut Env, fuel: u64) -> (r: Result<Exp, LispError>)
    ensures
        (result_view(r), final(env).view()) == eval_define_spec(
            exps_view(items@),
            old(env).view(),
            fuel as nat,
        ),
    decreases fuel, items, 1int,
{
    proof {
        lemma_exps_view(items@);
    }
    if items.len() < 3 {
        return Err(LispError::ArityError);
    }
    match &items[1] {
        Exp::List(header) => {
            proof {
                lemma_exps_view(header@);
            }
            if header.len() == 0 {
                return Err(LispError::MalformedForm);
            }
            match &header[0] {
                Exp::Atom(Atom::Symbol(name)) => {
                    let params = copy_from(header, 1);
                    let body = copy_from(items, 2);
                    let captured = env.duplicate();
                    env.insert(name.clone(), Exp::FuncDef { params, body, env: captured });
                    Ok(Exp::Atom(Atom::Symbol(name.clone())))
                },
                _ => Err(LispError::MalformedForm),
            }
        },
        Exp::Atom(Atom::Symbol(name)) => {
            if items.len() != 3 {
                return Err(LispError::ArityError);
            }
            match evaluate(&items[2], env, fuel) {
                Ok(v) => {
                    env.insert(name.clone(), v.duplicate());
                    Ok(v)
                },
                Err(f) => Err(f),
            }
        },
        _ => Err(LispError::MalformedForm),
    }
}

fn eval_if(items: &Vec<Exp>, env: &mut Env, fuel: u64) -> (r: Result<Exp, LispError>)
    ensures
        (result_view(r), final(env).view()) == eval_if_spec(
            exps_view(items@),
            old(env).view(),
            fuel as nat,
        ),
    decreases fuel, items, 1int,
{
    proof {
        lemma_exps_view(items@);
    }
    if items.len() != 4 {
        return Err(LispError::ArityError);
    }
    match evaluate(&items[1], env, fuel) {
        Ok(Exp::Bool(true)) => evaluate(&items[2], env, fuel),
        Ok(Exp::Bool(false)) => evaluate(&items[3], env, fuel),
        Ok(_) => Err(LispError::TypeError),
        Err(f) => Err(f),
    }
}

/// Evaluates `items[1..]` left to right.
fn eval_args(items: &Vec<Exp>, env: &mut Env, fuel: u64) -> (r: Result<Vec<Exp>, LispError>)
    requires
        items@.len() >= 1,
    ensures
        (seq_result_view(r), final(env).view()) == eval_seq_spec(
            exps_view(items@).subrange(1, items@.len() as int),
            old(env).view(),
            fuel as nat,
        ),
    decreases fuel, items, 0int,
{
    let ghost vs = exps_view(items@);
    let ghost rest = vs.subrange(1, items@.len() as int);
    let ghost env0 = env.view();
    proof {
        lemma_exps_view(items@);
        assert(vs.subrange(1, 1) =~= Seq::<Val>::empty());
    }
    let mut out: Vec<Exp> = Vec::new();
    let mut i: usize = 1;
    proof {
        assert(exps_view(out@) =~= Seq::<Val>::empty());
    }
    while i < items.len()
        invariant
            1 <= i <= items@.len(),
            env0 == old(env).view(),
            vs == exps_view(items@),
            vs.len() == items@.len(),
            rest == vs.subrange(1, items@.len() as int),
            forall|j: int| 0 <= j < items@.len() ==> #[trigger] vs[j] == items@[j].view(),
            eval_seq_spec(vs.subrange(1, i as int), env0, fuel as nat) == (
                Ok::<Seq<Val>, Fault>(exps_view(out@)),
                env.view(),
            ),
        decreases items@.len() - i,
    {
        let ghost pre = vs.subrange(1, i + 1);
        proof {
            assert(pre.subrange(0, pre.len() - 1) =~= vs.subrange(1, i as int));
            assert(pre[pre.len() - 1] == items@[i as int].view());
            assert(rest.take(i as int) =~= pre);
        }
        let ghost env_before = env.view();
        match evaluate(&items[i], env, fuel) {
            Ok(v) => {
                let ghost before = out@;
                out.push(v);
                proof {
                    lemma_exps_view(before);
                    lemma_exps_view(out@);
                    assert(exps_view(out@) =~= exps_view(before).push(v.view()));
                }
            },
            Err(f) => {
                proof {
                    assert(eval_seq_spec(pre.subrange(0, pre.len() - 1), env0, fuel as nat) == (
                        Ok::<Seq<Val>, Fault>(exps_view(out@)),
                        env_before,
                    ));
                    assert(eval_seq_spec(pre, env0, fuel as nat) == (
                        Err::<Seq<Val>, Fault>(f.view()),
                        env.view(),
                    ));
                    lemma_eval_seq_error_stays(rest, env0, fuel as nat, i as int);
                }
                return Err(f);
            },
        }
        i = i + 1;
    }
    proof {
        assert(vs.subrange(1, i as int) =~= rest);
    }
    Ok(out)
}

/// Evaluates a procedure body; the last value is the result.
fn eval_body(body: &Vec<Exp>, env: &mut Env, fuel: u64) -> (r: Result<Exp, LispError>)
    ensures
        (result_view(r), final(env).view()) == eval_body_spec(
            exps_view(body@),
            old(env).view(),
            fuel as nat,
        ),
    decreases fuel, body, 0int,
{
    let ghost vs = exps_view(body@);
    let ghost env0 = env.view();
    proof {
        lemma_exps_view(body@);
        assert(vs.take(0) =~= Seq::<Val>::empty());
    }
    let mut last = Exp::Bool(false);
    let mut i: usize = 0;
    while i < body.len()
        invariant
            i <= body@.len(),
            env0 == old(env).view(),
            vs == exps_view(body@),
            vs.len() == body@.len(),
            forall|j: int| 0 <= j < body@.len() ==> #[trigger] vs[j] == body@[j].view(),
            eval_body_spec(vs.take(i as int), env0, fuel as nat) == (
                Ok::<Val, Fault>(last.view()),
                env.view(),
            ),
        decreases body@.len() - i,
    {
        let ghost pre = vs.take(i + 1);
        proof {
            assert(pre.subrange(0, pre.len() - 1) =~= vs.take(i as int));
            assert(pre[pre.len() - 1] == body@[i as int].view());
        }
        let ghost env_before = env.view();
        match evaluate(&body[i], env, fuel) {
            Ok(v) => {
                last = v;
            },
            Err(f) => {
                proof {
                    assert(eval_body_spec(pre.subrange(0, pre.len() - 1), env0, fuel as nat) == (
                        Ok::<Val, Fault>(last.view()),
                        env_before,
                    ));
                    assert(eval_body_spec(pre, env0, fuel as nat) == (
                        Err::<Val, Fault>(f.view()),
                        env.view(),
                    ));
                    lemma_eval_body_error_stays(vs, env0, fuel as nat, i + 1);
                }
                return Err(f);
            },
        }
        i = i + 1;
    }
    proof {
        assert(vs.take(i as int) =~= vs);
    }
    Ok(last)
}

/// Binds each parameter to the argument at its position.
fn bind_params(params: &Vec<Exp>, args: &Vec<Exp>, env: &mut Env) -> (r: Result<(), LispError>)
    ensures
        match r {
            Ok(_) => bind_params_spec(exps_view(params@), exps_view(args@), old(env).view())
                == Ok::<Bindings, Fault>(final(env).view()),
            Err(f) => bind_params_spec(exps_view(params@), exps_view(args@), old(env).view())
                == Err::<Bindings, Fault>(f.view()),
        },
{
    let ghost ps = exps_view(params@);
    let ghost avs = exps_view(args@);
    let ghost env0 = env.view();
    proof {
        lemma_exps_view(params@);
        lemma_exps_view(args@);
    }
    if params.len() != args.len() {
        return Err(LispError::ArityError);
    }
    proof {
        assert(ps.take(0) =~= Seq::<Val>::empty());
        assert(avs.take(0) =~= Seq::<Val>::empty());
    }
    let mut i: usize = 0;
    while i < params.len()
        invariant
            i <= params@.len(),
            params@.len() == args@.len(),
            env0 == old(env).view(),
            ps == exps_view(params@),
            avs == exps_view(args@),
            ps.len() == params@.len(),
            avs.len() == args@.len(),
            forall|j: int| 0 <= j < params@.len() ==> #[trigger] ps[j] == params@[j].view(),
            forall|j: int| 0 <= j < args@.len() ==> #[trigger] avs[j] == args@[j].view(),
            bind_params_spec(ps.take(i as int), avs.take(i as int), env0) == Ok::<
                Bindings,
                Fault,
            >(env.view()),
        decreases params@.len() - i,
    {
        proof {
            assert(ps.take(i + 1).drop_last() =~= ps.take(i as int));
            assert(avs.take(i + 1).drop_last() =~= avs.take(i as int));
            assert(ps.take(i + 1).last() == params@[i as int].view());
            assert(avs.take(i + 1).last() == args@[i as int].view());
        }
        match &params[i] {
            Exp::Atom(Atom::Symbol(k)) => {
                env.insert(k.clone(), args[i].duplicate());
            },
            _ => {
                proof {
                    lemma_bind_params_error_stays(ps, avs, env0, i + 1);
                }
                return Err(LispError::MalformedForm);
            },
        }
        i = i + 1;
    }
    proof {
        assert(ps.take(i as int) =~= ps);
        assert(avs.take(i as int) =~= avs);
    }
    Ok(())
}

fn eval_call(name: &String, items: &Vec<Exp>, env: &mut Env, fuel: u64) -> (r: Result<
    Exp,
    LispError,
>)
    requires
        items@.len() >= 1,
    ensures
        (result_view(r), final(env).view()) == eval_call_spec(
            name@,
            exps_view(items@).subrange(1, items@.len() as int),
            old(env).view(),
            fuel as nat,
        ),
    decreases fuel, items, 1int,
{
    let callee = match env.get(name.as_str()) {
        Some(e) => Some(e.duplicate()),
        None => None,
    };
    match callee {
        Some(Exp::Func(p)) => match eval_args(items, env, fuel) {
            Ok(args) => apply(p, args.as_slice()),
            Err(f) => Err(f),
        },
        Some(Exp::FuncDef { params, body, env: captured }) => {
            let mut scratch = env.duplicate();
            let args = match eval_args(items, &mut scratch, fuel) {
                Ok(a) => a,
                Err(f) => {
                    return Err(f);
                },
            };
            if fuel == 0 {
                return Err(LispError::DepthExceeded);
            }
            let mut local = captured;
            match bind_params(&params, &args, &mut local) {
                Ok(_) => {},
                Err(f) => {
                    return Err(f);
                },
            }
            eval_body(&body, &mut local, fuel - 1)
        },
        _ => Err(LispError::UndefinedFunction(name.clone())),
    }
}

/// Evaluates `exp` in `env`. Calls of user-defined procedures may nest at most
/// `MAX_DEPTH` deep; deeper ones fail with `DepthExceeded`.
pub fn eval(exp: &Exp, env: &mut Env) -> (r: Result<Exp, LispError>)
    ensures
        (result_view(r), final(env).view()) == eval_spec(
            exp.view(),
            old(env).view(),
            MAX_DEPTH as nat,
        ),
{
    evaluate(exp, env, MAX_DEPTH)
}

/// Parses the first expression of `input` and evaluates it in `env`. A parse
/// error leaves `env` as it was.
pub fn parse_eval(input: String, env: &mut Env) -> (r: Result<Exp, LispError>)
    ensures
        match parse_text(input@) {
            Ok(e) => (result_view(r), final(env).view()) == eval_spec(
                e,
                old(env).view(),
                MAX_DEPTH as nat,
            ),
            Err(f) => r matches Err(g) && g.view() == f && final(env).view() == old(env).view(),
        },
{
    match parse(input) {
        Ok(e) => eval(&e, env),
        Err(f) => Err(f),
    }
}

/// An environment holding `+ - * / = > < >= <=` and `pi`.
pub fn standard_env() -> (r: Env)
    ensures
        r.view() == standard_bindings(),
{
    proof {
        reveal_strlit("+");
        reveal_strlit("-");
        reveal_strlit("*");
        reveal_strlit("/");
        reveal_strlit("pi");
        reveal_strlit("=");
        reveal_strlit(">");
        reveal_strlit("<");
        reveal_strlit(">=");
        reveal_strlit("<=");
        assert("+"@ =~= seq!['+']);
        assert("-"@ =~= seq!['-']);
        assert("*"@ =~= seq!['*']);
        assert("/"@ =~= seq!['/']);
        assert("pi"@ =~= seq!['p', 'i']);
        assert("="@ =~= seq!['=']);
        assert(">"@ =~= seq!['>']);
        assert("<"@ =~= seq!['<']);
        assert(">="@ =~= seq!['>', '=']);
        assert("<="@ =~= seq!['<', '=']);
        Number::lemma_from_ratio_fits(PI_NUMERATOR as int, PI_DENOMINATOR as int);
    }
    let mut env = Env::new();
    env.insert("+".to_owned(), Exp::Func(Primitive::Add));
    env.insert("-".to_owned(), Exp::Func(Primitive::Subtract));
    env.insert("*".to_owned(), Exp::Func(Primitive::Multiply));
    env.insert("/".to_owned(), Exp::Func(Primitive::Divide));
    let pi = Number::ratio(PI_NUMERATOR, PI_DENOMINATOR).unwrap();
    env.insert("pi".to_owned(), Exp::Atom(Atom::Number(pi)));
    env.insert("=".to_owned(), Exp::Func(Primitive::Compare(Comparison::Equal)));
    env.insert(">".to_owned(), Exp::Func(Primitive::Compare(Comparison::Greater)));
    env.insert("<".to_owned(), Exp::Func(Primitive::Compare(Comparison::Less)));
    env.insert(">=".to_owned(), Exp::Func(Primitive::Compare(Comparison::GreaterEqual)));
    env.insert("<=".to_owned(), Exp::Func(Primitive::Compare(Comparison::LessEqual)));
    env
}

} // verus!
