use vstd::prelude::*;

use crate::number::Number;
use crate::value::{exps_view, lemma_exps_view, Atom, Comparison, Exp, Fault, LispError, Primitive, Val, result_view};

verus! {

/// An arithmetic result, or the failure of one that does not fit.
pub open spec fn in_range(r: Option<Number>) -> Result<Number, Fault> {
    match r {
        Some(n) => Ok(n),
        None => Err(Fault::NumberOutOfRange),
    }
}

/// One step of an arithmetic fold: `acc` combined with the argument `n`.
pub open spec fn arith(op: Primitive, acc: Number, n: Number) -> Result<Number, Fault> {
    match op {
        Primitive::Add => in_range(Number::sum(acc, n)),
        Primitive::Subtract => in_range(Number::difference(acc, n)),
        Primitive::Multiply => in_range(Number::product(acc, n)),
        Primitive::Divide => if n.is_zero() {
            Err(Fault::DivisionByZero)
        } else {
            in_range(Number::quotient(acc, n))
        },
        Primitive::Compare(_) => Err(Fault::TypeError),
    }
}

/// Folds `op` over `args` from the left, starting at `seed`; the first
/// argument that is not a number, or the first step that fails, ends it.
pub open spec fn fold_numbers(op: Primitive, seed: Number, args: Seq<Val>) -> Result<Number, Fault>
    decreases args.len(),
{
    if args.len() == 0 {
        Ok(seed)
    } else {
        match fold_numbers(op, seed, args.drop_last()) {
            Err(f) => Err(f),
            Ok(acc) => match args.last() {
                Val::Num(n) => arith(op, acc, n),
                _ => Err(Fault::TypeError),
            },
        }
    }
}

pub open spec fn number_result(r: Result<Number, Fault>) -> Result<Val, Fault> {
    match r {
        Ok(n) => Ok(Val::Num(n)),
        Err(f) => Err(f),
    }
}

/// What a comparison says of two numbers, given their order (-1, 0 or 1).
pub open spec fn holds(c: Comparison, order: int) -> bool {
    match c {
        Comparison::Equal => order == 0,
        Comparison::Greater => order > 0,
        Comparison::Less => order < 0,
        Comparison::GreaterEqual => order >= 0,
        Comparison::LessEqual => order <= 0,
    }
}

/// What applying a primitive to already evaluated arguments gives.
pub open spec fn apply_primitive(p: Primitive, args: Seq<Val>) -> Result<Val, Fault> {
    match p {
        Primitive::Add => number_result(fold_numbers(p, Number::integer(0)->0, args)),
        Primitive::Multiply => number_result(fold_numbers(p, Number::integer(1)->0, args)),
        Primitive::Subtract | Primitive::Divide => if args.len() == 0 {
            Err(Fault::ArityError)
        } else {
            match args[0] {
                Val::Num(n) => number_result(fold_numbers(p, n, args.drop_first())),
                _ => Err(Fault::TypeError),
            }
        },
        Primitive::Compare(c) => if args.len() != 2 {
            Err(Fault::ArityError)
        } else {
            match (args[0], args[1]) {
                (Val::Num(a), Val::Num(b)) => Ok(Val::Bool(holds(c, Number::cmp_spec(a, b)))),
                _ => Err(Fault::TypeError),
            }
        },
    }
}

/// No fold of `/` succeeds past a zero divisor.
pub proof fn lemma_zero_divisor_fails(seed: Number, args: Seq<Val>, i: int)
    requires
        0 <= i < args.len(),
        args[i] matches Val::Num(n) && n.is_zero(),
    ensures
        fold_numbers(Primitive::Divide, seed, args) is Err,
    decreases args.len(),
{
    if i < args.len() - 1 {
        lemma_zero_divisor_fails(seed, args.drop_last(), i);
    }
}

/// Division never yields a number when any divisor is zero, and a zero first
/// divisor fails with `DivisionByZero` whatever follows it.
pub proof fn lemma_division_by_zero(args: Seq<Val>, i: int)
    requires
        1 <= i < args.len(),
        args[i] matches Val::Num(n) && n.is_zero(),
    ensures
        apply_primitive(Primitive::Divide, args) is Err,
        i == 1 && args[0] is Num ==> apply_primitive(Primitive::Divide, args) == Err::<Val, Fault>(
            Fault::DivisionByZero,
        ),
{
    if args[0] is Num {
        lemma_zero_divisor_fails(args[0]->Num_0, args.drop_first(), i - 1);
        if i == 1 {
            let rest = args.drop_first();
            assert(rest.take(1).drop_last() =~= Seq::<Val>::empty());
            assert(rest.take(1).last() == args[1]);
            assert(fold_numbers(Primitive::Divide, args[0]->Num_0, rest.take(1).drop_last()) == Ok::<Number, Fault>(args[0]->Num_0));
            assert(fold_numbers(Primitive::Divide, args[0]->Num_0, rest.take(1)) == Err::<Number, Fault>(Fault::DivisionByZero));
            lemma_fold_error_stays(Primitive::Divide, args[0]->Num_0, rest, 1);
        }
    }
}

fn step(op: Primitive, acc: Number, n: Number) -> (r: Result<Number, LispError>)
    ensures
        match r {
            Ok(x) => arith(op, acc, n) == Ok::<Number, Fault>(x),
            Err(f) => arith(op, acc, n) == Err::<Number, Fault>(f.view()),
        },
{
    let r = match op {
        Primitive::Add => acc.checked_add(&n),
        Primitive::Subtract => acc.checked_sub(&n),
        Primitive::Multiply => acc.checked_mul(&n),
        Primitive::Divide => {
            if n.equals_zero() {
                return Err(LispError::DivisionByZero);
            }
            acc.checked_div(&n)
        },
        Primitive::Compare(_) => {
            return Err(LispError::TypeError);
        },
    };
    match r {
        Some(x) => Ok(x),
        None => Err(LispError::NumberOutOfRange),
    }
}

/// Folds `op` over `args[from..]`, starting at `seed`.
fn fold(op: Primitive, seed: Number, args: &[Exp], from: usize) -> (r: Result<Number, LispError>)
    requires
        from <= args@.len(),
    ensures
        match r {
            Ok(x) => fold_numbers(op, seed, exps_view(args@).subrange(from as int, args@.len() as int))
                == Ok::<Number, Fault>(x),
            Err(f) => fold_numbers(op, seed, exps_view(args@).subrange(from as int, args@.len() as int))
                == Err::<Number, Fault>(f.view()),
        },
{
    let ghost vs = exps_view(args@);
    proof {
        lemma_exps_view(args@);
        assert(vs.subrange(from as int, from as int) =~= Seq::<Val>::empty());
    }
    let mut acc = seed;
    let mut i = from;
    while i < args.len()
        invariant
            from <= i <= args@.len(),
            vs == exps_view(args@),
            vs.len() == args@.len(),
            forall|j: int| 0 <= j < args@.len() ==> #[trigger] vs[j] == args@[j].view(),
            fold_numbers(op, seed, vs.subrange(from as int, i as int)) == Ok::<Number, Fault>(acc),
        decreases args@.len() - i,
    {
        let ghost pre = vs.subrange(from as int, i + 1);
        proof {
            assert(pre.drop_last() =~= vs.subrange(from as int, i as int));
            assert(pre.last() == args@[i as int].view());
            assert(vs.subrange(from as int, args@.len() as int).take(i - from + 1) =~= pre);
        }
        match &args[i] {
            Exp::Atom(Atom::Number(n)) => {
                match step(op, acc, *n) {
                    Ok(x) => {
                        acc = x;
                    },
                    Err(f) => {
                        proof {
                            lemma_fold_error_stays(op, seed, vs.subrange(from as int, args@.len() as int), (i - from + 1) as int);
                        }
                        return Err(f);
                    },
                }
            },
            _ => {
                proof {
                    lemma_fold_error_stays(op, seed, vs.subrange(from as int, args@.len() as int), (i - from + 1) as int);
                }
                return Err(LispError::TypeError);
            },
        }
        i = i + 1;
    }
    proof {
        assert(vs.subrange(from as int, i as int) =~= vs.subrange(from as int, args@.len() as int));
    }
    Ok(acc)
}

/// Once a prefix of the arguments fails, the whole fold fails the same way.
proof fn lemma_fold_error_stays(op: Primitive, seed: Number, args: Seq<Val>, k: int)
    requires
        0 <= k <= args.len(),
        fold_numbers(op, seed, args.take(k)) is Err,
    ensures
        fold_numbers(op, seed, args) == fold_numbers(op, seed, args.take(k)),
    decreases args.len(),
{
    if k < args.len() {
        assert(args.drop_last().take(k) =~= args.take(k));
        lemma_fold_error_stays(op, seed, args.drop_last(), k);
    } else {
        assert(args.take(k) =~= args);
    }
}

fn fold_result(r: Result<Number, LispError>) -> (e: Result<Exp, LispError>)
    ensures
        result_view(e) == number_result(
            match r {
                Ok(x) => Ok::<Number, Fault>(x),
                Err(f) => Err::<Number, Fault>(f.view()),
            },
        ),
{
    match r {
        Ok(x) => Ok(Exp::Atom(Atom::Number(x))),
        Err(f) => Err(f),
    }
}

/// The sum of the arguments, from 0.
pub fn add(args: &[Exp]) -> (r: Result<Exp, LispError>)
    ensures
        result_view(r) == apply_primitive(Primitive::Add, exps_view(args@)),
{
    proof {
        lemma_exps_view(args@);
        assert(exps_view(args@).subrange(0, args@.len() as int) =~= exps_view(args@));
    }
    fold_result(fold(Primitive::Add, Number::from_int(0), args, 0))
}

/// The product of the arguments, from 1.
pub fn multiply(args: &[Exp]) -> (r: Result<Exp, LispError>)
    ensures
        result_view(r) == apply_primitive(Primitive::Multiply, exps_view(args@)),
{
    proof {
        lemma_exps_view(args@);
        assert(exps_view(args@).subrange(0, args@.len() as int) =~= exps_view(args@));
    }
    fold_result(fold(Primitive::Multiply, Number::from_int(1), args, 0))
}

/// The first argument, less or divided by each later one in turn.
fn fold_from_first(op: Primitive, args: &[Exp]) -> (r: Result<Exp, LispError>)
    requires
        op == Primitive::Subtract || op == Primitive::Divide,
    ensures
        result_view(r) == apply_primitive(op, exps_view(args@)),
{
    proof {
        lemma_exps_view(args@);
    }
    if args.len() == 0 {
        return Err(LispError::ArityError);
    }
    match &args[0] {
        Exp::Atom(Atom::Number(n)) => {
            proof {
                assert(exps_view(args@).subrange(1, args@.len() as int) =~= exps_view(args@).drop_first());
            }
            fold_result(fold(op, *n, args, 1))
        },
        _ => Err(LispError::TypeError),
    }
}

/// The first argument less each later one; one argument is returned as it is.
pub fn subtract(args: &[Exp]) -> (r: Result<Exp, LispError>)
    ensures
        result_view(r) == apply_primitive(Primitive::Subtract, exps_view(args@)),
{
    fold_from_first(Primitive::Subtract, args)
}

/// The first argument divided by each later one; a zero divisor fails.
pub fn divide(args: &[Exp]) -> (r: Result<Exp, LispError>)
    ensures
        result_view(r) == apply_primitive(Primitive::Divide, exps_view(args@)),
{
    fold_from_first(Primitive::Divide, args)
}

/// Compares exactly two numbers.
pub fn compare(args: &[Exp], op: Comparison) -> (r: Result<Exp, LispError>)
    ensures
        result_view(r) == apply_primitive(Primitive::Compare(op), exps_view(args@)),
{
    proof {
        lemma_exps_view(args@);
    }
    if args.len() != 2 {
        return Err(LispError::ArityError);
    }
    match (&args[0], &args[1]) {
        (Exp::Atom(Atom::Number(a)), Exp::Atom(Atom::Number(b))) => {
            let order = a.compare(b);
            let r = match op {
                Comparison::Equal => order == 0,
                Comparison::Greater => order > 0,
                Comparison::Less => order < 0,
                Comparison::GreaterEqual => order >= 0,
                Comparison::LessEqual => order <= 0,
            };
            Ok(Exp::Bool(r))
        },
        _ => Err(LispError::TypeError),
    }
}

/// Applies a primitive to evaluated arguments.
pub fn apply(p: Primitive, args: &[Exp]) -> (r: Result<Exp, LispError>)
    ensures
        result_view(r) == apply_primitive(p, exps_view(args@)),
{
    match p {
        Primitive::Add => crate::primitives::add(args),
        Primitive::Subtract => subtract(args),
        Primitive::Multiply => multiply(args),
        Primitive::Divide => divide(args),
        Primitive::Compare(c) => compare(args, c),
    }
}

} // verus!
