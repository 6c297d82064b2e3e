use vstd::prelude::*;

use crate::number::Number;
use crate::text::same_text;

verus! {

/// A built-in comparison of two numbers.
#[derive(Clone, Copy, Debug, PartialEq, Eq, Structural)]
pub enum Comparison {
    Equal,
    Greater,
    Less,
    GreaterEqual,
    LessEqual,
}

/// A built-in procedure of the standard environment.
#[derive(Clone, Copy, Debug, PartialEq, Eq, Structural)]
pub enum Primitive {
    Add,
    Subtract,
    Multiply,
    Divide,
    Compare(Comparison),
}

/// An atomic expression.
#[derive(Clone, Debug, PartialEq)]
pub enum Atom {
    Symbol(String),
    Number(Number),
}

/// An expression, and also what evaluating one produces.
#[derive(Debug, PartialEq)]
pub enum Exp {
    Bool(bool),
    Atom(Atom),
    List(Vec<Exp>),
    /// A built-in procedure.
    Func(Primitive),
    /// A user-defined procedure with the environment it was defined in.
    FuncDef { params: Vec<Exp>, body: Vec<Exp>, env: Env },
}

/// Bindings from symbol names to values, in the order the names were first bound.
#[derive(Debug, PartialEq)]
pub struct Env {
    data: Vec<(String, Exp)>,
}

/// The mathematical value of an expression.
pub enum Val {
    Bool(bool),
    Num(Number),
    Sym(Seq<char>),
    List(Seq<Val>),
    Prim(Primitive),
    Closure { params: Seq<Val>, body: Seq<Val>, env: Seq<(Seq<char>, Val)> },
}

/// The mathematical value of an environment: its bindings in order.
pub type Bindings = Seq<(Seq<char>, Val)>;

/// What can go wrong while reading or evaluating.
#[derive(Clone, Debug, PartialEq)]
pub enum LispError {
    /// The input ended inside a list, or held no expression at all.
    UnexpectedEof,
    /// A `)` stood where an expression was expected.
    UnexpectedCloseParen,
    /// An empty list, or a `define` or a parameter list of the wrong shape.
    MalformedForm,
    UndefinedSymbol(String),
    UndefinedFunction(String),
    /// A special form or a procedure got the wrong number of arguments.
    ArityError,
    /// A value of the wrong kind: a non-number given to arithmetic, a
    /// non-boolean condition, or a call of something that is not a procedure.
    TypeError,
    DivisionByZero,
    /// An arithmetic result whose reduced numerator or denominator does not fit in 64 bits.
    NumberOutOfRange,
    /// Calls of user-defined procedures nested deeper than the evaluator allows.
    DepthExceeded,
}

/// The mathematical value of an error.
pub enum Fault {
    UnexpectedEof,
    UnexpectedCloseParen,
    MalformedForm,
    UndefinedSymbol(Seq<char>),
    UndefinedFunction(Seq<char>),
    ArityError,
    TypeError,
    DivisionByZero,
    NumberOutOfRange,
    DepthExceeded,
}

impl LispError {
    pub open spec fn view(self) -> Fault {
        match self {
            LispError::UnexpectedEof => Fault::UnexpectedEof,
            LispError::UnexpectedCloseParen => Fault::UnexpectedCloseParen,
            LispError::MalformedForm => Fault::MalformedForm,
            LispError::UndefinedSymbol(s) => Fault::UndefinedSymbol(s@),
            LispError::UndefinedFunction(s) => Fault::UndefinedFunction(s@),
            LispError::ArityError => Fault::ArityError,
            LispError::TypeError => Fault::TypeError,
            LispError::DivisionByZero => Fault::DivisionByZero,
            LispError::NumberOutOfRange => Fault::NumberOutOfRange,
            LispError::DepthExceeded => Fault::DepthExceeded,
        }
    }
}

/// The value of a result of reading or evaluating.
pub open spec fn result_view(r: Result<Exp, LispError>) -> Result<Val, Fault> {
    match r {
        Ok(e) => Ok(e.view()),
        Err(f) => Err(f.view()),
    }
}

pub open spec fn exps_view(s: Seq<Exp>) -> Seq<Val>
    decreases s,
{
    if s.len() == 0 {
        Seq::empty()
    } else {
        exps_view(s.subrange(0, s.len() - 1)).push(s[s.len() - 1].view())
    }
}

impl Exp {
    pub open spec fn view(self) -> Val
        decreases self,
    {
        match self {
            Exp::Bool(b) => Val::Bool(b),
            Exp::Atom(Atom::Symbol(s)) => Val::Sym(s@),
            Exp::Atom(Atom::Number(n)) => Val::Num(n),
            Exp::List(v) => Val::List(exps_view(v@)),
            Exp::Func(p) => Val::Prim(p),
            Exp::FuncDef { params, body, env } => Val::Closure {
                params: exps_view(params@),
                body: exps_view(body@),
                env: env.view(),
            },
        }
    }
}

pub closed spec fn bindings_view(s: Seq<(String, Exp)>) -> Bindings
    decreases s,
{
    if s.len() == 0 {
        Seq::empty()
    } else {
        bindings_view(s.subrange(0, s.len() - 1)).push(
            (s[s.len() - 1].0@, s[s.len() - 1].1.view()),
        )
    }
}

impl Env {
    pub closed spec fn view(self) -> Bindings
        decreases self,
    {
        bindings_view(self.data@)
    }
}

/// The value bound to `k`, if any.
pub open spec fn lookup(env: Bindings, k: Seq<char>) -> Option<Val>
    decreases env.len(),
{
    if env.len() == 0 {
        None
    } else if env.last().0 == k {
        Some(env.last().1)
    } else {
        lookup(env.drop_last(), k)
    }
}

/// Where `k` is bound, if it is.
pub open spec fn position(env: Bindings, k: Seq<char>) -> Option<int>
    decreases env.len(),
{
    if env.len() == 0 {
        None
    } else if env.last().0 == k {
        Some(env.len() - 1)
    } else {
        position(env.drop_last(), k)
    }
}

/// `env` with `k` bound to `v`: an earlier binding of `k` is replaced in place,
/// otherwise the binding is added at the end.
pub open spec fn bind(env: Bindings, k: Seq<char>, v: Val) -> Bindings {
    match position(env, k) {
        Some(i) => env.update(i, (k, v)),
        None => env.push((k, v)),
    }
}

pub proof fn lemma_position(env: Bindings, k: Seq<char>)
    ensures
        match position(env, k) {
            Some(i) => 0 <= i < env.len() && env[i].0 == k && lookup(env, k) == Some(env[i].1),
            None => lookup(env, k) is None,
        },
    decreases env.len(),
{
    if env.len() > 0 && env.last().0 != k {
        lemma_position(env.drop_last(), k);
    }
}

pub proof fn lemma_exps_view(s: Seq<Exp>)
    ensures
        exps_view(s).len() == s.len(),
        forall|i: int| 0 <= i < s.len() ==> #[trigger] exps_view(s)[i] == s[i].view(),
    decreases s.len(),
{
    if s.len() > 0 {
        let t = s.subrange(0, s.len() - 1);
        lemma_exps_view(t);
        assert forall|i: int| 0 <= i < s.len() implies #[trigger] exps_view(s)[i] == s[i].view() by {
            if i < s.len() - 1 {
                assert(t[i] == s[i]);
            }
        }
    }
}

/// Two sequences whose items have the same values have the same value.
pub proof fn lemma_exps_view_ext(a: Seq<Exp>, b: Seq<Exp>)
    requires
        a.len() == b.len(),
        forall|i: int| 0 <= i < a.len() ==> #[trigger] a[i].view() == b[i].view(),
    ensures
        exps_view(a) == exps_view(b),
{
    lemma_exps_view(a);
    lemma_exps_view(b);
    assert(exps_view(a) =~= exps_view(b));
}

proof fn lemma_bindings_view(s: Seq<(String, Exp)>)
    ensures
        bindings_view(s).len() == s.len(),
        forall|i: int|
            0 <= i < s.len() ==> #[trigger] bindings_view(s)[i] == (s[i].0@, s[i].1.view()),
    decreases s.len(),
{
    if s.len() > 0 {
        let t = s.subrange(0, s.len() - 1);
        lemma_bindings_view(t);
        assert forall|i: int| 0 <= i < s.len() implies #[trigger] bindings_view(s)[i] == (
            s[i].0@,
            s[i].1.view(),
        ) by {
            if i < s.len() - 1 {
                assert(t[i] == s[i]);
            }
        }
    }
}

fn duplicate_all(v: &Vec<Exp>) -> (r: Vec<Exp>)
    ensures
        exps_view(r@) == exps_view(v@),
    decreases v,
{
    let mut r: Vec<Exp> = Vec::new();
    let mut i: usize = 0;
    while i < v.len()
        invariant
            i <= v.len(),
            r@.len() == i,
            forall|j: int| 0 <= j < i ==> #[trigger] r@[j].view() == v@[j].view(),
        decreases v.len() - i,
    {
        assert(decreases_to!(v => v@[i as int]));
        r.push(v[i].duplicate());
        i = i + 1;
    }
    proof {
        lemma_exps_view_ext(r@, v@);
    }
    r
}

impl Exp {
    /// A copy of the expression with the same value.
    pub fn duplicate(&self) -> (r: Exp)
        ensures
            r.view() == self.view(),
        decreases self,
    {
        match self {
            Exp::Bool(b) => Exp::Bool(*b),
            Exp::Atom(Atom::Symbol(s)) => Exp::Atom(Atom::Symbol(s.clone())),
            Exp::Atom(Atom::Number(n)) => Exp::Atom(Atom::Number(*n)),
            Exp::List(v) => Exp::List(duplicate_all(v)),
            Exp::Func(p) => Exp::Func(*p),
            Exp::FuncDef { params, body, env } => Exp::FuncDef {
                params: duplicate_all(params),
                body: duplicate_all(body),
                env: env.duplicate(),
            },
        }
    }
}

impl Env {
    pub fn new() -> (r: Env)
        ensures
            r.view() == Seq::<(Seq<char>, Val)>::empty(),
    {
        Env { data: Vec::new() }
    }

    /// A copy of the environment with the same bindings.
    pub fn duplicate(&self) -> (r: Env)
        ensures
            r.view() == self.view(),
        decreases self,
    {
        let mut data: Vec<(String, Exp)> = Vec::new();
        let mut i: usize = 0;
        while i < self.data.len()
            invariant
                i <= self.data.len(),
                data@.len() == i,
                forall|j: int|
                    0 <= j < i ==> #[trigger] data@[j].0@ == self.data@[j].0@ && data@[j].1.view()
                        == self.data@[j].1.view(),
            decreases self.data.len() - i,
        {
            assert(decreases_to!(self => self.data@[i as int].1));
            let (k, v) = (&self.data[i].0, &self.data[i].1);
            data.push((k.clone(), v.duplicate()));
            i = i + 1;
        }
        proof {
            lemma_bindings_view(data@);
            lemma_bindings_view(self.data@);
            assert(bindings_view(data@) =~= bindings_view(self.data@));
        }
        Env { data }
    }

    fn find(&self, k: &str) -> (r: Option<usize>)
        ensures
            r matches Some(i) ==> i < self.data@.len(),
            position(self.view(), k@) == match r {
                Some(i) => Some(i as int),
                None => None::<int>,
            },
    {
        proof {
            lemma_bindings_view(self.data@);
        }
        let mut i = self.data.len();
        proof {
            assert(self.view().subrange(0, i as int) =~= self.view());
        }
        while i > 0
            invariant
                i <= self.data@.len(),
                self.view().len() == self.data@.len(),
                forall|j: int|
                    0 <= j < self.data@.len() ==> #[trigger] self.view()[j] == (
                        self.data@[j].0@,
                        self.data@[j].1.view(),
                    ),
                position(self.view(), k@) == position(self.view().subrange(0, i as int), k@),
            decreases i,
        {
            proof {
                assert(self.view().subrange(0, i as int).drop_last() =~= self.view().subrange(
                    0,
                    i - 1,
                ));
            }
            i = i - 1;
            if same_text(self.data[i].0.as_str(), k) {
                return Some(i);
            }
        }
        None
    }

    /// The value bound to `k`.
    pub fn get(&self, k: &str) -> (r: Option<&Exp>)
        ensures
            match r {
                Some(e) => lookup(self.view(), k@) == Some(e.view()),
                None => lookup(self.view(), k@) is None,
            },
    {
        proof {
            lemma_bindings_view(self.data@);
            lemma_position(self.view(), k@);
        }
        match self.find(k) {
            Some(i) => Some(&self.data[i].1),
            None => None,
        }
    }

    /// Binds `k` to `v`, replacing an earlier binding of `k`.
    pub fn insert(&mut self, k: String, v: Exp)
        ensures
            final(self).view() == bind(old(self).view(), k@, v.view()),
    {
        proof {
            lemma_bindings_view(self.data@);
            lemma_position(self.view(), k@);
        }
        let ghost kv = k@;
        let ghost vv = v.view();
        match self.find(k.as_str()) {
            Some(i) => {
                self.data.set(i, (k, v));
            },
            None => {
                self.data.push((k, v));
            },
        }
        proof {
            lemma_bindings_view(self.data@);
            assert(self.view() =~= bind(old(self).view(), kv, vv));
        }
    }
}

} // verus!
