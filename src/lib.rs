//! An interpreter for a small Lisp: a tokenizer, a reader that builds an
//! expression tree, and an evaluator with environments, user-defined
//! procedures, conditionals and exact rational arithmetic. Each stage is
//! specified by a mathematical model (`semantics`, `reader::read`,
//! `lexer::tokens`) that the executable code is proved to follow.
pub mod eval;
pub mod laws;
pub mod lexer;
pub mod number;
pub mod primitives;
pub mod reader;
pub mod render;
pub mod round_trip;
pub mod semantics;
pub mod text;
pub mod value;

pub use eval::{eval, parse_eval, standard_env, MAX_DEPTH};
pub use lexer::tokenize;
pub use number::Number;
pub use primitives::{add, compare, divide, multiply, subtract};
pub use reader::parse;
pub use value::{Atom, Comparison, Env, Exp, LispError, Primitive};
