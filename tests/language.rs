use rustylisp::{
    add, compare, divide, eval, multiply, parse, parse_eval, standard_env, subtract, tokenize,
    Atom, Comparison, Env, Exp, LispError, Number,
};

fn num(n: i64) -> Exp {
    Exp::Atom(Atom::Number(Number::from_int(n)))
}

fn frac(n: i64, d: i64) -> Exp {
    Exp::Atom(Atom::Number(Number::ratio(n, d).unwrap()))
}

fn sym(s: &str) -> Exp {
    Exp::Atom(Atom::Symbol(s.to_string()))
}

fn run(env: &mut Env, input: &str) -> Result<Exp, LispError> {
    parse_eval(input.to_string(), env)
}

#[test]
fn tokenize_empty_and_blank_input() {
    assert!(tokenize(String::new()).is_empty());
    assert!(tokenize(String::from(" \t\n ")).is_empty());
}

#[test]
fn tokenize_splits_parens_without_spaces() {
    assert_eq!(tokenize(String::from("(a(b)c)")), vec!["(", "a", "(", "b", ")", "c", ")"]);
    assert_eq!(tokenize(String::from("  foo\tbar\nbaz ")), vec!["foo", "bar", "baz"]);
}

#[test]
fn parse_reports_end_of_input() {
    assert_eq!(parse(String::new()), Err(LispError::UnexpectedEof));
    assert_eq!(parse(String::from("(+ 1 2")), Err(LispError::UnexpectedEof));
}

#[test]
fn parse_reports_close_paren() {
    assert_eq!(parse(String::from(")")), Err(LispError::UnexpectedCloseParen));
}

#[test]
fn parse_ignores_trailing_tokens() {
    assert_eq!(parse(String::from("1 2 3")), Ok(num(1)));
}

#[test]
fn parse_number_literals() {
    assert_eq!(parse(String::from("2.5")), Ok(frac(5, 2)));
    assert_eq!(parse(String::from("-3")), Ok(num(-3)));
    assert_eq!(parse(String::from("+7")), Ok(num(7)));
    assert_eq!(parse(String::from(".5")), Ok(frac(1, 2)));
    assert_eq!(parse(String::from("4.")), Ok(num(4)));
    assert_eq!(parse(String::from("6/4")), Ok(frac(3, 2)));
    assert_eq!(parse(String::from("10.0")), Ok(num(10)));
}

#[test]
fn parse_non_numbers_are_symbols() {
    assert_eq!(parse(String::from("abc")), Ok(sym("abc")));
    assert_eq!(parse(String::from("-")), Ok(sym("-")));
    assert_eq!(parse(String::from("1/0")), Ok(sym("1/0")));
    assert_eq!(parse(String::from("1.2.3")), Ok(sym("1.2.3")));
    assert_eq!(parse(String::from("99999999999999999999")), Ok(sym("99999999999999999999")));
}

#[test]
fn arithmetic_folds() {
    let env = &mut standard_env();
    assert_eq!(run(env, "(+)"), Ok(num(0)));
    assert_eq!(run(env, "(*)"), Ok(num(1)));
    assert_eq!(run(env, "(- 5)"), Ok(num(5)));
    assert_eq!(run(env, "(/ 1 3)"), Ok(frac(1, 3)));
    assert_eq!(run(env, "(* 3 (/ 1 3))"), Ok(num(1)));
    assert_eq!(run(env, "(+ 0.1 0.2)"), Ok(frac(3, 10)));
}

#[test]
fn subtract_and_divide_need_an_argument() {
    let env = &mut standard_env();
    assert_eq!(run(env, "(-)"), Err(LispError::ArityError));
    assert_eq!(run(env, "(/)"), Err(LispError::ArityError));
}

#[test]
fn division_by_zero_fails() {
    let env = &mut standard_env();
    assert_eq!(run(env, "(/ 1 0)"), Err(LispError::DivisionByZero));
    assert_eq!(run(env, "(/ 0 5 0 2)"), Err(LispError::DivisionByZero));
    assert_eq!(divide(&[num(3), num(0)]), Err(LispError::DivisionByZero));
}

#[test]
fn arithmetic_type_errors() {
    let env = &mut standard_env();
    assert_eq!(run(env, "(+ 1 true)"), Err(LispError::TypeError));
    assert_eq!(run(env, "(< 1 false)"), Err(LispError::TypeError));
}

#[test]
fn overflow_is_reported() {
    let env = &mut standard_env();
    assert_eq!(
        run(env, "(* 9223372036854775807 2)"),
        Err(LispError::NumberOutOfRange)
    );
}

#[test]
fn comparisons_need_two_arguments() {
    let env = &mut standard_env();
    assert_eq!(run(env, "(= 1)"), Err(LispError::ArityError));
    assert_eq!(run(env, "(< 1 2 3)"), Err(LispError::ArityError));
    assert_eq!(run(env, "(< 1 2)"), Ok(Exp::Bool(true)));
    assert_eq!(run(env, "(>= 1 2)"), Ok(Exp::Bool(false)));
    assert_eq!(run(env, "(<= 2 2)"), Ok(Exp::Bool(true)));
    assert_eq!(run(env, "(> 1/2 1/3)"), Ok(Exp::Bool(true)));
}

#[test]
fn primitive_functions_directly() {
    assert_eq!(add(&[num(1), num(2), num(3)]), Ok(num(6)));
    assert_eq!(subtract(&[num(10), num(2), num(3)]), Ok(num(5)));
    assert_eq!(multiply(&[num(1), num(2), num(3)]), Ok(num(6)));
    assert_eq!(divide(&[num(24), num(6), num(2)]), Ok(num(2)));
    assert_eq!(compare(&[num(1), num(1)], Comparison::Equal), Ok(Exp::Bool(true)));
    assert_eq!(compare(&[num(2), num(1)], Comparison::Less), Ok(Exp::Bool(false)));
    assert_eq!(add(&[]), Ok(num(0)));
}

#[test]
fn define_then_lookup() {
    let env = &mut standard_env();
    assert_eq!(run(env, "(define r 10)"), Ok(num(10)));
    assert_eq!(run(env, "r"), Ok(num(10)));
    assert_eq!(env.get("r"), Some(&num(10)));
    assert_eq!(run(env, "(define r 11)"), Ok(num(11)));
    assert_eq!(run(env, "r"), Ok(num(11)));
}

#[test]
fn define_shapes_that_fail() {
    let env = &mut standard_env();
    assert_eq!(run(env, "(define r)"), Err(LispError::ArityError));
    assert_eq!(run(env, "(define r 1 2)"), Err(LispError::ArityError));
    assert_eq!(run(env, "(define 5 1)"), Err(LispError::MalformedForm));
    assert_eq!(run(env, "(define () 1)"), Err(LispError::MalformedForm));
    assert_eq!(run(env, "(define (5 x) 1)"), Err(LispError::MalformedForm));
}

#[test]
fn undefined_symbol_names_it() {
    let env = &mut standard_env();
    assert_eq!(
        run(env, "nothing"),
        Err(LispError::UndefinedSymbol("nothing".to_string()))
    );
}

#[test]
fn undefined_function_names_it() {
    let env = &mut standard_env();
    assert_eq!(
        run(env, "(frob 1)"),
        Err(LispError::UndefinedFunction("frob".to_string()))
    );
    assert_eq!(
        run(env, "(pi 1)"),
        Err(LispError::UndefinedFunction("pi".to_string()))
    );
    assert_eq!(run(env, "(1 2)"), Err(LispError::TypeError));
}

#[test]
fn empty_list_is_malformed() {
    let env = &mut standard_env();
    assert_eq!(run(env, "()"), Err(LispError::MalformedForm));
}

#[test]
fn if_evaluates_one_branch() {
    let env = &mut standard_env();
    assert_eq!(run(env, "(if true 1 undefined)"), Ok(num(1)));
    assert_eq!(run(env, "(if false undefined 2)"), Ok(num(2)));
    assert_eq!(run(env, "(if 1 2 3)"), Err(LispError::TypeError));
    assert_eq!(run(env, "(if true 1)"), Err(LispError::ArityError));
}

#[test]
fn closures_capture_a_snapshot() {
    let env = &mut standard_env();
    run(env, "(define k 1)").unwrap();
    run(env, "(define (f x) (+ x k))").unwrap();
    run(env, "(define k 100)").unwrap();
    assert_eq!(run(env, "(f 1)"), Ok(num(2)));
}

#[test]
fn closure_arity_and_parameters() {
    let env = &mut standard_env();
    run(env, "(define (f x y) (- x y))").unwrap();
    assert_eq!(run(env, "(f 10 4)"), Ok(num(6)));
    assert_eq!(run(env, "(f 1)"), Err(LispError::ArityError));
    run(env, "(define (g 1) 2)").unwrap();
    assert_eq!(run(env, "(g 5)"), Err(LispError::MalformedForm));
}

#[test]
fn closure_body_runs_in_order() {
    let env = &mut standard_env();
    run(env, "(define (f x) (define y (* x 2)) (+ y 1))").unwrap();
    assert_eq!(run(env, "(f 4)"), Ok(num(9)));
    assert_eq!(run(env, "y"), Err(LispError::UndefinedSymbol("y".to_string())));
}

#[test]
fn procedures_evaluate_to_themselves() {
    let env = &mut standard_env();
    let plus = run(env, "+").unwrap();
    assert_eq!(eval(&plus, env).unwrap(), plus);
    assert_eq!(plus.to_text(), "<function>");
}

#[test]
fn pi_is_bound() {
    let env = &mut standard_env();
    let p = run(env, "pi").unwrap();
    assert_eq!(p, frac(884279719003555, 281474976710656));
    assert_eq!(run(env, "(< 3.14159 pi 3.1416)"), Err(LispError::ArityError));
    assert_eq!(run(env, "(< 3.14159 pi)"), Ok(Exp::Bool(true)));
    assert_eq!(run(env, "(< pi 3.1416)"), Ok(Exp::Bool(true)));
}

#[test]
fn text_of_values() {
    assert_eq!(num(6).to_text(), "6");
    assert_eq!(num(-12).to_text(), "-12");
    assert_eq!(frac(-5, 2).to_text(), "-5/2");
    assert_eq!(Exp::Bool(true).to_text(), "true");
    let e = parse(String::from("(a (b 1) () false)")).unwrap();
    assert_eq!(e.to_text(), "(a (b 1) () false)");
}

#[test]
fn text_reads_back() {
    let e = parse(String::from("( x  ( -7/3 2.5 ) true )")).unwrap();
    let again = parse(e.to_text()).unwrap();
    assert_eq!(again, e);
    assert_eq!(e.to_text(), "(x (-7/3 5/2) true)");
}

#[test]
fn number_ratio_reduces() {
    let n = Number::ratio(6, -4);
    assert_eq!(n, None);
    let n = Number::ratio(-6, 4).unwrap();
    assert_eq!(n.numerator(), -3);
    assert_eq!(n.denominator(), 2);
    assert_eq!(Number::from_literal("0.25"), Number::ratio(1, 4));
    assert_eq!(Number::from_literal("x"), None);
}

#[test]
fn parse_error_leaves_env() {
    let env = &mut standard_env();
    assert_eq!(run(env, "(define"), Err(LispError::UnexpectedEof));
    assert_eq!(run(env, "define"), Err(LispError::UndefinedSymbol("define".to_string())));
}

#[test]
fn self_application_stops_at_the_depth_limit() {
    let env = &mut standard_env();
    run(env, "(define (w f) (f f))").unwrap();
    assert_eq!(run(env, "(w w)"), Err(LispError::DepthExceeded));
}

#[test]
fn procedures_can_be_passed_as_arguments() {
    let env = &mut standard_env();
    run(env, "(define (twice f x) (f (f x)))").unwrap();
    run(env, "(define (inc x) (+ x 1))").unwrap();
    assert_eq!(run(env, "(twice inc 5)"), Ok(num(7)));
    assert_eq!(run(env, "(twice * 5)"), Ok(num(5)));
}

#[test]
fn parse_exponent_literals() {
    assert_eq!(parse(String::from("1e3")), Ok(num(1000)));
    assert_eq!(parse(String::from("1E2")), Ok(num(100)));
    assert_eq!(parse(String::from("2.5e-1")), Ok(frac(1, 4)));
    assert_eq!(parse(String::from("-1.5e+2")), Ok(num(-150)));
    assert_eq!(parse(String::from("1.e1")), Ok(num(10)));
    assert_eq!(parse(String::from("0e999")), Ok(num(0)));
    assert_eq!(parse(String::from("1e400")), Ok(sym("1e400")));
    assert_eq!(parse(String::from("1e-400")), Ok(sym("1e-400")));
    assert_eq!(parse(String::from("1e")), Ok(sym("1e")));
    assert_eq!(parse(String::from("e5")), Ok(sym("e5")));
    assert_eq!(parse(String::from("inf")), Ok(sym("inf")));
}
