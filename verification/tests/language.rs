use lex::engine::Engine;
use lex::error::{EvalError, LexError, ParseError};
use lex::evaluator::Evaluator;
use lex::parser::Parser;
use lex::printer::render_token;
use lex::token::{Num, Token};

fn num(i: i64) -> Token {
    Token::Number(Num::from_int(i))
}

fn rat(n: i64, d: i64) -> Token {
    Token::Number(Num { num: n, den: d })
}

fn st(x: &str) -> Token {
    Token::Str(x.to_string())
}

fn lst(items: Vec<Token>) -> Token {
    Token::Lst(items)
}

fn run(engine: &mut Engine, line: &str) -> Token {
    engine.parse(line.to_string()).expect("evaluation failed")
}

fn same(a: &Token, b: &Token) -> bool {
    render_token(a) == render_token(b)
}

// round-trip atoms: parsing a literal's canonical text and re-rendering it
// yields the same literal

#[test]
fn roundtrip_integer() {
    let mut e = Engine::new();
    let r = run(&mut e, "5");
    assert!(same(&r, &lst(vec![num(5)])));
    assert_eq!(render_token(&r), "( 5 ) \n");
}

#[test]
fn roundtrip_negative_integer() {
    let mut e = Engine::new();
    let r = run(&mut e, "-17");
    assert!(same(&r, &lst(vec![num(-17)])));
    assert_eq!(render_token(&r), "( -17 ) \n");
}

#[test]
fn roundtrip_decimal() {
    let mut e = Engine::new();
    let r = run(&mut e, "1.5");
    assert!(same(&r, &lst(vec![rat(3, 2)])));
    assert_eq!(render_token(&r), "( 1.5 ) \n");
}

#[test]
fn roundtrip_bool() {
    let mut e = Engine::new();
    let r = run(&mut e, "true");
    assert!(same(&r, &lst(vec![Token::Bool(true)])));
    let r = run(&mut e, "false");
    assert_eq!(render_token(&r), "( false ) \n");
}

#[test]
fn roundtrip_string() {
    let mut e = Engine::new();
    let r = run(&mut e, "hello");
    assert!(same(&r, &lst(vec![st("hello")])));
    assert_eq!(render_token(&r), "( hello ) \n");
}

#[test]
fn roundtrip_quoted_string() {
    let mut e = Engine::new();
    let r = run(&mut e, "\"hi\"");
    assert!(same(&r, &lst(vec![st("hi")])));
}

// bracket balance

#[test]
fn unmatched_close_is_missing_bracket() {
    let p = Parser {};
    let r = p.parse("( a ) )".to_string());
    assert!(matches!(r, Err(ParseError::MissingBracket(_))));
}

#[test]
fn lone_close_is_missing_bracket() {
    let p = Parser {};
    let r = p.parse(")".to_string());
    assert!(matches!(r, Err(ParseError::MissingBracket(1))));
}

#[test]
fn missing_bracket_reports_line() {
    let p = Parser {};
    let r = p.parse("\n\n)".to_string());
    assert!(matches!(r, Err(ParseError::MissingBracket(3))));
}

#[test]
fn unclosed_open_fails() {
    let p = Parser {};
    let r = p.parse("( a".to_string());
    assert!(matches!(r, Err(ParseError::UnknownError)));
}

#[test]
fn empty_input_fails() {
    let p = Parser {};
    let r = p.parse("".to_string());
    assert!(matches!(r, Err(ParseError::UnknownError)));
}

// arithmetic: each operator computes its own operation

#[test]
fn addition() {
    let mut e = Engine::new();
    let r = run(&mut e, "+ 2 3");
    assert!(same(&r, &num(5)));
}

#[test]
fn subtraction() {
    let mut e = Engine::new();
    let r = run(&mut e, "- 5 2");
    assert!(same(&r, &num(3)));
}

#[test]
fn multiplication() {
    let mut e = Engine::new();
    let r = run(&mut e, "* 4 3");
    assert!(same(&r, &num(12)));
}

#[test]
fn division() {
    let mut e = Engine::new();
    let r = run(&mut e, "/ 9 3");
    assert!(same(&r, &num(3)));
}

#[test]
fn division_is_exact() {
    let mut e = Engine::new();
    let r = run(&mut e, "/ 3 2");
    assert!(same(&r, &rat(3, 2)));
    assert_eq!(render_token(&r), "1.5 \n");
}

#[test]
fn fractional_arithmetic() {
    let mut e = Engine::new();
    let r = run(&mut e, "+ 1.5 1.25");
    assert!(same(&r, &rat(11, 4)));
    assert_eq!(render_token(&r), "2.75 \n");
}

#[test]
fn division_by_zero_leaves_list_unreduced() {
    let mut e = Engine::new();
    let r = run(&mut e, "/ 1 0");
    assert!(same(&r, &lst(vec![Token::BinaryOp("/".to_string()), num(1), num(0)])));
}

#[test]
fn comparisons() {
    let mut e = Engine::new();
    assert!(same(&run(&mut e, ">= 3 2"), &Token::Bool(true)));
    assert!(same(&run(&mut e, "<= 3 2"), &Token::Bool(false)));
    assert!(same(&run(&mut e, "= 2 2"), &Token::Bool(true)));
    assert!(same(&run(&mut e, "= 1.5 1.5"), &Token::Bool(true)));
}

#[test]
fn modulo_and_power_have_no_handler() {
    let mut e = Engine::new();
    let r = run(&mut e, "% 5 2");
    assert!(same(&r, &lst(vec![Token::BinaryOp("%".to_string()), num(5), num(2)])));
    let r = run(&mut e, "** 2 3");
    assert!(same(&r, &lst(vec![Token::BinaryOp("**".to_string()), num(2), num(3)])));
}

// equality totality: mismatched shapes compare false, never an error

#[test]
fn equality_across_shapes_is_false() {
    let mut e = Engine::new();
    let r = run(&mut e, "= \"a\" 1");
    assert!(same(&r, &Token::Bool(false)));
}

#[test]
fn equality_of_strings() {
    let mut e = Engine::new();
    assert!(same(&run(&mut e, "= a a"), &Token::Bool(true)));
    assert!(same(&run(&mut e, "= a b"), &Token::Bool(false)));
}

#[test]
fn equality_of_bools_and_ops() {
    let mut e = Engine::new();
    assert!(same(&run(&mut e, "= true true"), &Token::Bool(true)));
    assert!(same(&run(&mut e, "= true false"), &Token::Bool(false)));
}

// logical forms

#[test]
fn negation() {
    let mut e = Engine::new();
    assert!(same(&run(&mut e, "! true"), &Token::Bool(false)));
    assert!(same(&run(&mut e, "! false"), &Token::Bool(true)));
}

#[test]
fn negation_of_number_is_an_error() {
    let mut e = Engine::new();
    let r = e.parse("! 5".to_string());
    assert!(matches!(r, Err(LexError::EvalError(EvalError::UnknownOperator))));
}

#[test]
fn and_or() {
    let mut e = Engine::new();
    assert!(same(&run(&mut e, ".and true false"), &Token::Bool(false)));
    assert!(same(&run(&mut e, ".and true true"), &Token::Bool(true)));
    assert!(same(&run(&mut e, ".or true false"), &Token::Bool(true)));
    assert!(same(&run(&mut e, ".or false false"), &Token::Bool(false)));
}

#[test]
fn union_concatenates_in_order() {
    let mut e = Engine::new();
    let r = run(&mut e, ".union (a b) (c d)");
    assert!(same(&r, &lst(vec![st("a"), st("b"), st("c"), st("d")])));
}

// head and back

#[test]
fn head_and_back() {
    let mut e = Engine::new();
    assert!(same(&run(&mut e, ".head (a b c)"), &st("a")));
    assert!(same(&run(&mut e, ".back (a b c)"), &st("c")));
}

#[test]
fn head_of_empty_list_fails() {
    let mut e = Engine::new();
    let r = e.parse(".head ()".to_string());
    assert!(matches!(r, Err(LexError::EvalError(EvalError::UnknownOperator))));
    let r = e.parse(".back ()".to_string());
    assert!(matches!(r, Err(LexError::EvalError(EvalError::UnknownOperator))));
}

#[test]
fn unknown_keyword_is_an_error() {
    let mut e = Engine::new();
    let r = e.parse(".frobnicate 5".to_string());
    assert!(matches!(r, Err(LexError::EvalError(EvalError::UnknownOperator))));
}

#[test]
fn unknown_binary_keyword_is_an_error() {
    let mut e = Engine::new();
    let r = e.parse(".frobnicate 1 2".to_string());
    assert!(matches!(r, Err(LexError::EvalError(EvalError::UnknownOperator))));
}

#[test]
fn listed_binary_keyword_on_mismatched_types_stays_unreduced() {
    let mut e = Engine::new();
    let r = run(&mut e, ".and 1 2");
    assert!(same(
        &r,
        &lst(vec![Token::Keyword(".and".to_string()), num(1), num(2)])
    ));
}

// idempotence of literals

#[test]
fn atoms_evaluate_to_themselves() {
    let mut ev = Evaluator::new();
    let r = ev.eval_token(num(42)).unwrap();
    assert!(same(&r, &num(42)));
    let r = ev.eval_token(st("abc")).unwrap();
    assert!(same(&r, &st("abc")));
    let r = ev.eval_token(Token::Bool(true)).unwrap();
    assert!(same(&r, &Token::Bool(true)));
    let r = ev.eval_token(Token::Var("X".to_string())).unwrap();
    assert!(same(&r, &Token::Var("X".to_string())));
}

// queries over declared facts

#[test]
fn query_binds_variable() {
    let mut e = Engine::new();
    run(&mut e, ".dec (parent tom bob)");
    let r = run(&mut e, ".eval (parent X bob)");
    let entry = lst(vec![lst(vec![
        Token::BinaryOp("=".to_string()),
        Token::Var("X".to_string()),
        st("tom"),
    ])]);
    assert!(same(&r, &lst(vec![entry])));
}

#[test]
fn query_results_follow_declaration_order() {
    let mut e = Engine::new();
    run(&mut e, ".dec (parent tom bob)");
    run(&mut e, ".dec (parent sue bob)");
    let r = run(&mut e, ".eval (parent X bob)");
    let eq = |v: &str| {
        lst(vec![
            Token::BinaryOp("=".to_string()),
            Token::Var("X".to_string()),
            st(v),
        ])
    };
    assert!(same(&r, &lst(vec![lst(vec![eq("tom")]), lst(vec![eq("sue")])])));
}

#[test]
fn wildcard_matches_without_binding() {
    let mut e = Engine::new();
    run(&mut e, ".dec (parent tom bob)");
    let r = run(&mut e, ".eval (parent _a bob)");
    assert!(same(&r, &lst(vec![lst(vec![])])));
}

#[test]
fn query_with_no_match_reduces_ordinarily() {
    let mut e = Engine::new();
    let r = run(&mut e, ".eval (likes Tom Pie)");
    assert!(same(&r, &lst(vec![st("likes"), st("Tom"), st("Pie")])));
}

// the union rewrite

#[test]
fn or_query_rewrites_to_union() {
    let mut e = Engine::new();
    let r = run(&mut e, ".eval (.or (likes Tom Pie) (likes Tom Cake))");
    assert!(same(
        &r,
        &lst(vec![
            st("likes"),
            st("Tom"),
            st("Pie"),
            st("likes"),
            st("Tom"),
            st("Cake"),
        ])
    ));
}

// scope merge: the nested scope's final declaration set replaces the
// caller's

#[test]
fn declarations_from_nested_forms_persist() {
    let mut e = Engine::new();
    run(&mut e, ".dec (f a)");
    run(&mut e, ".dec (f b)");
    let r = run(&mut e, ".match (f X)");
    // a successful match carries the values of every position, the
    // constant head included
    assert!(same(
        &r,
        &lst(vec![lst(vec![st("f"), st("a")]), lst(vec![st("f"), st("b")])])
    ));
}

#[test]
fn match_carries_values_positionwise() {
    let mut e = Engine::new();
    run(&mut e, ".dec (parent tom bob)");
    let r = run(&mut e, ".match (parent X bob)");
    assert!(same(
        &r,
        &lst(vec![lst(vec![st("parent"), st("tom"), st("bob")])])
    ));
}

#[test]
fn match_skips_facts_of_other_length() {
    let mut e = Engine::new();
    run(&mut e, ".dec (f a)");
    run(&mut e, ".dec (f a b)");
    let r = run(&mut e, ".match (f X)");
    assert!(same(&r, &lst(vec![lst(vec![st("f"), st("a")])])));
}

// return short-circuits

#[test]
fn return_yields_its_argument() {
    let mut e = Engine::new();
    let r = run(&mut e, ".return 5");
    assert!(same(&r, &num(5)));
}

// printing goes to the output buffer

#[test]
fn print_renders_to_output() {
    let mut e = Engine::new();
    let r = run(&mut e, ".print hello");
    assert!(same(&r, &Token::Bool(true)));
    assert_eq!(e.take_output(), "hello \n");
    assert_eq!(e.take_output(), "");
}

// loading files from the provided table

#[test]
fn load_of_missing_file_is_false() {
    let mut e = Engine::new();
    let r = run(&mut e, ".load \"nowhere\"");
    assert!(same(&r, &Token::Bool(false)));
}

#[test]
fn load_declares_facts_for_the_same_evaluation() {
    // a fact declared by a loaded file lives in the loading evaluation's
    // scope: a query in the same top-level form sees it
    let mut e = Engine::new();
    e.provide_file("facts".to_string(), "(.dec (parent tom bob))".to_string());
    let r = run(&mut e, "(.load \"facts\") (.eval (parent X bob))");
    let entry = lst(vec![lst(vec![
        Token::BinaryOp("=".to_string()),
        Token::Var("X".to_string()),
        st("tom"),
    ])]);
    assert!(same(
        &r,
        &lst(vec![Token::Bool(true), lst(vec![entry])])
    ));
}

#[test]
fn load_of_unparsable_file_is_an_error() {
    let mut e = Engine::new();
    e.provide_file("bad".to_string(), "( @ )".to_string());
    let r = e.parse(".load \"bad\"".to_string());
    assert!(matches!(r, Err(LexError::EvalError(EvalError::UnknownOperator))));
}

#[test]
fn nested_arithmetic_reduces_innermost_first() {
    let mut e = Engine::new();
    let r = run(&mut e, "+ (+ 1 2) 3");
    assert!(same(&r, &num(6)));
}

#[test]
fn return_short_circuits_following_forms() {
    let mut e = Engine::new();
    let r = run(&mut e, "(.return 5) (+ 1 1)");
    assert!(same(&r, &num(5)));
}

#[test]
fn query_fallback_reduces_operators() {
    let mut e = Engine::new();
    let r = run(&mut e, ".eval (+ 2 3)");
    assert!(same(&r, &num(5)));
}

#[test]
fn renderer_expands_scaled_denominators() {
    let t = Token::Number(Num { num: 1, den: 8 });
    assert_eq!(render_token(&t), "0.125 \n");
    let t = Token::Number(Num { num: -7, den: 4 });
    assert_eq!(render_token(&t), "-1.75 \n");
}

#[test]
fn deeply_nested_pure_forms_reduce() {
    let mut e = Engine::new();
    let r = run(&mut e, "+ (* 2 (+ 1 2)) (- 10 (/ 8 2))");
    assert!(same(&r, &num(12)));
    let r = run(&mut e, "! (= 1 2)");
    assert!(same(&r, &Token::Bool(true)));
    let r = run(&mut e, ".and (= 1 1) (! false)");
    assert!(same(&r, &Token::Bool(true)));
}
