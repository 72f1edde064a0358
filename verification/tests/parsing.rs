use lex::engine::Engine;
use lex::error::ParseError;
use lex::parser::Parser;
use lex::printer::render_token;
use lex::token::{Num, Token};

fn st(x: &str) -> Token {
    Token::Str(x.to_string())
}

fn lst(items: Vec<Token>) -> Token {
    Token::Lst(items)
}

fn parse(text: &str) -> Token {
    let p = Parser {};
    p.parse(text.to_string()).expect("parse failed")
}

fn parse_err(text: &str) -> ParseError {
    let p = Parser {};
    p.parse(text.to_string()).expect_err("parse unexpectedly succeeded")
}

fn same(a: &Token, b: &Token) -> bool {
    render_token(a) == render_token(b)
}

#[test]
fn atoms_classify_by_first_character() {
    let r = parse("(abc Xyz _w .kw 12 -3 \"qs\" + !)");
    assert!(same(
        &r,
        &lst(vec![
            st("abc"),
            Token::Var("Xyz".to_string()),
            Token::Wildcard("_w".to_string()),
            Token::Keyword(".kw".to_string()),
            Token::Number(Num::from_int(12)),
            Token::Number(Num::from_int(-3)),
            st("qs"),
            Token::BinaryOp("+".to_string()),
            Token::UnaryOp("!".to_string()),
        ])
    ));
}

#[test]
fn nested_lists_nest() {
    let r = parse("(a (b c) d)");
    assert!(same(
        &r,
        &lst(vec![st("a"), lst(vec![st("b"), st("c")]), st("d")])
    ));
}

#[test]
fn sublist_closing_precedes_pending_run() {
    // a run still pending when a sublist closes is flushed at the next
    // delimiter, so the sublist lands before it
    let r = parse("(ab(c) d)");
    assert!(same(
        &r,
        &lst(vec![lst(vec![st("c")]), st("ab"), st("d")])
    ));
}

#[test]
fn empty_list_parses() {
    let r = parse("( )");
    assert!(same(&r, &lst(vec![])));
}

#[test]
fn booleans_are_recognized_words() {
    let r = parse("(true false truth)");
    assert!(same(
        &r,
        &lst(vec![Token::Bool(true), Token::Bool(false), st("truth")])
    ));
}

#[test]
fn decimal_number() {
    let r = parse("(1.25)");
    assert!(same(&r, &lst(vec![Token::Number(Num { num: 5, den: 4 })])));
}

#[test]
fn number_normalizes() {
    let r = parse("(2.50)");
    assert!(same(&r, &lst(vec![Token::Number(Num { num: 5, den: 2 })])));
}

#[test]
fn two_dots_in_number_fail() {
    let e = parse_err("(1.2.3)");
    assert!(matches!(e, ParseError::InvalidCharacter('.', 1, _)));
}

#[test]
fn bad_character_in_word_fails() {
    let e = parse_err("(a@b)");
    assert!(matches!(e, ParseError::InvalidCharacter('@', 1, 3)));
}

#[test]
fn unknown_symbol_run_fails() {
    let e = parse_err("(+++)");
    match e {
        ParseError::InvalidSymbol(s, 1, _) => assert_eq!(s, "+++"),
        other => panic!("unexpected error {:?}", other),
    }
}

#[test]
fn oversized_number_fails() {
    let e = parse_err("(99999999999999999999999)");
    assert!(matches!(e, ParseError::Other(1)));
}

#[test]
fn column_counts_across_lines() {
    // the column counter keeps counting across newlines by design
    let e = parse_err("(a\n@)");
    assert!(matches!(e, ParseError::InvalidCharacter('@', 2, 3)));
}

#[test]
fn operators_parse_individually() {
    let r = parse("(< > <= >= = ** % /)");
    let op = |s: &str| Token::BinaryOp(s.to_string());
    assert!(same(
        &r,
        &lst(vec![
            op("<"),
            op(">"),
            op("<="),
            op(">="),
            op("="),
            op("**"),
            op("%"),
            op("/"),
        ])
    ));
}

#[test]
fn keyword_keeps_its_dot() {
    let r = parse("(.print)");
    assert!(same(&r, &lst(vec![Token::Keyword(".print".to_string())])));
}

#[test]
fn quoted_string_strips_its_quotes() {
    let r = parse("(\"a-1\")");
    assert!(same(&r, &lst(vec![st("a-1")])));
}

#[test]
fn renderer_indents_nested_lists() {
    let r = parse("(a (b))");
    assert_eq!(render_token(&r), "( a \n  ( b ) ) \n");
}

#[test]
fn renderer_prints_fractions_without_finite_decimals() {
    let t = Token::Number(Num { num: 1, den: 3 });
    assert_eq!(render_token(&t), "1/3 \n");
}

#[test]
fn describe_reports_invalid_character() {
    let e = parse_err("(a@b)");
    assert_eq!(e.describe(), "invalid character \"@\" at line 1:3");
}

#[test]
fn describe_other_errors_generically() {
    let e = parse_err("(");
    assert_eq!(e.describe(), "unknown parse error");
}

#[test]
fn earliest_file_entry_wins() {
    let mut e = Engine::new();
    e.provide_file("f".to_string(), "(5)".to_string());
    e.provide_file("f".to_string(), "(6)".to_string());
    let r = e.parse(".load \"f\"".to_string()).unwrap();
    assert!(same(&r, &lst(vec![Token::Number(Num::from_int(5))])));
}

#[test]
fn negative_number_with_fraction() {
    let r = parse("(-2.5)");
    assert!(same(&r, &lst(vec![Token::Number(Num { num: -5, den: 2 })])));
}
