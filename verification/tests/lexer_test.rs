use parse_eq::lexer::{numerals, split_nums, Lexer};
use parse_eq::token::Operator::{Add, Divide, Multiply, Subtract};
use parse_eq::token::Token;
use parse_eq::token::Token::{LParen, Op, RParen, UnOp};
use parse_eq::token::UnaryOperator::Negation;

fn lex(s: &str) -> Lexer {
    let values: Vec<Option<u32>> = numerals(s)
        .iter()
        .map(|numeral| numeral.parse::<f32>().ok().map(f32::to_bits))
        .collect();
    Lexer::new_inorder(s, &values).unwrap()
}

fn num(value: f32) -> Token {
    Token::Number(value.to_bits())
}

#[test]
fn lexer_test_split_nums_simple() {
    assert_eq!(vec!["1"], split_nums("1").unwrap());
    assert_eq!(vec!["12"], split_nums("12").unwrap());
}

#[test]
fn lexer_test_split_nums_vars_simple() {
    assert_eq!(vec!["1", "x"], split_nums("1x").unwrap());
}

#[test]
fn lexer_test_split_nums_vars() {
    assert_eq!(vec!["12", "x"], split_nums("12x").unwrap());
    assert_eq!(vec!["123", "x"], split_nums("123x").unwrap());
    assert_eq!(vec!["1234", "x"], split_nums("1234x").unwrap());
    assert_eq!(vec!["12.3", "x"], split_nums("12.3x").unwrap());
}

#[test]
fn lexer_test_lexer_whitespace() {
    assert_eq!(vec![num(1.0)], lex("1").list);
    assert_eq!(vec![num(1.0)], lex(" 1").list);
    assert_eq!(vec![num(1.0)], lex("1 ").list);
    assert_eq!(vec![num(12.0)], lex("12").list);
    assert_eq!(vec![num(12.0)], lex(" 12").list);
    assert_eq!(vec![num(12.0)], lex("12 ").list);
}

#[test]
fn lexer_test_lexer_decimal() {
    assert_eq!(vec![num(1.0)], lex("1.0").list);
    assert_eq!(vec![num(1.1)], lex("1.1").list);
    assert_eq!(vec![num(0.1)], lex("0.1").list);
}

#[test]
fn lexer_test_lexer_token_simple() {
    assert_eq!(vec![LParen], lex("(").list);
    assert_eq!(vec![RParen], lex(")").list);
}

#[test]
fn lexer_test_lexer_operator_simple() {
    assert_eq!(vec![Op(Add)], lex("+").list);
    // A minus sign at the very beginning is a negation.
    assert_eq!(vec![UnOp(Negation)], lex("-").list);
    assert_eq!(vec![Op(Multiply)], lex("*").list);
    assert_eq!(vec![Op(Divide)], lex("/").list);
}

#[test]
fn lexer_test_lexer_operator() {
    let add = vec![num(1.0), Op(Add), num(2.0)];
    let subtract = vec![num(1.0), Op(Subtract), num(2.0)];
    let multiply = vec![num(1.0), Op(Multiply), num(2.0)];
    let divide = vec![num(1.0), Op(Divide), num(2.0)];

    assert_eq!(add, lex("1+2").list);
    assert_eq!(subtract, lex("1-2").list);
    assert_eq!(multiply, lex("1*2").list);
    assert_eq!(divide, lex("1/2").list);
}

#[test]
fn lexer_test_lexer_operator_parentheses() {
    let add = vec![LParen, num(1.0), Op(Add), num(2.0), RParen];
    let subtract = vec![LParen, num(1.0), Op(Subtract), num(2.0), RParen];
    let multiply = vec![LParen, num(1.0), Op(Multiply), num(2.0), RParen];
    let divide = vec![LParen, num(1.0), Op(Divide), num(2.0), RParen];

    assert_eq!(add, lex("(1+2)").list);
    assert_eq!(subtract, lex("(1-2)").list);
    assert_eq!(multiply, lex("(1*2)").list);
    assert_eq!(divide, lex("(1/2)").list);
}

#[test]
fn lexer_test_lexer_operator_parentheses_whitespace() {
    let add = vec![LParen, num(1.0), Op(Add), num(2.0), RParen];

    assert_eq!(add, lex("(1+2)").list);
    assert_eq!(add, lex(" (1+2)").list);
    assert_eq!(add, lex("(1+2) ").list);
    assert_eq!(add, lex(" (1+2) ").list);
    assert_eq!(add, lex(" ( 1+2) ").list);
    assert_eq!(add, lex(" ( 1 +2) ").list);
    assert_eq!(add, lex(" ( 1 + 2) ").list);
    assert_eq!(add, lex(" ( 1 + 2 ) ").list);
    assert_eq!(add, lex("       ( 1 + 2 ) ").list);
    assert_eq!(add, lex("       (         1 + 2 ) ").list);
    assert_eq!(add, lex("       (         1       + 2 ) ").list);
}
