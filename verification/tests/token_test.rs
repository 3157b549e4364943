use parse_eq::lexer::{numerals, split_nums, Lexer};
use parse_eq::token::Operator::{Add, Divide, Multiply, Subtract};
use parse_eq::token::Token;
use parse_eq::token::Token::{LParen, Op, RParen, UnOp, Var};
use parse_eq::token::UnaryOperator::{Cosine, Negation, Sine, Tangent};
use parse_eq::token::Variable;

fn lex(s: &str) -> Lexer {
    let values: Vec<Option<u32>> = numerals(s)
        .iter()
        .map(|numeral| numeral.parse::<f32>().ok().map(f32::to_bits))
        .collect();
    Lexer::new_inorder(s, &values).unwrap()
}

fn num(value: f32) -> Token {
    Token::Number(value.to_bits())
}

#[test]
fn token_test_split_nums_simple() {
    assert_eq!(vec!["1"], split_nums("1").unwrap());
    assert_eq!(vec!["12"], split_nums("12").unwrap());
}

#[test]
fn token_test_split_nums_vars_simple() {
    assert_eq!(vec!["1", "x"], split_nums("1x").unwrap());
}

#[test]
fn token_test_split_nums_vars() {
    assert_eq!(vec!["12", "x"], split_nums("12x").unwrap());
    assert_eq!(vec!["123", "x"], split_nums("123x").unwrap());
    assert_eq!(vec!["1234", "x"], split_nums("1234x").unwrap());
    assert_eq!(vec!["12.3", "x"], split_nums("12.3x").unwrap());
}

#[test]
fn token_test_lexer_whitespace() {
    assert_eq!(vec![num(1.0)], lex("1").list);
    assert_eq!(vec![num(1.0)], lex(" 1").list);
    assert_eq!(vec![num(1.0)], lex("1 ").list);
    assert_eq!(vec![num(12.0)], lex("12").list);
    assert_eq!(vec![num(12.0)], lex(" 12").list);
    assert_eq!(vec![num(12.0)], lex("12 ").list);
}

#[test]
fn token_test_lexer_decimal() {
    assert_eq!(vec![num(1.0)], lex("1.0").list);
    assert_eq!(vec![num(1.1)], lex("1.1").list);
    assert_eq!(vec![num(0.1)], lex("0.1").list);
}

#[test]
fn token_test_lexer_token_simple() {
    assert_eq!(vec![LParen], lex("(").list);
    assert_eq!(vec![RParen], lex(")").list);
}

#[test]
fn token_test_lexer_operator_simple() {
    assert_eq!(vec![Op(Add)], lex("+").list);
    // A minus sign at the very beginning is a negation.
    assert_eq!(vec![UnOp(Negation)], lex("-").list);
    assert_eq!(vec![Op(Multiply)], lex("*").list);
    assert_eq!(vec![Op(Divide)], lex("/").list);
}

#[test]
fn lexer_variable_simple() {
    assert_eq!(vec![Var(Variable::X)], lex("x").list);
    assert_eq!(vec![Var(Variable::Y)], lex("y").list);
    assert_eq!(vec![Var(Variable::Z)], lex("z").list);
    assert_ne!(vec![Var(Variable::X)], lex("y").list);
}

#[test]
fn lexer_variable_parens() {
    assert_eq!(vec![LParen, Var(Variable::X), RParen], lex("(x)").list);
    assert_eq!(
        vec![LParen, LParen, Var(Variable::X), RParen, RParen],
        lex("((x))").list
    );
    assert_eq!(
        vec![
            LParen,
            LParen,
            LParen,
            LParen,
            Var(Variable::Y),
            RParen,
            RParen,
            RParen,
            RParen
        ],
        lex("(( ((y)) ) )").list
    );
}

#[test]
fn lexer_variable_operator() {
    assert_eq!(vec![Var(Variable::X), Op(Add), num(1.0)], lex("x+1").list);
    assert_eq!(
        vec![LParen, Var(Variable::X), RParen, Op(Add), num(1.0)],
        lex("(x)+1").list
    );
    assert_eq!(
        vec![Var(Variable::X), Op(Add), LParen, num(1.0), RParen],
        lex("x+(1)").list
    );
    assert_eq!(
        vec![LParen, Var(Variable::X), Op(Add), num(1.0), RParen],
        lex("(x+1)").list
    );
}

#[test]
fn token_test_lexer_operator() {
    let add = vec![num(1.0), Op(Add), num(2.0)];
    let subtract = vec![num(1.0), Op(Subtract), num(2.0)];
    let multiply = vec![num(1.0), Op(Multiply), num(2.0)];
    let divide = vec![num(1.0), Op(Divide), num(2.0)];

    assert_eq!(add, lex("1+2").list);
    assert_eq!(subtract, lex("1-2").list);
    assert_eq!(multiply, lex("1*2").list);
    assert_eq!(divide, lex("1/2").list);
}

#[test]
fn token_test_lexer_operator_parentheses() {
    let add = vec![LParen, num(1.0), Op(Add), num(2.0), RParen];
    let subtract = vec![LParen, num(1.0), Op(Subtract), num(2.0), RParen];
    let multiply = vec![LParen, num(1.0), Op(Multiply), num(2.0), RParen];
    let divide = vec![LParen, num(1.0), Op(Divide), num(2.0), RParen];

    assert_eq!(add, lex("(1+2)").list);
    assert_eq!(subtract, lex("(1-2)").list);
    assert_eq!(multiply, lex("(1*2)").list);
    assert_eq!(divide, lex("(1/2)").list);
}

#[test]
fn token_test_lexer_operator_parentheses_whitespace() {
    let add = vec![LParen, num(1.0), Op(Add), num(2.0), RParen];

    assert_eq!(add, lex("(1+2)").list);
    assert_eq!(add, lex(" (1+2)").list);
    assert_eq!(add, lex("(1+2) ").list);
    assert_eq!(add, lex(" (1+2) ").list);
    assert_eq!(add, lex(" ( 1+2) ").list);
    assert_eq!(add, lex(" ( 1 +2) ").list);
    assert_eq!(add, lex(" ( 1 + 2) ").list);
    assert_eq!(add, lex(" ( 1 + 2 ) ").list);
    assert_eq!(add, lex("       ( 1 + 2 ) ").list);
    assert_eq!(add, lex("       (         1 + 2 ) ").list);
    assert_eq!(add, lex("       (         1       + 2 ) ").list);
}

#[test]
fn lexer_unop_trig() {
    let sine = vec![UnOp(Sine)];
    assert_eq!(sine, lex("sin").list);
    let cosine = vec![UnOp(Cosine)];
    assert_eq!(cosine, lex("cos").list);
    let tangent = vec![UnOp(Tangent)];
    assert_eq!(tangent, lex("tan").list);
}

#[test]
fn lexer_unop_negation() {
    let neg_one = vec![UnOp(Negation), num(1.0)];
    assert_eq!(neg_one, lex("-1").list);

    let double_neg = vec![UnOp(Negation), num(1.0), Op(Add), num(2.0)];
    assert_eq!(double_neg, lex("-1 + 2").list);

    let trip_neg = vec![UnOp(Negation), num(1.0), Op(Add), UnOp(Negation), num(2.0)];
    assert_eq!(trip_neg, lex("-1 + -2").list);

    let trip_neg_var = vec![
        UnOp(Negation),
        num(1.0),
        Op(Add),
        UnOp(Negation),
        Var(Variable::X),
    ];
    assert_eq!(trip_neg_var, lex("-1 + -x").list);

    let check_vec = vec![
        UnOp(Negation),
        num(2.0),
        Op(Subtract),
        LParen,
        num(5.0),
        Op(Multiply),
        UnOp(Negation),
        UnOp(Sine),
        UnOp(Negation),
        Var(Variable::X),
        RParen,
        Op(Add),
        num(1.0),
    ];
    let lexer = lex("-2 - (5 * -sin -x ) + 1");
    assert_eq!(check_vec, lexer.list);
}
