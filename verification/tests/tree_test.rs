use parse_eq::eq_props::negation::Negation;
use parse_eq::lexer::{numerals, Lexer, Traversal};
use parse_eq::token::Operator::{Add, Divide, Multiply, Subtract};
use parse_eq::token::Token;
use parse_eq::token::Token::{LParen, Op, RParen, UnOp, Var};
use parse_eq::token::UnaryOperator;
use parse_eq::token::UnaryOperator::{Negation as Neg, Sine};
use parse_eq::token::Variable;
use parse_eq::tree::{Tree, TreeNode};

fn lex(s: &str) -> Lexer {
    let values: Vec<Option<u32>> = numerals(s)
        .iter()
        .map(|numeral| numeral.parse::<f32>().ok().map(f32::to_bits))
        .collect();
    Lexer::new_inorder(s, &values).unwrap()
}

fn num(value: f32) -> Token {
    Token::Number(value.to_bits())
}

// 2 * ( 5 * 3 + 4 / ( 1 + 6 ) )
fn two_times_sum() -> Tree {
    let one = TreeNode::new(num(1.0), None, None);
    let two = TreeNode::new(num(2.0), None, None);
    let three = TreeNode::new(num(3.0), None, None);
    let four = TreeNode::new(num(4.0), None, None);
    let five = TreeNode::new(num(5.0), None, None);
    let six = TreeNode::new(num(6.0), None, None);

    let lower_plus = TreeNode::new(Op(Add), Some(one), Some(six));
    let division = TreeNode::new(Op(Divide), Some(four), Some(lower_plus));
    let lower_mult = TreeNode::new(Op(Multiply), Some(five), Some(three));
    let upper_plus = TreeNode::new(Op(Add), Some(lower_mult), Some(division));
    let upper_mult = TreeNode::new(Op(Multiply), Some(two), Some(upper_plus));
    Tree::new(upper_mult)
}

#[test]
fn tree_simple() {
    let left_node = TreeNode::new(num(1.0), None, None);
    let right_node = TreeNode::new(num(2.0), None, None);
    let check_tree: Tree = Tree::new(TreeNode::new(Op(Divide), Some(left_node), Some(right_node)));
    let lexer = lex("1/2");
    let in_order = lexer.list;

    let tree: Tree = Tree::new_pre_from_in(in_order).unwrap();
    assert_eq!(tree, check_tree);
}

#[test]
fn tree_parens_simple() {
    let one = TreeNode::new(num(1.0), None, None);
    let two = TreeNode::new(num(2.0), None, None);

    let add = TreeNode::new(Op(Add), Some(one), Some(two));
    let check_tree: Tree = Tree::new(add);

    let lexer = lex("(1 + 2)");
    let in_order = lexer.list;

    let check_in_order = vec![LParen, num(1.0), Op(Add), num(2.0), RParen];
    assert_eq!(in_order, check_in_order);

    let tree: Tree = Tree::new_pre_from_in(in_order).unwrap();
    assert_eq!(tree, check_tree);
}

#[test]
fn tree_parens() {
    let check_tree: Tree = two_times_sum();

    let lexer = lex("2 * ( 5 * 3 + 4 / ( 1 + 6 ) )");
    let in_order = lexer.list;

    let tree: Tree = Tree::new_pre_from_in(in_order).unwrap();
    assert_eq!(tree, check_tree);
}

#[test]
fn tree_parens_many() {
    let check_tree: Tree = two_times_sum();

    let lexer = lex("( ( 2 * ( 5 * 3 + 4 / ( 1 + 6 ) ) ) )");
    let in_order = lexer.list;

    let tree: Tree = Tree::new_pre_from_in(in_order).unwrap();
    assert_eq!(tree, check_tree);
}

#[test]
fn tree_parens_many_more() {
    let check_tree: Tree = two_times_sum();

    let lexer = lex("( ( 2 * ( ( 5 * 3 ) + 4 / ( ( 1 ) + ( 6 ) ) ) ) )");
    let in_order = lexer.list;

    let tree: Tree = Tree::new_pre_from_in(in_order).unwrap();
    assert_eq!(tree, check_tree);
}

#[test]
fn tree_var_simple() {
    let one = TreeNode::new(num(1.0), None, None);
    let x = TreeNode::new(Var(Variable::X), None, None);

    let x_plus_one = TreeNode::new(Op(Add), Some(x), Some(one));
    let check_tree = Tree::new(x_plus_one);

    let lexer = lex("x + 1");
    let in_order = lexer.list;

    let tree: Tree = Tree::new_pre_from_in(in_order).unwrap();
    assert_eq!(tree, check_tree);
}

#[test]
fn tree_unary_simple() {
    let one = TreeNode::new(num(1.0), None, None);
    let sine_one = TreeNode::new(UnOp(Sine), None, Some(one));

    let check_tree = Tree::new(sine_one);

    let lexer = lex("sin 1");
    let in_order = lexer.list;

    let tree: Tree = Tree::new_pre_from_in(in_order).unwrap();
    assert_eq!(check_tree, tree);
}

#[test]
fn tree_unary_with_var() {
    let one = TreeNode::new(num(1.0), None, None);
    let x = TreeNode::new(Var(Variable::X), None, None);
    let sine_x = TreeNode::new(UnOp(Sine), None, Some(x));

    let sin_x_plus_one = TreeNode::new(Op(Add), Some(sine_x), Some(one));

    let check_tree = Tree::new(sin_x_plus_one);

    let lexer = lex("sin x + 1");
    let in_order = lexer.list;

    let tree: Tree = Tree::new_pre_from_in(in_order).unwrap();
    assert_eq!(check_tree, tree);
}

#[test]
fn tree_var_parens() {
    let one = TreeNode::new(num(1.0), None, None);
    let x = TreeNode::new(Var(Variable::X), None, None);

    let x_plus_one = TreeNode::new(Op(Add), Some(x), Some(one));
    let check_tree = Tree::new(x_plus_one);

    let lexer = lex("( x ) + 1");
    let in_order = lexer.list;

    let tree: Tree = Tree::new_pre_from_in(in_order).unwrap();
    assert_eq!(tree, check_tree);

    let lexer2 = lex("(x) + 1");
    let in_order2 = lexer2.list;

    let tree2: Tree = Tree::new_pre_from_in(in_order2).unwrap();
    assert_eq!(tree2, check_tree);

    let lexer3 = lex("x + (1)");
    let in_order3 = lexer3.list;

    let tree3: Tree = Tree::new_pre_from_in(in_order3).unwrap();
    assert_eq!(tree3, check_tree);

    let lexer3 = lex("(x + 1)");
    let in_order3 = lexer3.list;

    let tree3: Tree = Tree::new_pre_from_in(in_order3).unwrap();
    assert_eq!(tree3, check_tree);
}

#[test]
fn tree_unary_parens() {
    let one = TreeNode::new(num(1.0), None, None);
    let x = TreeNode::new(Var(Variable::X), None, None);
    let sin_x = TreeNode::new(UnOp(Sine), None, Some(x));

    let sin_x_plus_one = TreeNode::new(Op(Add), Some(sin_x), Some(one));
    let check_tree = Tree::new(sin_x_plus_one);

    let lexer = lex("( sin x ) + 1");
    let in_order = lexer.list;

    let tree: Tree = Tree::new_pre_from_in(in_order).unwrap();
    assert_eq!(tree, check_tree);

    let lexer2 = lex("(sin x) + 1");
    let in_order2 = lexer2.list;

    let tree2: Tree = Tree::new_pre_from_in(in_order2).unwrap();
    assert_eq!(tree2, check_tree);

    let lexer3 = lex("sin x + (1)");
    let in_order3 = lexer3.list;

    let tree3: Tree = Tree::new_pre_from_in(in_order3).unwrap();
    assert_eq!(tree3, check_tree);

    let lexer4 = lex("(sin x + 1)");
    let in_order4 = lexer4.list;

    let tree4: Tree = Tree::new_pre_from_in(in_order4).unwrap();
    assert_eq!(tree4, check_tree);

    let lexer5 = lex("(sin (x) + 1)");
    let in_order5 = lexer5.list;

    let tree5: Tree = Tree::new_pre_from_in(in_order5).unwrap();
    assert_eq!(tree5, check_tree);
}

#[test]
fn tree_unary_complex() {
    let one = TreeNode::new(num(1.0), None, None);
    let two = TreeNode::new(num(2.0), None, None);
    let five = TreeNode::new(num(5.0), None, None);
    let x = TreeNode::new(Var(Variable::X), None, None);
    let sin_x = TreeNode::new(UnOp(Sine), None, Some(x));

    let five_sine_x = TreeNode::new(Op(Multiply), Some(five), Some(sin_x));
    let minus_two = TreeNode::new(Op(Subtract), Some(two), Some(five_sine_x));
    let plus_one = TreeNode::new(Op(Add), Some(minus_two), Some(one));
    let check_tree = Tree::new(plus_one);

    let lexer = lex("2 - (5 * sin x ) + 1");
    let in_order = lexer.list;

    let tree: Tree = Tree::new_pre_from_in(in_order).unwrap();

    assert_eq!(check_tree, tree);
}

#[test]
fn tree_unary_negation() {
    let one = TreeNode::new(num(1.0), None, None);
    let two = TreeNode::new(num(2.0), None, None);
    let five = TreeNode::new(num(5.0), None, None);
    let x = TreeNode::new(Var(Variable::X), None, None);

    let neg_x = TreeNode::new(UnOp(Neg), None, Some(x));
    let sin_neg_x = TreeNode::new(UnOp(Sine), None, Some(neg_x));
    let neg_two = TreeNode::new(UnOp(Neg), None, Some(two));

    let neg_sin_neg_x = TreeNode::new(UnOp(Neg), None, Some(sin_neg_x));
    let five_neg_sine_neg_x = TreeNode::new(Op(Multiply), Some(five), Some(neg_sin_neg_x));
    let neg_two_minus = TreeNode::new(Op(Subtract), Some(neg_two), Some(five_neg_sine_neg_x));
    let plus_one = TreeNode::new(Op(Add), Some(neg_two_minus), Some(one));
    let check_tree = Tree::new(plus_one);

    let lexer = lex("-2 - (5 * -sin -x ) + 1");
    let in_order = lexer.list;
    println!("lexer.list: {:?}", in_order);

    let tree: Tree = Tree::new_pre_from_in(in_order).unwrap();

    assert_eq!(check_tree, tree);
}

#[test]
fn tree_create_vec() {
    let lexer = lex("-2 * ( 5 * 3 + 4 / ( 1 + -sin -(x/2) ) )");
    let in_order = lexer.list;

    let tree: Tree = Tree::new_pre_from_in(in_order).unwrap();
    let in_order_vec = tree.create_vec(Traversal::In);

    let check_lexer = lex("-2 * ( 5 * 3 + 4 / ( 1 + -sin -(x/2) ) )");
    let check_in_order = check_lexer.list;

    for (check_val, test_val) in check_in_order.iter().zip(in_order_vec.iter()) {
        println!("check: {:?}\t test: {:?}", check_val, test_val);
    }
    assert_eq!(check_in_order, in_order_vec);
}

#[test]
fn tree_detect_negation() {
    // 1. Double negated number
    let lexer = lex("- ( -2 )");
    let in_order = lexer.list;
    let check_vec: Vec<Token> = vec![
        UnOp(UnaryOperator::Negation),
        LParen,
        UnOp(UnaryOperator::Negation),
        num(2.0),
        RParen,
    ];
    assert_eq!(check_vec, in_order);
    let tree: Tree = Tree::new_pre_from_in(in_order.clone()).unwrap();
    let root = tree.get_root_clone();
    assert!(root.is_double_neg());

    // 2. Single negation number
    let lexer = lex("( -2 )");
    let in_order = lexer.list;
    let check_vec: Vec<Token> = vec![LParen, UnOp(UnaryOperator::Negation), num(2.0), RParen];
    assert_eq!(check_vec, in_order);
    let tree: Tree = Tree::new_pre_from_in(in_order.clone()).unwrap();
    let root = tree.get_root_clone();
    assert!(!root.is_double_neg());

    // 3. Double negation variable
    let lexer = lex("- ( -x )");
    let in_order = lexer.list;
    let check_vec: Vec<Token> = vec![
        UnOp(UnaryOperator::Negation),
        LParen,
        UnOp(UnaryOperator::Negation),
        Var(Variable::X),
        RParen,
    ];
    assert_eq!(check_vec, in_order);
    let tree: Tree = Tree::new_pre_from_in(in_order.clone()).unwrap();
    let root = tree.get_root_clone();
    assert!(root.is_double_neg());

    // 4. Double negation with addition operation
    let lexer = lex("1 + - ( -x )");
    let in_order = lexer.list;
    let check_vec: Vec<Token> = vec![
        num(1.0),
        Op(Add),
        UnOp(UnaryOperator::Negation),
        LParen,
        UnOp(UnaryOperator::Negation),
        Var(Variable::X),
        RParen,
    ];
    assert_eq!(check_vec, in_order);
    let tree: Tree = Tree::new_pre_from_in(in_order.clone()).unwrap();

    let root = tree.get_root_clone();
    assert!(root.right.unwrap().is_double_neg());

    // 5. Double negation with subtract operation
    let lexer = lex("1 - - ( -x )");
    let in_order = lexer.list;
    let check_vec: Vec<Token> = vec![
        num(1.0),
        Op(Subtract),
        UnOp(UnaryOperator::Negation),
        LParen,
        UnOp(UnaryOperator::Negation),
        Var(Variable::X),
        RParen,
    ];
    assert_eq!(check_vec, in_order);
    let tree: Tree = Tree::new_pre_from_in(in_order.clone()).unwrap();

    let root = tree.get_root_clone();
    assert!(root.right.unwrap().is_double_neg());
}
