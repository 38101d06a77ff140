use arith_parser::lexer::{Constant as ConstantKind, Decimal, Function as FunctionKind};
use arith_parser::node::{
    factorial_of, Add, Constant, Div, Factorial, Float, Function, Integer, Mult, Negate, Pow,
    Subtract, TreeNode,
};
use arith_parser::parser::{parse, ParseError};

fn lit(val: u32) -> TreeNode {
    TreeNode::Integer(Integer { val })
}

fn sub(l: TreeNode, r: TreeNode) -> TreeNode {
    TreeNode::Subtract(Subtract { left: Box::new(l), right: Box::new(r) })
}

fn pow(l: TreeNode, r: TreeNode) -> TreeNode {
    TreeNode::Pow(Pow { left: Box::new(l), right: Box::new(r) })
}

fn fact(a: TreeNode) -> TreeNode {
    TreeNode::Factorial(Factorial { arg: Box::new(a) })
}

fn value(node: &TreeNode) -> f64 {
    match node {
        TreeNode::Integer(n) => n.val as f64,
        TreeNode::Float(x) => format!("{}.{:0w$}", x.val.whole, x.val.fraction, w = x.val.scale)
            .parse()
            .unwrap(),
        TreeNode::Constant(c) => match c.symbol {
            ConstantKind::g => 9.82,
            ConstantKind::pi => std::f64::consts::PI,
            ConstantKind::e => std::f64::consts::E,
        },
        TreeNode::Negate(n) => -value(&n.arg),
        TreeNode::Factorial(f) => factorial_of(value(&f.arg) as u64).unwrap() as f64,
        TreeNode::Function(f) => match f.function {
            FunctionKind::sin => value(&f.arg).sin(),
            FunctionKind::ln => value(&f.arg).ln(),
        },
        TreeNode::Add(b) => value(&b.left) + value(&b.right),
        TreeNode::Subtract(b) => value(&b.left) - value(&b.right),
        TreeNode::Mult(b) => value(&b.left) * value(&b.right),
        TreeNode::Div(b) => value(&b.left) / value(&b.right),
        TreeNode::Pow(b) => value(&b.left).powf(value(&b.right)),
    }
}

fn eval_text(text: &str) -> f64 {
    value(&parse(text).unwrap())
}

#[test]
fn integer_literals_parse_to_their_value() {
    for n in [0u32, 7, 42, 4845, 65536, u32::MAX] {
        let tree = parse(&n.to_string()).unwrap();
        assert_eq!(tree, lit(n));
        assert_eq!(value(&tree), n as f64);
    }
    assert_eq!(parse("007").unwrap(), lit(7));
}

#[test]
fn subtraction_groups_to_the_left() {
    assert_eq!(parse("8-3-2").unwrap(), sub(sub(lit(8), lit(3)), lit(2)));
    assert_eq!(eval_text("8-3-2"), 3.0);
}

#[test]
fn exponent_groups_to_the_right() {
    assert_eq!(parse("2^3^2").unwrap(), pow(lit(2), pow(lit(3), lit(2))));
    assert_eq!(eval_text("2^3^2"), 512.0);
}

#[test]
fn product_binds_tighter_than_sum() {
    assert_eq!(eval_text("2+3*4"), 14.0);
    assert_eq!(eval_text("2*3+4"), 10.0);
    assert_eq!(eval_text("12/3/2"), 2.0);
}

#[test]
fn factorial_binds_tighter_than_exponent() {
    assert_eq!(parse("3!^2").unwrap(), pow(fact(lit(3)), lit(2)));
    assert_eq!(eval_text("3!^2"), 36.0);
}

#[test]
fn parenthesized_factorial() {
    assert_eq!(eval_text("2*(10-2^3+1)!"), 12.0);
}

#[test]
fn constants_resolve() {
    assert_eq!(eval_text("g"), 9.82);
    assert_eq!(eval_text("pi"), std::f64::consts::PI);
    assert_eq!(eval_text("e"), std::f64::consts::E);
}

#[test]
fn functions_apply() {
    assert_eq!(eval_text("sin(0)"), 0.0);
    assert_eq!(eval_text("ln(1)"), 0.0);
    assert_eq!(
        parse("sin 2").unwrap(),
        TreeNode::Function(Function { arg: Box::new(lit(2)), function: FunctionKind::sin })
    );
}

#[test]
fn errors() {
    assert_eq!(parse(""), Err(ParseError::ExpectedExpression));
    assert_eq!(parse("(1+2"), Err(ParseError::ExpectedClosingParenthesis));
    assert_eq!(parse("1#2"), Err(ParseError::IllegalCharacter));
    assert_eq!(parse("1+"), Err(ParseError::ExpectedExpression));
    assert_eq!(parse("()"), Err(ParseError::ExpectedExpression));
    assert_eq!(parse("1+*2"), Err(ParseError::ChainedOperators));
    assert_eq!(parse("1 2"), Err(ParseError::TrailingInput));
    assert_eq!(parse("1)"), Err(ParseError::TrailingInput));
    assert_eq!(parse("4294967296"), Err(ParseError::IllegalCharacter));
    assert_eq!(parse("sine(1)"), Err(ParseError::IllegalCharacter));
    assert_eq!(parse("(1.)"), Err(ParseError::IllegalCharacter));
    assert_eq!(parse("12."), Err(ParseError::IllegalCharacter));
}

#[test]
fn unary_minus() {
    assert_eq!(
        parse("-3!").unwrap(),
        TreeNode::Negate(Negate { arg: Box::new(fact(lit(3))) })
    );
    assert_eq!(eval_text("-2^2"), 4.0);
    assert_eq!(eval_text("2--3"), 5.0);
}

#[test]
fn decimal_literals() {
    assert_eq!(
        parse(".5").unwrap(),
        TreeNode::Float(Float { val: Decimal { whole: 0, fraction: 5, scale: 1 } })
    );
    assert_eq!(eval_text("1.05 * 2"), 2.1);
}

#[test]
fn printed_form() {
    assert_eq!(parse("(4-2^3)+1").unwrap().print(), "((4 - (2 ^ (3))) + 1)");
    assert_eq!(parse("-3!").unwrap().print(), "-((3)!)");
    assert_eq!(parse("8/2*pi").unwrap().print(), "((8 / (2)) * pi)");
    assert_eq!(parse("sin .050").unwrap().print(), "(sin (0.050))");
    assert_eq!(parse("ln e").unwrap().print(), "(ln (e))");
    assert_eq!(parse("1000000").unwrap().print(), "1000000");
}

#[test]
fn reprinted_text_parses_to_the_same_tree() {
    for text in [
        "2 + 3 +1 +4",
        "(4-2^3)!",
        "2*(10-2^3+1)!",
        "8-3-2",
        "2^3^2",
        "-(1.25 / 0.004)^-2!",
        "1/2/3*4-5+6",
        "sin(pi/2) + ln e * g",
    ] {
        let tree = parse(text).unwrap();
        let again = parse(&tree.print()).unwrap();
        assert_eq!(again, tree);
        let (a, b) = (value(&again), value(&tree));
        assert!(a == b || (a.is_nan() && b.is_nan()));
    }
}

#[test]
fn factorial_products() {
    assert_eq!(factorial_of(0), Some(1));
    assert_eq!(factorial_of(1), Some(1));
    assert_eq!(factorial_of(5), Some(120));
    assert_eq!(factorial_of(20), Some(2432902008176640000));
    assert_eq!(factorial_of(21), None);
}

#[test]
fn tree_shapes() {
    assert_eq!(
        parse("2*pi/3").unwrap(),
        TreeNode::Div(Div {
            left: Box::new(TreeNode::Mult(Mult {
                left: Box::new(lit(2)),
                right: Box::new(TreeNode::Constant(Constant { symbol: ConstantKind::pi })),
            })),
            right: Box::new(lit(3)),
        })
    );
    assert_eq!(
        parse("1+2").unwrap(),
        TreeNode::Add(Add { left: Box::new(lit(1)), right: Box::new(lit(2)) })
    );
}

#[test]
fn longer_chains_group_by_rule() {
    let add = |l: TreeNode, r: TreeNode| TreeNode::Add(Add { left: Box::new(l), right: Box::new(r) });
    let mul = |l: TreeNode, r: TreeNode| TreeNode::Mult(Mult { left: Box::new(l), right: Box::new(r) });
    let div = |l: TreeNode, r: TreeNode| TreeNode::Div(Div { left: Box::new(l), right: Box::new(r) });
    assert_eq!(
        parse("1-2+3-4").unwrap(),
        sub(add(sub(lit(1), lit(2)), lit(3)), lit(4))
    );
    assert_eq!(eval_text("1-2+3-4"), -2.0);
    assert_eq!(parse("2*6/3/2").unwrap(), div(div(mul(lit(2), lit(6)), lit(3)), lit(2)));
    assert_eq!(eval_text("2*6/3/2"), 2.0);
    assert_eq!(
        parse("2^1^3^2").unwrap(),
        pow(lit(2), pow(lit(1), pow(lit(3), lit(2))))
    );
    assert_eq!(eval_text("2^1^3^2"), 2.0);
}
