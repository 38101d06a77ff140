use arith_parser::lexer::{Constant as ConstantKind, Function as FunctionKind};
use arith_parser::node::{factorial_of, TreeNode};
use arith_parser::parser::{ParseError, Parser};

/// Double-precision value of a tree, as the command-line program computes it.
fn eval(node: &TreeNode) -> f64 {
    match node {
        TreeNode::Integer(n) => n.val as f64,
        TreeNode::Float(x) => format!("{}.{:0w$}", x.val.whole, x.val.fraction, w = x.val.scale)
            .parse()
            .unwrap(),
        TreeNode::Constant(c) => match c.symbol {
            ConstantKind::g => 9.82,
            ConstantKind::pi => std::f64::consts::PI,
            ConstantKind::e => std::f64::consts::E,
        },
        TreeNode::Negate(n) => -eval(&n.arg),
        TreeNode::Factorial(f) => {
            let v = eval(&f.arg);
            assert!(v >= 0.0 && v.fract() == 0.0);
            factorial_of(v as u64).unwrap() as f64
        }
        TreeNode::Function(f) => match f.function {
            FunctionKind::sin => eval(&f.arg).sin(),
            FunctionKind::ln => eval(&f.arg).ln(),
        },
        TreeNode::Add(b) => eval(&b.left) + eval(&b.right),
        TreeNode::Subtract(b) => eval(&b.left) - eval(&b.right),
        TreeNode::Mult(b) => eval(&b.left) * eval(&b.right),
        TreeNode::Div(b) => eval(&b.left) / eval(&b.right),
        TreeNode::Pow(b) => eval(&b.left).powf(eval(&b.right)),
    }
}

fn test(input: &str, expected: f64) {
    let mut parser = Parser::new(input);
    let res = parser.parse();
    assert_eq!(eval(&res.unwrap()), expected);
}

#[test]
fn addition() {
    test("2 + 3 +1 +4", 10.0);
}

#[test]
fn subtraction() {
    test("4-2", 2.0);
}

#[test]
fn multiplication_positive_positive() {
    test("2 * 6", 12.0);
}

#[test]
fn multiplication_negative_positive() {
    test("(-2) * 6", -12.0);
}

#[test]
fn negative_number() {
    test("(-2)", -2.0);
}

#[test]
fn power() {
    test("2^3", 8.0);
}

#[test]
fn factorial() {
    test("4!", 24.0);
    test("6!", 720.0)
}

#[test]
fn order_of_operation() {
    test("2*(10-2^3+1)!", 12.0)
}

#[test]
fn chained_operators() {
    let mut parser = Parser::new("1+*2");
    let result = parser.parse();

    assert_eq!(result.err().unwrap(), ParseError::ChainedOperators);
}

#[test]
fn constant() {
    test("g", 9.82);
}
