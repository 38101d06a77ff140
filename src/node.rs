//! The syntax tree and its printed form.
use vstd::prelude::*;

use crate::chars::push_char;
use crate::lexer::{Constant as ConstantKind, Decimal, Function as FunctionKind};

verus! {

/// A named constant, resolved to its value when the tree is evaluated.
#[derive(Debug, PartialEq)]
pub struct Constant {
    pub symbol: ConstantKind,
}

/// An integer literal.
#[derive(Debug, PartialEq)]
pub struct Integer {
    pub val: u32,
}

/// A decimal literal.
#[derive(Debug, PartialEq)]
pub struct Float {
    pub val: Decimal,
}

/// Unary minus.
#[derive(Debug, PartialEq)]
pub struct Negate {
    pub arg: Box<TreeNode>,
}

/// Postfix `!`.
#[derive(Debug, PartialEq)]
pub struct Factorial {
    pub arg: Box<TreeNode>,
}

/// A named function applied to an argument.
#[derive(Debug, PartialEq)]
pub struct Function {
    pub arg: Box<TreeNode>,
    pub function: FunctionKind,
}

#[derive(Debug, PartialEq)]
pub struct Add {
    pub left: Box<TreeNode>,
    pub right: Box<TreeNode>,
}

#[derive(Debug, PartialEq)]
pub struct Subtract {
    pub left: Box<TreeNode>,
    pub right: Box<TreeNode>,
}

#[derive(Debug, PartialEq)]
pub struct Mult {
    pub left: Box<TreeNode>,
    pub right: Box<TreeNode>,
}

#[derive(Debug, PartialEq)]
pub struct Div {
    pub left: Box<TreeNode>,
    pub right: Box<TreeNode>,
}

#[derive(Debug, PartialEq)]
pub struct Pow {
    pub left: Box<TreeNode>,
    pub right: Box<TreeNode>,
}

/// An expression tree: every node owns its operands.
#[derive(Debug, PartialEq)]
pub enum TreeNode {
    Integer(Integer),
    Float(Float),
    Constant(Constant),
    Negate(Negate),
    Factorial(Factorial),
    Function(Function),
    Add(Add),
    Subtract(Subtract),
    Mult(Mult),
    Div(Div),
    Pow(Pow),
}

/// The character of the decimal digit `d`.
pub open spec fn digit_char_spec(d: nat) -> char {
    if d == 0 {
        '0'
    } else if d == 1 {
        '1'
    } else if d == 2 {
        '2'
    } else if d == 3 {
        '3'
    } else if d == 4 {
        '4'
    } else if d == 5 {
        '5'
    } else if d == 6 {
        '6'
    } else if d == 7 {
        '7'
    } else if d == 8 {
        '8'
    } else {
        '9'
    }
}

/// `n` in decimal, without leading zeros.
pub open spec fn decimal_digits(n: nat) -> Seq<char>
    decreases n,
{
    if n < 10 {
        seq![digit_char_spec(n)]
    } else {
        decimal_digits(n / 10).push(digit_char_spec(n % 10))
    }
}

/// The last `w` decimal digits of `f`, leading zeros included.
pub open spec fn fraction_digits(f: nat, w: nat) -> Seq<char>
    decreases w,
{
    if w == 0 {
        seq![]
    } else {
        fraction_digits(f / 10, (w - 1) as nat).push(digit_char_spec(f % 10))
    }
}

/// A decimal literal as it is written back: `whole.fraction`.
pub open spec fn decimal_text(d: Decimal) -> Seq<char> {
    decimal_digits(d.whole as nat) + seq!['.'] + fraction_digits(d.fraction as nat, d.scale as nat)
}

pub open spec fn constant_name(c: ConstantKind) -> Seq<char> {
    match c {
        ConstantKind::g => seq!['g'],
        ConstantKind::pi => seq!['p', 'i'],
        ConstantKind::e => seq!['e'],
    }
}

pub open spec fn function_name(f: FunctionKind) -> Seq<char> {
    match f {
        FunctionKind::sin => seq!['s', 'i', 'n'],
        FunctionKind::ln => seq!['l', 'n'],
    }
}

/// `(left op right)`, with the right operand in parentheses of its own
/// when `wrap_right` holds.
pub open spec fn binary_text(left: Seq<char>, op: char, right: Seq<char>, wrap_right: bool) -> Seq<
    char,
> {
    if wrap_right {
        seq!['('] + left + seq![' ', op, ' ', '('] + right + seq![')', ')']
    } else {
        seq!['('] + left + seq![' ', op, ' '] + right + seq![')']
    }
}

/// The fully parenthesized text of a tree.
pub open spec fn printed(e: TreeNode) -> Seq<char>
    decreases e,
{
    match e {
        TreeNode::Integer(n) => decimal_digits(n.val as nat),
        TreeNode::Float(x) => decimal_text(x.val),
        TreeNode::Constant(c) => constant_name(c.symbol),
        TreeNode::Negate(n) => seq!['-', '('] + printed(*n.arg) + seq![')'],
        TreeNode::Factorial(f) => seq!['('] + printed(*f.arg) + seq![')', '!'],
        TreeNode::Function(f) => seq!['('] + function_name(f.function) + seq![' ', '('] + printed(
            *f.arg,
        ) + seq![')', ')'],
        TreeNode::Add(b) => binary_text(printed(*b.left), '+', printed(*b.right), false),
        TreeNode::Subtract(b) => binary_text(printed(*b.left), '-', printed(*b.right), false),
        TreeNode::Mult(b) => binary_text(printed(*b.left), '*', printed(*b.right), false),
        TreeNode::Div(b) => binary_text(printed(*b.left), '/', printed(*b.right), true),
        TreeNode::Pow(b) => binary_text(printed(*b.left), '^', printed(*b.right), true),
    }
}

fn digit_char(d: u32) -> (r: char)
    requires
        d < 10,
    ensures
        r == digit_char_spec(d as nat),
{
    match d {
        0 => '0',
        1 => '1',
        2 => '2',
        3 => '3',
        4 => '4',
        5 => '5',
        6 => '6',
        7 => '7',
        8 => '8',
        _ => '9',
    }
}

fn write_decimal(n: u32, out: &mut String)
    ensures
        final(out)@ == old(out)@ + decimal_digits(n as nat),
    decreases n,
{
    let ghost before = out@;
    if n >= 10 {
        write_decimal(n / 10, out);
    }
    push_char(out, digit_char(n % 10));
    assert(out@ =~= before + decimal_digits(n as nat));
}

fn write_fraction(f: u32, w: usize, out: &mut String)
    ensures
        final(out)@ == old(out)@ + fraction_digits(f as nat, w as nat),
    decreases w,
{
    let ghost before = out@;
    if w > 0 {
        write_fraction(f / 10, w - 1, out);
        push_char(out, digit_char(f % 10));
    }
    assert(out@ =~= before + fraction_digits(f as nat, w as nat));
}

/// Writes the characters of `t` at the end of `out`.
fn push_text(out: &mut String, t: &[char])
    ensures
        final(out)@ == old(out)@ + t@,
{
    let ghost before = out@;
    let mut i: usize = 0;
    while i < t.len()
        invariant
            i <= t.len(),
            out@ == before + t@.subrange(0, i as int),
        decreases t.len() - i,
    {
        push_char(out, t[i]);
        assert(t@.subrange(0, i + 1) =~= t@.subrange(0, i as int).push(t@[i as int]));
        i = i + 1;
    }
    assert(t@.subrange(0, t.len() as int) =~= t@);
}

impl TreeNode {
    fn write(&self, out: &mut String)
        ensures
            final(out)@ == old(out)@ + printed(*self),
        decreases self,
    {
        let ghost before = out@;
        match self {
            TreeNode::Integer(n) => write_decimal(n.val, out),
            TreeNode::Float(x) => {
                write_decimal(x.val.whole, out);
                push_char(out, '.');
                write_fraction(x.val.fraction, x.val.scale, out);
            },
            TreeNode::Constant(c) => match c.symbol {
                ConstantKind::g => push_text(out, &['g']),
                ConstantKind::pi => push_text(out, &['p', 'i']),
                ConstantKind::e => push_text(out, &['e']),
            },
            TreeNode::Negate(n) => {
                push_text(out, &['-', '(']);
                n.arg.write(out);
                push_char(out, ')');
            },
            TreeNode::Factorial(f) => {
                push_char(out, '(');
                f.arg.write(out);
                push_text(out, &[')', '!']);
            },
            TreeNode::Function(f) => {
                push_char(out, '(');
                match f.function {
                    FunctionKind::sin => push_text(out, &['s', 'i', 'n', ' ', '(']),
                    FunctionKind::ln => push_text(out, &['l', 'n', ' ', '(']),
                }
                f.arg.write(out);
                push_text(out, &[')', ')']);
            },
            TreeNode::Add(b) => {
                push_char(out, '(');
                b.left.write(out);
                push_text(out, &[' ', '+', ' ']);
                b.right.write(out);
                push_char(out, ')');
            },
            TreeNode::Subtract(b) => {
                push_char(out, '(');
                b.left.write(out);
                push_text(out, &[' ', '-', ' ']);
                b.right.write(out);
                push_char(out, ')');
            },
            TreeNode::Mult(b) => {
                push_char(out, '(');
                b.left.write(out);
                push_text(out, &[' ', '*', ' ']);
                b.right.write(out);
                push_char(out, ')');
            },
            TreeNode::Div(b) => {
                push_char(out, '(');
                b.left.write(out);
                push_text(out, &[' ', '/', ' ', '(']);
                b.right.write(out);
                push_text(out, &[')', ')']);
            },
            TreeNode::Pow(b) => {
                push_char(out, '(');
                b.left.write(out);
                push_text(out, &[' ', '^', ' ', '(']);
                b.right.write(out);
                push_text(out, &[')', ')']);
            },
        }
        assert(out@ =~= before + printed(*self));
    }

    /// The fully parenthesized text of the tree, e.g. `((4 - (2 ^ (3))) + 1)`.
    pub fn print(&self) -> (r: String)
        ensures
            r@ == printed(*self),
    {
        let mut out = String::new();
        self.write(&mut out);
        assert(out@ =~= printed(*self));
        out
    }
}

/// `1 * 2 * ... * n`; 1 for 0.
pub open spec fn factorial_spec(n: nat) -> nat
    decreases n,
{
    if n == 0 {
        1
    } else {
        n * factorial_spec((n - 1) as nat)
    }
}

/// The product `1 * 2 * ... * n`, or `None` when it exceeds `u64::MAX`.
pub fn factorial_of(n: u64) -> (r: Option<u64>)
    ensures
        r == if factorial_spec(n as nat) <= u64::MAX {
            Some(factorial_spec(n as nat) as u64)
        } else {
            None::<u64>
        },
{
    let mut acc: u64 = 1;
    let mut i: u64 = 0;
    while i < n
        invariant
            i <= n,
            acc as nat == factorial_spec(i as nat),
        decreases n - i,
    {
        i = i + 1;
        assert(factorial_spec(i as nat) == acc * i) by {
            assert(factorial_spec(i as nat) == i * factorial_spec((i - 1) as nat));
            assert(i * (acc as nat) == (acc as nat) * i) by (nonlinear_arith);
        }
        match acc.checked_mul(i) {
            Some(v) => {
                acc = v;
            },
            None => {
                proof {
                    lemma_factorial_grows(i as nat, n as nat);
                }
                return None;
            },
        }
    }
    Some(acc)
}

proof fn lemma_factorial_grows(i: nat, n: nat)
    requires
        1 <= i <= n,
    ensures
        factorial_spec(i) <= factorial_spec(n),
    decreases n - i,
{
    if i < n {
        lemma_factorial_grows(i, (n - 1) as nat);
        assert(factorial_spec((n - 1) as nat) <= n * factorial_spec((n - 1) as nat)) by (nonlinear_arith)
            requires
                n >= 1,
        ;
    }
}

} // verus!
