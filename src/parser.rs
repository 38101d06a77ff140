//! Recursive-descent parsing of the token stream into a tree.
use vstd::prelude::*;

use crate::lexer::{next_token_spec, Lexer, Token, TokenView};
use crate::lexer::Function as FunctionKind;
use crate::node::{
    Add, Constant, Div, Factorial, Float, Function, Integer, Mult, Negate, Pow, Subtract, TreeNode,
};

verus! {

/// Why a text is not an expression.
#[derive(Debug, PartialEq, Eq, Clone, Copy)]
pub enum ParseError {
    /// An operator stands where an operand is required (`1+*2`).
    ChainedOperators,
    /// The lexer rejected part of the text.
    IllegalCharacter,
    /// A `(` is not closed by a `)` at the same level.
    ExpectedClosingParenthesis,
    /// An operand is required but the input ends, or a `)` follows.
    ExpectedExpression,
    /// A complete expression is followed by more tokens (`1 2`, `1)`).
    TrailingInput,
}

/// The tokens of `s` from position `p` up to the end of the input (the end
/// marker itself not included).
#[verifier::opaque]
pub open spec fn lex_from(s: Seq<char>, p: nat) -> Seq<TokenView>
    decreases s.len() - p,
{
    let (t, q) = next_token_spec(s, p);
    if t is EOF {
        seq![]
    } else {
        proof {
            crate::lexer::lemma_next_token_advances(s, p);
        }
        seq![t] + lex_from(s, q)
    }
}

/// One step of `lex_from`: the next token, then the tokens after it.
pub proof fn lemma_lex_from_step(s: Seq<char>, p: nat)
    ensures
        lex_from(s, p) == if next_token_spec(s, p).0 is EOF {
            Seq::<TokenView>::empty()
        } else {
            seq![next_token_spec(s, p).0] + lex_from(s, next_token_spec(s, p).1)
        },
{
    reveal(lex_from);
}

/// The tokens of a whole text.
pub open spec fn lex(s: Seq<char>) -> Seq<TokenView> {
    lex_from(s, 0)
}

/// The token at index `k`; the end marker past the last one.
pub open spec fn tok(ts: Seq<TokenView>, k: nat) -> TokenView {
    if k < ts.len() {
        ts[k as int]
    } else {
        TokenView::EOF
    }
}

/// How many tokens are left from index `k`.
pub open spec fn left_from(ts: Seq<TokenView>, k: nat) -> nat {
    if k <= ts.len() {
        (ts.len() - k) as nat
    } else {
        0
    }
}

/// A parse of part of a token sequence: the tree and how many tokens it used.
pub type Parsed = Result<(TreeNode, nat), ParseError>;

/// `r`, counting `c` more tokens as used.
pub open spec fn after(r: Parsed, c: nat) -> Parsed {
    match r {
        Ok((e, d)) => Ok((e, c + d)),
        Err(x) => Err(x),
    }
}

pub open spec fn add_node(a: TreeNode, b: TreeNode) -> TreeNode {
    TreeNode::Add(Add { left: Box::new(a), right: Box::new(b) })
}

pub open spec fn subtract_node(a: TreeNode, b: TreeNode) -> TreeNode {
    TreeNode::Subtract(Subtract { left: Box::new(a), right: Box::new(b) })
}

pub open spec fn mult_node(a: TreeNode, b: TreeNode) -> TreeNode {
    TreeNode::Mult(Mult { left: Box::new(a), right: Box::new(b) })
}

pub open spec fn div_node(a: TreeNode, b: TreeNode) -> TreeNode {
    TreeNode::Div(Div { left: Box::new(a), right: Box::new(b) })
}

pub open spec fn pow_node(a: TreeNode, b: TreeNode) -> TreeNode {
    TreeNode::Pow(Pow { left: Box::new(a), right: Box::new(b) })
}

pub open spec fn factorial_node(a: TreeNode) -> TreeNode {
    TreeNode::Factorial(Factorial { arg: Box::new(a) })
}

pub open spec fn negate_node(a: TreeNode) -> TreeNode {
    TreeNode::Negate(Negate { arg: Box::new(a) })
}

pub open spec fn function_node(f: FunctionKind, a: TreeNode) -> TreeNode {
    TreeNode::Function(Function { arg: Box::new(a), function: f })
}

/// Expression := Addition
pub open spec fn expression_at(ts: Seq<TokenView>, k: nat) -> Parsed
    decreases left_from(ts, k), 9nat,
{
    addition_at(ts, k)
}

/// Addition := Multiplication { ('+'|'-') Multiplication }
pub open spec fn addition_at(ts: Seq<TokenView>, k: nat) -> Parsed
    decreases left_from(ts, k), 8nat,
{
    match multiplication_at(ts, k) {
        Ok((a, c)) => after(addition_rest(ts, a, k + c), c),
        Err(x) => Err(x),
    }
}

/// The `{ ('+'|'-') Multiplication }` part, folding onto `acc` from the left.
pub open spec fn addition_rest(ts: Seq<TokenView>, acc: TreeNode, j: nat) -> Parsed
    decreases left_from(ts, j), 7nat,
{
    match tok(ts, j) {
        TokenView::Plus => match multiplication_at(ts, j + 1) {
            Ok((b, c)) => after(addition_rest(ts, add_node(acc, b), j + 1 + c), 1 + c),
            Err(x) => Err(x),
        },
        TokenView::Minus => match multiplication_at(ts, j + 1) {
            Ok((b, c)) => after(addition_rest(ts, subtract_node(acc, b), j + 1 + c), 1 + c),
            Err(x) => Err(x),
        },
        _ => Ok((acc, 0)),
    }
}

/// Multiplication := Exponentiation { ('*'|'/') Exponentiation }
pub open spec fn multiplication_at(ts: Seq<TokenView>, k: nat) -> Parsed
    decreases left_from(ts, k), 6nat,
{
    match exponentiation_at(ts, k) {
        Ok((a, c)) => after(multiplication_rest(ts, a, k + c), c),
        Err(x) => Err(x),
    }
}

/// The `{ ('*'|'/') Exponentiation }` part, folding onto `acc` from the left.
pub open spec fn multiplication_rest(ts: Seq<TokenView>, acc: TreeNode, j: nat) -> Parsed
    decreases left_from(ts, j), 5nat,
{
    match tok(ts, j) {
        TokenView::Asterisk => match exponentiation_at(ts, j + 1) {
            Ok((b, c)) => after(multiplication_rest(ts, mult_node(acc, b), j + 1 + c), 1 + c),
            Err(x) => Err(x),
        },
        TokenView::Slash => match exponentiation_at(ts, j + 1) {
            Ok((b, c)) => after(multiplication_rest(ts, div_node(acc, b), j + 1 + c), 1 + c),
            Err(x) => Err(x),
        },
        _ => Ok((acc, 0)),
    }
}

/// Exponentiation := Factorial [ '^' Exponentiation ]   (right-leaning)
pub open spec fn exponentiation_at(ts: Seq<TokenView>, k: nat) -> Parsed
    decreases left_from(ts, k), 4nat,
{
    match factorial_at(ts, k) {
        Ok((a, c)) => match tok(ts, k + c) {
            TokenView::Caret => match exponentiation_at(ts, k + c + 1) {
                Ok((b, d)) => Ok((pow_node(a, b), c + 1 + d)),
                Err(x) => Err(x),
            },
            _ => Ok((a, c)),
        },
        Err(x) => Err(x),
    }
}

/// Factorial := Basic [ '!' ]
pub open spec fn factorial_at(ts: Seq<TokenView>, k: nat) -> Parsed
    decreases left_from(ts, k), 3nat,
{
    match basic_at(ts, k) {
        Ok((a, c)) => match tok(ts, k + c) {
            TokenView::ExclamationMark => Ok((factorial_node(a), c + 1)),
            _ => Ok((a, c)),
        },
        Err(x) => Err(x),
    }
}

/// Basic := Integer | Float | Constant | Function Basic | '(' Expression ')'
///        | '-' Factorial
pub open spec fn basic_at(ts: Seq<TokenView>, k: nat) -> Parsed
    decreases left_from(ts, k), 2nat,
{
    match tok(ts, k) {
        TokenView::Integer(v) => Ok((TreeNode::Integer(Integer { val: v }), 1)),
        TokenView::Float(d) => Ok((TreeNode::Float(Float { val: d }), 1)),
        TokenView::Constant(s) => Ok((TreeNode::Constant(Constant { symbol: s }), 1)),
        TokenView::LeftParenthesis => match expression_at(ts, k + 1) {
            Ok((a, c)) => match tok(ts, k + 1 + c) {
                TokenView::RightParenthesis => Ok((a, c + 2)),
                _ => Err(ParseError::ExpectedClosingParenthesis),
            },
            Err(x) => Err(x),
        },
        TokenView::Function(f) => match basic_at(ts, k + 1) {
            Ok((a, c)) => Ok((function_node(f, a), c + 1)),
            Err(x) => Err(x),
        },
        TokenView::Minus => match factorial_at(ts, k + 1) {
            Ok((a, c)) => Ok((negate_node(a), c + 1)),
            Err(x) => Err(x),
        },
        TokenView::Illegal(_) => Err(ParseError::IllegalCharacter),
        TokenView::Plus => Err(ParseError::ChainedOperators),
        TokenView::Asterisk => Err(ParseError::ChainedOperators),
        TokenView::Slash => Err(ParseError::ChainedOperators),
        TokenView::Caret => Err(ParseError::ChainedOperators),
        TokenView::ExclamationMark => Err(ParseError::ChainedOperators),
        TokenView::RightParenthesis => Err(ParseError::ExpectedExpression),
        TokenView::EOF => Err(ParseError::ExpectedExpression),
    }
}

/// A whole token sequence as one expression.
pub open spec fn parse_tokens(ts: Seq<TokenView>) -> Result<TreeNode, ParseError> {
    match expression_at(ts, 0) {
        Ok((e, c)) => match tok(ts, c) {
            TokenView::EOF => Ok(e),
            TokenView::Illegal(_) => Err(ParseError::IllegalCharacter),
            _ => Err(ParseError::TrailingInput),
        },
        Err(x) => Err(x),
    }
}

/// A whole text as one expression.
pub open spec fn parse_text(s: Seq<char>) -> Result<TreeNode, ParseError> {
    parse_tokens(lex(s))
}


proof fn lemma_after_after(r: Parsed, c: nat, d: nat)
    ensures
        after(after(r, c), d) == after(r, d + c),
{
}

/// The state of one parse: the lexer and the current token.
pub struct Parser {
    lexer: Lexer,
    current_token: Token,
}

impl Parser {
    pub closed spec fn wf(&self) -> bool {
        self.lexer.wf()
    }

    /// The tokens that the next read starts from.
    pub closed spec fn pending(&self) -> Seq<TokenView> {
        lex_from(self.lexer.input(), self.lexer.position())
    }

    /// The tokens not consumed yet, the current one first.
    pub closed spec fn stream(&self) -> Seq<TokenView> {
        if self.current_token@ is EOF {
            seq![]
        } else {
            seq![self.current_token@] + self.pending()
        }
    }

    /// A parser over the tokens of `str`.
    pub fn new(str: &str) -> (r: Parser)
        ensures
            r.wf(),
            r.pending() == lex(str@),
    {
        let lexer = Lexer::new(str);
        Parser { lexer, current_token: Token::EOF }
    }

    /// Pulls the next token from the lexer into the current one.
    fn read_token(&mut self)
        requires
            old(self).wf(),
        ensures
            final(self).wf(),
            final(self).stream() == old(self).pending(),
    {
        let ghost s = self.lexer.input();
        let ghost p = self.lexer.position();
        self.current_token = self.lexer.next_token();
        proof {
            crate::lexer::lemma_next_token_advances(s, p);
            lemma_lex_from_step(s, p);
        }
    }

    /// Consumes the current token, which is `tok(ts, k)` and not the end marker.
    fn advance(&mut self, Ghost(ts): Ghost<Seq<TokenView>>, Ghost(k): Ghost<nat>)
        requires
            old(self).wf(),
            k <= ts.len(),
            old(self).stream() == ts.skip(k as int),
            !(old(self).current_token@ is EOF),
        ensures
            final(self).wf(),
            k < ts.len(),
            final(self).stream() == ts.skip(k + 1 as int),
    {
        let ghost pend = self.pending();
        assert(ts.skip(k as int).len() > 0);
        assert(pend =~= ts.skip(k + 1 as int)) by {
            assert(ts.skip(k as int) == seq![self.current_token@] + pend);
            assert forall|i: int| 0 <= i < pend.len() implies pend[i] == ts.skip(k + 1 as int)[i] by {
                assert(ts.skip(k as int)[i + 1] == pend[i]);
            }
        }
        self.read_token();
    }

    proof fn lemma_current(&self, ts: Seq<TokenView>, k: nat)
        requires
            k <= ts.len(),
            self.stream() == ts.skip(k as int),
        ensures
            self.current_token@ == tok(ts, k),
    {
        let st = self.stream();
        if !(self.current_token@ is EOF) {
            assert(st == seq![self.current_token@] + self.pending());
            assert(st.len() >= 1);
            assert(st[0] == self.current_token@);
            assert(ts.skip(k as int).len() == ts.len() - k);
            assert(ts.skip(k as int)[0] == ts[k as int]);
        } else {
            assert(st.len() == 0);
            assert(ts.skip(k as int).len() == ts.len() - k);
        }
    }

    /// Parses the whole token stream as one expression.
    #[verifier::rlimit(40)]
    pub fn parse(&mut self) -> (r: Result<TreeNode, ParseError>)
        requires
            old(self).wf(),
        ensures
            final(self).wf(),
            r == parse_tokens(old(self).pending()),
    {
        self.read_token();
        let ghost ts = self.stream();
        assert(ts.skip(0) =~= ts);
        let e = match self.parse_expression(Ghost(ts), Ghost(0)) {
            Ok(e) => e,
            Err(x) => {
                return Err(x);
            },
        };
        proof {
            let c = expression_at(ts, 0)->Ok_0.1;
            self.lemma_current(ts, c);
        }
        match &self.current_token {
            Token::EOF => Ok(e),
            Token::Illegal(_) => Err(ParseError::IllegalCharacter),
            _ => Err(ParseError::TrailingInput),
        }
    }

    /// Expression := Addition
    fn parse_expression(&mut self, Ghost(ts): Ghost<Seq<TokenView>>, Ghost(k): Ghost<nat>) -> (r:
        Result<TreeNode, ParseError>)
        requires
            old(self).wf(),
            k <= ts.len(),
            old(self).stream() == ts.skip(k as int),
        ensures
            final(self).wf(),
            match expression_at(ts, k) {
                Ok((e, c)) => r == Ok::<TreeNode, ParseError>(e) && k + c <= ts.len()
                    && final(self).stream() == ts.skip(k + c as int),
                Err(x) => r == Err::<TreeNode, ParseError>(x),
            },
        decreases left_from(ts, k), 9nat,
    {
        self.parse_addition(Ghost(ts), Ghost(k))
    }

    /// Addition := Multiplication { ('+'|'-') Multiplication }, folded from the left.
    #[verifier::rlimit(60)]
    fn parse_addition(&mut self, Ghost(ts): Ghost<Seq<TokenView>>, Ghost(k): Ghost<nat>) -> (r:
        Result<TreeNode, ParseError>)
        requires
            old(self).wf(),
            k <= ts.len(),
            old(self).stream() == ts.skip(k as int),
        ensures
            final(self).wf(),
            match addition_at(ts, k) {
                Ok((e, c)) => r == Ok::<TreeNode, ParseError>(e) && k + c <= ts.len()
                    && final(self).stream() == ts.skip(k + c as int),
                Err(x) => r == Err::<TreeNode, ParseError>(x),
            },
        decreases left_from(ts, k), 8nat,
    {
        let mut a = match self.parse_multiplication(Ghost(ts), Ghost(k)) {
            Ok(a) => a,
            Err(x) => {
                return Err(x);
            },
        };
        let ghost mut j: nat = k + multiplication_at(ts, k)->Ok_0.1;
        loop
            invariant
                self.wf(),
                k <= j <= ts.len(),
                self.stream() == ts.skip(j as int),
                after(addition_rest(ts, a, j), (j - k) as nat) == addition_at(ts, k),
            decreases left_from(ts, j),
        {
            proof {
                self.lemma_current(ts, j);
            }
            let first = match &self.current_token {
                Token::Plus => true,
                Token::Minus => false,
                _ => {
                    return Ok(a);
                },
            };
            self.advance(Ghost(ts), Ghost(j));
            let b = match self.parse_multiplication(Ghost(ts), Ghost(j + 1)) {
                Ok(b) => b,
                Err(x) => {
                    return Err(x);
                },
            };
            let ghost c = multiplication_at(ts, j + 1)->Ok_0.1;
            if first {
                proof {
                    lemma_after_after(addition_rest(ts, add_node(a, b), j + 1 + c), 1 + c, (j - k) as nat);
                }
                a = TreeNode::Add(Add { left: Box::new(a), right: Box::new(b) });
            } else {
                proof {
                    lemma_after_after(addition_rest(ts, subtract_node(a, b), j + 1 + c), 1 + c, (j - k) as nat);
                }
                a = TreeNode::Subtract(Subtract { left: Box::new(a), right: Box::new(b) });
            }
            proof {
                j = j + 1 + c;
            }
        }
    }

    /// Multiplication := Exponentiation { ('*'|'/') Exponentiation }, folded from the left.
    #[verifier::rlimit(60)]
    fn parse_multiplication(&mut self, Ghost(ts): Ghost<Seq<TokenView>>, Ghost(k): Ghost<nat>) -> (r:
        Result<TreeNode, ParseError>)
        requires
            old(self).wf(),
            k <= ts.len(),
            old(self).stream() == ts.skip(k as int),
        ensures
            final(self).wf(),
            match multiplication_at(ts, k) {
                Ok((e, c)) => r == Ok::<TreeNode, ParseError>(e) && k + c <= ts.len()
                    && final(self).stream() == ts.skip(k + c as int),
                Err(x) => r == Err::<TreeNode, ParseError>(x),
            },
        decreases left_from(ts, k), 6nat,
    {
        let mut a = match self.parse_exponentiation(Ghost(ts), Ghost(k)) {
            Ok(a) => a,
            Err(x) => {
                return Err(x);
            },
        };
        let ghost mut j: nat = k + exponentiation_at(ts, k)->Ok_0.1;
        loop
            invariant
                self.wf(),
                k <= j <= ts.len(),
                self.stream() == ts.skip(j as int),
                after(multiplication_rest(ts, a, j), (j - k) as nat) == multiplication_at(ts, k),
            decreases left_from(ts, j),
        {
            proof {
                self.lemma_current(ts, j);
            }
            let first = match &self.current_token {
                Token::Asterisk => true,
                Token::Slash => false,
                _ => {
                    return Ok(a);
                },
            };
            self.advance(Ghost(ts), Ghost(j));
            let b = match self.parse_exponentiation(Ghost(ts), Ghost(j + 1)) {
                Ok(b) => b,
                Err(x) => {
                    return Err(x);
                },
            };
            let ghost c = exponentiation_at(ts, j + 1)->Ok_0.1;
            if first {
                proof {
                    lemma_after_after(multiplication_rest(ts, mult_node(a, b), j + 1 + c), 1 + c, (j - k) as nat);
                }
                a = TreeNode::Mult(Mult { left: Box::new(a), right: Box::new(b) });
            } else {
                proof {
                    lemma_after_after(multiplication_rest(ts, div_node(a, b), j + 1 + c), 1 + c, (j - k) as nat);
                }
                a = TreeNode::Div(Div { left: Box::new(a), right: Box::new(b) });
            }
            proof {
                j = j + 1 + c;
            }
        }
    }

    /// Exponentiation := Factorial [ '^' Exponentiation ], grouped from the right.
    fn parse_exponentiation(&mut self, Ghost(ts): Ghost<Seq<TokenView>>, Ghost(k): Ghost<nat>) -> (r:
        Result<TreeNode, ParseError>)
        requires
            old(self).wf(),
            k <= ts.len(),
            old(self).stream() == ts.skip(k as int),
        ensures
            final(self).wf(),
            match exponentiation_at(ts, k) {
                Ok((e, c)) => r == Ok::<TreeNode, ParseError>(e) && k + c <= ts.len()
                    && final(self).stream() == ts.skip(k + c as int),
                Err(x) => r == Err::<TreeNode, ParseError>(x),
            },
        decreases left_from(ts, k), 4nat,
    {
        let a = match self.parse_factorial(Ghost(ts), Ghost(k)) {
            Ok(a) => a,
            Err(x) => {
                return Err(x);
            },
        };
        let ghost j: nat = k + factorial_at(ts, k)->Ok_0.1;
        proof {
            self.lemma_current(ts, j);
        }
        match &self.current_token {
            Token::Caret => {
                self.advance(Ghost(ts), Ghost(j));
                let b = match self.parse_exponentiation(Ghost(ts), Ghost(j + 1)) {
                    Ok(b) => b,
                    Err(x) => {
                        return Err(x);
                    },
                };
                Ok(TreeNode::Pow(Pow { left: Box::new(a), right: Box::new(b) }))
            },
            _ => Ok(a),
        }
    }

    /// Factorial := Basic [ '!' ]
    fn parse_factorial(&mut self, Ghost(ts): Ghost<Seq<TokenView>>, Ghost(k): Ghost<nat>) -> (r:
        Result<TreeNode, ParseError>)
        requires
            old(self).wf(),
            k <= ts.len(),
            old(self).stream() == ts.skip(k as int),
        ensures
            final(self).wf(),
            match factorial_at(ts, k) {
                Ok((e, c)) => r == Ok::<TreeNode, ParseError>(e) && k + c <= ts.len()
                    && final(self).stream() == ts.skip(k + c as int),
                Err(x) => r == Err::<TreeNode, ParseError>(x),
            },
        decreases left_from(ts, k), 3nat,
    {
        let a = match self.parse_basic(Ghost(ts), Ghost(k)) {
            Ok(a) => a,
            Err(x) => {
                return Err(x);
            },
        };
        let ghost j: nat = k + basic_at(ts, k)->Ok_0.1;
        proof {
            self.lemma_current(ts, j);
        }
        match &self.current_token {
            Token::ExclamationMark => {
                self.advance(Ghost(ts), Ghost(j));
                Ok(TreeNode::Factorial(Factorial { arg: Box::new(a) }))
            },
            _ => Ok(a),
        }
    }

    /// Basic: a literal, a constant, a function applied to a Basic, a
    /// parenthesized Expression, or `-` before a Factorial.
    #[verifier::rlimit(60)]
    fn parse_basic(&mut self, Ghost(ts): Ghost<Seq<TokenView>>, Ghost(k): Ghost<nat>) -> (r: Result<
        TreeNode,
        ParseError,
    >)
        requires
            old(self).wf(),
            k <= ts.len(),
            old(self).stream() == ts.skip(k as int),
        ensures
            final(self).wf(),
            match basic_at(ts, k) {
                Ok((e, c)) => r == Ok::<TreeNode, ParseError>(e) && k + c <= ts.len()
                    && final(self).stream() == ts.skip(k + c as int),
                Err(x) => r == Err::<TreeNode, ParseError>(x),
            },
        decreases left_from(ts, k), 2nat,
    {
        proof {
            self.lemma_current(ts, k);
        }
        match &self.current_token {
            Token::Integer(v) => {
                let val = *v;
                self.advance(Ghost(ts), Ghost(k));
                Ok(TreeNode::Integer(Integer { val }))
            },
            Token::Float(d) => {
                let val = *d;
                self.advance(Ghost(ts), Ghost(k));
                Ok(TreeNode::Float(Float { val }))
            },
            Token::Constant(c) => {
                let symbol = *c;
                self.advance(Ghost(ts), Ghost(k));
                Ok(TreeNode::Constant(Constant { symbol }))
            },
            Token::LeftParenthesis => {
                self.advance(Ghost(ts), Ghost(k));
                let a = match self.parse_expression(Ghost(ts), Ghost(k + 1)) {
                    Ok(a) => a,
                    Err(x) => {
                        return Err(x);
                    },
                };
                let ghost j: nat = k + 1 + expression_at(ts, k + 1)->Ok_0.1;
                proof {
                    self.lemma_current(ts, j);
                }
                match &self.current_token {
                    Token::RightParenthesis => {
                        self.advance(Ghost(ts), Ghost(j));
                        Ok(a)
                    },
                    _ => Err(ParseError::ExpectedClosingParenthesis),
                }
            },
            Token::Function(f) => {
                let function = *f;
                self.advance(Ghost(ts), Ghost(k));
                let a = match self.parse_basic(Ghost(ts), Ghost(k + 1)) {
                    Ok(a) => a,
                    Err(x) => {
                        return Err(x);
                    },
                };
                Ok(TreeNode::Function(Function { arg: Box::new(a), function }))
            },
            Token::Minus => {
                self.advance(Ghost(ts), Ghost(k));
                let a = match self.parse_factorial(Ghost(ts), Ghost(k + 1)) {
                    Ok(a) => a,
                    Err(x) => {
                        return Err(x);
                    },
                };
                Ok(TreeNode::Negate(Negate { arg: Box::new(a) }))
            },
            Token::Illegal(_) => Err(ParseError::IllegalCharacter),
            Token::Plus => Err(ParseError::ChainedOperators),
            Token::Asterisk => Err(ParseError::ChainedOperators),
            Token::Slash => Err(ParseError::ChainedOperators),
            Token::Caret => Err(ParseError::ChainedOperators),
            Token::ExclamationMark => Err(ParseError::ChainedOperators),
            Token::RightParenthesis => Err(ParseError::ExpectedExpression),
            Token::EOF => Err(ParseError::ExpectedExpression),
        }
    }
}

/// Parses `text` as one expression.
pub fn parse(text: &str) -> (r: Result<TreeNode, ParseError>)
    ensures
        r == parse_text(text@),
{
    let mut parser = Parser::new(text);
    parser.parse()
}

} // verus!
