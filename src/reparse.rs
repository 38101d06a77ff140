//! Printing a tree and parsing the printed text gives the same tree back;
//! chains of one kind of operator group as the grammar says.
use vstd::prelude::*;

use vstd::arithmetic::div_mod::{lemma_mod_breakdown, lemma_small_mod};

use crate::chars::{digit_value_spec, is_digit_spec, white_space};
use crate::lexer::{
    digits_end, digits_value, float_token, lemma_digits_value_push, next_token_spec, pow10,
    spaces_end,
    symbol_token, TokenView,
};
use crate::node::{
    binary_text, decimal_digits, decimal_text, digit_char_spec, fraction_digits, printed, TreeNode,
};
use crate::parser::{
    ParseError,
    add_node, addition_at, addition_rest, basic_at, div_node, expression_at, exponentiation_at,
    factorial_at, factorial_node, function_node, lemma_lex_from_step, lex, lex_from,
    mult_node, multiplication_at, multiplication_rest, negate_node, parse_text,
    pow_node, subtract_node, tok,
};

verus! {

/// No constants and no functions in the tree.
pub open spec fn name_free(e: TreeNode) -> bool
    decreases e,
{
    match e {
        TreeNode::Constant(_) => false,
        TreeNode::Function(_) => false,
        TreeNode::Negate(n) => name_free(*n.arg),
        TreeNode::Factorial(f) => name_free(*f.arg),
        TreeNode::Add(b) => name_free(*b.left) && name_free(*b.right),
        TreeNode::Subtract(b) => name_free(*b.left) && name_free(*b.right),
        TreeNode::Mult(b) => name_free(*b.left) && name_free(*b.right),
        TreeNode::Div(b) => name_free(*b.left) && name_free(*b.right),
        TreeNode::Pow(b) => name_free(*b.left) && name_free(*b.right),
        _ => true,
    }
}

/// Every decimal literal in the tree is well formed (as the lexer makes them).
pub open spec fn decimals_wf(e: TreeNode) -> bool
    decreases e,
{
    match e {
        TreeNode::Float(x) => x.val.wf(),
        TreeNode::Negate(n) => decimals_wf(*n.arg),
        TreeNode::Factorial(f) => decimals_wf(*f.arg),
        TreeNode::Function(f) => decimals_wf(*f.arg),
        TreeNode::Add(b) => decimals_wf(*b.left) && decimals_wf(*b.right),
        TreeNode::Subtract(b) => decimals_wf(*b.left) && decimals_wf(*b.right),
        TreeNode::Mult(b) => decimals_wf(*b.left) && decimals_wf(*b.right),
        TreeNode::Div(b) => decimals_wf(*b.left) && decimals_wf(*b.right),
        TreeNode::Pow(b) => decimals_wf(*b.left) && decimals_wf(*b.right),
        _ => true,
    }
}

/// The tokens of `(left op right)`, the right operand in parentheses of its
/// own when `wrap_right` holds.
pub open spec fn binary_tokens(
    left: Seq<TokenView>,
    op: TokenView,
    right: Seq<TokenView>,
    wrap_right: bool,
) -> Seq<TokenView> {
    if wrap_right {
        seq![TokenView::LeftParenthesis] + left + seq![op, TokenView::LeftParenthesis] + right + seq![
            TokenView::RightParenthesis,
            TokenView::RightParenthesis,
        ]
    } else {
        seq![TokenView::LeftParenthesis] + left + seq![op] + right + seq![
            TokenView::RightParenthesis,
        ]
    }
}

/// The tokens of the printed text of a tree.
pub open spec fn tokens_of(e: TreeNode) -> Seq<TokenView>
    decreases e,
{
    match e {
        TreeNode::Integer(n) => seq![TokenView::Integer(n.val)],
        TreeNode::Float(x) => seq![TokenView::Float(x.val)],
        TreeNode::Constant(c) => seq![TokenView::Constant(c.symbol)],
        TreeNode::Negate(n) => seq![TokenView::Minus, TokenView::LeftParenthesis] + tokens_of(
            *n.arg,
        ) + seq![TokenView::RightParenthesis],
        TreeNode::Factorial(f) => seq![TokenView::LeftParenthesis] + tokens_of(*f.arg) + seq![
            TokenView::RightParenthesis,
            TokenView::ExclamationMark,
        ],
        TreeNode::Function(f) => seq![
            TokenView::LeftParenthesis,
            TokenView::Function(f.function),
            TokenView::LeftParenthesis,
        ] + tokens_of(*f.arg) + seq![TokenView::RightParenthesis, TokenView::RightParenthesis],
        TreeNode::Add(b) => binary_tokens(
            tokens_of(*b.left),
            TokenView::Plus,
            tokens_of(*b.right),
            false,
        ),
        TreeNode::Subtract(b) => binary_tokens(
            tokens_of(*b.left),
            TokenView::Minus,
            tokens_of(*b.right),
            false,
        ),
        TreeNode::Mult(b) => binary_tokens(
            tokens_of(*b.left),
            TokenView::Asterisk,
            tokens_of(*b.right),
            false,
        ),
        TreeNode::Div(b) => binary_tokens(
            tokens_of(*b.left),
            TokenView::Slash,
            tokens_of(*b.right),
            true,
        ),
        TreeNode::Pow(b) => binary_tokens(
            tokens_of(*b.left),
            TokenView::Caret,
            tokens_of(*b.right),
            true,
        ),
    }
}

proof fn lemma_digit_char(d: nat)
    requires
        d < 10,
    ensures
        is_digit_spec(digit_char_spec(d)),
        digit_value_spec(digit_char_spec(d)) == d,
{
}

proof fn lemma_pow10_positive(n: nat)
    ensures
        pow10(n) > 0,
    decreases n,
{
    if n > 0 {
        lemma_pow10_positive((n - 1) as nat);
    }
}

proof fn lemma_decimal_digits(n: nat)
    ensures
        decimal_digits(n).len() >= 1,
        forall|i: int|
            0 <= i < decimal_digits(n).len() ==> is_digit_spec(#[trigger] decimal_digits(n)[i]),
        digits_value(decimal_digits(n)) == n,
    decreases n,
{
    if n >= 10 {
        lemma_decimal_digits(n / 10);
        lemma_digit_char(n % 10);
        lemma_digits_value_push(decimal_digits(n / 10), digit_char_spec(n % 10));
    } else {
        lemma_digit_char(n);
        lemma_digits_value_push(seq![], digit_char_spec(n));
        assert(seq![digit_char_spec(n)] =~= Seq::<char>::empty().push(digit_char_spec(n)));
    }
}

proof fn lemma_fraction_digits(f: nat, w: nat)
    ensures
        fraction_digits(f, w).len() == w,
        forall|i: int| 0 <= i < w ==> is_digit_spec(#[trigger] fraction_digits(f, w)[i]),
        digits_value(fraction_digits(f, w)) == f % pow10(w),
    decreases w,
{
    if w > 0 {
        let v = (w - 1) as nat;
        lemma_fraction_digits(f / 10, v);
        lemma_digit_char(f % 10);
        lemma_digits_value_push(fraction_digits(f / 10, v), digit_char_spec(f % 10));
        lemma_pow10_positive(v);
        lemma_mod_breakdown(f as int, 10, pow10(v) as int);
    } else {
        assert(digits_value(Seq::<char>::empty()) == 0);
    }
}

/// What ends the text of a subtree: a space, a `)`, or the end.
pub open spec fn ends_cleanly(s: Seq<char>, i: nat) -> bool {
    i == s.len() || (i < s.len() && (s[i as int] == ' ' || s[i as int] == ')'))
}

/// What may follow an integer literal: neither a digit nor a `.`, or the end.
pub open spec fn ends_number(s: Seq<char>, i: nat) -> bool {
    i == s.len() || (i < s.len() && !is_digit_spec(s[i as int]) && s[i as int] != '.')
}

proof fn lemma_digits_run(s: Seq<char>, p: nat, m: nat)
    requires
        p + m <= s.len(),
        forall|i: int| p <= i < p + m ==> is_digit_spec(#[trigger] s[i]),
        p + m == s.len() || !is_digit_spec(s[p + m as int]),
    ensures
        digits_end(s, p) == p + m,
    decreases m,
{
    if m > 0 {
        lemma_digits_run(s, p + 1, (m - 1) as nat);
    }
}

proof fn lemma_lex_space(s: Seq<char>, p: nat)
    requires
        p < s.len(),
        white_space(s[p as int]),
    ensures
        lex_from(s, p) == lex_from(s, p + 1),
{
    assert(spaces_end(s, p) == spaces_end(s, p + 1));
    assert(next_token_spec(s, p) == next_token_spec(s, p + 1));
    lemma_lex_from_step(s, p);
    lemma_lex_from_step(s, p + 1);
}

proof fn lemma_lex_symbol(s: Seq<char>, p: nat)
    requires
        p < s.len(),
        symbol_token(s[p as int]) is Some,
    ensures
        lex_from(s, p) == seq![symbol_token(s[p as int])->0] + lex_from(s, p + 1),
{
    assert(!white_space(s[p as int]));
    assert(spaces_end(s, p) == p);
    assert(next_token_spec(s, p) == (symbol_token(s[p as int])->0, p + 1));
    lemma_lex_from_step(s, p);
}


proof fn lemma_char_at(s: Seq<char>, p: nat, t: Seq<char>, i: int)
    requires
        p + t.len() <= s.len(),
        s.subrange(p as int, (p + t.len()) as int) == t,
        0 <= i < t.len(),
    ensures
        s[p + i] == t[i],
{
    assert(s.subrange(p as int, (p + t.len()) as int)[i] == s[p + i]);
}

proof fn lemma_text_at(s: Seq<char>, p: nat, t: Seq<char>, i: int, u: Seq<char>)
    requires
        p + t.len() <= s.len(),
        s.subrange(p as int, (p + t.len()) as int) == t,
        0 <= i,
        i + u.len() <= t.len(),
        t.subrange(i, i + u.len()) == u,
    ensures
        s.subrange((p + i) as int, (p + i + u.len()) as int) == u,
{
    assert forall|k: int| 0 <= k < u.len() implies s.subrange((p + i) as int, (p + i + u.len()) as int)[k] == u[k] by {
        lemma_char_at(s, p, t, i + k);
        assert(t.subrange(i, i + u.len())[k] == t[i + k]);
    }
    assert(s.subrange((p + i) as int, (p + i + u.len()) as int) =~= u);
}

proof fn lemma_lex_integer(s: Seq<char>, p: nat, v: u32)
    requires
        p + decimal_digits(v as nat).len() <= s.len(),
        s.subrange(p as int, (p + decimal_digits(v as nat).len()) as int) == decimal_digits(v as nat),
        ends_number(s, p + decimal_digits(v as nat).len()),
    ensures
        lex_from(s, p) == seq![TokenView::Integer(v)] + lex_from(
            s,
            p + decimal_digits(v as nat).len(),
        ),
{
    let t = decimal_digits(v as nat);
    let m = t.len();
    lemma_decimal_digits(v as nat);
    assert forall|i: int| p <= i < p + m implies is_digit_spec(#[trigger] s[i]) by {
        lemma_char_at(s, p, t, i - p);
    }
    lemma_digits_run(s, p, m);
    lemma_char_at(s, p, t, 0);
    assert(spaces_end(s, p) == p);
    assert(next_token_spec(s, p) == (TokenView::Integer(v), p + m));
    lemma_lex_from_step(s, p);
}

proof fn lemma_lex_float(s: Seq<char>, p: nat, d: crate::lexer::Decimal)
    requires
        d.wf(),
        p + decimal_text(d).len() <= s.len(),
        s.subrange(p as int, (p + decimal_text(d).len()) as int) == decimal_text(d),
        ends_cleanly(s, p + decimal_text(d).len()),
    ensures
        lex_from(s, p) == seq![TokenView::Float(d)] + lex_from(s, p + decimal_text(d).len()),
{
    let t = decimal_text(d);
    let w = decimal_digits(d.whole as nat);
    let f = fraction_digits(d.fraction as nat, d.scale as nat);
    let m1 = w.len();
    let e1 = p + m1;
    let e2 = e1 + 1 + f.len();
    lemma_decimal_digits(d.whole as nat);
    lemma_fraction_digits(d.fraction as nat, d.scale as nat);
    lemma_small_mod(d.fraction as nat, pow10(d.scale as nat));
    assert(t.subrange(0, m1 as int) =~= w);
    assert(t.subrange((m1 + 1) as int, (m1 + 1 + f.len()) as int) =~= f);
    lemma_text_at(s, p, t, 0, w);
    lemma_text_at(s, p, t, (m1 + 1) as int, f);
    assert forall|i: int| p <= i < p + m1 implies is_digit_spec(#[trigger] s[i]) by {
        lemma_char_at(s, p, t, i - p);
    }
    lemma_char_at(s, p, t, m1 as int);
    lemma_digits_run(s, p, m1);
    assert forall|i: int| e1 + 1 <= i < e2 implies is_digit_spec(#[trigger] s[i]) by {
        lemma_char_at(s, p, t, i - p);
    }
    lemma_digits_run(s, e1 + 1, f.len());
    lemma_char_at(s, p, t, 0);
    lemma_char_at(s, p, t, (m1 + 1) as int);
    assert(spaces_end(s, p) == p);
    assert(next_token_spec(s, p) == (TokenView::Float(d), e2));
    lemma_lex_from_step(s, p);
}

/// Where the right operand's text starts inside `binary_text`, from `p`.
pub open spec fn right_start(p: nat, left_len: nat, wrap_right: bool) -> nat {
    if wrap_right {
        p + left_len + 5
    } else {
        p + left_len + 4
    }
}

proof fn lemma_binary_layout(
    s: Seq<char>,
    p: nat,
    pl: Seq<char>,
    op: char,
    pr: Seq<char>,
    wrap: bool,
)
    requires
        p + binary_text(pl, op, pr, wrap).len() <= s.len(),
        s.subrange(p as int, (p + binary_text(pl, op, pr, wrap).len()) as int) == binary_text(
            pl,
            op,
            pr,
            wrap,
        ),
    ensures
        s.subrange((p + 1) as int, (p + 1 + pl.len()) as int) == pl,
        ends_cleanly(s, p + 1 + pl.len()),
        s.subrange(right_start(p, pl.len(), wrap) as int, (right_start(p, pl.len(), wrap) + pr.len()) as int)
            == pr,
        ends_cleanly(s, right_start(p, pl.len(), wrap) + pr.len()),
{
    let t = binary_text(pl, op, pr, wrap);
    let r0 = right_start(0, pl.len(), wrap);
    assert(t.subrange(1, (1 + pl.len()) as int) =~= pl);
    assert(t.subrange(r0 as int, (r0 + pr.len()) as int) =~= pr);
    lemma_text_at(s, p, t, 1, pl);
    lemma_text_at(s, p, t, r0 as int, pr);
    lemma_char_at(s, p, t, (1 + pl.len()) as int);
    lemma_char_at(s, p, t, (r0 + pr.len()) as int);
}

proof fn lemma_binary_lex(
    s: Seq<char>,
    p: nat,
    pl: Seq<char>,
    op: char,
    pr: Seq<char>,
    wrap: bool,
    tl: Seq<TokenView>,
    tr: Seq<TokenView>,
)
    requires
        p + binary_text(pl, op, pr, wrap).len() <= s.len(),
        s.subrange(p as int, (p + binary_text(pl, op, pr, wrap).len()) as int) == binary_text(
            pl,
            op,
            pr,
            wrap,
        ),
        symbol_token(op) is Some,
        lex_from(s, p + 1) == tl + lex_from(s, p + 1 + pl.len()),
        lex_from(s, right_start(p, pl.len(), wrap)) == tr + lex_from(
            s,
            right_start(p, pl.len(), wrap) + pr.len(),
        ),
    ensures
        lex_from(s, p) == binary_tokens(tl, symbol_token(op)->0, tr, wrap) + lex_from(
            s,
            p + binary_text(pl, op, pr, wrap).len(),
        ),
{
    let t = binary_text(pl, op, pr, wrap);
    let a = p + 1 + pl.len();
    let rs = right_start(p, pl.len(), wrap);
    let b = rs + pr.len();
    lemma_char_at(s, p, t, 0);
    lemma_char_at(s, p, t, (1 + pl.len()) as int);
    lemma_char_at(s, p, t, (2 + pl.len()) as int);
    lemma_char_at(s, p, t, (3 + pl.len()) as int);
    lemma_char_at(s, p, t, (b - p) as int);
    lemma_lex_symbol(s, p);
    lemma_lex_space(s, a);
    lemma_lex_symbol(s, a + 1);
    lemma_lex_space(s, a + 2);
    lemma_lex_symbol(s, b);
    if wrap {
        lemma_char_at(s, p, t, (4 + pl.len()) as int);
        lemma_char_at(s, p, t, (b + 1 - p) as int);
        lemma_lex_symbol(s, a + 3);
        lemma_lex_symbol(s, b + 1);
    }
    assert(lex_from(s, p) =~= binary_tokens(tl, symbol_token(op)->0, tr, wrap) + lex_from(
        s,
        p + t.len(),
    ));
}


/// The printed text of a tree without names, placed at `p` in `s` and
/// followed by a space, a `)` or the end, lexes to the tree's tokens.
pub proof fn lemma_lex_printed(e: TreeNode, s: Seq<char>, p: nat)
    requires
        name_free(e),
        decimals_wf(e),
        p + printed(e).len() <= s.len(),
        s.subrange(p as int, (p + printed(e).len()) as int) == printed(e),
        ends_cleanly(s, p + printed(e).len()),
    ensures
        lex_from(s, p) == tokens_of(e) + lex_from(s, p + printed(e).len()),
    decreases e,
{
    let t = printed(e);
    match e {
        TreeNode::Integer(n) => lemma_lex_integer(s, p, n.val),
        TreeNode::Float(x) => lemma_lex_float(s, p, x.val),
        TreeNode::Negate(n) => {
            let x = *n.arg;
            let px = printed(x);
            assert(t.subrange(2, 2 + px.len() as int) =~= px);
            lemma_text_at(s, p, t, 2, px);
            lemma_char_at(s, p, t, 0);
            lemma_char_at(s, p, t, 1);
            lemma_char_at(s, p, t, 2 + px.len() as int);
            lemma_lex_printed(x, s, p + 2);
            lemma_lex_symbol(s, p);
            lemma_lex_symbol(s, p + 1);
            lemma_lex_symbol(s, p + 2 + px.len());
            assert(lex_from(s, p) =~= tokens_of(e) + lex_from(s, p + t.len()));
        },
        TreeNode::Factorial(f) => {
            let x = *f.arg;
            let px = printed(x);
            assert(t.subrange(1, 1 + px.len() as int) =~= px);
            lemma_text_at(s, p, t, 1, px);
            lemma_char_at(s, p, t, 0);
            lemma_char_at(s, p, t, 1 + px.len() as int);
            lemma_char_at(s, p, t, 2 + px.len() as int);
            lemma_lex_printed(x, s, p + 1);
            lemma_lex_symbol(s, p);
            lemma_lex_symbol(s, p + 1 + px.len());
            lemma_lex_symbol(s, p + 2 + px.len());
            assert(lex_from(s, p) =~= tokens_of(e) + lex_from(s, p + t.len()));
        },
        TreeNode::Add(b) => {
            let (l, r) = (*b.left, *b.right);
            lemma_binary_layout(s, p, printed(l), '+', printed(r), false);
            lemma_lex_printed(l, s, p + 1);
            lemma_lex_printed(r, s, right_start(p, printed(l).len(), false));
            lemma_binary_lex(s, p, printed(l), '+', printed(r), false, tokens_of(l), tokens_of(r));
        },
        TreeNode::Subtract(b) => {
            let (l, r) = (*b.left, *b.right);
            lemma_binary_layout(s, p, printed(l), '-', printed(r), false);
            lemma_lex_printed(l, s, p + 1);
            lemma_lex_printed(r, s, right_start(p, printed(l).len(), false));
            lemma_binary_lex(s, p, printed(l), '-', printed(r), false, tokens_of(l), tokens_of(r));
        },
        TreeNode::Mult(b) => {
            let (l, r) = (*b.left, *b.right);
            lemma_binary_layout(s, p, printed(l), '*', printed(r), false);
            lemma_lex_printed(l, s, p + 1);
            lemma_lex_printed(r, s, right_start(p, printed(l).len(), false));
            lemma_binary_lex(s, p, printed(l), '*', printed(r), false, tokens_of(l), tokens_of(r));
        },
        TreeNode::Div(b) => {
            let (l, r) = (*b.left, *b.right);
            lemma_binary_layout(s, p, printed(l), '/', printed(r), true);
            lemma_lex_printed(l, s, p + 1);
            lemma_lex_printed(r, s, right_start(p, printed(l).len(), true));
            lemma_binary_lex(s, p, printed(l), '/', printed(r), true, tokens_of(l), tokens_of(r));
        },
        TreeNode::Pow(b) => {
            let (l, r) = (*b.left, *b.right);
            lemma_binary_layout(s, p, printed(l), '^', printed(r), true);
            lemma_lex_printed(l, s, p + 1);
            lemma_lex_printed(r, s, right_start(p, printed(l).len(), true));
            lemma_binary_lex(s, p, printed(l), '^', printed(r), true, tokens_of(l), tokens_of(r));
        },
        _ => {},
    }
}


proof fn lemma_tok_at(ts: Seq<TokenView>, k: nat, t: Seq<TokenView>, i: int)
    requires
        k + t.len() <= ts.len(),
        ts.subrange(k as int, (k + t.len()) as int) == t,
        0 <= i < t.len(),
    ensures
        tok(ts, (k + i) as nat) == t[i],
{
    assert(ts.subrange(k as int, (k + t.len()) as int)[i] == ts[k + i]);
}

proof fn lemma_toks_at(ts: Seq<TokenView>, k: nat, t: Seq<TokenView>, i: int, u: Seq<TokenView>)
    requires
        k + t.len() <= ts.len(),
        ts.subrange(k as int, (k + t.len()) as int) == t,
        0 <= i,
        i + u.len() <= t.len(),
        t.subrange(i, i + u.len()) == u,
    ensures
        ts.subrange(k + i, k + i + u.len()) == u,
{
    assert forall|j: int| 0 <= j < u.len() implies ts.subrange(k + i, k + i + u.len())[j]
        == u[j] by {
        assert(ts.subrange(k as int, (k + t.len()) as int)[i + j] == ts[k + i + j]);
        assert(t.subrange(i, i + u.len())[j] == t[i + j]);
    }
    assert(ts.subrange(k + i, k + i + u.len()) =~= u);
}

#[verifier::opaque]
spec fn parses_factor(ts: Seq<TokenView>, k: nat, e: TreeNode, n: nat) -> bool {
    factorial_at(ts, k) == Ok::<(TreeNode, nat), ParseError>((e, n))
}

#[verifier::opaque]
spec fn parses_basic(ts: Seq<TokenView>, k: nat, e: TreeNode, n: nat) -> bool {
    basic_at(ts, k) == Ok::<(TreeNode, nat), ParseError>((e, n))
}

#[verifier::opaque]
spec fn parses_power(ts: Seq<TokenView>, k: nat, e: TreeNode, n: nat) -> bool {
    exponentiation_at(ts, k) == Ok::<(TreeNode, nat), ParseError>((e, n))
}

#[verifier::opaque]
spec fn parses_product(ts: Seq<TokenView>, k: nat, e: TreeNode, n: nat) -> bool {
    multiplication_at(ts, k) == Ok::<(TreeNode, nat), ParseError>((e, n))
}

#[verifier::opaque]
spec fn parses_expression(ts: Seq<TokenView>, k: nat, e: TreeNode, n: nat) -> bool {
    expression_at(ts, k) == Ok::<(TreeNode, nat), ParseError>((e, n))
}

#[verifier::opaque]
spec fn product_rest_is(ts: Seq<TokenView>, a: TreeNode, j: nat, r: TreeNode, d: nat) -> bool {
    multiplication_rest(ts, a, j) == Ok::<(TreeNode, nat), ParseError>((r, d))
}

#[verifier::opaque]
spec fn sum_rest_is(ts: Seq<TokenView>, a: TreeNode, j: nat, r: TreeNode, d: nat) -> bool {
    addition_rest(ts, a, j) == Ok::<(TreeNode, nat), ParseError>((r, d))
}

proof fn lemma_lift_power(ts: Seq<TokenView>, k: nat, e: TreeNode, n: nat)
    requires
        parses_factor(ts, k, e, n),
        !(tok(ts, k + n) is Caret),
    ensures
        parses_power(ts, k, e, n),
{
    reveal(parses_factor);
    reveal(parses_power);
}

proof fn lemma_lift_product(ts: Seq<TokenView>, k: nat, e: TreeNode, n: nat)
    requires
        parses_power(ts, k, e, n),
        !(tok(ts, k + n) is Asterisk),
        !(tok(ts, k + n) is Slash),
    ensures
        parses_product(ts, k, e, n),
{
    reveal(parses_power);
    reveal(parses_product);
    assert(multiplication_rest(ts, e, k + n) == Ok::<(TreeNode, nat), ParseError>((e, 0)));
}

proof fn lemma_lift_expression(ts: Seq<TokenView>, k: nat, e: TreeNode, n: nat)
    requires
        parses_product(ts, k, e, n),
        !(tok(ts, k + n) is Plus),
        !(tok(ts, k + n) is Minus),
    ensures
        parses_expression(ts, k, e, n),
{
    reveal(parses_product);
    reveal(parses_expression);
    assert(addition_rest(ts, e, k + n) == Ok::<(TreeNode, nat), ParseError>((e, 0)));
}

/// A factor followed by a token that no rule above it continues with is
/// what the whole expression rule parses there.
proof fn lemma_lift(ts: Seq<TokenView>, k: nat, e: TreeNode, n: nat)
    requires
        parses_factor(ts, k, e, n),
        !(tok(ts, k + n) is Caret),
        !(tok(ts, k + n) is Asterisk),
        !(tok(ts, k + n) is Slash),
        !(tok(ts, k + n) is Plus),
        !(tok(ts, k + n) is Minus),
    ensures
        parses_expression(ts, k, e, n),
{
    lemma_lift_power(ts, k, e, n);
    lemma_lift_product(ts, k, e, n);
    lemma_lift_expression(ts, k, e, n);
}

proof fn lemma_paren(ts: Seq<TokenView>, k: nat, a: TreeNode, n: nat)
    requires
        tok(ts, k) is LeftParenthesis,
        parses_expression(ts, k + 1, a, n),
        tok(ts, k + 1 + n) is RightParenthesis,
    ensures
        parses_basic(ts, k, a, n + 2),
{
    reveal(parses_expression);
    reveal(parses_basic);
}

proof fn lemma_factor(ts: Seq<TokenView>, k: nat, a: TreeNode, n: nat)
    requires
        parses_basic(ts, k, a, n),
        !(tok(ts, k + n) is ExclamationMark),
    ensures
        parses_factor(ts, k, a, n),
{
    reveal(parses_basic);
    reveal(parses_factor);
}

proof fn lemma_factor_bang(ts: Seq<TokenView>, k: nat, a: TreeNode, n: nat)
    requires
        parses_basic(ts, k, a, n),
        tok(ts, k + n) is ExclamationMark,
    ensures
        parses_factor(ts, k, factorial_node(a), n + 1),
{
    reveal(parses_basic);
    reveal(parses_factor);
}

proof fn lemma_negation(ts: Seq<TokenView>, k: nat, a: TreeNode, n: nat)
    requires
        tok(ts, k) is Minus,
        parses_factor(ts, k + 1, a, n),
    ensures
        parses_basic(ts, k, negate_node(a), n + 1),
{
    reveal(parses_factor);
    reveal(parses_basic);
}

proof fn lemma_application(ts: Seq<TokenView>, k: nat, f: crate::lexer::Function, a: TreeNode, n: nat)
    requires
        tok(ts, k) == TokenView::Function(f),
        parses_basic(ts, k + 1, a, n),
    ensures
        parses_basic(ts, k, function_node(f, a), n + 1),
{
    reveal(parses_basic);
}

proof fn lemma_stop_product(ts: Seq<TokenView>, a: TreeNode, j: nat)
    requires
        !(tok(ts, j) is Asterisk),
        !(tok(ts, j) is Slash),
    ensures
        product_rest_is(ts, a, j, a, 0),
{
    reveal(product_rest_is);
}

proof fn lemma_stop_sum(ts: Seq<TokenView>, a: TreeNode, j: nat)
    requires
        !(tok(ts, j) is Plus),
        !(tok(ts, j) is Minus),
    ensures
        sum_rest_is(ts, a, j, a, 0),
{
    reveal(sum_rest_is);
}

proof fn lemma_product_once(ts: Seq<TokenView>, a: TreeNode, j: nat, b: TreeNode, c: nat, star: bool)
    requires
        tok(ts, j) == if star { TokenView::Asterisk } else { TokenView::Slash },
        parses_power(ts, j + 1, b, c),
        product_rest_is(
            ts,
            if star { mult_node(a, b) } else { div_node(a, b) },
            j + 1 + c,
            if star { mult_node(a, b) } else { div_node(a, b) },
            0,
        ),
    ensures
        product_rest_is(ts, a, j, if star { mult_node(a, b) } else { div_node(a, b) }, 1 + c),
{
    reveal(parses_power);
    reveal(product_rest_is);
}

proof fn lemma_sum_once(ts: Seq<TokenView>, a: TreeNode, j: nat, b: TreeNode, c: nat, plus: bool)
    requires
        tok(ts, j) == if plus { TokenView::Plus } else { TokenView::Minus },
        parses_product(ts, j + 1, b, c),
        sum_rest_is(
            ts,
            if plus { add_node(a, b) } else { subtract_node(a, b) },
            j + 1 + c,
            if plus { add_node(a, b) } else { subtract_node(a, b) },
            0,
        ),
    ensures
        sum_rest_is(ts, a, j, if plus { add_node(a, b) } else { subtract_node(a, b) }, 1 + c),
{
    reveal(parses_product);
    reveal(sum_rest_is);
}

proof fn lemma_product_of(ts: Seq<TokenView>, k: nat, a: TreeNode, n: nat, r: TreeNode, d: nat)
    requires
        parses_power(ts, k, a, n),
        product_rest_is(ts, a, k + n, r, d),
    ensures
        parses_product(ts, k, r, n + d),
{
    reveal(parses_power);
    reveal(product_rest_is);
    reveal(parses_product);
}

proof fn lemma_expression_of(ts: Seq<TokenView>, k: nat, a: TreeNode, n: nat, r: TreeNode, d: nat)
    requires
        parses_product(ts, k, a, n),
        sum_rest_is(ts, a, k + n, r, d),
    ensures
        parses_expression(ts, k, r, n + d),
{
    reveal(parses_product);
    reveal(sum_rest_is);
    reveal(parses_expression);
}

proof fn lemma_power(ts: Seq<TokenView>, k: nat, a: TreeNode, n: nat, b: TreeNode, c: nat)
    requires
        parses_factor(ts, k, a, n),
        tok(ts, k + n) is Caret,
        parses_power(ts, k + n + 1, b, c),
    ensures
        parses_power(ts, k, pow_node(a, b), n + 1 + c),
{
    reveal(parses_factor);
    reveal(parses_power);
}

/// `( expression )` followed by neither `!` nor `^`.
proof fn lemma_wrapped(ts: Seq<TokenView>, m: nat, e: TreeNode, n: nat)
    requires
        tok(ts, m) is LeftParenthesis,
        parses_expression(ts, m + 1, e, n),
        tok(ts, m + 1 + n) is RightParenthesis,
        !(tok(ts, m + n + 2) is ExclamationMark),
        !(tok(ts, m + n + 2) is Caret),
    ensures
        parses_power(ts, m, e, n + 2),
{
    lemma_paren(ts, m, e, n);
    lemma_factor(ts, m, e, n + 2);
    lemma_lift_power(ts, m, e, n + 2);
}

proof fn lemma_step_binary(
    ts: Seq<TokenView>,
    k: nat,
    l: TreeNode,
    op: TokenView,
    r: TreeNode,
    nl: nat,
    nr: nat,
    wrap: bool,
)
    requires
        op is Plus || op is Minus || op is Asterisk || op is Slash || op is Caret,
        wrap <==> (op is Slash || op is Caret),
        tok(ts, k) is LeftParenthesis,
        tok(ts, k + 1 + nl) == op,
        wrap ==> tok(ts, k + 2 + nl) is LeftParenthesis,
        tok(ts, (k + (if wrap { 3int } else { 2int }) + nl + nr) as nat) is RightParenthesis,
        wrap ==> tok(ts, k + 4 + nl + nr) is RightParenthesis,
        !(tok(ts, (k + (if wrap { 5int } else { 3int }) + nl + nr) as nat) is ExclamationMark),
        parses_factor(ts, k + 1, l, nl),
        parses_factor(ts, (k + (if wrap { 3int } else { 2int }) + nl) as nat, r, nr),
    ensures
        parses_factor(
            ts,
            k,
            match op {
                TokenView::Plus => add_node(l, r),
                TokenView::Minus => subtract_node(l, r),
                TokenView::Asterisk => mult_node(l, r),
                TokenView::Slash => div_node(l, r),
                _ => pow_node(l, r),
            },
            (nl + nr + if wrap { 5int } else { 3int }) as nat,
        ),
{
    let a = match op {
        TokenView::Plus => add_node(l, r),
        TokenView::Minus => subtract_node(l, r),
        TokenView::Asterisk => mult_node(l, r),
        TokenView::Slash => div_node(l, r),
        _ => pow_node(l, r),
    };
    let inner = (nl + nr + if wrap { 3int } else { 1int }) as nat;
    let end = (k + 1 + inner) as nat;
    let rs = (k + (if wrap { 3int } else { 2int }) + nl) as nat;
    if op is Plus || op is Minus {
        lemma_lift_power(ts, k + 1, l, nl);
        lemma_lift_product(ts, k + 1, l, nl);
        lemma_lift_power(ts, rs, r, nr);
        lemma_lift_product(ts, rs, r, nr);
        lemma_stop_sum(ts, a, end);
        lemma_sum_once(ts, l, k + 1 + nl, r, nr, op is Plus);
        lemma_expression_of(ts, k + 1, l, nl, a, nr + 1);
    } else {
        if op is Asterisk {
            lemma_lift_power(ts, k + 1, l, nl);
            lemma_lift_power(ts, rs, r, nr);
            lemma_stop_product(ts, a, end);
            lemma_product_once(ts, l, k + 1 + nl, r, nr, true);
            lemma_product_of(ts, k + 1, l, nl, a, nr + 1);
        } else if op is Slash {
            lemma_lift(ts, rs, r, nr);
            lemma_wrapped(ts, (rs - 1) as nat, r, nr);
            lemma_lift_power(ts, k + 1, l, nl);
            lemma_stop_product(ts, a, end);
            lemma_product_once(ts, l, k + 1 + nl, r, nr + 2, false);
            lemma_product_of(ts, k + 1, l, nl, a, nr + 3);
        } else {
            lemma_lift(ts, rs, r, nr);
            lemma_wrapped(ts, (rs - 1) as nat, r, nr);
            lemma_power(ts, k + 1, l, nl, r, nr + 2);
            lemma_stop_product(ts, a, end);
            lemma_product_of(ts, k + 1, a, inner, a, 0);
        }
        lemma_stop_sum(ts, a, end);
        lemma_expression_of(ts, k + 1, a, inner, a, 0);
    }
    lemma_paren(ts, k, a, inner);
    lemma_factor(ts, k, a, inner + 2);
}

proof fn lemma_leaf(ts: Seq<TokenView>, k: nat, e: TreeNode)
    requires
        match e {
            TreeNode::Integer(n) => tok(ts, k) == TokenView::Integer(n.val),
            TreeNode::Float(x) => tok(ts, k) == TokenView::Float(x.val),
            TreeNode::Constant(c) => tok(ts, k) == TokenView::Constant(c.symbol),
            _ => false,
        },
    ensures
        parses_basic(ts, k, e, 1),
{
    reveal(parses_basic);
}

proof fn lemma_step_negate(ts: Seq<TokenView>, k: nat, x: TreeNode, nx: nat)
    requires
        tok(ts, k) is Minus,
        tok(ts, k + 1) is LeftParenthesis,
        tok(ts, k + 2 + nx) is RightParenthesis,
        !(tok(ts, k + 3 + nx) is ExclamationMark),
        parses_factor(ts, k + 2, x, nx),
    ensures
        parses_factor(ts, k, negate_node(x), nx + 3),
{
    lemma_lift(ts, k + 2, x, nx);
    lemma_paren(ts, k + 1, x, nx);
    lemma_factor(ts, k + 1, x, nx + 2);
    lemma_negation(ts, k, x, nx + 2);
    lemma_factor(ts, k, negate_node(x), nx + 3);
}

proof fn lemma_step_factorial(ts: Seq<TokenView>, k: nat, x: TreeNode, nx: nat)
    requires
        tok(ts, k) is LeftParenthesis,
        tok(ts, k + 1 + nx) is RightParenthesis,
        tok(ts, k + 2 + nx) is ExclamationMark,
        parses_factor(ts, k + 1, x, nx),
    ensures
        parses_factor(ts, k, factorial_node(x), nx + 3),
{
    lemma_lift(ts, k + 1, x, nx);
    lemma_paren(ts, k, x, nx);
    lemma_factor_bang(ts, k, x, nx + 2);
}

proof fn lemma_step_function(
    ts: Seq<TokenView>,
    k: nat,
    f: crate::lexer::Function,
    x: TreeNode,
    nx: nat,
)
    requires
        tok(ts, k) is LeftParenthesis,
        tok(ts, k + 1) == TokenView::Function(f),
        tok(ts, k + 2) is LeftParenthesis,
        tok(ts, k + 3 + nx) is RightParenthesis,
        tok(ts, k + 4 + nx) is RightParenthesis,
        !(tok(ts, k + 5 + nx) is ExclamationMark),
        parses_factor(ts, k + 3, x, nx),
    ensures
        parses_factor(ts, k, function_node(f, x), nx + 5),
{
    let a = function_node(f, x);
    lemma_lift(ts, k + 3, x, nx);
    lemma_paren(ts, k + 2, x, nx);
    lemma_application(ts, k + 1, f, x, nx + 2);
    lemma_factor(ts, k + 1, a, nx + 3);
    lemma_lift(ts, k + 1, a, nx + 3);
    lemma_paren(ts, k, a, nx + 3);
    lemma_factor(ts, k, a, nx + 5);
}

proof fn lemma_binary_layout_tokens(
    ts: Seq<TokenView>,
    k: nat,
    tl: Seq<TokenView>,
    op: TokenView,
    tr: Seq<TokenView>,
    wrap: bool,
)
    requires
        k + binary_tokens(tl, op, tr, wrap).len() <= ts.len(),
        ts.subrange(k as int, (k + binary_tokens(tl, op, tr, wrap).len()) as int) == binary_tokens(
            tl,
            op,
            tr,
            wrap,
        ),
    ensures
        tok(ts, k) is LeftParenthesis,
        ts.subrange(k + 1 as int, k + 1 + tl.len() as int) == tl,
        tok(ts, k + 1 + tl.len()) == op,
        wrap ==> tok(ts, k + 2 + tl.len()) is LeftParenthesis,
        ts.subrange(
            (k + (if wrap { 3int } else { 2int }) + tl.len()),
            (k + (if wrap { 3int } else { 2int }) + tl.len() + tr.len()),
        ) == tr,
        tok(ts, (k + (if wrap { 3int } else { 2int }) + tl.len() + tr.len()) as nat) is RightParenthesis,
        wrap ==> tok(ts, k + 4 + tl.len() + tr.len()) is RightParenthesis,
        binary_tokens(tl, op, tr, wrap).len() == tl.len() + tr.len() + if wrap { 5int } else { 3int },
{
    let t = binary_tokens(tl, op, tr, wrap);
    let off: int = if wrap { 3 } else { 2 };
    assert(t.subrange(1, 1 + tl.len() as int) =~= tl);
    assert(t.subrange(off + tl.len(), off + tl.len() + tr.len()) =~= tr);
    lemma_toks_at(ts, k, t, 1, tl);
    lemma_toks_at(ts, k, t, off + tl.len(), tr);
    lemma_tok_at(ts, k, t, 0);
    lemma_tok_at(ts, k, t, 1 + tl.len() as int);
    lemma_tok_at(ts, k, t, off + tl.len() + tr.len());
    if wrap {
        lemma_tok_at(ts, k, t, 2 + tl.len() as int);
        lemma_tok_at(ts, k, t, 4 + tl.len() + tr.len() as int);
    }
}

proof fn lemma_unary_layout_tokens(
    ts: Seq<TokenView>,
    k: nat,
    before: Seq<TokenView>,
    tx: Seq<TokenView>,
    after_: Seq<TokenView>,
)
    requires
        k + (before + tx + after_).len() <= ts.len(),
        ts.subrange(k as int, (k + (before + tx + after_).len()) as int) == before + tx + after_,
    ensures
        forall|i: int| 0 <= i < before.len() ==> tok(ts, (k + i) as nat) == before[i],
        ts.subrange(k + before.len() as int, k + before.len() + tx.len() as int) == tx,
        forall|i: int|
            0 <= i < after_.len() ==> tok(ts, (k + before.len() + tx.len() + i) as nat)
                == after_[i],
{
    let t = before + tx + after_;
    assert(t.subrange(before.len() as int, before.len() + tx.len() as int) =~= tx);
    lemma_toks_at(ts, k, t, before.len() as int, tx);
    assert forall|i: int| 0 <= i < before.len() implies tok(ts, (k + i) as nat) == before[i] by {
        lemma_tok_at(ts, k, t, i);
    }
    assert forall|i: int| 0 <= i < after_.len() implies tok(
        ts,
        (k + before.len() + tx.len() + i) as nat,
    ) == after_[i] by {
        lemma_tok_at(ts, k, t, before.len() + tx.len() + i);
    }
}

/// The tokens of a printed tree, followed by anything but `!`, parse back
/// to the tree at the factor level.
proof fn lemma_parse_tokens_of(e: TreeNode, ts: Seq<TokenView>, k: nat)
    requires
        k + tokens_of(e).len() <= ts.len(),
        ts.subrange(k as int, (k + tokens_of(e).len()) as int) == tokens_of(e),
        !(tok(ts, k + tokens_of(e).len()) is ExclamationMark),
    ensures
        parses_factor(ts, k, e, tokens_of(e).len()),
    decreases e,
{
    match e {
        TreeNode::Negate(x) => {
            let x = *x.arg;
            let nx = tokens_of(x).len();
            let before = seq![TokenView::Minus, TokenView::LeftParenthesis];
            let after_ = seq![TokenView::RightParenthesis];
            lemma_unary_layout_tokens(ts, k, before, tokens_of(x), after_);
            assert(tok(ts, k + 0) == before[0]);
            assert(tok(ts, k + 1) == before[1]);
            assert(tok(ts, k + 2 + nx + 0) == after_[0]);
            lemma_parse_tokens_of(x, ts, k + 2);
            lemma_step_negate(ts, k, x, nx);
        },
        TreeNode::Factorial(x) => {
            let x = *x.arg;
            let nx = tokens_of(x).len();
            let before = seq![TokenView::LeftParenthesis];
            let after_ = seq![TokenView::RightParenthesis, TokenView::ExclamationMark];
            lemma_unary_layout_tokens(ts, k, before, tokens_of(x), after_);
            assert(tok(ts, k + 0) == before[0]);
            assert(tok(ts, k + 1 + nx + 0) == after_[0]);
            assert(tok(ts, k + 1 + nx + 1) == after_[1]);
            lemma_parse_tokens_of(x, ts, k + 1);
            lemma_step_factorial(ts, k, x, nx);
        },
        TreeNode::Function(f) => {
            let x = *f.arg;
            let nx = tokens_of(x).len();
            let before = seq![
                TokenView::LeftParenthesis,
                TokenView::Function(f.function),
                TokenView::LeftParenthesis,
            ];
            let after_ = seq![TokenView::RightParenthesis, TokenView::RightParenthesis];
            lemma_unary_layout_tokens(ts, k, before, tokens_of(x), after_);
            assert(tok(ts, k + 0) == before[0]);
            assert(tok(ts, k + 1) == before[1]);
            assert(tok(ts, k + 2) == before[2]);
            assert(tok(ts, k + 3 + nx + 0) == after_[0]);
            assert(tok(ts, k + 3 + nx + 1) == after_[1]);
            lemma_parse_tokens_of(x, ts, k + 3);
            lemma_step_function(ts, k, f.function, x, nx);
        },
        TreeNode::Add(b) => {
            let (l, r) = (*b.left, *b.right);
            let (nl, nr) = (tokens_of(l).len(), tokens_of(r).len());
            lemma_binary_layout_tokens(ts, k, tokens_of(l), TokenView::Plus, tokens_of(r), false);
            lemma_parse_tokens_of(l, ts, k + 1);
            lemma_parse_tokens_of(r, ts, k + 2 + nl);
            lemma_step_binary(ts, k, l, TokenView::Plus, r, nl, nr, false);
        },
        TreeNode::Subtract(b) => {
            let (l, r) = (*b.left, *b.right);
            let (nl, nr) = (tokens_of(l).len(), tokens_of(r).len());
            lemma_binary_layout_tokens(ts, k, tokens_of(l), TokenView::Minus, tokens_of(r), false);
            lemma_parse_tokens_of(l, ts, k + 1);
            lemma_parse_tokens_of(r, ts, k + 2 + nl);
            lemma_step_binary(ts, k, l, TokenView::Minus, r, nl, nr, false);
        },
        TreeNode::Mult(b) => {
            let (l, r) = (*b.left, *b.right);
            let (nl, nr) = (tokens_of(l).len(), tokens_of(r).len());
            lemma_binary_layout_tokens(ts, k, tokens_of(l), TokenView::Asterisk, tokens_of(r), false);
            lemma_parse_tokens_of(l, ts, k + 1);
            lemma_parse_tokens_of(r, ts, k + 2 + nl);
            lemma_step_binary(ts, k, l, TokenView::Asterisk, r, nl, nr, false);
        },
        TreeNode::Div(b) => {
            let (l, r) = (*b.left, *b.right);
            let (nl, nr) = (tokens_of(l).len(), tokens_of(r).len());
            lemma_binary_layout_tokens(ts, k, tokens_of(l), TokenView::Slash, tokens_of(r), true);
            lemma_parse_tokens_of(l, ts, k + 1);
            lemma_parse_tokens_of(r, ts, k + 3 + nl);
            lemma_step_binary(ts, k, l, TokenView::Slash, r, nl, nr, true);
        },
        TreeNode::Pow(b) => {
            let (l, r) = (*b.left, *b.right);
            let (nl, nr) = (tokens_of(l).len(), tokens_of(r).len());
            lemma_binary_layout_tokens(ts, k, tokens_of(l), TokenView::Caret, tokens_of(r), true);
            lemma_parse_tokens_of(l, ts, k + 1);
            lemma_parse_tokens_of(r, ts, k + 3 + nl);
            lemma_step_binary(ts, k, l, TokenView::Caret, r, nl, nr, true);
        },
        _ => {
            lemma_tok_at(ts, k, tokens_of(e), 0);
            lemma_leaf(ts, k, e);
            lemma_factor(ts, k, e, 1);
        },
    }
}

/// Printing a tree without constants or functions (and with well-formed
/// decimal literals), then parsing the printed text, gives the same tree
/// back; so both evaluate to the same value.
pub proof fn lemma_print_then_parse(e: TreeNode)
    requires
        name_free(e),
        decimals_wf(e),
    ensures
        parse_text(printed(e)) == Ok::<TreeNode, ParseError>(e),
{
    let s = printed(e);
    let ts = tokens_of(e);
    assert(s.subrange(0, s.len() as int) =~= s);
    lemma_lex_printed(e, s, 0);
    lemma_lex_from_step(s, s.len());
    assert(spaces_end(s, s.len()) == s.len());
    assert(lex(s) =~= ts);
    assert(ts.subrange(0, ts.len() as int) =~= ts);
    lemma_parse_tokens_of(e, ts, 0);
    lemma_lift(ts, 0, e, ts.len());
    reveal(parses_expression);
}

/// A text made only of decimal digits, whose value a `u32` holds, parses to
/// the integer literal of that value.
pub proof fn lemma_integer_text(ds: Seq<char>)
    requires
        ds.len() > 0,
        forall|i: int| 0 <= i < ds.len() ==> is_digit_spec(#[trigger] ds[i]),
        digits_value(ds) <= u32::MAX,
    ensures
        parse_text(ds) == Ok::<TreeNode, ParseError>(
            TreeNode::Integer(crate::node::Integer { val: digits_value(ds) as u32 }),
        ),
{
    let v = digits_value(ds) as u32;
    let e = TreeNode::Integer(crate::node::Integer { val: v });
    lemma_digits_run(ds, 0, ds.len());
    assert(ds.subrange(0, ds.len() as int) =~= ds);
    assert(spaces_end(ds, 0) == 0);
    assert(next_token_spec(ds, 0) == (TokenView::Integer(v), ds.len()));
    lemma_lex_from_step(ds, 0);
    lemma_lex_from_step(ds, ds.len());
    assert(spaces_end(ds, ds.len()) == ds.len());
    let ts = seq![TokenView::Integer(v)];
    assert(lex(ds) =~= ts);
    lemma_leaf(ts, 0, e);
    lemma_factor(ts, 0, e, 1);
    lemma_lift(ts, 0, e, 1);
    reveal(parses_expression);
}

proof fn lemma_digits_value_bound(ds: Seq<char>)
    requires
        forall|i: int| 0 <= i < ds.len() ==> is_digit_spec(#[trigger] ds[i]),
    ensures
        digits_value(ds) < pow10(ds.len()),
    decreases ds.len(),
{
    if ds.len() > 0 {
        let init = ds.drop_last();
        assert forall|i: int| 0 <= i < init.len() implies is_digit_spec(#[trigger] init[i]) by {
            assert(init[i] == ds[i]);
        }
        lemma_digits_value_bound(init);
        assert(is_digit_spec(ds[ds.len() - 1]));
        assert(digits_value(init) * 10 + digit_value_spec(ds.last()) < pow10(ds.len())) by (nonlinear_arith)
            requires
                digits_value(init) < pow10(init.len()),
                digit_value_spec(ds.last()) < 10,
                pow10(ds.len()) == 10 * pow10(init.len()),
        ;
    }
}

/// Every decimal literal token is well formed.
pub open spec fn decimal_tokens_wf(ts: Seq<TokenView>) -> bool {
    forall|i: int| 0 <= i < ts.len() ==> (#[trigger] ts[i] is Float ==> ts[i]->Float_0.wf())
}

proof fn lemma_float_token_wf(s: Seq<char>, q: nat, a: nat)
    requires
        a < q,
        q <= s.len(),
        forall|i: int| a <= i < q ==> is_digit_spec(#[trigger] s[i]),
        s.len() <= usize::MAX,
    ensures
        forall|text: Seq<char>, whole: Seq<char>|
            #[trigger] float_token(text, whole, s.subrange(a as int, q as int)) is Float
                ==> float_token(text, whole, s.subrange(a as int, q as int))->Float_0.wf(),
{
    let f = s.subrange(a as int, q as int);
    assert forall|i: int| 0 <= i < f.len() implies is_digit_spec(#[trigger] f[i]) by {
        assert(f[i] == s[a + i]);
    }
    lemma_digits_value_bound(f);
}

proof fn lemma_digits_are_digits(s: Seq<char>, i: nat)
    requires
        i <= s.len(),
    ensures
        forall|j: int| i <= j < digits_end(s, i) ==> is_digit_spec(#[trigger] s[j]),
    decreases s.len() - i,
{
    if i < s.len() && is_digit_spec(s[i as int]) {
        lemma_digits_are_digits(s, i + 1);
    }
}

proof fn lemma_next_token_wf(s: Seq<char>, p: nat)
    requires
        s.len() <= usize::MAX,
    ensures
        next_token_spec(s, p).0 is Float ==> next_token_spec(s, p).0->Float_0.wf(),
{
    let q = spaces_end(s, p);
    if p <= s.len() && q < s.len() {
        crate::lexer::lemma_next_token_advances(s, p);
        crate::lexer::lemma_run_ends(s, p);
        crate::lexer::lemma_run_ends(s, q + 1);
        let c = s[q as int];
        if symbol_token(c) is None && c == '.' && q + 1 < s.len() && is_digit_spec(s[q + 1 as int]) {
            lemma_digits_are_digits(s, q + 1);
            let e = digits_end(s, q + 1);
            lemma_float_token_wf(s, e, q + 1);
        } else if symbol_token(c) is None && c != '.' && is_digit_spec(c) {
            let e1 = digits_end(s, q);
            crate::lexer::lemma_run_ends(s, q);
            if e1 + 1 < s.len() && s[e1 as int] == '.' && is_digit_spec(s[e1 + 1 as int]) {
                crate::lexer::lemma_run_ends(s, e1 + 1);
                lemma_digits_are_digits(s, e1 + 1);
                let e2 = digits_end(s, e1 + 1);
                lemma_float_token_wf(s, e2, e1 + 1);
            }
        }
    }
}

proof fn lemma_lex_from_wf(s: Seq<char>, p: nat)
    requires
        s.len() <= usize::MAX,
    ensures
        decimal_tokens_wf(lex_from(s, p)),
    decreases s.len() - p,
{
    lemma_lex_from_step(s, p);
    crate::lexer::lemma_next_token_advances(s, p);
    lemma_next_token_wf(s, p);
    let (t, q) = next_token_spec(s, p);
    if !(t is EOF) {
        lemma_lex_from_wf(s, q);
        let ts = lex_from(s, p);
        let rest = lex_from(s, q);
        assert forall|i: int| 0 <= i < ts.len() implies (#[trigger] ts[i] is Float
            ==> ts[i]->Float_0.wf()) by {
            if i > 0 {
                assert(ts[i] == rest[i - 1]);
            }
        }
    }
}

/// Every tree in a parse result has well-formed decimal literals.
pub open spec fn result_wf(r: crate::parser::Parsed) -> bool {
    match r {
        Ok((e, _)) => decimals_wf(e),
        Err(_) => true,
    }
}

proof fn lemma_expression_wf(ts: Seq<TokenView>, k: nat)
    requires
        decimal_tokens_wf(ts),
    ensures
        result_wf(expression_at(ts, k)),
    decreases crate::parser::left_from(ts, k), 9nat,
{
    lemma_addition_wf(ts, k);
}

proof fn lemma_addition_wf(ts: Seq<TokenView>, k: nat)
    requires
        decimal_tokens_wf(ts),
    ensures
        result_wf(addition_at(ts, k)),
    decreases crate::parser::left_from(ts, k), 8nat,
{
    lemma_multiplication_wf(ts, k);
    if let Ok((a, c)) = multiplication_at(ts, k) {
        lemma_addition_rest_wf(ts, a, k + c);
    }
}

proof fn lemma_addition_rest_wf(ts: Seq<TokenView>, acc: TreeNode, j: nat)
    requires
        decimal_tokens_wf(ts),
        decimals_wf(acc),
    ensures
        result_wf(addition_rest(ts, acc, j)),
    decreases crate::parser::left_from(ts, j), 7nat,
{
    if tok(ts, j) is Plus || tok(ts, j) is Minus {
        lemma_multiplication_wf(ts, j + 1);
        if let Ok((b, c)) = multiplication_at(ts, j + 1) {
            if tok(ts, j) is Plus {
                lemma_addition_rest_wf(ts, add_node(acc, b), j + 1 + c);
            } else {
                lemma_addition_rest_wf(ts, subtract_node(acc, b), j + 1 + c);
            }
        }
    }
}

proof fn lemma_multiplication_wf(ts: Seq<TokenView>, k: nat)
    requires
        decimal_tokens_wf(ts),
    ensures
        result_wf(multiplication_at(ts, k)),
    decreases crate::parser::left_from(ts, k), 6nat,
{
    lemma_exponentiation_wf(ts, k);
    if let Ok((a, c)) = exponentiation_at(ts, k) {
        lemma_multiplication_rest_wf(ts, a, k + c);
    }
}

proof fn lemma_multiplication_rest_wf(ts: Seq<TokenView>, acc: TreeNode, j: nat)
    requires
        decimal_tokens_wf(ts),
        decimals_wf(acc),
    ensures
        result_wf(multiplication_rest(ts, acc, j)),
    decreases crate::parser::left_from(ts, j), 5nat,
{
    if tok(ts, j) is Asterisk || tok(ts, j) is Slash {
        lemma_exponentiation_wf(ts, j + 1);
        if let Ok((b, c)) = exponentiation_at(ts, j + 1) {
            if tok(ts, j) is Asterisk {
                lemma_multiplication_rest_wf(ts, mult_node(acc, b), j + 1 + c);
            } else {
                lemma_multiplication_rest_wf(ts, div_node(acc, b), j + 1 + c);
            }
        }
    }
}

proof fn lemma_exponentiation_wf(ts: Seq<TokenView>, k: nat)
    requires
        decimal_tokens_wf(ts),
    ensures
        result_wf(exponentiation_at(ts, k)),
    decreases crate::parser::left_from(ts, k), 4nat,
{
    lemma_factorial_wf(ts, k);
    if let Ok((a, c)) = factorial_at(ts, k) {
        if tok(ts, k + c) is Caret {
            lemma_exponentiation_wf(ts, k + c + 1);
        }
    }
}

proof fn lemma_factorial_wf(ts: Seq<TokenView>, k: nat)
    requires
        decimal_tokens_wf(ts),
    ensures
        result_wf(factorial_at(ts, k)),
    decreases crate::parser::left_from(ts, k), 3nat,
{
    lemma_basic_wf(ts, k);
}

proof fn lemma_basic_wf(ts: Seq<TokenView>, k: nat)
    requires
        decimal_tokens_wf(ts),
    ensures
        result_wf(basic_at(ts, k)),
    decreases crate::parser::left_from(ts, k), 2nat,
{
    if k < ts.len() {
        assert(ts[k as int] is Float ==> ts[k as int]->Float_0.wf());
    }
    match tok(ts, k) {
        TokenView::LeftParenthesis => lemma_expression_wf(ts, k + 1),
        TokenView::Function(_) => lemma_basic_wf(ts, k + 1),
        TokenView::Minus => lemma_factorial_wf(ts, k + 1),
        _ => {},
    }
}

/// Re-printing a parsed tree without constants or functions and parsing the
/// printed text gives the same tree back, so both evaluate to the same value.
pub proof fn lemma_reparse(s: Seq<char>, e: TreeNode)
    requires
        s.len() <= usize::MAX,
        parse_text(s) == Ok::<TreeNode, ParseError>(e),
        name_free(e),
    ensures
        parse_text(printed(e)) == Ok::<TreeNode, ParseError>(e),
{
    lemma_lex_from_wf(s, 0);
    lemma_expression_wf(lex(s), 0);
    lemma_print_then_parse(e);
}

/// `v` as an integer literal node.
pub open spec fn integer_node(v: u32) -> TreeNode {
    TreeNode::Integer(crate::node::Integer { val: v })
}

/// The node of binary operator `op`.
pub open spec fn binary_node(op: char, l: TreeNode, r: TreeNode) -> TreeNode {
    if op == '+' {
        add_node(l, r)
    } else if op == '-' {
        subtract_node(l, r)
    } else if op == '*' {
        mult_node(l, r)
    } else if op == '/' {
        div_node(l, r)
    } else {
        pow_node(l, r)
    }
}

/// The text `o1 a1 o2 a2 ...`: each operator character followed by an
/// integer literal.
pub open spec fn chain_tail(rest: Seq<(char, u32)>) -> Seq<char>
    decreases rest.len(),
{
    if rest.len() == 0 {
        seq![]
    } else {
        seq![rest[0].0] + decimal_digits(rest[0].1 as nat) + chain_tail(rest.drop_first())
    }
}

/// The text `a0 o1 a1 ... ok ak`.
pub open spec fn chain_text(a: u32, rest: Seq<(char, u32)>) -> Seq<char> {
    decimal_digits(a as nat) + chain_tail(rest)
}

/// The tokens of `chain_tail(rest)`.
pub open spec fn chain_tail_tokens(rest: Seq<(char, u32)>) -> Seq<TokenView>
    decreases rest.len(),
{
    if rest.len() == 0 {
        seq![]
    } else {
        seq![symbol_token(rest[0].0)->0, TokenView::Integer(rest[0].1)] + chain_tail_tokens(
            rest.drop_first(),
        )
    }
}

/// `acc o1 a1 o2 a2 ...` grouped from the left: `((acc o1 a1) o2 a2) ...`.
pub open spec fn left_fold(acc: TreeNode, rest: Seq<(char, u32)>) -> TreeNode
    decreases rest.len(),
{
    if rest.len() == 0 {
        acc
    } else {
        left_fold(binary_node(rest[0].0, acc, integer_node(rest[0].1)), rest.drop_first())
    }
}

/// `a0 ^ a1 ^ ... ^ ak` grouped from the right: `a0 ^ (a1 ^ (... ^ ak))`.
pub open spec fn power_chain(a: u32, rest: Seq<(char, u32)>) -> TreeNode
    decreases rest.len(),
{
    if rest.len() == 0 {
        integer_node(a)
    } else {
        pow_node(integer_node(a), power_chain(rest[0].1, rest.drop_first()))
    }
}

pub open spec fn all_ops_in(rest: Seq<(char, u32)>, a: char, b: char) -> bool {
    forall|i: int| 0 <= i < rest.len() ==> (#[trigger] rest[i]).0 == a || rest[i].0 == b
}

proof fn lemma_lex_chain_tail(s: Seq<char>, p: nat, rest: Seq<(char, u32)>)
    requires
        p + chain_tail(rest).len() == s.len(),
        s.subrange(p as int, s.len() as int) == chain_tail(rest),
        forall|i: int| 0 <= i < rest.len() ==> symbol_token((#[trigger] rest[i]).0) is Some,
    ensures
        lex_from(s, p) == chain_tail_tokens(rest),
    decreases rest.len(),
{
    if rest.len() == 0 {
        lemma_lex_from_step(s, p);
        assert(spaces_end(s, p) == p);
    } else {
        let (c, v) = rest[0];
        let d = decimal_digits(v as nat);
        let m = d.len();
        let tail = chain_tail(rest.drop_first());
        let t = chain_tail(rest);
        assert(t == seq![c] + d + tail);
        assert(t.subrange(1, 1 + m as int) =~= d);
        assert(t.subrange(1 + m as int, t.len() as int) =~= tail);
        lemma_char_at(s, p, t, 0);
        lemma_lex_symbol(s, p);
        lemma_text_at(s, p, t, 1, d);
        lemma_text_at(s, p, t, 1 + m as int, tail);
        assert forall|i: int| 0 <= i < rest.drop_first().len() implies symbol_token(
            (#[trigger] rest.drop_first()[i]).0,
        ) is Some by {
            assert(rest.drop_first()[i] == rest[i + 1]);
        }
        if rest.len() > 1 {
            assert(tail[0] == rest[1].0);
            lemma_char_at(s, p, t, 1 + m as int);
            assert(symbol_token(rest[1].0) is Some);
        }
        lemma_lex_integer(s, p + 1, v);
        lemma_lex_chain_tail(s, p + 1 + m, rest.drop_first());
        assert(lex_from(s, p) =~= chain_tail_tokens(rest));
    }
}

proof fn lemma_lex_chain(a: u32, rest: Seq<(char, u32)>)
    requires
        forall|i: int| 0 <= i < rest.len() ==> symbol_token((#[trigger] rest[i]).0) is Some,
    ensures
        lex(chain_text(a, rest)) == seq![TokenView::Integer(a)] + chain_tail_tokens(rest),
{
    let s = chain_text(a, rest);
    let d = decimal_digits(a as nat);
    let m = d.len();
    assert(s.subrange(0, m as int) =~= d);
    assert(s.subrange(m as int, s.len() as int) =~= chain_tail(rest));
    if rest.len() > 0 {
        assert(chain_tail(rest)[0] == rest[0].0);
        assert(s[m as int] == rest[0].0);
        assert(symbol_token(rest[0].0) is Some);
    }
    lemma_lex_integer(s, 0, a);
    lemma_lex_chain_tail(s, m, rest);
}

proof fn lemma_sum_step(ts: Seq<TokenView>, a: TreeNode, j: nat, b: TreeNode, c: nat, op: char, r: TreeNode, d: nat)
    requires
        op == '+' || op == '-',
        tok(ts, j) == symbol_token(op)->0,
        parses_product(ts, j + 1, b, c),
        sum_rest_is(ts, binary_node(op, a, b), j + 1 + c, r, d),
    ensures
        sum_rest_is(ts, a, j, r, 1 + c + d),
{
    reveal(parses_product);
    reveal(sum_rest_is);
}

proof fn lemma_product_step(ts: Seq<TokenView>, a: TreeNode, j: nat, b: TreeNode, c: nat, op: char, r: TreeNode, d: nat)
    requires
        op == '*' || op == '/',
        tok(ts, j) == symbol_token(op)->0,
        parses_power(ts, j + 1, b, c),
        product_rest_is(ts, binary_node(op, a, b), j + 1 + c, r, d),
    ensures
        product_rest_is(ts, a, j, r, 1 + c + d),
{
    reveal(parses_power);
    reveal(product_rest_is);
}

/// The tokens at `j` of a chain tail, followed by the end: facts at `j`.
proof fn lemma_chain_tokens_at(ts: Seq<TokenView>, j: nat, rest: Seq<(char, u32)>)
    requires
        j + chain_tail_tokens(rest).len() == ts.len(),
        ts.subrange(j as int, ts.len() as int) == chain_tail_tokens(rest),
    ensures
        chain_tail_tokens(rest).len() == 2 * rest.len(),
        rest.len() == 0 ==> tok(ts, j) is EOF,
        rest.len() > 0 ==> tok(ts, j) == symbol_token(rest[0].0)->0,
        rest.len() > 0 ==> tok(ts, j + 1) == TokenView::Integer(rest[0].1),
        rest.len() > 0 ==> ts.subrange(j + 2 as int, ts.len() as int) == chain_tail_tokens(
            rest.drop_first(),
        ),
    decreases rest.len(),
{
    let t = chain_tail_tokens(rest);
    if rest.len() > 0 {
        assert(t.subrange(2, t.len() as int) =~= chain_tail_tokens(rest.drop_first()));
        lemma_toks_at(ts, j, t, 2, chain_tail_tokens(rest.drop_first()));
        lemma_chain_tokens_at(ts, j + 2, rest.drop_first());
        lemma_tok_at(ts, j, t, 0);
        lemma_tok_at(ts, j, t, 1);
    }
}

proof fn lemma_sum_fold(ts: Seq<TokenView>, j: nat, acc: TreeNode, rest: Seq<(char, u32)>)
    requires
        j + 2 * rest.len() == ts.len(),
        ts.subrange(j as int, ts.len() as int) == chain_tail_tokens(rest),
        all_ops_in(rest, '+', '-'),
    ensures
        sum_rest_is(ts, acc, j, left_fold(acc, rest), 2 * rest.len()),
    decreases rest.len(),
{
    lemma_chain_tokens_at(ts, j, rest);
    if rest.len() == 0 {
        lemma_stop_sum(ts, acc, j);
    } else {
        let (op, v) = rest[0];
        let b = integer_node(v);
        let more = rest.drop_first();
        assert forall|i: int| 0 <= i < more.len() implies (#[trigger] more[i]).0 == '+' || more[i].0
            == '-' by {
            assert(more[i] == rest[i + 1]);
        }
        assert(rest[0].0 == '+' || rest[0].0 == '-');
        lemma_chain_tokens_at(ts, j + 2, more);
        if more.len() > 0 {
            assert(more[0] == rest[1]);
        }
        lemma_leaf(ts, j + 1, b);
        lemma_factor(ts, j + 1, b, 1);
        lemma_lift_power(ts, j + 1, b, 1);
        lemma_lift_product(ts, j + 1, b, 1);
        lemma_sum_fold(ts, j + 2, binary_node(op, acc, b), more);
        lemma_sum_step(ts, acc, j, b, 1, op, left_fold(acc, rest), 2 * more.len());
    }
}

proof fn lemma_product_fold(ts: Seq<TokenView>, j: nat, acc: TreeNode, rest: Seq<(char, u32)>)
    requires
        j + 2 * rest.len() == ts.len(),
        ts.subrange(j as int, ts.len() as int) == chain_tail_tokens(rest),
        all_ops_in(rest, '*', '/'),
    ensures
        product_rest_is(ts, acc, j, left_fold(acc, rest), 2 * rest.len()),
    decreases rest.len(),
{
    lemma_chain_tokens_at(ts, j, rest);
    if rest.len() == 0 {
        lemma_stop_product(ts, acc, j);
    } else {
        let (op, v) = rest[0];
        let b = integer_node(v);
        let more = rest.drop_first();
        assert forall|i: int| 0 <= i < more.len() implies (#[trigger] more[i]).0 == '*' || more[i].0
            == '/' by {
            assert(more[i] == rest[i + 1]);
        }
        assert(rest[0].0 == '*' || rest[0].0 == '/');
        lemma_chain_tokens_at(ts, j + 2, more);
        if more.len() > 0 {
            assert(more[0] == rest[1]);
        }
        lemma_leaf(ts, j + 1, b);
        lemma_factor(ts, j + 1, b, 1);
        lemma_lift_power(ts, j + 1, b, 1);
        lemma_product_fold(ts, j + 2, binary_node(op, acc, b), more);
        lemma_product_step(ts, acc, j, b, 1, op, left_fold(acc, rest), 2 * more.len());
    }
}

proof fn lemma_power_fold(ts: Seq<TokenView>, k: nat, a: u32, rest: Seq<(char, u32)>)
    requires
        k + 1 + 2 * rest.len() == ts.len(),
        tok(ts, k) == TokenView::Integer(a),
        ts.subrange(k + 1 as int, ts.len() as int) == chain_tail_tokens(rest),
        all_ops_in(rest, '^', '^'),
    ensures
        parses_power(ts, k, power_chain(a, rest), 1 + 2 * rest.len()),
    decreases rest.len(),
{
    lemma_chain_tokens_at(ts, k + 1, rest);
    lemma_leaf(ts, k, integer_node(a));
    lemma_factor(ts, k, integer_node(a), 1);
    if rest.len() == 0 {
        lemma_lift_power(ts, k, integer_node(a), 1);
    } else {
        let more = rest.drop_first();
        assert forall|i: int| 0 <= i < more.len() implies (#[trigger] more[i]).0 == '^' || more[i].0
            == '^' by {
            assert(more[i] == rest[i + 1]);
        }
        assert(rest[0].0 == '^');
        lemma_power_fold(ts, k + 2, rest[0].1, more);
        lemma_power(ts, k, integer_node(a), 1, power_chain(rest[0].1, more), 1 + 2 * more.len());
    }
}

proof fn lemma_chain_tokens(a: u32, rest: Seq<(char, u32)>)
    requires
        forall|i: int| 0 <= i < rest.len() ==> symbol_token((#[trigger] rest[i]).0) is Some,
    ensures
        lex(chain_text(a, rest)).len() == 1 + 2 * rest.len(),
        tok(lex(chain_text(a, rest)), 0) == TokenView::Integer(a),
        lex(chain_text(a, rest)).subrange(1, lex(chain_text(a, rest)).len() as int)
            == chain_tail_tokens(rest),
        tok(lex(chain_text(a, rest)), 1 + 2 * rest.len()) is EOF,
{
    let ts = lex(chain_text(a, rest));
    lemma_lex_chain(a, rest);
    assert(ts.subrange(1, ts.len() as int) =~= chain_tail_tokens(rest));
    lemma_chain_tokens_at(ts, 1, rest);
}

/// Integer literals joined only by `+` and `-`, or only by `*` and `/`,
/// parse to the left-leaning tree: `8-3-2` is `(8-3)-2`.
pub proof fn lemma_left_fold(a: u32, rest: Seq<(char, u32)>)
    requires
        all_ops_in(rest, '+', '-') || all_ops_in(rest, '*', '/'),
    ensures
        parse_text(chain_text(a, rest)) == Ok::<TreeNode, ParseError>(
            left_fold(integer_node(a), rest),
        ),
{
    let ts = lex(chain_text(a, rest));
    let n = rest.len();
    let e = integer_node(a);
    assert forall|i: int| 0 <= i < n implies symbol_token((#[trigger] rest[i]).0) is Some by {
        if all_ops_in(rest, '+', '-') {
            assert(rest[i].0 == '+' || rest[i].0 == '-');
        } else {
            assert(rest[i].0 == '*' || rest[i].0 == '/');
        }
    }
    lemma_chain_tokens(a, rest);
    lemma_chain_tokens_at(ts, 1, rest);
    if n > 0 {
        if all_ops_in(rest, '+', '-') {
            assert(rest[0].0 == '+' || rest[0].0 == '-');
        } else {
            assert(rest[0].0 == '*' || rest[0].0 == '/');
        }
    }
    lemma_leaf(ts, 0, e);
    lemma_factor(ts, 0, e, 1);
    lemma_lift_power(ts, 0, e, 1);
    if all_ops_in(rest, '+', '-') {
        lemma_lift_product(ts, 0, e, 1);
        lemma_sum_fold(ts, 1, e, rest);
        lemma_expression_of(ts, 0, e, 1, left_fold(e, rest), 2 * n);
    } else {
        lemma_product_fold(ts, 1, e, rest);
        lemma_product_of(ts, 0, e, 1, left_fold(e, rest), 2 * n);
        lemma_lift_expression(ts, 0, left_fold(e, rest), 1 + 2 * n);
    }
    reveal(parses_expression);
}

/// Integer literals joined by `^` parse to the right-leaning tree:
/// `2^3^2` is `2^(3^2)`.
pub proof fn lemma_right_chain(a: u32, rest: Seq<(char, u32)>)
    requires
        all_ops_in(rest, '^', '^'),
    ensures
        parse_text(chain_text(a, rest)) == Ok::<TreeNode, ParseError>(power_chain(a, rest)),
{
    let ts = lex(chain_text(a, rest));
    let n = rest.len();
    assert forall|i: int| 0 <= i < n implies symbol_token((#[trigger] rest[i]).0) is Some by {
        assert(rest[i].0 == '^');
    }
    lemma_chain_tokens(a, rest);
    lemma_power_fold(ts, 0, a, rest);
    lemma_lift_product(ts, 0, power_chain(a, rest), 1 + 2 * n);
    lemma_lift_expression(ts, 0, power_chain(a, rest), 1 + 2 * n);
    reveal(parses_expression);
}

} // verus!
