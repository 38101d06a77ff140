//! Lexical scanning: characters to tokens.
use vstd::prelude::*;

use crate::chars::{
    alphabetic, digit_value, digit_value_spec, is_alphabetic, is_digit, is_digit_spec,
    is_white_space, push_char, white_space,
};

verus! {

/// The named constants the lexer knows.
#[allow(non_camel_case_types)]
#[derive(Debug, PartialEq, Eq, Clone, Copy)]
pub enum Constant {
    g,
    pi,
    e,
}

/// The named functions the lexer knows.
#[allow(non_camel_case_types)]
#[derive(Debug, PartialEq, Eq, Clone, Copy)]
pub enum Function {
    sin,
    ln,
}

/// A decimal literal `whole.fraction`, where the fraction was written with
/// `scale` digits (leading zeros included): its value is
/// `whole + fraction / 10^scale`.
#[derive(Debug, PartialEq, Eq, Clone, Copy)]
pub struct Decimal {
    pub whole: u32,
    pub fraction: u32,
    pub scale: usize,
}

pub open spec fn pow10(n: nat) -> nat
    decreases n,
{
    if n == 0 {
        1
    } else {
        10 * pow10((n - 1) as nat)
    }
}

impl Decimal {
    /// At least one fraction digit, and the fraction fits in that many digits.
    pub open spec fn wf(&self) -> bool {
        self.scale >= 1 && self.fraction < pow10(self.scale as nat)
    }
}

/// One lexical unit.
#[derive(Debug, PartialEq, Clone)]
pub enum Token {
    EOF,
    Illegal(String),
    Integer(u32),
    Float(Decimal),
    Plus,
    Minus,
    Asterisk,
    Slash,
    LeftParenthesis,
    RightParenthesis,
    ExclamationMark,
    Caret,
    Constant(Constant),
    Function(Function),
}

/// A token as a mathematical value: the text of an illegal token is a sequence.
pub enum TokenView {
    EOF,
    Illegal(Seq<char>),
    Integer(u32),
    Float(Decimal),
    Plus,
    Minus,
    Asterisk,
    Slash,
    LeftParenthesis,
    RightParenthesis,
    ExclamationMark,
    Caret,
    Constant(Constant),
    Function(Function),
}

impl View for Token {
    type V = TokenView;

    open spec fn view(&self) -> TokenView {
        match self {
            Token::EOF => TokenView::EOF,
            Token::Illegal(s) => TokenView::Illegal(s@),
            Token::Integer(n) => TokenView::Integer(*n),
            Token::Float(d) => TokenView::Float(*d),
            Token::Plus => TokenView::Plus,
            Token::Minus => TokenView::Minus,
            Token::Asterisk => TokenView::Asterisk,
            Token::Slash => TokenView::Slash,
            Token::LeftParenthesis => TokenView::LeftParenthesis,
            Token::RightParenthesis => TokenView::RightParenthesis,
            Token::ExclamationMark => TokenView::ExclamationMark,
            Token::Caret => TokenView::Caret,
            Token::Constant(c) => TokenView::Constant(*c),
            Token::Function(f) => TokenView::Function(*f),
        }
    }
}

/// The value of a run of decimal digits, most significant first.
pub open spec fn digits_value(ds: Seq<char>) -> nat
    decreases ds.len(),
{
    if ds.len() == 0 {
        0
    } else {
        digits_value(ds.drop_last()) * 10 + digit_value_spec(ds.last())
    }
}

/// The first position at or after `i` that does not hold white space.
pub open spec fn spaces_end(s: Seq<char>, i: nat) -> nat
    decreases s.len() - i,
{
    if i < s.len() && white_space(s[i as int]) {
        spaces_end(s, i + 1)
    } else {
        i
    }
}

/// The end of the run of decimal digits that starts at `i`.
pub open spec fn digits_end(s: Seq<char>, i: nat) -> nat
    decreases s.len() - i,
{
    if i < s.len() && is_digit_spec(s[i as int]) {
        digits_end(s, i + 1)
    } else {
        i
    }
}

/// The end of the run of alphabetic characters that starts at `i`.
pub open spec fn letters_end(s: Seq<char>, i: nat) -> nat
    decreases s.len() - i,
{
    if i < s.len() && alphabetic(s[i as int]) {
        letters_end(s, i + 1)
    } else {
        i
    }
}

/// Whether a run of digits stands for a value that a `u32` holds.
pub open spec fn fits_u32(ds: Seq<char>) -> bool {
    digits_value(ds) <= u32::MAX
}

/// An integer literal; one too large for a `u32` is illegal text.
pub open spec fn integer_token(ds: Seq<char>) -> TokenView {
    if fits_u32(ds) {
        TokenView::Integer(digits_value(ds) as u32)
    } else {
        TokenView::Illegal(ds)
    }
}

/// A decimal literal written as `text`, with the given integer and fraction
/// digits; one whose parts a `u32` does not hold is illegal text.
pub open spec fn float_token(text: Seq<char>, whole: Seq<char>, fraction: Seq<char>) -> TokenView {
    if fits_u32(whole) && fits_u32(fraction) {
        TokenView::Float(
            Decimal {
                whole: digits_value(whole) as u32,
                fraction: digits_value(fraction) as u32,
                scale: fraction.len() as usize,
            },
        )
    } else {
        TokenView::Illegal(text)
    }
}

/// The constant table.
pub open spec fn constant_named(w: Seq<char>) -> Option<Constant> {
    if w == seq!['g'] {
        Some(Constant::g)
    } else if w == seq!['p', 'i'] {
        Some(Constant::pi)
    } else if w == seq!['e'] {
        Some(Constant::e)
    } else {
        None
    }
}

/// The function table.
pub open spec fn function_named(w: Seq<char>) -> Option<Function> {
    if w == seq!['s', 'i', 'n'] {
        Some(Function::sin)
    } else if w == seq!['l', 'n'] {
        Some(Function::ln)
    } else {
        None
    }
}

/// An identifier: a constant, else a function, else illegal text.
pub open spec fn word_token(w: Seq<char>) -> TokenView {
    match constant_named(w) {
        Some(c) => TokenView::Constant(c),
        None => match function_named(w) {
            Some(f) => TokenView::Function(f),
            None => TokenView::Illegal(w),
        },
    }
}

/// The token for the single character `c`, if it is an operator or a parenthesis.
pub open spec fn symbol_token(c: char) -> Option<TokenView> {
    if c == '+' {
        Some(TokenView::Plus)
    } else if c == '-' {
        Some(TokenView::Minus)
    } else if c == '*' {
        Some(TokenView::Asterisk)
    } else if c == '/' {
        Some(TokenView::Slash)
    } else if c == '!' {
        Some(TokenView::ExclamationMark)
    } else if c == '^' {
        Some(TokenView::Caret)
    } else if c == '(' {
        Some(TokenView::LeftParenthesis)
    } else if c == ')' {
        Some(TokenView::RightParenthesis)
    } else {
        None
    }
}

/// The numeric literal that starts with the digit at `q`, and where it ends.
/// Digits followed by a `.` with no digit after it are taken together with
/// the `.`, and make the illegal text `.`.
pub open spec fn number_at(s: Seq<char>, q: nat) -> (TokenView, nat) {
    let e1 = digits_end(s, q);
    if e1 < s.len() && s[e1 as int] == '.' && !(e1 + 1 < s.len() && is_digit_spec(
        s[e1 + 1 as int],
    )) {
        (TokenView::Illegal(seq!['.']), e1 + 1)
    } else if e1 + 1 < s.len() && s[e1 as int] == '.' && is_digit_spec(s[e1 + 1 as int]) {
        let e2 = digits_end(s, e1 + 1);
        (
            float_token(
                s.subrange(q as int, e2 as int),
                s.subrange(q as int, e1 as int),
                s.subrange(e1 + 1 as int, e2 as int),
            ),
            e2,
        )
    } else {
        (integer_token(s.subrange(q as int, e1 as int)), e1)
    }
}

/// The token that starts at `q` (where no white space stands), and where it ends.
pub open spec fn token_at(s: Seq<char>, q: nat) -> (TokenView, nat) {
    if q >= s.len() {
        (TokenView::EOF, q)
    } else {
        let c = s[q as int];
        if symbol_token(c) is Some {
            (symbol_token(c)->0, q + 1)
        } else if c == '.' {
            if q + 1 < s.len() && is_digit_spec(s[q + 1 as int]) {
                let e = digits_end(s, q + 1);
                (float_token(s.subrange(q as int, e as int), seq![], s.subrange(q + 1 as int, e as int)), e)
            } else {
                (TokenView::Illegal(seq!['.']), q + 1)
            }
        } else if is_digit_spec(c) {
            number_at(s, q)
        } else if alphabetic(c) {
            let e = letters_end(s, q);
            (word_token(s.subrange(q as int, e as int)), e)
        } else {
            (TokenView::Illegal(seq![c]), q + 1)
        }
    }
}

/// The next token of `s` from position `p`, and the position after it.
pub open spec fn next_token_spec(s: Seq<char>, p: nat) -> (TokenView, nat) {
    token_at(s, spaces_end(s, p))
}


/// The text of `v[start..end]`.
fn text_of(v: &Vec<char>, start: usize, end: usize) -> (r: String)
    requires
        start <= end <= v.len(),
    ensures
        r@ == v@.subrange(start as int, end as int),
{
    let mut r = String::new();
    let mut i = start;
    while i < end
        invariant
            start <= i <= end <= v.len(),
            r@ == v@.subrange(start as int, i as int),
        decreases end - i,
    {
        push_char(&mut r, v[i]);
        assert(v@.subrange(start as int, i + 1) =~= v@.subrange(start as int, i as int).push(v@[i as int]));
        i = i + 1;
    }
    r
}

/// Looks `w` up in the constant table.
pub fn lookup_constant(w: &Vec<char>) -> (r: Option<Constant>)
    ensures
        r == constant_named(w@),
{
    if w.len() == 1 && w[0] == 'g' {
        assert(w@ =~= seq!['g']);
        Some(Constant::g)
    } else if w.len() == 2 && w[0] == 'p' && w[1] == 'i' {
        assert(w@ =~= seq!['p', 'i']);
        Some(Constant::pi)
    } else if w.len() == 1 && w[0] == 'e' {
        assert(w@ =~= seq!['e']);
        Some(Constant::e)
    } else {
        None
    }
}

/// Looks `w` up in the function table.
pub fn lookup_function(w: &Vec<char>) -> (r: Option<Function>)
    ensures
        r == function_named(w@),
{
    if w.len() == 3 && w[0] == 's' && w[1] == 'i' && w[2] == 'n' {
        assert(w@ =~= seq!['s', 'i', 'n']);
        Some(Function::sin)
    } else if w.len() == 2 && w[0] == 'l' && w[1] == 'n' {
        assert(w@ =~= seq!['l', 'n']);
        Some(Function::ln)
    } else {
        None
    }
}

/// The operator or parenthesis that `c` stands for, if any.
fn symbol(c: char) -> (r: Option<Token>)
    ensures
        match r {
            Some(t) => symbol_token(c) == Some(t@),
            None => symbol_token(c) is None,
        },
{
    match c {
        '+' => Some(Token::Plus),
        '-' => Some(Token::Minus),
        '*' => Some(Token::Asterisk),
        '/' => Some(Token::Slash),
        '!' => Some(Token::ExclamationMark),
        '^' => Some(Token::Caret),
        '(' => Some(Token::LeftParenthesis),
        ')' => Some(Token::RightParenthesis),
        _ => None,
    }
}

/// Appending a digit multiplies the value by ten and adds the digit.
pub proof fn lemma_digits_value_push(ds: Seq<char>, c: char)
    ensures
        digits_value(ds.push(c)) == digits_value(ds) * 10 + digit_value_spec(c),
{
    assert(ds.push(c).drop_last() =~= ds);
}

/// Each run ends between its start and the end of the text, and a run that
/// starts on a character of its kind is not empty.
pub proof fn lemma_run_ends(s: Seq<char>, i: nat)
    requires
        i <= s.len(),
    ensures
        i <= spaces_end(s, i) <= s.len(),
        i <= digits_end(s, i) <= s.len(),
        i <= letters_end(s, i) <= s.len(),
        i < s.len() && is_digit_spec(s[i as int]) ==> i < digits_end(s, i),
        i < s.len() && alphabetic(s[i as int]) ==> i < letters_end(s, i),
    decreases s.len() - i,
{
    if i < s.len() {
        lemma_run_ends(s, i + 1);
    }
}

/// A token other than the end marker uses at least one character.
pub proof fn lemma_next_token_advances(s: Seq<char>, p: nat)
    ensures
        next_token_spec(s, p).0 is EOF ==> next_token_spec(s, p).1 == spaces_end(s, p),
        !(next_token_spec(s, p).0 is EOF) ==> p < next_token_spec(s, p).1 <= s.len(),
{
    if p <= s.len() {
        lemma_run_ends(s, p);
        let q = spaces_end(s, p);
        if q < s.len() {
            lemma_run_ends(s, q);
            lemma_run_ends(s, q + 1);
            let e1 = digits_end(s, q);
            if e1 + 1 <= s.len() {
                lemma_run_ends(s, e1 + 1);
            }
        }
    } else {
        assert(spaces_end(s, p) == p);
    }
}

/// Once the end marker comes, it comes again from where it left the cursor.
pub proof fn lemma_end_is_stable(s: Seq<char>, p: nat)
    requires
        next_token_spec(s, p).0 is EOF,
    ensures
        next_token_spec(s, next_token_spec(s, p).1) == next_token_spec(s, p),
{
    let q = spaces_end(s, p);
    if p <= s.len() {
        lemma_run_ends(s, p);
    } else {
        assert(spaces_end(s, p) == p);
    }
    assert(spaces_end(s, q) == q);
}

/// A cursor over the characters of one input string.
pub struct Lexer {
    chars: Vec<char>,
    pos: usize,
}

impl Lexer {
    /// The characters being scanned.
    pub closed spec fn input(&self) -> Seq<char> {
        self.chars@
    }

    /// The cursor: the position of the current character.
    pub closed spec fn position(&self) -> nat {
        self.pos as nat
    }

    pub closed spec fn wf(&self) -> bool {
        self.pos <= self.chars.len()
    }

    /// A well-formed lexer's cursor lies within its input (at its end at most).
    pub proof fn lemma_position_in_bounds(&self)
        requires
            self.wf(),
        ensures
            self.position() <= self.input().len(),
    {
    }

    /// A lexer at the start of `input`.
    pub fn new(input: &str) -> (r: Lexer)
        ensures
            r.wf(),
            r.input() == input@,
            r.position() == 0,
    {
        let mut chars: Vec<char> = Vec::new();
        for c in it: input.chars()
            invariant
                chars@ == it.seq().take(it.index() as int),
        {
            chars.push(c);
        }
        Lexer { chars, pos: 0 }
    }

    /// The current character, if the cursor is not at the end.
    fn current(&self) -> (r: Option<char>)
        requires
            self.wf(),
        ensures
            r == (if self.pos < self.chars.len() {
                Some(self.chars@[self.pos as int])
            } else {
                None
            }),
    {
        if self.pos < self.chars.len() {
            Some(self.chars[self.pos])
        } else {
            None
        }
    }

    /// The character after the current one, without moving; `'\0'` when
    /// there is none.
    pub fn peek(&self) -> (r: char)
        requires
            self.wf(),
        ensures
            r == (if self.position() + 1 < self.input().len() {
                self.input()[self.position() + 1 as int]
            } else {
                '\0'
            }),
    {
        if self.pos < self.chars.len() && self.pos + 1 < self.chars.len() {
            self.chars[self.pos + 1]
        } else {
            '\0'
        }
    }

    /// Moves the cursor one character forward, unless it is at the end.
    pub fn read_char(&mut self)
        requires
            old(self).wf(),
        ensures
            final(self).wf(),
            final(self).input() == old(self).input(),
            final(self).position() == if old(self).position() < old(self).input().len() {
                old(self).position() + 1
            } else {
                old(self).position()
            },
    {
        if self.pos < self.chars.len() {
            self.pos = self.pos + 1;
        }
    }

    /// Moves the cursor past white space.
    pub fn skip_whitespace(&mut self)
        requires
            old(self).wf(),
        ensures
            final(self).wf(),
            final(self).input() == old(self).input(),
            final(self).position() == spaces_end(old(self).input(), old(self).position()),
    {
        while self.pos < self.chars.len() && is_white_space(self.chars[self.pos])
            invariant
                self.wf(),
                self.input() == old(self).input(),
                spaces_end(self.input(), self.position()) == spaces_end(
                    old(self).input(),
                    old(self).position(),
                ),
            decreases self.chars.len() - self.pos,
        {
            self.read_char();
        }
    }

    /// Reads the run of digits at the cursor. Returns its value and whether
    /// a `u32` holds it (the value is meaningful only then).
    fn read_digits(&mut self) -> (r: (u32, bool))
        requires
            old(self).wf(),
        ensures
            final(self).wf(),
            final(self).input() == old(self).input(),
            final(self).position() == digits_end(old(self).input(), old(self).position()),
            r.1 == fits_u32(
                old(self).input().subrange(
                    old(self).position() as int,
                    final(self).position() as int,
                ),
            ),
            r.1 ==> r.0 == digits_value(
                old(self).input().subrange(
                    old(self).position() as int,
                    final(self).position() as int,
                ),
            ),
    {
        let ghost s = self.chars@;
        let start = self.pos;
        let mut value: u32 = 0;
        let mut fits = true;
        assert(s.subrange(start as int, start as int) =~= Seq::<char>::empty());
        while self.pos < self.chars.len() && is_digit(self.chars[self.pos])
            invariant
                self.wf(),
                self.chars@ == s,
                start <= self.pos,
                digits_end(s, self.pos as nat) == digits_end(s, start as nat),
                fits == fits_u32(s.subrange(start as int, self.pos as int)),
                fits ==> value == digits_value(s.subrange(start as int, self.pos as int)),
            decreases self.chars.len() - self.pos,
        {
            let c = self.chars[self.pos];
            let d = digit_value(c);
            let ghost run = s.subrange(start as int, self.pos as int);
            proof {
                lemma_digits_value_push(run, c);
                assert(s.subrange(start as int, self.pos + 1) =~= run.push(c));
            }
            if fits {
                if value > (u32::MAX - d) / 10 {
                    assert(value * 10 + d > u32::MAX) by (nonlinear_arith)
                        requires
                            value > (u32::MAX - d) / 10,
                            d < 10,
                    ;
                    fits = false;
                } else {
                    assert(value * 10 + d <= u32::MAX) by (nonlinear_arith)
                        requires
                            value <= (u32::MAX - d) / 10,
                            d < 10,
                    ;
                    value = value * 10 + d;
                }
            } else {
                assert(digits_value(run) * 10 + d > u32::MAX) by (nonlinear_arith)
                    requires
                        digits_value(run) > u32::MAX,
                ;
            }
            self.read_char();
        }
        (value, fits)
    }

    /// Reads a numeric literal; the cursor is on its first digit.
    fn read_number(&mut self) -> (r: Token)
        requires
            old(self).wf(),
            old(self).position() < old(self).input().len(),
            is_digit_spec(old(self).input()[old(self).position() as int]),
        ensures
            final(self).wf(),
            final(self).input() == old(self).input(),
            (r@, final(self).position()) == number_at(old(self).input(), old(self).position()),
    {
        let ghost s = self.chars@;
        let start = self.pos;
        let (whole, whole_fits) = self.read_digits();
        let e1 = self.pos;
        proof {
            lemma_run_ends(s, start as nat);
        }
        let dot = match self.current() {
            Some(c) => c == '.',
            None => false,
        };
        if dot && !is_digit(self.peek()) {
            self.read_char();
            let mut text = String::new();
            push_char(&mut text, '.');
            assert(text@ =~= seq!['.']);
            Token::Illegal(text)
        } else if dot {
            self.read_char();
            proof {
                lemma_run_ends(s, self.pos as nat);
            }
            let (fraction, fraction_fits) = self.read_digits();
            if whole_fits && fraction_fits {
                Token::Float(Decimal { whole, fraction, scale: self.pos - e1 - 1 })
            } else {
                Token::Illegal(text_of(&self.chars, start, self.pos))
            }
        } else if whole_fits {
            Token::Integer(whole)
        } else {
            Token::Illegal(text_of(&self.chars, start, e1))
        }
    }

    /// Reads an identifier; the cursor is on its first letter.
    fn read_string(&mut self) -> (r: Token)
        requires
            old(self).wf(),
        ensures
            final(self).wf(),
            final(self).input() == old(self).input(),
            final(self).position() == letters_end(old(self).input(), old(self).position()),
            r@ == word_token(
                old(self).input().subrange(
                    old(self).position() as int,
                    final(self).position() as int,
                ),
            ),
    {
        let ghost s = self.chars@;
        let start = self.pos;
        let mut word: Vec<char> = Vec::new();
        while self.pos < self.chars.len() && is_alphabetic(self.chars[self.pos])
            invariant
                self.wf(),
                self.chars@ == s,
                start <= self.pos,
                letters_end(s, self.pos as nat) == letters_end(s, start as nat),
                word@ == s.subrange(start as int, self.pos as int),
            decreases self.chars.len() - self.pos,
        {
            let c = self.chars[self.pos];
            word.push(c);
            assert(s.subrange(start as int, self.pos + 1) =~= s.subrange(
                start as int,
                self.pos as int,
            ).push(c));
            self.read_char();
        }
        match lookup_constant(&word) {
            Some(c) => Token::Constant(c),
            None => match lookup_function(&word) {
                Some(f) => Token::Function(f),
                None => {
                    let text = text_of(&word, 0, word.len());
                    assert(text@ =~= word@);
                    Token::Illegal(text)
                },
            },
        }
    }

    /// Returns the next token and moves past it. At the end of the input it
    /// returns `EOF`, again on every later call.
    pub fn next_token(&mut self) -> (r: Token)
        requires
            old(self).wf(),
        ensures
            final(self).wf(),
            final(self).input() == old(self).input(),
            (r@, final(self).position()) == next_token_spec(
                old(self).input(),
                old(self).position(),
            ),
    {
        self.skip_whitespace();
        let ghost s = self.chars@;
        let ghost q = self.pos as nat;
        match self.current() {
            None => Token::EOF,
            Some(c) => {
                match symbol(c) {
                    Some(t) => {
                        self.read_char();
                        t
                    },
                    None => {
                        if c == '.' {
                            if is_digit(self.peek()) {
                                let start = self.pos;
                                self.read_char();
                                proof {
                                    lemma_run_ends(s, self.pos as nat);
                                }
                                let (fraction, fits) = self.read_digits();
                                if fits {
                                    proof {
                                        assert(digits_value(Seq::<char>::empty()) == 0);
                                    }
                                    Token::Float(
                                        Decimal { whole: 0, fraction, scale: self.pos - start - 1 },
                                    )
                                } else {
                                    Token::Illegal(text_of(&self.chars, start, self.pos))
                                }
                            } else {
                                self.read_char();
                                let mut text = String::new();
                                push_char(&mut text, '.');
                                assert(text@ =~= seq!['.']);
                                Token::Illegal(text)
                            }
                        } else if is_digit(c) {
                            self.read_number()
                        } else if is_alphabetic(c) {
                            self.read_string()
                        } else {
                            self.read_char();
                            let mut text = String::new();
                            push_char(&mut text, c);
                            assert(text@ =~= seq![c]);
                            Token::Illegal(text)
                        }
                    },
                }
            },
        }
    }
}

} // verus!
