//! Arithmetic expressions: a lexer, a recursive-descent parser that builds a
//! tree, and a printer for the tree's fully parenthesized form.
//!
//! Grammar, loosest binding first:
//!
//! ```text
//! Expression     := Addition
//! Addition       := Multiplication { ('+'|'-') Multiplication }
//! Multiplication := Exponentiation { ('*'|'/') Exponentiation }
//! Exponentiation := Factorial [ '^' Exponentiation ]
//! Factorial      := Basic [ '!' ]
//! Basic          := Integer | Float | Constant | Function Basic
//!                 | '(' Expression ')' | '-' Factorial
//! ```
//!
//! Choices made where the grammar alone does not decide:
//! - a run of digits whose value a `u32` does not hold is illegal text, so
//!   parsing fails with `IllegalCharacter` rather than wrapping around;
//! - digits followed by a `.` with no digit after it make the illegal text
//!   `.`, digits and dot consumed together;
//! - an operator where an operand is required is `ChainedOperators`;
//! - tokens left after a complete expression are `TrailingInput`;
//! - floating-point evaluation is the caller's; `node::factorial_of` gives
//!   the integer product behind `!`.
//!
//! The main contracts: `parser::parse(text)` returns exactly
//! `parser::parse_text(text@)`, the grammar above applied to the tokens of
//! `lexer::next_token_spec`; `TreeNode::print` returns `node::printed`; and
//! `reparse::lemma_reparse` proves that printing a parsed tree (one without
//! constants or functions) and parsing the text again gives the same tree;
//! `reparse::lemma_left_fold` and `reparse::lemma_right_chain` prove how
//! chains of integer literals group.
use vstd::prelude::*;

pub mod chars;
pub mod lexer;
pub mod node;
pub mod parser;
pub mod reparse;

verus! {

} // verus!
