use arith_parser::lexer::{Constant, Decimal, Function, Lexer, Token};

fn decimal(whole: u32, fraction: u32, scale: usize) -> Token {
    Token::Float(Decimal { whole, fraction, scale })
}

#[test]
fn basic_tokens() {
    let mut lexer = Lexer::new("1 # + 2 * (4-2^3)!");
    let expected = [
        Token::Integer(1),
        Token::Illegal('#'.to_string()),
        Token::Plus,
        Token::Integer(2),
        Token::Asterisk,
        Token::LeftParenthesis,
        Token::Integer(4),
        Token::Minus,
        Token::Integer(2),
        Token::Caret,
        Token::Integer(3),
        Token::RightParenthesis,
        Token::ExclamationMark,
        Token::EOF,
    ];

    for token in expected {
        assert_eq!(token, lexer.next_token())
    }
}

#[test]
fn no_input() {
    let mut lexer = Lexer::new("");
    let expected = [Token::EOF, Token::EOF];

    for token in expected {
        assert_eq!(token, lexer.next_token());
    }
}

#[test]
fn integer() {
    let mut lexer = Lexer::new("4845 12");
    let expected = [Token::Integer(4845), Token::Integer(12), Token::EOF];

    for token in expected {
        assert_eq!(token, lexer.next_token());
    }
}

#[test]
fn string() {
    let mut lexer = Lexer::new("g pi Me");
    let expected = [
        Token::Constant(Constant::g),
        Token::Constant(Constant::pi),
        Token::Illegal("Me".to_string()),
    ];

    for token in expected {
        assert_eq!(token, lexer.next_token());
    }
}

#[test]
fn functions() {
    let mut lexer = Lexer::new("sin(2) - ln(4)");
    let expected = [
        Token::Function(Function::sin),
        Token::LeftParenthesis,
        Token::Integer(2),
        Token::RightParenthesis,
        Token::Minus,
        Token::Function(Function::ln),
        Token::LeftParenthesis,
        Token::Integer(4),
        Token::RightParenthesis,
    ];

    for token in expected {
        assert_eq!(token, lexer.next_token());
    }
}

#[test]
fn float() {
    let mut lexer = Lexer::new("1.9 234.1 2.234 123.456 0.9384 .343");
    let expected = [
        decimal(1, 9, 1),
        decimal(234, 1, 1),
        decimal(2, 234, 3),
        decimal(123, 456, 3),
        decimal(0, 9384, 4),
        decimal(0, 343, 3),
    ];

    for token in expected {
        assert_eq!(token, lexer.next_token())
    }
}

#[test]
fn peek() {
    let mut lexer = Lexer::new("12 g");

    assert_eq!(Token::Integer(12), lexer.next_token());
    assert_eq!('g', lexer.peek());
    assert_eq!(Token::Constant(Constant::g), lexer.next_token());
}

#[test]
fn end_marker_repeats() {
    let mut lexer = Lexer::new("  7  ");
    assert_eq!(Token::Integer(7), lexer.next_token());
    for _ in 0..3 {
        assert_eq!(Token::EOF, lexer.next_token());
    }
    assert_eq!('\0', lexer.peek());
}

#[test]
fn fraction_keeps_leading_zeros() {
    let mut lexer = Lexer::new("1.05 3.000");
    assert_eq!(decimal(1, 5, 2), lexer.next_token());
    assert_eq!(decimal(3, 0, 3), lexer.next_token());
}

#[test]
fn dot_without_digits_is_illegal() {
    let mut lexer = Lexer::new("1. .x");
    assert_eq!(Token::Illegal(".".to_string()), lexer.next_token());
    assert_eq!(Token::Illegal(".".to_string()), lexer.next_token());
    assert_eq!(Token::Illegal("x".to_string()), lexer.next_token());
    assert_eq!(Token::EOF, lexer.next_token());
}

#[test]
fn largest_integer_and_one_past_it() {
    let mut lexer = Lexer::new("4294967295 4294967296 1.4294967296");
    assert_eq!(Token::Integer(u32::MAX), lexer.next_token());
    assert_eq!(Token::Illegal("4294967296".to_string()), lexer.next_token());
    assert_eq!(Token::Illegal("1.4294967296".to_string()), lexer.next_token());
    assert_eq!(Token::EOF, lexer.next_token());
}

#[test]
fn unicode_white_space_is_skipped() {
    let mut lexer = Lexer::new("\t1\u{3000}+\u{a0}2\n");
    let expected = [Token::Integer(1), Token::Plus, Token::Integer(2), Token::EOF];
    for token in expected {
        assert_eq!(token, lexer.next_token());
    }
}

#[test]
fn letters_run_together() {
    let mut lexer = Lexer::new("sine e2 πr");
    assert_eq!(Token::Illegal("sine".to_string()), lexer.next_token());
    assert_eq!(Token::Constant(Constant::e), lexer.next_token());
    assert_eq!(Token::Integer(2), lexer.next_token());
    assert_eq!(Token::Illegal("πr".to_string()), lexer.next_token());
}

#[test]
fn other_characters_are_illegal() {
    let mut lexer = Lexer::new("%\0");
    assert_eq!(Token::Illegal("%".to_string()), lexer.next_token());
    assert_eq!(Token::Illegal("\0".to_string()), lexer.next_token());
    assert_eq!(Token::EOF, lexer.next_token());
}
