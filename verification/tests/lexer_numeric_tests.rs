use microc_lexer::lexer::{Lexer, TLexer};
use microc_lexer::reserved_words::ReservedWords;
use microc_lexer::scanner::Scanner;
use microc_lexer::token::TokenType;

fn make_lexer(input: &str) -> Lexer<Scanner> {
    Lexer::new(Scanner::new(input.as_bytes().to_vec()), ReservedWords::new())
}

fn assert_token<L: TLexer>(lexer: &mut L, expected_type: TokenType, expected_lexeme: &str) {
    let token = lexer.get_prox_token();

    assert_eq!(token.get_tok_type(), &expected_type);
    assert_eq!(token.get_lexema(), expected_lexeme);
}

#[test]
fn recognizes_zero() {
    let mut lexer = make_lexer("0");

    assert_token(&mut lexer, TokenType::IntegerConst(0), "0");
}

#[test]
fn recognizes_nine() {
    let mut lexer = make_lexer("9");

    assert_token(&mut lexer, TokenType::IntegerConst(9), "9");
}

#[test]
fn recognizes_multi_digit_integer() {
    let mut lexer = make_lexer("12341235");

    assert_token(
        &mut lexer,
        TokenType::IntegerConst(12_341_235),
        "12341235",
    );
}

#[test]
fn preserves_leading_zeroes_in_integer_lexeme() {
    let mut lexer = make_lexer("00123");

    assert_token(&mut lexer, TokenType::IntegerConst(123), "00123");
}

#[test]
fn integer_does_not_consume_following_operator() {
    let mut lexer = make_lexer("123+");

    assert_token(&mut lexer, TokenType::IntegerConst(123), "123");
    assert_token(&mut lexer, TokenType::Plus, "+");
}

#[test]
fn integer_does_not_consume_following_identifier() {
    let mut lexer = make_lexer("123abc");

    assert_token(&mut lexer, TokenType::IntegerConst(123), "123");
    assert_token(&mut lexer, TokenType::Id, "abc");
}

#[test]
fn scientific_notation_is_not_an_integer_literal() {
    let mut lexer = make_lexer("12E2");

    assert_token(&mut lexer, TokenType::IntegerConst(12), "12");
    assert_token(&mut lexer, TokenType::Id, "E2");
}

#[test]
fn negative_value_is_minus_followed_by_integer() {
    let mut lexer = make_lexer("-123");

    assert_token(&mut lexer, TokenType::Minus, "-");
    assert_token(&mut lexer, TokenType::IntegerConst(123), "123");
}
