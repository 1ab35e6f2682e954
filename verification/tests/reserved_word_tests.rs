use microc_lexer::lexer::{Lexer, TLexer};
use microc_lexer::reserved_words::ReservedWords;
use microc_lexer::scanner::Scanner;
use microc_lexer::token::TokenType;

fn assert_reserved_word(input: &'static str, expected_type: TokenType) {
    let mut reserved_words = ReservedWords::new();
    reserved_words.insert(input, expected_type);
    let mut lexer = Lexer::new(Scanner::new(input.as_bytes().to_vec()), reserved_words);
    let token = lexer.get_prox_token();

    assert_eq!(token.get_tok_type(), &expected_type);
    assert_eq!(token.get_lexema(), input);
}

#[test]
fn recognizes_main_reserved_word() {
    assert_reserved_word("main", TokenType::Main);
}

#[test]
fn recognizes_if_reserved_word() {
    assert_reserved_word("if", TokenType::If);
}

#[test]
fn recognizes_else_reserved_word() {
    assert_reserved_word("else", TokenType::Else);
}

#[test]
fn recognizes_for_reserved_word() {
    assert_reserved_word("for", TokenType::For);
}

#[test]
fn recognizes_return_reserved_word() {
    assert_reserved_word("return", TokenType::Return);
}

#[test]
fn recognizes_int_reserved_word() {
    assert_reserved_word("int", TokenType::Int);
}

#[test]
fn recognizes_char_reserved_word() {
    assert_reserved_word("char", TokenType::Char);
}

#[test]
fn recognizes_print_reserved_word() {
    assert_reserved_word("print", TokenType::Print);
}
