use microc_lexer::lexer::{Lexer, TLexer};
use microc_lexer::reserved_words::ReservedWords;
use microc_lexer::scanner::Scanner;
use microc_lexer::token::TokenType;

fn make_lexer(input: &str) -> Lexer<Scanner> {
    Lexer::new(Scanner::new(input.as_bytes().to_vec()), ReservedWords::new())
}

fn make_lexer_with_reserved_words(input: &str, reserved_words: ReservedWords) -> Lexer<Scanner> {
    Lexer::new(Scanner::new(input.as_bytes().to_vec()), reserved_words)
}

fn assert_token<L: TLexer>(lexer: &mut L, expected_type: TokenType, expected_lexeme: &str) {
    let token = lexer.get_prox_token();

    assert_eq!(token.get_tok_type(), &expected_type);
    assert_eq!(token.get_lexema(), expected_lexeme);
}

fn assert_token_type<L: TLexer>(lexer: &mut L, expected_type: TokenType) {
    let token = lexer.get_prox_token();

    assert_eq!(token.get_tok_type(), &expected_type);
}

#[test]
fn recognizes_plus() {
    let mut lexer = make_lexer("+");

    assert_token(&mut lexer, TokenType::Plus, "+");
}

#[test]
fn recognizes_minus() {
    let mut lexer = make_lexer("-");

    assert_token(&mut lexer, TokenType::Minus, "-");
}

#[test]
fn recognizes_simple_assignment() {
    let mut lexer = make_lexer("=");

    assert_token(&mut lexer, TokenType::Assign, "=");
}

#[test]
fn recognizes_equals() {
    let mut lexer = make_lexer("==");

    assert_token(&mut lexer, TokenType::Eq, "==");
}

#[test]
fn recognizes_complex_assignment() {
    let mut lexer = make_lexer("=123");

    assert_token(&mut lexer, TokenType::Assign, "=");
}

#[test]
fn recognizes_greater_than() {
    let mut lexer = make_lexer(">");

    assert_token(&mut lexer, TokenType::Gt, ">");
}

#[test]
fn recognizes_greater_or_equal() {
    let mut lexer = make_lexer(">=");

    assert_token(&mut lexer, TokenType::Geq, ">=");
}

#[test]
fn equality_consumes_equal() {
    let mut lexer = make_lexer("==+");

    assert_token(&mut lexer, TokenType::Eq, "==");
    assert_token(&mut lexer, TokenType::Plus, "+");
}

#[test]
fn geq_consumes_equals() {
    let mut lexer = make_lexer(">=+");

    assert_token(&mut lexer, TokenType::Geq, ">=");
    assert_token(&mut lexer, TokenType::Plus, "+");
}

#[test]
fn recognizes_less_than() {
    let mut lexer = make_lexer("<");

    assert_token(&mut lexer, TokenType::Lt, "<");
}

#[test]
fn recognizes_less_or_equal() {
    let mut lexer = make_lexer("<=");

    assert_token(&mut lexer, TokenType::Leq, "<=");
}

#[test]
fn leq_consumes_equals() {
    let mut lexer = make_lexer("<=+");

    assert_token(&mut lexer, TokenType::Leq, "<=");
    assert_token(&mut lexer, TokenType::Plus, "+");
}

#[test]
fn less_than_does_not_consume_next() {
    let mut lexer = make_lexer("<+");

    assert_token(&mut lexer, TokenType::Lt, "<");
    assert_token(&mut lexer, TokenType::Plus, "+");
}

#[test]
fn recognizes_logical_and() {
    let mut lexer = make_lexer("&&");

    assert_token(&mut lexer, TokenType::And, "&&");
}

#[test]
fn logical_and_consumes_both_characters() {
    let mut lexer = make_lexer("&&+");

    assert_token(&mut lexer, TokenType::And, "&&");
    assert_token(&mut lexer, TokenType::Plus, "+");
}

#[test]
fn single_ampersand_is_error() {
    let mut lexer = make_lexer("&");

    assert_token(&mut lexer, TokenType::Undef, "&");
}

#[test]
fn invalid_ampersand_does_not_consume_next() {
    let mut lexer = make_lexer("&+");

    assert_token(&mut lexer, TokenType::Undef, "&");
    assert_token(&mut lexer, TokenType::Plus, "+");
}

#[test]
fn recognizes_logical_or() {
    let mut lexer = make_lexer("||");

    assert_token(&mut lexer, TokenType::Or, "||");
}

#[test]
fn recognizes_not() {
    let mut lexer = make_lexer("!");

    assert_token(&mut lexer, TokenType::Not, "!");
}

#[test]
fn recognizes_not_equal() {
    let mut lexer = make_lexer("!=");

    assert_token(&mut lexer, TokenType::Neq, "!=");
}

#[test]
fn recognizes_char_const() {
    let mut lexer = make_lexer("'a'");

    assert_token(&mut lexer, TokenType::CharConst, "a");
}

#[test]
fn recognizes_symbol_char_const() {
    let mut lexer = make_lexer("'+'");

    assert_token(&mut lexer, TokenType::CharConst, "+");
}

#[test]
fn char_const_consumes_closing_quote() {
    let mut lexer = make_lexer("'a'+");

    assert_token(&mut lexer, TokenType::CharConst, "a");
    assert_token(&mut lexer, TokenType::Plus, "+");
}

#[test]
fn unterminated_char_const_is_error() {
    let mut lexer = make_lexer("'a");

    assert_token_type(&mut lexer, TokenType::Undef);
}

#[test]
fn empty_char_const_is_error() {
    let mut lexer = make_lexer("''");

    assert_token_type(&mut lexer, TokenType::Undef);
}

#[test]
fn multiple_character_char_const_is_error() {
    let mut lexer = make_lexer("'ab'");

    assert_token_type(&mut lexer, TokenType::Undef);
}

#[test]
fn newline_in_char_const_is_error() {
    let mut lexer = make_lexer("'\n'");

    assert_token_type(&mut lexer, TokenType::Undef);
}

#[test]
fn recognizes_string_const() {
    let mut lexer = make_lexer("\"hello\"");

    assert_token(&mut lexer, TokenType::StringConst, "hello");
}

#[test]
fn recognizes_empty_string_const() {
    let mut lexer = make_lexer("\"\"");

    assert_token(&mut lexer, TokenType::StringConst, "");
}

#[test]
fn recognizes_string_const_with_symbols() {
    let mut lexer = make_lexer("\"123 !@#$%\"");

    assert_token(&mut lexer, TokenType::StringConst, "123 !@#$%");
}

#[test]
fn string_const_consumes_closing_quote() {
    let mut lexer = make_lexer("\"hello\"+");

    assert_token(&mut lexer, TokenType::StringConst, "hello");
    assert_token(&mut lexer, TokenType::Plus, "+");
}

#[test]
fn unterminated_string_const_is_error() {
    let mut lexer = make_lexer("\"hello");

    assert_token_type(&mut lexer, TokenType::Undef);
}

#[test]
fn newline_in_string_const_is_error() {
    let mut lexer = make_lexer("\"hello\nworld\"");

    assert_token_type(&mut lexer, TokenType::Undef);
}

#[test]
fn recognizes_comma() {
    let mut lexer = make_lexer(",");

    assert_token(&mut lexer, TokenType::Comma, ",");
}

#[test]
fn recognizes_semicolon() {
    let mut lexer = make_lexer(";");

    assert_token(&mut lexer, TokenType::SemiColon, ";");
}

#[test]
fn recognizes_left_parenthesis() {
    let mut lexer = make_lexer("(");

    assert_token(&mut lexer, TokenType::Lparen, "(");
}

#[test]
fn recognizes_right_parenthesis() {
    let mut lexer = make_lexer(")");

    assert_token(&mut lexer, TokenType::Rparen, ")");
}

#[test]
fn recognizes_left_brace() {
    let mut lexer = make_lexer("{");

    assert_token(&mut lexer, TokenType::LBrace, "{");
}

#[test]
fn recognizes_right_brace() {
    let mut lexer = make_lexer("}");

    assert_token(&mut lexer, TokenType::RBrace, "}");
}

#[test]
fn recognizes_left_bracket() {
    let mut lexer = make_lexer("[");

    assert_token(&mut lexer, TokenType::LBracket, "[");
}

#[test]
fn recognizes_right_bracket() {
    let mut lexer = make_lexer("]");

    assert_token(&mut lexer, TokenType::RBracket, "]");
}

#[test]
fn recognizes_mul() {
    let mut lexer = make_lexer("*");

    assert_token(&mut lexer, TokenType::Mul, "*");
}

#[test]
fn recognizes_mod() {
    let mut lexer = make_lexer("%");

    assert_token(&mut lexer, TokenType::Mod, "%");
}

#[test]
fn recognizes_identifier() {
    let mut lexer = make_lexer("value");

    assert_token(&mut lexer, TokenType::Id, "value");
}

#[test]
fn recognizes_identifier_with_uppercase_digits_and_underscore() {
    let mut lexer = make_lexer("Value_123");

    assert_token(&mut lexer, TokenType::Id, "Value_123");
}

#[test]
fn recognizes_identifier_starting_with_underscore() {
    let mut lexer = make_lexer("_value");

    assert_token(&mut lexer, TokenType::Id, "_value");
}

#[test]
fn recognizes_injected_reserved_word() {
    let mut reserved_words = ReservedWords::new();
    reserved_words.insert("if", TokenType::If);
    let mut lexer = make_lexer_with_reserved_words("if", reserved_words);

    assert_token(&mut lexer, TokenType::If, "if");
}

#[test]
fn reserved_word_match_is_exact() {
    let mut reserved_words = ReservedWords::new();
    reserved_words.insert("if", TokenType::If);
    let mut lexer = make_lexer_with_reserved_words("ifx", reserved_words);

    assert_token(&mut lexer, TokenType::Id, "ifx");
}

#[test]
fn identifier_does_not_consume_following_token() {
    let mut lexer = make_lexer("value+");

    assert_token(&mut lexer, TokenType::Id, "value");
    assert_token(&mut lexer, TokenType::Plus, "+");
}
