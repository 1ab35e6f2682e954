use microc_lexer::comment_contract;
use microc_lexer::lexer::{Lexer, TLexer};
use microc_lexer::reserved_words::ReservedWords;
use microc_lexer::scanner::{Scanner, ScannerError, TScanner};
use microc_lexer::token::TokenType;

fn make_lexer(input: &str) -> Lexer<Scanner> {
    Lexer::new(Scanner::new(input.as_bytes().to_vec()), ReservedWords::new())
}

fn make_lexer_from_bytes(input: &[u8]) -> Lexer<Scanner> {
    Lexer::new(Scanner::new(input.to_vec()), ReservedWords::new())
}

fn assert_token<L: TLexer>(lexer: &mut L, expected_type: TokenType, expected_lexeme: &str) {
    let token = lexer.get_prox_token();

    assert_eq!(token.get_tok_type(), &expected_type);
    assert_eq!(token.get_lexema(), expected_lexeme);
}

#[test]
fn whitespace_before_a_token_is_skipped() {
    let mut lexer = make_lexer(" \t\r\n\x0c==");

    assert_token(&mut lexer, TokenType::Eq, "==");
}

#[test]
fn comment_before_a_token_is_skipped() {
    let mut lexer = make_lexer("// a comment; with \"symbols\"\n123");

    assert_token(&mut lexer, TokenType::IntegerConst(123), "123");
}

#[test]
fn comment_and_whitespace_mix_is_skipped() {
    let mut lexer = make_lexer("  // one\n\t// two\n  x");

    assert_token(&mut lexer, TokenType::Id, "x");
}

#[test]
fn comment_at_end_of_line_keeps_following_line() {
    let mut lexer = make_lexer("a // rest\nb");

    assert_token(&mut lexer, TokenType::Id, "a");
    assert_token(&mut lexer, TokenType::Id, "b");
}

#[test]
fn single_pipe_is_error() {
    let mut lexer = make_lexer("|");

    assert_token(&mut lexer, TokenType::Undef, "|");
}

#[test]
fn invalid_pipe_does_not_consume_next() {
    let mut lexer = make_lexer("|+");

    assert_token(&mut lexer, TokenType::Undef, "|");
    assert_token(&mut lexer, TokenType::Plus, "+");
}

#[test]
fn neq_consumes_equal() {
    let mut lexer = make_lexer("!=+");

    assert_token(&mut lexer, TokenType::Neq, "!=");
    assert_token(&mut lexer, TokenType::Plus, "+");
}

#[test]
fn undefined_char_constants_keep_what_was_read() {
    let mut lexer = make_lexer("''");
    assert_token(&mut lexer, TokenType::Undef, "''");

    let mut lexer = make_lexer("'ab'");
    assert_token(&mut lexer, TokenType::Undef, "'ab");
    assert_token(&mut lexer, TokenType::Undef, "'");

    let mut lexer = make_lexer("'\n'");
    assert_token(&mut lexer, TokenType::Undef, "'\n");

    let mut lexer = make_lexer("'a");
    assert_token(&mut lexer, TokenType::Undef, "'a");

    let mut lexer = make_lexer("'");
    assert_token(&mut lexer, TokenType::Undef, "'");
}

#[test]
fn string_cut_by_line_break_resumes_after_it() {
    let mut lexer = make_lexer("\"hello\nworld\"");

    assert_token(&mut lexer, TokenType::Undef, "hello");
    assert_token(&mut lexer, TokenType::Id, "world");
    assert_token(&mut lexer, TokenType::Undef, "");
}

#[test]
fn string_bytes_become_one_character_each() {
    let mut lexer = make_lexer_from_bytes(&[b'"', 0xc3, 0xa9, b'"']);

    assert_token(&mut lexer, TokenType::StringConst, "\u{c3}\u{a9}");
}

#[test]
fn largest_integer_constant() {
    let mut lexer = make_lexer("9223372036854775807");

    assert_token(
        &mut lexer,
        TokenType::IntegerConst(i64::MAX),
        "9223372036854775807",
    );
}

#[test]
fn a_statement_is_split_into_tokens() {
    let mut reserved_words = ReservedWords::new();
    reserved_words.insert("int", TokenType::Int);
    reserved_words.insert("print", TokenType::Print);
    let mut lexer = Lexer::new(
        Scanner::new(b"int x = 42; // answer\nprint(x >= 'c');".to_vec()),
        reserved_words,
    );

    assert_token(&mut lexer, TokenType::Int, "int");
    assert_token(&mut lexer, TokenType::Id, "x");
    assert_token(&mut lexer, TokenType::Assign, "=");
    assert_token(&mut lexer, TokenType::IntegerConst(42), "42");
    assert_token(&mut lexer, TokenType::SemiColon, ";");
    assert_token(&mut lexer, TokenType::Print, "print");
    assert_token(&mut lexer, TokenType::Lparen, "(");
    assert_token(&mut lexer, TokenType::Id, "x");
    assert_token(&mut lexer, TokenType::Geq, ">=");
    assert_token(&mut lexer, TokenType::CharConst, "c");
    assert_token(&mut lexer, TokenType::Rparen, ")");
    assert_token(&mut lexer, TokenType::SemiColon, ";");
}

#[test]
fn later_insert_replaces_reserved_word() {
    let mut reserved_words = ReservedWords::new();
    reserved_words.insert("if", TokenType::If);
    reserved_words.insert("if", TokenType::Else);

    assert_eq!(reserved_words.get("if"), Some(TokenType::Else));
    assert_eq!(reserved_words.get("else"), None);

    let mut lexer = Lexer::new(Scanner::new(b"if".to_vec()), reserved_words);
    assert_token(&mut lexer, TokenType::Else, "if");
}

#[test]
fn reserved_words_are_matched_whole() {
    let mut reserved_words = ReservedWords::new();
    reserved_words.insert("for", TokenType::For);
    reserved_words.insert("fo", TokenType::If);

    assert_eq!(reserved_words.get("for"), Some(TokenType::For));
    assert_eq!(reserved_words.get("fo"), Some(TokenType::If));
    assert_eq!(reserved_words.get("f"), None);
    assert_eq!(reserved_words.get("form"), None);
}

#[test]
fn scanner_position_follows_consumed_bytes() {
    let mut scanner = Scanner::new(b"ab\ncd\n\nef".to_vec());

    for _ in 0..4 {
        scanner.get_next().unwrap();
    }
    assert_eq!(scanner.get_line(), 2);
    assert_eq!(scanner.get_column(), 2);

    for _ in 0..3 {
        scanner.get_next().unwrap();
    }
    assert_eq!(scanner.get_line(), 4);
    assert_eq!(scanner.get_column(), 1);
    assert_eq!(scanner.peek_next(), Some(b'e'));
}

#[test]
fn io_error_converts_to_scanner_error() {
    let error = std::io::Error::new(std::io::ErrorKind::UnexpectedEof, "cut short");
    let converted = ScannerError::from(error);

    match converted {
        ScannerError::Io(inner) => assert_eq!(inner.kind(), std::io::ErrorKind::UnexpectedEof),
    }
}

fn lexer_over(text: &'static str) -> impl FnOnce(&str) -> Lexer<Scanner> {
    move |_input: &str| make_lexer(text)
}

#[test]
fn comment_checks_fail_on_a_lexer_that_reads_other_text() {
    assert!(!comment_contract::recognizes_div(lexer_over("+")));
    assert!(!comment_contract::division_does_not_consume_following_token(lexer_over("/-")));
    assert!(!comment_contract::division_does_not_consume_following_token(lexer_over("*+")));
    assert!(!comment_contract::skips_empty_line_comment(lexer_over("-")));
    assert!(!comment_contract::skips_line_comment_with_content(lexer_over("/ /abc\n+")));
    assert!(!comment_contract::skips_comment_between_tokens(lexer_over("+*")));
    assert!(!comment_contract::skips_consecutive_comments(lexer_over("//a\n/")));
}

#[test]
fn comment_checks_pass_on_a_lexer_that_reads_the_same_tokens() {
    assert!(comment_contract::recognizes_div(lexer_over("  /")));
    assert!(comment_contract::skips_comment_between_tokens(lexer_over("+ -")));
}
