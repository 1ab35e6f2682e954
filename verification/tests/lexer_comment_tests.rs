use microc_lexer::comment_contract;
use microc_lexer::lexer::Lexer;
use microc_lexer::reserved_words::ReservedWords;
use microc_lexer::scanner::Scanner;

fn make_lexer(input: &str) -> Lexer<Scanner> {
    Lexer::new(Scanner::new(input.as_bytes().to_vec()), ReservedWords::new())
}

#[test]
fn recognizes_div() {
    assert!(comment_contract::recognizes_div(make_lexer));
}

#[test]
fn division_does_not_consume_following_token() {
    assert!(comment_contract::division_does_not_consume_following_token(make_lexer));
}

#[test]
fn skips_empty_line_comment() {
    assert!(comment_contract::skips_empty_line_comment(make_lexer));
}

#[test]
fn skips_line_comment_with_content() {
    assert!(comment_contract::skips_line_comment_with_content(make_lexer));
}

#[test]
fn skips_comment_between_tokens() {
    assert!(comment_contract::skips_comment_between_tokens(make_lexer));
}

#[test]
fn skips_consecutive_comments() {
    assert!(comment_contract::skips_consecutive_comments(make_lexer));
}
