//! Checks that a lexer reads `/` as division and skips line comments, run
//! against the lexers that a given function makes from source text.
use crate::lexer::{Lexer, TLexer};
use crate::lexical::{
    comment_skipping_law, has_token, is_single_char_token, next_token, single_char_kind, skip_len,
    token_end,
};
use crate::scanner::TScanner;
use crate::token::TokenType;
use vstd::prelude::*;
use vstd::string::StringSliceAdditionalSpecFns;

verus! {

/// `make_lexer` makes lexers that stand at the start of the bytes of the
/// text they are made from.
pub open spec fn makes_lexers<S: TScanner, F: FnOnce(&str) -> Lexer<S>>(make_lexer: F) -> bool {
    forall|input: &str, lexer: Lexer<S>|
        #[trigger] call_ensures(make_lexer, (input,), lexer) ==> lexer.wf() && lexer.remaining()
            == input.spec_bytes()
}

/// The next token of `s` has kind `kind` and lexeme `lexeme`.
pub open spec fn token_is(
    s: Seq<u8>,
    words: Map<Seq<char>, TokenType>,
    kind: TokenType,
    lexeme: Seq<char>,
) -> bool {
    next_token(s, words).kind == kind && next_token(s, words).lexeme == lexeme
}

/// What is left of `s` after its next token.
pub open spec fn after_token(s: Seq<u8>, words: Map<Seq<char>, TokenType>) -> Seq<u8> {
    s.skip(token_end(s, words))
}

/// The first token that `lexer` reads has kind `kind` and lexeme `lexeme`.
pub open spec fn first_token_is<S: TScanner>(
    lexer: Lexer<S>,
    kind: TokenType,
    lexeme: Seq<char>,
) -> bool {
    token_is(lexer.remaining(), lexer.words(), kind, lexeme)
}

/// The second token that `lexer` reads has kind `kind` and lexeme `lexeme`.
pub open spec fn second_token_is<S: TScanner>(
    lexer: Lexer<S>,
    kind: TokenType,
    lexeme: Seq<char>,
) -> bool {
    token_is(after_token(lexer.remaining(), lexer.words()), lexer.words(), kind, lexeme)
}

/// Reads a token and tells whether it has the expected kind and lexeme.
fn token_matches<S: TScanner>(
    lexer: &mut Lexer<S>,
    expected_type: TokenType,
    expected_lexeme: &str,
) -> (matches: bool)
    requires
        old(lexer).ready(),
    ensures
        ({
            let s = old(lexer).remaining();
            &&& matches == token_is(s, old(lexer).words(), expected_type, expected_lexeme@)
            &&& final(lexer).remaining() == after_token(s, old(lexer).words())
            &&& final(lexer).words() == old(lexer).words()
            &&& final(lexer).wf()
        }),
{
    let token = lexer.get_prox_token();
    *token.get_tok_type() == expected_type && token.get_lexema().to_owned()
        == expected_lexeme.to_owned()
}

/// A token of one character with nothing that could be read as a comment
/// right after it.
proof fn lemma_lone_char_token(s: Seq<u8>, words: Map<Seq<char>, TokenType>)
    requires
        s.len() >= 1,
        is_single_char_token(s[0]),
        s[0] != '/' as u8 || s.len() == 1 || s[1] != '/' as u8,
    ensures
        skip_len(s) == 0,
        has_token(s),
        next_token(s, words).kind == single_char_kind(s[0]),
        next_token(s, words).lexeme == seq![s[0] as char],
        token_end(s, words) == 1,
{
}

/// `/` alone is read as division. Returns whether the lexer that
/// `make_lexer` makes from `/` reads `/` as division; a lexer at the start of
/// `/` always does.
pub fn recognizes_div<S: TScanner, F: FnOnce(&str) -> Lexer<S>>(make_lexer: F) -> (passed: bool)
    requires
        call_requires(make_lexer, ("/",)),
        forall|l: Lexer<S>| #[trigger] call_ensures(make_lexer, ("/",), l) ==> l.ready(),
    ensures
        passed ==> exists|l: Lexer<S>|
            #[trigger] call_ensures(make_lexer, ("/",), l) && first_token_is(
                l,
                TokenType::Div,
                seq!['/'],
            ),
        !passed ==> exists|l: Lexer<S>|
            #[trigger] call_ensures(make_lexer, ("/",), l) && !first_token_is(
                l,
                TokenType::Div,
                seq!['/'],
            ),
        makes_lexers(make_lexer) ==> passed,
{
    let mut lexer = make_lexer("/");
    let ghost made = lexer;
    proof {
        reveal_strlit("/");
        assert("/"@ =~= seq!['/']);
        if makes_lexers(make_lexer) {
            reveal_strlit("/");
            vstd::string::is_ascii_spec_bytes("/");
            let s = made.remaining();
            let words = made.words();
            assert(s =~= seq!['/' as u8]);
            lemma_lone_char_token(s, words);
        }
    }
    token_matches(&mut lexer, TokenType::Div, "/")
}

/// `/+` is read as division, then `+`. Returns whether the lexer that
/// `make_lexer` makes from `/+` reads those two tokens; a lexer at the start
/// of `/+` always does. The second token is read only when the first is
/// right.
pub fn division_does_not_consume_following_token<S: TScanner, F: FnOnce(&str) -> Lexer<S>>(
    make_lexer: F,
) -> (passed: bool)
    requires
        call_requires(make_lexer, ("/+",)),
        forall|l: Lexer<S>|
            #[trigger] call_ensures(make_lexer, ("/+",), l) ==> l.ready() && (first_token_is(
                l,
                TokenType::Div,
                seq!['/'],
            ) ==> has_token(after_token(l.remaining(), l.words()))),
    ensures
        passed ==> exists|l: Lexer<S>|
            #[trigger] call_ensures(make_lexer, ("/+",), l) && first_token_is(
                l,
                TokenType::Div,
                seq!['/'],
            ) && second_token_is(l, TokenType::Plus, seq!['+']),
        !passed ==> exists|l: Lexer<S>|
            #[trigger] call_ensures(make_lexer, ("/+",), l) && !(first_token_is(
                l,
                TokenType::Div,
                seq!['/'],
            ) && second_token_is(l, TokenType::Plus, seq!['+'])),
        makes_lexers(make_lexer) ==> passed,
{
    let mut lexer = make_lexer("/+");
    let ghost made = lexer;
    proof {
        reveal_strlit("/");
        assert("/"@ =~= seq!['/']);
        reveal_strlit("+");
        assert("+"@ =~= seq!['+']);
        if makes_lexers(make_lexer) {
            reveal_strlit("/+");
            vstd::string::is_ascii_spec_bytes("/+");
            let s = made.remaining();
            let words = made.words();
            assert(s =~= seq!['/' as u8, '+' as u8]);
            lemma_lone_char_token(s, words);
            assert(after_token(s, words) =~= seq!['+' as u8]);
            lemma_lone_char_token(after_token(s, words), words);
        }
    }
    if !token_matches(&mut lexer, TokenType::Div, "/") {
        return false;
    }
    token_matches(&mut lexer, TokenType::Plus, "+")
}

/// An empty line comment is skipped. Returns whether the lexer that
/// `make_lexer` makes from `//`, a line break and `+` reads `+`; a lexer at
/// the start of that text always does.
pub fn skips_empty_line_comment<S: TScanner, F: FnOnce(&str) -> Lexer<S>>(make_lexer: F) -> (passed: bool)
    requires
        call_requires(make_lexer, ("//\n+",)),
        forall|l: Lexer<S>| #[trigger] call_ensures(make_lexer, ("//\n+",), l) ==> l.ready(),
    ensures
        passed ==> exists|l: Lexer<S>|
            #[trigger] call_ensures(make_lexer, ("//\n+",), l) && first_token_is(
                l,
                TokenType::Plus,
                seq!['+'],
            ),
        !passed ==> exists|l: Lexer<S>|
            #[trigger] call_ensures(make_lexer, ("//\n+",), l) && !first_token_is(
                l,
                TokenType::Plus,
                seq!['+'],
            ),
        makes_lexers(make_lexer) ==> passed,
{
    let mut lexer = make_lexer("//\n+");
    let ghost made = lexer;
    proof {
        reveal_strlit("+");
        assert("+"@ =~= seq!['+']);
        if makes_lexers(make_lexer) {
            reveal_strlit("//\n+");
            vstd::string::is_ascii_spec_bytes("//\n+");
            let s = made.remaining();
            let words = made.words();
            let text = Seq::<u8>::empty();
            let rest = seq!['+' as u8];
            assert(s =~= seq!['/' as u8, '/' as u8] + text + seq!['\n' as u8] + rest);
            comment_skipping_law(text, rest, words);
            lemma_lone_char_token(rest, words);
        }
    }
    token_matches(&mut lexer, TokenType::Plus, "+")
}

/// A line comment with text is skipped. Returns whether the lexer that
/// `make_lexer` makes from `//abc`, a line break and `+` reads `+`; a lexer
/// at the start of that text always does.
pub fn skips_line_comment_with_content<S: TScanner, F: FnOnce(&str) -> Lexer<S>>(make_lexer: F) -> (passed: bool)
    requires
        call_requires(make_lexer, ("//abc\n+",)),
        forall|l: Lexer<S>| #[trigger] call_ensures(make_lexer, ("//abc\n+",), l) ==> l.ready(),
    ensures
        passed ==> exists|l: Lexer<S>|
            #[trigger] call_ensures(make_lexer, ("//abc\n+",), l) && first_token_is(
                l,
                TokenType::Plus,
                seq!['+'],
            ),
        !passed ==> exists|l: Lexer<S>|
            #[trigger] call_ensures(make_lexer, ("//abc\n+",), l) && !first_token_is(
                l,
                TokenType::Plus,
                seq!['+'],
            ),
        makes_lexers(make_lexer) ==> passed,
{
    let mut lexer = make_lexer("//abc\n+");
    let ghost made = lexer;
    proof {
        reveal_strlit("+");
        assert("+"@ =~= seq!['+']);
        if makes_lexers(make_lexer) {
            reveal_strlit("//abc\n+");
            vstd::string::is_ascii_spec_bytes("//abc\n+");
            let s = made.remaining();
            let words = made.words();
            let text = seq!['a' as u8, 'b' as u8, 'c' as u8];
            let rest = seq!['+' as u8];
            assert(s =~= seq!['/' as u8, '/' as u8] + text + seq!['\n' as u8] + rest);
            comment_skipping_law(text, rest, words);
            lemma_lone_char_token(rest, words);
        }
    }
    token_matches(&mut lexer, TokenType::Plus, "+")
}

/// A line comment between two tokens is skipped. Returns whether the lexer
/// that `make_lexer` makes from `+//abc`, a line break and `-` reads `+`,
/// then `-`; a lexer at the start of that text always does. The second token
/// is read only when the first is right.
pub fn skips_comment_between_tokens<S: TScanner, F: FnOnce(&str) -> Lexer<S>>(
    make_lexer: F,
) -> (passed: bool)
    requires
        call_requires(make_lexer, ("+//abc\n-",)),
        forall|l: Lexer<S>|
            #[trigger] call_ensures(make_lexer, ("+//abc\n-",), l) ==> l.ready() && (first_token_is(
                l,
                TokenType::Plus,
                seq!['+'],
            ) ==> has_token(after_token(l.remaining(), l.words()))),
    ensures
        passed ==> exists|l: Lexer<S>|
            #[trigger] call_ensures(make_lexer, ("+//abc\n-",), l) && first_token_is(
                l,
                TokenType::Plus,
                seq!['+'],
            ) && second_token_is(l, TokenType::Minus, seq!['-']),
        !passed ==> exists|l: Lexer<S>|
            #[trigger] call_ensures(make_lexer, ("+//abc\n-",), l) && !(first_token_is(
                l,
                TokenType::Plus,
                seq!['+'],
            ) && second_token_is(l, TokenType::Minus, seq!['-'])),
        makes_lexers(make_lexer) ==> passed,
{
    let mut lexer = make_lexer("+//abc\n-");
    let ghost made = lexer;
    proof {
        reveal_strlit("+");
        assert("+"@ =~= seq!['+']);
        reveal_strlit("-");
        assert("-"@ =~= seq!['-']);
        if makes_lexers(make_lexer) {
            reveal_strlit("+//abc\n-");
            vstd::string::is_ascii_spec_bytes("+//abc\n-");
            let s = made.remaining();
            let words = made.words();
            let text = seq!['a' as u8, 'b' as u8, 'c' as u8];
            let rest = seq!['-' as u8];
            assert(s =~= seq!['+' as u8] + seq!['/' as u8, '/' as u8, 'a' as u8, 'b' as u8, 'c' as u8]
                + seq!['\n' as u8, '-' as u8]);
            lemma_lone_char_token(s, words);
            let after = after_token(s, words);
            assert(after =~= seq!['/' as u8, '/' as u8] + text + seq!['\n' as u8] + rest);
            comment_skipping_law(text, rest, words);
            lemma_lone_char_token(rest, words);
        }
    }
    if !token_matches(&mut lexer, TokenType::Plus, "+") {
        return false;
    }
    token_matches(&mut lexer, TokenType::Minus, "-")
}

/// Line comments in a row are all skipped. Returns whether the lexer that
/// `make_lexer` makes from two line comments before `+` reads `+`; a lexer
/// at the start of that text always does.
pub fn skips_consecutive_comments<S: TScanner, F: FnOnce(&str) -> Lexer<S>>(make_lexer: F) -> (passed: bool)
    requires
        call_requires(make_lexer, ("//a\n//b\n+",)),
        forall|l: Lexer<S>| #[trigger] call_ensures(make_lexer, ("//a\n//b\n+",), l) ==> l.ready(),
    ensures
        passed ==> exists|l: Lexer<S>|
            #[trigger] call_ensures(make_lexer, ("//a\n//b\n+",), l) && first_token_is(
                l,
                TokenType::Plus,
                seq!['+'],
            ),
        !passed ==> exists|l: Lexer<S>|
            #[trigger] call_ensures(make_lexer, ("//a\n//b\n+",), l) && !first_token_is(
                l,
                TokenType::Plus,
                seq!['+'],
            ),
        makes_lexers(make_lexer) ==> passed,
{
    let mut lexer = make_lexer("//a\n//b\n+");
    let ghost made = lexer;
    proof {
        reveal_strlit("+");
        assert("+"@ =~= seq!['+']);
        if makes_lexers(make_lexer) {
            reveal_strlit("//a\n//b\n+");
            vstd::string::is_ascii_spec_bytes("//a\n//b\n+");
            let s = made.remaining();
            let words = made.words();
            let rest = seq!['+' as u8];
            let second = seq!['/' as u8, '/' as u8] + seq!['b' as u8] + seq!['\n' as u8] + rest;
            assert(s =~= seq!['/' as u8, '/' as u8] + seq!['a' as u8] + seq!['\n' as u8] + second);
            comment_skipping_law(seq!['b' as u8], rest, words);
            comment_skipping_law(seq!['a' as u8], second, words);
            lemma_lone_char_token(rest, words);
        }
    }
    token_matches(&mut lexer, TokenType::Plus, "+")
}

} // verus!
