//! The lexer: turns the bytes of a scanner into tokens of Micro C.
use crate::lexical::{
    after_first, chars_of, comment_len, count_newlines, decimal_value, digit_run, first_byte,
    has_token, identifier_run, integer_digits, is_digit, is_identifier_char, is_identifier_start,
    is_token_start, is_whitespace, lemma_comment_len_bound, lemma_count_newlines_append,
    lemma_count_newlines_step, lemma_decimal_prefix, lemma_digit_run_bound, lemma_digit_run_step,
    lemma_identifier_run_step, lemma_quote_body_step, lemma_split, lex_char, lex_from, lex_integer,
    lex_optional_equal, lex_required_pair, lex_string, lex_word, next_token, quote_body_len,
    skip_len, token_end, LexedToken,
};
use crate::reserved_words::ReservedWords;
use crate::scanner::TScanner;
use crate::token::{Token, TokenType};
use vstd::prelude::*;

verus! {

/// A source of tokens.
pub trait TLexer: Sized {
    /// A token can be read next.
    spec fn ready(&self) -> bool;

    /// Reads the next token.
    fn get_prox_token(&mut self) -> (token: Token)
        requires
            old(self).ready(),
    ;
}

/// `after` is `before` with its first `n` bytes consumed.
pub open spec fn advanced_by<S: TScanner>(before: S, after: S, n: int) -> bool {
    &&& 0 <= n <= before.remaining().len()
    &&& after.wf()
    &&& after.remaining() == before.remaining().skip(n)
    &&& after.current_line() == before.current_line() + count_newlines(
        before.remaining().take(n),
    )
}

/// What `TScanner::get_next` promises, read as a step of one byte (none at the
/// end of the text).
proof fn lemma_one_step<S: TScanner>(before: S, after: S)
    requires
        after.wf(),
        after.remaining() == after_first(before.remaining()),
        first_byte(before.remaining()) == Some('\n' as u8) ==> after.current_line()
            == before.current_line() + 1,
        first_byte(before.remaining()) matches Some(b) && b != '\n' as u8 ==> after.current_line()
            == before.current_line(),
        first_byte(before.remaining()) is None ==> after.current_line()
            == before.current_line(),
    ensures
        advanced_by(before, after, if before.remaining().len() > 0 { 1int } else { 0int }),
{
    let s = before.remaining();
    if s.len() > 0 {
        lemma_count_newlines_step(s, 0);
        assert(s.take(0) =~= Seq::<u8>::empty());
        assert(s.drop_first() =~= s.skip(1));
    } else {
        assert(s.take(0) =~= Seq::<u8>::empty());
        assert(s.skip(0) =~= s);
    }
}

/// Advancing by `n` and then by `m` is advancing by `n + m`.
proof fn lemma_advance_compose<S: TScanner>(a: S, b: S, c: S, n: int, m: int)
    requires
        advanced_by(a, b, n),
        advanced_by(b, c, m),
    ensures
        advanced_by(a, c, n + m),
{
    let s = a.remaining();
    lemma_split(s, n, m);
    lemma_count_newlines_append(s.take(n), s.skip(n).take(m));
}

/// Not advancing at all.
proof fn lemma_advance_zero<S: TScanner>(a: S)
    requires
        a.wf(),
    ensures
        advanced_by(a, a, 0),
{
    assert(a.remaining().skip(0) =~= a.remaining());
    assert(a.remaining().take(0) =~= Seq::<u8>::empty());
}

/// `token`, read by `before` to become `after`, is the token `t` of the
/// lexical grammar, on the line where `before` stands.
pub open spec fn produced<S: TScanner>(before: S, after: S, token: Token, t: LexedToken) -> bool {
    &&& token.kind() == t.kind
    &&& token.lexeme() == t.lexeme
    &&& token.line() == before.current_line()
    &&& advanced_by(before, after, t.len_after as int)
}

/// `String::push`: appends `c` to the end of `s`.
#[verifier::external_body]
fn push_char(s: &mut String, c: char)
    ensures
        final(s)@ == old(s)@.push(c),
{
    s.push(c);
}

/// A lexer over the bytes of a scanner, with a table of reserved words.
pub struct Lexer<S: TScanner> {
    scanner: S,
    reserved_words: ReservedWords,
}

impl<S: TScanner> Lexer<S> {
    /// The bytes not read yet.
    pub closed spec fn remaining(&self) -> Seq<u8> {
        self.scanner.remaining()
    }

    /// The line of the next byte.
    pub closed spec fn line(&self) -> int {
        self.scanner.current_line()
    }

    /// The reserved words and the kinds they stand for.
    pub closed spec fn words(&self) -> Map<Seq<char>, TokenType> {
        self.reserved_words@
    }

    /// The scanner's invariant holds.
    pub closed spec fn wf(&self) -> bool {
        self.scanner.wf()
    }

    pub fn new(scanner: S, reserved_words: ReservedWords) -> (lexer: Self)
        ensures
            lexer.remaining() == scanner.remaining(),
            lexer.line() == scanner.current_line(),
            lexer.words() == reserved_words@,
            lexer.wf() == scanner.wf(),
    {
        Self { scanner, reserved_words }
    }

    /// Consumes the rest of a line comment, its line break included.
    fn discard_comment(&mut self)
        requires
            old(self).scanner.wf(),
        ensures
            advanced_by(
                old(self).scanner,
                final(self).scanner,
                comment_len(old(self).scanner.remaining()) as int,
            ),
            final(self).reserved_words == old(self).reserved_words,
    {
        let ghost start = self.scanner;
        let ghost s = self.scanner.remaining();
        let ghost mut i: int = 0;
        proof {
            lemma_advance_zero(start);
            assert(s.skip(0) =~= s);
        }
        loop
            invariant_except_break
                0 <= i <= s.len(),
                s == start.remaining(),
                advanced_by(start, self.scanner, i),
                comment_len(s) == i + comment_len(s.skip(i)),
                self.reserved_words == old(self).reserved_words,
            ensures
                advanced_by(start, self.scanner, comment_len(s) as int),
                self.reserved_words == old(self).reserved_words,
            decreases s.len() - i,
        {
            let ghost before = self.scanner;
            match self.scanner.peek_next() {
                Some(c) => {
                    self.discard_next();
                    proof {
                        lemma_advance_compose(start, before, self.scanner, i, 1);
                        assert(s.skip(i).drop_first() =~= s.skip(i + 1));
                        i = i + 1;
                    }
                    if c == '\n' as u8 {
                        break ;
                    }
                },
                None => {
                    break ;
                },
            }
        }
    }

    /// Reads past white space and comments; returns the first byte of the next
    /// token, consumed, or `None` at the end of the text.
    fn get_next_meaningful_char(&mut self) -> (initial: Option<u8>)
        requires
            old(self).scanner.wf(),
        ensures
            ({
                let s = old(self).scanner.remaining();
                let k = skip_len(s) as int;
                &&& k < s.len() ==> initial == Some(s[k]) && advanced_by(
                    old(self).scanner,
                    final(self).scanner,
                    k + 1,
                )
                &&& k >= s.len() ==> initial is None && advanced_by(
                    old(self).scanner,
                    final(self).scanner,
                    k,
                )
            }),
            final(self).reserved_words == old(self).reserved_words,
    {
        let ghost start = self.scanner;
        let ghost s = self.scanner.remaining();
        let ghost mut j: int = 0;
        proof {
            lemma_advance_zero(start);
            assert(s.skip(0) =~= s);
        }
        loop
            invariant
                0 <= j <= s.len(),
                s == start.remaining(),
                start == old(self).scanner,
                advanced_by(start, self.scanner, j),
                skip_len(s) == j + skip_len(s.skip(j)),
                self.reserved_words == old(self).reserved_words,
            decreases s.len() - j,
        {
            let ghost before = self.scanner;
            let initial = self.scanner.get_next().expect("Io error");
            proof {
                lemma_one_step(before, self.scanner);
            }
            if initial.is_none() {
                assert(s.skip(j).len() == 0);
                return None;
            }
            let initial = initial.unwrap();
            proof {
                lemma_advance_compose(start, before, self.scanner, j, 1);
                assert(s.skip(j)[0] == s[j]);
                assert(s.skip(j).drop_first() =~= s.skip(j + 1));
            }
            if is_ascii_whitespace(initial) {
                proof {
                    j = j + 1;
                }
                continue ;
            }
            if initial == '/' as u8 && self.scanner.peek_next() == Some('/' as u8) {
                let ghost middle = self.scanner;
                self.discard_next();
                let ghost after_slash = self.scanner;
                self.discard_comment();
                proof {
                    lemma_advance_compose(start, middle, after_slash, j + 1, 1);
                    let c = comment_len(s.skip(j + 2)) as int;
                    lemma_advance_compose(start, after_slash, self.scanner, j + 2, c);
                    assert(s.skip(j).skip(2) =~= s.skip(j + 2));
                    assert(s.skip(j).skip(2 + c) =~= s.skip(j + 2 + c));
                    lemma_comment_len_bound(s.skip(j + 2));
                    j = j + 2 + c;
                }
                continue ;
            }
            return Some(initial);
        }
    }

    /// Consumes one byte.
    fn discard_next(&mut self)
        requires
            old(self).scanner.wf(),
        ensures
            advanced_by(
                old(self).scanner,
                final(self).scanner,
                if old(self).scanner.remaining().len() > 0 {
                    1int
                } else {
                    0int
                },
            ),
            final(self).reserved_words == old(self).reserved_words,
    {
        let ghost before = self.scanner;
        let _ = self.scanner.get_next().expect("IO Error detected");
        proof {
            lemma_one_step(before, self.scanner);
        }
    }

    fn is_allowed_identifier_character(character: u8) -> (allowed: bool)
        ensures
            allowed == is_identifier_char(character),
    {
        ('a' as u8 <= character && character <= 'z' as u8) || ('A' as u8 <= character
            && character <= 'Z' as u8) || character == '_' as u8 || ('0' as u8 <= character
            && character <= '9' as u8)
    }

    fn is_allowed_numeric_character(character: u8) -> (allowed: bool)
        ensures
            allowed == is_digit(character),
    {
        '0' as u8 <= character && character <= '9' as u8
    }

    /// A token of one character, already consumed.
    fn single_char_token(&self, token_type: TokenType, lexeme: &str) -> (token: Token)
        requires
            self.scanner.wf(),
        ensures
            token.kind() == token_type,
            token.lexeme() == lexeme@,
            token.line() == self.scanner.current_line(),
    {
        Token::new(token_type, self.scanner.get_line(), lexeme.to_owned())
    }

    /// `single_lexeme`, or `equal_lexeme` when the next byte is `=`, which is
    /// then consumed.
    fn match_optional_equal(
        &mut self,
        single_type: TokenType,
        equal_type: TokenType,
        single_lexeme: &str,
        equal_lexeme: &str,
    ) -> (token: Token)
        requires
            old(self).scanner.wf(),
        ensures
            ({
                let s = old(self).scanner.remaining();
                if s.len() > 0 && s[0] == '=' as u8 {
                    produced(
                        old(self).scanner,
                        final(self).scanner,
                        token,
                        LexedToken { kind: equal_type, lexeme: equal_lexeme@, len_after: 1 },
                    )
                } else {
                    produced(
                        old(self).scanner,
                        final(self).scanner,
                        token,
                        LexedToken { kind: single_type, lexeme: single_lexeme@, len_after: 0 },
                    )
                }
            }),
            final(self).reserved_words == old(self).reserved_words,
    {
        if self.scanner.peek_next() != Some('=' as u8) {
            proof {
                lemma_advance_zero(self.scanner);
            }
            return Token::new(single_type, self.scanner.get_line(), single_lexeme.to_owned());
        }
        self.discard_next();
        proof {
            let s = old(self).scanner.remaining();
            lemma_count_newlines_step(s, 0);
            assert(s.take(0) =~= Seq::<u8>::empty());
        }
        Token::new(equal_type, self.scanner.get_line(), equal_lexeme.to_owned())
    }

    fn match_equal(&mut self) -> (token: Token)
        requires
            old(self).scanner.wf(),
        ensures
            produced(
                old(self).scanner,
                final(self).scanner,
                token,
                lex_optional_equal(
                    old(self).scanner.remaining(),
                    '=',
                    TokenType::Assign,
                    TokenType::Eq,
                ),
            ),
            final(self).reserved_words == old(self).reserved_words,
    {
        proof {
            reveal_strlit("=");
            reveal_strlit("==");
            assert("="@ =~= seq!['=']);
            assert("=="@ =~= seq!['=', '=']);
        }
        self.match_optional_equal(TokenType::Assign, TokenType::Eq, "=", "==")
    }

    fn match_greater(&mut self) -> (token: Token)
        requires
            old(self).scanner.wf(),
        ensures
            produced(
                old(self).scanner,
                final(self).scanner,
                token,
                lex_optional_equal(
                    old(self).scanner.remaining(),
                    '>',
                    TokenType::Gt,
                    TokenType::Geq,
                ),
            ),
            final(self).reserved_words == old(self).reserved_words,
    {
        proof {
            reveal_strlit(">");
            reveal_strlit(">=");
            assert(">"@ =~= seq!['>']);
            assert(">="@ =~= seq!['>', '=']);
        }
        self.match_optional_equal(TokenType::Gt, TokenType::Geq, ">", ">=")
    }

    fn match_lesser(&mut self) -> (token: Token)
        requires
            old(self).scanner.wf(),
        ensures
            produced(
                old(self).scanner,
                final(self).scanner,
                token,
                lex_optional_equal(
                    old(self).scanner.remaining(),
                    '<',
                    TokenType::Lt,
                    TokenType::Leq,
                ),
            ),
            final(self).reserved_words == old(self).reserved_words,
    {
        proof {
            reveal_strlit("<");
            reveal_strlit("<=");
            assert("<"@ =~= seq!['<']);
            assert("<="@ =~= seq!['<', '=']);
        }
        self.match_optional_equal(TokenType::Lt, TokenType::Leq, "<", "<=")
    }

    fn match_not(&mut self) -> (token: Token)
        requires
            old(self).scanner.wf(),
        ensures
            produced(
                old(self).scanner,
                final(self).scanner,
                token,
                lex_optional_equal(
                    old(self).scanner.remaining(),
                    '!',
                    TokenType::Not,
                    TokenType::Neq,
                ),
            ),
            final(self).reserved_words == old(self).reserved_words,
    {
        proof {
            reveal_strlit("!");
            reveal_strlit("!=");
            assert("!"@ =~= seq!['!']);
            assert("!="@ =~= seq!['!', '=']);
        }
        self.match_optional_equal(TokenType::Not, TokenType::Neq, "!", "!=")
    }

    /// `pair_lexeme` when the next byte is `expected`, which is then consumed;
    /// otherwise an undefined token `single_lexeme`.
    fn match_required_pair(
        &mut self,
        expected: u8,
        token_type: TokenType,
        single_lexeme: &str,
        pair_lexeme: &str,
    ) -> (token: Token)
        requires
            old(self).scanner.wf(),
            expected != '\n' as u8,
        ensures
            ({
                let s = old(self).scanner.remaining();
                if s.len() > 0 && s[0] == expected {
                    produced(
                        old(self).scanner,
                        final(self).scanner,
                        token,
                        LexedToken { kind: token_type, lexeme: pair_lexeme@, len_after: 1 },
                    )
                } else {
                    produced(
                        old(self).scanner,
                        final(self).scanner,
                        token,
                        LexedToken { kind: TokenType::Undef, lexeme: single_lexeme@, len_after: 0 },
                    )
                }
            }),
            final(self).reserved_words == old(self).reserved_words,
    {
        if self.scanner.peek_next() != Some(expected) {
            proof {
                lemma_advance_zero(self.scanner);
            }
            return Token::new(TokenType::Undef, self.scanner.get_line(), single_lexeme.to_owned());
        }
        self.discard_next();
        proof {
            let s = old(self).scanner.remaining();
            lemma_count_newlines_step(s, 0);
            assert(s.take(0) =~= Seq::<u8>::empty());
        }
        Token::new(token_type, self.scanner.get_line(), pair_lexeme.to_owned())
    }

    fn match_and(&mut self) -> (token: Token)
        requires
            old(self).scanner.wf(),
        ensures
            produced(
                old(self).scanner,
                final(self).scanner,
                token,
                lex_required_pair(old(self).scanner.remaining(), '&' as u8, '&', TokenType::And),
            ),
            final(self).reserved_words == old(self).reserved_words,
    {
        proof {
            reveal_strlit("&");
            reveal_strlit("&&");
            assert("&"@ =~= seq!['&']);
            assert("&&"@ =~= seq!['&', '&']);
        }
        self.match_required_pair('&' as u8, TokenType::And, "&", "&&")
    }

    fn match_or(&mut self) -> (token: Token)
        requires
            old(self).scanner.wf(),
        ensures
            produced(
                old(self).scanner,
                final(self).scanner,
                token,
                lex_required_pair(old(self).scanner.remaining(), '|' as u8, '|', TokenType::Or),
            ),
            final(self).reserved_words == old(self).reserved_words,
    {
        proof {
            reveal_strlit("|");
            reveal_strlit("||");
            assert("|"@ =~= seq!['|']);
            assert("||"@ =~= seq!['|', '|']);
        }
        self.match_required_pair('|' as u8, TokenType::Or, "|", "||")
    }

    /// A string constant, after its opening `"`: the bytes up to the closing
    /// `"`. A line break or the end of the text first makes it undefined.
    fn match_quotes(&mut self) -> (token: Token)
        requires
            old(self).scanner.wf(),
        ensures
            produced(
                old(self).scanner,
                final(self).scanner,
                token,
                lex_string(old(self).scanner.remaining()),
            ),
            final(self).reserved_words == old(self).reserved_words,
    {
        let ghost start = self.scanner;
        let ghost s = self.scanner.remaining();
        let line = self.scanner.get_line();
        let mut buffer = String::new();
        let ghost mut i: int = 0;
        proof {
            lemma_advance_zero(start);
            assert(s.skip(0) =~= s);
            assert(chars_of(s.take(0)) =~= buffer@);
            assert(count_newlines(s.take(0)) == 0) by {
                assert(s.take(0) =~= Seq::<u8>::empty());
            }
        }
        loop
            invariant
                0 <= i <= s.len(),
                s == start.remaining(),
                start == old(self).scanner,
                line == start.current_line(),
                advanced_by(start, self.scanner, i),
                quote_body_len(s) == i + quote_body_len(s.skip(i)),
                buffer@ == chars_of(s.take(i)),
                count_newlines(s.take(i)) == 0,
                self.reserved_words == old(self).reserved_words,
            decreases s.len() - i,
        {
            let ghost before = self.scanner;
            let next = self.scanner.get_next().expect("IO Error detected");
            proof {
                lemma_one_step(before, self.scanner);
                lemma_quote_body_step(s, i);
            }
            match next {
                Some(c) => {
                    proof {
                        lemma_advance_compose(start, before, self.scanner, i, 1);
                        assert(s.skip(i)[0] == s[i]);
                    }
                    if c == '"' as u8 {
                        return Token::new(TokenType::StringConst, line, buffer);
                    }
                    if c == '\n' as u8 {
                        return Token::new(TokenType::Undef, line, buffer);
                    }
                    push_char(&mut buffer, c as char);
                    proof {
                        lemma_count_newlines_step(s, i);
                        assert(chars_of(s.take(i + 1)) =~= chars_of(s.take(i)).push(c as char));
                        i = i + 1;
                    }
                },
                None => {
                    proof {
                        assert(s.take(i) =~= s);
                    }
                    return Token::new(TokenType::Undef, line, buffer);
                },
            }
        }
    }

    /// A character constant, after its opening `'`: one byte and the closing
    /// `'`. Anything else is an undefined token.
    fn match_single_quote(&mut self) -> (token: Token)
        requires
            old(self).scanner.wf(),
        ensures
            produced(
                old(self).scanner,
                final(self).scanner,
                token,
                lex_char(old(self).scanner.remaining()),
            ),
            final(self).reserved_words == old(self).reserved_words,
    {
        let ghost start = self.scanner;
        let ghost s = self.scanner.remaining();
        let line = self.scanner.get_line();
        let mut lexeme = String::new();
        let first = self.scanner.get_next().expect("I/O error");
        proof {
            lemma_one_step(start, self.scanner);
        }
        let byte = match first {
            Some(byte) => byte,
            None => {
                push_char(&mut lexeme, '\'');
                assert(lexeme@ =~= seq!['\'']);
                return Token::new(TokenType::Undef, line, lexeme);
            },
        };
        proof {
            lemma_count_newlines_step(s, 0);
            assert(s.take(0) =~= Seq::<u8>::empty());
        }
        if byte == '\'' as u8 || byte == '\n' as u8 {
            push_char(&mut lexeme, '\'');
            push_char(&mut lexeme, byte as char);
            assert(lexeme@ =~= seq!['\'', s[0] as char]);
            return Token::new(TokenType::Undef, line, lexeme);
        }
        let character = byte as char;
        let ghost middle = self.scanner;
        let second = self.scanner.get_next().expect("I/O error");
        proof {
            lemma_one_step(middle, self.scanner);
        }
        match second {
            Some(next) => {
                proof {
                    lemma_advance_compose(start, middle, self.scanner, 1, 1);
                    assert(s.skip(1)[0] == s[1]);
                }
                if next == '\'' as u8 {
                    push_char(&mut lexeme, character);
                    assert(lexeme@ =~= seq![s[0] as char]);
                    Token::new(TokenType::CharConst, line, lexeme)
                } else {
                    push_char(&mut lexeme, '\'');
                    push_char(&mut lexeme, character);
                    push_char(&mut lexeme, next as char);
                    assert(lexeme@ =~= seq!['\'', s[0] as char, s[1] as char]);
                    Token::new(TokenType::Undef, line, lexeme)
                }
            },
            None => {
                proof {
                    assert(s.skip(1).len() == 0);
                    lemma_advance_compose(start, middle, self.scanner, 1, 0);
                }
                push_char(&mut lexeme, '\'');
                push_char(&mut lexeme, character);
                assert(lexeme@ =~= seq!['\'', s[0] as char]);
                Token::new(TokenType::Undef, line, lexeme)
            },
        }
    }

    /// An identifier or a reserved word that starts with `initial`: the
    /// longest run of letters, digits and `_`, looked up in the table of
    /// reserved words.
    fn match_letters_tokens(&mut self, initial: u8) -> (token: Token)
        requires
            old(self).scanner.wf(),
        ensures
            produced(
                old(self).scanner,
                final(self).scanner,
                token,
                lex_word(initial, old(self).scanner.remaining(), old(self).reserved_words@),
            ),
            final(self).reserved_words == old(self).reserved_words,
    {
        let ghost start = self.scanner;
        let ghost s = self.scanner.remaining();
        let mut id = String::new();
        push_char(&mut id, initial as char);
        let ghost mut i: int = 0;
        proof {
            lemma_advance_zero(start);
            assert(s.skip(0) =~= s);
            assert(chars_of(seq![initial] + s.take(0)) =~= id@);
            assert(count_newlines(s.take(0)) == 0) by {
                assert(s.take(0) =~= Seq::<u8>::empty());
            }
        }
        loop
            invariant_except_break
                identifier_run(s) == i + identifier_run(s.skip(i)),
            invariant
                0 <= i <= s.len(),
                s == start.remaining(),
                start == old(self).scanner,
                advanced_by(start, self.scanner, i),
                id@ == chars_of(seq![initial] + s.take(i)),
                count_newlines(s.take(i)) == 0,
                self.reserved_words == old(self).reserved_words,
            ensures
                i == identifier_run(s),
            decreases s.len() - i,
        {
            let ghost before = self.scanner;
            proof {
                lemma_identifier_run_step(s, i);
            }
            match self.scanner.peek_next() {
                Some(next) => {
                    if !Self::is_allowed_identifier_character(next) {
                        break ;
                    }
                    self.discard_next();
                    push_char(&mut id, next as char);
                    proof {
                        lemma_advance_compose(start, before, self.scanner, i, 1);
                        lemma_count_newlines_step(s, i);
                        assert(seq![initial] + s.take(i + 1) =~= (seq![initial] + s.take(i)).push(
                            next,
                        ));
                        assert(chars_of(seq![initial] + s.take(i + 1)) =~= chars_of(
                            seq![initial] + s.take(i),
                        ).push(next as char));
                        i = i + 1;
                    }
                },
                None => {
                    break ;
                },
            }
        }
        let tipo = match self.reserved_words.get(id.as_str()) {
            Some(kind) => kind,
            None => TokenType::Id,
        };
        Token::new(tipo, self.scanner.get_line(), id)
    }

    /// An integer constant that starts with the digit `initial`: the longest
    /// run of digits, whose value must fit in `i64`.
    fn match_numeric(&mut self, initial: u8) -> (token: Token)
        requires
            old(self).scanner.wf(),
            is_digit(initial),
            decimal_value(integer_digits(initial, old(self).scanner.remaining())) <= i64::MAX,
        ensures
            produced(
                old(self).scanner,
                final(self).scanner,
                token,
                lex_integer(initial, old(self).scanner.remaining()),
            ),
            final(self).reserved_words == old(self).reserved_words,
    {
        let ghost start = self.scanner;
        let ghost s = self.scanner.remaining();
        let ghost digits = integer_digits(initial, s);
        let mut buffer = String::new();
        push_char(&mut buffer, initial as char);
        let linha = self.scanner.get_line();
        let mut value: i64 = (initial - '0' as u8) as i64;
        let ghost mut i: int = 0;
        proof {
            lemma_advance_zero(start);
            lemma_digit_run_bound(s);
            assert(s.skip(0) =~= s);
            assert(chars_of(seq![initial] + s.take(0)) =~= buffer@);
            assert(count_newlines(s.take(0)) == 0) by {
                assert(s.take(0) =~= Seq::<u8>::empty());
            }
            assert((seq![initial] + s.take(0)).drop_last() =~= Seq::<u8>::empty());
            assert((seq![initial] + s.take(0)).last() == initial);
            assert(decimal_value(Seq::<u8>::empty()) == 0);
            assert forall|j: int| 0 <= j < digits.len() implies is_digit(#[trigger] digits[j]) by {
                if j > 0 {
                    assert(digits[j] == s[j - 1]);
                }
            }
        }
        loop
            invariant_except_break
                digit_run(s) == i + digit_run(s.skip(i)),
            invariant
                0 <= i <= digit_run(s),
                digit_run(s) <= s.len(),
                s == start.remaining(),
                start == old(self).scanner,
                digits == integer_digits(initial, s),
                forall|j: int| 0 <= j < digits.len() ==> is_digit(#[trigger] digits[j]),
                decimal_value(digits) <= i64::MAX,
                linha == start.current_line(),
                advanced_by(start, self.scanner, i),
                buffer@ == chars_of(seq![initial] + s.take(i)),
                value == decimal_value(seq![initial] + s.take(i)),
                count_newlines(s.take(i)) == 0,
                self.reserved_words == old(self).reserved_words,
            ensures
                i == digit_run(s),
            decreases s.len() - i,
        {
            let ghost before = self.scanner;
            proof {
                lemma_digit_run_step(s, i);
            }
            match self.scanner.peek_next() {
                Some(next) => {
                    if !Self::is_allowed_numeric_character(next) {
                        break ;
                    }
                    proof {
                        let longer = seq![initial] + s.take(i + 1);
                        assert(longer.drop_last() =~= seq![initial] + s.take(i));
                        assert(digits.take(i + 2) =~= longer);
                        lemma_decimal_prefix(digits, i + 2);
                    }
                    value = value * 10 + (next - '0' as u8) as i64;
                    push_char(&mut buffer, next as char);
                    self.discard_next();
                    proof {
                        lemma_advance_compose(start, before, self.scanner, i, 1);
                        lemma_count_newlines_step(s, i);
                        assert(seq![initial] + s.take(i + 1) =~= (seq![initial] + s.take(i)).push(
                            next,
                        ));
                        assert(chars_of(seq![initial] + s.take(i + 1)) =~= chars_of(
                            seq![initial] + s.take(i),
                        ).push(next as char));
                        i = i + 1;
                    }
                },
                None => {
                    break ;
                },
            }
        }
        Token::new(TokenType::IntegerConst(value), linha, buffer)
    }

    /// The token that starts with `initial`, which has been consumed.
    fn lex_token(&mut self, initial: u8) -> (token: Token)
        requires
            old(self).scanner.wf(),
            is_token_start(initial),
            is_digit(initial) ==> decimal_value(
                integer_digits(initial, old(self).scanner.remaining()),
            ) <= i64::MAX,
        ensures
            produced(
                old(self).scanner,
                final(self).scanner,
                token,
                lex_from(initial, old(self).scanner.remaining(), old(self).reserved_words@),
            ),
            final(self).reserved_words == old(self).reserved_words,
    {
        proof {
            lemma_advance_zero(self.scanner);
        }
        if initial == '+' as u8 {
            proof {
                reveal_strlit("+");
                assert("+"@ =~= seq!['+']);
            }
            self.single_char_token(TokenType::Plus, "+")
        } else if initial == '-' as u8 {
            proof {
                reveal_strlit("-");
                assert("-"@ =~= seq!['-']);
            }
            self.single_char_token(TokenType::Minus, "-")
        } else if initial == '*' as u8 {
            proof {
                reveal_strlit("*");
                assert("*"@ =~= seq!['*']);
            }
            self.single_char_token(TokenType::Mul, "*")
        } else if initial == '%' as u8 {
            proof {
                reveal_strlit("%");
                assert("%"@ =~= seq!['%']);
            }
            self.single_char_token(TokenType::Mod, "%")
        } else if initial == '/' as u8 {
            proof {
                reveal_strlit("/");
                assert("/"@ =~= seq!['/']);
            }
            self.single_char_token(TokenType::Div, "/")
        } else if initial == '=' as u8 {
            self.match_equal()
        } else if initial == '>' as u8 {
            self.match_greater()
        } else if initial == '<' as u8 {
            self.match_lesser()
        } else if initial == '&' as u8 {
            self.match_and()
        } else if initial == '|' as u8 {
            self.match_or()
        } else if initial == '!' as u8 {
            self.match_not()
        } else if initial == '"' as u8 {
            self.match_quotes()
        } else if initial == '\'' as u8 {
            self.match_single_quote()
        } else if initial == ',' as u8 {
            proof {
                reveal_strlit(",");
                assert(","@ =~= seq![',']);
            }
            self.single_char_token(TokenType::Comma, ",")
        } else if initial == ';' as u8 {
            proof {
                reveal_strlit(";");
                assert(";"@ =~= seq![';']);
            }
            self.single_char_token(TokenType::SemiColon, ";")
        } else if initial == '(' as u8 {
            proof {
                reveal_strlit("(");
                assert("("@ =~= seq!['(']);
            }
            self.single_char_token(TokenType::Lparen, "(")
        } else if initial == ')' as u8 {
            proof {
                reveal_strlit(")");
                assert(")"@ =~= seq![')']);
            }
            self.single_char_token(TokenType::Rparen, ")")
        } else if initial == '{' as u8 {
            proof {
                reveal_strlit("{");
                assert("{"@ =~= seq!['{']);
            }
            self.single_char_token(TokenType::LBrace, "{")
        } else if initial == '}' as u8 {
            proof {
                reveal_strlit("}");
                assert("}"@ =~= seq!['}']);
            }
            self.single_char_token(TokenType::RBrace, "}")
        } else if initial == '[' as u8 {
            proof {
                reveal_strlit("[");
                assert("["@ =~= seq!['[']);
            }
            self.single_char_token(TokenType::LBracket, "[")
        } else if initial == ']' as u8 {
            proof {
                reveal_strlit("]");
                assert("]"@ =~= seq![']']);
            }
            self.single_char_token(TokenType::RBracket, "]")
        } else if is_identifier_start_byte(initial) {
            self.match_letters_tokens(initial)
        } else {
            self.match_numeric(initial)
        }
    }
}

impl<S: TScanner> TLexer for Lexer<S> {
    open spec fn ready(&self) -> bool {
        self.wf() && has_token(self.remaining())
    }

    /// Reads past white space and comments, then reads one token.
    fn get_prox_token(&mut self) -> (token: Token)
        ensures
            ({
                let s = old(self).remaining();
                let words = old(self).words();
                let t = next_token(s, words);
                &&& token.kind() == t.kind
                &&& token.lexeme() == t.lexeme
                &&& token.line() == old(self).line() + count_newlines(s.take(skip_len(s) as int))
                &&& final(self).remaining() == s.skip(token_end(s, words))
                &&& final(self).line() == old(self).line() + count_newlines(
                    s.take(token_end(s, words)),
                )
            }),
            final(self).words() == old(self).words(),
            final(self).wf(),
    {
        let ghost start = self.scanner;
        let ghost s = self.scanner.remaining();
        let initial = self.get_next_meaningful_char().expect("eof handling later");
        let ghost middle = self.scanner;
        proof {
            let k = skip_len(s) as int;
            lemma_split(s, k + 1, 0);
            assert(s.skip(k + 1) == middle.remaining());
            lemma_count_newlines_step(s, k);
        }
        let token = self.lex_token(initial);
        proof {
            let k = skip_len(s) as int;
            let n = lex_from(initial, s.skip(k + 1), self.reserved_words@).len_after as int;
            lemma_advance_compose(start, middle, self.scanner, k + 1, n);
        }
        token
    }
}

/// A letter or `_`.
fn is_identifier_start_byte(b: u8) -> (r: bool)
    ensures
        r == is_identifier_start(b),
{
    ('a' as u8 <= b && b <= 'z' as u8) || ('A' as u8 <= b && b <= 'Z' as u8) || b == '_' as u8
}

/// `u8::is_ascii_whitespace`.
fn is_ascii_whitespace(b: u8) -> (r: bool)
    ensures
        r == is_whitespace(b),
{
    b == ' ' as u8 || b == '\t' as u8 || b == '\n' as u8 || b == 0x0c || b == '\r' as u8
}

} // verus!
