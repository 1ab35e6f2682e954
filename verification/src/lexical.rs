//! The lexical grammar of Micro C, stated over bytes.
use crate::token::TokenType;
use vstd::prelude::*;

verus! {

/// The first byte of `s`, if there is one.
pub open spec fn first_byte(s: Seq<u8>) -> Option<u8> {
    if s.len() == 0 {
        None
    } else {
        Some(s[0])
    }
}

/// `s` without its first byte (`s` itself when it is empty).
pub open spec fn after_first(s: Seq<u8>) -> Seq<u8> {
    if s.len() == 0 {
        s
    } else {
        s.drop_first()
    }
}

/// The number of line breaks in `s`.
pub open spec fn count_newlines(s: Seq<u8>) -> nat
    decreases s.len(),
{
    if s.len() == 0 {
        0
    } else {
        count_newlines(s.drop_last()) + if s.last() == '\n' as u8 {
            1nat
        } else {
            0nat
        }
    }
}

/// The column reached after reading `s` from the start of a line: one more
/// than the number of bytes after the last line break of `s`.
pub open spec fn column_after(s: Seq<u8>) -> nat
    decreases s.len(),
{
    if s.len() == 0 {
        1
    } else if s.last() == '\n' as u8 {
        1
    } else {
        column_after(s.drop_last()) + 1
    }
}

/// ASCII white space, as `u8::is_ascii_whitespace` defines it: space, tab,
/// line feed, form feed and carriage return.
pub open spec fn is_whitespace(b: u8) -> bool {
    b == ' ' as u8 || b == '\t' as u8 || b == '\n' as u8 || b == 0x0cu8 || b == '\r' as u8
}

pub open spec fn is_digit(b: u8) -> bool {
    '0' as u8 <= b <= '9' as u8
}

/// A byte that can start an identifier or a reserved word: a letter or `_`.
pub open spec fn is_identifier_start(b: u8) -> bool {
    ('a' as u8 <= b <= 'z' as u8) || ('A' as u8 <= b <= 'Z' as u8) || b == '_' as u8
}

/// A byte that can continue an identifier: a letter, a digit or `_`.
pub open spec fn is_identifier_char(b: u8) -> bool {
    is_identifier_start(b) || is_digit(b)
}

/// A byte that stands for a token of one character, whatever follows it.
pub open spec fn is_single_char_token(b: u8) -> bool {
    b == '+' as u8 || b == '-' as u8 || b == '*' as u8 || b == '%' as u8 || b == '/' as u8
        || b == ',' as u8 || b == ';' as u8 || b == '(' as u8 || b == ')' as u8 || b == '{' as u8
        || b == '}' as u8 || b == '[' as u8 || b == ']' as u8
}

/// A byte at which a token can start.
pub open spec fn is_token_start(b: u8) -> bool {
    ||| is_single_char_token(b)
    ||| b == '=' as u8 || b == '>' as u8 || b == '<' as u8 || b == '!' as u8
    ||| b == '&' as u8 || b == '|' as u8
    ||| b == '"' as u8 || b == '\'' as u8
    ||| is_identifier_start(b)
    ||| is_digit(b)
}

/// The kind of a one-character token.
pub open spec fn single_char_kind(b: u8) -> TokenType {
    if b == '+' as u8 {
        TokenType::Plus
    } else if b == '-' as u8 {
        TokenType::Minus
    } else if b == '*' as u8 {
        TokenType::Mul
    } else if b == '%' as u8 {
        TokenType::Mod
    } else if b == '/' as u8 {
        TokenType::Div
    } else if b == ',' as u8 {
        TokenType::Comma
    } else if b == ';' as u8 {
        TokenType::SemiColon
    } else if b == '(' as u8 {
        TokenType::Lparen
    } else if b == ')' as u8 {
        TokenType::Rparen
    } else if b == '{' as u8 {
        TokenType::LBrace
    } else if b == '}' as u8 {
        TokenType::RBrace
    } else if b == '[' as u8 {
        TokenType::LBracket
    } else {
        TokenType::RBracket
    }
}

/// The characters that stand for the bytes of `s`, one character per byte.
pub open spec fn chars_of(s: Seq<u8>) -> Seq<char> {
    s.map_values(|b: u8| b as char)
}

/// The length of the longest prefix of `s` whose bytes all satisfy `p`.
pub open spec fn run_len(s: Seq<u8>, p: spec_fn(u8) -> bool) -> nat
    decreases s.len(),
{
    if s.len() == 0 {
        0
    } else if p(s[0]) {
        1 + run_len(s.drop_first(), p)
    } else {
        0
    }
}

/// The length of the identifier characters at the start of `s`.
pub open spec fn identifier_run(s: Seq<u8>) -> nat {
    run_len(s, |b: u8| is_identifier_char(b))
}

/// The length of the decimal digits at the start of `s`.
pub open spec fn digit_run(s: Seq<u8>) -> nat {
    run_len(s, |b: u8| is_digit(b))
}

/// The length of a line comment's body: up to and including the first line
/// break, or all of `s` when it has none.
pub open spec fn comment_len(s: Seq<u8>) -> nat
    decreases s.len(),
{
    if s.len() == 0 {
        0
    } else if s[0] == '\n' as u8 {
        1
    } else {
        1 + comment_len(s.drop_first())
    }
}

/// The number of bytes of white space and `//` comments at the start of `s`.
pub open spec fn skip_len(s: Seq<u8>) -> nat
    decreases s.len(),
{
    if s.len() == 0 {
        0
    } else if is_whitespace(s[0]) {
        1 + skip_len(s.drop_first())
    } else if s.len() >= 2 && s[0] == '/' as u8 && s[1] == '/' as u8 {
        proof {
            lemma_comment_len_bound(s.skip(2));
        }
        2 + comment_len(s.skip(2)) + skip_len(s.skip(2 + comment_len(s.skip(2)) as int))
    } else {
        0
    }
}

/// The value of a string of decimal digits.
pub open spec fn decimal_value(s: Seq<u8>) -> int
    decreases s.len(),
{
    if s.len() == 0 {
        0
    } else {
        decimal_value(s.drop_last()) * 10 + (s.last() - '0' as u8)
    }
}

/// The digits of the integer constant that starts with `initial` and goes on
/// in `rest`.
pub open spec fn integer_digits(initial: u8, rest: Seq<u8>) -> Seq<u8> {
    seq![initial] + rest.take(digit_run(rest) as int)
}

/// The length of a string constant's body: the bytes before the first `"` or
/// line break.
pub open spec fn quote_body_len(s: Seq<u8>) -> nat {
    run_len(s, |b: u8| b != '"' as u8 && b != '\n' as u8)
}

/// A token as the lexical grammar gives it: its kind, its lexeme, and how
/// many bytes after its first byte it takes.
pub struct LexedToken {
    pub kind: TokenType,
    pub lexeme: Seq<char>,
    pub len_after: nat,
}

/// `c`, or `c` followed by `=` when the next byte is `=`.
pub open spec fn lex_optional_equal(
    rest: Seq<u8>,
    c: char,
    single: TokenType,
    with_equal: TokenType,
) -> LexedToken {
    if rest.len() > 0 && rest[0] == '=' as u8 {
        LexedToken { kind: with_equal, lexeme: seq![c, '='], len_after: 1 }
    } else {
        LexedToken { kind: single, lexeme: seq![c], len_after: 0 }
    }
}

/// `c` twice, or an undefined token `c` when the next byte is not `c`.
pub open spec fn lex_required_pair(rest: Seq<u8>, b: u8, c: char, pair: TokenType) -> LexedToken {
    if rest.len() > 0 && rest[0] == b {
        LexedToken { kind: pair, lexeme: seq![c, c], len_after: 1 }
    } else {
        LexedToken { kind: TokenType::Undef, lexeme: seq![c], len_after: 0 }
    }
}

/// A string constant after its opening `"`.
pub open spec fn lex_string(rest: Seq<u8>) -> LexedToken {
    let k = quote_body_len(rest);
    let body = chars_of(rest.take(k as int));
    if k < rest.len() && rest[k as int] == '"' as u8 {
        LexedToken { kind: TokenType::StringConst, lexeme: body, len_after: k + 1 }
    } else if k < rest.len() {
        LexedToken { kind: TokenType::Undef, lexeme: body, len_after: k + 1 }
    } else {
        LexedToken { kind: TokenType::Undef, lexeme: body, len_after: k }
    }
}

/// A character constant after its opening `'`.
pub open spec fn lex_char(rest: Seq<u8>) -> LexedToken {
    if rest.len() == 0 {
        LexedToken { kind: TokenType::Undef, lexeme: seq!['\''], len_after: 0 }
    } else if rest[0] == '\'' as u8 || rest[0] == '\n' as u8 || rest.len() == 1 {
        LexedToken { kind: TokenType::Undef, lexeme: seq!['\'', rest[0] as char], len_after: 1 }
    } else if rest[1] == '\'' as u8 {
        LexedToken { kind: TokenType::CharConst, lexeme: seq![rest[0] as char], len_after: 2 }
    } else {
        LexedToken {
            kind: TokenType::Undef,
            lexeme: seq!['\'', rest[0] as char, rest[1] as char],
            len_after: 2,
        }
    }
}

/// An identifier or a reserved word that starts with `initial`.
pub open spec fn lex_word(
    initial: u8,
    rest: Seq<u8>,
    words: Map<Seq<char>, TokenType>,
) -> LexedToken {
    let k = identifier_run(rest);
    let lexeme = chars_of(seq![initial] + rest.take(k as int));
    LexedToken {
        kind: if words.contains_key(lexeme) {
            words[lexeme]
        } else {
            TokenType::Id
        },
        lexeme,
        len_after: k,
    }
}

/// An integer constant that starts with `initial`.
pub open spec fn lex_integer(initial: u8, rest: Seq<u8>) -> LexedToken {
    let digits = integer_digits(initial, rest);
    LexedToken {
        kind: TokenType::IntegerConst(decimal_value(digits) as i64),
        lexeme: chars_of(digits),
        len_after: (digits.len() - 1) as nat,
    }
}

/// The token that starts with byte `initial`, followed by `rest`.
pub open spec fn lex_from(
    initial: u8,
    rest: Seq<u8>,
    words: Map<Seq<char>, TokenType>,
) -> LexedToken {
    if is_single_char_token(initial) {
        LexedToken {
            kind: single_char_kind(initial),
            lexeme: seq![initial as char],
            len_after: 0,
        }
    } else if initial == '=' as u8 {
        lex_optional_equal(rest, '=', TokenType::Assign, TokenType::Eq)
    } else if initial == '>' as u8 {
        lex_optional_equal(rest, '>', TokenType::Gt, TokenType::Geq)
    } else if initial == '<' as u8 {
        lex_optional_equal(rest, '<', TokenType::Lt, TokenType::Leq)
    } else if initial == '!' as u8 {
        lex_optional_equal(rest, '!', TokenType::Not, TokenType::Neq)
    } else if initial == '&' as u8 {
        lex_required_pair(rest, '&' as u8, '&', TokenType::And)
    } else if initial == '|' as u8 {
        lex_required_pair(rest, '|' as u8, '|', TokenType::Or)
    } else if initial == '"' as u8 {
        lex_string(rest)
    } else if initial == '\'' as u8 {
        lex_char(rest)
    } else if is_identifier_start(initial) {
        lex_word(initial, rest, words)
    } else {
        lex_integer(initial, rest)
    }
}

/// A token can be read from `s`: after white space and comments there is a
/// byte that starts a token, and an integer constant there fits in `i64`.
pub open spec fn has_token(s: Seq<u8>) -> bool {
    let k = skip_len(s);
    &&& k < s.len()
    &&& is_token_start(s[k as int])
    &&& is_digit(s[k as int]) ==> decimal_value(integer_digits(s[k as int], s.skip(k as int + 1)))
        <= i64::MAX
}

/// The token read from `s`.
pub open spec fn next_token(s: Seq<u8>, words: Map<Seq<char>, TokenType>) -> LexedToken {
    let k = skip_len(s);
    lex_from(s[k as int], s.skip(k as int + 1), words)
}

/// How many bytes of `s` reading the next token takes.
pub open spec fn token_end(s: Seq<u8>, words: Map<Seq<char>, TokenType>) -> int {
    skip_len(s) + 1 + next_token(s, words).len_after as int
}

pub proof fn lemma_comment_len_bound(s: Seq<u8>)
    ensures
        comment_len(s) <= s.len(),
        s.len() > 0 ==> comment_len(s) >= 1,
    decreases s.len(),
{
    if s.len() > 0 && s[0] != '\n' as u8 {
        lemma_comment_len_bound(s.drop_first());
    }
}

pub proof fn lemma_skip_len_bound(s: Seq<u8>)
    ensures
        skip_len(s) <= s.len(),
    decreases s.len(),
{
    if s.len() == 0 {
    } else if is_whitespace(s[0]) {
        lemma_skip_len_bound(s.drop_first());
    } else if s.len() >= 2 && s[0] == '/' as u8 && s[1] == '/' as u8 {
        lemma_comment_len_bound(s.skip(2));
        lemma_skip_len_bound(s.skip(2 + comment_len(s.skip(2)) as int));
    }
}

/// Splitting a prefix of `s` at `n`.
pub proof fn lemma_split(s: Seq<u8>, n: int, m: int)
    requires
        0 <= n,
        0 <= m,
        n + m <= s.len(),
    ensures
        s.take(n + m) == s.take(n) + s.skip(n).take(m),
        s.skip(n).skip(m) == s.skip(n + m),
{
    assert(s.take(n + m) =~= s.take(n) + s.skip(n).take(m));
    assert(s.skip(n).skip(m) =~= s.skip(n + m));
}

/// The line breaks of a concatenation are those of its parts.
pub proof fn lemma_count_newlines_append(a: Seq<u8>, b: Seq<u8>)
    ensures
        count_newlines(a + b) == count_newlines(a) + count_newlines(b),
    decreases b.len(),
{
    if b.len() == 0 {
        assert(a + b =~= a);
    } else {
        lemma_count_newlines_append(a, b.drop_last());
        assert((a + b).drop_last() =~= a + b.drop_last());
    }
}

/// One more byte of `s` after its first `i`.
pub proof fn lemma_count_newlines_step(s: Seq<u8>, i: int)
    requires
        0 <= i < s.len(),
    ensures
        count_newlines(s.take(i + 1)) == count_newlines(s.take(i)) + if s[i] == '\n' as u8 {
            1nat
        } else {
            0nat
        },
{
    assert(s.take(i + 1).drop_last() =~= s.take(i));
}

/// The value of a prefix of a string of digits is at most the value of the
/// whole string, and not negative.
pub proof fn lemma_decimal_prefix(d: Seq<u8>, i: int)
    requires
        0 <= i <= d.len(),
        forall|j: int| 0 <= j < d.len() ==> is_digit(#[trigger] d[j]),
    ensures
        0 <= decimal_value(d.take(i)) <= decimal_value(d),
    decreases d.len(),
{
    if i == d.len() {
        assert(d.take(i) =~= d);
        if d.len() > 0 {
            lemma_decimal_prefix(d.drop_last(), 0);
        }
    } else {
        let p = d.drop_last();
        assert(p.take(i) =~= d.take(i));
        lemma_decimal_prefix(p, i);
        lemma_decimal_prefix(p, p.len() as int);
        assert(p.take(p.len() as int) =~= p);
    }
}

/// The identifier run after the first `i` bytes of `s` goes on exactly when
/// byte `i` is an identifier character.
pub proof fn lemma_identifier_run_step(s: Seq<u8>, i: int)
    requires
        0 <= i <= s.len(),
    ensures
        i < s.len() && is_identifier_char(s[i]) ==> identifier_run(s.skip(i)) == 1
            + identifier_run(s.skip(i + 1)),
        i == s.len() || !is_identifier_char(s[i]) ==> identifier_run(s.skip(i)) == 0,
{
    if i < s.len() {
        assert(s.skip(i).drop_first() =~= s.skip(i + 1));
    }
}

/// The digit run after the first `i` bytes of `s` goes on exactly when byte
/// `i` is a digit.
pub proof fn lemma_digit_run_step(s: Seq<u8>, i: int)
    requires
        0 <= i <= s.len(),
    ensures
        i < s.len() && is_digit(s[i]) ==> digit_run(s.skip(i)) == 1 + digit_run(s.skip(i + 1)),
        i == s.len() || !is_digit(s[i]) ==> digit_run(s.skip(i)) == 0,
{
    if i < s.len() {
        assert(s.skip(i).drop_first() =~= s.skip(i + 1));
    }
}

/// The body of a string constant after its first `i` bytes goes on exactly
/// when byte `i` is neither `"` nor a line break.
pub proof fn lemma_quote_body_step(s: Seq<u8>, i: int)
    requires
        0 <= i <= s.len(),
    ensures
        i < s.len() && s[i] != '"' as u8 && s[i] != '\n' as u8 ==> quote_body_len(s.skip(i)) == 1
            + quote_body_len(s.skip(i + 1)),
        i == s.len() || s[i] == '"' as u8 || s[i] == '\n' as u8 ==> quote_body_len(s.skip(i))
            == 0,
{
    if i < s.len() {
        assert(s.skip(i).drop_first() =~= s.skip(i + 1));
    }
}

/// The digit run is made of digits and lies within `s`.
pub proof fn lemma_digit_run_bound(s: Seq<u8>)
    ensures
        digit_run(s) <= s.len(),
        forall|j: int| 0 <= j < digit_run(s) ==> is_digit(#[trigger] s[j]),
    decreases s.len(),
{
    if s.len() > 0 && is_digit(s[0]) {
        lemma_digit_run_bound(s.drop_first());
        assert forall|j: int| 0 <= j < digit_run(s) implies is_digit(#[trigger] s[j]) by {
            if j > 0 {
                assert(s[j] == s.drop_first()[j - 1]);
            }
        }
    }
}

/// White space before a token does not change it: with one byte of white
/// space in front, the same token is read, one byte further on.
pub proof fn whitespace_skipping_law(w: u8, s: Seq<u8>, words: Map<Seq<char>, TokenType>)
    requires
        is_whitespace(w),
    ensures
        skip_len(seq![w] + s) == 1 + skip_len(s),
        has_token(seq![w] + s) == has_token(s),
        has_token(s) ==> next_token(seq![w] + s, words) == next_token(s, words)
            && token_end(seq![w] + s, words) == 1 + token_end(s, words),
{
    let t = seq![w] + s;
    assert(t.drop_first() =~= s);
    let k = skip_len(s) as int;
    lemma_skip_len_bound(s);
    if k < s.len() {
        assert(t.skip(k + 2) =~= s.skip(k + 1));
        assert(t[k + 1] == s[k]);
    }
}

/// A line comment before a token does not change it: with `//`, a comment
/// text without line breaks and a line break in front, the same token is
/// read, that many bytes further on.
pub proof fn comment_skipping_law(text: Seq<u8>, s: Seq<u8>, words: Map<Seq<char>, TokenType>)
    requires
        forall|i: int| 0 <= i < text.len() ==> #[trigger] text[i] != '\n' as u8,
    ensures
        ({
            let c = seq!['/' as u8, '/' as u8] + text + seq!['\n' as u8];
            &&& skip_len(c + s) == c.len() + skip_len(s)
            &&& has_token(c + s) == has_token(s)
            &&& has_token(s) ==> next_token(c + s, words) == next_token(s, words) && token_end(
                c + s,
                words,
            ) == c.len() + token_end(s, words)
        }),
{
    let c = seq!['/' as u8, '/' as u8] + text + seq!['\n' as u8];
    let t = c + s;
    let body = text + seq!['\n' as u8] + s;
    assert(t.skip(2) =~= body);
    lemma_comment_len_of_line(text, s);
    let n = c.len() as int;
    assert(t.skip(n) =~= s);
    let k = skip_len(s) as int;
    lemma_skip_len_bound(s);
    if k < s.len() {
        assert(t.skip(n + k + 1) =~= s.skip(k + 1));
        assert(t[n + k] == s[k]);
    }
}

/// A comment body that is a line of text and its line break.
proof fn lemma_comment_len_of_line(text: Seq<u8>, s: Seq<u8>)
    requires
        forall|i: int| 0 <= i < text.len() ==> #[trigger] text[i] != '\n' as u8,
    ensures
        comment_len(text + seq!['\n' as u8] + s) == text.len() + 1,
    decreases text.len(),
{
    let body = text + seq!['\n' as u8] + s;
    if text.len() == 0 {
        assert(body[0] == '\n' as u8);
    } else {
        let rest = text.drop_first();
        assert(body[0] == text[0]);
        assert(body.drop_first() =~= rest + seq!['\n' as u8] + s);
        assert forall|i: int| 0 <= i < rest.len() implies #[trigger] rest[i] != '\n' as u8 by {
            assert(rest[i] == text[i + 1]);
        }
        lemma_comment_len_of_line(rest, s);
    }
}

/// Bytes that only white space and line comments, each ended by a line
/// break, make up.
pub open spec fn is_blank(b: Seq<u8>) -> bool
    decreases b.len(),
{
    if b.len() == 0 {
        true
    } else if is_whitespace(b[0]) {
        is_blank(b.drop_first())
    } else if b.len() >= 2 && b[0] == '/' as u8 && b[1] == '/' as u8 {
        proof {
            lemma_comment_len_bound(b.skip(2));
        }
        let c = comment_len(b.skip(2));
        c >= 1 && b[1 + c as int] == '\n' as u8 && is_blank(b.skip(2 + c as int))
    } else {
        false
    }
}

/// A comment body holds no line break before its last byte.
proof fn lemma_comment_body(t: Seq<u8>)
    ensures
        forall|i: int| 0 <= i < comment_len(t) - 1 ==> #[trigger] t[i] != '\n' as u8,
    decreases t.len(),
{
    lemma_comment_len_bound(t);
    if t.len() > 0 && t[0] != '\n' as u8 {
        lemma_comment_body(t.drop_first());
        assert forall|i: int| 0 <= i < comment_len(t) - 1 implies #[trigger] t[i] != '\n' as u8 by {
            if i > 0 {
                assert(t[i] == t.drop_first()[i - 1]);
            }
        }
    }
}

/// White space and line comments before a token do not change it: with any
/// blank bytes in front, the same token is read, that many bytes further on,
/// on a line moved by the line breaks among them; and a token can be read
/// exactly when it could be read without them.
pub proof fn blank_skipping_law(blank: Seq<u8>, s: Seq<u8>, words: Map<Seq<char>, TokenType>)
    requires
        is_blank(blank),
    ensures
        skip_len(blank + s) == blank.len() + skip_len(s),
        has_token(blank + s) == has_token(s),
        has_token(s) ==> next_token(blank + s, words) == next_token(s, words) && token_end(
            blank + s,
            words,
        ) == blank.len() + token_end(s, words),
        count_newlines((blank + s).take(skip_len(blank + s) as int)) == count_newlines(blank)
            + count_newlines(s.take(skip_len(s) as int)),
    decreases blank.len(),
{
    lemma_skip_len_bound(s);
    let k = skip_len(s) as int;
    if blank.len() == 0 {
        assert(blank + s =~= s);
        assert(blank =~= Seq::<u8>::empty());
    } else if is_whitespace(blank[0]) {
        let w = blank[0];
        let rest = blank.drop_first();
        assert(blank =~= seq![w] + rest);
        assert(blank + s =~= seq![w] + (rest + s));
        blank_skipping_law(rest, s, words);
        whitespace_skipping_law(w, rest + s, words);
        let n = skip_len(rest + s) as int;
        lemma_skip_len_bound(rest + s);
        assert((blank + s).take(1 + n) =~= seq![w] + (rest + s).take(n));
        lemma_count_newlines_append(seq![w], (rest + s).take(n));
        lemma_count_newlines_append(seq![w], rest);
    } else {
        lemma_comment_len_bound(blank.skip(2));
        let c = comment_len(blank.skip(2)) as int;
        let text = blank.subrange(2, 1 + c);
        let rest = blank.skip(2 + c);
        lemma_comment_body(blank.skip(2));
        assert forall|i: int| 0 <= i < text.len() implies #[trigger] text[i] != '\n' as u8 by {
            assert(text[i] == blank.skip(2)[i]);
        }
        let comment = seq!['/' as u8, '/' as u8] + text + seq!['\n' as u8];
        assert(blank =~= comment + rest);
        assert(blank + s =~= comment + (rest + s));
        blank_skipping_law(rest, s, words);
        comment_skipping_law(text, rest + s, words);
        let n = skip_len(rest + s) as int;
        lemma_skip_len_bound(rest + s);
        assert((blank + s).take(comment.len() + n) =~= comment + (rest + s).take(n));
        lemma_count_newlines_append(comment, (rest + s).take(n));
        lemma_count_newlines_append(comment, rest);
    }
}

/// A token of one character is read on its own, with no byte after it taken.
pub proof fn single_char_token_law(initial: u8, rest: Seq<u8>, words: Map<Seq<char>, TokenType>)
    requires
        is_single_char_token(initial),
    ensures
        lex_from(initial, rest, words) == (LexedToken {
            kind: single_char_kind(initial),
            lexeme: seq![initial as char],
            len_after: 0,
        }),
{
}

/// No token can be read when only white space and comments are left, nor
/// where the next byte starts no token.
pub proof fn no_token_law(s: Seq<u8>)
    ensures
        skip_len(s) >= s.len() ==> !has_token(s),
        skip_len(s) < s.len() && !is_token_start(s[skip_len(s) as int]) ==> !has_token(s),
{
}

/// A character constant is one byte, other than `'` and a line break, between
/// two `'`; anything else after a `'` is an undefined token of what was read.
pub proof fn char_constant_law(rest: Seq<u8>)
    ensures
        (lex_char(rest).kind == TokenType::CharConst) == (rest.len() >= 2 && rest[0] != '\'' as u8
            && rest[0] != '\n' as u8 && rest[1] == '\'' as u8),
        lex_char(rest).kind == TokenType::CharConst ==> lex_char(rest).lexeme == seq![
            rest[0] as char,
        ] && lex_char(rest).len_after == 2,
        lex_char(rest).kind != TokenType::CharConst ==> lex_char(rest).kind == TokenType::Undef,
        rest.len() == 0 ==> lex_char(rest).lexeme == seq!['\''] && lex_char(rest).len_after == 0,
        rest.len() > 0 && (rest[0] == '\'' as u8 || rest[0] == '\n' as u8 || rest.len() == 1)
            ==> lex_char(rest).lexeme == seq!['\'', rest[0] as char] && lex_char(rest).len_after
            == 1,
        rest.len() >= 2 && rest[0] != '\'' as u8 && rest[0] != '\n' as u8 && rest[1] != '\''
            as u8 ==> lex_char(rest).lexeme == seq!['\'', rest[0] as char, rest[1] as char]
            && lex_char(rest).len_after == 2,
{
}

} // verus!
