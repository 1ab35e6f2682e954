//! What the next token is, stated byte by byte for each kind of token, over
//! `next_token` and `token_end`, which `TLexer::get_prox_token` reads by.
use crate::lexical::{
    chars_of, decimal_value, digit_run, has_token, identifier_run, integer_digits, lemma_skip_len_bound,
    next_token, quote_body_len, skip_len, token_end,
};
use crate::token::TokenType;
use vstd::prelude::*;

verus! {

/// The identifier run of `w + t` is all of `w` when `w` is letters, digits
/// and `_`, and `t` does not start with one.
proof fn lemma_identifier_run_of(w: Seq<u8>, t: Seq<u8>)
    requires
        forall|i: int|
            0 <= i < w.len() ==> ('a' as u8 <= #[trigger] w[i] <= 'z' as u8) || ('A' as u8 <= w[i]
                <= 'Z' as u8) || ('0' as u8 <= w[i] <= '9' as u8) || w[i] == '_' as u8,
        t.len() == 0 || !(('a' as u8 <= t[0] <= 'z' as u8) || ('A' as u8 <= t[0] <= 'Z' as u8)
            || ('0' as u8 <= t[0] <= '9' as u8) || t[0] == '_' as u8),
    ensures
        identifier_run(w + t) == w.len(),
    decreases w.len(),
{
    if w.len() == 0 {
        assert(w + t =~= t);
    } else {
        let rest = w.drop_first();
        assert((w + t).drop_first() =~= rest + t);
        assert((w + t)[0] == w[0]);
        assert forall|i: int| 0 <= i < rest.len() implies ('a' as u8 <= #[trigger] rest[i]
            <= 'z' as u8) || ('A' as u8 <= rest[i] <= 'Z' as u8) || ('0' as u8 <= rest[i]
            <= '9' as u8) || rest[i] == '_' as u8 by {
            assert(rest[i] == w[i + 1]);
        }
        lemma_identifier_run_of(rest, t);
    }
}

/// The digit run of `d + t` is all of `d` when `d` is digits and `t` does
/// not start with one.
proof fn lemma_digit_run_of(d: Seq<u8>, t: Seq<u8>)
    requires
        forall|i: int| 0 <= i < d.len() ==> '0' as u8 <= #[trigger] d[i] <= '9' as u8,
        t.len() == 0 || !('0' as u8 <= t[0] <= '9' as u8),
    ensures
        digit_run(d + t) == d.len(),
    decreases d.len(),
{
    if d.len() == 0 {
        assert(d + t =~= t);
    } else {
        let rest = d.drop_first();
        assert((d + t).drop_first() =~= rest + t);
        assert((d + t)[0] == d[0]);
        assert forall|i: int| 0 <= i < rest.len() implies '0' as u8 <= #[trigger] rest[i]
            <= '9' as u8 by {
            assert(rest[i] == d[i + 1]);
        }
        lemma_digit_run_of(rest, t);
    }
}

/// The body of a string constant runs up to the first `"` or line break.
proof fn lemma_quote_body_of(b: Seq<u8>, t: Seq<u8>)
    requires
        forall|i: int| 0 <= i < b.len() ==> #[trigger] b[i] != '"' as u8 && b[i] != '\n' as u8,
        t.len() > 0,
        t[0] == '"' as u8 || t[0] == '\n' as u8,
    ensures
        quote_body_len(b + t) == b.len(),
    decreases b.len(),
{
    if b.len() == 0 {
        assert(b + t =~= t);
    } else {
        let rest = b.drop_first();
        assert((b + t).drop_first() =~= rest + t);
        assert((b + t)[0] == b[0]);
        assert forall|i: int| 0 <= i < rest.len() implies #[trigger] rest[i] != '"' as u8
            && rest[i] != '\n' as u8 by {
            assert(rest[i] == b[i + 1]);
        }
        lemma_quote_body_of(rest, t);
    }
}

/// An identifier is the longest run of letters (`a` to `z`, `A` to `Z`),
/// digits and `_` that starts with a letter or `_`: every such byte, of
/// either case, continues it, and the first other byte ends it. Its lexeme
/// is those bytes, one character each; its kind is the reserved word's kind
/// when the lexeme is a reserved word, and `Id` otherwise.
pub proof fn identifier_law(w: Seq<u8>, t: Seq<u8>, words: Map<Seq<char>, TokenType>)
    requires
        w.len() >= 1,
        ('a' as u8 <= w[0] <= 'z' as u8) || ('A' as u8 <= w[0] <= 'Z' as u8) || w[0] == '_' as u8,
        forall|i: int|
            0 <= i < w.len() ==> ('a' as u8 <= #[trigger] w[i] <= 'z' as u8) || ('A' as u8 <= w[i]
                <= 'Z' as u8) || ('0' as u8 <= w[i] <= '9' as u8) || w[i] == '_' as u8,
        t.len() == 0 || !(('a' as u8 <= t[0] <= 'z' as u8) || ('A' as u8 <= t[0] <= 'Z' as u8)
            || ('0' as u8 <= t[0] <= '9' as u8) || t[0] == '_' as u8),
    ensures
        has_token(w + t),
        token_end(w + t, words) == w.len(),
        next_token(w + t, words).lexeme.len() == w.len(),
        forall|i: int|
            0 <= i < w.len() ==> #[trigger] next_token(w + t, words).lexeme[i] == w[i] as char,
        words.contains_key(next_token(w + t, words).lexeme) ==> next_token(w + t, words).kind
            == words[next_token(w + t, words).lexeme],
        !words.contains_key(next_token(w + t, words).lexeme) ==> next_token(w + t, words).kind
            == TokenType::Id,
{
    let s = w + t;
    assert(s[0] == w[0]);
    assert(skip_len(s) == 0);
    let rest = w.drop_first();
    assert(s.skip(1) =~= rest + t);
    assert forall|i: int| 0 <= i < rest.len() implies ('a' as u8 <= #[trigger] rest[i] <= 'z' as u8)
        || ('A' as u8 <= rest[i] <= 'Z' as u8) || ('0' as u8 <= rest[i] <= '9' as u8) || rest[i]
        == '_' as u8 by {
        assert(rest[i] == w[i + 1]);
    }
    lemma_identifier_run_of(rest, t);
    assert(seq![w[0]] + (rest + t).take(rest.len() as int) =~= w);
}

/// An integer constant is the longest run of digits; its value is that of
/// its digits in base ten. A single digit `e` has the value `e - '0'`; one
/// more digit `e` after digits `d` makes the value ten times the value of
/// `d`, plus `e - '0'`; and the lexeme grows by that digit.
pub proof fn integer_value_law(d: Seq<u8>, e: u8, t: Seq<u8>, words: Map<Seq<char>, TokenType>)
    requires
        forall|i: int| 0 <= i < d.len() ==> '0' as u8 <= #[trigger] d[i] <= '9' as u8,
        '0' as u8 <= e <= '9' as u8,
        t.len() == 0 || !('0' as u8 <= t[0] <= '9' as u8),
        has_token(d.push(e) + t),
    ensures
        d.len() == 0 ==> next_token(d.push(e) + t, words).kind == TokenType::IntegerConst(
            (e - '0' as u8) as i64,
        ) && next_token(d.push(e) + t, words).lexeme == seq![e as char],
        d.len() > 0 ==> has_token(d + t) && next_token(d + t, words).kind is IntegerConst
            && next_token(d.push(e) + t, words).kind == TokenType::IntegerConst(
            (10 * (next_token(d + t, words).kind->IntegerConst_0) + (e - '0' as u8)) as i64,
        ) && next_token(d.push(e) + t, words).lexeme == next_token(d + t, words).lexeme.push(
            e as char,
        ),
        token_end(d.push(e) + t, words) == d.len() + 1,
{
    let full = d.push(e);
    assert forall|i: int| 0 <= i < full.len() implies '0' as u8 <= #[trigger] full[i] <= '9'
        as u8 by {
        if i < d.len() {
            assert(full[i] == d[i]);
        }
    }
    lemma_integer_digits_of(full, t);
    if d.len() > 0 {
        lemma_integer_digits_of(d, t);
        let s = d + t;
        lemma_skip_len_bound(s);
        assert(integer_digits(s[0], s.skip(1)) == d);
        assert(full.drop_last() =~= d);
        lemma_decimal_le(d, full);
    } else {
        assert(full =~= seq![e]);
        assert(full.drop_last() =~= Seq::<u8>::empty());
        assert(full.last() == e);
        assert(decimal_value(Seq::<u8>::empty()) == 0);
        assert(decimal_value(full) == e - '0' as u8);
        assert(chars_of(full) =~= seq![e as char]);
    }
}

/// The next token of digits `d` followed by a non-digit is the integer
/// constant of exactly those digits.
proof fn lemma_integer_digits_of(d: Seq<u8>, t: Seq<u8>)
    requires
        d.len() >= 1,
        forall|i: int| 0 <= i < d.len() ==> '0' as u8 <= #[trigger] d[i] <= '9' as u8,
        t.len() == 0 || !('0' as u8 <= t[0] <= '9' as u8),
    ensures
        skip_len(d + t) == 0,
        integer_digits((d + t)[0], (d + t).skip(1)) == d,
        (d + t)[0] == d[0],
{
    let s = d + t;
    assert(s[0] == d[0]);
    let rest = d.drop_first();
    assert(s.skip(1) =~= rest + t);
    assert forall|i: int| 0 <= i < rest.len() implies '0' as u8 <= #[trigger] rest[i] <= '9'
        as u8 by {
        assert(rest[i] == d[i + 1]);
    }
    lemma_digit_run_of(rest, t);
    assert(seq![d[0]] + (rest + t).take(rest.len() as int) =~= d);
}

/// Dropping the last digit does not raise the value.
proof fn lemma_decimal_le(d: Seq<u8>, full: Seq<u8>)
    requires
        full.len() == d.len() + 1,
        full.drop_last() == d,
        forall|i: int| 0 <= i < full.len() ==> '0' as u8 <= #[trigger] full[i] <= '9' as u8,
    ensures
        0 <= decimal_value(d) <= decimal_value(full),
{
    crate::lexical::lemma_decimal_prefix(full, d.len() as int);
    assert(full.take(d.len() as int) =~= d);
}

/// A string constant is the bytes between two `"`, none of them a line
/// break; its lexeme is those bytes as they are, one character each, and
/// reading it takes both quotes.
pub proof fn string_constant_law(b: Seq<u8>, t: Seq<u8>, words: Map<Seq<char>, TokenType>)
    requires
        forall|i: int| 0 <= i < b.len() ==> #[trigger] b[i] != '"' as u8 && b[i] != '\n' as u8,
    ensures
        ({
            let s = seq!['"' as u8] + b + seq!['"' as u8] + t;
            &&& has_token(s)
            &&& next_token(s, words).kind == TokenType::StringConst
            &&& next_token(s, words).lexeme.len() == b.len()
            &&& forall|i: int|
                0 <= i < b.len() ==> #[trigger] next_token(s, words).lexeme[i] == b[i] as char
            &&& token_end(s, words) == b.len() + 2
        }),
{
    let s = seq!['"' as u8] + b + seq!['"' as u8] + t;
    let after = b + (seq!['"' as u8] + t);
    assert(s[0] == '"' as u8);
    assert(skip_len(s) == 0);
    assert(s.skip(1) =~= after);
    lemma_quote_body_of(b, seq!['"' as u8] + t);
    assert(after.take(b.len() as int) =~= b);
    assert(after[b.len() as int] == '"' as u8);
}

/// `=`, `>`, `<` and `!` followed by `=` are read together as `Eq`, `Geq`,
/// `Leq` and `Neq`; followed by anything else, or by nothing, each is read
/// alone as `Assign`, `Gt`, `Lt` and `Not`, and the next byte is left.
pub proof fn comparison_operator_law(c: u8, r: Seq<u8>, words: Map<Seq<char>, TokenType>)
    requires
        c == '=' as u8 || c == '>' as u8 || c == '<' as u8 || c == '!' as u8,
    ensures
        ({
            let s = seq![c] + r;
            let tok = next_token(s, words);
            &&& has_token(s)
            &&& r.len() > 0 && r[0] == '=' as u8 ==> {
                &&& tok.lexeme == seq![c as char, '=']
                &&& token_end(s, words) == 2
                &&& c == '=' as u8 ==> tok.kind == TokenType::Eq
                &&& c == '>' as u8 ==> tok.kind == TokenType::Geq
                &&& c == '<' as u8 ==> tok.kind == TokenType::Leq
                &&& c == '!' as u8 ==> tok.kind == TokenType::Neq
            }
            &&& !(r.len() > 0 && r[0] == '=' as u8) ==> {
                &&& tok.lexeme == seq![c as char]
                &&& token_end(s, words) == 1
                &&& c == '=' as u8 ==> tok.kind == TokenType::Assign
                &&& c == '>' as u8 ==> tok.kind == TokenType::Gt
                &&& c == '<' as u8 ==> tok.kind == TokenType::Lt
                &&& c == '!' as u8 ==> tok.kind == TokenType::Not
            }
        }),
{
    let s = seq![c] + r;
    assert(s[0] == c);
    assert(skip_len(s) == 0);
    assert(s.skip(1) =~= r);
}

/// `&&` and `||` are read as `And` and `Or` whatever follows them; a lone
/// `&` or `|` is an undefined token of that one character, and the next byte
/// is left.
pub proof fn logical_operator_law(c: u8, r: Seq<u8>, words: Map<Seq<char>, TokenType>)
    requires
        c == '&' as u8 || c == '|' as u8,
    ensures
        ({
            let s = seq![c] + r;
            let tok = next_token(s, words);
            &&& has_token(s)
            &&& r.len() > 0 && r[0] == c ==> {
                &&& tok.lexeme == seq![c as char, c as char]
                &&& token_end(s, words) == 2
                &&& c == '&' as u8 ==> tok.kind == TokenType::And
                &&& c == '|' as u8 ==> tok.kind == TokenType::Or
            }
            &&& !(r.len() > 0 && r[0] == c) ==> {
                &&& tok.lexeme == seq![c as char]
                &&& token_end(s, words) == 1
                &&& tok.kind == TokenType::Undef
            }
        }),
{
    let s = seq![c] + r;
    assert(s[0] == c);
    assert(skip_len(s) == 0);
    assert(s.skip(1) =~= r);
}

} // verus!
