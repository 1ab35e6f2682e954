use vstd::prelude::*;

verus! {

/// The kinds of token of Micro C.
#[derive(Debug, Clone, Copy, PartialEq, Eq, Structural)]
pub enum TokenType {
    IntegerConst(i64),
    CharConst,
    StringConst,
    Undef,
    Id,
    Eof,
    Plus,
    Minus,
    Mul,
    Div,
    Mod,
    Eq,
    Neq,
    Lt,
    Gt,
    Leq,
    Geq,
    And,
    Or,
    Not,
    Assign,
    SemiColon,
    Comma,
    Lparen,
    Rparen,
    LBrace,
    RBrace,
    LBracket,
    RBracket,
    Main,
    If,
    Else,
    For,
    Return,
    Int,
    Char,
    Print,
}

/// A token: its kind, the line on which it starts and its lexeme.
pub struct Token {
    tipo: TokenType,
    linha: usize,
    lexema: String,
}

impl Token {
    /// The kind of the token.
    pub closed spec fn kind(&self) -> TokenType {
        self.tipo
    }

    /// The line on which the token starts.
    pub closed spec fn line(&self) -> usize {
        self.linha
    }

    /// The characters of the lexeme.
    pub closed spec fn lexeme(&self) -> Seq<char> {
        self.lexema@
    }

    pub fn new(tipo: TokenType, linha: usize, lexema: String) -> (token: Self)
        ensures
            token.kind() == tipo,
            token.line() == linha,
            token.lexeme() == lexema@,
    {
        Self { tipo, linha, lexema }
    }

    pub fn get_tok_type(&self) -> (kind: &TokenType)
        ensures
            *kind == self.kind(),
    {
        &self.tipo
    }

    pub fn get_lexema(&self) -> (lexeme: &str)
        ensures
            lexeme@ == self.lexeme(),
    {
        self.lexema.as_str()
    }
}

} // verus!
