# microc_lexer

A lexer for Micro C, with proofs that it reads the tokens of the lexical
grammar stated in `src/lexical.rs`.

- `src/token.rs`: token kinds and tokens.
- `src/scanner.rs`: a scanner over source text in memory, which tracks line and
  column, and the `TScanner` trait that the lexer reads from.
- `src/reserved_words.rs`: the table of reserved words.
- `src/lexical.rs`: the lexical grammar as spec functions over bytes, and laws
  about it (white space and comments do not change the next token, when no
  token can be read, what a character constant is).
- `src/lexer.rs`: the lexer, proved to read exactly the token that the grammar
  gives.
- `src/comment_contract.rs`: checks on how a lexer treats `/` and comments,
  whose verdict is tied to the tokens that the lexer made for them reads.
- `app/lib.rs`: reading source text from any reader, and displayable errors.
