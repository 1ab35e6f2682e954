pub mod comment_contract;
pub mod lexer;
pub mod lexical;
pub mod reserved_words;
pub mod scanner;
pub mod token;
pub mod token_laws;
