//! Tokens of a command text.

use vstd::prelude::*;

verus! {

/// The classes of token.
#[derive(Debug, Clone, Copy, PartialEq, Eq, Structural)]
pub enum TokenType {
    Keyword,
    Identifier,
    Symbol,
    TypeName,
    Constant,
    FunctionName,
    Terminator,
    Error,
}

/// A token: its text, its class, and a number that the class gives a meaning.
#[derive(Debug, Clone, PartialEq)]
pub struct Token {
    pub tok_string: String,
    pub tok_type: TokenType,
    pub tok_value: i32,
}

impl Token {
    /// A token with the given text, class and number.
    pub fn new(tok_string: &str, tok_type: TokenType, tok_value: i32) -> (token: Self)
        ensures
            token.tok_string@ == tok_string@,
            token.tok_type == tok_type,
            token.tok_value == tok_value,
    {
        Token { tok_string: tok_string.to_owned(), tok_type, tok_value }
    }
}

} // verus!
