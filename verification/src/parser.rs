//! A reader that walks a command text character by character.

use crate::token::Token;
use std::str::Chars;
use vstd::prelude::*;
use vstd::string::into_iter_elts;

verus! {

/// A reader over the characters of a command.
pub struct Parser<'a> {
    input: Chars<'a>,
}

impl<'a> Parser<'a> {
    /// The characters that the reader has before it.
    pub closed spec fn remaining(&self) -> Seq<char> {
        into_iter_elts(self.input)
    }

    /// A reader at the front of `command`.
    pub fn new(command: &'a str) -> (parser: Self)
        ensures
            parser.remaining() == command@,
    {
        Parser { input: command.chars() }
    }

    /// The tokens of the command. The command language is read without a
    /// token stage, so the list is empty and the reader stays where it is.
    pub fn parse_tokens(&mut self) -> (tokens: Vec<Token>)
        ensures
            tokens@.len() == 0,
            final(self).remaining() == old(self).remaining(),
    {
        let tokens: Vec<Token> = Vec::new();
        tokens
    }
}

} // verus!
