//! The shared lexical vocabulary: token categories and tokens.

use vstd::prelude::*;

verus! {

/// Every lexical category the tokenizer can produce. `Empty` is a sentinel
/// meaning "no token": it never appears in a successfully produced token
/// sequence and is used by parse errors to report an exhausted stream.
#[derive(Clone, Copy, Debug, PartialEq, Eq, Structural)]
pub enum TokenType {
    OpenParen,
    CloseParen,
    OpenBrace,
    CloseBrace,
    Semicolon,
    Identifier,
    Constant,
    KWInt,
    KWVoid,
    KWReturn,
    Comment,
    Empty,
}

/// A classified, indivisible lexical unit: its category and the exact
/// matched lexeme.
#[derive(Debug, PartialEq, Eq)]
pub struct Token {
    pub ttype: TokenType,
    pub value: String,
}

/// The mathematical image of a [`Token`]: the category together with the
/// lexeme as a sequence of characters.
pub ghost struct SpecToken {
    pub ttype: TokenType,
    pub value: Seq<char>,
}

impl View for Token {
    type V = SpecToken;

    open spec fn view(&self) -> SpecToken {
        SpecToken { ttype: self.ttype, value: self.value@ }
    }
}

impl Clone for Token {
    fn clone(&self) -> (r: Token)
        ensures
            r@ == self@,
    {
        Token { ttype: self.ttype, value: self.value.clone() }
    }
}

/// The sequence of token images of a token sequence.
pub open spec fn tokens_view(toks: Seq<Token>) -> Seq<SpecToken> {
    toks.map_values(|t: Token| t@)
}

} // verus!
