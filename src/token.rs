//! Tokens: a kind and the text it was read from.
use vstd::prelude::*;
use crate::text::same_text;

verus! {

/// The kinds of token that the scanner produces.
#[derive(Debug, Clone, Copy, PartialEq, Eq, Structural)]
pub enum TokenType {
    Eof,
    Illegal,
    Ident,
    Number,
    String,
    Read,
    If,
    Then,
    Repeat,
    Until,
    Write,
    End,
    LessThan,
    Assign,
    EqualLessThan,
    Equal,
    Add,
    Minus,
    Mul,
    Divide,
    SemiColon,
}

/// A token: its kind and its literal text, owned by the token.
#[derive(Debug, Clone)]
pub struct Token {
    pub token_type: TokenType,
    pub literal: String,
}

impl View for Token {
    type V = (TokenType, Seq<char>);

    open spec fn view(&self) -> (TokenType, Seq<char>) {
        (self.token_type, self.literal@)
    }
}

impl Token {
    pub fn new(token_type: TokenType, literal: &str) -> (r: Token)
        ensures
            r@ == (token_type, literal@),
    {
        Token { token_type, literal: literal.to_owned() }
    }

    /// A copy of the token.
    pub fn duplicate(&self) -> (r: Token)
        ensures
            r@ == self@,
    {
        Token { token_type: self.token_type, literal: self.literal.clone() }
    }
}

/// The kind of a word: one of the reserved words, or a plain identifier.
pub open spec fn keyword_kind(w: Seq<char>) -> TokenType {
    if w == "read"@ {
        TokenType::Read
    } else if w == "if"@ {
        TokenType::If
    } else if w == "then"@ {
        TokenType::Then
    } else if w == "repeat"@ {
        TokenType::Repeat
    } else if w == "until"@ {
        TokenType::Until
    } else if w == "write"@ {
        TokenType::Write
    } else if w == "end"@ {
        TokenType::End
    } else {
        TokenType::Ident
    }
}

/// Classifies a word as a reserved word or an identifier.
pub fn look_up_keywords(ident: &str) -> (r: TokenType)
    ensures
        r == keyword_kind(ident@),
{
    if same_text(ident, "read") {
        TokenType::Read
    } else if same_text(ident, "if") {
        TokenType::If
    } else if same_text(ident, "then") {
        TokenType::Then
    } else if same_text(ident, "repeat") {
        TokenType::Repeat
    } else if same_text(ident, "until") {
        TokenType::Until
    } else if same_text(ident, "write") {
        TokenType::Write
    } else if same_text(ident, "end") {
        TokenType::End
    } else {
        TokenType::Ident
    }
}

} // verus!
