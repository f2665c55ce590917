use vstd::prelude::*;

verus! {

/// One lexical unit of the source language.
#[derive(Debug, Clone, PartialEq, Eq)]
pub enum Token {
    /// A run of letters and underscores, or a bracketed path such as `<io>`.
    Identifier(String),
    /// An operator of one to three characters.
    Operation(String),
    /// The text between two double quotes, escapes left as written.
    StringLiteral(String),
    /// A character that starts no other token.
    Symbol(char),
    /// The character after a single quote.
    CharLiteral(char),
    /// A run of ASCII digits.
    Number(String),
    SemiColon,
    ParenOpen,
    ParenClose,
    BraceOpen,
    BraceClose,
    SquareOpen,
    SquareClose,
}

/// What a [`Token`] stands for: the same variants over sequences of characters.
pub enum TokenModel {
    Identifier(Seq<char>),
    Operation(Seq<char>),
    StringLiteral(Seq<char>),
    Symbol(char),
    CharLiteral(char),
    Number(Seq<char>),
    SemiColon,
    ParenOpen,
    ParenClose,
    BraceOpen,
    BraceClose,
    SquareOpen,
    SquareClose,
}

impl View for Token {
    type V = TokenModel;

    open spec fn view(&self) -> TokenModel {
        match self {
            Token::Identifier(s) => TokenModel::Identifier(s@),
            Token::Operation(s) => TokenModel::Operation(s@),
            Token::StringLiteral(s) => TokenModel::StringLiteral(s@),
            Token::Symbol(c) => TokenModel::Symbol(*c),
            Token::CharLiteral(c) => TokenModel::CharLiteral(*c),
            Token::Number(s) => TokenModel::Number(s@),
            Token::SemiColon => TokenModel::SemiColon,
            Token::ParenOpen => TokenModel::ParenOpen,
            Token::ParenClose => TokenModel::ParenClose,
            Token::BraceOpen => TokenModel::BraceOpen,
            Token::BraceClose => TokenModel::BraceClose,
            Token::SquareOpen => TokenModel::SquareOpen,
            Token::SquareClose => TokenModel::SquareClose,
        }
    }
}

/// The models of a sequence of tokens, position by position.
pub open spec fn models(tokens: Seq<Token>) -> Seq<TokenModel> {
    tokens.map_values(|t: Token| t@)
}

/// The token at position `i`, where there is one.
pub open spec fn token_at(tokens: Seq<TokenModel>, i: int) -> Option<TokenModel> {
    if 0 <= i < tokens.len() {
        Some(tokens[i])
    } else {
        None
    }
}

/// The text of an identifier at position `i`, where one stands there.
pub open spec fn identifier_at(tokens: Seq<TokenModel>, i: int) -> Option<Seq<char>> {
    match token_at(tokens, i) {
        Some(TokenModel::Identifier(name)) => Some(name),
        _ => None,
    }
}

/// The digits of a number at position `i`, where one stands there.
pub open spec fn number_at(tokens: Seq<TokenModel>, i: int) -> Option<Seq<char>> {
    match token_at(tokens, i) {
        Some(TokenModel::Number(digits)) => Some(digits),
        _ => None,
    }
}

} // verus!
