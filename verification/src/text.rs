//! The text format: its token model, its lexical grammar and the tokenizer.

use vstd::prelude::*;

pub mod chars;
pub mod grammar;
pub mod laws;
pub mod lemmas;
pub mod lexer;

verus! {

/// A lexeme of the text format as the tokenizer hands it to a parser.
///
/// Payloads are already parsed: numbers are values, identifiers come without
/// their `$` sigil. A token carries no position.
#[derive(Debug, Clone, PartialEq, Eq)]
pub enum Token {
    /// A lowercase letter followed by identifier characters, such as `module` or `i32.add`.
    Keyword(String),
    /// A decimal or `0x`-prefixed hexadecimal literal without sign.
    UnsignedInt(u32),
    /// An integer literal with an explicit `+` or `-` sign.
    SignedInt(i32),
    /// A floating-point literal as it is written, sign and `_` included: a
    /// word with a fraction or an exponent, `inf` or `nan`. Its shape is
    /// checked, its value is left to the reader of the token.
    Float(String),
    /// The bytes that a double-quoted literal denotes, escapes decoded.
    StringLiteral(Vec<u8>),
    /// The name of a `$`-prefixed identifier, without the `$`.
    Id(String),
    /// `(`
    OpenParen,
    /// `)`
    CloseParen,
    /// A run of identifier characters that is nothing more specific.
    Reserved(String),
}

/// The mathematical value of a [`Token`]: text as a sequence of characters,
/// bytes as a sequence of bytes.
pub enum Lexeme {
    Keyword(Seq<char>),
    UnsignedInt(u32),
    SignedInt(i32),
    Float(Seq<char>),
    StringLiteral(Seq<u8>),
    Id(Seq<char>),
    OpenParen,
    CloseParen,
    Reserved(Seq<char>),
}

impl View for Token {
    type V = Lexeme;

    open spec fn view(&self) -> Lexeme {
        match self {
            Token::Keyword(text) => Lexeme::Keyword(text@),
            Token::UnsignedInt(value) => Lexeme::UnsignedInt(*value),
            Token::SignedInt(value) => Lexeme::SignedInt(*value),
            Token::Float(text) => Lexeme::Float(text@),
            Token::StringLiteral(bytes) => Lexeme::StringLiteral(bytes@),
            Token::Id(name) => Lexeme::Id(name@),
            Token::OpenParen => Lexeme::OpenParen,
            Token::CloseParen => Lexeme::CloseParen,
            Token::Reserved(text) => Lexeme::Reserved(text@),
        }
    }
}

/// The values of a sequence of tokens, in order.
pub open spec fn lexemes(tokens: Seq<Token>) -> Seq<Lexeme> {
    tokens.map_values(|token: Token| token@)
}

/// Why a text could not be tokenized.
#[derive(Debug, Clone, Copy, PartialEq, Eq)]
pub enum LexError {
    /// No production of the grammar, blank space and comments included, matches
    /// at `offset`, counted in characters from the start of the text.
    UnscannableInput { offset: usize },
}

} // verus!
