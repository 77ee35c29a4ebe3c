//! Tokens, their literals, lexical errors, and the mathematical view of each.

use vstd::prelude::*;
use vstd::string::StringSliceAdditionalSpecFns;

verus! {

/// The closed set of token kinds.
#[derive(Clone, Copy, Debug, PartialEq, Eq, Structural)]
pub enum TokenType {
    // Punctuation.
    LeftParen,
    RightParen,
    LeftBrace,
    RightBrace,
    Comma,
    Dot,
    Minus,
    Plus,
    Semicolon,
    Slash,
    Star,
    // One or two character operators.
    Bang,
    BangEqual,
    Equal,
    EqualEqual,
    Greater,
    GreaterEqual,
    Less,
    LessEqual,
    // Literals.
    Identifier,
    String,
    Number,
    // Keywords.
    And,
    Class,
    Else,
    False,
    Fun,
    For,
    If,
    Nil,
    Or,
    Print,
    Return,
    Super,
    This,
    True,
    Var,
    While,
    // End of input.
    EOF,
}

/// The decoded payload of a literal token, borrowed from the source text.
///
/// A number is carried as its decimal numeral (digits, optionally followed by
/// a dot and more digits); a string as the raw text between its quotes.
#[derive(Clone, Copy, Debug, PartialEq, Eq)]
pub enum Literal<'a> {
    Number(&'a str),
    Str(&'a str),
}

/// A classified, positioned fragment of the source text.
#[derive(Clone, Copy, Debug, PartialEq, Eq)]
pub struct Token<'a> {
    pub kind: TokenType,
    pub lexeme: &'a str,
    pub literal: Option<Literal<'a>>,
    pub line: usize,
}

/// Why a scan was abandoned.
#[derive(Clone, Copy, Debug, PartialEq, Eq)]
pub enum LexError {
    UnexpectedCharacter { char: char, line: usize },
    UnterminatedString { line: usize },
}

/// A literal as the bytes of its text.
pub enum LiteralView {
    Number(Seq<u8>),
    Str(Seq<u8>),
}

/// A token as plain mathematical data: its text is a sequence of bytes.
pub struct TokenView {
    pub kind: TokenType,
    pub lexeme: Seq<u8>,
    pub literal: Option<LiteralView>,
    pub line: nat,
}

impl<'a> View for Literal<'a> {
    type V = LiteralView;

    open spec fn view(&self) -> LiteralView {
        match *self {
            Literal::Number(text) => LiteralView::Number(text.spec_bytes()),
            Literal::Str(text) => LiteralView::Str(text.spec_bytes()),
        }
    }
}

impl<'a> View for Token<'a> {
    type V = TokenView;

    open spec fn view(&self) -> TokenView {
        TokenView {
            kind: self.kind,
            lexeme: self.lexeme.spec_bytes(),
            literal: match self.literal {
                Some(literal) => Some(literal@),
                None => None,
            },
            line: self.line as nat,
        }
    }
}

/// The views of a vector of tokens, in order.
pub open spec fn token_views<'a>(tokens: Seq<Token<'a>>) -> Seq<TokenView> {
    Seq::new(tokens.len(), |i: int| tokens[i]@)
}

} // verus!
