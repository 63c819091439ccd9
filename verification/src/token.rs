//! Token kinds produced by the lexer.
use vstd::prelude::*;

verus! {

/// The kind of a lexical token. The variants are numbered in declaration
/// order by [`TokenKind::index`]; token sets rely on that numbering.
#[derive(Debug, Clone, Copy, PartialEq, Eq, Hash, PartialOrd, Ord, Structural)]
pub enum TokenKind {
    Whitespace,
    DocComment,
    Comment,
    NewLine,
    LeftParenthesis,
    RightParenthesis,
    LeftBrace,
    RightBrace,
    LeftBracket,
    RightBracket,
    Comma,
    Colon,
    DotDot,
    Dot,
    Plus,
    Minus,
    Asterisk,
    Slash,
    Percent,
    PlusDot,
    MinusDot,
    AsteriskDot,
    SlashDot,
    Equals,
    EqualsEquals,
    NotEquals,
    Bang,
    GreaterThan,
    LessThan,
    GreaterThanOrEqual,
    LessThanOrEqual,
    GreaterThanDot,
    LessThanDot,
    GreaterThanOrEqualDot,
    LessThanOrEqualDot,
    And,
    Or,
    True,
    False,
    If,
    Else,
    Fn,
    Return,
    Echo,
    Loop,
    While,
    Break,
    Continue,
    For,
    In,
    Pub,
    Use,
    As,
    Identifier,
    BinaryInteger,
    OctalInteger,
    HexInteger,
    Integer,
    Float,
    FloatExponent,
    String,
    MultiLineString,
}

/// The position of a kind in the declaration order of [`TokenKind`].
pub open spec fn kind_index(k: TokenKind) -> u32 {
    match k {
        TokenKind::Whitespace => 0,
        TokenKind::DocComment => 1,
        TokenKind::Comment => 2,
        TokenKind::NewLine => 3,
        TokenKind::LeftParenthesis => 4,
        TokenKind::RightParenthesis => 5,
        TokenKind::LeftBrace => 6,
        TokenKind::RightBrace => 7,
        TokenKind::LeftBracket => 8,
        TokenKind::RightBracket => 9,
        TokenKind::Comma => 10,
        TokenKind::Colon => 11,
        TokenKind::DotDot => 12,
        TokenKind::Dot => 13,
        TokenKind::Plus => 14,
        TokenKind::Minus => 15,
        TokenKind::Asterisk => 16,
        TokenKind::Slash => 17,
        TokenKind::Percent => 18,
        TokenKind::PlusDot => 19,
        TokenKind::MinusDot => 20,
        TokenKind::AsteriskDot => 21,
        TokenKind::SlashDot => 22,
        TokenKind::Equals => 23,
        TokenKind::EqualsEquals => 24,
        TokenKind::NotEquals => 25,
        TokenKind::Bang => 26,
        TokenKind::GreaterThan => 27,
        TokenKind::LessThan => 28,
        TokenKind::GreaterThanOrEqual => 29,
        TokenKind::LessThanOrEqual => 30,
        TokenKind::GreaterThanDot => 31,
        TokenKind::LessThanDot => 32,
        TokenKind::GreaterThanOrEqualDot => 33,
        TokenKind::LessThanOrEqualDot => 34,
        TokenKind::And => 35,
        TokenKind::Or => 36,
        TokenKind::True => 37,
        TokenKind::False => 38,
        TokenKind::If => 39,
        TokenKind::Else => 40,
        TokenKind::Fn => 41,
        TokenKind::Return => 42,
        TokenKind::Echo => 43,
        TokenKind::Loop => 44,
        TokenKind::While => 45,
        TokenKind::Break => 46,
        TokenKind::Continue => 47,
        TokenKind::For => 48,
        TokenKind::In => 49,
        TokenKind::Pub => 50,
        TokenKind::Use => 51,
        TokenKind::As => 52,
        TokenKind::Identifier => 53,
        TokenKind::BinaryInteger => 54,
        TokenKind::OctalInteger => 55,
        TokenKind::HexInteger => 56,
        TokenKind::Integer => 57,
        TokenKind::Float => 58,
        TokenKind::FloatExponent => 59,
        TokenKind::String => 60,
        TokenKind::MultiLineString => 61,
    }
}

/// Number of token kinds.
pub const TOKEN_KIND_COUNT: u32 = 62;

impl TokenKind {
    /// The position of this kind in declaration order (its discriminant).
    pub fn index(self) -> (r: u32)
        ensures
            r == kind_index(self),
            r < TOKEN_KIND_COUNT,
    {
        match self {
            TokenKind::Whitespace => 0,
            TokenKind::DocComment => 1,
            TokenKind::Comment => 2,
            TokenKind::NewLine => 3,
            TokenKind::LeftParenthesis => 4,
            TokenKind::RightParenthesis => 5,
            TokenKind::LeftBrace => 6,
            TokenKind::RightBrace => 7,
            TokenKind::LeftBracket => 8,
            TokenKind::RightBracket => 9,
            TokenKind::Comma => 10,
            TokenKind::Colon => 11,
            TokenKind::DotDot => 12,
            TokenKind::Dot => 13,
            TokenKind::Plus => 14,
            TokenKind::Minus => 15,
            TokenKind::Asterisk => 16,
            TokenKind::Slash => 17,
            TokenKind::Percent => 18,
            TokenKind::PlusDot => 19,
            TokenKind::MinusDot => 20,
            TokenKind::AsteriskDot => 21,
            TokenKind::SlashDot => 22,
            TokenKind::Equals => 23,
            TokenKind::EqualsEquals => 24,
            TokenKind::NotEquals => 25,
            TokenKind::Bang => 26,
            TokenKind::GreaterThan => 27,
            TokenKind::LessThan => 28,
            TokenKind::GreaterThanOrEqual => 29,
            TokenKind::LessThanOrEqual => 30,
            TokenKind::GreaterThanDot => 31,
            TokenKind::LessThanDot => 32,
            TokenKind::GreaterThanOrEqualDot => 33,
            TokenKind::LessThanOrEqualDot => 34,
            TokenKind::And => 35,
            TokenKind::Or => 36,
            TokenKind::True => 37,
            TokenKind::False => 38,
            TokenKind::If => 39,
            TokenKind::Else => 40,
            TokenKind::Fn => 41,
            TokenKind::Return => 42,
            TokenKind::Echo => 43,
            TokenKind::Loop => 44,
            TokenKind::While => 45,
            TokenKind::Break => 46,
            TokenKind::Continue => 47,
            TokenKind::For => 48,
            TokenKind::In => 49,
            TokenKind::Pub => 50,
            TokenKind::Use => 51,
            TokenKind::As => 52,
            TokenKind::Identifier => 53,
            TokenKind::BinaryInteger => 54,
            TokenKind::OctalInteger => 55,
            TokenKind::HexInteger => 56,
            TokenKind::Integer => 57,
            TokenKind::Float => 58,
            TokenKind::FloatExponent => 59,
            TokenKind::String => 60,
            TokenKind::MultiLineString => 61,
        }
    }
}

/// Distinct kinds have distinct indices.
pub proof fn lemma_kind_index_injective(a: TokenKind, b: TokenKind)
    ensures
        kind_index(a) == kind_index(b) <==> a == b,
{
}

} // verus!
