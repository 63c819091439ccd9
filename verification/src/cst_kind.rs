//! Kinds of the nodes and tokens of the concrete syntax tree.
use vstd::prelude::*;

use crate::token::TokenKind;

verus! {

/// The kind of a syntax tree element: every token kind, plus the node kinds.
#[derive(Debug, Clone, Copy, PartialEq, Eq, Hash, PartialOrd, Ord, Structural)]
pub enum SyntaxKind {
    Error,
    Whitespace,
    Comment,
    DocComment,
    NewLine,
    LeftParenthesis,
    RightParenthesis,
    LeftBrace,
    RightBrace,
    LeftBracket,
    RightBracket,
    Comma,
    Colon,
    DotDot,
    Dot,
    Plus,
    Minus,
    Asterisk,
    Slash,
    Percent,
    PlusDot,
    MinusDot,
    AsteriskDot,
    SlashDot,
    Equals,
    EqualsEquals,
    NotEquals,
    Bang,
    GreaterThan,
    LessThan,
    GreaterThanOrEqual,
    LessThanOrEqual,
    GreaterThanDot,
    LessThanDot,
    GreaterThanOrEqualDot,
    LessThanOrEqualDot,
    AndKeyword,
    OrKeyword,
    TrueKeyword,
    FalseKeyword,
    IfKeyword,
    ElseKeyword,
    FnKeyword,
    ReturnKeyword,
    EchoKeyword,
    LoopKeyword,
    WhileKeyword,
    BreakKeyword,
    ContinueKeyword,
    ForKeyword,
    InKeyword,
    PubKeyword,
    UseKeyword,
    AsKeyword,
    Identifier,
    BinaryInteger,
    OctalInteger,
    HexInteger,
    Integer,
    Float,
    FloatExponent,
    String,
    MultiLineString,
    Root,
    VariableDefinition,
    VariableAssignment,
    VariableReference,
    InfixExpression,
    Literal,
    ParenthesisExpression,
    PrefixExpression,
    TypeAnnotation,
    BlockExpression,
    IfExpression,
    FunctionDefinition,
    FunctionExpression,
    ParameterList,
    Parameter,
    CallExpression,
    ReturnStatement,
    EchoStatement,
    LoopExpression,
    WhileExpression,
    ForExpression,
    RangeExpression,
    BreakStatement,
    ContinueStatement,
    ListExpression,
    IndexExpression,
    SliceExpression,
    IndexAssignment,
    ListType,
    TupleExpression,
    TupleAccessExpression,
    UseStatement,
    ModulePath,
    ImportList,
    ImportItem,
    ImportAlias,
}

/// Trivia: whitespace, regular comments and newlines.
pub open spec fn spec_is_trivia(k: SyntaxKind) -> bool {
    k == SyntaxKind::Whitespace || k == SyntaxKind::Comment || k == SyntaxKind::NewLine
}

/// The syntax kind that a token kind becomes in the tree.
pub open spec fn spec_from_token(t: TokenKind) -> SyntaxKind {
    match t {
        TokenKind::Whitespace => SyntaxKind::Whitespace,
        TokenKind::DocComment => SyntaxKind::DocComment,
        TokenKind::Comment => SyntaxKind::Comment,
        TokenKind::NewLine => SyntaxKind::NewLine,
        TokenKind::LeftParenthesis => SyntaxKind::LeftParenthesis,
        TokenKind::RightParenthesis => SyntaxKind::RightParenthesis,
        TokenKind::LeftBrace => SyntaxKind::LeftBrace,
        TokenKind::RightBrace => SyntaxKind::RightBrace,
        TokenKind::LeftBracket => SyntaxKind::LeftBracket,
        TokenKind::RightBracket => SyntaxKind::RightBracket,
        TokenKind::Comma => SyntaxKind::Comma,
        TokenKind::Colon => SyntaxKind::Colon,
        TokenKind::DotDot => SyntaxKind::DotDot,
        TokenKind::Dot => SyntaxKind::Dot,
        TokenKind::Plus => SyntaxKind::Plus,
        TokenKind::Minus => SyntaxKind::Minus,
        TokenKind::Asterisk => SyntaxKind::Asterisk,
        TokenKind::Slash => SyntaxKind::Slash,
        TokenKind::Percent => SyntaxKind::Percent,
        TokenKind::PlusDot => SyntaxKind::PlusDot,
        TokenKind::MinusDot => SyntaxKind::MinusDot,
        TokenKind::AsteriskDot => SyntaxKind::AsteriskDot,
        TokenKind::SlashDot => SyntaxKind::SlashDot,
        TokenKind::Equals => SyntaxKind::Equals,
        TokenKind::EqualsEquals => SyntaxKind::EqualsEquals,
        TokenKind::NotEquals => SyntaxKind::NotEquals,
        TokenKind::Bang => SyntaxKind::Bang,
        TokenKind::GreaterThan => SyntaxKind::GreaterThan,
        TokenKind::LessThan => SyntaxKind::LessThan,
        TokenKind::GreaterThanOrEqual => SyntaxKind::GreaterThanOrEqual,
        TokenKind::LessThanOrEqual => SyntaxKind::LessThanOrEqual,
        TokenKind::GreaterThanDot => SyntaxKind::GreaterThanDot,
        TokenKind::LessThanDot => SyntaxKind::LessThanDot,
        TokenKind::GreaterThanOrEqualDot => SyntaxKind::GreaterThanOrEqualDot,
        TokenKind::LessThanOrEqualDot => SyntaxKind::LessThanOrEqualDot,
        TokenKind::And => SyntaxKind::AndKeyword,
        TokenKind::Or => SyntaxKind::OrKeyword,
        TokenKind::True => SyntaxKind::TrueKeyword,
        TokenKind::False => SyntaxKind::FalseKeyword,
        TokenKind::If => SyntaxKind::IfKeyword,
        TokenKind::Else => SyntaxKind::ElseKeyword,
        TokenKind::Fn => SyntaxKind::FnKeyword,
        TokenKind::Return => SyntaxKind::ReturnKeyword,
        TokenKind::Echo => SyntaxKind::EchoKeyword,
        TokenKind::Loop => SyntaxKind::LoopKeyword,
        TokenKind::While => SyntaxKind::WhileKeyword,
        TokenKind::Break => SyntaxKind::BreakKeyword,
        TokenKind::Continue => SyntaxKind::ContinueKeyword,
        TokenKind::For => SyntaxKind::ForKeyword,
        TokenKind::In => SyntaxKind::InKeyword,
        TokenKind::Pub => SyntaxKind::PubKeyword,
        TokenKind::Use => SyntaxKind::UseKeyword,
        TokenKind::As => SyntaxKind::AsKeyword,
        TokenKind::Identifier => SyntaxKind::Identifier,
        TokenKind::BinaryInteger => SyntaxKind::BinaryInteger,
        TokenKind::OctalInteger => SyntaxKind::OctalInteger,
        TokenKind::HexInteger => SyntaxKind::HexInteger,
        TokenKind::Integer => SyntaxKind::Integer,
        TokenKind::Float => SyntaxKind::Float,
        TokenKind::FloatExponent => SyntaxKind::FloatExponent,
        TokenKind::String => SyntaxKind::String,
        TokenKind::MultiLineString => SyntaxKind::MultiLineString,
    }
}

impl SyntaxKind {
    /// Whether this kind is trivia (whitespace, comment or newline).
    pub fn is_trivia(self) -> (r: bool)
        ensures
            r == spec_is_trivia(self),
    {
        match self {
            SyntaxKind::Whitespace | SyntaxKind::Comment | SyntaxKind::NewLine => true,
            _ => false,
        }
    }

    /// The syntax kind of a token kind.
    pub fn from_token(value: TokenKind) -> (r: SyntaxKind)
        ensures
            r == spec_from_token(value),
    {
        match value {
            TokenKind::Whitespace => SyntaxKind::Whitespace,
            TokenKind::DocComment => SyntaxKind::DocComment,
            TokenKind::Comment => SyntaxKind::Comment,
            TokenKind::NewLine => SyntaxKind::NewLine,
            TokenKind::LeftParenthesis => SyntaxKind::LeftParenthesis,
            TokenKind::RightParenthesis => SyntaxKind::RightParenthesis,
            TokenKind::LeftBrace => SyntaxKind::LeftBrace,
            TokenKind::RightBrace => SyntaxKind::RightBrace,
            TokenKind::LeftBracket => SyntaxKind::LeftBracket,
            TokenKind::RightBracket => SyntaxKind::RightBracket,
            TokenKind::Comma => SyntaxKind::Comma,
            TokenKind::Colon => SyntaxKind::Colon,
            TokenKind::DotDot => SyntaxKind::DotDot,
            TokenKind::Dot => SyntaxKind::Dot,
            TokenKind::Plus => SyntaxKind::Plus,
            TokenKind::Minus => SyntaxKind::Minus,
            TokenKind::Asterisk => SyntaxKind::Asterisk,
            TokenKind::Slash => SyntaxKind::Slash,
            TokenKind::Percent => SyntaxKind::Percent,
            TokenKind::PlusDot => SyntaxKind::PlusDot,
            TokenKind::MinusDot => SyntaxKind::MinusDot,
            TokenKind::AsteriskDot => SyntaxKind::AsteriskDot,
            TokenKind::SlashDot => SyntaxKind::SlashDot,
            TokenKind::Equals => SyntaxKind::Equals,
            TokenKind::EqualsEquals => SyntaxKind::EqualsEquals,
            TokenKind::NotEquals => SyntaxKind::NotEquals,
            TokenKind::Bang => SyntaxKind::Bang,
            TokenKind::GreaterThan => SyntaxKind::GreaterThan,
            TokenKind::LessThan => SyntaxKind::LessThan,
            TokenKind::GreaterThanOrEqual => SyntaxKind::GreaterThanOrEqual,
            TokenKind::LessThanOrEqual => SyntaxKind::LessThanOrEqual,
            TokenKind::GreaterThanDot => SyntaxKind::GreaterThanDot,
            TokenKind::LessThanDot => SyntaxKind::LessThanDot,
            TokenKind::GreaterThanOrEqualDot => SyntaxKind::GreaterThanOrEqualDot,
            TokenKind::LessThanOrEqualDot => SyntaxKind::LessThanOrEqualDot,
            TokenKind::And => SyntaxKind::AndKeyword,
            TokenKind::Or => SyntaxKind::OrKeyword,
            TokenKind::True => SyntaxKind::TrueKeyword,
            TokenKind::False => SyntaxKind::FalseKeyword,
            TokenKind::If => SyntaxKind::IfKeyword,
            TokenKind::Else => SyntaxKind::ElseKeyword,
            TokenKind::Fn => SyntaxKind::FnKeyword,
            TokenKind::Return => SyntaxKind::ReturnKeyword,
            TokenKind::Echo => SyntaxKind::EchoKeyword,
            TokenKind::Loop => SyntaxKind::LoopKeyword,
            TokenKind::While => SyntaxKind::WhileKeyword,
            TokenKind::Break => SyntaxKind::BreakKeyword,
            TokenKind::Continue => SyntaxKind::ContinueKeyword,
            TokenKind::For => SyntaxKind::ForKeyword,
            TokenKind::In => SyntaxKind::InKeyword,
            TokenKind::Pub => SyntaxKind::PubKeyword,
            TokenKind::Use => SyntaxKind::UseKeyword,
            TokenKind::As => SyntaxKind::AsKeyword,
            TokenKind::Identifier => SyntaxKind::Identifier,
            TokenKind::BinaryInteger => SyntaxKind::BinaryInteger,
            TokenKind::OctalInteger => SyntaxKind::OctalInteger,
            TokenKind::HexInteger => SyntaxKind::HexInteger,
            TokenKind::Integer => SyntaxKind::Integer,
            TokenKind::Float => SyntaxKind::Float,
            TokenKind::FloatExponent => SyntaxKind::FloatExponent,
            TokenKind::String => SyntaxKind::String,
            TokenKind::MultiLineString => SyntaxKind::MultiLineString,
        }
    }
}

/// Distinct token kinds become distinct syntax kinds.
pub proof fn law_from_token_injective(a: TokenKind, b: TokenKind)
    ensures
        spec_from_token(a) == spec_from_token(b) <==> a == b,
{
}

/// A token is trivia in the tree exactly when it is whitespace, a regular
/// comment or a newline token (a doc comment is not trivia).
pub proof fn law_from_token_trivia(t: TokenKind)
    ensures
        spec_is_trivia(spec_from_token(t)) <==> (t == TokenKind::Whitespace || t == TokenKind::Comment
            || t == TokenKind::NewLine),
{
}

} // verus!
