//! Syntax kinds of the parser's own syntax tree, a smaller kind set than
//! that of the concrete syntax tree.
use vstd::prelude::*;

verus! {

/// Kinds of the parser's syntax tree (tokens, then nodes).
#[derive(Debug, Clone, Copy, PartialEq, Eq, Hash, PartialOrd, Ord, Structural)]
pub enum SyntaxKind {
    Error,
    Whitespace,
    Comment,
    NewLine,
    LeftParenthesis,
    RightParenthesis,
    LeftBrace,
    RightBrace,
    Comma,
    Colon,
    Plus,
    Minus,
    Asterisk,
    Slash,
    Percent,
    PlusDot,
    MinusDot,
    AsteriskDot,
    SlashDot,
    Equals,
    EqualsEquals,
    NotEquals,
    Bang,
    GreaterThan,
    LessThan,
    GreaterThanOrEqual,
    LessThanOrEqual,
    GreaterThanDot,
    LessThanDot,
    GreaterThanOrEqualDot,
    LessThanOrEqualDot,
    AndKeyword,
    OrKeyword,
    TrueKeyword,
    FalseKeyword,
    Identifier,
    BinaryInteger,
    OctalInteger,
    HexInteger,
    Integer,
    Float,
    FloatExponent,
    String,
    MultiLineString,
    Root,
    VariableDefinition,
    VariableAssignment,
    VariableReference,
    InfixExpression,
    Literal,
    ParenthesisExpression,
    PrefixExpression,
    TypeAnnotation,
    BlockExpression,
}

impl SyntaxKind {
    /// Whether this kind is trivia (whitespace, comment or newline).
    pub fn is_trivia(self) -> (r: bool)
        ensures
            r == (self == SyntaxKind::Whitespace || self == SyntaxKind::Comment || self
                == SyntaxKind::NewLine),
    {
        match self {
            SyntaxKind::Whitespace | SyntaxKind::Comment | SyntaxKind::NewLine => true,
            _ => false,
        }
    }
}

} // verus!
