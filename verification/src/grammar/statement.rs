//! Operators of the statement-level expression grammar: the token each one
//! comes from, and its binding powers.
use vstd::prelude::*;

use crate::token::TokenKind;

verus! {

/// Infix and prefix operators of expressions.
#[derive(Debug, Clone, Copy, PartialEq, Eq, Structural)]
pub enum Operator {
    Plus,
    Minus,
    Asterisk,
    Slash,
    Percent,
    PlusDot,
    MinusDot,
    AsteriskDot,
    SlashDot,
    EqualsEquals,
    NotEquals,
    GreaterThan,
    LessThan,
    GreaterThanOrEqual,
    LessThanOrEqual,
    GreaterThanDot,
    LessThanDot,
    GreaterThanOrEqualDot,
    LessThanOrEqualDot,
    And,
    Or,
    Bang,
}

/// The operator a token stands for, if it stands for one.
pub open spec fn spec_operator_of(t: TokenKind) -> Option<Operator> {
    match t {
        TokenKind::Plus => Some(Operator::Plus),
        TokenKind::Minus => Some(Operator::Minus),
        TokenKind::Asterisk => Some(Operator::Asterisk),
        TokenKind::Slash => Some(Operator::Slash),
        TokenKind::Percent => Some(Operator::Percent),
        TokenKind::PlusDot => Some(Operator::PlusDot),
        TokenKind::MinusDot => Some(Operator::MinusDot),
        TokenKind::AsteriskDot => Some(Operator::AsteriskDot),
        TokenKind::SlashDot => Some(Operator::SlashDot),
        TokenKind::EqualsEquals => Some(Operator::EqualsEquals),
        TokenKind::NotEquals => Some(Operator::NotEquals),
        TokenKind::GreaterThan => Some(Operator::GreaterThan),
        TokenKind::LessThan => Some(Operator::LessThan),
        TokenKind::GreaterThanOrEqual => Some(Operator::GreaterThanOrEqual),
        TokenKind::LessThanOrEqual => Some(Operator::LessThanOrEqual),
        TokenKind::GreaterThanDot => Some(Operator::GreaterThanDot),
        TokenKind::LessThanDot => Some(Operator::LessThanDot),
        TokenKind::GreaterThanOrEqualDot => Some(Operator::GreaterThanOrEqualDot),
        TokenKind::LessThanOrEqualDot => Some(Operator::LessThanOrEqualDot),
        TokenKind::And => Some(Operator::And),
        TokenKind::Or => Some(Operator::Or),
        TokenKind::Bang => Some(Operator::Bang),
        _ => None,
    }
}

/// Right binding power of the prefix operators.
pub open spec fn spec_prefix_bp(op: Operator) -> Option<u8> {
    match op {
        Operator::Bang | Operator::Minus => Some(15u8),
        _ => None,
    }
}

/// Precedence level of an infix operator, lowest first: `or`, `and`,
/// equality, comparison, additive, multiplicative.
pub open spec fn spec_level(op: Operator) -> u8 {
    match op {
        Operator::Or => 0,
        Operator::And => 1,
        Operator::EqualsEquals | Operator::NotEquals => 2,
        Operator::GreaterThan | Operator::LessThan | Operator::GreaterThanOrEqual
        | Operator::LessThanOrEqual | Operator::GreaterThanDot | Operator::LessThanDot
        | Operator::GreaterThanOrEqualDot | Operator::LessThanOrEqualDot => 3,
        Operator::Plus | Operator::Minus | Operator::PlusDot | Operator::MinusDot => 4,
        _ => 5,
    }
}

/// Left and right binding powers of the infix operators: level `n` binds
/// with `(2n + 1, 2n + 2)`; `!` is prefix only.
pub open spec fn spec_infix_bp(op: Operator) -> Option<(u8, u8)> {
    if op == Operator::Bang {
        None
    } else {
        Some(((2 * spec_level(op) + 1) as u8, (2 * spec_level(op) + 2) as u8))
    }
}

impl Operator {
    /// The operator a token stands for; the token itself when it is none.
    pub fn try_from_token(value: TokenKind) -> (r: Result<Operator, TokenKind>)
        ensures
            r matches Ok(op) ==> spec_operator_of(value) == Some(op),
            r matches Err(t) ==> t == value && spec_operator_of(value) is None,
    {
        match value {
            TokenKind::Plus => Ok(Operator::Plus),
            TokenKind::Minus => Ok(Operator::Minus),
            TokenKind::Asterisk => Ok(Operator::Asterisk),
            TokenKind::Slash => Ok(Operator::Slash),
            TokenKind::Percent => Ok(Operator::Percent),
            TokenKind::PlusDot => Ok(Operator::PlusDot),
            TokenKind::MinusDot => Ok(Operator::MinusDot),
            TokenKind::AsteriskDot => Ok(Operator::AsteriskDot),
            TokenKind::SlashDot => Ok(Operator::SlashDot),
            TokenKind::EqualsEquals => Ok(Operator::EqualsEquals),
            TokenKind::NotEquals => Ok(Operator::NotEquals),
            TokenKind::GreaterThan => Ok(Operator::GreaterThan),
            TokenKind::LessThan => Ok(Operator::LessThan),
            TokenKind::GreaterThanOrEqual => Ok(Operator::GreaterThanOrEqual),
            TokenKind::LessThanOrEqual => Ok(Operator::LessThanOrEqual),
            TokenKind::GreaterThanDot => Ok(Operator::GreaterThanDot),
            TokenKind::LessThanDot => Ok(Operator::LessThanDot),
            TokenKind::GreaterThanOrEqualDot => Ok(Operator::GreaterThanOrEqualDot),
            TokenKind::LessThanOrEqualDot => Ok(Operator::LessThanOrEqualDot),
            TokenKind::And => Ok(Operator::And),
            TokenKind::Or => Ok(Operator::Or),
            TokenKind::Bang => Ok(Operator::Bang),
            _ => Err(value),
        }
    }

    /// Binding power of the operator used as a prefix, if it is one.
    pub fn prefix_binding_power(&self) -> (r: Option<((), u8)>)
        ensures
            r matches Some(p) ==> spec_prefix_bp(*self) == Some(p.1),
            r is None <==> spec_prefix_bp(*self) is None,
    {
        match self {
            Operator::Bang | Operator::Minus => Some(((), 15)),
            _ => None,
        }
    }

    /// Left and right binding powers of the operator used infix, if it is one.
    pub fn infix_binding_power(&self) -> (r: Option<(u8, u8)>)
        ensures
            r == spec_infix_bp(*self),
    {
        match self {
            Operator::Or => Some((1, 2)),
            Operator::And => Some((3, 4)),
            Operator::EqualsEquals | Operator::NotEquals => Some((5, 6)),
            Operator::GreaterThan | Operator::LessThan | Operator::GreaterThanOrEqual
            | Operator::LessThanOrEqual | Operator::GreaterThanDot | Operator::LessThanDot
            | Operator::GreaterThanOrEqualDot | Operator::LessThanOrEqualDot => Some((7, 8)),
            Operator::Plus | Operator::Minus | Operator::PlusDot | Operator::MinusDot => Some(
                (9, 10),
            ),
            Operator::Asterisk | Operator::Slash | Operator::Percent | Operator::AsteriskDot
            | Operator::SlashDot => Some((11, 12)),
            Operator::Bang => None,
        }
    }
}

/// Every infix operator associates to the left: its right binding power is
/// one more than its left one.
pub proof fn law_left_associative(op: Operator)
    requires
        spec_infix_bp(op) is Some,
    ensures
        spec_infix_bp(op).unwrap().1 == spec_infix_bp(op).unwrap().0 + 1,
{
}

/// An operator of a higher level binds tighter than every operator of a
/// lower level, on both sides.
pub proof fn law_precedence_ordered(a: Operator, b: Operator)
    requires
        spec_infix_bp(a) is Some,
        spec_infix_bp(b) is Some,
        spec_level(a) < spec_level(b),
    ensures
        spec_infix_bp(a).unwrap().1 < spec_infix_bp(b).unwrap().0,
{
}

/// Prefix operators bind tighter than every infix operator.
pub proof fn law_prefix_binds_tightest(p: Operator, op: Operator)
    requires
        spec_prefix_bp(p) is Some,
        spec_infix_bp(op) is Some,
    ensures
        spec_prefix_bp(p).unwrap() > spec_infix_bp(op).unwrap().1,
{
}

/// Every operator but `!` comes from its own token, and reading it back from
/// that token gives the operator again.
pub proof fn law_operator_tokens_distinct(a: TokenKind, b: TokenKind)
    requires
        spec_operator_of(a) is Some,
        spec_operator_of(a) == spec_operator_of(b),
    ensures
        a == b,
{
}

} // verus!
