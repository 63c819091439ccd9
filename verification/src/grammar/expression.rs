//! Operators of the first expression grammar, with their binding powers.
use vstd::prelude::*;

verus! {

/// Operators of the first expression grammar.
#[derive(Debug, Clone, Copy, PartialEq, Eq, Structural)]
pub enum Operator {
    Plus,
    Minus,
    Asterisk,
    Slash,
    Bang,
    Less,
    Greater,
    Equal,
    BangEqual,
    LessEqual,
    GreaterEqual,
    EqualEqual,
    And,
    Or,
    Call,
    For,
    Fn,
    Return,
    Echo,
    Field,
    Let,
    Loop,
    While,
    Block,
    Root,
    If,
}

/// Right binding power of the prefix operators.
pub open spec fn spec_prefix_bp(op: Operator) -> Option<u8> {
    match op {
        Operator::Return | Operator::Echo => Some(1u8),
        Operator::Bang | Operator::Minus => Some(11u8),
        _ => None,
    }
}

/// Left binding power of the postfix operators.
pub open spec fn spec_postfix_bp(op: Operator) -> Option<u8> {
    match op {
        Operator::Call => Some(13u8),
        _ => None,
    }
}

/// Left and right binding powers of the infix operators.
pub open spec fn spec_infix_bp(op: Operator) -> Option<(u8, u8)> {
    match op {
        Operator::Equal => Some((2u8, 1u8)),
        Operator::And | Operator::Or => Some((3u8, 4u8)),
        Operator::BangEqual | Operator::EqualEqual | Operator::Less | Operator::LessEqual
        | Operator::Greater | Operator::GreaterEqual => Some((5u8, 6u8)),
        Operator::Plus | Operator::Minus => Some((7u8, 8u8)),
        Operator::Asterisk | Operator::Slash => Some((9u8, 10u8)),
        Operator::Field => Some((16u8, 15u8)),
        _ => None,
    }
}

impl Operator {
    /// Binding power of the operator used as a prefix, if it is one.
    pub fn prefix_binding_power(&self) -> (r: Option<((), u8)>)
        ensures
            r matches Some(p) ==> spec_prefix_bp(*self) == Some(p.1),
            r is None <==> spec_prefix_bp(*self) is None,
    {
        match self {
            Operator::Return | Operator::Echo => Some(((), 1)),
            Operator::Bang | Operator::Minus => Some(((), 11)),
            _ => None,
        }
    }

    /// Binding power of the operator used as a postfix, if it is one.
    pub fn postfix_binding_power(&self) -> (r: Option<(u8, ())>)
        ensures
            r matches Some(p) ==> spec_postfix_bp(*self) == Some(p.0),
            r is None <==> spec_postfix_bp(*self) is None,
    {
        match self {
            Operator::Call => Some((13, ())),
            _ => None,
        }
    }

    /// Left and right binding powers of the operator used infix, if it is one.
    pub fn infix_binding_power(&self) -> (r: Option<(u8, u8)>)
        ensures
            r == spec_infix_bp(*self),
    {
        match self {
            Operator::Equal => Some((2, 1)),
            Operator::And | Operator::Or => Some((3, 4)),
            Operator::BangEqual | Operator::EqualEqual | Operator::Less | Operator::LessEqual
            | Operator::Greater | Operator::GreaterEqual => Some((5, 6)),
            Operator::Plus | Operator::Minus => Some((7, 8)),
            Operator::Asterisk | Operator::Slash => Some((9, 10)),
            Operator::Field => Some((16, 15)),
            _ => None,
        }
    }
}

/// The precedence tier of an infix operator, loosest first: assignment,
/// the logical operators, the comparisons, the additive operators, the
/// multiplicative operators, and field access.
pub open spec fn precedence_tier(op: Operator) -> int {
    match op {
        Operator::Equal => 0,
        Operator::And | Operator::Or => 1,
        Operator::BangEqual | Operator::EqualEqual | Operator::Less | Operator::LessEqual
        | Operator::Greater | Operator::GreaterEqual => 2,
        Operator::Plus | Operator::Minus => 3,
        Operator::Asterisk | Operator::Slash => 4,
        Operator::Field => 5,
        _ => -1,
    }
}

/// Exactly the operators of a tier are infix operators.
pub proof fn law_infix_operators_tiered(op: Operator)
    ensures
        spec_infix_bp(op) is Some <==> precedence_tier(op) >= 0,
{
}

/// An operator of a higher tier binds tighter than one of a lower tier:
/// `1 + 2 * 3` groups as `1 + (2 * 3)`, `a < b + c` as `a < (b + c)`.
pub proof fn law_expression_precedence(a: Operator, b: Operator)
    requires
        0 <= precedence_tier(a) < precedence_tier(b),
    ensures
        spec_infix_bp(a) is Some,
        spec_infix_bp(b) is Some,
        spec_infix_bp(a).unwrap().1 < spec_infix_bp(b).unwrap().0,
        spec_infix_bp(a).unwrap().0 < spec_infix_bp(b).unwrap().0,
{
}

/// Operators of one tier bind alike.
pub proof fn law_same_tier_same_power(a: Operator, b: Operator)
    requires
        0 <= precedence_tier(a),
        precedence_tier(a) == precedence_tier(b),
    ensures
        spec_infix_bp(a) == spec_infix_bp(b),
{
}

/// Assignment and field access associate to the right; every other infix
/// operator associates to the left.
pub proof fn law_associativity(op: Operator)
    requires
        spec_infix_bp(op) is Some,
    ensures
        (op == Operator::Equal || op == Operator::Field) <==> spec_infix_bp(op).unwrap().0
            > spec_infix_bp(op).unwrap().1,
{
}

/// Arithmetic negation and `!` bind tighter than every infix operator except
/// field access.
pub proof fn law_unary_binds_tighter(op: Operator)
    requires
        spec_infix_bp(op) is Some,
        op != Operator::Field,
    ensures
        spec_infix_bp(op).unwrap().0 < 11 && spec_infix_bp(op).unwrap().1 < 11,
{
}

} // verus!
