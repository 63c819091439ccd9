use toy_lang::grammar::expression::Operator as ExprOperator;
use toy_lang::grammar::statement::Operator;
use toy_lang::token::TokenKind;

#[test]
fn expression_prefix_binding_powers() {
    assert_eq!(ExprOperator::Minus.prefix_binding_power(), Some(((), 11)));
    assert_eq!(ExprOperator::Bang.prefix_binding_power(), Some(((), 11)));
    assert_eq!(ExprOperator::Return.prefix_binding_power(), Some(((), 1)));
    assert_eq!(ExprOperator::Echo.prefix_binding_power(), Some(((), 1)));
    assert_eq!(ExprOperator::Plus.prefix_binding_power(), None);
}

#[test]
fn expression_postfix_binding_powers() {
    assert_eq!(ExprOperator::Call.postfix_binding_power(), Some((13, ())));
    assert_eq!(ExprOperator::Plus.postfix_binding_power(), None);
}

#[test]
fn expression_infix_binding_powers() {
    assert_eq!(ExprOperator::Equal.infix_binding_power(), Some((2, 1)));
    assert_eq!(ExprOperator::And.infix_binding_power(), Some((3, 4)));
    assert_eq!(ExprOperator::Or.infix_binding_power(), Some((3, 4)));
    assert_eq!(ExprOperator::LessEqual.infix_binding_power(), Some((5, 6)));
    assert_eq!(ExprOperator::Plus.infix_binding_power(), Some((7, 8)));
    assert_eq!(ExprOperator::Slash.infix_binding_power(), Some((9, 10)));
    assert_eq!(ExprOperator::Field.infix_binding_power(), Some((16, 15)));
    assert_eq!(ExprOperator::Bang.infix_binding_power(), None);
    assert_eq!(ExprOperator::If.infix_binding_power(), None);
}

#[test]
fn statement_operator_from_token() {
    assert_eq!(Operator::try_from_token(TokenKind::Plus), Ok(Operator::Plus));
    assert_eq!(Operator::try_from_token(TokenKind::SlashDot), Ok(Operator::SlashDot));
    assert_eq!(Operator::try_from_token(TokenKind::Bang), Ok(Operator::Bang));
    assert_eq!(Operator::try_from_token(TokenKind::And), Ok(Operator::And));
    assert_eq!(Operator::try_from_token(TokenKind::Identifier), Err(TokenKind::Identifier));
    assert_eq!(Operator::try_from_token(TokenKind::Equals), Err(TokenKind::Equals));
}

#[test]
fn statement_binding_powers_by_level() {
    assert_eq!(Operator::Or.infix_binding_power(), Some((1, 2)));
    assert_eq!(Operator::And.infix_binding_power(), Some((3, 4)));
    assert_eq!(Operator::EqualsEquals.infix_binding_power(), Some((5, 6)));
    assert_eq!(Operator::LessThanDot.infix_binding_power(), Some((7, 8)));
    assert_eq!(Operator::MinusDot.infix_binding_power(), Some((9, 10)));
    assert_eq!(Operator::Percent.infix_binding_power(), Some((11, 12)));
    assert_eq!(Operator::Bang.infix_binding_power(), None);
    assert_eq!(Operator::Bang.prefix_binding_power(), Some(((), 15)));
    assert_eq!(Operator::Minus.prefix_binding_power(), Some(((), 15)));
    assert_eq!(Operator::Plus.prefix_binding_power(), None);
}

#[test]
fn multiplication_binds_tighter_than_addition() {
    let (_, add_right) = Operator::Plus.infix_binding_power().unwrap();
    let (mul_left, _) = Operator::Asterisk.infix_binding_power().unwrap();
    assert!(mul_left > add_right);
    let (_, minus_prefix) = Operator::Minus.prefix_binding_power().unwrap();
    let (_, mul_right) = Operator::Asterisk.infix_binding_power().unwrap();
    assert!(minus_prefix > mul_right);
}
