use toy_lang::cst::SyntaxKind;
use toy_lang::syntax::SyntaxKind as LegacyKind;
use toy_lang::token::TokenKind;

#[test]
fn trivia_kinds() {
    assert!(SyntaxKind::Whitespace.is_trivia());
    assert!(SyntaxKind::Comment.is_trivia());
    assert!(SyntaxKind::NewLine.is_trivia());
    assert!(!SyntaxKind::DocComment.is_trivia());
    assert!(!SyntaxKind::Identifier.is_trivia());
    assert!(!SyntaxKind::Root.is_trivia());
}

#[test]
fn token_kinds_map_to_syntax_kinds() {
    assert_eq!(SyntaxKind::from_token(TokenKind::Plus), SyntaxKind::Plus);
    assert_eq!(SyntaxKind::from_token(TokenKind::And), SyntaxKind::AndKeyword);
    assert_eq!(SyntaxKind::from_token(TokenKind::True), SyntaxKind::TrueKeyword);
    assert_eq!(SyntaxKind::from_token(TokenKind::MultiLineString), SyntaxKind::MultiLineString);
    assert_eq!(SyntaxKind::from_token(TokenKind::DocComment), SyntaxKind::DocComment);
}

#[test]
fn legacy_trivia_kinds() {
    assert!(LegacyKind::Whitespace.is_trivia());
    assert!(LegacyKind::Comment.is_trivia());
}
