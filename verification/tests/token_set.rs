use toy_lang::token::TokenKind;
use toy_lang::token_set::TokenSet;

#[test]
fn empty_set_contains_nothing() {
    assert!(!TokenSet::empty().contains(TokenKind::Integer));
    assert!(!TokenSet::empty().contains(TokenKind::Identifier));
}

#[test]
fn single_element_set() {
    let set = TokenSet::single(TokenKind::Integer);
    assert!(set.contains(TokenKind::Integer));
    assert!(!set.contains(TokenKind::Identifier));
}

#[test]
fn multi_element_set() {
    let set = TokenSet::new(&[TokenKind::Integer, TokenKind::Float, TokenKind::Identifier]);
    assert!(set.contains(TokenKind::Integer));
    assert!(set.contains(TokenKind::Float));
    assert!(set.contains(TokenKind::Identifier));
    assert!(!set.contains(TokenKind::Plus));
}

#[test]
fn union_sets() {
    let a = TokenSet::new(&[TokenKind::Integer, TokenKind::Float]);
    let b = TokenSet::new(&[TokenKind::Identifier, TokenKind::String]);
    let union = a.union(b);

    assert!(union.contains(TokenKind::Integer));
    assert!(union.contains(TokenKind::Float));
    assert!(union.contains(TokenKind::Identifier));
    assert!(union.contains(TokenKind::String));
    assert!(!union.contains(TokenKind::Plus));
}

#[test]
fn union_is_commutative_on_examples() {
    let a = TokenSet::new(&[TokenKind::Comma, TokenKind::Dot]);
    let b = TokenSet::single(TokenKind::MultiLineString);
    assert!(a.union(b) == b.union(a));
}

#[test]
fn default_set_is_empty() {
    let set = TokenSet::default();
    assert!(set == TokenSet::empty());
    assert!(!set.contains(TokenKind::Whitespace));
    assert!(!set.contains(TokenKind::MultiLineString));
}

#[test]
fn first_and_last_kinds_fit() {
    let set = TokenSet::new(&[TokenKind::Whitespace, TokenKind::MultiLineString]);
    assert!(set.contains(TokenKind::Whitespace));
    assert!(set.contains(TokenKind::MultiLineString));
    assert!(!set.contains(TokenKind::String));
}

#[test]
fn kind_indices_are_positions() {
    assert_eq!(TokenKind::Whitespace.index(), 0);
    assert_eq!(TokenKind::Integer.index(), 57);
    assert_eq!(TokenKind::MultiLineString.index(), 61);
}

#[test]
fn union_is_associative_and_idempotent() {
    let a = TokenSet::new(&[TokenKind::Plus, TokenKind::Minus]);
    let b = TokenSet::single(TokenKind::Asterisk);
    let c = TokenSet::new(&[TokenKind::Minus, TokenKind::Slash]);
    assert!(a.union(b).union(c) == a.union(b.union(c)));
    assert!(a.union(a) == a);
    assert!(a.union(b) == b.union(a));
    assert!(a.union(TokenSet::empty()) == a);
}
