use toy_lang::hir::{Ident, Interner};

#[test]
fn interning_gives_consecutive_keys() {
    let mut i = Interner::new();
    assert_eq!(i.get_or_intern("a"), Ident(0));
    assert_eq!(i.get_or_intern("b"), Ident(1));
    assert_eq!(i.len(), 2);
}

#[test]
fn interning_twice_gives_the_same_key() {
    let mut i = Interner::new();
    let first = i.get_or_intern("x");
    i.get_or_intern("y");
    let second = i.get_or_intern("x");
    assert_eq!(first, second);
    assert_eq!(i.len(), 2);
}

#[test]
fn resolve_gives_back_the_interned_text() {
    let mut i = Interner::new();
    let a = i.get_or_intern("alpha");
    let b = i.get_or_intern("");
    assert_eq!(i.resolve(a), "alpha");
    assert_eq!(i.resolve(b), "");
}
