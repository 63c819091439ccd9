//! A set of token kinds stored as a 64-bit mask, one bit per kind.
use vstd::prelude::*;

use crate::token::{kind_index, TokenKind, TOKEN_KIND_COUNT};

verus! {

/// True when bit `i` of `bits` is set.
pub open spec fn bit_set(bits: u64, i: u32) -> bool {
    (bits >> i) & 1u64 == 1u64
}

/// Efficient set of token kinds implemented as a bitset (up to 64 kinds).
#[derive(Clone, Copy, PartialEq, Eq, Structural)]
pub struct TokenSet(u64);

proof fn lemma_bit_or(a: u64, b: u64, i: u32)
    requires
        i < 64,
    ensures
        bit_set(a | b, i) == (bit_set(a, i) || bit_set(b, i)),
{
    assert(((a | b) >> i) & 1u64 == 1u64 <==> ((a >> i) & 1u64 == 1u64 || (b >> i) & 1u64 == 1u64))
        by (bit_vector)
        requires
            i < 64,
    ;
}

proof fn lemma_bit_single(i: u32, j: u32)
    requires
        i < 64,
        j < 64,
    ensures
        bit_set(1u64 << i, j) == (i == j),
{
    assert(((1u64 << i) >> j) & 1u64 == 1u64 <==> i == j) by (bit_vector)
        requires
            i < 64,
            j < 64,
    ;
}

proof fn lemma_bit_zero(i: u32)
    requires
        i < 64,
    ensures
        !bit_set(0u64, i),
{
    assert((0u64 >> i) & 1u64 != 1u64) by (bit_vector)
        requires
            i < 64,
    ;
}

proof fn lemma_bit_test(a: u64, i: u32)
    requires
        i < 64,
    ensures
        (a & (1u64 << i) != 0) == bit_set(a, i),
{
    assert((a & (1u64 << i) != 0) <==> ((a >> i) & 1u64 == 1u64)) by (bit_vector)
        requires
            i < 64,
    ;
}

impl TokenSet {
    /// The raw mask.
    pub closed spec fn bits(self) -> u64 {
        self.0
    }

    /// Membership of a kind in the set.
    pub open spec fn has(self, kind: TokenKind) -> bool {
        bit_set(self.bits(), kind_index(kind))
    }

    /// The empty set.
    pub fn empty() -> (r: TokenSet)
        ensures
            r.bits() == 0,
            forall|k: TokenKind| !r.has(k),
    {
        assert forall|k: TokenKind| !bit_set(0u64, kind_index(k)) by {
            lemma_bit_zero(kind_index(k));
        }
        TokenSet(0)
    }

    /// The set holding exactly the given kinds.
    pub fn new(kinds: &[TokenKind]) -> (r: TokenSet)
        ensures
            forall|k: TokenKind| r.has(k) <==> kinds@.contains(k),
    {
        let mut bits: u64 = 0;
        let mut i: usize = 0;
        proof {
            assert forall|k: TokenKind| !bit_set(0u64, kind_index(k)) by {
                lemma_bit_zero(kind_index(k));
            }
        }
        while i < kinds.len()
            invariant
                i <= kinds@.len(),
                forall|k: TokenKind|
                    bit_set(bits, kind_index(k)) <==> kinds@.subrange(0, i as int).contains(k),
            decreases kinds@.len() - i,
        {
            let idx = kinds[i].index();
            let old_bits = bits;
            bits = bits | (1u64 << idx);
            proof {
                assert forall|k: TokenKind|
                    bit_set(bits, kind_index(k)) <==> kinds@.subrange(0, i + 1).contains(k) by {
                    let prefix = kinds@.subrange(0, i as int);
                    assert(kinds@.subrange(0, i + 1) =~= prefix.push(kinds@[i as int]));
                    lemma_bit_or(old_bits, 1u64 << idx, kind_index(k));
                    lemma_bit_single(idx, kind_index(k));
                    crate::token::lemma_kind_index_injective(k, kinds@[i as int]);
                    assert(prefix.push(kinds@[i as int]).contains(k) <==> (prefix.contains(k)
                        || k == kinds@[i as int])) by {
                        if k == kinds@[i as int] {
                            assert(prefix.push(kinds@[i as int])[i as int] == k);
                        }
                        if prefix.contains(k) {
                            let j = choose|j: int| 0 <= j < prefix.len() && prefix[j] == k;
                            assert(prefix.push(kinds@[i as int])[j] == k);
                        }
                    }
                }
            }
            i = i + 1;
        }
        assert(kinds@.subrange(0, kinds@.len() as int) =~= kinds@);
        TokenSet(bits)
    }

    /// The set holding only `kind`.
    pub fn single(kind: TokenKind) -> (r: TokenSet)
        ensures
            forall|k: TokenKind| r.has(k) <==> k == kind,
    {
        let idx = kind.index();
        proof {
            assert forall|k: TokenKind| bit_set(1u64 << idx, kind_index(k)) <==> k == kind by {
                lemma_bit_single(idx, kind_index(k));
                crate::token::lemma_kind_index_injective(k, kind);
            }
        }
        TokenSet(1u64 << idx)
    }

    /// The set of kinds in either set.
    pub fn union(self, other: TokenSet) -> (r: TokenSet)
        ensures
            r.bits() == self.bits() | other.bits(),
            forall|k: TokenKind| r.has(k) <==> (self.has(k) || other.has(k)),
    {
        proof {
            assert forall|k: TokenKind|
                bit_set(self.0 | other.0, kind_index(k)) <==> (self.has(k) || other.has(k)) by {
                lemma_bit_or(self.0, other.0, kind_index(k));
            }
        }
        TokenSet(self.0 | other.0)
    }

    /// Whether `kind` is in the set.
    pub fn contains(&self, kind: TokenKind) -> (r: bool)
        ensures
            r == self.has(kind),
    {
        let idx = kind.index();
        proof {
            lemma_bit_test(self.0, idx);
        }
        self.0 & (1u64 << idx) != 0
    }
}

impl Default for TokenSet {
    fn default() -> (r: TokenSet)
        ensures
            r.bits() == 0,
            forall|k: TokenKind| !r.has(k),
    {
        TokenSet::empty()
    }
}

/// Nothing is in the empty set.
pub proof fn law_empty_contains_nothing(k: TokenKind)
    ensures
        !bit_set(0u64, kind_index(k)),
{
    lemma_bit_zero(kind_index(k));
}

/// Two sets with the same mask are the same set.
pub proof fn law_same_bits_same_set(a: TokenSet, b: TokenSet)
    requires
        a.bits() == b.bits(),
    ensures
        a == b,
{
}

/// Union is commutative: both orders give the same mask.
pub proof fn law_union_commutative(a: TokenSet, b: TokenSet)
    ensures
        a.bits() | b.bits() == b.bits() | a.bits(),
{
    let x = a.bits();
    let y = b.bits();
    assert(x | y == y | x) by (bit_vector);
}

/// Union is associative: grouping does not change the mask.
pub proof fn law_union_associative(a: TokenSet, b: TokenSet, c: TokenSet)
    ensures
        (a.bits() | b.bits()) | c.bits() == a.bits() | (b.bits() | c.bits()),
{
    let x = a.bits();
    let y = b.bits();
    let z = c.bits();
    assert((x | y) | z == x | (y | z)) by (bit_vector);
}

/// Union is idempotent: a set united with itself is unchanged.
pub proof fn law_union_idempotent(a: TokenSet)
    ensures
        a.bits() | a.bits() == a.bits(),
{
    let x = a.bits();
    assert(x | x == x) by (bit_vector);
}

/// The empty set is the identity of union.
pub proof fn law_union_empty(a: TokenSet)
    ensures
        a.bits() | 0u64 == a.bits(),
{
    let x = a.bits();
    assert(x | 0u64 == x) by (bit_vector);
}

/// A kind is in the union of two sets exactly when it is in one of them.
pub proof fn law_union_membership(a: TokenSet, b: TokenSet, k: TokenKind)
    ensures
        bit_set(a.bits() | b.bits(), kind_index(k)) == (a.has(k) || b.has(k)),
{
    lemma_bit_or(a.bits(), b.bits(), kind_index(k));
}

} // verus!
