//! High-level IR: items and expressions stored in an expression arena and
//! referred to by index.
use vstd::prelude::*;

verus! {

/// Index of an expression in an expression arena.
#[derive(Debug, Clone, Copy, PartialEq, Eq, Hash, Structural)]
pub struct ExprIdx(pub usize);

/// Interned identifier: the key of its text in the interner.
#[derive(Debug, Clone, Copy, PartialEq, Eq, Hash, Structural)]
pub struct Ident(pub usize);

impl Ident {
    /// The identifier with the given interner key.
    pub fn new(key: usize) -> (r: Ident)
        ensures
            r.0 == key,
    {
        Ident(key)
    }

    /// The interner key of the identifier.
    pub fn spur(self) -> (r: usize)
        ensures
            r == self.0,
    {
        self.0
    }
}

/// Module identifier for cross-module references.
#[derive(Debug, Clone, Copy, PartialEq, Eq, Hash, Structural)]
pub struct ModuleId(pub u32);

/// Identifier together with the module it resolves to.
#[derive(Debug, Clone, Copy, PartialEq, Eq, Hash, Structural)]
pub enum ResolvedIdent {
    /// Identifier of the current module.
    Local(Ident),
    /// Identifier of another module.
    External { module_id: ModuleId, name: Ident },
}

/// Binary operators.
#[derive(Debug, Clone, Copy, PartialEq, Eq, Structural)]
pub enum InfixOp {
    Add,
    Sub,
    Mul,
    Div,
    Mod,
    AddFloat,
    SubFloat,
    MulFloat,
    DivFloat,
    Eq,
    NotEq,
    Gt,
    Lt,
    Gte,
    Lte,
    GtFloat,
    LtFloat,
    GteFloat,
    LteFloat,
    And,
    Or,
}

/// Unary operators.
#[derive(Debug, Clone, Copy, PartialEq, Eq, Structural)]
pub enum PrefixOp {
    Neg,
    Not,
}

/// Literal values. A float literal is kept as the text of its token with the
/// digit separators removed.
#[derive(Debug, Clone, PartialEq, Eq)]
pub enum Literal {
    Integer(u64),
    Float(String),
    Boolean(bool),
    String(String),
}

/// A function parameter: name, optional type name, optional default value.
#[derive(Debug, Clone, PartialEq, Eq)]
pub struct FunctionParam {
    pub name: Ident,
    pub ty: Option<Ident>,
    pub default: Option<ExprIdx>,
}

/// Expressions.
#[derive(Debug, Clone, PartialEq, Eq)]
pub enum Expression {
    Missing,
    Literal(Literal),
    Infix { op: InfixOp, lhs: ExprIdx, rhs: ExprIdx },
    Prefix { op: PrefixOp, expr: ExprIdx },
    VariableRef { name: ResolvedIdent },
    Block { items: Vec<BlockItem>, tail: Option<ExprIdx> },
    If { condition: ExprIdx, then_branch: ExprIdx, else_branch: Option<ExprIdx> },
    Function {
        params: Vec<FunctionParam>,
        return_type: Option<Ident>,
        body: ExprIdx,
        captures: Vec<Ident>,
    },
    Call { callee: ExprIdx, args: Vec<ExprIdx> },
    Return { value: Option<ExprIdx> },
    Echo { value: ExprIdx },
    Loop { label: Option<Ident>, body: ExprIdx },
    While { condition: ExprIdx, label: Option<Ident>, body: ExprIdx },
    For { binding: Ident, iterable: ExprIdx, label: Option<Ident>, body: ExprIdx },
    Range { start: ExprIdx, end: ExprIdx },
    Break { label: Option<Ident> },
    Continue { label: Option<Ident> },
    List { elements: Vec<ExprIdx> },
    Index { collection: ExprIdx, index: ExprIdx },
    Slice { collection: ExprIdx, start: Option<ExprIdx>, end: Option<ExprIdx> },
    Tuple { elements: Vec<ExprIdx> },
    TupleAccess { tuple: ExprIdx, index: u32 },
}

/// Items inside a block expression.
#[derive(Debug, Clone, PartialEq, Eq)]
pub enum BlockItem {
    Definition { name: Ident, value: ExprIdx },
    Assignment { name: Ident, value: ExprIdx },
    IndexAssignment { collection: ExprIdx, index: ExprIdx, value: ExprIdx },
    Expression(ExprIdx),
    Return { value: Option<ExprIdx> },
    Echo { value: ExprIdx },
    Break { label: Option<Ident> },
    Continue { label: Option<Ident> },
}

/// Top-level definitions.
#[derive(Debug, Clone, PartialEq, Eq)]
pub enum Definition {
    Variable { name: Ident, value: Expression },
    Function {
        name: Ident,
        params: Vec<FunctionParam>,
        return_type: Option<Ident>,
        body: ExprIdx,
    },
}

/// Top-level items.
#[derive(Debug, Clone, PartialEq, Eq)]
pub enum Item {
    Definition(Definition),
    Assignment { name: Ident, value: Expression },
    IndexAssignment { collection: ExprIdx, index: ExprIdx, value: Expression },
    Expression(Expression),
}


/// An optional index is below `b`.
pub open spec fn opt_below(i: Option<ExprIdx>, b: nat) -> bool {
    match i {
        Some(x) => x.0 < b,
        None => true,
    }
}

/// Every index of a sequence is below `b`.
pub open spec fn all_below(s: Seq<ExprIdx>, b: nat) -> bool {
    forall|k: int| 0 <= k < s.len() ==> (#[trigger] s[k]).0 < b
}

/// Every default value of the parameters is below `b`.
pub open spec fn params_below(ps: Seq<FunctionParam>, b: nat) -> bool {
    forall|k: int| 0 <= k < ps.len() ==> opt_below((#[trigger] ps[k]).default, b)
}

/// Every index of a block item is below `b`.
pub open spec fn block_item_below(it: BlockItem, b: nat) -> bool {
    match it {
        BlockItem::Definition { value, .. } => value.0 < b,
        BlockItem::Assignment { value, .. } => value.0 < b,
        BlockItem::IndexAssignment { collection, index, value } => collection.0 < b && index.0 < b
            && value.0 < b,
        BlockItem::Expression(i) => i.0 < b,
        BlockItem::Return { value } => opt_below(value, b),
        BlockItem::Echo { value } => value.0 < b,
        BlockItem::Break { .. } => true,
        BlockItem::Continue { .. } => true,
    }
}

/// Every index that an expression refers to is below `b`.
pub open spec fn expr_below(e: Expression, b: nat) -> bool {
    match e {
        Expression::Missing => true,
        Expression::Literal(_) => true,
        Expression::Infix { lhs, rhs, .. } => lhs.0 < b && rhs.0 < b,
        Expression::Prefix { expr, .. } => expr.0 < b,
        Expression::VariableRef { .. } => true,
        Expression::Block { items, tail } => (forall|k: int|
            0 <= k < items@.len() ==> block_item_below(#[trigger] items@[k], b)) && opt_below(
            tail,
            b,
        ),
        Expression::If { condition, then_branch, else_branch } => condition.0 < b && then_branch.0
            < b && opt_below(else_branch, b),
        Expression::Function { params, body, .. } => params_below(params@, b) && body.0 < b,
        Expression::Call { callee, args } => callee.0 < b && all_below(args@, b),
        Expression::Return { value } => opt_below(value, b),
        Expression::Echo { value } => value.0 < b,
        Expression::Loop { body, .. } => body.0 < b,
        Expression::While { condition, body, .. } => condition.0 < b && body.0 < b,
        Expression::For { iterable, body, .. } => iterable.0 < b && body.0 < b,
        Expression::Range { start, end } => start.0 < b && end.0 < b,
        Expression::Break { .. } => true,
        Expression::Continue { .. } => true,
        Expression::List { elements } => all_below(elements@, b),
        Expression::Index { collection, index } => collection.0 < b && index.0 < b,
        Expression::Slice { collection, start, end } => collection.0 < b && opt_below(start, b)
            && opt_below(end, b),
        Expression::Tuple { elements } => all_below(elements@, b),
        Expression::TupleAccess { tuple, .. } => tuple.0 < b,
    }
}

/// Every index that an item refers to is below `b`.
pub open spec fn item_below(it: Item, b: nat) -> bool {
    match it {
        Item::Definition(Definition::Variable { value, .. }) => expr_below(value, b),
        Item::Definition(Definition::Function { params, body, .. }) => params_below(params@, b)
            && body.0 < b,
        Item::Assignment { value, .. } => expr_below(value, b),
        Item::IndexAssignment { collection, index, value } => collection.0 < b && index.0 < b
            && expr_below(value, b),
        Item::Expression(e) => expr_below(e, b),
    }
}

/// An arena in which every expression refers only to expressions stored
/// before it.
pub open spec fn arena_wf(a: Seq<Expression>) -> bool {
    forall|p: int| 0 <= p < a.len() ==> expr_below(#[trigger] a[p], p as nat)
}

/// Raising the bound keeps an expression below it.
pub proof fn lemma_expr_below_mono(e: Expression, b: nat, c: nat)
    requires
        expr_below(e, b),
        b <= c,
    ensures
        expr_below(e, c),
{
    match e {
        Expression::Block { items, tail } => {
            assert forall|k: int| 0 <= k < items@.len() implies block_item_below(
                #[trigger] items@[k],
                c,
            ) by {
                assert(block_item_below(items@[k], b));
            }
        },
        _ => {},
    }
}

/// Raising the bound keeps parameters below it.
pub proof fn lemma_params_below_mono(ps: Seq<FunctionParam>, b: nat, c: nat)
    requires
        params_below(ps, b),
        b <= c,
    ensures
        params_below(ps, c),
{
    assert forall|k: int| 0 <= k < ps.len() implies opt_below((#[trigger] ps[k]).default, c) by {
        assert(opt_below(ps[k].default, b));
    }
}

/// Raising the bound keeps an item below it.
pub proof fn lemma_item_below_mono(it: Item, b: nat, c: nat)
    requires
        item_below(it, b),
        b <= c,
    ensures
        item_below(it, c),
{
    match it {
        Item::Definition(Definition::Variable { value, .. }) => lemma_expr_below_mono(value, b, c),
        Item::Definition(Definition::Function { params, .. }) => lemma_params_below_mono(params@, b, c),
        Item::Assignment { value, .. } => lemma_expr_below_mono(value, b, c),
        Item::IndexAssignment { value, .. } => lemma_expr_below_mono(value, b, c),
        Item::Expression(e) => lemma_expr_below_mono(e, b, c),
    }
}

/// `after` and `key` are what interning `s` into the strings `before`
/// gives: the key `s` already has and no change, or the next key with `s`
/// stored under it.
pub open spec fn interns(before: Seq<Seq<char>>, s: Seq<char>, after: Seq<Seq<char>>, key: Ident) -> bool {
    if before.contains(s) {
        after == before && key.0 < before.len() && before[key.0 as int] == s
    } else {
        after == before.push(s) && key.0 == before.len()
    }
}

/// A key that interning hands out gives back the interned text, and the
/// keys handed out before keep their texts.
pub proof fn law_interned_key_resolves(before: Seq<Seq<char>>, s: Seq<char>, after: Seq<Seq<char>>, key: Ident)
    requires
        interns(before, s, after, key),
    ensures
        key.0 < after.len(),
        after[key.0 as int] == s,
        before.is_prefix_of(after),
{
    if !before.contains(s) {
        assert(after.subrange(0, before.len() as int) =~= before);
    }
}

/// Interning the same text twice gives the same key and changes nothing the
/// second time, when no text is stored twice.
pub proof fn law_intern_twice_same_key(
    before: Seq<Seq<char>>,
    s: Seq<char>,
    mid: Seq<Seq<char>>,
    first: Ident,
    after: Seq<Seq<char>>,
    second: Ident,
)
    requires
        before.no_duplicates(),
        interns(before, s, mid, first),
        interns(mid, s, after, second),
    ensures
        first == second,
        after == mid,
{
    law_interned_key_resolves(before, s, mid, first);
    assert(mid.contains(s)) by {
        assert(mid[first.0 as int] == s);
    }
    if !before.contains(s) {
        assert(mid.no_duplicates()) by {
            assert forall|i: int, j: int| 0 <= i < mid.len() && 0 <= j < mid.len() && i != j implies mid[i] != mid[j] by {
                if i == before.len() as int && j < before.len() {
                    assert(before.contains(before[j]));
                } else if j == before.len() as int && i < before.len() {
                    assert(before.contains(before[i]));
                }
            }
        }
    }
}

/// Strings interned to consecutive keys from zero.
#[derive(Debug)]
pub struct Interner {
    strings: Vec<String>,
}

impl Interner {
    /// The interned strings, by key.
    pub closed spec fn view(&self) -> Seq<Seq<char>> {
        Seq::new(self.strings@.len(), |i: int| self.strings@[i]@)
    }

    /// An interner holding no string.
    pub fn new() -> (r: Interner)
        ensures
            r@ == Seq::<Seq<char>>::empty(),
            r@.no_duplicates(),
    {
        Interner { strings: Vec::new() }
    }

    /// The key of `s`: its existing key, or a new key (the next number) under
    /// which it is stored.
    pub fn get_or_intern(&mut self, s: &str) -> (r: Ident)
        ensures
            interns(old(self)@, s@, final(self)@, r),
            old(self)@.no_duplicates() ==> final(self)@.no_duplicates(),
    {
        let owned = s.to_owned();
        let mut i: usize = 0;
        while i < self.strings.len()
            invariant
                owned@ == s@,
                i <= self.strings@.len(),
                forall|k: int| 0 <= k < i ==> self.strings@[k]@ != s@,
                self == old(self),
            decreases self.strings@.len() - i,
        {
            if self.strings[i] == owned {
                assert(self@[i as int] == s@);
                return Ident(i);
            }
            i = i + 1;
        }
        assert(!self@.contains(s@)) by {
            if self@.contains(s@) {
                let k = choose|k: int| 0 <= k < self@.len() && self@[k] == s@;
                assert(self.strings@[k]@ == s@);
            }
        }
        let key = self.strings.len();
        self.strings.push(owned);
        assert(self@ =~= old(self)@.push(s@));
        proof {
            if old(self)@.no_duplicates() {
                let v = self@;
                let b = old(self)@;
                assert forall|i: int, j: int| 0 <= i < v.len() && 0 <= j < v.len() && i != j implies v[i] != v[j] by {
                    if i == b.len() as int && j < b.len() {
                        assert(b.contains(b[j]));
                    } else if j == b.len() as int && i < b.len() {
                        assert(b.contains(b[i]));
                    }
                }
            }
        }
        Ident(key)
    }

    /// The text of a key.
    pub fn resolve(&self, id: Ident) -> (r: &str)
        requires
            id.0 < self@.len(),
        ensures
            r@ == self@[id.0 as int],
    {
        self.strings[id.0].as_str()
    }

    /// Number of interned strings.
    pub fn len(&self) -> (r: usize)
        ensures
            r == self@.len(),
    {
        self.strings.len()
    }
}

} // verus!
