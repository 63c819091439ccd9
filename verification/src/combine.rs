//! Merging the separately lowered items of a file into one arena: each
//! item's expression indices are shifted by the number of expressions stored
//! before it. Indices are 32-bit, so a shifted index wraps around at 2^32.
use vstd::prelude::*;

use crate::cst::TextRange;
use crate::hir::{
    all_below, arena_wf, block_item_below, expr_below, item_below, lemma_item_below_mono,
    opt_below, params_below, BlockItem, Definition, ExprIdx, Expression, FunctionParam, Ident,
    Interner, Item, Literal,
};
use crate::hir_lower::{LowerItemResult, LowerResult, SymbolEvent};

verus! {

/// The number of distinct 32-bit indices.
pub open spec fn index_space() -> nat {
    0x1_0000_0000
}

/// An index shifted by `off`, wrapping around at 2^32.
pub open spec fn remap_index(i: ExprIdx, off: nat) -> ExprIdx {
    ExprIdx(((i.0 + off) % (index_space() as int)) as usize)
}

/// An optional index shifted by `off`.
pub open spec fn remap_opt(i: Option<ExprIdx>, off: nat) -> Option<ExprIdx> {
    match i {
        Some(x) => Some(remap_index(x, off)),
        None => None,
    }
}

/// A parameter whose default value index is shifted by `off`.
pub open spec fn remap_param(p: FunctionParam, off: nat) -> FunctionParam {
    FunctionParam { name: p.name, ty: p.ty, default: remap_opt(p.default, off) }
}

/// A block item whose indices are shifted by `off`.
pub open spec fn remap_block(it: BlockItem, off: nat) -> BlockItem {
    match it {
        BlockItem::Definition { name, value } => BlockItem::Definition {
            name,
            value: remap_index(value, off),
        },
        BlockItem::Assignment { name, value } => BlockItem::Assignment {
            name,
            value: remap_index(value, off),
        },
        BlockItem::IndexAssignment { collection, index, value } => BlockItem::IndexAssignment {
            collection: remap_index(collection, off),
            index: remap_index(index, off),
            value: remap_index(value, off),
        },
        BlockItem::Expression(i) => BlockItem::Expression(remap_index(i, off)),
        BlockItem::Return { value } => BlockItem::Return { value: remap_opt(value, off) },
        BlockItem::Echo { value } => BlockItem::Echo { value: remap_index(value, off) },
        BlockItem::Break { label } => BlockItem::Break { label },
        BlockItem::Continue { label } => BlockItem::Continue { label },
    }
}

/// Each index of a sequence shifted by `off`.
pub open spec fn remap_indices(s: Seq<ExprIdx>, off: nat) -> Seq<ExprIdx> {
    s.map_values(|i: ExprIdx| remap_index(i, off))
}

/// Each parameter of a sequence with its default shifted by `off`.
pub open spec fn remap_params(s: Seq<FunctionParam>, off: nat) -> Seq<FunctionParam> {
    s.map_values(|p: FunctionParam| remap_param(p, off))
}

/// Each block item of a sequence with its indices shifted by `off`.
pub open spec fn remap_blocks(s: Seq<BlockItem>, off: nat) -> Seq<BlockItem> {
    s.map_values(|b: BlockItem| remap_block(b, off))
}

/// `r` is `e` with every index shifted by `off`, all else unchanged.
pub open spec fn remapped_expr(e: Expression, r: Expression, off: nat) -> bool {
    match e {
        Expression::Missing => r == Expression::Missing,
        Expression::Literal(l) => r == Expression::Literal(l),
        Expression::Infix { op, lhs, rhs } => r == Expression::Infix {
            op,
            lhs: remap_index(lhs, off),
            rhs: remap_index(rhs, off),
        },
        Expression::Prefix { op, expr } => r == Expression::Prefix {
            op,
            expr: remap_index(expr, off),
        },
        Expression::VariableRef { name } => r == Expression::VariableRef { name },
        Expression::Block { items, tail } => r matches Expression::Block { items: i2, tail: t2 }
            && i2@ == remap_blocks(items@, off) && t2 == remap_opt(tail, off),
        Expression::If { condition, then_branch, else_branch } => r == Expression::If {
            condition: remap_index(condition, off),
            then_branch: remap_index(then_branch, off),
            else_branch: remap_opt(else_branch, off),
        },
        Expression::Function { params, return_type, body, captures } => r matches Expression::Function {
            params: p2,
            return_type: rt2,
            body: b2,
            captures: c2,
        } && p2@ == remap_params(params@, off) && rt2 == return_type && b2 == remap_index(body, off)
            && c2@ == captures@,
        Expression::Call { callee, args } => r matches Expression::Call { callee: c2, args: a2 }
            && c2 == remap_index(callee, off) && a2@ == remap_indices(args@, off),
        Expression::Return { value } => r == Expression::Return { value: remap_opt(value, off) },
        Expression::Echo { value } => r == Expression::Echo { value: remap_index(value, off) },
        Expression::Loop { label, body } => r == Expression::Loop {
            label,
            body: remap_index(body, off),
        },
        Expression::While { condition, label, body } => r == Expression::While {
            condition: remap_index(condition, off),
            label,
            body: remap_index(body, off),
        },
        Expression::For { binding, iterable, label, body } => r == Expression::For {
            binding,
            iterable: remap_index(iterable, off),
            label,
            body: remap_index(body, off),
        },
        Expression::Range { start, end } => r == Expression::Range {
            start: remap_index(start, off),
            end: remap_index(end, off),
        },
        Expression::Break { label } => r == Expression::Break { label },
        Expression::Continue { label } => r == Expression::Continue { label },
        Expression::List { elements } => r matches Expression::List { elements: e2 } && e2@
            == remap_indices(elements@, off),
        Expression::Index { collection, index } => r == Expression::Index {
            collection: remap_index(collection, off),
            index: remap_index(index, off),
        },
        Expression::Slice { collection, start, end } => r == Expression::Slice {
            collection: remap_index(collection, off),
            start: remap_opt(start, off),
            end: remap_opt(end, off),
        },
        Expression::Tuple { elements } => r matches Expression::Tuple { elements: e2 } && e2@
            == remap_indices(elements@, off),
        Expression::TupleAccess { tuple, index } => r == Expression::TupleAccess {
            tuple: remap_index(tuple, off),
            index,
        },
    }
}

/// `r` is the item `it` with every index shifted by `off`, all else
/// unchanged.
pub open spec fn remapped_item(it: Item, r: Item, off: nat) -> bool {
    match it {
        Item::Definition(Definition::Variable { name, value }) => r matches Item::Definition(
            Definition::Variable { name: n2, value: v2 },
        ) && n2 == name && remapped_expr(value, v2, off),
        Item::Definition(Definition::Function { name, params, return_type, body }) => r matches Item::Definition(
            Definition::Function { name: n2, params: p2, return_type: rt2, body: b2 },
        ) && n2 == name && p2@ == remap_params(params@, off) && rt2 == return_type && b2
            == remap_index(body, off),
        Item::Assignment { name, value } => r matches Item::Assignment { name: n2, value: v2 }
            && n2 == name && remapped_expr(value, v2, off),
        Item::IndexAssignment { collection, index, value } => r matches Item::IndexAssignment {
            collection: c2,
            index: i2,
            value: v2,
        } && c2 == remap_index(collection, off) && i2 == remap_index(index, off)
            && remapped_expr(value, v2, off),
        Item::Expression(e) => r matches Item::Expression(e2) && remapped_expr(e, e2, off),
    }
}

/// An index shifted by an arena offset (wrapping around at 2^32, as the
/// arena's 32-bit indices do).
pub fn remap_idx(idx: ExprIdx, offset: usize) -> (r: ExprIdx)
    ensures
        r == remap_index(idx, offset as nat),
{
    let m: u64 = 0x1_0000_0000;
    let a: u64 = (idx.0 as u64) % m;
    let b: u64 = (offset as u64) % m;
    let c: u64 = (a + b) % m;
    proof {
        vstd::arithmetic::div_mod::lemma_add_mod_noop(idx.0 as int, offset as int, m as int);
    }
    ExprIdx(c as usize)
}

fn remap_opt_idx(idx: Option<ExprIdx>, offset: usize) -> (r: Option<ExprIdx>)
    ensures
        r == remap_opt(idx, offset as nat),
{
    match idx {
        Some(i) => Some(remap_idx(i, offset)),
        None => None,
    }
}

fn remap_idx_vec(v: &Vec<ExprIdx>, offset: usize) -> (r: Vec<ExprIdx>)
    ensures
        r@ == remap_indices(v@, offset as nat),
{
    let mut out: Vec<ExprIdx> = Vec::new();
    let mut i: usize = 0;
    while i < v.len()
        invariant
            i <= v@.len(),
            out@ == remap_indices(v@.take(i as int), offset as nat),
        decreases v@.len() - i,
    {
        out.push(remap_idx(v[i], offset));
        assert(v@.take(i + 1) =~= v@.take(i as int).push(v@[i as int]));
        i = i + 1;
        assert(out@ =~= remap_indices(v@.take(i as int), offset as nat));
    }
    assert(v@.take(v@.len() as int) =~= v@);
    out
}

fn remap_param_vec(v: &Vec<FunctionParam>, offset: usize) -> (r: Vec<FunctionParam>)
    ensures
        r@ == remap_params(v@, offset as nat),
{
    let mut out: Vec<FunctionParam> = Vec::new();
    let mut i: usize = 0;
    while i < v.len()
        invariant
            i <= v@.len(),
            out@ == remap_params(v@.take(i as int), offset as nat),
        decreases v@.len() - i,
    {
        let p = &v[i];
        out.push(FunctionParam { name: p.name, ty: p.ty, default: remap_opt_idx(p.default, offset) });
        assert(v@.take(i + 1) =~= v@.take(i as int).push(v@[i as int]));
        i = i + 1;
        assert(out@ =~= remap_params(v@.take(i as int), offset as nat));
    }
    assert(v@.take(v@.len() as int) =~= v@);
    out
}

fn copy_idents(v: &Vec<Ident>) -> (r: Vec<Ident>)
    ensures
        r@ == v@,
{
    let mut out: Vec<Ident> = Vec::new();
    let mut i: usize = 0;
    while i < v.len()
        invariant
            i <= v@.len(),
            out@ == v@.take(i as int),
        decreases v@.len() - i,
    {
        out.push(v[i]);
        i = i + 1;
        assert(out@ =~= v@.take(i as int));
    }
    assert(v@.take(v@.len() as int) =~= v@);
    out
}

fn copy_literal(l: &Literal) -> (r: Literal)
    ensures
        r == *l,
{
    match l {
        Literal::Integer(n) => Literal::Integer(*n),
        Literal::Float(s) => Literal::Float(s.clone()),
        Literal::Boolean(b) => Literal::Boolean(*b),
        Literal::String(s) => Literal::String(s.clone()),
    }
}

/// A block item with its indices shifted by an arena offset.
pub fn remap_block_item(item: &BlockItem, offset: usize) -> (r: BlockItem)
    ensures
        r == remap_block(*item, offset as nat),
{
    match item {
        BlockItem::Definition { name, value } => BlockItem::Definition {
            name: *name,
            value: remap_idx(*value, offset),
        },
        BlockItem::Assignment { name, value } => BlockItem::Assignment {
            name: *name,
            value: remap_idx(*value, offset),
        },
        BlockItem::IndexAssignment { collection, index, value } => BlockItem::IndexAssignment {
            collection: remap_idx(*collection, offset),
            index: remap_idx(*index, offset),
            value: remap_idx(*value, offset),
        },
        BlockItem::Expression(idx) => BlockItem::Expression(remap_idx(*idx, offset)),
        BlockItem::Return { value } => BlockItem::Return { value: remap_opt_idx(*value, offset) },
        BlockItem::Echo { value } => BlockItem::Echo { value: remap_idx(*value, offset) },
        BlockItem::Break { label } => BlockItem::Break { label: *label },
        BlockItem::Continue { label } => BlockItem::Continue { label: *label },
    }
}

fn remap_block_vec(v: &Vec<BlockItem>, offset: usize) -> (r: Vec<BlockItem>)
    ensures
        r@ == remap_blocks(v@, offset as nat),
{
    let mut out: Vec<BlockItem> = Vec::new();
    let mut i: usize = 0;
    while i < v.len()
        invariant
            i <= v@.len(),
            out@ == remap_blocks(v@.take(i as int), offset as nat),
        decreases v@.len() - i,
    {
        out.push(remap_block_item(&v[i], offset));
        assert(v@.take(i + 1) =~= v@.take(i as int).push(v@[i as int]));
        i = i + 1;
        assert(out@ =~= remap_blocks(v@.take(i as int), offset as nat));
    }
    assert(v@.take(v@.len() as int) =~= v@);
    out
}

/// An expression with every index shifted by an arena offset.
pub fn remap_expression(expr: &Expression, offset: usize) -> (r: Expression)
    ensures
        remapped_expr(*expr, r, offset as nat),
{
    match expr {
        Expression::Missing => Expression::Missing,
        Expression::Literal(lit) => Expression::Literal(copy_literal(lit)),
        Expression::Infix { op, lhs, rhs } => Expression::Infix {
            op: *op,
            lhs: remap_idx(*lhs, offset),
            rhs: remap_idx(*rhs, offset),
        },
        Expression::Prefix { op, expr } => Expression::Prefix {
            op: *op,
            expr: remap_idx(*expr, offset),
        },
        Expression::VariableRef { name } => Expression::VariableRef { name: *name },
        Expression::Block { items, tail } => Expression::Block {
            items: remap_block_vec(items, offset),
            tail: remap_opt_idx(*tail, offset),
        },
        Expression::If { condition, then_branch, else_branch } => Expression::If {
            condition: remap_idx(*condition, offset),
            then_branch: remap_idx(*then_branch, offset),
            else_branch: remap_opt_idx(*else_branch, offset),
        },
        Expression::Function { params, return_type, body, captures } => Expression::Function {
            params: remap_param_vec(params, offset),
            return_type: *return_type,
            body: remap_idx(*body, offset),
            captures: copy_idents(captures),
        },
        Expression::Call { callee, args } => Expression::Call {
            callee: remap_idx(*callee, offset),
            args: remap_idx_vec(args, offset),
        },
        Expression::Return { value } => Expression::Return { value: remap_opt_idx(*value, offset) },
        Expression::Echo { value } => Expression::Echo { value: remap_idx(*value, offset) },
        Expression::Loop { label, body } => Expression::Loop {
            label: *label,
            body: remap_idx(*body, offset),
        },
        Expression::While { condition, label, body } => Expression::While {
            condition: remap_idx(*condition, offset),
            label: *label,
            body: remap_idx(*body, offset),
        },
        Expression::For { binding, iterable, label, body } => Expression::For {
            binding: *binding,
            iterable: remap_idx(*iterable, offset),
            label: *label,
            body: remap_idx(*body, offset),
        },
        Expression::Range { start, end } => Expression::Range {
            start: remap_idx(*start, offset),
            end: remap_idx(*end, offset),
        },
        Expression::Break { label } => Expression::Break { label: *label },
        Expression::Continue { label } => Expression::Continue { label: *label },
        Expression::List { elements } => Expression::List {
            elements: remap_idx_vec(elements, offset),
        },
        Expression::Index { collection, index } => Expression::Index {
            collection: remap_idx(*collection, offset),
            index: remap_idx(*index, offset),
        },
        Expression::Slice { collection, start, end } => Expression::Slice {
            collection: remap_idx(*collection, offset),
            start: remap_opt_idx(*start, offset),
            end: remap_opt_idx(*end, offset),
        },
        Expression::Tuple { elements } => Expression::Tuple {
            elements: remap_idx_vec(elements, offset),
        },
        Expression::TupleAccess { tuple, index } => Expression::TupleAccess {
            tuple: remap_idx(*tuple, offset),
            index: *index,
        },
    }
}

/// An item with every index shifted by an arena offset.
pub fn remap_item(item: &Item, offset: usize) -> (r: Item)
    ensures
        remapped_item(*item, r, offset as nat),
{
    match item {
        Item::Definition(Definition::Variable { name, value }) => Item::Definition(
            Definition::Variable { name: *name, value: remap_expression(value, offset) },
        ),
        Item::Definition(Definition::Function { name, params, return_type, body }) => {
            Item::Definition(
                Definition::Function {
                    name: *name,
                    params: remap_param_vec(params, offset),
                    return_type: *return_type,
                    body: remap_idx(*body, offset),
                },
            )
        },
        Item::Assignment { name, value } => Item::Assignment {
            name: *name,
            value: remap_expression(value, offset),
        },
        Item::IndexAssignment { collection, index, value } => Item::IndexAssignment {
            collection: remap_idx(*collection, offset),
            index: remap_idx(*index, offset),
            value: remap_expression(value, offset),
        },
        Item::Expression(expr) => Item::Expression(remap_expression(expr, offset)),
    }
}


/// Shifting an index below `n` by `off` gives an index below `n + off`, when
/// `n + off` fits the 32-bit index space.
proof fn lemma_remap_index_below(i: ExprIdx, off: nat, n: nat)
    requires
        i.0 < n,
        n + off <= index_space(),
    ensures
        remap_index(i, off).0 == i.0 + off,
        remap_index(i, off).0 < n + off,
{
    vstd::arithmetic::div_mod::lemma_small_mod((i.0 + off) as nat, index_space());
}

/// Shifting keeps an optional index below the shifted bound.
proof fn lemma_remap_opt_below(i: Option<ExprIdx>, off: nat, n: nat)
    requires
        opt_below(i, n),
        n + off <= index_space(),
    ensures
        opt_below(remap_opt(i, off), n + off),
{
    if let Some(x) = i {
        lemma_remap_index_below(x, off, n);
    }
}

/// Shifting keeps indices below the shifted bound.
proof fn lemma_remap_indices_below(s: Seq<ExprIdx>, off: nat, n: nat)
    requires
        all_below(s, n),
        n + off <= index_space(),
    ensures
        all_below(remap_indices(s, off), n + off),
{
    assert forall|k: int| 0 <= k < remap_indices(s, off).len() implies (#[trigger] remap_indices(
        s,
        off,
    )[k]).0 < n + off by {
        lemma_remap_index_below(s[k], off, n);
    }
}

/// Shifting keeps default values below the shifted bound.
proof fn lemma_remap_params_below(s: Seq<FunctionParam>, off: nat, n: nat)
    requires
        params_below(s, n),
        n + off <= index_space(),
    ensures
        params_below(remap_params(s, off), n + off),
{
    assert forall|k: int| 0 <= k < remap_params(s, off).len() implies opt_below(
        (#[trigger] remap_params(s, off)[k]).default,
        n + off,
    ) by {
        lemma_remap_opt_below(s[k].default, off, n);
    }
}

/// Shifting keeps a block item's indices below the shifted bound.
proof fn lemma_remap_block_below(it: BlockItem, off: nat, n: nat)
    requires
        block_item_below(it, n),
        n + off <= index_space(),
    ensures
        block_item_below(remap_block(it, off), n + off),
{
    match it {
        BlockItem::Definition { value, .. } => lemma_remap_index_below(value, off, n),
        BlockItem::Assignment { value, .. } => lemma_remap_index_below(value, off, n),
        BlockItem::IndexAssignment { collection, index, value } => {
            lemma_remap_index_below(collection, off, n);
            lemma_remap_index_below(index, off, n);
            lemma_remap_index_below(value, off, n);
        },
        BlockItem::Expression(i) => lemma_remap_index_below(i, off, n),
        BlockItem::Return { value } => lemma_remap_opt_below(value, off, n),
        BlockItem::Echo { value } => lemma_remap_index_below(value, off, n),
        _ => {},
    }
}

/// Remapping by an offset keeps an expression's references inside the
/// arena shifted by that offset, as long as the shifted arena fits the 32-bit
/// index space.
pub proof fn law_remap_keeps_below(e: Expression, r: Expression, off: nat, n: nat)
    requires
        remapped_expr(e, r, off),
        expr_below(e, n),
        n + off <= index_space(),
    ensures
        expr_below(r, n + off),
{
    match e {
        Expression::Infix { lhs, rhs, .. } => {
            lemma_remap_index_below(lhs, off, n);
            lemma_remap_index_below(rhs, off, n);
        },
        Expression::Prefix { expr, .. } => lemma_remap_index_below(expr, off, n),
        Expression::Block { items, tail } => {
            lemma_remap_opt_below(tail, off, n);
            if let Expression::Block { items: i2, .. } = r {
                assert forall|k: int| 0 <= k < i2@.len() implies block_item_below(
                    #[trigger] i2@[k],
                    n + off,
                ) by {
                    assert(block_item_below(items@[k], n));
                    lemma_remap_block_below(items@[k], off, n);
                }
            }
        },
        Expression::If { condition, then_branch, else_branch } => {
            lemma_remap_index_below(condition, off, n);
            lemma_remap_index_below(then_branch, off, n);
            lemma_remap_opt_below(else_branch, off, n);
        },
        Expression::Function { params, body, .. } => {
            lemma_remap_params_below(params@, off, n);
            lemma_remap_index_below(body, off, n);
        },
        Expression::Call { callee, args } => {
            lemma_remap_index_below(callee, off, n);
            lemma_remap_indices_below(args@, off, n);
        },
        Expression::Return { value } => lemma_remap_opt_below(value, off, n),
        Expression::Echo { value } => lemma_remap_index_below(value, off, n),
        Expression::Loop { body, .. } => lemma_remap_index_below(body, off, n),
        Expression::While { condition, body, .. } => {
            lemma_remap_index_below(condition, off, n);
            lemma_remap_index_below(body, off, n);
        },
        Expression::For { iterable, body, .. } => {
            lemma_remap_index_below(iterable, off, n);
            lemma_remap_index_below(body, off, n);
        },
        Expression::Range { start, end } => {
            lemma_remap_index_below(start, off, n);
            lemma_remap_index_below(end, off, n);
        },
        Expression::List { elements } => lemma_remap_indices_below(elements@, off, n),
        Expression::Index { collection, index } => {
            lemma_remap_index_below(collection, off, n);
            lemma_remap_index_below(index, off, n);
        },
        Expression::Slice { collection, start, end } => {
            lemma_remap_index_below(collection, off, n);
            lemma_remap_opt_below(start, off, n);
            lemma_remap_opt_below(end, off, n);
        },
        Expression::Tuple { elements } => lemma_remap_indices_below(elements@, off, n),
        Expression::TupleAccess { tuple, .. } => lemma_remap_index_below(tuple, off, n),
        _ => {},
    }
}

/// Remapping an item by an offset keeps its references inside the arena
/// shifted by that offset, as long as the shifted arena fits the 32-bit
/// index space.
pub proof fn law_remap_item_keeps_below(it: Item, r: Item, off: nat, n: nat)
    requires
        remapped_item(it, r, off),
        item_below(it, n),
        n + off <= index_space(),
    ensures
        item_below(r, n + off),
{
    match it {
        Item::Definition(Definition::Variable { value, .. }) => {
            if let Item::Definition(Definition::Variable { value: v2, .. }) = r {
                law_remap_keeps_below(value, v2, off, n);
            }
        },
        Item::Definition(Definition::Function { params, body, .. }) => {
            lemma_remap_params_below(params@, off, n);
            lemma_remap_index_below(body, off, n);
        },
        Item::Assignment { value, .. } => {
            if let Item::Assignment { value: v2, .. } = r {
                law_remap_keeps_below(value, v2, off, n);
            }
        },
        Item::IndexAssignment { collection, index, value } => {
            lemma_remap_index_below(collection, off, n);
            lemma_remap_index_below(index, off, n);
            if let Item::IndexAssignment { value: v2, .. } = r {
                law_remap_keeps_below(value, v2, off, n);
            }
        },
        Item::Expression(e) => {
            if let Item::Expression(e2) = r {
                law_remap_keeps_below(e, e2, off, n);
            }
        },
    }
}


/// Shifting by `a` and then by `b` is shifting by `a + b`.
proof fn lemma_remap_index_compose(i: ExprIdx, a: nat, b: nat)
    ensures
        remap_index(remap_index(i, a), b) == remap_index(i, a + b),
{
    let m = index_space() as int;
    vstd::arithmetic::div_mod::lemma_add_mod_noop_right(b as int, i.0 + a, m);
    assert((b + (i.0 + a)) == i.0 + (a + b));
}

/// Shifting an optional index by `a` and then by `b` is shifting it by `a + b`.
proof fn lemma_remap_opt_compose(i: Option<ExprIdx>, a: nat, b: nat)
    ensures
        remap_opt(remap_opt(i, a), b) == remap_opt(i, a + b),
{
    if let Some(x) = i {
        lemma_remap_index_compose(x, a, b);
    }
}

/// Shifting indices by `a` and then by `b` is shifting them by `a + b`.
proof fn lemma_remap_indices_compose(s: Seq<ExprIdx>, a: nat, b: nat)
    ensures
        remap_indices(remap_indices(s, a), b) == remap_indices(s, a + b),
{
    assert forall|k: int| 0 <= k < s.len() implies #[trigger] remap_indices(remap_indices(s, a), b)[k]
        == remap_indices(s, a + b)[k] by {
        lemma_remap_index_compose(s[k], a, b);
    }
    assert(remap_indices(remap_indices(s, a), b) =~= remap_indices(s, a + b));
}

/// Shifting parameters by `a` and then by `b` is shifting them by `a + b`.
proof fn lemma_remap_params_compose(s: Seq<FunctionParam>, a: nat, b: nat)
    ensures
        remap_params(remap_params(s, a), b) == remap_params(s, a + b),
{
    assert forall|k: int| 0 <= k < s.len() implies #[trigger] remap_params(remap_params(s, a), b)[k]
        == remap_params(s, a + b)[k] by {
        lemma_remap_opt_compose(s[k].default, a, b);
    }
    assert(remap_params(remap_params(s, a), b) =~= remap_params(s, a + b));
}

/// Shifting a block item by `a` and then by `b` is shifting it by `a + b`.
proof fn lemma_remap_block_compose(it: BlockItem, a: nat, b: nat)
    ensures
        remap_block(remap_block(it, a), b) == remap_block(it, a + b),
{
    match it {
        BlockItem::Definition { value, .. } => lemma_remap_index_compose(value, a, b),
        BlockItem::Assignment { value, .. } => lemma_remap_index_compose(value, a, b),
        BlockItem::IndexAssignment { collection, index, value } => {
            lemma_remap_index_compose(collection, a, b);
            lemma_remap_index_compose(index, a, b);
            lemma_remap_index_compose(value, a, b);
        },
        BlockItem::Expression(i) => lemma_remap_index_compose(i, a, b),
        BlockItem::Return { value } => lemma_remap_opt_compose(value, a, b),
        BlockItem::Echo { value } => lemma_remap_index_compose(value, a, b),
        _ => {},
    }
}

/// Shifting block items by `a` and then by `b` is shifting them by `a + b`.
proof fn lemma_remap_blocks_compose(s: Seq<BlockItem>, a: nat, b: nat)
    ensures
        remap_blocks(remap_blocks(s, a), b) == remap_blocks(s, a + b),
{
    assert forall|k: int| 0 <= k < s.len() implies #[trigger] remap_blocks(remap_blocks(s, a), b)[k]
        == remap_blocks(s, a + b)[k] by {
        lemma_remap_block_compose(s[k], a, b);
    }
    assert(remap_blocks(remap_blocks(s, a), b) =~= remap_blocks(s, a + b));
}

/// Remapping by `a` and then by `b` is remapping by `a + b`: indices wrap
/// around at 2^32 either way, so this holds for every expression and every
/// pair of offsets. With `remap_expression`, whose result is the remap of
/// its argument, `remap_expression(&remap_expression(&e, a), b)` is thus the
/// remap of `e` by `a + b`, as `remap_expression(&e, a + b)` is.
pub proof fn law_remap_compose(e: Expression, r1: Expression, r2: Expression, a: nat, b: nat)
    requires
        remapped_expr(e, r1, a),
        remapped_expr(r1, r2, b),
    ensures
        remapped_expr(e, r2, a + b),
{
    match e {
        Expression::Infix { lhs, rhs, .. } => {
            lemma_remap_index_compose(lhs, a, b);
            lemma_remap_index_compose(rhs, a, b);
        },
        Expression::Prefix { expr, .. } => lemma_remap_index_compose(expr, a, b),
        Expression::Block { items, tail } => {
            lemma_remap_blocks_compose(items@, a, b);
            lemma_remap_opt_compose(tail, a, b);
        },
        Expression::If { condition, then_branch, else_branch } => {
            lemma_remap_index_compose(condition, a, b);
            lemma_remap_index_compose(then_branch, a, b);
            lemma_remap_opt_compose(else_branch, a, b);
        },
        Expression::Function { params, body, .. } => {
            lemma_remap_params_compose(params@, a, b);
            lemma_remap_index_compose(body, a, b);
        },
        Expression::Call { callee, args } => {
            lemma_remap_index_compose(callee, a, b);
            lemma_remap_indices_compose(args@, a, b);
        },
        Expression::Return { value } => lemma_remap_opt_compose(value, a, b),
        Expression::Echo { value } => lemma_remap_index_compose(value, a, b),
        Expression::Loop { body, .. } => lemma_remap_index_compose(body, a, b),
        Expression::While { condition, body, .. } => {
            lemma_remap_index_compose(condition, a, b);
            lemma_remap_index_compose(body, a, b);
        },
        Expression::For { iterable, body, .. } => {
            lemma_remap_index_compose(iterable, a, b);
            lemma_remap_index_compose(body, a, b);
        },
        Expression::Range { start, end } => {
            lemma_remap_index_compose(start, a, b);
            lemma_remap_index_compose(end, a, b);
        },
        Expression::List { elements } => lemma_remap_indices_compose(elements@, a, b),
        Expression::Index { collection, index } => {
            lemma_remap_index_compose(collection, a, b);
            lemma_remap_index_compose(index, a, b);
        },
        Expression::Slice { collection, start, end } => {
            lemma_remap_index_compose(collection, a, b);
            lemma_remap_opt_compose(start, a, b);
            lemma_remap_opt_compose(end, a, b);
        },
        Expression::Tuple { elements } => lemma_remap_indices_compose(elements@, a, b),
        Expression::TupleAccess { tuple, .. } => lemma_remap_index_compose(tuple, a, b),
        _ => {},
    }
}

/// Remapping by zero changes nothing: an expression whose indices fit the
/// 32-bit index space is its own remap by zero, so `remap_expression(&e, 0)`
/// equals `e` (its vectors compared by their contents). An index at or above
/// 2^32 would wrap, so the law does not hold of it.
pub proof fn law_remap_zero(e: Expression)
    requires
        expr_below(e, index_space()),
    ensures
        remapped_expr(e, e, 0),
{
    let m = index_space();
    match e {
        Expression::Infix { lhs, rhs, .. } => {
            lemma_remap_index_below(lhs, 0, m);
            lemma_remap_index_below(rhs, 0, m);
        },
        Expression::Prefix { expr, .. } => lemma_remap_index_below(expr, 0, m),
        Expression::Block { items, tail } => {
            lemma_remap_opt_zero(tail);
            assert forall|k: int| 0 <= k < items@.len() implies #[trigger] remap_blocks(items@, 0)[k]
                == items@[k] by {
                lemma_remap_block_zero(items@[k]);
            }
            assert(remap_blocks(items@, 0) =~= items@);
        },
        Expression::If { condition, then_branch, else_branch } => {
            lemma_remap_index_below(condition, 0, m);
            lemma_remap_index_below(then_branch, 0, m);
            lemma_remap_opt_zero(else_branch);
        },
        Expression::Function { params, body, .. } => {
            assert forall|k: int| 0 <= k < params@.len() implies #[trigger] remap_params(params@, 0)[k]
                == params@[k] by {
                lemma_remap_opt_zero(params@[k].default);
            }
            assert(remap_params(params@, 0) =~= params@);
            lemma_remap_index_below(body, 0, m);
        },
        Expression::Call { callee, args } => {
            lemma_remap_index_below(callee, 0, m);
            lemma_remap_indices_zero(args@);
        },
        Expression::Return { value } => lemma_remap_opt_zero(value),
        Expression::Echo { value } => lemma_remap_index_below(value, 0, m),
        Expression::Loop { body, .. } => lemma_remap_index_below(body, 0, m),
        Expression::While { condition, body, .. } => {
            lemma_remap_index_below(condition, 0, m);
            lemma_remap_index_below(body, 0, m);
        },
        Expression::For { iterable, body, .. } => {
            lemma_remap_index_below(iterable, 0, m);
            lemma_remap_index_below(body, 0, m);
        },
        Expression::Range { start, end } => {
            lemma_remap_index_below(start, 0, m);
            lemma_remap_index_below(end, 0, m);
        },
        Expression::List { elements } => lemma_remap_indices_zero(elements@),
        Expression::Index { collection, index } => {
            lemma_remap_index_below(collection, 0, m);
            lemma_remap_index_below(index, 0, m);
        },
        Expression::Slice { collection, start, end } => {
            lemma_remap_index_below(collection, 0, m);
            lemma_remap_opt_zero(start);
            lemma_remap_opt_zero(end);
        },
        Expression::Tuple { elements } => lemma_remap_indices_zero(elements@),
        Expression::TupleAccess { tuple, .. } => lemma_remap_index_below(tuple, 0, m),
        _ => {},
    }
}

/// Shifting an optional index below 2^32 by zero keeps it.
proof fn lemma_remap_opt_zero(i: Option<ExprIdx>)
    requires
        opt_below(i, index_space()),
    ensures
        remap_opt(i, 0) == i,
{
    if let Some(x) = i {
        lemma_remap_index_below(x, 0, index_space());
    }
}

/// Shifting indices below 2^32 by zero keeps them.
proof fn lemma_remap_indices_zero(s: Seq<ExprIdx>)
    requires
        all_below(s, index_space()),
    ensures
        remap_indices(s, 0) == s,
{
    assert forall|k: int| 0 <= k < s.len() implies #[trigger] remap_indices(s, 0)[k] == s[k] by {
        lemma_remap_index_below(s[k], 0, index_space());
    }
    assert(remap_indices(s, 0) =~= s);
}

/// Shifting a block item whose indices are below 2^32 by zero keeps it.
proof fn lemma_remap_block_zero(it: BlockItem)
    requires
        block_item_below(it, index_space()),
    ensures
        remap_block(it, 0) == it,
{
    let m = index_space();
    match it {
        BlockItem::Definition { value, .. } => lemma_remap_index_below(value, 0, m),
        BlockItem::Assignment { value, .. } => lemma_remap_index_below(value, 0, m),
        BlockItem::IndexAssignment { collection, index, value } => {
            lemma_remap_index_below(collection, 0, m);
            lemma_remap_index_below(index, 0, m);
            lemma_remap_index_below(value, 0, m);
        },
        BlockItem::Expression(i) => lemma_remap_index_below(i, 0, m),
        BlockItem::Return { value } => lemma_remap_opt_zero(value),
        BlockItem::Echo { value } => lemma_remap_index_below(value, 0, m),
        _ => {},
    }
}

/// The number of expressions of all the given items.
pub open spec fn total_exprs(s: Seq<LowerItemResult>) -> nat
    decreases s.len(),
{
    if s.len() == 0 {
        0
    } else {
        total_exprs(s.drop_last()) + s.last().expressions@.len()
    }
}

/// The type recorded for combined index `k`, if any.
pub open spec fn type_at<T>(types: Seq<Option<T>>, k: ExprIdx) -> Option<T> {
    if k.0 < types.len() {
        types[k.0 as int]
    } else {
        None
    }
}

/// Splits the types recorded for a combined arena back into one map per
/// item: expression `j` of item `i` gets the type recorded for its index
/// shifted by the item's offset, when one is recorded.
pub fn split_expression_types<T: Copy>(items: &Vec<LowerItemResult>, types: &Vec<Option<T>>) -> (r: Vec<
    Vec<Option<T>>,
>)
    requires
        total_exprs(items@) <= usize::MAX,
    ensures
        r@.len() == items@.len(),
        forall|i: int|
            0 <= i < items@.len() ==> (#[trigger] r@[i])@.len() == items@[i].expressions@.len(),
        forall|i: int, j: int|
            0 <= i < items@.len() && 0 <= j < items@[i].expressions@.len() ==> (#[trigger] r@[i]@[j])
                == type_at(types@, remap_index(ExprIdx(j as usize), item_offset(items@, i))),
{
    let mut result: Vec<Vec<Option<T>>> = Vec::new();
    let mut offset: usize = 0;
    let mut i: usize = 0;
    proof {
        assert(items@.take(0) =~= Seq::<LowerItemResult>::empty());
        assert(items@.take(items@.len() as int) =~= items@);
    }
    while i < items.len()
        invariant
            i <= items@.len(),
            total_exprs(items@) <= usize::MAX,
            offset == item_offset(items@, i as int),
            items@.take(items@.len() as int) == items@,
            result@.len() == i,
            forall|p: int| 0 <= p < i ==> (#[trigger] result@[p])@.len() == items@[p].expressions@.len(),
            forall|p: int, q: int|
                0 <= p < i && 0 <= q < items@[p].expressions@.len() ==> (#[trigger] result@[p]@[q])
                    == type_at(types@, remap_index(ExprIdx(q as usize), item_offset(items@, p))),
        decreases items@.len() - i,
    {
        let count = items[i].expressions.len();
        let mut item_types: Vec<Option<T>> = Vec::new();
        let mut j: usize = 0;
        while j < count
            invariant
                j <= count,
                count == items@[i as int].expressions@.len(),
                item_types@.len() == j,
                forall|q: int|
                    0 <= q < j ==> (#[trigger] item_types@[q]) == type_at(
                        types@,
                        remap_index(ExprIdx(q as usize), offset as nat),
                    ),
            decreases count - j,
        {
            let combined = remap_idx(ExprIdx(j), offset);
            if combined.0 < types.len() {
                item_types.push(types[combined.0]);
            } else {
                item_types.push(None);
            }
            j = j + 1;
        }
        proof {
            assert(items@.take(i + 1).drop_last() =~= items@.take(i as int));
            assert(items@.take(i + 1).last() == items@[i as int]);
            if i + 1 < items@.len() {
                lemma_offsets_step(items@, i + 1, items@.len() as int);
            } else {
                assert(items@.take(i + 1) == items@);
            }
        }
        result.push(item_types);
        offset = offset + count;
        i = i + 1;
    }
    result
}

/// The type split back for expression `j` of item `i` is the one recorded at
/// the index where merging stored that expression: the item's offset plus `j`.
pub open spec fn split_reads_merged<T>(
    items: Seq<LowerItemResult>,
    r: LowerResult,
    types: Seq<Option<T>>,
    split: Seq<Seq<Option<T>>>,
    i: int,
    j: int,
) -> bool {
    &&& item_offset(items, i) + j < r.expressions@.len()
    &&& split[i][j] == type_at(types, ExprIdx((item_offset(items, i) + j) as usize))
}

/// Merging items and then splitting the types recorded for the merged arena
/// gives each item's expressions the types recorded where merging stored
/// them: expression `j` of item `i` went to index `offset + j` of the merged
/// arena (`combined_from`), and its type is read back from that index.
pub proof fn law_split_after_merge<T>(
    items: Seq<LowerItemResult>,
    r: LowerResult,
    types: Seq<Option<T>>,
    split: Seq<Seq<Option<T>>>,
)
    requires
        combined_from(items, r),
        total_exprs(items) <= index_space(),
        split.len() == items.len(),
        forall|i: int| 0 <= i < items.len() ==> (#[trigger] split[i]).len() == items[i].expressions@.len(),
        forall|i: int, j: int|
            0 <= i < items.len() && 0 <= j < items[i].expressions@.len() ==> #[trigger] split[i][j]
                == type_at(types, remap_index(ExprIdx(j as usize), item_offset(items, i))),
    ensures
        forall|i: int, j: int|
            0 <= i < items.len() && 0 <= j < items[i].expressions@.len() ==> #[trigger] split_reads_merged(
                items,
                r,
                types,
                split,
                i,
                j,
            ),
{
    assert forall|i: int, j: int|
        0 <= i < items.len() && 0 <= j < items[i].expressions@.len() implies #[trigger] split_reads_merged(
        items,
        r,
        types,
        split,
        i,
        j,
    ) by {
        lemma_merged_index(items, i, j);
        assert(split[i][j] == type_at(types, remap_index(ExprIdx(j as usize), item_offset(items, i))));
    }
}

/// Expression `j` of item `i` sits at index `offset + j` of the merged
/// arena, which its index shifted by the offset names exactly.
proof fn lemma_merged_index(items: Seq<LowerItemResult>, i: int, j: int)
    requires
        total_exprs(items) <= index_space(),
        0 <= i < items.len(),
        0 <= j < items[i].expressions@.len(),
    ensures
        item_offset(items, i) + j < total_exprs(items),
        remap_index(ExprIdx(j as usize), item_offset(items, i)) == ExprIdx(
            (item_offset(items, i) + j) as usize,
        ),
{
    let off = item_offset(items, i);
    let n = items[i].expressions@.len();
    if i + 1 < items.len() {
        lemma_offsets(items, i, items.len() as int);
    } else {
        assert(items.take(i + 1).drop_last() =~= items.take(i));
        assert(items.take(i + 1).last() == items[i]);
    }
    assert(items.take(items.len() as int) =~= items);
    assert(off + n <= total_exprs(items));
    lemma_remap_index_below(ExprIdx(j as usize), off, n);
}

/// The symbol events of all the given items, in order.
pub open spec fn all_events(s: Seq<LowerItemResult>) -> Seq<SymbolEvent>
    decreases s.len(),
{
    if s.len() == 0 {
        Seq::empty()
    } else {
        all_events(s.drop_last()) + s.last().symbols@
    }
}

/// The arena offset of item `k`: the number of expressions of the items
/// before it.
pub open spec fn item_offset(s: Seq<LowerItemResult>, k: int) -> nat {
    total_exprs(s.take(k))
}

/// `r` merges `items`: item `k` and its expressions are shifted by its
/// offset and stored in order, with their ranges, and the symbol events
/// follow each other; there are no diagnostics and no interned names.
pub open spec fn combined_from(items: Seq<LowerItemResult>, r: LowerResult) -> bool {
    &&& r.items@.len() == items.len()
    &&& r.item_spans@.len() == items.len()
    &&& r.expressions@.len() == total_exprs(items)
    &&& r.expr_spans@.len() == total_exprs(items)
    &&& forall|k: int|
        #![trigger items[k]]
        0 <= k < items.len() ==> r.item_spans@[k] == items[k].item_span && remapped_item(
            items[k].item,
            r.items@[k],
            item_offset(items, k),
        )
    &&& forall|k: int, j: int|
        #![trigger items[k].expressions@[j]]
        0 <= k < items.len() && 0 <= j < items[k].expressions@.len() ==> remapped_expr(
            items[k].expressions@[j],
            r.expressions@[item_offset(items, k) + j],
            item_offset(items, k),
        ) && r.expr_spans@[item_offset(items, k) + j] == items[k].expr_spans@[j]
    &&& r.symbols@ == all_events(items)
    &&& r.diagnostics@.len() == 0
    &&& r.interner@.len() == 0
}

/// The offsets of the items grow with the items before them.
proof fn lemma_offsets(s: Seq<LowerItemResult>, a: int, b: int)
    requires
        0 <= a < b <= s.len(),
    ensures
        item_offset(s, a) + s[a].expressions@.len() <= item_offset(s, b),
{
    assert(s.take(a + 1).drop_last() =~= s.take(a));
    assert(s.take(a + 1).last() == s[a]);
    lemma_offsets_step(s, a + 1, b);
}

/// Offsets never decrease.
proof fn lemma_offsets_step(s: Seq<LowerItemResult>, a: int, b: int)
    requires
        0 <= a <= b <= s.len(),
    ensures
        item_offset(s, a) <= item_offset(s, b),
    decreases b - a,
{
    if a < b {
        assert(s.take(b).drop_last() =~= s.take(b - 1));
        lemma_offsets_step(s, a, b - 1);
    }
}

fn copy_event(e: &SymbolEvent) -> (r: SymbolEvent)
    ensures
        r == *e,
{
    match e {
        SymbolEvent::Define { name, def_span, name_span, doc_comment } => SymbolEvent::Define {
            name: name.clone(),
            def_span: *def_span,
            name_span: *name_span,
            doc_comment: match doc_comment {
                Some(d) => Some(d.clone()),
                None => None,
            },
        },
        SymbolEvent::Reference { name, span } => SymbolEvent::Reference {
            name: name.clone(),
            span: *span,
        },
        SymbolEvent::PushScope => SymbolEvent::PushScope,
        SymbolEvent::PopScope => SymbolEvent::PopScope,
    }
}

/// Appending the shifted expressions of item `k` keeps those of the items
/// before it where they were.
proof fn lemma_merged_exprs(
    s: Seq<LowerItemResult>,
    k: int,
    prev_exprs: Seq<Expression>,
    prev_spans: Seq<TextRange>,
    exprs: Seq<Expression>,
    spans: Seq<TextRange>,
)
    requires
        0 <= k < s.len(),
        prev_exprs.len() == item_offset(s, k),
        prev_spans.len() == prev_exprs.len(),
        exprs.take(prev_exprs.len() as int) == prev_exprs,
        spans.take(prev_exprs.len() as int) == prev_spans,
        exprs.len() == prev_exprs.len() + s[k].expressions@.len(),
        spans.len() == exprs.len(),
        forall|q: int, j: int|
            #![trigger s[q].expressions@[j]]
            0 <= q < k && 0 <= j < s[q].expressions@.len() ==> remapped_expr(
                s[q].expressions@[j],
                prev_exprs[item_offset(s, q) + j],
                item_offset(s, q),
            ) && prev_spans[item_offset(s, q) + j] == s[q].expr_spans@[j],
        forall|i: int|
            0 <= i < s[k].expressions@.len() ==> remapped_expr(
                #[trigger] s[k].expressions@[i],
                exprs[prev_exprs.len() + i],
                prev_exprs.len() as nat,
            ) && spans[prev_exprs.len() + i] == s[k].expr_spans@[i],
    ensures
        forall|q: int, j: int|
            #![trigger s[q].expressions@[j]]
            0 <= q < k + 1 && 0 <= j < s[q].expressions@.len() ==> remapped_expr(
                s[q].expressions@[j],
                exprs[item_offset(s, q) + j],
                item_offset(s, q),
            ) && spans[item_offset(s, q) + j] == s[q].expr_spans@[j],
{
    let offset = prev_exprs.len() as int;
    assert forall|q: int, i: int|
        #![trigger s[q].expressions@[i]]
        0 <= q < k + 1 && 0 <= i < s[q].expressions@.len() implies remapped_expr(
        s[q].expressions@[i],
        exprs[item_offset(s, q) + i],
        item_offset(s, q),
    ) && spans[item_offset(s, q) + i] == s[q].expr_spans@[i] by {
        if q < k {
            lemma_offsets(s, q, k);
            assert(exprs[item_offset(s, q) + i] == exprs.take(offset)[item_offset(s, q) + i]);
            assert(spans[item_offset(s, q) + i] == spans.take(offset)[item_offset(s, q) + i]);
        }
    }
}

/// The expressions of an item, shifted by `offset`, with their ranges.
#[verifier::spinoff_prover]
fn remap_item_exprs(it: &LowerItemResult, offset: usize) -> (r: (Vec<Expression>, Vec<TextRange>))
    requires
        it.expr_spans@.len() == it.expressions@.len(),
    ensures
        r.0@.len() == it.expressions@.len(),
        r.1@.len() == it.expressions@.len(),
        forall|i: int|
            0 <= i < it.expressions@.len() ==> remapped_expr(
                #[trigger] it.expressions@[i],
                r.0@[i],
                offset as nat,
            ) && r.1@[i] == it.expr_spans@[i],
        (it.wf() && offset + it.expressions@.len() <= index_space()) ==> forall|i: int|
            0 <= i < r.0@.len() ==> expr_below(#[trigger] r.0@[i], (offset + i) as nat),
{
    let mut exprs: Vec<Expression> = Vec::new();
    let mut spans: Vec<TextRange> = Vec::new();
    let ghost good = it.wf() && offset + it.expressions@.len() <= index_space();
    let mut j: usize = 0;
    while j < it.expressions.len()
        invariant
            it.expr_spans@.len() == it.expressions@.len(),
            j <= it.expressions@.len(),
            exprs@.len() == j,
            spans@.len() == j,
            forall|i: int|
                0 <= i < exprs@.len() ==> remapped_expr(
                    #[trigger] it.expressions@[i],
                    exprs@[i],
                    offset as nat,
                ) && spans@[i] == it.expr_spans@[i],
            good == (it.wf() && offset + it.expressions@.len() <= index_space()),
            good ==> forall|i: int|
                0 <= i < exprs@.len() ==> expr_below(#[trigger] exprs@[i], (offset + i) as nat),
        decreases it.expressions@.len() - j,
    {
        let e = remap_expression(&it.expressions[j], offset);
        proof {
            if good {
                assert(expr_below(it.expressions@[j as int], j as nat));
                law_remap_keeps_below(it.expressions@[j as int], e, offset as nat, j as nat);
            }
        }
        exprs.push(e);
        spans.push(it.expr_spans[j]);
        j = j + 1;
    }
    assert forall|i: int| 0 <= i < it.expressions@.len() implies remapped_expr(
        #[trigger] it.expressions@[i],
        exprs@[i],
        offset as nat,
    ) && spans@[i] == it.expr_spans@[i] by {
        assert(i < exprs@.len());
    }
    (exprs, spans)
}

/// Appends the expressions of an item, shifted by the number of expressions
/// already stored, with their ranges.
fn push_item_exprs(exprs: &mut Vec<Expression>, spans: &mut Vec<TextRange>, it: &LowerItemResult)
    requires
        old(exprs)@.len() == old(spans)@.len(),
        it.expr_spans@.len() == it.expressions@.len(),
    ensures
        final(exprs)@.len() == old(exprs)@.len() + it.expressions@.len(),
        final(spans)@.len() == final(exprs)@.len(),
        final(exprs)@.take(old(exprs)@.len() as int) == old(exprs)@,
        final(spans)@.take(old(exprs)@.len() as int) == old(spans)@,
        forall|i: int|
            0 <= i < it.expressions@.len() ==> remapped_expr(
                #[trigger] it.expressions@[i],
                final(exprs)@[old(exprs)@.len() + i],
                old(exprs)@.len() as nat,
            ) && final(spans)@[old(exprs)@.len() + i] == it.expr_spans@[i],
        (arena_wf(old(exprs)@) && it.wf() && old(exprs)@.len() + it.expressions@.len()
            <= index_space()) ==> arena_wf(final(exprs)@),
{
    let offset = exprs.len();
    let ghost prev = exprs@;
    let ghost prev_spans = spans@;
    let (mut new_exprs, mut new_spans) = remap_item_exprs(it, offset);
    let ghost ne = new_exprs@;
    let ghost ns = new_spans@;
    exprs.append(&mut new_exprs);
    spans.append(&mut new_spans);
    proof {
        assert(exprs@ == prev + ne);
        assert(spans@ == prev_spans + ns);
        assert(exprs@.take(offset as int) =~= prev);
        assert(spans@.take(offset as int) =~= prev_spans);
        assert forall|i: int| 0 <= i < it.expressions@.len() implies remapped_expr(
            #[trigger] it.expressions@[i],
            exprs@[offset + i],
            offset as nat,
        ) && spans@[offset + i] == it.expr_spans@[i] by {
            assert(exprs@[offset + i] == ne[i]);
            assert(spans@[offset + i] == ns[i]);
        }
        if arena_wf(prev) && it.wf() && offset + it.expressions@.len() <= index_space() {
            assert forall|p: int| 0 <= p < exprs@.len() implies expr_below(
                #[trigger] exprs@[p],
                p as nat,
            ) by {
                if p < offset {
                    assert(exprs@[p] == prev[p]);
                } else {
                    assert(exprs@[p] == ne[p - offset]);
                    assert(expr_below(ne[p - offset], (offset + (p - offset)) as nat));
                }
            }
        }
    }
}

/// Appends copies of symbol events.
fn push_events(out: &mut Vec<SymbolEvent>, events: &Vec<SymbolEvent>)
    ensures
        final(out)@ == old(out)@ + events@,
{
    let mut e: usize = 0;
    let ghost prev = out@;
    while e < events.len()
        invariant
            e <= events@.len(),
            out@ == prev + events@.take(e as int),
        decreases events@.len() - e,
    {
        out.push(copy_event(&events[e]));
        e = e + 1;
        assert(out@ =~= prev + events@.take(e as int));
    }
    assert(events@.take(events@.len() as int) =~= events@);
}

/// The first `k` items of `s` are merged into the given sequences: as in
/// [`combined_from`], and well formed when those items are and their
/// expressions fit the 32-bit index space.
#[verifier::opaque]
spec fn merged_prefix(
    s: Seq<LowerItemResult>,
    k: int,
    items: Seq<Item>,
    item_spans: Seq<TextRange>,
    exprs: Seq<Expression>,
    spans: Seq<TextRange>,
    symbols: Seq<SymbolEvent>,
) -> bool {
    &&& 0 <= k <= s.len()
    &&& items.len() == k
    &&& item_spans.len() == k
    &&& exprs.len() == item_offset(s, k)
    &&& spans.len() == exprs.len()
    &&& forall|q: int|
        #![trigger s[q]]
        0 <= q < k ==> item_spans[q] == s[q].item_span && remapped_item(
            s[q].item,
            items[q],
            item_offset(s, q),
        )
    &&& forall|q: int, j: int|
        #![trigger s[q].expressions@[j]]
        0 <= q < k && 0 <= j < s[q].expressions@.len() ==> remapped_expr(
            s[q].expressions@[j],
            exprs[item_offset(s, q) + j],
            item_offset(s, q),
        ) && spans[item_offset(s, q) + j] == s[q].expr_spans@[j]
    &&& symbols == all_events(s.take(k))
    &&& ((forall|q: int| 0 <= q < k ==> (#[trigger] s[q]).wf()) && item_offset(s, k)
        <= index_space()) ==> (arena_wf(exprs) && forall|q: int|
        0 <= q < k ==> item_below(#[trigger] items[q], exprs.len()))
}

/// Merging no item gives the empty merge.
proof fn lemma_merge_start(s: Seq<LowerItemResult>)
    ensures
        merged_prefix(s, 0, Seq::empty(), Seq::empty(), Seq::empty(), Seq::empty(), Seq::empty()),
{
    reveal(merged_prefix);
    assert(s.take(0) =~= Seq::<LowerItemResult>::empty());
}

/// Merging item `k` after the first `k` items gives the first `k + 1`.
#[verifier::rlimit(40)]
proof fn lemma_merge_step(
    s: Seq<LowerItemResult>,
    k: int,
    items: Seq<Item>,
    item_spans: Seq<TextRange>,
    exprs: Seq<Expression>,
    spans: Seq<TextRange>,
    symbols: Seq<SymbolEvent>,
    ri: Item,
    exprs2: Seq<Expression>,
    spans2: Seq<TextRange>,
)
    requires
        merged_prefix(s, k, items, item_spans, exprs, spans, symbols),
        0 <= k < s.len(),
        remapped_item(s[k].item, ri, exprs.len() as nat),
        exprs2.len() == exprs.len() + s[k].expressions@.len(),
        spans2.len() == exprs2.len(),
        exprs2.take(exprs.len() as int) == exprs,
        spans2.take(exprs.len() as int) == spans,
        forall|i: int|
            0 <= i < s[k].expressions@.len() ==> remapped_expr(
                #[trigger] s[k].expressions@[i],
                exprs2[exprs.len() + i],
                exprs.len() as nat,
            ) && spans2[exprs.len() + i] == s[k].expr_spans@[i],
        (arena_wf(exprs) && s[k].wf() && exprs.len() + s[k].expressions@.len() <= index_space())
            ==> arena_wf(exprs2),
    ensures
        merged_prefix(
            s,
            k + 1,
            items.push(ri),
            item_spans.push(s[k].item_span),
            exprs2,
            spans2,
            symbols + s[k].symbols@,
        ),
{
    reveal(merged_prefix);
    let offset = exprs.len();
    assert(s.take(k + 1).drop_last() =~= s.take(k));
    assert(s.take(k + 1).last() == s[k]);
    assert(item_offset(s, k + 1) == offset + s[k].expressions@.len());
    lemma_merged_exprs(s, k, exprs, spans, exprs2, spans2);
    let items2 = items.push(ri);
    let item_spans2 = item_spans.push(s[k].item_span);
    assert forall|q: int|
        #![trigger s[q]]
        0 <= q < k + 1 implies item_spans2[q] == s[q].item_span && remapped_item(
        s[q].item,
        items2[q],
        item_offset(s, q),
    ) by {
        if q < k {
            assert(items2[q] == items[q]);
            assert(item_spans2[q] == item_spans[q]);
        }
    }
    if (forall|q: int| 0 <= q < k + 1 ==> (#[trigger] s[q]).wf()) && item_offset(s, k + 1)
        <= index_space() {
        assert(forall|q: int| 0 <= q < k ==> (#[trigger] s[q]).wf());
        assert(s[k].wf());
        lemma_offsets_step(s, k, k + 1);
        assert(arena_wf(exprs));
        law_remap_item_keeps_below(s[k].item, ri, offset as nat, s[k].expressions@.len() as nat);
        assert forall|q: int| 0 <= q < k + 1 implies item_below(
            #[trigger] items2[q],
            exprs2.len(),
        ) by {
            if q < k {
                assert(items2[q] == items[q]);
                lemma_item_below_mono(items[q], exprs.len(), exprs2.len());
            }
        }
    }
}

/// All items merged: the merge is [`combined_from`] them.
proof fn lemma_merge_done(s: Seq<LowerItemResult>, r: LowerResult)
    requires
        merged_prefix(
            s,
            s.len() as int,
            r.items@,
            r.item_spans@,
            r.expressions@,
            r.expr_spans@,
            r.symbols@,
        ),
        r.diagnostics@.len() == 0,
        r.interner@.len() == 0,
    ensures
        combined_from(s, r),
        (forall|k: int| 0 <= k < s.len() ==> (#[trigger] s[k]).wf()) && total_exprs(s)
            <= index_space() ==> r.wf(),
{
    reveal(merged_prefix);
    assert(s.take(s.len() as int) =~= s);
}

/// Merges separately lowered items into one result whose arena holds the
/// expressions of all items in order, each item and expression shifted by
/// the number of expressions before its item. When every item is well formed
/// and all expressions fit the 32-bit index space, the result is well
/// formed.
pub fn build_combined_hir(items: &Vec<LowerItemResult>) -> (r: LowerResult)
    requires
        forall|k: int|
            0 <= k < items@.len() ==> (#[trigger] items@[k]).expr_spans@.len()
                == items@[k].expressions@.len(),
    ensures
        combined_from(items@, r),
        (forall|k: int| 0 <= k < items@.len() ==> (#[trigger] items@[k]).wf()) && total_exprs(
            items@,
        ) <= index_space() ==> r.wf(),
{
    let ghost s = items@;
    let mut out_items: Vec<Item> = Vec::new();
    let mut out_item_spans: Vec<TextRange> = Vec::new();
    let mut out_exprs: Vec<Expression> = Vec::new();
    let mut out_spans: Vec<TextRange> = Vec::new();
    let mut out_symbols: Vec<SymbolEvent> = Vec::new();
    let mut k: usize = 0;
    proof {
        lemma_merge_start(s);
    }
    while k < items.len()
        invariant
            s == items@,
            k <= s.len(),
            forall|q: int|
                0 <= q < s.len() ==> (#[trigger] s[q]).expr_spans@.len() == s[q].expressions@.len(),
            out_spans@.len() == out_exprs@.len(),
            merged_prefix(
                s,
                k as int,
                out_items@,
                out_item_spans@,
                out_exprs@,
                out_spans@,
                out_symbols@,
            ),
        decreases s.len() - k,
    {
        let it = &items[k];
        let offset = out_exprs.len();
        let ghost prev_items = out_items@;
        let ghost prev_item_spans = out_item_spans@;
        let ghost prev_exprs = out_exprs@;
        let ghost prev_spans = out_spans@;
        let ghost prev_symbols = out_symbols@;
        push_item_exprs(&mut out_exprs, &mut out_spans, it);
        let ri = remap_item(&it.item, offset);
        out_items.push(ri);
        out_item_spans.push(it.item_span);
        push_events(&mut out_symbols, &it.symbols);
        proof {
            lemma_merge_step(
                s,
                k as int,
                prev_items,
                prev_item_spans,
                prev_exprs,
                prev_spans,
                prev_symbols,
                ri,
                out_exprs@,
                out_spans@,
            );
        }
        k = k + 1;
    }
    let r = LowerResult {
        items: out_items,
        expressions: out_exprs,
        expr_spans: out_spans,
        item_spans: out_item_spans,
        symbols: out_symbols,
        diagnostics: Vec::new(),
        interner: Interner::new(),
    };
    proof {
        lemma_merge_done(s, r);
    }
    r
}

} // verus!
