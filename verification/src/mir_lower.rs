//! Lowering of the high-level IR to the mid-level IR: each named function,
//! each anonymous function and the top-level code become a function of
//! basic blocks; names become local slots, captured values or direct
//! function references.
use vstd::prelude::*;

use crate::hir::{
    BlockItem, Definition, ExprIdx, Expression, FunctionParam, Ident, InfixOp, Item, Literal,
    PrefixOp, ResolvedIdent, arena_wf, block_item_below, expr_below, item_below,
};
use crate::hir_lower::LowerResult;
use crate::mir::{Block, BlockId, CapturedVar, FuncId, Function, Inst, LocalId, Module, Operand, VReg};

use crate::hir_shape::extends;

verus! {

/// The identifier that a resolved identifier names.
pub open spec fn ident_of(r: ResolvedIdent) -> Ident {
    match r {
        ResolvedIdent::Local(id) => id,
        ResolvedIdent::External { name, .. } => name,
    }
}

/// A block item that the lowering handles (definitions, assignments,
/// expressions, returns and echoes), with its names interned (below `n`).
pub open spec fn mir_block_item_ok(it: BlockItem, n: nat) -> bool {
    match it {
        BlockItem::Definition { name, .. } => name.0 < n,
        BlockItem::Assignment { name, .. } => name.0 < n,
        BlockItem::Expression(_) => true,
        BlockItem::Return { .. } => true,
        BlockItem::Echo { .. } => true,
        _ => false,
    }
}

/// An expression that the lowering handles (no loops, ranges, jumps,
/// collections, indexing or tuples), with its names interned (below `n`).
pub open spec fn mir_expr_ok(e: Expression, n: nat) -> bool {
    match e {
        Expression::Missing => true,
        Expression::Literal(_) => true,
        Expression::Infix { .. } => true,
        Expression::Prefix { .. } => true,
        Expression::VariableRef { name } => ident_of(name).0 < n,
        Expression::Block { items, .. } => forall|k: int|
            0 <= k < items@.len() ==> mir_block_item_ok(#[trigger] items@[k], n),
        Expression::If { .. } => true,
        Expression::Function { params, captures, .. } => (forall|k: int|
            0 <= k < params@.len() ==> (#[trigger] params@[k]).name.0 < n) && (forall|k: int|
            0 <= k < captures@.len() ==> (#[trigger] captures@[k]).0 < n),
        Expression::Call { .. } => true,
        Expression::Return { .. } => true,
        Expression::Echo { .. } => true,
        _ => false,
    }
}

/// A top-level item that the lowering handles, with its names interned.
pub open spec fn mir_item_ok(it: Item, n: nat) -> bool {
    match it {
        Item::Definition(Definition::Variable { name, value }) => name.0 < n && mir_expr_ok(
            value,
            n,
        ),
        Item::Definition(Definition::Function { name, params, .. }) => name.0 < n && forall|k: int|
            0 <= k < params@.len() ==> (#[trigger] params@[k]).name.0 < n,
        Item::Assignment { name, value } => name.0 < n && mir_expr_ok(value, n),
        Item::Expression(e) => mir_expr_ok(e, n),
        _ => false,
    }
}

/// What the lowering takes: a well-formed result of the HIR lowering whose
/// expressions and items are all of the kinds it handles.
pub open spec fn mir_input(hir: LowerResult) -> bool {
    &&& hir.wf()
    &&& forall|p: int|
        0 <= p < hir.expressions@.len() ==> mir_expr_ok(
            #[trigger] hir.expressions@[p],
            hir.interner@.len(),
        )
    &&& forall|k: int|
        0 <= k < hir.items@.len() ==> mir_item_ok(#[trigger] hir.items@[k], hir.interner@.len())
}

/// What one expression node adds at most to any counter of the lowering
/// (registers, locals, blocks, functions), apart from its operands.
pub open spec fn node_cost(e: Expression) -> nat {
    3 + match e {
        Expression::Function { params, captures, .. } => params@.len() + captures@.len(),
        Expression::Block { items, .. } => items@.len(),
        Expression::Call { args, .. } => args@.len(),
        _ => 0,
    }
}

/// The cost of the expression stored at `i`: its node cost and the costs
/// of its operands, each counted every time it is referred to.
pub open spec fn idx_cost(a: Seq<Expression>, i: int) -> nat
    decreases i, 10int, 0int,
{
    if 0 <= i < a.len() {
        expr_cost(a, a[i], i)
    } else {
        0
    }
}

/// The cost of an operand index below `bound`.
pub open spec fn child_cost(a: Seq<Expression>, j: ExprIdx, bound: int) -> nat
    decreases bound, 5int, 0int,
{
    if 0 <= j.0 < bound {
        idx_cost(a, j.0 as int)
    } else {
        0
    }
}

/// The cost of an optional operand index below `bound`.
pub open spec fn opt_cost(a: Seq<Expression>, j: Option<ExprIdx>, bound: int) -> nat
    decreases bound, 6int, 0int,
{
    match j {
        Some(x) => child_cost(a, x, bound),
        None => 0,
    }
}

/// The costs of operand indices below `bound`.
pub open spec fn args_cost(a: Seq<Expression>, s: Seq<ExprIdx>, bound: int) -> nat
    decreases bound, 8int, s.len(),
{
    if s.len() == 0 {
        0
    } else {
        args_cost(a, s.drop_last(), bound) + child_cost(a, s.last(), bound)
    }
}

/// The cost of the operand of a block item.
pub open spec fn block_item_cost(a: Seq<Expression>, it: BlockItem, bound: int) -> nat
    decreases bound, 7int, 0int,
{
    match it {
        BlockItem::Definition { value, .. } => child_cost(a, value, bound),
        BlockItem::Assignment { value, .. } => child_cost(a, value, bound),
        BlockItem::Expression(i) => child_cost(a, i, bound),
        BlockItem::Return { value } => opt_cost(a, value, bound),
        BlockItem::Echo { value } => child_cost(a, value, bound),
        _ => 0,
    }
}

/// The costs of the operands of block items.
pub open spec fn items_cost(a: Seq<Expression>, s: Seq<BlockItem>, bound: int) -> nat
    decreases bound, 8int, s.len(),
{
    if s.len() == 0 {
        0
    } else {
        items_cost(a, s.drop_last(), bound) + block_item_cost(a, s.last(), bound)
    }
}

/// The cost of an expression whose operands lie below `bound`.
pub open spec fn expr_cost(a: Seq<Expression>, e: Expression, bound: int) -> nat
    decreases bound, 9int, 0int,
{
    node_cost(e) + match e {
        Expression::Infix { lhs, rhs, .. } => child_cost(a, lhs, bound) + child_cost(a, rhs, bound),
        Expression::Prefix { expr, .. } => child_cost(a, expr, bound),
        Expression::Block { items, tail } => items_cost(a, items@, bound) + opt_cost(
            a,
            tail,
            bound,
        ),
        Expression::If { condition, then_branch, else_branch } => child_cost(a, condition, bound)
            + child_cost(a, then_branch, bound) + opt_cost(a, else_branch, bound),
        Expression::Function { body, .. } => child_cost(a, body, bound),
        Expression::Call { callee, args } => child_cost(a, callee, bound) + args_cost(
            a,
            args@,
            bound,
        ),
        Expression::Return { value } => opt_cost(a, value, bound),
        Expression::Echo { value } => child_cost(a, value, bound),
        _ => 0,
    }
}


/// The number of anonymous functions in the expression stored at `i`,
/// counting those of its operands each time one is referred to.
pub open spec fn lam_idx(a: Seq<Expression>, i: int) -> nat
    decreases i, 10int, 0int,
{
    if 0 <= i < a.len() {
        lam_expr(a, a[i], i)
    } else {
        0
    }
}

/// The number of anonymous functions of an operand index below `bound`.
pub open spec fn lam_child(a: Seq<Expression>, j: ExprIdx, bound: int) -> nat
    decreases bound, 5int, 0int,
{
    if 0 <= j.0 < bound {
        lam_idx(a, j.0 as int)
    } else {
        0
    }
}

/// The number of anonymous functions of an optional operand index.
pub open spec fn lam_opt(a: Seq<Expression>, j: Option<ExprIdx>, bound: int) -> nat
    decreases bound, 6int, 0int,
{
    match j {
        Some(x) => lam_child(a, x, bound),
        None => 0,
    }
}

/// The number of anonymous functions of operand indices.
pub open spec fn lam_args(a: Seq<Expression>, s: Seq<ExprIdx>, bound: int) -> nat
    decreases bound, 8int, s.len(),
{
    if s.len() == 0 {
        0
    } else {
        lam_args(a, s.drop_last(), bound) + lam_child(a, s.last(), bound)
    }
}

/// The number of anonymous functions of the operand of a block item.
pub open spec fn lam_block_item(a: Seq<Expression>, it: BlockItem, bound: int) -> nat
    decreases bound, 7int, 0int,
{
    match it {
        BlockItem::Definition { value, .. } => lam_child(a, value, bound),
        BlockItem::Assignment { value, .. } => lam_child(a, value, bound),
        BlockItem::Expression(i) => lam_child(a, i, bound),
        BlockItem::Return { value } => lam_opt(a, value, bound),
        BlockItem::Echo { value } => lam_child(a, value, bound),
        _ => 0,
    }
}

/// The number of anonymous functions of the operands of block items.
pub open spec fn lam_items(a: Seq<Expression>, s: Seq<BlockItem>, bound: int) -> nat
    decreases bound, 8int, s.len(),
{
    if s.len() == 0 {
        0
    } else {
        lam_items(a, s.drop_last(), bound) + lam_block_item(a, s.last(), bound)
    }
}

/// The number of anonymous functions in an expression whose operands lie
/// below `bound`: lowering it adds one function for each.
pub open spec fn lam_expr(a: Seq<Expression>, e: Expression, bound: int) -> nat
    decreases bound, 9int, 0int,
{
    match e {
        Expression::Infix { lhs, rhs, .. } => lam_child(a, lhs, bound) + lam_child(a, rhs, bound),
        Expression::Prefix { expr, .. } => lam_child(a, expr, bound),
        Expression::Block { items, tail } => lam_items(a, items@, bound) + lam_opt(a, tail, bound),
        Expression::If { condition, then_branch, else_branch } => lam_child(a, condition, bound)
            + lam_child(a, then_branch, bound) + lam_opt(a, else_branch, bound),
        Expression::Function { body, .. } => 1 + lam_child(a, body, bound),
        Expression::Call { callee, args } => lam_child(a, callee, bound) + lam_args(a, args@, bound),
        Expression::Return { value } => lam_opt(a, value, bound),
        Expression::Echo { value } => lam_child(a, value, bound),
        _ => 0,
    }
}

/// An operand names only registers below `nv`.
pub open spec fn operand_ok(o: Operand, nv: nat) -> bool {
    o matches Operand::VReg(v) ==> v.0 < nv
}

/// Every operand names only registers below `nv`.
pub open spec fn operands_ok(s: Seq<Operand>, nv: nat) -> bool {
    forall|k: int| 0 <= k < s.len() ==> operand_ok(#[trigger] s[k], nv)
}

/// An instruction names only registers below `nv` and locals below `nl`.
pub open spec fn inst_ok(i: Inst, nv: nat, nl: nat) -> bool {
    match i {
        Inst::AddInt { dst, lhs, rhs } => dst.0 < nv && operand_ok(lhs, nv) && operand_ok(rhs, nv),
        Inst::SubInt { dst, lhs, rhs } => dst.0 < nv && operand_ok(lhs, nv) && operand_ok(rhs, nv),
        Inst::MulInt { dst, lhs, rhs } => dst.0 < nv && operand_ok(lhs, nv) && operand_ok(rhs, nv),
        Inst::DivInt { dst, lhs, rhs } => dst.0 < nv && operand_ok(lhs, nv) && operand_ok(rhs, nv),
        Inst::ModInt { dst, lhs, rhs } => dst.0 < nv && operand_ok(lhs, nv) && operand_ok(rhs, nv),
        Inst::NegInt { dst, src } => dst.0 < nv && operand_ok(src, nv),
        Inst::AddFloat { dst, lhs, rhs } => dst.0 < nv && operand_ok(lhs, nv) && operand_ok(rhs, nv),
        Inst::SubFloat { dst, lhs, rhs } => dst.0 < nv && operand_ok(lhs, nv) && operand_ok(rhs, nv),
        Inst::MulFloat { dst, lhs, rhs } => dst.0 < nv && operand_ok(lhs, nv) && operand_ok(rhs, nv),
        Inst::DivFloat { dst, lhs, rhs } => dst.0 < nv && operand_ok(lhs, nv) && operand_ok(rhs, nv),
        Inst::NegFloat { dst, src } => dst.0 < nv && operand_ok(src, nv),
        Inst::EqInt { dst, lhs, rhs } => dst.0 < nv && operand_ok(lhs, nv) && operand_ok(rhs, nv),
        Inst::NeInt { dst, lhs, rhs } => dst.0 < nv && operand_ok(lhs, nv) && operand_ok(rhs, nv),
        Inst::LtInt { dst, lhs, rhs } => dst.0 < nv && operand_ok(lhs, nv) && operand_ok(rhs, nv),
        Inst::LeInt { dst, lhs, rhs } => dst.0 < nv && operand_ok(lhs, nv) && operand_ok(rhs, nv),
        Inst::GtInt { dst, lhs, rhs } => dst.0 < nv && operand_ok(lhs, nv) && operand_ok(rhs, nv),
        Inst::GeInt { dst, lhs, rhs } => dst.0 < nv && operand_ok(lhs, nv) && operand_ok(rhs, nv),
        Inst::LtFloat { dst, lhs, rhs } => dst.0 < nv && operand_ok(lhs, nv) && operand_ok(rhs, nv),
        Inst::LeFloat { dst, lhs, rhs } => dst.0 < nv && operand_ok(lhs, nv) && operand_ok(rhs, nv),
        Inst::GtFloat { dst, lhs, rhs } => dst.0 < nv && operand_ok(lhs, nv) && operand_ok(rhs, nv),
        Inst::GeFloat { dst, lhs, rhs } => dst.0 < nv && operand_ok(lhs, nv) && operand_ok(rhs, nv),
        Inst::Not { dst, src } => dst.0 < nv && operand_ok(src, nv),
        Inst::Copy { dst, src } => dst.0 < nv && operand_ok(src, nv),
        Inst::StoreLocal { local, src } => local.0 < nl && operand_ok(src, nv),
        Inst::LoadLocal { dst, local } => dst.0 < nv && local.0 < nl,
        Inst::Jump { .. } => true,
        Inst::Branch { cond, .. } => operand_ok(cond, nv),
        Inst::Return { value } => value matches Some(o) ==> operand_ok(o, nv),
        Inst::Call { dst, args, .. } => (dst matches Some(d) ==> d.0 < nv) && operands_ok(args@, nv),
        Inst::CallIndirect { dst, callee, args } => (dst matches Some(d) ==> d.0 < nv) && operand_ok(
            callee,
            nv,
        ) && operands_ok(args@, nv),
        Inst::MakeClosure { dst, captures, .. } => dst.0 < nv && operands_ok(captures@, nv),
        Inst::LoadCapture { dst, .. } => dst.0 < nv,
        Inst::StoreCapture { src, .. } => operand_ok(src, nv),
        Inst::Echo { src } => operand_ok(src, nv),
    }
}

/// Every instruction of a block names only registers below `nv` and
/// locals below `nl`.
pub open spec fn block_ok(b: Block, nv: nat, nl: nat) -> bool {
    forall|k: int| 0 <= k < b.insts@.len() ==> inst_ok(#[trigger] b.insts@[k], nv, nl)
}

/// Every block names only registers below `nv` and locals below `nl`.
pub open spec fn blocks_ok(bs: Seq<Block>, nv: nat, nl: nat) -> bool {
    forall|k: int| 0 <= k < bs.len() ==> block_ok(#[trigger] bs[k], nv, nl)
}

/// A function uses only the registers and locals it counts, and its
/// parameters are among its locals.
pub open spec fn function_ok(f: Function) -> bool {
    &&& blocks_ok(f.blocks@, f.vreg_count as nat, f.local_count as nat)
    &&& forall|k: int| 0 <= k < f.params@.len() ==> (#[trigger] f.params@[k]).0 < f.local_count
}

/// Raising the bounds keeps an instruction within them.
proof fn lemma_inst_ok_mono(i: Inst, nv: nat, nl: nat, nv2: nat, nl2: nat)
    requires
        inst_ok(i, nv, nl),
        nv <= nv2,
        nl <= nl2,
    ensures
        inst_ok(i, nv2, nl2),
{
    match i {
        Inst::Call { args, .. } => {
            assert forall|k: int| 0 <= k < args@.len() implies operand_ok(#[trigger] args@[k], nv2) by {
                assert(operand_ok(args@[k], nv));
            }
        },
        Inst::CallIndirect { args, .. } => {
            assert forall|k: int| 0 <= k < args@.len() implies operand_ok(#[trigger] args@[k], nv2) by {
                assert(operand_ok(args@[k], nv));
            }
        },
        Inst::MakeClosure { captures, .. } => {
            assert forall|k: int| 0 <= k < captures@.len() implies operand_ok(
                #[trigger] captures@[k],
                nv2,
            ) by {
                assert(operand_ok(captures@[k], nv));
            }
        },
        _ => {},
    }
}

/// Raising the bounds keeps blocks within them.
proof fn lemma_blocks_ok_mono(bs: Seq<Block>, nv: nat, nl: nat, nv2: nat, nl2: nat)
    requires
        blocks_ok(bs, nv, nl),
        nv <= nv2,
        nl <= nl2,
    ensures
        blocks_ok(bs, nv2, nl2),
{
    assert forall|k: int| 0 <= k < bs.len() implies block_ok(#[trigger] bs[k], nv2, nl2) by {
        assert(block_ok(bs[k], nv, nl));
        assert forall|m: int| 0 <= m < bs[k].insts@.len() implies inst_ok(
            #[trigger] bs[k].insts@[m],
            nv2,
            nl2,
        ) by {
            lemma_inst_ok_mono(bs[k].insts@[m], nv, nl, nv2, nl2);
        }
    }
}

/// The last value bound to `name` among `(name, value)` entries.
pub open spec fn lookup_last<T>(entries: Seq<(String, T)>, name: Seq<char>) -> Option<T>
    decreases entries.len(),
{
    if entries.len() == 0 {
        None
    } else if entries.last().0@ == name {
        Some(entries.last().1)
    } else {
        lookup_last(entries.drop_last(), name)
    }
}

/// The local bound to `name` in the innermost scope that binds it.
pub open spec fn lookup_scopes(scopes: Seq<Vec<(String, LocalId)>>, name: Seq<char>) -> Option<
    LocalId,
>
    decreases scopes.len(),
{
    if scopes.len() == 0 {
        None
    } else {
        match lookup_last(scopes.last()@, name) {
            Some(l) => Some(l),
            None => lookup_scopes(scopes.drop_last(), name),
        }
    }
}

/// The last value bound to `name`.
fn find_last<T: Copy>(entries: &Vec<(String, T)>, name: &str) -> (r: Option<T>)
    ensures
        r == lookup_last(entries@, name@),
{
    let owned = name.to_owned();
    let mut i: usize = entries.len();
    assert(entries@.take(i as int) =~= entries@);
    while i > 0
        invariant
            owned@ == name@,
            i <= entries@.len(),
            lookup_last(entries@, name@) == lookup_last(entries@.take(i as int), name@),
        decreases i,
    {
        assert(entries@.take(i as int).drop_last() =~= entries@.take(i - 1));
        assert(entries@.take(i as int).last() == entries@[i - 1]);
        if entries[i - 1].0 == owned {
            return Some(entries[i - 1].1);
        }
        i = i - 1;
    }
    assert(entries@.take(0) =~= Seq::<(String, T)>::empty());
    None
}

/// Saved state of the enclosing function while a nested one is lowered.
struct SavedContext {
    blocks: Vec<Block>,
    current_block: BlockId,
    next_vreg: u32,
    next_local: u32,
    next_block: u32,
    local_scopes: Vec<Vec<(String, LocalId)>>,
    capture_map: Vec<(String, u32)>,
}

/// Lowering state: the function being lowered (its finished blocks, the
/// block being filled, its counters, its scopes of locals and, inside a
/// closure, its captured names), the functions done, the function counter
/// and the named functions.
struct LowerCtx<'a> {
    hir: &'a LowerResult,
    current_func_id: FuncId,
    blocks: Vec<Block>,
    current_block: Block,
    next_vreg: u32,
    next_local: u32,
    next_block: u32,
    local_scopes: Vec<Vec<(String, LocalId)>>,
    functions: Vec<Function>,
    next_func_id: u32,
    func_names: Vec<(String, FuncId)>,
    capture_map: Vec<(String, u32)>,
}

/// Every local of every scope is below `nl`.
pub open spec fn scopes_ok(scopes: Seq<Vec<(String, LocalId)>>, nl: nat) -> bool {
    forall|s: int, e: int|
        #![trigger scopes[s]@[e]]
        0 <= s < scopes.len() && 0 <= e < scopes[s]@.len() ==> scopes[s]@[e].1.0 < nl
}

/// The instructions of blocks, block after block.
pub open spec fn block_code(bs: Seq<Block>) -> Seq<Inst>
    decreases bs.len(),
{
    if bs.len() == 0 {
        Seq::empty()
    } else {
        block_code(bs.drop_last()) + bs.last().insts@
    }
}

impl<'a> LowerCtx<'a> {
    /// The code of the function being lowered: its finished blocks, then the
    /// block being filled.
    spec fn code(self) -> Seq<Inst> {
        block_code(self.blocks@) + self.current_block.insts@
    }

    spec fn inv(self) -> bool {
        &&& mir_input(*self.hir)
        &&& blocks_ok(self.blocks@, self.next_vreg as nat, self.next_local as nat)
        &&& block_ok(self.current_block, self.next_vreg as nat, self.next_local as nat)
        &&& forall|k: int| 0 <= k < self.functions@.len() ==> function_ok(#[trigger] self.functions@[k])
        &&& scopes_ok(self.local_scopes@, self.next_local as nat)
        &&& self.local_scopes@.len() > 0
        &&& self.functions@.len() <= self.next_func_id
    }

    /// Every counter can still grow by `c`.
    spec fn fits(self, c: nat) -> bool {
        &&& self.next_vreg + c <= u32::MAX
        &&& self.next_local + c <= u32::MAX
        &&& self.next_block + c <= u32::MAX
        &&& self.next_func_id + c <= u32::MAX
    }

    /// From `self` to `next` the input stays and no counter shrinks or grows
    /// by more than `c`.
    spec fn grew(self, next: LowerCtx<'a>, c: nat) -> bool {
        &&& next.hir == self.hir
        &&& self.next_vreg <= next.next_vreg <= self.next_vreg + c
        &&& self.next_local <= next.next_local <= self.next_local + c
        &&& self.next_block <= next.next_block <= self.next_block + c
        &&& self.next_func_id <= next.next_func_id <= self.next_func_id + c
        &&& next.next_func_id - next.functions@.len() >= self.next_func_id - self.functions@.len()
        &&& next.func_names@ == self.func_names@
        &&& self.functions@.len() <= next.functions@.len()
        &&& forall|k: int| 0 <= k < self.functions@.len() ==> #[trigger] next.functions@[k] == self.functions@[k]
    }

    /// From `self` to `next` the finished blocks are kept, and the first
    /// block finished after them is the one that was being filled (which is
    /// still being filled when none was finished).
    spec fn follows(self, next: LowerCtx<'a>) -> bool {
        &&& extends(self.blocks@, next.blocks@)
        &&& next.blocks@.len() > self.blocks@.len() ==> next.blocks@[self.blocks@.len() as int].id
            == self.current_block.id
        &&& next.blocks@.len() == self.blocks@.len() ==> next.current_block.id == self.current_block.id
    }

    fn fresh_vreg(&mut self) -> (r: VReg)
        requires
            old(self).inv(),
            old(self).next_vreg < u32::MAX,
        ensures
            final(self).inv(),
            r.0 == old(self).next_vreg,
            final(self).next_vreg == old(self).next_vreg + 1,
            final(self).next_local == old(self).next_local,
            final(self).next_block == old(self).next_block,
            final(self).next_func_id == old(self).next_func_id,
            final(self).hir == old(self).hir,
            final(self).functions@ == old(self).functions@,
            final(self).code() == old(self).code(),
            final(self).blocks@ == old(self).blocks@,
            final(self).current_block == old(self).current_block,
            final(self).local_scopes@ == old(self).local_scopes@,
            final(self).capture_map@ == old(self).capture_map@,
            final(self).func_names@ == old(self).func_names@,
    {
        let v = VReg(self.next_vreg);
        self.next_vreg = self.next_vreg + 1;
        proof {
            lemma_blocks_ok_mono(
                self.blocks@,
                old(self).next_vreg as nat,
                self.next_local as nat,
                self.next_vreg as nat,
                self.next_local as nat,
            );
            lemma_blocks_ok_mono(
                seq![self.current_block],
                old(self).next_vreg as nat,
                self.next_local as nat,
                self.next_vreg as nat,
                self.next_local as nat,
            );
            assert(seq![self.current_block][0] == self.current_block);
        }
        v
    }

    fn create_block(&mut self) -> (r: BlockId)
        requires
            old(self).inv(),
            old(self).next_block < u32::MAX,
        ensures
            final(self).inv(),
            r.0 == old(self).next_block,
            final(self).next_block == old(self).next_block + 1,
            final(self).next_vreg == old(self).next_vreg,
            final(self).next_local == old(self).next_local,
            final(self).next_func_id == old(self).next_func_id,
            final(self).hir == old(self).hir,
            final(self).functions@ == old(self).functions@,
            final(self).code() == old(self).code(),
            final(self).local_scopes@ == old(self).local_scopes@,
            final(self).capture_map@ == old(self).capture_map@,
            final(self).func_names@ == old(self).func_names@,
            final(self).blocks@ == old(self).blocks@,
            final(self).current_block == old(self).current_block,
    {
        let id = BlockId(self.next_block);
        self.next_block = self.next_block + 1;
        id
    }

    fn alloc_func_id(&mut self) -> (r: FuncId)
        requires
            old(self).inv(),
            old(self).next_func_id < u32::MAX,
        ensures
            final(self).inv(),
            r.0 == old(self).next_func_id,
            final(self).next_func_id == old(self).next_func_id + 1,
            final(self).next_vreg == old(self).next_vreg,
            final(self).next_local == old(self).next_local,
            final(self).next_block == old(self).next_block,
            final(self).hir == old(self).hir,
            final(self).functions@ == old(self).functions@,
            final(self).code() == old(self).code(),
            final(self).blocks@ == old(self).blocks@,
            final(self).current_block == old(self).current_block,
            final(self).local_scopes@ == old(self).local_scopes@,
            final(self).capture_map@ == old(self).capture_map@,
            final(self).func_names@ == old(self).func_names@,
    {
        let id = FuncId(self.next_func_id);
        self.next_func_id = self.next_func_id + 1;
        id
    }

    fn emit(&mut self, inst: Inst)
        requires
            old(self).inv(),
            inst_ok(inst, old(self).next_vreg as nat, old(self).next_local as nat),
        ensures
            final(self).inv(),
            final(self).next_vreg == old(self).next_vreg,
            final(self).next_local == old(self).next_local,
            final(self).next_block == old(self).next_block,
            final(self).next_func_id == old(self).next_func_id,
            final(self).hir == old(self).hir,
            final(self).functions@ == old(self).functions@,
            final(self).local_scopes@ == old(self).local_scopes@,
            final(self).capture_map@ == old(self).capture_map@,
            final(self).func_names@ == old(self).func_names@,
            final(self).current_block.insts@ == old(self).current_block.insts@.push(inst),
            final(self).current_block.id == old(self).current_block.id,
            final(self).blocks@ == old(self).blocks@,
            final(self).code() == old(self).code().push(inst),
    {
        self.current_block.push(inst);
        assert(self.code() =~= old(self).code().push(inst));
    }

    fn switch_to_block(&mut self, id: BlockId)
        requires
            old(self).inv(),
        ensures
            final(self).inv(),
            final(self).next_vreg == old(self).next_vreg,
            final(self).next_local == old(self).next_local,
            final(self).next_block == old(self).next_block,
            final(self).next_func_id == old(self).next_func_id,
            final(self).hir == old(self).hir,
            final(self).functions@ == old(self).functions@,
            final(self).local_scopes@ == old(self).local_scopes@,
            final(self).capture_map@ == old(self).capture_map@,
            final(self).func_names@ == old(self).func_names@,
            final(self).current_block.id == id,
            final(self).current_block.insts@.len() == 0,
            final(self).code() == old(self).code(),
            (old(self).current_block.insts@.len() > 0 || old(self).current_block.id != id)
                ==> final(self).blocks@ == old(self).blocks@.push(old(self).current_block),
            !(old(self).current_block.insts@.len() > 0 || old(self).current_block.id != id)
                ==> final(self).blocks@ == old(self).blocks@,
    {
        if self.current_block.insts.len() > 0 || self.current_block.id.0 != id.0 {
            let mut old_block = Block::new(id);
            std::mem::swap(&mut self.current_block, &mut old_block);
            self.blocks.push(old_block);
            proof {
                assert(self.blocks@.drop_last() =~= old(self).blocks@);
                assert(self.code() =~= old(self).code());
            }
        } else {
            self.current_block = Block::new(id);
            proof {
                assert(self.code() =~= old(self).code());
            }
        }
    }

    fn push_scope(&mut self)
        requires
            old(self).inv(),
        ensures
            final(self).inv(),
            final(self).next_vreg == old(self).next_vreg,
            final(self).next_local == old(self).next_local,
            final(self).next_block == old(self).next_block,
            final(self).next_func_id == old(self).next_func_id,
            final(self).hir == old(self).hir,
            final(self).functions@ == old(self).functions@,
            final(self).code() == old(self).code(),
            final(self).capture_map@ == old(self).capture_map@,
            final(self).func_names@ == old(self).func_names@,
            final(self).blocks@ == old(self).blocks@,
            final(self).current_block == old(self).current_block,
            final(self).local_scopes@.drop_last() == old(self).local_scopes@,
            final(self).local_scopes@.len() == old(self).local_scopes@.len() + 1,
            final(self).local_scopes@.last()@.len() == 0,
    {
        self.local_scopes.push(Vec::new());
        proof {
            assert(self.local_scopes@.drop_last() =~= old(self).local_scopes@);
            assert forall|s: int, e: int|
                #![trigger self.local_scopes@[s]@[e]]
                0 <= s < self.local_scopes@.len() && 0 <= e < self.local_scopes@[s]@.len()
                    implies self.local_scopes@[s]@[e].1.0 < self.next_local by {
                assert(self.local_scopes@[s] == old(self).local_scopes@[s]);
            }
        }
    }

    fn pop_scope(&mut self)
        requires
            old(self).inv(),
        ensures
            final(self).inv(),
            final(self).next_vreg == old(self).next_vreg,
            final(self).next_local == old(self).next_local,
            final(self).next_block == old(self).next_block,
            final(self).next_func_id == old(self).next_func_id,
            final(self).hir == old(self).hir,
            final(self).functions@ == old(self).functions@,
            final(self).code() == old(self).code(),
            final(self).capture_map@ == old(self).capture_map@,
            final(self).func_names@ == old(self).func_names@,
            final(self).blocks@ == old(self).blocks@,
            final(self).current_block == old(self).current_block,
            old(self).local_scopes@.len() > 1 ==> final(self).local_scopes@ == old(self).local_scopes@.drop_last(),
    {
        if self.local_scopes.len() > 1 {
            self.local_scopes.pop();
            proof {
                assert forall|s: int, e: int|
                    #![trigger self.local_scopes@[s]@[e]]
                    0 <= s < self.local_scopes@.len() && 0 <= e < self.local_scopes@[s]@.len()
                        implies self.local_scopes@[s]@[e].1.0 < self.next_local by {
                    assert(self.local_scopes@[s] == old(self).local_scopes@[s]);
                }
            }
        }
    }

    /// Allocates a local for `name` in the innermost scope.
    fn alloc_local(&mut self, name: &str) -> (r: LocalId)
        requires
            old(self).inv(),
            old(self).next_local < u32::MAX,
        ensures
            final(self).inv(),
            r.0 == old(self).next_local,
            final(self).next_local == old(self).next_local + 1,
            final(self).next_vreg == old(self).next_vreg,
            final(self).next_block == old(self).next_block,
            final(self).next_func_id == old(self).next_func_id,
            final(self).hir == old(self).hir,
            final(self).functions@ == old(self).functions@,
            final(self).code() == old(self).code(),
            final(self).capture_map@ == old(self).capture_map@,
            final(self).func_names@ == old(self).func_names@,
            final(self).local_scopes@.len() == old(self).local_scopes@.len(),
            old(self).local_scopes@.len() > 0 ==> forall|t: Seq<char>|
                #[trigger] lookup_scopes(final(self).local_scopes@, t) == (if t == name@ {
                    Some(r)
                } else {
                    lookup_scopes(old(self).local_scopes@, t)
                }),
            final(self).blocks@ == old(self).blocks@,
            final(self).current_block == old(self).current_block,
    {
        let id = LocalId(self.next_local);
        self.next_local = self.next_local + 1;
        let n = self.local_scopes.len();
        if n > 0 {
            self.local_scopes[n - 1].push((name.to_owned(), id));
        }
        proof {
            lemma_blocks_ok_mono(
                self.blocks@,
                self.next_vreg as nat,
                old(self).next_local as nat,
                self.next_vreg as nat,
                self.next_local as nat,
            );
            lemma_blocks_ok_mono(
                seq![self.current_block],
                self.next_vreg as nat,
                old(self).next_local as nat,
                self.next_vreg as nat,
                self.next_local as nat,
            );
            assert(seq![self.current_block][0] == self.current_block);
            if n > 0 {
                assert(self.local_scopes@.drop_last() =~= old(self).local_scopes@.drop_last());
                assert(self.local_scopes@.last()@.drop_last() =~= old(self).local_scopes@.last()@);
                assert(self.local_scopes@.last()@.last().0@ == name@);
                assert(self.local_scopes@.last()@.last().1 == id);
            }
            assert forall|s: int, e: int|
                #![trigger self.local_scopes@[s]@[e]]
                0 <= s < self.local_scopes@.len() && 0 <= e < self.local_scopes@[s]@.len()
                    implies self.local_scopes@[s]@[e].1.0 < self.next_local by {
                if s == n - 1 && e == old(self).local_scopes@[s]@.len() {
                } else {
                    assert(self.local_scopes@[s]@[e] == old(self).local_scopes@[s]@[e]);
                }
            }
        }
        id
    }

    /// The local bound to `name` in the innermost scope that binds it.
    fn get_local(&self, name: &str) -> (r: Option<LocalId>)
        requires
            self.inv(),
        ensures
            r == lookup_scopes(self.local_scopes@, name@),
            r matches Some(l) ==> l.0 < self.next_local,
    {
        let mut i: usize = self.local_scopes.len();
        assert(self.local_scopes@.take(i as int) =~= self.local_scopes@);
        while i > 0
            invariant
                i <= self.local_scopes@.len(),
                self.inv(),
                lookup_scopes(self.local_scopes@, name@) == lookup_scopes(
                    self.local_scopes@.take(i as int),
                    name@,
                ),
            decreases i,
        {
            let ghost t = self.local_scopes@.take(i as int);
            assert(t.drop_last() =~= self.local_scopes@.take(i - 1));
            assert(t.last() == self.local_scopes@[i - 1]);
            match find_last(&self.local_scopes[i - 1], name) {
                Some(l) => {
                    proof {
                        lemma_lookup_last_in(self.local_scopes@[i - 1]@, name@);
                        let sc = self.local_scopes@[i - 1]@;
                        let e = choose|e: int| 0 <= e < sc.len() && (#[trigger] sc[e]).1 == l;
                        assert(sc[e] == self.local_scopes@[i - 1]@[e]);
                        assert(self.local_scopes@[i - 1]@[e].1.0 < self.next_local);
                    }
                    return Some(l);
                },
                None => {},
            }
            i = i - 1;
        }
        assert(self.local_scopes@.take(0) =~= Seq::<Vec<(String, LocalId)>>::empty());
        None
    }
}

/// A bound value is one of the entries' values.
proof fn lemma_lookup_last_in<T>(entries: Seq<(String, T)>, name: Seq<char>)
    ensures
        lookup_last(entries, name) matches Some(v) ==> exists|e: int|
            0 <= e < entries.len() && (#[trigger] entries[e]).1 == v,
    decreases entries.len(),
{
    if entries.len() > 0 {
        lemma_lookup_last_in(entries.drop_last(), name);
        match lookup_last(entries, name) {
            Some(v) => {
                if entries.last().0@ != name {
                    let d = entries.drop_last();
                    let e = choose|e: int| 0 <= e < d.len() && (#[trigger] d[e]).1 == v;
                    assert(entries[e] == entries.drop_last()[e]);
                } else {
                    assert(entries[entries.len() - 1].1 == v);
                }
            },
            None => {},
        }
    }
}


/// The saved blocks and scopes of a function stay within its counters.
spec fn saved_ok(saved: SavedContext) -> bool {
    &&& blocks_ok(saved.blocks@, saved.next_vreg as nat, saved.next_local as nat)
    &&& scopes_ok(saved.local_scopes@, saved.next_local as nat)
    &&& saved.local_scopes@.len() > 0
}

impl<'a> LowerCtx<'a> {
    /// The text of an identifier of the input.
    fn resolve(&self, ident: Ident) -> (r: &'a str)
        requires
            ident.0 < self.hir.interner@.len(),
        ensures
            r@ == self.hir.interner@[ident.0 as int],
    {
        let hir: &'a LowerResult = self.hir;
        hir.resolve(ident)
    }

    /// Saves the state of the function being lowered and starts a new one:
    /// no blocks, an empty entry block, fresh counters, one empty scope and
    /// no captured names.
    fn enter_function(&mut self) -> (saved: SavedContext)
        requires
            old(self).inv(),
        ensures
            final(self).inv(),
            saved_ok(saved),
            saved.blocks@ == old(self).blocks@,
            saved.current_block == old(self).current_block.id,
            final(self).code().len() == 0,
            final(self).capture_map@.len() == 0,
            saved.next_vreg == old(self).next_vreg,
            saved.next_local == old(self).next_local,
            saved.capture_map@ == old(self).capture_map@,
            saved.next_block == old(self).next_block,
            final(self).next_vreg == 0,
            final(self).next_local == 0,
            final(self).next_block == 1,
            final(self).next_func_id == old(self).next_func_id,
            final(self).hir == old(self).hir,
            final(self).functions@ == old(self).functions@,
            final(self).func_names@ == old(self).func_names@,
            final(self).local_scopes@.len() == 1,
            final(self).local_scopes@[0]@.len() == 0,
            final(self).capture_map@.len() == 0,
    {
        let mut blocks: Vec<Block> = Vec::new();
        std::mem::swap(&mut blocks, &mut self.blocks);
        let mut scopes: Vec<Vec<(String, LocalId)>> = Vec::new();
        scopes.push(Vec::new());
        std::mem::swap(&mut scopes, &mut self.local_scopes);
        let mut captures: Vec<(String, u32)> = Vec::new();
        std::mem::swap(&mut captures, &mut self.capture_map);
        let saved = SavedContext {
            blocks,
            current_block: self.current_block.id,
            next_vreg: self.next_vreg,
            next_local: self.next_local,
            next_block: self.next_block,
            local_scopes: scopes,
            capture_map: captures,
        };
        self.current_block = Block::new(BlockId(0));
        self.next_vreg = 0;
        self.next_local = 0;
        self.next_block = 1;
        proof {
            assert(self.local_scopes@[0]@.len() == 0);
        }
        saved
    }

    /// Restores the saved function; its current block starts again empty.
    fn restore_context(&mut self, saved: SavedContext)
        requires
            old(self).inv(),
            saved_ok(saved),
        ensures
            final(self).inv(),
            final(self).next_vreg == saved.next_vreg,
            final(self).next_local == saved.next_local,
            final(self).next_block == saved.next_block,
            final(self).blocks@ == saved.blocks@,
            final(self).current_block.id == saved.current_block,
            final(self).current_block.insts@.len() == 0,
            final(self).local_scopes@ == saved.local_scopes@,
            final(self).capture_map@ == saved.capture_map@,
            final(self).next_func_id == old(self).next_func_id,
            final(self).hir == old(self).hir,
            final(self).functions@ == old(self).functions@,
            final(self).func_names@ == old(self).func_names@,
    {
        self.blocks = saved.blocks;
        self.current_block = Block::new(saved.current_block);
        self.next_vreg = saved.next_vreg;
        self.next_local = saved.next_local;
        self.next_block = saved.next_block;
        self.local_scopes = saved.local_scopes;
        self.capture_map = saved.capture_map;
    }

    /// Binds each parameter to the next local of the current scope.
    fn bind_params(&mut self, params: &Vec<FunctionParam>) -> (r: Vec<LocalId>)
        requires
            old(self).inv(),
            old(self).local_scopes@.len() > 0,
            old(self).next_local + params@.len() <= u32::MAX,
            forall|k: int|
                0 <= k < params@.len() ==> (#[trigger] params@[k]).name.0
                    < old(self).hir.interner@.len(),
        ensures
            final(self).inv(),
            r@.len() == params@.len(),
            forall|k: int| 0 <= k < r@.len() ==> (#[trigger] r@[k]).0 < final(self).next_local,
            forall|k: int| 0 <= k < r@.len() ==> (#[trigger] r@[k]).0 == old(self).next_local + k,
            final(self).next_local == old(self).next_local + params@.len(),
            final(self).next_vreg == old(self).next_vreg,
            final(self).next_block == old(self).next_block,
            final(self).next_func_id == old(self).next_func_id,
            final(self).hir == old(self).hir,
            final(self).functions@ == old(self).functions@,
            final(self).func_names@ == old(self).func_names@,
            final(self).local_scopes@.len() == old(self).local_scopes@.len(),
            final(self).capture_map@ == old(self).capture_map@,
            final(self).blocks@ == old(self).blocks@,
            final(self).current_block == old(self).current_block,
            final(self).code() == old(self).code(),
            (old(self).next_local == 0 && env_of(
                Seq::empty(),
                old(self).local_scopes@,
                old(self).hir.interner@,
            ) == param_env(Seq::<FunctionParam>::empty(), old(self).hir.interner@)) ==> env_of(
                Seq::empty(),
                final(self).local_scopes@,
                old(self).hir.interner@,
            ) == param_env(params@, old(self).hir.interner@),
    {
        let mut out: Vec<LocalId> = Vec::new();
        let mut i: usize = 0;
        while i < params.len()
            invariant
                self.inv(),
                self.hir == old(self).hir,
                self.local_scopes@.len() == old(self).local_scopes@.len(),
                self.local_scopes@.len() > 0,
                i <= params@.len(),
                out@.len() == i,
                self.next_local == old(self).next_local + i,
                old(self).next_local + params@.len() <= u32::MAX,
                self.next_vreg == old(self).next_vreg,
                self.next_block == old(self).next_block,
                self.next_func_id == old(self).next_func_id,
                self.functions@ == old(self).functions@,
                self.func_names@ == old(self).func_names@,
                forall|k: int| 0 <= k < out@.len() ==> (#[trigger] out@[k]).0 < self.next_local,
                forall|k: int| 0 <= k < out@.len() ==> (#[trigger] out@[k]).0 == old(self).next_local + k,
                forall|k: int|
                    0 <= k < params@.len() ==> (#[trigger] params@[k]).name.0
                        < self.hir.interner@.len(),
                self.capture_map@ == old(self).capture_map@,
                self.blocks@ == old(self).blocks@,
                self.current_block == old(self).current_block,
                self.code() == old(self).code(),
                (old(self).next_local == 0 && env_of(
                    Seq::empty(),
                    old(self).local_scopes@,
                    old(self).hir.interner@,
                ) == param_env(Seq::<FunctionParam>::empty(), old(self).hir.interner@)) ==> env_of(
                    Seq::empty(),
                    self.local_scopes@,
                    old(self).hir.interner@,
                ) == param_env(params@.take(i as int), old(self).hir.interner@),
            decreases params@.len() - i,
        {
            let ghost gi = *self;
            let name = self.resolve(params[i].name);
            let local = self.alloc_local(name);
            proof {
                if old(self).next_local == 0 && env_of(
                    Seq::empty(),
                    old(self).local_scopes@,
                    old(self).hir.interner@,
                ) == param_env(Seq::<FunctionParam>::empty(), old(self).hir.interner@) {
                    lemma_param_env_bind(
                        params@,
                        i as int,
                        self.hir.interner@,
                        gi.local_scopes@,
                        self.local_scopes@,
                        Seq::empty(),
                    );
                }
            }
            out.push(local);
            i = i + 1;
        }
        proof {
            assert(params@.take(params@.len() as int) =~= params@);
        }
        out
    }

    /// Ends the function being lowered: its current block is closed and the
    /// function, with its counts, joins the functions done.
    fn finish_function(
        &mut self,
        id: FuncId,
        name: Option<String>,
        params: Vec<LocalId>,
        param_count: u32,
        captures: Vec<CapturedVar>,
        is_closure: bool,
    )
        requires
            old(self).inv(),
            old(self).functions@.len() < old(self).next_func_id,
            forall|k: int| 0 <= k < params@.len() ==> (#[trigger] params@[k]).0 < old(self).next_local,
        ensures
            final(self).inv(),
            final(self).functions@.len() == old(self).functions@.len() + 1,
            final(self).functions@.last().id == id,
            final(self).functions@.last().name == name,
            final(self).functions@.last().param_count == param_count,
            final(self).functions@.last().params == params,
            final(self).functions@.last().captures == captures,
            final(self).functions@.last().is_closure == is_closure,
            final(self).functions@.last().local_count == old(self).next_local,
            block_code(final(self).functions@.last().blocks@) == old(self).code(),
            final(self).functions@.drop_last() == old(self).functions@,
            final(self).next_vreg == old(self).next_vreg,
            final(self).next_local == old(self).next_local,
            final(self).next_block == old(self).next_block,
            final(self).next_func_id == old(self).next_func_id,
            final(self).hir == old(self).hir,
            final(self).func_names@ == old(self).func_names@,
    {
        let mut last = Block::new(BlockId(0));
        std::mem::swap(&mut last, &mut self.current_block);
        self.blocks.push(last);
        proof {
            assert(self.blocks@.drop_last() =~= old(self).blocks@);
            assert(block_code(self.blocks@) =~= old(self).code());
        }
        let mut blocks: Vec<Block> = Vec::new();
        std::mem::swap(&mut blocks, &mut self.blocks);
        let f = Function {
            id,
            name,
            params,
            param_count,
            blocks,
            local_count: self.next_local,
            vreg_count: self.next_vreg,
            captures,
            is_closure,
        };
        proof {
            assert(function_ok(f)) by {
                assert forall|k: int| 0 <= k < f.blocks@.len() implies block_ok(
                    #[trigger] f.blocks@[k],
                    f.vreg_count as nat,
                    f.local_count as nat,
                ) by {
                    if k < old(self).blocks@.len() {
                        assert(f.blocks@[k] == old(self).blocks@[k]);
                    }
                }
            }
        }
        self.functions.push(f);
        proof {
            assert(self.functions@.drop_last() =~= old(self).functions@);
            assert forall|k: int| 0 <= k < self.functions@.len() implies function_ok(
                #[trigger] self.functions@[k],
            ) by {
                if k < old(self).functions@.len() {
                    assert(self.functions@[k] == old(self).functions@[k]);
                }
            }
        }
    }
}


/// The operand of a literal (an integer is reinterpreted as signed).
fn lower_literal(lit: &Literal) -> (r: Operand)
    ensures
        r == literal_operand(*lit),
        r matches Operand::VReg(_) ==> false,
        lit matches Literal::Integer(n) ==> r == Operand::IntConst(*n as i64),
        lit matches Literal::Boolean(b) ==> r == Operand::BoolConst(*b),
        lit matches Literal::Float(t) ==> r == Operand::FloatConst(*t),
        lit matches Literal::String(t) ==> r == Operand::StringConst(*t),
{
    match lit {
        Literal::Integer(n) => Operand::IntConst(*n as i64),
        Literal::Float(f) => Operand::FloatConst(f.clone()),
        Literal::Boolean(b) => Operand::BoolConst(*b),
        Literal::String(t) => Operand::StringConst(t.clone()),
    }
}

/// The instruction of a binary operator: integer and float arithmetic and
/// comparison instructions by operator; `and` copies its right operand and
/// `or` its left one.
pub open spec fn spec_infix_inst(op: InfixOp, dst: VReg, lhs: Operand, rhs: Operand) -> Inst {
    match op {
        InfixOp::Add => Inst::AddInt { dst, lhs, rhs },
        InfixOp::Sub => Inst::SubInt { dst, lhs, rhs },
        InfixOp::Mul => Inst::MulInt { dst, lhs, rhs },
        InfixOp::Div => Inst::DivInt { dst, lhs, rhs },
        InfixOp::Mod => Inst::ModInt { dst, lhs, rhs },
        InfixOp::AddFloat => Inst::AddFloat { dst, lhs, rhs },
        InfixOp::SubFloat => Inst::SubFloat { dst, lhs, rhs },
        InfixOp::MulFloat => Inst::MulFloat { dst, lhs, rhs },
        InfixOp::DivFloat => Inst::DivFloat { dst, lhs, rhs },
        InfixOp::Eq => Inst::EqInt { dst, lhs, rhs },
        InfixOp::NotEq => Inst::NeInt { dst, lhs, rhs },
        InfixOp::Gt => Inst::GtInt { dst, lhs, rhs },
        InfixOp::Lt => Inst::LtInt { dst, lhs, rhs },
        InfixOp::Gte => Inst::GeInt { dst, lhs, rhs },
        InfixOp::Lte => Inst::LeInt { dst, lhs, rhs },
        InfixOp::GtFloat => Inst::GtFloat { dst, lhs, rhs },
        InfixOp::LtFloat => Inst::LtFloat { dst, lhs, rhs },
        InfixOp::GteFloat => Inst::GeFloat { dst, lhs, rhs },
        InfixOp::LteFloat => Inst::LeFloat { dst, lhs, rhs },
        InfixOp::And => Inst::Copy { dst, src: rhs },
        InfixOp::Or => Inst::Copy { dst, src: lhs },
    }
}

/// Each binary operator becomes the instruction of the same operation and
/// type over its left and its right operand, in that order: `+ - * / %` on
/// integers, their float forms, and the integer and float comparisons `==`,
/// `!=`, `>`, `<`, `>=`, `<=`; `and` copies its right operand and `or` its
/// left one.
pub proof fn law_infix_instruction(dst: VReg, lhs: Operand, rhs: Operand)
    ensures
        spec_infix_inst(InfixOp::Add, dst, lhs, rhs) == (Inst::AddInt { dst, lhs, rhs }),
        spec_infix_inst(InfixOp::Sub, dst, lhs, rhs) == (Inst::SubInt { dst, lhs, rhs }),
        spec_infix_inst(InfixOp::Mul, dst, lhs, rhs) == (Inst::MulInt { dst, lhs, rhs }),
        spec_infix_inst(InfixOp::Div, dst, lhs, rhs) == (Inst::DivInt { dst, lhs, rhs }),
        spec_infix_inst(InfixOp::Mod, dst, lhs, rhs) == (Inst::ModInt { dst, lhs, rhs }),
        spec_infix_inst(InfixOp::AddFloat, dst, lhs, rhs) == (Inst::AddFloat { dst, lhs, rhs }),
        spec_infix_inst(InfixOp::SubFloat, dst, lhs, rhs) == (Inst::SubFloat { dst, lhs, rhs }),
        spec_infix_inst(InfixOp::MulFloat, dst, lhs, rhs) == (Inst::MulFloat { dst, lhs, rhs }),
        spec_infix_inst(InfixOp::DivFloat, dst, lhs, rhs) == (Inst::DivFloat { dst, lhs, rhs }),
        spec_infix_inst(InfixOp::Eq, dst, lhs, rhs) == (Inst::EqInt { dst, lhs, rhs }),
        spec_infix_inst(InfixOp::NotEq, dst, lhs, rhs) == (Inst::NeInt { dst, lhs, rhs }),
        spec_infix_inst(InfixOp::Gt, dst, lhs, rhs) == (Inst::GtInt { dst, lhs, rhs }),
        spec_infix_inst(InfixOp::Lt, dst, lhs, rhs) == (Inst::LtInt { dst, lhs, rhs }),
        spec_infix_inst(InfixOp::Gte, dst, lhs, rhs) == (Inst::GeInt { dst, lhs, rhs }),
        spec_infix_inst(InfixOp::Lte, dst, lhs, rhs) == (Inst::LeInt { dst, lhs, rhs }),
        spec_infix_inst(InfixOp::GtFloat, dst, lhs, rhs) == (Inst::GtFloat { dst, lhs, rhs }),
        spec_infix_inst(InfixOp::LtFloat, dst, lhs, rhs) == (Inst::LtFloat { dst, lhs, rhs }),
        spec_infix_inst(InfixOp::GteFloat, dst, lhs, rhs) == (Inst::GeFloat { dst, lhs, rhs }),
        spec_infix_inst(InfixOp::LteFloat, dst, lhs, rhs) == (Inst::LeFloat { dst, lhs, rhs }),
        spec_infix_inst(InfixOp::And, dst, lhs, rhs) == (Inst::Copy { dst, src: rhs }),
        spec_infix_inst(InfixOp::Or, dst, lhs, rhs) == (Inst::Copy { dst, src: lhs }),
{
}

/// Negation becomes an integer negation instruction and `!` a logical
/// `not`, each over the operand of its operand.
pub proof fn law_prefix_instruction(dst: VReg, src: Operand)
    ensures
        spec_prefix_inst(PrefixOp::Neg, dst, src) == (Inst::NegInt { dst, src }),
        spec_prefix_inst(PrefixOp::Not, dst, src) == (Inst::Not { dst, src }),
{
}

/// Code that computes `lhs < rhs` holds a less-than instruction over the
/// operands it computes for `lhs` and for `rhs`, in that order, into the
/// register of the result.
pub proof fn law_less_than_lowered(
    a: Seq<Expression>,
    lhs: ExprIdx,
    rhs: ExprIdx,
    o: Operand,
    code: Seq<Inst>,
    bound: nat,
    env: spec_fn(Ident) -> Slot,
)
    requires
        computes(a, (Expression::Infix { op: InfixOp::Lt, lhs, rhs }), o, code, bound, env),
    ensures
        exists|d: VReg, l: Operand, r: Operand|
            #![trigger code.contains((Inst::LtInt { dst: d, lhs: l, rhs: r }))]
            o == Operand::VReg(d) && code.contains((Inst::LtInt { dst: d, lhs: l, rhs: r }))
                && computes(a, a[lhs.0 as int], l, code, lhs.0 as nat, env)
                && computes(a, a[rhs.0 as int], r, code, rhs.0 as nat, env),
{
    let (l, r, d) = choose|l: Operand, r: Operand, d: VReg|
        #![trigger code.contains(spec_infix_inst(InfixOp::Lt, d, l, r))]
        o == Operand::VReg(d) && code.contains(spec_infix_inst(InfixOp::Lt, d, l, r)) && computes(
            a,
            a[lhs.0 as int],
            l,
            code,
            lhs.0 as nat,
            env,
        ) && computes(a, a[rhs.0 as int], r, code, rhs.0 as nat, env);
    law_infix_instruction(d, l, r);
    assert(code.contains(Inst::LtInt { dst: d, lhs: l, rhs: r }));
}

/// The instruction of a unary operator.
pub open spec fn spec_prefix_inst(op: PrefixOp, dst: VReg, src: Operand) -> Inst {
    match op {
        PrefixOp::Neg => Inst::NegInt { dst, src },
        PrefixOp::Not => Inst::Not { dst, src },
    }
}

/// The operand of a literal (an integer is reinterpreted as signed).
pub open spec fn literal_operand(lit: Literal) -> Operand {
    match lit {
        Literal::Integer(n) => Operand::IntConst(n as i64),
        Literal::Float(t) => Operand::FloatConst(t),
        Literal::Boolean(b) => Operand::BoolConst(b),
        Literal::String(t) => Operand::StringConst(t),
    }
}

/// Where a name is read from: a captured value, a local slot, or nowhere.
pub enum Slot {
    Capture(u32),
    Local(LocalId),
    Unbound,
}

/// Where `name` is read from given the captured names and the scopes: a
/// capture first, then the innermost local.
pub open spec fn slot_in(
    caps: Seq<(String, u32)>,
    scopes: Seq<Vec<(String, LocalId)>>,
    name: Seq<char>,
) -> Slot {
    match lookup_last(caps, name) {
        Some(i) => Slot::Capture(i),
        None => match lookup_scopes(scopes, name) {
            Some(l) => Slot::Local(l),
            None => Slot::Unbound,
        },
    }
}

/// The identifier that a variable reference names.
pub open spec fn ref_ident(r: ResolvedIdent) -> Ident {
    match r {
        ResolvedIdent::Local(id) => id,
        ResolvedIdent::External { name, .. } => name,
    }
}

/// Where each interned name is read from, given the captured names and the
/// scopes.
pub open spec fn env_of(
    caps: Seq<(String, u32)>,
    scopes: Seq<Vec<(String, LocalId)>>,
    names: Seq<Seq<char>>,
) -> spec_fn(Ident) -> Slot {
    |id: Ident| slot_in(caps, scopes, names[id.0 as int])
}

impl<'a> LowerCtx<'a> {
    /// Where each interned name is read from in this state.
    spec fn env(self) -> spec_fn(Ident) -> Slot {
        env_of(self.capture_map@, self.local_scopes@, self.hir.interner@)
    }
}

/// An expression built only of missing expressions, literals, variable
/// references, unary and binary operators and calls, each operand (callee
/// and arguments of a call included) stored below the one that uses it.
pub open spec fn simple(a: Seq<Expression>, e: Expression, bound: nat) -> bool
    decreases bound, 1int,
{
    match e {
        Expression::Missing => true,
        Expression::Literal(_) => true,
        Expression::VariableRef { .. } => true,
        Expression::Infix { lhs, rhs, .. } => lhs.0 < bound && rhs.0 < bound && lhs.0 < a.len()
            && rhs.0 < a.len() && simple(a, a[lhs.0 as int], lhs.0 as nat) && simple(
            a,
            a[rhs.0 as int],
            rhs.0 as nat,
        ),
        Expression::Prefix { expr, .. } => expr.0 < bound && expr.0 < a.len() && simple(
            a,
            a[expr.0 as int],
            expr.0 as nat,
        ),
        Expression::Call { callee, args } => callee.0 < bound && callee.0 < a.len() && simple(
            a,
            a[callee.0 as int],
            callee.0 as nat,
        ) && forall|k: int|
            0 <= k < args@.len() ==> (#[trigger] args@[k]).0 < bound && args@[k].0 < a.len()
                && simple(a, a[args@[k].0 as int], args@[k].0 as nat),
        Expression::If { condition, then_branch, else_branch } => condition.0 < bound && condition.0
            < a.len() && simple(a, a[condition.0 as int], condition.0 as nat) && then_branch.0 < bound
            && then_branch.0 < a.len() && simple(a, a[then_branch.0 as int], then_branch.0 as nat)
            && match else_branch {
            Some(e) => e.0 < bound && e.0 < a.len() && simple(a, a[e.0 as int], e.0 as nat),
            None => true,
        },
        Expression::Block { items, tail } => (forall|k: int|
            0 <= k < items@.len() ==> simple_item(a, #[trigger] items@[k], bound)) && match tail {
            Some(t) => t.0 < bound && t.0 < a.len() && simple(a, a[t.0 as int], t.0 as nat),
            None => true,
        },
        _ => false,
    }
}

/// A block item that only computes, echoes, returns or assigns a simple
/// expression stored below `bound` (or returns nothing).
pub open spec fn simple_item(a: Seq<Expression>, it: BlockItem, bound: nat) -> bool
    decreases bound, 0int,
{
    match it {
        BlockItem::Expression(i) => i.0 < bound && i.0 < a.len() && simple(a, a[i.0 as int], i.0 as nat),
        BlockItem::Echo { value } => value.0 < bound && value.0 < a.len() && simple(
            a,
            a[value.0 as int],
            value.0 as nat,
        ),
        BlockItem::Assignment { value, .. } => value.0 < bound && value.0 < a.len() && simple(
            a,
            a[value.0 as int],
            value.0 as nat,
        ),
        BlockItem::Return { value } => match value {
            Some(v) => v.0 < bound && v.0 < a.len() && simple(a, a[v.0 as int], v.0 as nat),
            None => true,
        },
        _ => false,
    }
}

/// Position `p` lies within `code`.
pub open spec fn item_at(code: Seq<Inst>, p: int) -> bool {
    0 <= p < code.len()
}

/// `code` carries out block item `it`, names read as `env` gives: an echo
/// is an instruction that echoes the operand that the code before it
/// computes for the value; a return of a value one that returns that
/// operand, a bare return one that returns nothing; an assignment to a
/// name read from a local slot one that stores that operand into the slot.
/// An assignment to a name that no local slot holds stores nothing, and an
/// expression item is computed for nothing: neither is asked for here.
pub open spec fn item_computed(
    a: Seq<Expression>,
    it: BlockItem,
    code: Seq<Inst>,
    bound: nat,
    env: spec_fn(Ident) -> Slot,
) -> bool
    decreases bound, 0int,
{
    match it {
        BlockItem::Echo { value } => value.0 < bound && value.0 < a.len() && exists|p: int|
            #![trigger item_at(code, p)]
            item_at(code, p) && (code[p] matches Inst::Echo { src } && computes(
                a,
                a[value.0 as int],
                src,
                code.take(p),
                value.0 as nat,
                env,
            )),
        BlockItem::Return { value } => match value {
            Some(v) => v.0 < bound && v.0 < a.len() && exists|p: int|
                #![trigger item_at(code, p)]
                item_at(code, p) && (code[p] matches Inst::Return { value: Some(s) } && computes(
                    a,
                    a[v.0 as int],
                    s,
                    code.take(p),
                    v.0 as nat,
                    env,
                )),
            None => exists|p: int|
                #![trigger item_at(code, p)]
                item_at(code, p) && code[p] == Inst::Return { value: None },
        },
        BlockItem::Assignment { name, value } => value.0 < bound && value.0 < a.len() && match env(
            name,
        ) {
            Slot::Local(l) => exists|p: int|
                #![trigger item_at(code, p)]
                item_at(code, p) && (code[p] matches Inst::StoreLocal { local, src } && local == l
                    && computes(a, a[value.0 as int], src, code.take(p), value.0 as nat, env)),
            _ => true,
        },
        _ => true,
    }
}

/// What `code` carries out of a block item stays carried out as `code`
/// grows.
proof fn lemma_item_computed_extends(
    a: Seq<Expression>,
    it: BlockItem,
    c1: Seq<Inst>,
    c2: Seq<Inst>,
    bound: nat,
    env: spec_fn(Ident) -> Slot,
)
    requires
        item_computed(a, it, c1, bound, env),
        extends(c1, c2),
    ensures
        item_computed(a, it, c2, bound, env),
{
    assert forall|p: int| item_at(c1, p) implies item_at(c2, p) && c2[p] == c1[p] && c2.take(p)
        == c1.take(p) by {
        assert(c2.take(p) =~= c1.take(p));
    }
    match it {
        BlockItem::Echo { .. } => {
            let p = choose|p: int| #[trigger] item_at(c1, p) && c1[p] is Echo;
            assert(item_at(c2, p));
        },
        BlockItem::Return { value } => {
            let p = choose|p: int| #[trigger] item_at(c1, p) && c1[p] is Return;
            assert(item_at(c2, p));
        },
        BlockItem::Assignment { name, .. } => {
            if env(name) is Local {
                let p = choose|p: int| #[trigger] item_at(c1, p) && c1[p] is StoreLocal;
                assert(item_at(c2, p));
            }
        },
        _ => {},
    }
}

/// The number of definitions among block items.
pub open spec fn def_count(items: Seq<BlockItem>) -> nat
    decreases items.len(),
{
    if items.len() == 0 {
        0
    } else {
        def_count(items.drop_last()) + if items.last() is Definition {
            1nat
        } else {
            0nat
        }
    }
}

/// Where names are read from after the block items `items`, starting from
/// `env` with `nl` locals in use: each definition binds its name to the
/// next local slot, unless the name is read from a capture.
pub open spec fn block_env(
    env: spec_fn(Ident) -> Slot,
    names: Seq<Seq<char>>,
    items: Seq<BlockItem>,
    nl: nat,
) -> spec_fn(Ident) -> Slot
    decreases items.len(),
{
    if items.len() == 0 {
        env
    } else {
        let prev = block_env(env, names, items.drop_last(), nl);
        match items.last() {
            BlockItem::Definition { name, .. } => |id: Ident|
                if names[id.0 as int] == names[name.0 as int] && !(prev(id) is Capture) {
                    Slot::Local(LocalId((nl + def_count(items.drop_last())) as u32))
                } else {
                    prev(id)
                },
            _ => prev,
        }
    }
}

/// A block whose items are simple or define a name by a simple expression
/// stored below `bound`, and whose tail, if any, is simple.
pub open spec fn flat_block(a: Seq<Expression>, items: Seq<BlockItem>, tail: Option<ExprIdx>, bound: nat) -> bool {
    &&& forall|k: int|
        0 <= k < items.len() ==> (simple_item(a, #[trigger] items[k], bound) || (items[k] matches BlockItem::Definition { value, .. }
            && value.0 < bound && value.0 < a.len() && simple(a, a[value.0 as int], value.0 as nat)))
    &&& match tail {
        Some(t) => t.0 < bound && t.0 < a.len() && simple(a, a[t.0 as int], t.0 as nat),
        None => true,
    }
}

/// `code` carries out the block items `items` and computes the tail into
/// `o`, names read from `env` at the start and each item read as the
/// definitions before it leave them (`block_env`): a definition is an
/// instruction that stores the operand that the code before it computes
/// for the value into the next local slot, counted from `nl`; the other
/// items as `item_computed` says.
pub open spec fn block_computed(
    a: Seq<Expression>,
    items: Seq<BlockItem>,
    tail: Option<ExprIdx>,
    o: Operand,
    code: Seq<Inst>,
    bound: nat,
    env: spec_fn(Ident) -> Slot,
    names: Seq<Seq<char>>,
    nl: nat,
) -> bool {
    &&& forall|k: int|
        0 <= k < items.len() ==> #[trigger] item_done(
            a,
            items[k],
            code,
            bound,
            block_env(env, names, items.take(k), nl),
            nl + def_count(items.take(k)),
        )
    &&& match tail {
        Some(t) => t.0 < bound && t.0 < a.len() && computes(
            a,
            a[t.0 as int],
            o,
            code,
            t.0 as nat,
            block_env(env, names, items, nl),
        ),
        None => o == Operand::IntConst(0),
    }
}

/// `code` carries out block item `it`, names read as `env` gives; a
/// definition stores the operand computed for its value into local `l`.
pub open spec fn item_done(
    a: Seq<Expression>,
    it: BlockItem,
    code: Seq<Inst>,
    bound: nat,
    env: spec_fn(Ident) -> Slot,
    l: nat,
) -> bool {
    match it {
        BlockItem::Definition { value, .. } => value.0 < bound && value.0 < a.len() && exists|p: int|
            #![trigger item_at(code, p)]
            item_at(code, p) && (code[p] matches Inst::StoreLocal { local, src } && local.0 == l
                && computes(a, a[value.0 as int], src, code.take(p), value.0 as nat, env)),
        _ => item_computed(a, it, code, bound, env),
    }
}

/// What `code` carries out of a block item, a definition included, stays
/// carried out as `code` grows.
proof fn lemma_item_done_extends(
    a: Seq<Expression>,
    it: BlockItem,
    c1: Seq<Inst>,
    c2: Seq<Inst>,
    bound: nat,
    env: spec_fn(Ident) -> Slot,
    l: nat,
)
    requires
        item_done(a, it, c1, bound, env, l),
        extends(c1, c2),
    ensures
        item_done(a, it, c2, bound, env, l),
{
    match it {
        BlockItem::Definition { value, .. } => {
            let p = choose|p: int|
                #[trigger] item_at(c1, p) && (c1[p] matches Inst::StoreLocal { local, src } && local.0 == l
                    && computes(a, a[value.0 as int], src, c1.take(p), value.0 as nat, env));
            assert(c2.take(p) =~= c1.take(p));
            assert(c2[p] == c1[p]);
            assert(item_at(c2, p));
        },
        _ => {
            lemma_item_computed_extends(a, it, c1, c2, bound, env);
        },
    }
}

/// Items without definitions leave where names are read from as it was.
proof fn lemma_block_env_nodef(env: spec_fn(Ident) -> Slot, names: Seq<Seq<char>>, items: Seq<BlockItem>, nl: nat)
    requires
        forall|k: int| 0 <= k < items.len() ==> !(#[trigger] items[k] is Definition),
    ensures
        block_env(env, names, items, nl) == env,
        def_count(items) == 0,
    decreases items.len(),
{
    if items.len() > 0 {
        assert forall|k: int| 0 <= k < items.drop_last().len() implies !(#[trigger] items.drop_last()[k] is Definition) by {
            assert(items.drop_last()[k] == items[k]);
        }
        lemma_block_env_nodef(env, names, items.drop_last(), nl);
        assert(!(items[items.len() - 1] is Definition));
    }
}

/// What `code` carries out of a block stays carried out as `code` grows.
proof fn lemma_block_computed_extends(
    a: Seq<Expression>,
    items: Seq<BlockItem>,
    tail: Option<ExprIdx>,
    o: Operand,
    c1: Seq<Inst>,
    c2: Seq<Inst>,
    bound: nat,
    env: spec_fn(Ident) -> Slot,
    names: Seq<Seq<char>>,
    nl: nat,
)
    requires
        block_computed(a, items, tail, o, c1, bound, env, names, nl),
        extends(c1, c2),
    ensures
        block_computed(a, items, tail, o, c2, bound, env, names, nl),
{
    assert forall|k: int| 0 <= k < items.len() implies #[trigger] item_done(
        a,
        items[k],
        c2,
        bound,
        block_env(env, names, items.take(k), nl),
        nl + def_count(items.take(k)),
    ) by {
        lemma_item_done_extends(
            a,
            items[k],
            c1,
            c2,
            bound,
            block_env(env, names, items.take(k), nl),
            nl + def_count(items.take(k)),
        );
    }
    if let Some(t) = tail {
        lemma_computes_extends(a, a[t.0 as int], o, c1, c2, t.0 as nat, block_env(env, names, items, nl));
    }
}

/// What lowering the expression `e` stored below `bound` guarantees of a
/// block whose items are simple or define names by simple values: `after`
/// extends `before`'s code with code that carries the block out
/// (`block_computed`, from `before`'s names and local count) into `r`, adds
/// no function, allocates one local per definition and keeps the captured
/// names. Other expressions ask nothing here.
spec fn block_lowered<'a>(
    before: LowerCtx<'a>,
    after: LowerCtx<'a>,
    e: Expression,
    r: Operand,
    bound: nat,
) -> bool {
    let a = before.hir.expressions@;
    match e {
        Expression::Block { items, tail } => flat_block(a, items@, tail, bound) ==> (extends(
            before.code(),
            after.code(),
        ) && block_computed(
            a,
            items@,
            tail,
            r,
            after.code(),
            bound,
            before.env(),
            before.hir.interner@,
            before.next_local as nat,
        ) && after.functions@ == before.functions@ && after.next_local == before.next_local
            + def_count(items@) && after.capture_map@ == before.capture_map@),
        _ => true,
    }
}

/// `code` computes the value of expression `e` into operand `o`: a missing
/// expression is zero, a literal its constant, a variable a register loaded
/// from the capture or local slot that `env` gives its name (zero when the
/// name is unbound), a unary or
/// binary operation a register that an instruction of `code` defines by that
/// operation from the operands that compute its operands, and a call a
/// register that a call instruction defines from the operands that compute
/// its arguments.
pub open spec fn computes(
    a: Seq<Expression>,
    e: Expression,
    o: Operand,
    code: Seq<Inst>,
    bound: nat,
    env: spec_fn(Ident) -> Slot,
) -> bool
    decreases bound, 1int,
{
    match e {
        Expression::Missing => o == Operand::IntConst(0),
        Expression::Literal(lit) => o == literal_operand(lit),
        Expression::VariableRef { name } => match env(ref_ident(name)) {
            Slot::Capture(i) => o matches Operand::VReg(d) && code.contains(
                Inst::LoadCapture { dst: d, index: i },
            ),
            Slot::Local(l) => o matches Operand::VReg(d) && code.contains(
                Inst::LoadLocal { dst: d, local: l },
            ),
            Slot::Unbound => o == Operand::IntConst(0),
        },
        Expression::Infix { op, lhs, rhs } => lhs.0 < bound && rhs.0 < bound && lhs.0 < a.len()
            && rhs.0 < a.len() && exists|l: Operand, r: Operand, d: VReg|
            #![trigger code.contains(spec_infix_inst(op, d, l, r))]
            o == Operand::VReg(d) && code.contains(spec_infix_inst(op, d, l, r)) && computes(
                a,
                a[lhs.0 as int],
                l,
                code,
                lhs.0 as nat, env,
            ) && computes(a, a[rhs.0 as int], r, code, rhs.0 as nat, env),
        Expression::Prefix { op, expr } => expr.0 < bound && expr.0 < a.len() && exists|
            s: Operand,
            d: VReg,
        |
            #![trigger code.contains(spec_prefix_inst(op, d, s))]
            o == Operand::VReg(d) && code.contains(spec_prefix_inst(op, d, s)) && computes(
                a,
                a[expr.0 as int],
                s,
                code,
                expr.0 as nat, env,
            ),
        Expression::Block { items, tail } => (forall|k: int|
            0 <= k < items@.len() ==> item_computed(a, #[trigger] items@[k], code, bound, env))
            && match tail {
            Some(t) => t.0 < bound && t.0 < a.len() && computes(a, a[t.0 as int], o, code, t.0 as nat, env),
            None => o == Operand::IntConst(0),
        },
        Expression::If { condition, then_branch, else_branch } => exists|pb: int, pt: int, pe: int|
            #![trigger if_positions(code, pb, pt, pe)]
            if_positions(code, pb, pt, pe) && if_computed(
                a,
                condition,
                then_branch,
                else_branch,
                o,
                code,
                pb,
                pt,
                pe,
                bound,
                env,
            ),
        Expression::Call { callee, args } => exists|d: VReg, ops: Seq<Operand>|
            #![trigger calls_into(code, d, ops)]
            o == Operand::VReg(d) && calls_into(code, d, ops) && call_computed(
                a,
                callee,
                args@,
                ops,
                d,
                code,
                bound, env,
            ),
        _ => false,
    }
}

/// Positions of a branch and of two copies after it, in order.
pub open spec fn if_positions(code: Seq<Inst>, pb: int, pt: int, pe: int) -> bool {
    &&& 0 <= pb < pt < pe < code.len()
    &&& code[pb] is Branch
    &&& code[pt] is Copy
    &&& code[pe] is Copy
}

/// `code` computes a conditional into `o`: at position `pb` a branch tests
/// the operand that the code before it computes for the condition; at `pt`
/// the value that the code before it computes for the `then` branch is
/// copied into `o`'s register, and at a later `pe` that of the `else` branch
/// (zero when there is none).
pub open spec fn if_computed(
    a: Seq<Expression>,
    cond: ExprIdx,
    then_br: ExprIdx,
    else_br: Option<ExprIdx>,
    o: Operand,
    code: Seq<Inst>,
    pb: int,
    pt: int,
    pe: int,
    bound: nat,
    env: spec_fn(Ident) -> Slot,
) -> bool
    decreases bound, 0int,
{
    &&& cond.0 < bound && cond.0 < a.len() && then_br.0 < bound && then_br.0 < a.len()
    &&& 0 <= pb < pt < pe < code.len()
    &&& match code[pb] {
        Inst::Branch { cond: c, .. } => computes(a, a[cond.0 as int], c, code.take(pb), cond.0 as nat, env),
        _ => false,
    }
    &&& match code[pt] {
        Inst::Copy { dst, src } => o == Operand::VReg(dst) && computes(
            a,
            a[then_br.0 as int],
            src,
            code.take(pt),
            then_br.0 as nat,
            env,
        ),
        _ => false,
    }
    &&& match code[pe] {
        Inst::Copy { dst, src } => o == Operand::VReg(dst) && match else_br {
            Some(e) => e.0 < bound && e.0 < a.len() && computes(a, a[e.0 as int], src, code.take(pe), e.0 as nat, env),
            None => src == Operand::IntConst(0),
        },
        _ => false,
    }
}

/// `code` computes a call of `callee` with `args` into register `d`: each
/// argument is computed into the matching operand of `ops`, and an
/// instruction calls with those operands either a named function directly or
/// the closure value that `code` computes for `callee`.
pub open spec fn call_computed(
    a: Seq<Expression>,
    callee: ExprIdx,
    args: Seq<ExprIdx>,
    ops: Seq<Operand>,
    d: VReg,
    code: Seq<Inst>,
    bound: nat,
    env: spec_fn(Ident) -> Slot,
) -> bool
    decreases bound, 0int,
{
    &&& callee.0 < bound
    &&& callee.0 < a.len()
    &&& forall|k: int| 0 <= k < args.len() ==> (#[trigger] args[k]).0 < bound && args[k].0 < a.len()
    &&& ops.len() == args.len()
    &&& forall|k: int|
        0 <= k < args.len() ==> computes(a, a[args[k].0 as int], #[trigger] ops[k], code, args[k].0 as nat, env)
    &&& direct_call(code, d, ops) || exists|j: int|
        0 <= j < code.len() && (#[trigger] code[j] matches Inst::CallIndirect { dst: Some(x), callee: c, args: v }
            && x == d && v@ == ops && computes(a, a[callee.0 as int], c, code, callee.0 as nat, env))
}

/// An instruction of `code` calls, with the operands `ops`, a function or a
/// closure value and puts its result into `d`.
pub open spec fn calls_into(code: Seq<Inst>, d: VReg, ops: Seq<Operand>) -> bool {
    exists|j: int|
        0 <= j < code.len() && ((#[trigger] code[j] matches Inst::Call { dst: Some(x), args: v, .. } && x == d
            && v@ == ops) || (code[j] matches Inst::CallIndirect { dst: Some(x), args: v, .. } && x == d
            && v@ == ops))
}

/// An instruction of `code` calls a named function with the operands `ops`
/// and puts its result into `d`.
pub open spec fn direct_call(code: Seq<Inst>, d: VReg, ops: Seq<Operand>) -> bool {
    exists|j: int|
        0 <= j < code.len() && (#[trigger] code[j] matches Inst::Call { dst: Some(x), args: v, .. } && x == d
            && v@ == ops)
}

/// How the code of expression `e` ends, whatever its operands are: a binary
/// or unary operation with its instruction into the register that it
/// yields, a call with the call of as many arguments into that register;
/// `echo` ends with printing and `return` with returning (a value when it
/// has one), both yielding zero, as does a block without a final expression.
pub open spec fn ends_with(e: Expression, r: Operand, code: Seq<Inst>) -> bool {
    match e {
        Expression::Infix { op, .. } => code.len() > 0 && exists|d: VReg, l: Operand, x: Operand|
            #![trigger spec_infix_inst(op, d, l, x)]
            r == Operand::VReg(d) && code.last() == spec_infix_inst(op, d, l, x),
        Expression::Prefix { op, .. } => code.len() > 0 && exists|d: VReg, x: Operand|
            #![trigger spec_prefix_inst(op, d, x)]
            r == Operand::VReg(d) && code.last() == spec_prefix_inst(op, d, x),
        Expression::Call { args, .. } => call_ends(code, r, args@.len()),
        Expression::Block { tail: None, .. } => r == Operand::IntConst(0),
        Expression::Echo { .. } => code.len() > 0 && code.last() is Echo && r == Operand::IntConst(0),
        Expression::Return { value } => code.len() > 0 && (code.last() matches Inst::Return { value: v }
            && v.is_some() == value.is_some()) && r == Operand::IntConst(0),
        _ => true,
    }
}

/// `code` ends with a call of `nargs` arguments whose result goes to the
/// register `r`: a direct call of a named function, or a call of a computed
/// closure value.
pub open spec fn call_ends(code: Seq<Inst>, r: Operand, nargs: nat) -> bool {
    code.len() > 0 && match code.last() {
        Inst::Call { dst: Some(d), args, .. } => r == Operand::VReg(d) && args@.len() == nargs,
        Inst::CallIndirect { dst: Some(d), args, .. } => r == Operand::VReg(d) && args@.len() == nargs,
        _ => false,
    }
}

/// What `code` computes stays computed when more instructions follow.
proof fn lemma_computes_extends(
    a: Seq<Expression>,
    e: Expression,
    o: Operand,
    c1: Seq<Inst>,
    c2: Seq<Inst>,
    bound: nat,
    env: spec_fn(Ident) -> Slot,
)
    requires
        computes(a, e, o, c1, bound, env),
        extends(c1, c2),
    ensures
        computes(a, e, o, c2, bound, env),
    decreases bound,
{
    match e {
        Expression::VariableRef { name } => {
            if let Operand::VReg(d) = o {
                match env(ref_ident(name)) {
                    Slot::Capture(i) => {
                        let k = choose|k: int| 0 <= k < c1.len() && c1[k] == Inst::LoadCapture { dst: d, index: i };
                        assert(c2[k] == c1[k]);
                    },
                    Slot::Local(l) => {
                        let k = choose|k: int| 0 <= k < c1.len() && c1[k] == Inst::LoadLocal { dst: d, local: l };
                        assert(c2[k] == c1[k]);
                    },
                    Slot::Unbound => {},
                }
            }
        },
        Expression::Infix { op, lhs, rhs } => {
            let (l, r, d) = choose|l: Operand, r: Operand, d: VReg|
                #![trigger c1.contains(spec_infix_inst(op, d, l, r))]
                o == Operand::VReg(d) && c1.contains(spec_infix_inst(op, d, l, r)) && computes(
                    a,
                    a[lhs.0 as int],
                    l,
                    c1,
                    lhs.0 as nat, env,
                ) && computes(a, a[rhs.0 as int], r, c1, rhs.0 as nat, env);
            lemma_computes_extends(a, a[lhs.0 as int], l, c1, c2, lhs.0 as nat, env);
            lemma_computes_extends(a, a[rhs.0 as int], r, c1, c2, rhs.0 as nat, env);
            let k = choose|k: int| 0 <= k < c1.len() && c1[k] == spec_infix_inst(op, d, l, r);
            assert(c2[k] == c1[k]);
            assert(c2.contains(spec_infix_inst(op, d, l, r)));
        },
        Expression::Prefix { op, expr } => {
            let (sv, d) = choose|sv: Operand, d: VReg|
                #![trigger c1.contains(spec_prefix_inst(op, d, sv))]
                o == Operand::VReg(d) && c1.contains(spec_prefix_inst(op, d, sv)) && computes(
                    a,
                    a[expr.0 as int],
                    sv,
                    c1,
                    expr.0 as nat, env,
                );
            lemma_computes_extends(a, a[expr.0 as int], sv, c1, c2, expr.0 as nat, env);
            let k = choose|k: int| 0 <= k < c1.len() && c1[k] == spec_prefix_inst(op, d, sv);
            assert(c2[k] == c1[k]);
            assert(c2.contains(spec_prefix_inst(op, d, sv)));
        },
        Expression::Block { items, tail } => {
            assert forall|k: int| 0 <= k < items@.len() implies item_computed(
                a,
                #[trigger] items@[k],
                c2,
                bound,
                env,
            ) by {
                lemma_item_computed_extends(a, items@[k], c1, c2, bound, env);
            }
            if let Some(t) = tail {
                lemma_computes_extends(a, a[t.0 as int], o, c1, c2, t.0 as nat, env);
            }
        },
        Expression::If { condition, then_branch, else_branch } => {
            let (pb, pt, pe) = choose|pb: int, pt: int, pe: int|
                #![trigger if_positions(c1, pb, pt, pe)]
                if_positions(c1, pb, pt, pe) && if_computed(
                    a,
                    condition,
                    then_branch,
                    else_branch,
                    o,
                    c1,
                    pb,
                    pt,
                    pe,
                    bound,
                    env,
                );
            assert(c2.take(pb) =~= c1.take(pb));
            assert(c2.take(pt) =~= c1.take(pt));
            assert(c2.take(pe) =~= c1.take(pe));
            assert(c2[pb] == c1[pb]);
            assert(c2[pt] == c1[pt]);
            assert(c2[pe] == c1[pe]);
            assert(if_computed(a, condition, then_branch, else_branch, o, c2, pb, pt, pe, bound, env));
            assert(if_positions(c2, pb, pt, pe));
        },
        Expression::Call { callee, args } => {
            let (d, ops) = choose|d: VReg, ops: Seq<Operand>|
                #![trigger calls_into(c1, d, ops)]
                o == Operand::VReg(d) && calls_into(c1, d, ops) && call_computed(
                    a,
                    callee,
                    args@,
                    ops,
                    d,
                    c1,
                    bound, env,
                );
            let jc = choose|j: int|
                0 <= j < c1.len() && ((#[trigger] c1[j] matches Inst::Call { dst: Some(x), args: v, .. } && x == d
                    && v@ == ops) || (c1[j] matches Inst::CallIndirect { dst: Some(x), args: v, .. } && x == d
                    && v@ == ops));
            assert(c2[jc] == c1[jc]);
            assert(calls_into(c2, d, ops));
            assert forall|k: int| 0 <= k < args@.len() implies computes(
                a,
                a[args@[k].0 as int],
                #[trigger] ops[k],
                c2,
                args@[k].0 as nat, env,
            ) by {
                lemma_computes_extends(a, a[args@[k].0 as int], ops[k], c1, c2, args@[k].0 as nat, env);
            }
            if direct_call(c1, d, ops) {
                let j = choose|j: int|
                    0 <= j < c1.len() && (#[trigger] c1[j] matches Inst::Call { dst: Some(x), args: v, .. } && x == d
                        && v@ == ops);
                assert(c2[j] == c1[j]);
            } else {
                let j = choose|j: int|
                    0 <= j < c1.len() && (#[trigger] c1[j] matches Inst::CallIndirect { dst: Some(x), callee: c, args: v }
                        && x == d && v@ == ops && computes(a, a[callee.0 as int], c, c1, callee.0 as nat, env));
                assert(c2[j] == c1[j]);
                if let Inst::CallIndirect { callee: c, .. } = c1[j] {
                    lemma_computes_extends(a, a[callee.0 as int], c, c1, c2, callee.0 as nat, env);
                }
            }
            assert(call_computed(a, callee, args@, ops, d, c2, bound, env));
        },
        _ => {},
    }
}

/// What `code` computes for each argument stays computed when more
/// instructions follow.
proof fn lemma_args_computed_extends(
    a: Seq<Expression>,
    args: Seq<ExprIdx>,
    ops: Seq<Operand>,
    c1: Seq<Inst>,
    c2: Seq<Inst>,
    env: spec_fn(Ident) -> Slot,
)
    requires
        ops.len() == args.len(),
        forall|k: int|
            0 <= k < args.len() ==> computes(a, a[args[k].0 as int], #[trigger] ops[k], c1, args[k].0 as nat, env),
        extends(c1, c2),
    ensures
        forall|k: int|
            0 <= k < args.len() ==> computes(a, a[args[k].0 as int], #[trigger] ops[k], c2, args[k].0 as nat, env),
{
    assert forall|k: int| 0 <= k < args.len() implies computes(
        a,
        a[args[k].0 as int],
        #[trigger] ops[k],
        c2,
        args[k].0 as nat, env,
    ) by {
        lemma_computes_extends(a, a[args[k].0 as int], ops[k], c1, c2, args[k].0 as nat, env);
    }
}

/// The instruction of a binary operator (`and` and `or` copy one operand).
fn infix_inst(op: InfixOp, dst: VReg, lhs: Operand, rhs: Operand) -> (r: Inst)
    ensures
        r == spec_infix_inst(op, dst, lhs, rhs),
        forall|nv: nat, nl: nat|
            dst.0 < nv && operand_ok(lhs, nv) && operand_ok(rhs, nv) ==> #[trigger] inst_ok(
                r,
                nv,
                nl,
            ),
{
    match op {
        InfixOp::Add => Inst::AddInt { dst, lhs, rhs },
        InfixOp::Sub => Inst::SubInt { dst, lhs, rhs },
        InfixOp::Mul => Inst::MulInt { dst, lhs, rhs },
        InfixOp::Div => Inst::DivInt { dst, lhs, rhs },
        InfixOp::Mod => Inst::ModInt { dst, lhs, rhs },
        InfixOp::AddFloat => Inst::AddFloat { dst, lhs, rhs },
        InfixOp::SubFloat => Inst::SubFloat { dst, lhs, rhs },
        InfixOp::MulFloat => Inst::MulFloat { dst, lhs, rhs },
        InfixOp::DivFloat => Inst::DivFloat { dst, lhs, rhs },
        InfixOp::Eq => Inst::EqInt { dst, lhs, rhs },
        InfixOp::NotEq => Inst::NeInt { dst, lhs, rhs },
        InfixOp::Gt => Inst::GtInt { dst, lhs, rhs },
        InfixOp::Lt => Inst::LtInt { dst, lhs, rhs },
        InfixOp::Gte => Inst::GeInt { dst, lhs, rhs },
        InfixOp::Lte => Inst::LeInt { dst, lhs, rhs },
        InfixOp::GtFloat => Inst::GtFloat { dst, lhs, rhs },
        InfixOp::LtFloat => Inst::LtFloat { dst, lhs, rhs },
        InfixOp::GteFloat => Inst::GeFloat { dst, lhs, rhs },
        InfixOp::LteFloat => Inst::LeFloat { dst, lhs, rhs },
        InfixOp::And => Inst::Copy { dst, src: rhs },
        InfixOp::Or => Inst::Copy { dst, src: lhs },
    }
}

/// Growth composes.
proof fn lemma_grew_trans<'a>(a: LowerCtx<'a>, b: LowerCtx<'a>, c: LowerCtx<'a>, x: nat, y: nat)
    requires
        a.grew(b, x),
        b.grew(c, y),
    ensures
        a.grew(c, x + y),
{
}

impl<'a> LowerCtx<'a> {
    /// A name: a captured value inside a closure, else the local bound to it,
    /// else zero.
    fn lower_var_ref(&mut self, name: &str) -> (r: Operand)
        requires
            old(self).inv(),
            old(self).next_vreg < u32::MAX,
        ensures
            final(self).inv(),
            old(self).grew(*final(self), 1),
            operand_ok(r, final(self).next_vreg as nat),
            final(self).functions@ == old(self).functions@,
            final(self).next_local == old(self).next_local,
            final(self).local_scopes@ == old(self).local_scopes@,
            final(self).capture_map@ == old(self).capture_map@,
            match lookup_last(old(self).capture_map@, name@) {
                Some(index) => r == Operand::VReg(VReg(old(self).next_vreg)) && final(self).code()
                    == old(self).code().push(
                    Inst::LoadCapture { dst: VReg(old(self).next_vreg), index },
                ),
                None => match lookup_scopes(old(self).local_scopes@, name@) {
                    Some(local) => r == Operand::VReg(VReg(old(self).next_vreg)) && final(self).code()
                        == old(self).code().push(
                        Inst::LoadLocal { dst: VReg(old(self).next_vreg), local },
                    ),
                    None => r == Operand::IntConst(0) && final(self).code() == old(self).code(),
                },
            },
            old(self).follows(*final(self)),
    {
        match find_last(&self.capture_map, name) {
            Some(index) => {
                let dst = self.fresh_vreg();
                self.emit(Inst::LoadCapture { dst, index });
                return Operand::VReg(dst);
            },
            None => {},
        }
        match self.get_local(name) {
            Some(local) => {
                let dst = self.fresh_vreg();
                self.emit(Inst::LoadLocal { dst, local });
                Operand::VReg(dst)
            },
            None => Operand::IntConst(0),
        }
    }

    /// Lowers the expression stored at `idx`.
    fn lower_expr_idx(&mut self, idx: ExprIdx) -> (r: Operand)
        requires
            old(self).inv(),
            idx.0 < old(self).hir.expressions@.len(),
            old(self).fits(idx_cost(old(self).hir.expressions@, idx.0 as int)),
        ensures
            final(self).inv(),
            old(self).grew(*final(self), idx_cost(old(self).hir.expressions@, idx.0 as int)),
            operand_ok(r, final(self).next_vreg as nat),
            simple(old(self).hir.expressions@, old(self).hir.expressions@[idx.0 as int], idx.0 as nat) ==> (extends(old(self).code(), final(self).code())
                && computes(old(self).hir.expressions@, old(self).hir.expressions@[idx.0 as int], r, final(self).code(), idx.0 as nat, old(self).env())
                && final(self).functions@ == old(self).functions@
                && final(self).next_local == old(self).next_local
                && final(self).local_scopes@ == old(self).local_scopes@
                && final(self).capture_map@ == old(self).capture_map@),
            block_lowered(*old(self), *final(self), old(self).hir.expressions@[idx.0 as int], r, idx.0 as nat),
            old(self).follows(*final(self)),
            final(self).functions@.len() == old(self).functions@.len() + lam_idx(old(self).hir.expressions@, idx.0 as int),
        decreases idx.0, 5int,
    {
        let hir: &'a LowerResult = self.hir;
        let e = &hir.expressions[idx.0];
        proof {
            assert(expr_below(hir.expressions@[idx.0 as int], idx.0 as nat));
            assert(mir_expr_ok(hir.expressions@[idx.0 as int], hir.interner@.len()));
        }
        self.lower_expr(e, Ghost(idx.0 as nat))
    }

    /// Lowers an expression whose operands lie below `bound`.
    #[verifier::rlimit(60)]
    fn lower_expr(&mut self, e: &Expression, Ghost(bound): Ghost<nat>) -> (r: Operand)
        requires
            old(self).inv(),
            bound <= old(self).hir.expressions@.len(),
            expr_below(*e, bound),
            mir_expr_ok(*e, old(self).hir.interner@.len()),
            old(self).fits(expr_cost(old(self).hir.expressions@, *e, bound as int)),
        ensures
            final(self).inv(),
            old(self).grew(*final(self), expr_cost(old(self).hir.expressions@, *e, bound as int)),
            operand_ok(r, final(self).next_vreg as nat),
            simple(old(self).hir.expressions@, *e, bound) ==> (extends(old(self).code(), final(self).code())
                && computes(old(self).hir.expressions@, *e, r, final(self).code(), bound, old(self).env())
                && final(self).functions@ == old(self).functions@
                && final(self).next_local == old(self).next_local
                && final(self).local_scopes@ == old(self).local_scopes@
                && final(self).capture_map@ == old(self).capture_map@),
            ends_with(*e, r, final(self).code()),
            block_lowered(*old(self), *final(self), *e, r, bound),
            (match *e {
                Expression::Function { params, body, captures, .. } => closure_made(
                    *old(self),
                    *final(self),
                    params@,
                    body,
                    captured(old(self).local_scopes@, old(self).hir.interner@, captures@),
                    r,
                ),
                Expression::If { .. } => r matches Operand::VReg(d) && if_made(
                    final(self).blocks@,
                    old(self).blocks@.len() as int,
                    final(self).current_block,
                    d,
                ),
                _ => true,
            }),
            old(self).follows(*final(self)),
            final(self).functions@.len() == old(self).functions@.len() + lam_expr(old(self).hir.expressions@, *e, bound as int),
        decreases bound, 4int,
    {
        let ghost a = self.hir.expressions@;
        let ghost c = expr_cost(a, *e, bound as int);
        match e {
            Expression::Missing => Operand::IntConst(0),
            Expression::Literal(lit) => lower_literal(lit),
            Expression::Infix { op, lhs, rhs } => {
                let ghost g0 = *self;
                let l = self.lower_expr_idx(*lhs);
                let ghost g1 = *self;
                let r = self.lower_expr_idx(*rhs);
                let ghost g2 = *self;
                let dst = self.fresh_vreg();
                let inst = infix_inst(*op, dst, l, r);
                self.emit(inst);
                proof {
                    lemma_grew_trans(g0, g1, g2, idx_cost(a, lhs.0 as int), idx_cost(a, rhs.0 as int));
                    lemma_grew_trans(g0, g2, *self, idx_cost(a, lhs.0 as int) + idx_cost(a, rhs.0 as int), 1);
                    if simple(a, *e, bound) {
                        let c3 = self.code();
                        assert(g1.env() == g0.env());
                        assert(extends(g2.code(), c3));
                        lemma_computes_extends(a, a[lhs.0 as int], l, g1.code(), g2.code(), lhs.0 as nat, g0.env());
                        lemma_computes_extends(a, a[lhs.0 as int], l, g2.code(), c3, lhs.0 as nat, g0.env());
                        lemma_computes_extends(a, a[rhs.0 as int], r, g2.code(), c3, rhs.0 as nat, g0.env());
                        assert(c3[c3.len() - 1] == spec_infix_inst(*op, dst, l, r));
                        assert(c3.contains(spec_infix_inst(*op, dst, l, r)));
                        assert(extends(g0.code(), c3));
                    }
                    assert(self.code().last() == spec_infix_inst(*op, dst, l, r));
                }
                Operand::VReg(dst)
            },
            Expression::Prefix { op, expr } => {
                let ghost g0 = *self;
                let src = self.lower_expr_idx(*expr);
                let ghost g1 = *self;
                let dst = self.fresh_vreg();
                let inst = match op {
                    PrefixOp::Neg => Inst::NegInt { dst, src },
                    PrefixOp::Not => Inst::Not { dst, src },
                };
                self.emit(inst);
                proof {
                    lemma_grew_trans(g0, g1, *self, idx_cost(a, expr.0 as int), 1);
                    if simple(a, *e, bound) {
                        let c3 = self.code();
                        lemma_computes_extends(a, a[expr.0 as int], src, g1.code(), c3, expr.0 as nat, g0.env());
                        assert(inst == spec_prefix_inst(*op, dst, src));
                        assert(c3[c3.len() - 1] == spec_prefix_inst(*op, dst, src));
                        assert(c3.contains(spec_prefix_inst(*op, dst, src)));
                    }
                    assert(inst == spec_prefix_inst(*op, dst, src));
                    assert(self.code().last() == spec_prefix_inst(*op, dst, src));
                }
                Operand::VReg(dst)
            },
            Expression::VariableRef { name } => {
                let id = match name {
                    ResolvedIdent::Local(id) => *id,
                    ResolvedIdent::External { name, .. } => *name,
                };
                let text = self.resolve(id);
                let ghost g0 = *self;
                let r = self.lower_var_ref(text);
                proof {
                    let c = self.code();
                    assert(id == ref_ident(*name));
                    assert(text@ == g0.hir.interner@[id.0 as int]);
                    if c != g0.code() {
                        assert(c[c.len() - 1] == c.last());
                    }
                }
                r
            },
            Expression::Block { items, tail } => self.lower_block(items, *tail, Ghost(bound)),
            Expression::If { condition, then_branch, else_branch } => self.lower_if(
                *condition,
                *then_branch,
                *else_branch,
                Ghost(bound),
            ),
            Expression::Function { params, body, captures, .. } => self.lower_lambda(
                params,
                *body,
                captures,
                Ghost(bound),
            ),
            Expression::Call { callee, args } => self.lower_call(*callee, args, Ghost(bound)),
            Expression::Return { value } => {
                let ghost g0 = *self;
                let operand = match value {
                    Some(i) => Some(self.lower_expr_idx(*i)),
                    None => None,
                };
                self.emit(Inst::Return { value: operand });
                Operand::IntConst(0)
            },
            Expression::Echo { value } => {
                let operand = self.lower_expr_idx(*value);
                self.emit(Inst::Echo { src: operand });
                Operand::IntConst(0)
            },
            _ => {
                proof {
                    assert(false);
                }
                Operand::IntConst(0)
            },
        }
    }
}


/// Costs of a prefix of block items grow with the prefix.
proof fn lemma_items_cost_prefix(a: Seq<Expression>, s: Seq<BlockItem>, i: int, j: int, bound: int)
    requires
        0 <= i <= j <= s.len(),
    ensures
        items_cost(a, s.take(i), bound) <= items_cost(a, s.take(j), bound),
    decreases j - i,
{
    if i < j {
        assert(s.take(j).drop_last() =~= s.take(j - 1));
        lemma_items_cost_prefix(a, s, i, j - 1, bound);
    }
}

/// Costs of a prefix of operand indices grow with the prefix.
proof fn lemma_args_cost_prefix(a: Seq<Expression>, s: Seq<ExprIdx>, i: int, j: int, bound: int)
    requires
        0 <= i <= j <= s.len(),
    ensures
        args_cost(a, s.take(i), bound) <= args_cost(a, s.take(j), bound),
    decreases j - i,
{
    if i < j {
        assert(s.take(j).drop_last() =~= s.take(j - 1));
        lemma_args_cost_prefix(a, s, i, j - 1, bound);
    }
}

/// Raising the register bound keeps operands within it.
proof fn lemma_operands_ok_mono(s: Seq<Operand>, nv: nat, nv2: nat)
    requires
        operands_ok(s, nv),
        nv <= nv2,
    ensures
        operands_ok(s, nv2),
{
    assert forall|k: int| 0 <= k < s.len() implies operand_ok(#[trigger] s[k], nv2) by {
        assert(operand_ok(s[k], nv));
    }
}

impl<'a> LowerCtx<'a> {
    /// Lowers a block inside a new scope: each item in order, then the tail
    /// (zero without one).
    fn lower_block(&mut self, items: &Vec<BlockItem>, tail: Option<ExprIdx>, Ghost(bound): Ghost<nat>) -> (r: Operand)
        requires
            old(self).inv(),
            bound <= old(self).hir.expressions@.len(),
            forall|k: int|
                0 <= k < items@.len() ==> block_item_below(#[trigger] items@[k], bound)
                    && mir_block_item_ok(items@[k], old(self).hir.interner@.len()),
            crate::hir::opt_below(tail, bound),
            old(self).fits(
                3 + items@.len() + items_cost(old(self).hir.expressions@, items@, bound as int)
                    + opt_cost(old(self).hir.expressions@, tail, bound as int),
            ),
        ensures
            final(self).inv(),
            old(self).grew(
                *final(self),
                3 + items@.len() + items_cost(old(self).hir.expressions@, items@, bound as int)
                    + opt_cost(old(self).hir.expressions@, tail, bound as int),
            ),
            operand_ok(r, final(self).next_vreg as nat),
            tail is None ==> r == Operand::IntConst(0),
            old(self).follows(*final(self)),
            final(self).functions@.len() == old(self).functions@.len() + lam_items(old(self).hir.expressions@, items@, bound as int) + lam_opt(old(self).hir.expressions@, tail, bound as int),
            simple(old(self).hir.expressions@, (Expression::Block { items: *items, tail }), bound) ==> (
            extends(old(self).code(), final(self).code()) && computes(
                old(self).hir.expressions@,
                (Expression::Block { items: *items, tail }),
                r,
                final(self).code(),
                bound,
                old(self).env(),
            ) && final(self).functions@ == old(self).functions@ && final(self).next_local == old(
                self,
            ).next_local && final(self).local_scopes@ == old(self).local_scopes@
                && final(self).capture_map@ == old(self).capture_map@),
            flat_block(old(self).hir.expressions@, items@, tail, bound) ==> (extends(
                old(self).code(),
                final(self).code(),
            ) && block_computed(
                old(self).hir.expressions@,
                items@,
                tail,
                r,
                final(self).code(),
                bound,
                old(self).env(),
                old(self).hir.interner@,
                old(self).next_local as nat,
            ) && final(self).functions@ == old(self).functions@ && final(self).next_local == old(
                self,
            ).next_local + def_count(items@) && final(self).capture_map@ == old(self).capture_map@),
        decreases bound, 3int,
    {
        let ghost a = self.hir.expressions@;
        let ghost n = self.hir.interner@.len();
        let ghost total = 3 + items@.len() + items_cost(a, items@, bound as int) + opt_cost(
            a,
            tail,
            bound as int,
        );
        let ghost g00 = *self;
        self.push_scope();
        let ghost sb = simple(a, (Expression::Block { items: *items, tail }), bound);
        let ghost fb = flat_block(a, items@, tail, bound);
        let ghost g0 = *self;
        let ghost names = g0.hir.interner@;
        let ghost nl0 = g0.next_local as nat;
        proof {
            lemma_env_push_empty(g00.capture_map@, g00.local_scopes@, g0.local_scopes@, g00.hir.interner@);
            assert(g0.env() == g00.env());
            if sb {
                let be = Expression::Block { items: *items, tail };
                assert(simple(a, be, bound));
                assert(be->tail == tail);
                assert forall|k: int| 0 <= k < items@.len() implies simple_item(a, #[trigger] items@[k], bound) by {
                    assert(be->items@[k] == items@[k]);
                }
                assert(fb);
            }
            assert(block_env(g0.env(), names, items@.take(0), nl0) == g0.env());
            assert(def_count(items@.take(0)) == 0);
        }
        let mut i: usize = 0;
        assert(items@.take(0) =~= Seq::<BlockItem>::empty());
        while i < items.len()
            invariant
                sb == simple(a, (Expression::Block { items: *items, tail }), bound),
                sb ==> (extends(g0.code(), self.code()) && self.functions@ == g0.functions@
                    && self.next_local == g0.next_local && self.local_scopes@ == g0.local_scopes@
                    && self.capture_map@ == g0.capture_map@),
                fb == flat_block(a, items@, tail, bound),
                sb ==> fb,
                names == g0.hir.interner@,
                nl0 == g0.next_local,
                self.local_scopes@.len() > 0,
                fb ==> (extends(g0.code(), self.code()) && self.functions@ == g0.functions@
                    && self.next_local == nl0 + def_count(items@.take(i as int))
                    && self.capture_map@ == g0.capture_map@
                    && self.env() == block_env(g0.env(), names, items@.take(i as int), nl0)),
                fb ==> forall|k: int|
                    0 <= k < i ==> #[trigger] item_done(
                        a,
                        items@[k],
                        self.code(),
                        bound,
                        block_env(g0.env(), names, items@.take(k), nl0),
                        nl0 + def_count(items@.take(k)),
                    ),
                g0.follows(*self),
                self.inv(),
                self.hir == g0.hir,
                a == g0.hir.expressions@,
                n == g0.hir.interner@.len(),
                bound <= a.len(),
                i <= items@.len(),
                g00.grew(g0, 0),
                g00.fits(total),
                total == 3 + items@.len() + items_cost(a, items@, bound as int) + opt_cost(
                    a,
                    tail,
                    bound as int,
                ),
                g0.grew(*self, items_cost(a, items@.take(i as int), bound as int) + i as nat),
                self.functions@.len() == g0.functions@.len() + lam_items(a, items@.take(i as int), bound as int),
                forall|k: int|
                    0 <= k < items@.len() ==> block_item_below(#[trigger] items@[k], bound)
                        && mir_block_item_ok(items@[k], n),
            decreases items@.len() - i,
        {
            let ghost gi = *self;
            let ghost ci = block_item_cost(a, items@[i as int], bound as int);
            proof {
                assert(items@.take(i + 1).drop_last() =~= items@.take(i as int));
                assert(items@.take(i + 1).last() == items@[i as int]);
                lemma_items_cost_prefix(a, items@, i + 1, items@.len() as int, bound as int);
                assert(items@.take(items@.len() as int) =~= items@);
                assert(block_item_below(items@[i as int], bound));
                assert(mir_block_item_ok(items@[i as int], n));
                assert(lam_items(a, items@.take(i + 1), bound as int) == lam_items(a, items@.take(i as int), bound as int)
                    + lam_block_item(a, items@[i as int], bound as int));
                if sb {
                    let be = Expression::Block { items: *items, tail };
                    assert(simple(a, be, bound));
                    assert(be->items@[i as int] == items@[i as int]);
                    assert(simple_item(a, items@[i as int], bound));
                }
                if fb {
                    assert(simple_item(a, items@[i as int], bound) || items@[i as int] is Definition);
                    assert(items@.take(i + 1).take(i as int) =~= items@.take(i as int));
                }
            }
            match &items[i] {
                BlockItem::Definition { name, value } => {
                    let text = self.resolve(*name);
                    let op = self.lower_expr_idx(*value);
                    let ghost cv = self.code();
                    let ghost gd = *self;
                    let local = self.alloc_local(text);
                    self.emit(Inst::StoreLocal { local, src: op });
                    proof {
                        if fb {
                            assert(self.code().take(cv.len() as int) =~= cv);
                            assert(item_at(self.code(), cv.len() as int));
                            assert(item_done(
                                a,
                                items@[i as int],
                                self.code(),
                                bound,
                                block_env(g0.env(), names, items@.take(i as int), nl0),
                                nl0 + def_count(items@.take(i as int)),
                            ));
                            let prev = block_env(g0.env(), names, items@.take(i as int), nl0);
                            let t1 = items@.take(i + 1);
                            assert(t1.drop_last() =~= items@.take(i as int));
                            assert(t1.last() == items@[i as int]);
                            assert(def_count(t1) == def_count(items@.take(i as int)) + 1);
                            assert forall|id: Ident| #[trigger] self.env()(id) == block_env(g0.env(), names, t1, nl0)(id) by {
                                let t = names[id.0 as int];
                                assert(prev(id) == gd.env()(id));
                                assert(lookup_scopes(self.local_scopes@, t) == (if t == text@ {
                                    Some(local)
                                } else {
                                    lookup_scopes(gd.local_scopes@, t)
                                }));
                            }
                            assert(self.env() =~= block_env(g0.env(), names, t1, nl0));
                        }
                    }
                },
                BlockItem::Assignment { name, value } => {
                    let text = self.resolve(*name);
                    let op = self.lower_expr_idx(*value);
                    let ghost cv = self.code();
                    match self.get_local(text) {
                        Some(local) => {
                            self.emit(Inst::StoreLocal { local, src: op });
                            proof {
                                if fb {
                                    assert(self.code().take(cv.len() as int) =~= cv);
                                    assert(item_at(self.code(), cv.len() as int));
                                }
                            }
                        },
                        None => {},
                    }
                },
                BlockItem::Expression(idx) => {
                    self.lower_expr_idx(*idx);
                },
                BlockItem::Return { value } => {
                    let operand = match value {
                        Some(v) => Some(self.lower_expr_idx(*v)),
                        None => None,
                    };
                    let ghost cv = self.code();
                    self.emit(Inst::Return { value: operand });
                    proof {
                        if fb {
                            assert(self.code().take(cv.len() as int) =~= cv);
                            assert(item_at(self.code(), cv.len() as int));
                        }
                    }
                },
                BlockItem::Echo { value } => {
                    let op = self.lower_expr_idx(*value);
                    let ghost cv = self.code();
                    self.emit(Inst::Echo { src: op });
                    proof {
                        if fb {
                            assert(self.code().take(cv.len() as int) =~= cv);
                            assert(item_at(self.code(), cv.len() as int));
                        }
                    }
                },
                _ => {
                    proof {
                        assert(false);
                    }
                },
            }
            proof {
                lemma_grew_trans(
                    g0,
                    gi,
                    *self,
                    items_cost(a, items@.take(i as int), bound as int) + i as nat,
                    ci + 1,
                );
                if fb {
                    assert(extends(gi.code(), self.code()));
                    let t1 = items@.take(i + 1);
                    assert(t1.drop_last() =~= items@.take(i as int));
                    assert(t1.last() == items@[i as int]);
                    if !(items@[i as int] is Definition) {
                        assert(block_env(g0.env(), names, t1, nl0) == block_env(g0.env(), names, items@.take(i as int), nl0));
                        assert(def_count(t1) == def_count(items@.take(i as int)));
                        assert(item_done(
                            a,
                            items@[i as int],
                            self.code(),
                            bound,
                            block_env(g0.env(), names, items@.take(i as int), nl0),
                            nl0 + def_count(items@.take(i as int)),
                        ));
                    }
                    assert forall|k: int| 0 <= k < i + 1 implies #[trigger] item_done(
                        a,
                        items@[k],
                        self.code(),
                        bound,
                        block_env(g0.env(), names, items@.take(k), nl0),
                        nl0 + def_count(items@.take(k)),
                    ) by {
                        if k < i {
                            lemma_item_done_extends(
                                a,
                                items@[k],
                                gi.code(),
                                self.code(),
                                bound,
                                block_env(g0.env(), names, items@.take(k), nl0),
                                nl0 + def_count(items@.take(k)),
                            );
                        }
                    }
                }
            }
            i = i + 1;
        }
        proof {
            assert(items@.take(items@.len() as int) =~= items@);
        }
        let ghost g1 = *self;
        let result = match tail {
            Some(t) => self.lower_expr_idx(t),
            None => Operand::IntConst(0),
        };
        let ghost g2 = *self;
        self.pop_scope();
        proof {
            if sb {
                let be = Expression::Block { items: *items, tail };
                assert(simple(a, be, bound));
                assert(g1.env() == g00.env());
                if let Some(t) = tail {
                    assert(be->tail == tail);
                    assert(simple(a, a[t.0 as int], t.0 as nat));
                }
                assert forall|k: int| 0 <= k < items@.len() implies item_computed(
                    a,
                    #[trigger] items@[k],
                    self.code(),
                    bound,
                    g00.env(),
                ) by {
                    assert(simple_item(a, be->items@[k], bound));
                    assert(be->items@[k] == items@[k]);
                    assert forall|j: int| 0 <= j < items@.take(k).len() implies !(#[trigger] items@.take(k)[j] is Definition) by {
                        assert(items@.take(k)[j] == items@[j]);
                        assert(simple_item(a, be->items@[j], bound));
                    }
                    lemma_block_env_nodef(g0.env(), names, items@.take(k), nl0);
                    lemma_item_done_extends(
                        a,
                        items@[k],
                        g1.code(),
                        self.code(),
                        bound,
                        block_env(g0.env(), names, items@.take(k), nl0),
                        nl0 + def_count(items@.take(k)),
                    );
                }
            }
            if fb {
                assert(g1.env() == block_env(g0.env(), names, items@, nl0));
                if let Some(t) = tail {
                    assert(simple(a, a[t.0 as int], t.0 as nat));
                }
                assert forall|k: int| 0 <= k < items@.len() implies #[trigger] item_done(
                    a,
                    items@[k],
                    self.code(),
                    bound,
                    block_env(g00.env(), names, items@.take(k), nl0),
                    nl0 + def_count(items@.take(k)),
                ) by {
                    lemma_item_done_extends(
                        a,
                        items@[k],
                        g1.code(),
                        self.code(),
                        bound,
                        block_env(g0.env(), names, items@.take(k), nl0),
                        nl0 + def_count(items@.take(k)),
                    );
                }
                assert(block_computed(a, items@, tail, result, self.code(), bound, g00.env(), names, g00.next_local as nat));
            }
        }
        proof {
            lemma_grew_trans(g00, g0, g1, 0, items_cost(a, items@, bound as int) + items@.len());
            lemma_grew_trans(
                g00,
                g1,
                g2,
                items_cost(a, items@, bound as int) + items@.len(),
                opt_cost(a, tail, bound as int),
            );
        }
        result
    }

    /// Lowers a conditional into a branch to a then block and an else block
    /// that both copy their value into one register and jump to a merge
    /// block.
    fn lower_if(
        &mut self,
        cond: ExprIdx,
        then_br: ExprIdx,
        else_br: Option<ExprIdx>,
        Ghost(bound): Ghost<nat>,
    ) -> (r: Operand)
        requires
            old(self).inv(),
            bound <= old(self).hir.expressions@.len(),
            cond.0 < bound,
            then_br.0 < bound,
            crate::hir::opt_below(else_br, bound),
            old(self).fits(
                3 + child_cost(old(self).hir.expressions@, cond, bound as int) + child_cost(
                    old(self).hir.expressions@,
                    then_br,
                    bound as int,
                ) + opt_cost(old(self).hir.expressions@, else_br, bound as int),
            ),
        ensures
            final(self).inv(),
            old(self).grew(
                *final(self),
                3 + child_cost(old(self).hir.expressions@, cond, bound as int) + child_cost(
                    old(self).hir.expressions@,
                    then_br,
                    bound as int,
                ) + opt_cost(old(self).hir.expressions@, else_br, bound as int),
            ),
            operand_ok(r, final(self).next_vreg as nat),
            old(self).follows(*final(self)),
            r matches Operand::VReg(d) && if_made(
                final(self).blocks@,
                old(self).blocks@.len() as int,
                final(self).current_block,
                d,
            ),
            final(self).functions@.len() == old(self).functions@.len() + lam_child(old(self).hir.expressions@, cond, bound as int) + lam_child(old(self).hir.expressions@, then_br, bound as int) + lam_opt(old(self).hir.expressions@, else_br, bound as int),
            simple(
                old(self).hir.expressions@,
                (Expression::If { condition: cond, then_branch: then_br, else_branch: else_br }),
                bound,
            ) ==> (extends(old(self).code(), final(self).code()) && computes(
                old(self).hir.expressions@,
                (Expression::If { condition: cond, then_branch: then_br, else_branch: else_br }),
                r,
                final(self).code(),
                bound,
                old(self).env(),
            ) && final(self).functions@ == old(self).functions@ && final(self).next_local == old(
                self,
            ).next_local && final(self).local_scopes@ == old(self).local_scopes@
                && final(self).capture_map@ == old(self).capture_map@),
        decreases bound, 3int,
    {
        let ghost a = self.hir.expressions@;
        let ghost g0 = *self;
        let cond_op = self.lower_expr_idx(cond);
        let ghost g1 = *self;
        let then_bb = self.create_block();
        let else_bb = self.create_block();
        let merge_bb = self.create_block();
        let result = self.fresh_vreg();
        self.emit(Inst::Branch { cond: cond_op, then_bb, else_bb });
        let ghost gb = *self;
        self.switch_to_block(then_bb);
        let ghost g2 = *self;
        assert(g1.grew(g2, 3));
        let then_val = self.lower_expr_idx(then_br);
        let ghost g2t = *self;
        self.emit(Inst::Copy { dst: result, src: then_val });
        self.emit(Inst::Jump { target: merge_bb });
        let ghost g2j = *self;
        self.switch_to_block(else_bb);
        let ghost g3 = *self;
        let else_val = match else_br {
            Some(e) => self.lower_expr_idx(e),
            None => Operand::IntConst(0),
        };
        let ghost g3e = *self;
        self.emit(Inst::Copy { dst: result, src: else_val });
        self.emit(Inst::Jump { target: merge_bb });
        let ghost g3j = *self;
        self.switch_to_block(merge_bb);
        proof {
            let k = gb.blocks@.len() as int;
            let k2 = g2j.blocks@.len() as int + 1;
            assert(g2.blocks@ == gb.blocks@.push(gb.current_block));
            assert(g2.blocks@[k] == gb.current_block);
            assert(gb.current_block.insts@.last() == Inst::Branch { cond: cond_op, then_bb, else_bb });
            assert(g2.current_block.id == then_bb);
            assert(g2j.current_block.insts@.len() >= 2);
            assert(g3.blocks@ == g2j.blocks@.push(g2j.current_block));
            assert(g3.current_block.id == else_bb);
            assert(g3j.current_block.insts@.len() >= 2);
            assert(self.blocks@ == g3j.blocks@.push(g3j.current_block));
            assert(then_bb != else_bb);
            assert(then_bb != merge_bb && else_bb != merge_bb);
            // the block after the branch is the then block
            assert(g2j.blocks@.len() == g2t.blocks@.len());
            if g2t.blocks@.len() > g2.blocks@.len() {
                assert(g2t.blocks@[k + 1].id == then_bb);
            } else {
                assert(g2t.current_block.id == then_bb);
            }
            assert(g3.blocks@[k + 1].id == then_bb);
            assert(g3j.blocks@.len() == g3e.blocks@.len());
            if g3e.blocks@.len() > g3.blocks@.len() {
                assert(g3e.blocks@[k2].id == else_bb);
            } else {
                assert(g3e.current_block.id == else_bb);
            }
            assert(self.blocks@[k2].id == else_bb);
            assert(self.blocks@[k + 1].id == then_bb);
            assert(self.blocks@[k] == gb.current_block);
            assert(self.blocks@[k2 - 1] == g2j.current_block);
            assert(ends_branch(self.blocks@[k], self.blocks@[k + 1].id, self.blocks@[k2].id));
            let ie = Expression::If { condition: cond, then_branch: then_br, else_branch: else_br };
            if simple(a, ie, bound) {
                let fc = self.code();
                let pb = g1.code().len() as int;
                let pt = g2t.code().len() as int;
                let pe = g3e.code().len() as int;
                assert(simple(a, a[cond.0 as int], cond.0 as nat));
                assert(simple(a, a[then_br.0 as int], then_br.0 as nat));
                assert(gb.code() == g1.code().push(Inst::Branch { cond: cond_op, then_bb, else_bb }));
                assert(g2.env() == g0.env());
                assert(g3.code() == g2t.code().push(Inst::Copy { dst: result, src: then_val }).push(
                    Inst::Jump { target: merge_bb },
                ));
                if let Some(e) = else_br {
                    assert(simple(a, a[e.0 as int], e.0 as nat));
                }
                assert(g3.env() == g0.env());
                assert(fc == g3e.code().push(Inst::Copy { dst: result, src: else_val }).push(
                    Inst::Jump { target: merge_bb },
                ));
                assert(extends(g2.code(), g2t.code()));
                assert(extends(g3.code(), g3e.code()));
                assert(fc.take(pe) =~= g3e.code());
                assert(fc.take(pt) =~= g2t.code());
                assert(fc.take(pb) =~= g1.code());
                assert(fc[pb] == Inst::Branch { cond: cond_op, then_bb, else_bb });
                assert(fc[pt] == Inst::Copy { dst: result, src: then_val });
                assert(fc[pe] == Inst::Copy { dst: result, src: else_val });
                assert(if_positions(fc, pb, pt, pe));
                assert(if_computed(a, cond, then_br, else_br, Operand::VReg(result), fc, pb, pt, pe, bound, g0.env()));
                assert(extends(g0.code(), fc));
            }
            assert(ends_copy_jump(self.blocks@[k2 - 1], result, merge_bb));
            assert(ends_copy_jump(self.blocks@.last(), result, merge_bb));
        }
        proof {
            lemma_grew_trans(g0, g1, g2, child_cost(a, cond, bound as int), 3);
            lemma_grew_trans(
                g0,
                g2,
                g3,
                child_cost(a, cond, bound as int) + 3,
                child_cost(a, then_br, bound as int),
            );
            lemma_grew_trans(
                g0,
                g3,
                *self,
                child_cost(a, cond, bound as int) + 3 + child_cost(a, then_br, bound as int),
                opt_cost(a, else_br, bound as int),
            );
        }
        Operand::VReg(result)
    }

    /// Lowers a call: the arguments, then the callee; a name bound to a
    /// top-level function is called directly, anything else through its
    /// value.
    fn lower_call(&mut self, callee: ExprIdx, args: &Vec<ExprIdx>, Ghost(bound): Ghost<nat>) -> (r: Operand)
        requires
            old(self).inv(),
            bound <= old(self).hir.expressions@.len(),
            callee.0 < bound,
            crate::hir::all_below(args@, bound),
            old(self).fits(
                3 + args@.len() + child_cost(old(self).hir.expressions@, callee, bound as int)
                    + args_cost(old(self).hir.expressions@, args@, bound as int),
            ),
        ensures
            final(self).inv(),
            old(self).grew(
                *final(self),
                3 + args@.len() + child_cost(old(self).hir.expressions@, callee, bound as int)
                    + args_cost(old(self).hir.expressions@, args@, bound as int),
            ),
            operand_ok(r, final(self).next_vreg as nat),
            call_ends(final(self).code(), r, args@.len()),
            simple(old(self).hir.expressions@, (Expression::Call { callee, args: *args }), bound) ==> (
            extends(old(self).code(), final(self).code()) && computes(
                old(self).hir.expressions@,
                (Expression::Call { callee, args: *args }),
                r,
                final(self).code(),
                bound, old(self).env(),
            ) && final(self).functions@ == old(self).functions@ && final(self).next_local == old(
                self,
            ).next_local && final(self).local_scopes@ == old(self).local_scopes@
                && final(self).capture_map@ == old(self).capture_map@),
            old(self).follows(*final(self)),
            final(self).functions@.len() == old(self).functions@.len() + lam_child(old(self).hir.expressions@, callee, bound as int) + lam_args(old(self).hir.expressions@, args@, bound as int),
        decreases bound, 3int,
    {
        let ghost a = self.hir.expressions@;
        let ghost total = 3 + args@.len() + child_cost(a, callee, bound as int) + args_cost(
            a,
            args@,
            bound as int,
        );
        let ghost g0 = *self;
        let ghost sc = simple(a, (Expression::Call { callee, args: *args }), bound);
        let mut ops: Vec<Operand> = Vec::new();
        let mut i: usize = 0;
        assert(args@.take(0) =~= Seq::<ExprIdx>::empty());
        while i < args.len()
            invariant
                self.inv(),
                self.hir == g0.hir,
                a == g0.hir.expressions@,
                bound <= a.len(),
                i <= args@.len(),
                crate::hir::all_below(args@, bound),
                g0.fits(total),
                total == 3 + args@.len() + child_cost(a, callee, bound as int) + args_cost(
                    a,
                    args@,
                    bound as int,
                ),
                g0.grew(*self, args_cost(a, args@.take(i as int), bound as int)),
                operands_ok(ops@, self.next_vreg as nat),
                ops@.len() == i,
                sc == simple(a, (Expression::Call { callee, args: *args }), bound),
                self.functions@.len() == g0.functions@.len() + lam_args(a, args@.take(i as int), bound as int),
                g0.follows(*self),
                sc ==> (extends(g0.code(), self.code()) && self.functions@ == g0.functions@
                    && self.next_local == g0.next_local && self.local_scopes@ == g0.local_scopes@
                    && self.capture_map@ == g0.capture_map@ && forall|k: int|
                    0 <= k < i ==> computes(
                        a,
                        a[args@[k].0 as int],
                        #[trigger] ops@[k],
                        self.code(),
                        args@[k].0 as nat, g0.env(),
                    )),
            decreases args@.len() - i,
        {
            let ghost gi = *self;
            proof {
                assert(args@.take(i + 1).drop_last() =~= args@.take(i as int));
                assert(args@.take(i + 1).last() == args@[i as int]);
                lemma_args_cost_prefix(a, args@, i + 1, args@.len() as int, bound as int);
                assert(args@.take(args@.len() as int) =~= args@);
                assert(args@[i as int].0 < bound);
                assert(args_cost(a, args@.take(i + 1), bound as int) == args_cost(
                    a,
                    args@.take(i as int),
                    bound as int,
                ) + child_cost(a, args@[i as int], bound as int));
                assert(child_cost(a, args@[i as int], bound as int) == idx_cost(
                    a,
                    args@[i as int].0 as int,
                ));
                assert(lam_args(a, args@.take(i + 1), bound as int) == lam_args(a, args@.take(i as int), bound as int)
                    + lam_child(a, args@[i as int], bound as int));
                assert(lam_child(a, args@[i as int], bound as int) == lam_idx(a, args@[i as int].0 as int));
            }
            let op = self.lower_expr_idx(args[i]);
            proof {
                lemma_operands_ok_mono(ops@, gi.next_vreg as nat, self.next_vreg as nat);
                lemma_grew_trans(
                    g0,
                    gi,
                    *self,
                    args_cost(a, args@.take(i as int), bound as int),
                    child_cost(a, args@[i as int], bound as int),
                );
            }
            let ghost before = ops@;
            ops.push(op);
            proof {
                assert forall|k: int| 0 <= k < ops@.len() implies operand_ok(
                    #[trigger] ops@[k],
                    self.next_vreg as nat,
                ) by {
                    if k + 1 < ops@.len() {
                        assert(ops@[k] == ops@.drop_last()[k]);
                    }
                }
                if sc {
                    let ce = Expression::Call { callee, args: *args };
                    assert(simple(a, ce, bound));
                    assert(ce->args@[i as int] == args@[i as int]);
                    assert(simple(a, a[args@[i as int].0 as int], args@[i as int].0 as nat));
                    lemma_args_computed_extends(a, args@.take(i as int), before, gi.code(), self.code(), g0.env());
                    assert forall|k: int| 0 <= k < i + 1 implies computes(
                        a,
                        a[args@[k].0 as int],
                        #[trigger] ops@[k],
                        self.code(),
                        args@[k].0 as nat, g0.env(),
                    ) by {
                        if k < i {
                            assert(ops@[k] == before[k]);
                            assert(args@.take(i as int)[k] == args@[k]);
                        }
                    }
                }
            }
            i = i + 1;
        }
        proof {
            assert(args@.take(args@.len() as int) =~= args@);
        }
        let ghost g1 = *self;
        let dst = self.fresh_vreg();
        proof {
            lemma_operands_ok_mono(ops@, g1.next_vreg as nat, self.next_vreg as nat);
        }
        let hir: &'a LowerResult = self.hir;
        match &hir.expressions[callee.0] {
            Expression::VariableRef { name } => {
                let id = match name {
                    ResolvedIdent::Local(id) => *id,
                    ResolvedIdent::External { name, .. } => *name,
                };
                proof {
                    assert(mir_expr_ok(hir.expressions@[callee.0 as int], hir.interner@.len()));
                    assert(lam_child(a, callee, bound as int) == 0);
                }
                let text = self.resolve(id);
                match find_last(&self.func_names, text) {
                    Some(func) => {
                        let ghost ov = ops@;
                        let ghost gf = *self;
                        let inst = Inst::Call { dst: Some(dst), func, args: ops };
                        let ghost ginst = inst;
                        self.emit(inst);
                        proof {
                            if sc {
                                let c = self.code();
                                assert(extends(gf.code(), c));
                                lemma_args_computed_extends(a, args@, ov, gf.code(), c, g0.env());
                                assert(c[c.len() - 1] == ginst);
                                assert(calls_into(c, dst, ov));
                                assert(direct_call(c, dst, ov));
                                assert(call_computed(a, callee, args@, ov, dst, c, bound, g0.env()));
                            }
                        }
                        return Operand::VReg(dst);
                    },
                    None => {},
                }
            },
            _ => {},
        }
        let ghost g2 = *self;
        let callee_op = self.lower_expr_idx(callee);
        proof {
            lemma_operands_ok_mono(ops@, g2.next_vreg as nat, self.next_vreg as nat);
        }
        let ghost ov = ops@;
        let ghost g3 = *self;
        let inst = Inst::CallIndirect { dst: Some(dst), callee: callee_op, args: ops };
        let ghost ginst = inst;
        self.emit(inst);
        proof {
            if sc {
                let c = self.code();
                assert(simple(a, a[callee.0 as int], callee.0 as nat));
                assert(extends(g3.code(), c));
                assert(extends(g2.code(), c));
                lemma_args_computed_extends(a, args@, ov, g2.code(), c, g0.env());
                lemma_computes_extends(a, a[callee.0 as int], callee_op, g3.code(), c, callee.0 as nat, g0.env());
                assert(c[c.len() - 1] == ginst);
                assert(calls_into(c, dst, ov));
                assert(call_computed(a, callee, args@, ov, dst, c, bound, g0.env()));
            }
        }
        proof {
            lemma_grew_trans(g0, g1, g2, args_cost(a, args@, bound as int), 1);
            lemma_grew_trans(
                g0,
                g2,
                *self,
                args_cost(a, args@, bound as int) + 1,
                child_cost(a, callee, bound as int),
            );
        }
        Operand::VReg(dst)
    }
}


/// The captured names that are locals of the scopes, in order, each with
/// the local it names there.
pub open spec fn captured(
    scopes: Seq<Vec<(String, LocalId)>>,
    names: Seq<Seq<char>>,
    caps: Seq<Ident>,
) -> Seq<(Seq<char>, LocalId)>
    decreases caps.len(),
{
    if caps.len() == 0 {
        Seq::empty()
    } else {
        let prev = captured(scopes, names, caps.drop_last());
        let t = names[caps.last().0 as int];
        match lookup_scopes(scopes, t) {
            Some(l) => prev.push((t, l)),
            None => prev,
        }
    }
}

/// The position of the last captured name equal to `t`.
pub open spec fn cap_index(cv: Seq<(Seq<char>, LocalId)>, t: Seq<char>) -> Option<u32>
    decreases cv.len(),
{
    if cv.len() == 0 {
        None
    } else if cv.last().0 == t {
        Some((cv.len() - 1) as u32)
    } else {
        cap_index(cv.drop_last(), t)
    }
}

/// Where names are read from in the body of an anonymous function whose
/// parameters are `ps` and whose captured names are `cv`: a captured name
/// from its capture (the last one of that name), any other name as
/// `param_env` gives.
pub open spec fn closure_env(
    cv: Seq<(Seq<char>, LocalId)>,
    ps: Seq<FunctionParam>,
    names: Seq<Seq<char>>,
) -> spec_fn(Ident) -> Slot {
    |id: Ident|
        match cap_index(cv, names[id.0 as int]) {
            Some(i) => Slot::Capture(i),
            None => param_env(ps, names)(id),
        }
}

/// A capture map that registers captured name `m` under index `m` finds
/// each name where `cap_index` does.
proof fn lemma_cap_lookup(cm: Seq<(String, u32)>, cv: Seq<(Seq<char>, LocalId)>, t: Seq<char>)
    requires
        cm.len() == cv.len(),
        forall|m: int| 0 <= m < cm.len() ==> (#[trigger] cm[m]).0@ == cv[m].0 && cm[m].1 == m,
    ensures
        lookup_last(cm, t) == cap_index(cv, t),
    decreases cm.len(),
{
    if cm.len() > 0 {
        let last = cm.len() - 1;
        assert(cm.last() == cm[last]);
        assert forall|m: int| 0 <= m < cm.drop_last().len() implies (#[trigger] cm.drop_last()[m]).0@
            == cv.drop_last()[m].0 && cm.drop_last()[m].1 == m by {
            assert(cm.drop_last()[m] == cm[m]);
        }
        lemma_cap_lookup(cm.drop_last(), cv.drop_last(), t);
    }
}

/// With the parameters bound in the scopes and the captured names
/// registered by position, names are read as `closure_env` gives.
proof fn lemma_closure_env(
    cm: Seq<(String, u32)>,
    cv: Seq<(Seq<char>, LocalId)>,
    scopes: Seq<Vec<(String, LocalId)>>,
    ps: Seq<FunctionParam>,
    names: Seq<Seq<char>>,
)
    requires
        cm.len() == cv.len(),
        forall|m: int| 0 <= m < cm.len() ==> (#[trigger] cm[m]).0@ == cv[m].0 && cm[m].1 == m,
        env_of(Seq::empty(), scopes, names) == param_env(ps, names),
    ensures
        env_of(cm, scopes, names) == closure_env(cv, ps, names),
{
    assert forall|id: Ident| #[trigger] env_of(cm, scopes, names)(id) == closure_env(cv, ps, names)(id) by {
        let t = names[id.0 as int];
        lemma_cap_lookup(cm, cv, t);
        assert(lookup_last(Seq::<(String, u32)>::empty(), t) is None);
        assert(env_of(Seq::empty(), scopes, names)(id) == param_env(ps, names)(id));
    }
    assert(env_of(cm, scopes, names) =~= closure_env(cv, ps, names));
}

/// Block `b` ends by branching to `t` when its condition holds and to `e`
/// otherwise.
pub open spec fn ends_branch(b: Block, t: BlockId, e: BlockId) -> bool {
    &&& b.insts@.len() > 0
    &&& b.insts@.last() matches Inst::Branch { then_bb, else_bb, .. } && then_bb == t && else_bb == e
}

/// Block `b` ends by copying a value into register `d` and jumping to `m`.
pub open spec fn ends_copy_jump(b: Block, d: VReg, m: BlockId) -> bool {
    &&& b.insts@.len() >= 2
    &&& b.insts@.last() == Inst::Jump { target: m }
    &&& b.insts@[b.insts@.len() - 2] matches Inst::Copy { dst, .. } && dst == d
}

/// The blocks `bs`, after the first `from`, hold a conditional whose value
/// goes to register `d` and which continues in the (empty) block `cur`: one
/// block ends with a branch whose `then` target is the block right after it
/// and whose `else` target is a later block; the block just before the
/// `else` block and the last block each copy a value into `d` and jump to
/// `cur`.
pub open spec fn if_made(bs: Seq<Block>, from: int, cur: Block, d: VReg) -> bool {
    &&& cur.insts@.len() == 0
    &&& exists|k: int, k2: int|
        #![trigger bs[k], bs[k2]]
        from <= k && k + 1 < k2 < bs.len() && ends_branch(bs[k], bs[k + 1].id, bs[k2].id)
            && ends_copy_jump(bs[k2 - 1], d, cur.id) && ends_copy_jump(bs.last(), d, cur.id)
}

/// From `before` to `after` an anonymous function with parameters `ps`,
/// body `body` and captured locals `cv` (name and outer local, in order)
/// was lowered: a closure function without a name is appended with the
/// next function identifier; its parameters are its first locals and its
/// captures are `cv`; its code ends by returning the value of the body,
/// which that code computes when the body is simple, captured name `i`
/// read from capture `i` and parameter `k` from local `k`. The finished
/// blocks of the current function are back, and its current block holds
/// only the instruction that makes the closure into the register `r`;
/// capture `i` of it is register `before.next_vreg + i`, the register into
/// which captured local `i` was loaded in the current block before the
/// body replaced it (what the block held before is not kept).
spec fn closure_made<'a>(
    before: LowerCtx<'a>,
    after: LowerCtx<'a>,
    ps: Seq<FunctionParam>,
    body: ExprIdx,
    cv: Seq<(Seq<char>, LocalId)>,
    r: Operand,
) -> bool {
    let f = after.functions@.last();
    let a = before.hir.expressions@;
    let code = block_code(f.blocks@);
    &&& after.functions@.len() > before.functions@.len()
    &&& f.id == FuncId(before.next_func_id)
    &&& f.name is None
    &&& f.is_closure
    &&& f.param_count == ps.len()
    &&& f.params@.len() == ps.len()
    &&& forall|k: int| 0 <= k < ps.len() ==> (#[trigger] f.params@[k]).0 == k
    &&& f.captures@.len() == cv.len()
    &&& forall|i: int|
        0 <= i < cv.len() ==> (#[trigger] f.captures@[i]).name@ == cv[i].0
            && f.captures@[i].outer_local == cv[i].1
    &&& code.len() > 0
    &&& code.last() matches Inst::Return { value: Some(o) } && (simple(a, a[body.0 as int], body.0 as nat)
        ==> computes(
        a,
        a[body.0 as int],
        o,
        code,
        body.0 as nat,
        closure_env(cv, ps, before.hir.interner@),
    ))
    &&& after.blocks@ == before.blocks@
    &&& after.current_block.id == before.current_block.id
    &&& after.current_block.insts@.len() == 1
    &&& after.current_block.insts@[0] matches Inst::MakeClosure { dst, func, captures } && r
        == Operand::VReg(dst) && func == FuncId(before.next_func_id) && dst.0 == before.next_vreg
        + cv.len() && captures@.len() == cv.len() && forall|i: int|
        0 <= i < cv.len() ==> #[trigger] captures@[i] == Operand::VReg(
            VReg((before.next_vreg + i) as u32),
        )
}

impl<'a> LowerCtx<'a> {
    /// Lowers an anonymous function: the captured names that are locals here
    /// are loaded, the body becomes a closure function of its own whose
    /// parameters are its first locals, and a closure value is made of it.
    fn lower_lambda(
        &mut self,
        params: &Vec<FunctionParam>,
        body: ExprIdx,
        captures: &Vec<Ident>,
        Ghost(bound): Ghost<nat>,
    ) -> (r: Operand)
        requires
            old(self).inv(),
            bound <= old(self).hir.expressions@.len(),
            body.0 < bound,
            forall|k: int|
                0 <= k < params@.len() ==> (#[trigger] params@[k]).name.0
                    < old(self).hir.interner@.len(),
            forall|k: int|
                0 <= k < captures@.len() ==> (#[trigger] captures@[k]).0
                    < old(self).hir.interner@.len(),
            old(self).fits(
                3 + params@.len() + captures@.len() + child_cost(
                    old(self).hir.expressions@,
                    body,
                    bound as int,
                ),
            ),
        ensures
            final(self).inv(),
            old(self).grew(
                *final(self),
                3 + params@.len() + captures@.len() + child_cost(
                    old(self).hir.expressions@,
                    body,
                    bound as int,
                ),
            ),
            operand_ok(r, final(self).next_vreg as nat),
            closure_made(
                *old(self),
                *final(self),
                params@,
                body,
                captured(old(self).local_scopes@, old(self).hir.interner@, captures@),
                r,
            ),
            old(self).follows(*final(self)),
            final(self).functions@.len() == old(self).functions@.len() + 1 + lam_child(old(self).hir.expressions@, body, bound as int),
        decreases bound, 3int,
    {
        let ghost a = self.hir.expressions@;
        let ghost n = self.hir.interner@.len();
        let ghost names = self.hir.interner@;
        let ghost g0 = *self;
        let ghost cv = captured(g0.local_scopes@, names, captures@);
        let func_id = self.alloc_func_id();
        let ghost g1 = *self;
        let mut ops: Vec<Operand> = Vec::new();
        let mut i: usize = 0;
        proof {
            assert(captures@.take(0) =~= Seq::<Ident>::empty());
        }
        while i < captures.len()
            invariant
                self.inv(),
                self.hir == g1.hir,
                n == self.hir.interner@.len(),
                names == self.hir.interner@,
                i <= captures@.len(),
                ops@.len() <= i,
                self.next_vreg == g1.next_vreg + ops@.len(),
                g1.next_vreg == g0.next_vreg,
                g1.next_vreg + captures@.len() <= u32::MAX,
                self.next_local == g1.next_local,
                self.next_block == g1.next_block,
                self.next_func_id == g1.next_func_id,
                self.functions@ == g1.functions@,
                self.func_names@ == g1.func_names@,
                operands_ok(ops@, self.next_vreg as nat),
                forall|k: int| 0 <= k < captures@.len() ==> (#[trigger] captures@[k]).0 < n,
                self.local_scopes@ == g0.local_scopes@,
                self.hir == g0.hir,
                self.blocks@ == g0.blocks@,
                self.current_block.id == g0.current_block.id,
                ops@.len() == captured(g0.local_scopes@, names, captures@.take(i as int)).len(),
                forall|k: int|
                    0 <= k < ops@.len() ==> #[trigger] ops@[k] == Operand::VReg(
                        VReg((g1.next_vreg + k) as u32),
                    ),
            decreases captures@.len() - i,
        {
            let text = self.resolve(captures[i]);
            proof {
                assert(captures@.take(i + 1).drop_last() =~= captures@.take(i as int));
                assert(captures@.take(i + 1).last() == captures@[i as int]);
            }
            match self.get_local(text) {
                Some(local) => {
                    let dst = self.fresh_vreg();
                    self.emit(Inst::LoadLocal { dst, local });
                    proof {
                        lemma_operands_ok_mono(ops@, (self.next_vreg - 1) as nat, self.next_vreg as nat);
                    }
                    ops.push(Operand::VReg(dst));
                    proof {
                        assert forall|k: int| 0 <= k < ops@.len() implies operand_ok(
                            #[trigger] ops@[k],
                            self.next_vreg as nat,
                        ) by {
                            if k + 1 < ops@.len() {
                                assert(ops@[k] == ops@.drop_last()[k]);
                            }
                        }
                        assert forall|k: int| 0 <= k < ops@.len() implies #[trigger] ops@[k]
                            == Operand::VReg(VReg((g1.next_vreg + k) as u32)) by {
                            if k + 1 < ops@.len() {
                                assert(ops@[k] == ops@.drop_last()[k]);
                            }
                        }
                    }
                },
                None => {},
            }
            i = i + 1;
        }
        let mut vars: Vec<CapturedVar> = Vec::new();
        let mut j: usize = 0;
        proof {
            assert(captures@.take(captures@.len() as int) =~= captures@);
        }
        while j < captures.len()
            invariant
                self.inv(),
                self.hir == g1.hir,
                n == self.hir.interner@.len(),
                names == self.hir.interner@,
                j <= captures@.len(),
                self.next_local == g1.next_local,
                self.next_block == g1.next_block,
                self.next_func_id == g1.next_func_id,
                self.functions@ == g1.functions@,
                self.func_names@ == g1.func_names@,
                self.next_vreg == g1.next_vreg + ops@.len(),
                g1.next_vreg == g0.next_vreg,
                g1.next_vreg + captures@.len() <= u32::MAX,
                ops@.len() <= captures@.len(),
                operands_ok(ops@, self.next_vreg as nat),
                vars@.len() <= j,
                self.local_scopes@ == g0.local_scopes@,
                self.hir == g0.hir,
                self.blocks@ == g0.blocks@,
                self.current_block.id == g0.current_block.id,
                ops@.len() == cv.len(),
                cv == captured(g0.local_scopes@, names, captures@),
                forall|k: int|
                    0 <= k < ops@.len() ==> #[trigger] ops@[k] == Operand::VReg(
                        VReg((g1.next_vreg + k) as u32),
                    ),
                vars@.len() == captured(g0.local_scopes@, names, captures@.take(j as int)).len(),
                forall|k: int|
                    0 <= k < vars@.len() ==> (#[trigger] vars@[k]).name@ == captured(
                        g0.local_scopes@,
                        names,
                        captures@.take(j as int),
                    )[k].0 && vars@[k].outer_local == captured(
                        g0.local_scopes@,
                        names,
                        captures@.take(j as int),
                    )[k].1,
                forall|k: int| 0 <= k < captures@.len() ==> (#[trigger] captures@[k]).0 < n,
            decreases captures@.len() - j,
        {
            let text = self.resolve(captures[j]);
            let ghost prev = captured(g0.local_scopes@, names, captures@.take(j as int));
            proof {
                assert(captures@.take(j + 1).drop_last() =~= captures@.take(j as int));
                assert(captures@.take(j + 1).last() == captures@[j as int]);
            }
            match self.get_local(text) {
                Some(local) => {
                    vars.push(CapturedVar { name: text.to_owned(), outer_local: local });
                    proof {
                        let next = captured(g0.local_scopes@, names, captures@.take(j + 1));
                        assert(next == prev.push((text@, local)));
                        assert forall|k: int| 0 <= k < vars@.len() implies (#[trigger] vars@[k]).name@
                            == next[k].0 && vars@[k].outer_local == next[k].1 by {
                            if k + 1 < vars@.len() {
                                assert(vars@[k] == vars@.drop_last()[k]);
                            }
                        }
                    }
                },
                None => {
                    proof {
                        assert(captured(g0.local_scopes@, names, captures@.take(j + 1)) == prev);
                    }
                },
            }
            j = j + 1;
        }
        let ghost g2 = *self;
        proof {
            assert(captures@.take(captures@.len() as int) =~= captures@);
        }
        let saved = self.enter_function();
        let saved_func_id = self.current_func_id;
        self.current_func_id = func_id;
        let mut m: usize = 0;
        while m < vars.len()
            invariant
                self.inv(),
                self.hir == g1.hir,
                m <= vars@.len(),
                vars@.len() <= u32::MAX,
                self.local_scopes@.len() == 1,
                self.local_scopes@[0]@.len() == 0,
                self.next_vreg == 0,
                self.next_local == 0,
                self.next_block == 1,
                self.next_func_id == g1.next_func_id,
                self.functions@ == g1.functions@,
                self.func_names@ == g1.func_names@,
                self.capture_map@.len() == m,
                forall|k: int|
                    0 <= k < m ==> (#[trigger] self.capture_map@[k]).0@ == vars@[k].name@
                        && self.capture_map@[k].1 == k,
            decreases vars@.len() - m,
        {
            let ghost gm = *self;
            self.capture_map.push((vars[m].name.clone(), m as u32));
            proof {
                assert forall|k: int| 0 <= k < m + 1 implies (#[trigger] self.capture_map@[k]).0@
                    == vars@[k].name@ && self.capture_map@[k].1 == k by {
                    if k < m {
                        assert(self.capture_map@[k] == gm.capture_map@[k]);
                    }
                }
            }
            m = m + 1;
        }
        let ghost g3 = *self;
        proof {
            assert(g3.local_scopes@[0]@.len() == 0);
            lemma_env_fresh(Seq::<(String, u32)>::empty(), g3.local_scopes@, names);
            assert(main_env(Seq::<Item>::empty(), names) =~= param_env(
                Seq::<FunctionParam>::empty(),
                names,
            ));
        }
        let param_locals = self.bind_params(params);
        let ghost g4 = *self;
        proof {
            assert forall|k: int| 0 <= k < g4.capture_map@.len() implies (#[trigger] g4.capture_map@[k]).0@
                == cv[k].0 && g4.capture_map@[k].1 == k by {
                assert(g4.capture_map@[k] == g3.capture_map@[k]);
            }
            lemma_closure_env(g4.capture_map@, cv, g4.local_scopes@, params@, names);
            assert(g4.env() == closure_env(cv, params@, names));
        }
        let result = self.lower_expr_idx(body);
        let ghost g44 = *self;
        self.emit(Inst::Return { value: Some(result) });
        proof {
            let c = self.code();
            assert(c.last() == Inst::Return { value: Some(result) });
            if simple(a, a[body.0 as int], body.0 as nat) {
                assert(extends(g44.code(), c));
                lemma_computes_extends(a, a[body.0 as int], result, g44.code(), c, body.0 as nat, g4.env());
            }
        }
        proof {
            assert forall|k: int| 0 <= k < param_locals@.len() implies (#[trigger] param_locals@[k]).0
                < self.next_local by {
                assert(param_locals@[k].0 < g4.next_local);
            }
        }
        let count = params.len() as u32;
        let ghost g45 = *self;
        let ghost vv = vars@;
        self.finish_function(func_id, None, param_locals, count, vars, true);
        let ghost g5 = *self;
        self.restore_context(saved);
        self.current_func_id = saved_func_id;
        let dst = self.fresh_vreg();
        proof {
            lemma_operands_ok_mono(ops@, g2.next_vreg as nat, self.next_vreg as nat);
        }
        self.emit(Inst::MakeClosure { dst, func: func_id, captures: ops });
        proof {
            assert(self.current_block.insts@ =~= seq![Inst::MakeClosure { dst, func: func_id, captures: ops }]);
            assert forall|k: int| 0 <= k < g0.functions@.len() implies #[trigger] self.functions@[k]
                == g0.functions@[k] by {
                assert(g5.functions@.drop_last()[k] == g45.functions@[k]);
                assert(g45.functions@[k] == g4.functions@[k]);
            }
            let f = self.functions@.last();
            assert(f.captures@ == vv);
            assert forall|i: int| 0 <= i < cv.len() implies (#[trigger] f.captures@[i]).name@ == cv[i].0
                && f.captures@[i].outer_local == cv[i].1 by {
                assert(f.captures@[i] == vv[i]);
            }
            assert forall|k: int| 0 <= k < params@.len() implies (#[trigger] f.params@[k]).0 == k by {
                assert(f.params@[k] == param_locals@[k]);
            }
            assert(closure_made(
                g0,
                *self,
                params@,
                body,
                cv,
                Operand::VReg(dst),
            ));
        }
        Operand::VReg(dst)
    }
}


/// The cost of a top-level item: what lowering it may add to any counter,
/// in the top-level function or in the function it defines.
pub open spec fn item_cost(a: Seq<Expression>, it: Item, bound: int) -> nat {
    match it {
        Item::Definition(Definition::Function { params, body, .. }) => 2 + params@.len()
            + child_cost(a, body, bound),
        Item::Definition(Definition::Variable { value, .. }) => 1 + expr_cost(a, value, bound),
        Item::Assignment { value, .. } => expr_cost(a, value, bound),
        Item::Expression(e) => expr_cost(a, e, bound),
        _ => 0,
    }
}

/// The costs of top-level items, each plus one.
pub open spec fn items_total(a: Seq<Expression>, s: Seq<Item>, bound: int) -> nat
    decreases s.len(),
{
    if s.len() == 0 {
        0
    } else {
        items_total(a, s.drop_last(), bound) + item_cost(a, s.last(), bound) + 1
    }
}

/// The cost of lowering a whole input.
pub open spec fn module_cost(hir: LowerResult) -> nat {
    items_total(hir.expressions@, hir.items@, hir.expressions@.len() as int)
}

/// The number of function definitions among top-level items.
pub open spec fn fn_count(s: Seq<Item>) -> nat
    decreases s.len(),
{
    if s.len() == 0 {
        0
    } else {
        fn_count(s.drop_last()) + if s.last() is Definition && s.last()->Definition_0 is Function {
            1nat
        } else {
            0nat
        }
    }
}

/// The functions that lowering a top-level function definition adds: the
/// function itself and one for each anonymous function in its body.
pub open spec fn def_functions(a: Seq<Expression>, it: Item) -> nat {
    match it {
        Item::Definition(Definition::Function { body, .. }) => 1 + lam_idx(a, body.0 as int),
        _ => 0,
    }
}

/// The anonymous functions in the value of a top-level variable
/// definition, assignment or expression.
pub open spec fn value_functions(a: Seq<Expression>, it: Item, bound: int) -> nat {
    match it {
        Item::Definition(Definition::Variable { value, .. }) => lam_expr(a, value, bound),
        Item::Assignment { value, .. } => lam_expr(a, value, bound),
        Item::Expression(e) => lam_expr(a, e, bound),
        _ => 0,
    }
}

/// The functions that the function definitions among `s` add.
pub open spec fn defs_total(a: Seq<Expression>, s: Seq<Item>) -> nat
    decreases s.len(),
{
    if s.len() == 0 {
        0
    } else {
        defs_total(a, s.drop_last()) + def_functions(a, s.last())
    }
}

/// The anonymous functions in the values of the items `s`.
pub open spec fn values_total(a: Seq<Expression>, s: Seq<Item>, bound: int) -> nat
    decreases s.len(),
{
    if s.len() == 0 {
        0
    } else {
        values_total(a, s.drop_last(), bound) + value_functions(a, s.last(), bound)
    }
}

/// The number of functions that lowering `hir` gives: one for each named
/// function, one for each anonymous function, and `main`.
pub open spec fn function_count(hir: LowerResult) -> nat {
    defs_total(hir.expressions@, hir.items@) + values_total(
        hir.expressions@,
        hir.items@,
        hir.expressions@.len() as int,
    ) + 1
}

/// Costs and function counts grow with the prefix of items taken.
proof fn lemma_items_total_prefix(a: Seq<Expression>, s: Seq<Item>, i: int, j: int, bound: int)
    requires
        0 <= i <= j <= s.len(),
    ensures
        items_total(a, s.take(i), bound) <= items_total(a, s.take(j), bound),
        fn_count(s.take(i)) <= fn_count(s.take(j)),
        fn_count(s.take(j)) - fn_count(s.take(i)) <= j - i,
        j - i <= items_total(a, s.take(j), bound) - items_total(a, s.take(i), bound),
    decreases j - i,
{
    if i < j {
        assert(s.take(j).drop_last() =~= s.take(j - 1));
        lemma_items_total_prefix(a, s, i, j - 1, bound);
    }
}

/// An entry bound to `name` makes the lookup of `name` succeed.
proof fn lemma_lookup_last_found<T>(entries: Seq<(String, T)>, name: Seq<char>, e: int)
    requires
        0 <= e < entries.len(),
        entries[e].0@ == name,
    ensures
        lookup_last(entries, name) is Some,
    decreases entries.len(),
{
    if entries.last().0@ != name {
        assert(entries.drop_last()[e] == entries[e]);
        lemma_lookup_last_found(entries.drop_last(), name, e);
    }
}

/// The name of a top-level function definition, if the item is one.
pub open spec fn fn_name(it: Item) -> Option<Ident> {
    match it {
        Item::Definition(Definition::Function { name, .. }) => Some(name),
        _ => None,
    }
}

impl<'a> LowerCtx<'a> {
    fn new(hir: &'a LowerResult) -> (r: LowerCtx<'a>)
        requires
            mir_input(*hir),
        ensures
            r.inv(),
            r.hir == hir,
            r.next_func_id == 0,
            r.functions@.len() == 0,
            r.func_names@.len() == 0,
            r.capture_map@.len() == 0,
    {
        let mut scopes: Vec<Vec<(String, LocalId)>> = Vec::new();
        scopes.push(Vec::new());
        LowerCtx {
            hir,
            current_func_id: FuncId(0),
            blocks: Vec::new(),
            current_block: Block::new(BlockId(0)),
            next_vreg: 0,
            next_local: 0,
            next_block: 1,
            local_scopes: scopes,
            functions: Vec::new(),
            next_func_id: 0,
            func_names: Vec::new(),
            capture_map: Vec::new(),
        }
    }

    /// Lowers a named function into a function of its own, whose parameters
    /// are its first locals and which returns the value of its body.
    fn lower_function_def(
        &mut self,
        func_id: FuncId,
        name: Option<String>,
        params: &Vec<FunctionParam>,
        body: ExprIdx,
    )
        requires
            old(self).inv(),
            body.0 < old(self).hir.expressions@.len(),
            forall|k: int|
                0 <= k < params@.len() ==> (#[trigger] params@[k]).name.0
                    < old(self).hir.interner@.len(),
            params@.len() + idx_cost(old(self).hir.expressions@, body.0 as int) + 3 <= u32::MAX,
            old(self).next_func_id + idx_cost(old(self).hir.expressions@, body.0 as int)
                <= u32::MAX,
            old(self).functions@.len() < old(self).next_func_id,
        ensures
            final(self).inv(),
            final(self).hir == old(self).hir,
            final(self).func_names@ == old(self).func_names@,
            final(self).next_vreg == old(self).next_vreg,
            final(self).next_local == old(self).next_local,
            final(self).next_block == old(self).next_block,
            old(self).next_func_id <= final(self).next_func_id <= old(self).next_func_id
                + idx_cost(old(self).hir.expressions@, body.0 as int),
            final(self).next_func_id - final(self).functions@.len() >= old(self).next_func_id
                - old(self).functions@.len() - 1,
            old(self).functions@.len() < final(self).functions@.len(),
            forall|k: int| 0 <= k < old(self).functions@.len() ==> #[trigger] final(self).functions@[k]
                == old(self).functions@[k],
            final(self).functions@.last().id == func_id,
            final(self).functions@.last().name == name,
            final(self).functions@.last().param_count == params@.len(),
            returns_value(final(self).functions@.last()),
            simple(old(self).hir.expressions@, old(self).hir.expressions@[body.0 as int], body.0 as nat)
                ==> body_computed(
                final(self).functions@.last(),
                old(self).hir.expressions@,
                body,
                param_env(params@, old(self).hir.interner@),
            ),
            body_block_computed(
                final(self).functions@.last(),
                old(self).hir.expressions@,
                body,
                param_env(params@, old(self).hir.interner@),
                old(self).hir.interner@,
                params@.len(),
            ),
            final(self).capture_map@ == old(self).capture_map@,
            simple(old(self).hir.expressions@, old(self).hir.expressions@[body.0 as int], body.0 as nat)
                ==> final(self).functions@.len() == old(self).functions@.len() + 1,
            final(self).functions@.len() == old(self).functions@.len() + 1 + lam_idx(old(self).hir.expressions@, body.0 as int),
    {
        let ghost g0 = *self;
        let saved = self.enter_function();
        let saved_func_id = self.current_func_id;
        self.current_func_id = func_id;
        proof {
            assert(self.capture_map@ =~= Seq::<(String, u32)>::empty());
            lemma_env_fresh(self.capture_map@, self.local_scopes@, self.hir.interner@);
            assert(main_env(Seq::<Item>::empty(), self.hir.interner@) =~= param_env(
                Seq::<FunctionParam>::empty(),
                self.hir.interner@,
            ));
        }
        let param_locals = self.bind_params(params);
        let ghost g = *self;
        let result = self.lower_expr_idx(body);
        let ghost gr = *self;
        self.emit(Inst::Return { value: Some(result) });
        proof {
            let a = g.hir.expressions@;
            if simple(a, a[body.0 as int], body.0 as nat) {
                assert(extends(gr.code(), self.code()));
                lemma_computes_extends(a, a[body.0 as int], result, gr.code(), self.code(), body.0 as nat, g.env());
            }
            if let Expression::Block { items, tail } = a[body.0 as int] {
                if flat_block(a, items@, tail, body.0 as nat) {
                    assert(extends(gr.code(), self.code()));
                    lemma_block_computed_extends(
                        a,
                        items@,
                        tail,
                        result,
                        gr.code(),
                        self.code(),
                        body.0 as nat,
                        g.env(),
                        g.hir.interner@,
                        g.next_local as nat,
                    );
                }
            }
            assert(g.env() == param_env(params@, g.hir.interner@));
            assert(g.next_local == params@.len());
        }
        proof {
            assert forall|k: int| 0 <= k < param_locals@.len() implies (#[trigger] param_locals@[k]).0
                < self.next_local by {
                assert(param_locals@[k].0 < g.next_local);
            }
            assert(self.code().last() == Inst::Return { value: Some(result) });
        }
        let count = params.len() as u32;
        let ghost g1 = *self;
        self.finish_function(func_id, name, param_locals, count, Vec::new(), false);
        let ghost g2 = *self;
        proof {
            assert(block_code(g2.functions@.last().blocks@) == g1.code());
        }
        self.restore_context(saved);
        self.current_func_id = saved_func_id;
        proof {
            assert forall|k: int| 0 <= k < g0.functions@.len() implies #[trigger] self.functions@[k]
                == g0.functions@[k] by {
                assert(g2.functions@.drop_last()[k] == g1.functions@[k]);
                assert(g1.functions@[k] == g.functions@[k]);
            }
        }
    }
}


/// Some entry binds `name`.
pub open spec fn bound_name<T>(entries: Seq<(String, T)>, name: Seq<char>) -> bool {
    exists|e: int| 0 <= e < entries.len() && (#[trigger] entries[e]).0@ == name
}

/// Every function definition among the first `i` items has its name bound.
pub open spec fn fn_names_bound(
    s: Seq<Item>,
    i: int,
    names: Seq<Seq<char>>,
    entries: Seq<(String, FuncId)>,
) -> bool {
    forall|k: int|
        0 <= k < i ==> (#[trigger] fn_name(s[k]) matches Some(nm) ==> nm.0 < names.len()
            && bound_name(entries, names[nm.0 as int]))
}

impl<'a> LowerCtx<'a> {
    /// The function identifier bound to the name of a function definition.
    fn fn_id_of(&self, name: Ident) -> (r: FuncId)
        requires
            self.inv(),
            name.0 < self.hir.interner@.len(),
            bound_name(self.func_names@, self.hir.interner@[name.0 as int]),
    {
        let text = self.resolve(name);
        match find_last(&self.func_names, text) {
            Some(f) => f,
            None => {
                proof {
                    let e = choose|e: int|
                        0 <= e < self.func_names@.len() && (#[trigger] self.func_names@[e]).0@
                            == text@;
                    lemma_lookup_last_found(self.func_names@, text@, e);
                }
                FuncId(0)
            },
        }
    }

    /// Lowers all items: first every function definition gets an identifier,
    /// the top-level function the next one; then each function definition
    /// is lowered; then the other items, in order, form the top-level
    /// function, where each named function is also stored as a closure
    /// value in a local of its name.
    #[verifier::rlimit(60)]
    /// Lowers top-level item `it` into the top-level function: a function
    /// definition binds its name to a closure of it, a variable definition
    /// stores its value into a new local, an assignment into the local it
    /// names, and an expression is computed.
    fn lower_main_item(&mut self, it: &Item, Ghost(len): Ghost<nat>)
        requires
            old(self).inv(),
            len == old(self).hir.expressions@.len(),
            mir_item_ok(*it, old(self).hir.interner@.len()),
            item_below(*it, len),
            fn_name(*it) matches Some(nm) ==> nm.0 < old(self).hir.interner@.len() && bound_name(
                old(self).func_names@,
                old(self).hir.interner@[nm.0 as int],
            ),
            old(self).fits(item_cost(old(self).hir.expressions@, *it, len as int) + 1),
            old(self).functions@.len() < old(self).next_func_id,
        ensures
            final(self).inv(),
            old(self).grew(*final(self), item_cost(old(self).hir.expressions@, *it, len as int) + 1),
            final(self).func_names@ == old(self).func_names@,
            final(self).functions@.len() == old(self).functions@.len() + value_functions(
                old(self).hir.expressions@,
                *it,
                len as int,
            ),
            item_simple(old(self).hir.expressions@, *it, len) ==> {
                &&& extends(old(self).code(), final(self).code())
                &&& final(self).functions@ == old(self).functions@
                &&& final(self).next_local == old(self).next_local + if binder(*it) is Some {
                    1nat
                } else {
                    0nat
                }
                &&& final(self).capture_map@ == old(self).capture_map@
                &&& final(self).local_scopes@.len() == old(self).local_scopes@.len()
                &&& item_lowered(old(self).hir.expressions@, *it, final(self).code(), len, old(self).env())
                &&& binder(*it) is None ==> final(self).local_scopes@ == old(self).local_scopes@
                &&& (binder(*it) is Some && old(self).local_scopes@.len() > 0) ==> forall|t: Seq<char>|
                    #[trigger] lookup_scopes(final(self).local_scopes@, t) == (if t == bound_text(*it, old(self).hir.interner@) {
                        Some(LocalId(old(self).next_local))
                    } else {
                        lookup_scopes(old(self).local_scopes@, t)
                    })
            },
    {
        let ghost gi = *self;
        let ghost a = self.hir.expressions@;
        let ghost env = self.env();
        match it {
            Item::Definition(Definition::Function { name, .. }) => {
                let func_id = self.fn_id_of(*name);
                let text = self.resolve(*name);
                let local = self.alloc_local(text);
                let dst = self.fresh_vreg();
                self.emit(Inst::MakeClosure { dst, func: func_id, captures: Vec::new() });
                self.emit(Inst::StoreLocal { local, src: Operand::VReg(dst) });
                proof {
                    assert(extends(gi.code(), self.code()));
                }
            },
            Item::Definition(Definition::Variable { name, value }) => {
                let text = self.resolve(*name);
                let operand = self.lower_expr(value, Ghost(len));
                let ghost gv = *self;
                let local = self.alloc_local(text);
                self.emit(Inst::StoreLocal { local, src: operand });
                proof {
                    if simple(a, *value, len) {
                        let c = self.code();
                        assert(extends(gv.code(), c));
                        lemma_computes_extends(a, *value, operand, gv.code(), c, len, env);
                        assert(c[c.len() - 1] == Inst::StoreLocal { local, src: operand });
                        assert(c.contains(Inst::StoreLocal { local, src: operand }));
                        assert(item_lowered(a, *it, c, len, env));
                    }
                }
            },
            Item::Assignment { name, value } => {
                let text = self.resolve(*name);
                let operand = self.lower_expr(value, Ghost(len));
                let ghost gv = *self;
                match self.get_local(text) {
                    Some(local) => {
                        self.emit(Inst::StoreLocal { local, src: operand });
                    },
                    None => {},
                }
                proof {
                    if simple(a, *value, len) {
                        let c = self.code();
                        assert(extends(gv.code(), c));
                        lemma_computes_extends(a, *value, operand, gv.code(), c, len, env);
                        assert(item_lowered(a, *it, c, len, env));
                    }
                }
            },
            Item::Expression(e) => {
                let operand = self.lower_expr(e, Ghost(len));
                proof {
                    if simple(a, *e, len) {
                        assert(item_lowered(a, *it, self.code(), len, env));
                    }
                }
            },
            _ => {
                proof {
                    assert(false);
                }
            },
        }
    }

    #[verifier::rlimit(100)]
    fn lower_module(&mut self)
        requires
            old(self).inv(),
            old(self).next_func_id == 0,
            old(self).functions@.len() == 0,
            old(self).func_names@.len() == 0,
            old(self).capture_map@.len() == 0,
            3 * module_cost(*old(self).hir) + 3 <= u32::MAX,
        ensures
            final(self).inv(),
            final(self).hir == old(self).hir,
            final(self).functions@.len() > 0,
            defs_lowered(old(self).hir.expressions@, old(self).hir.items@, old(self).hir.interner@, final(self).functions@),
            has_function(final(self).functions@, "main"@, 0),
            final(self).functions@.len() == function_count(*old(self).hir),
            items_simple(*old(self).hir) ==> final(self).functions@.len() == fn_count(
                old(self).hir.items@,
            ) + 1 && main_lowered(
                old(self).hir.expressions@,
                old(self).hir.items@,
                final(self).functions@.last(),
                old(self).hir.expressions@.len(), old(self).hir.interner@,
            ),
    {
        let hir: &'a LowerResult = self.hir;
        let items = &hir.items;
        let ghost a = hir.expressions@;
        let ghost s = hir.items@;
        let ghost names = hir.interner@;
        let ghost len = a.len() as int;
        let ghost total = items_total(a, s, len);
        proof {
            assert(s.take(s.len() as int) =~= s);
            lemma_items_total_prefix(a, s, 0, s.len() as int, len);
            assert(s.take(0) =~= Seq::<Item>::empty());
        }
        let mut i: usize = 0;
        while i < items.len()
            invariant
                self.inv(),
                self.hir == hir,
                s == hir.items@,
                items@ == s,
                names == hir.interner@,
                i <= s.len(),
                self.next_func_id == fn_count(s.take(i as int)),
                fn_count(s.take(i as int)) <= i,
                s.len() <= total,
                3 * total + 3 <= u32::MAX,
                self.functions@.len() == 0,
                fn_names_bound(s, i as int, names, self.func_names@),
                self.capture_map@.len() == 0,
            decreases s.len() - i,
        {
            proof {
                assert(s.take(i + 1).drop_last() =~= s.take(i as int));
                assert(s.take(i + 1).last() == s[i as int]);
                assert(mir_item_ok(s[i as int], names.len()));
            }
            let ghost before = self.func_names@;
            match &items[i] {
                Item::Definition(Definition::Function { name, .. }) => {
                    let func_id = self.alloc_func_id();
                    let text = self.resolve(*name);
                    self.func_names.push((text.to_owned(), func_id));
                    proof {
                        assert(self.func_names@[before.len() as int].0@ == names[name.0 as int]);
                    }
                },
                _ => {},
            }
            proof {
                assert forall|k: int|
                    0 <= k < i + 1 implies (#[trigger] fn_name(s[k]) matches Some(nm) ==> nm.0
                    < names.len() && bound_name(self.func_names@, names[nm.0 as int])) by {
                    if k < i {
                        if let Some(nm) = fn_name(s[k]) {
                            let e = choose|e: int|
                                0 <= e < before.len() && (#[trigger] before[e]).0@ == names[nm.0 as int];
                            assert(self.func_names@[e] == before[e]);
                        }
                    } else {
                        if let Some(nm) = fn_name(s[k]) {
                            assert(self.func_names@[before.len() as int].0@ == names[nm.0 as int]);
                        }
                    }
                }
            }
            i = i + 1;
        }
        let main_id = self.alloc_func_id();
        self.current_func_id = main_id;
        let ghost f1 = self.next_func_id;
        let ghost fnames = self.func_names@;
        proof {
            assert(s.take(s.len() as int) =~= s);
            assert(s.take(0) =~= Seq::<Item>::empty());
        }
        let mut i: usize = 0;
        while i < items.len()
            invariant
                self.inv(),
                self.hir == hir,
                s == hir.items@,
                items@ == s,
                a == hir.expressions@,
                names == hir.interner@,
                len == a.len(),
                total == items_total(a, s, len),
                i <= s.len(),
                s.len() <= total,
                3 * total + 3 <= u32::MAX,
                f1 == fn_count(s) + 1,
                fn_count(s) <= s.len(),
                f1 <= self.next_func_id <= f1 + items_total(a, s.take(i as int), len),
                self.functions@.len() + (fn_count(s) - fn_count(s.take(i as int))) < self.next_func_id,
                self.func_names@ == fnames,
                fn_names_bound(s, s.len() as int, names, fnames),
                defs_lowered(a, s.take(i as int), names, self.functions@),
                self.capture_map@.len() == 0,
                self.functions@.len() == defs_total(a, s.take(i as int)),
                (forall|k: int| 0 <= k < i ==> item_simple(a, #[trigger] s[k], len as nat))
                    ==> self.functions@.len() == fn_count(s.take(i as int)),
            decreases s.len() - i,
        {
            let ghost gd = *self;
            proof {
                assert(s.take(i + 1).drop_last() =~= s.take(i as int));
                assert(s.take(i + 1).last() == s[i as int]);
                assert(mir_item_ok(s[i as int], names.len()));
                assert(item_below(s[i as int], len as nat));
                lemma_items_total_prefix(a, s, i + 1, s.len() as int, len);
                assert(s.take(s.len() as int) =~= s);
                assert(items_total(a, s.take(i + 1), len) == items_total(a, s.take(i as int), len)
                    + item_cost(a, s[i as int], len) + 1);
            }
            match &items[i] {
                Item::Definition(Definition::Function { name, params, body, .. }) => {
                    proof {
                        assert(fn_name(s[i as int]) == Some(*name));
                    }
                    proof {
                        assert(child_cost(a, *body, len) == idx_cost(a, body.0 as int));
                    }
                    let func_id = self.fn_id_of(*name);
                    let text = self.resolve(*name);
                    self.lower_function_def(func_id, Some(text.to_owned()), params, *body);
                    proof {
                        let fs = self.functions@;
                        lemma_defs_lowered_extends(a, s.take(i as int), names, gd.functions@, fs);
                        assert(has_def(fs, names[name.0 as int], params@, *body, a, names)) by {
                            assert(fs[fs.len() - 1] == fs.last());
                            assert(def_lowered_as(fs[fs.len() - 1], names[name.0 as int], params@, *body, a, names));
                        }
                        assert forall|k: int| 0 <= k < s.take(i + 1).len() implies (#[trigger] s.take(i + 1)[k] matches Item::Definition(
                            Definition::Function { name, params, body, .. },
                        ) ==> has_def(fs, names[name.0 as int], params@, body, a, names)) by {
                            if k < i {
                                assert(s.take(i + 1)[k] == s.take(i as int)[k]);
                            }
                        }
                    }
                },
                _ => {
                    proof {
                        assert forall|k: int| 0 <= k < s.take(i + 1).len() implies (#[trigger] s.take(i + 1)[k] matches Item::Definition(
                            Definition::Function { name, params, body, .. },
                        ) ==> has_def(self.functions@, names[name.0 as int], params@, body, a, names)) by {
                            if k < i {
                                assert(s.take(i + 1)[k] == s.take(i as int)[k]);
                            }
                        }
                    }
                },
            }
            i = i + 1;
        }
        self.current_func_id = main_id;
        self.blocks = Vec::new();
        self.current_block = Block::new(BlockId(0));
        self.next_vreg = 0;
        self.next_local = 0;
        self.next_block = 1;
        let mut scopes: Vec<Vec<(String, LocalId)>> = Vec::new();
        scopes.push(Vec::new());
        self.local_scopes = scopes;
        proof {
            assert(f1 == fn_count(s) + 1);
            assert(self.local_scopes@[0]@.len() == 0);
        }
        self.lower_main(main_id);
    }

    /// Lowers the top-level items into the top-level function `main`,
    /// whose identifier is `main_id`, and finishes it.
    #[verifier::rlimit(100)]
    #[verifier::spinoff_prover]
    fn lower_main(&mut self, main_id: FuncId)
        requires
            old(self).inv(),
            old(self).next_vreg == 0,
            old(self).next_local == 0,
            old(self).next_block == 1,
            old(self).blocks@.len() == 0,
            old(self).current_block.insts@.len() == 0,
            old(self).current_block.id == BlockId(0),
            old(self).local_scopes@.len() == 1,
            old(self).local_scopes@[0]@.len() == 0,
            old(self).capture_map@.len() == 0,
            old(self).current_func_id == main_id,
            3 * module_cost(*old(self).hir) + 3 <= u32::MAX,
            old(self).next_func_id <= 2 * module_cost(*old(self).hir) + 1,
            old(self).functions@.len() < old(self).next_func_id,
            fn_names_bound(
                old(self).hir.items@,
                old(self).hir.items@.len() as int,
                old(self).hir.interner@,
                old(self).func_names@,
            ),
            defs_lowered(old(self).hir.expressions@, old(self).hir.items@, old(self).hir.interner@, old(self).functions@),
            items_simple(*old(self).hir) ==> old(self).functions@.len() == fn_count(old(self).hir.items@),
            old(self).functions@.len() == defs_total(old(self).hir.expressions@, old(self).hir.items@),
        ensures
            final(self).inv(),
            final(self).hir == old(self).hir,
            final(self).functions@.len() > 0,
            defs_lowered(old(self).hir.expressions@, old(self).hir.items@, old(self).hir.interner@, final(self).functions@),
            has_function(final(self).functions@, "main"@, 0),
            final(self).functions@.len() == function_count(*old(self).hir),
            items_simple(*old(self).hir) ==> final(self).functions@.len() == fn_count(
                old(self).hir.items@,
            ) + 1 && main_lowered(
                old(self).hir.expressions@,
                old(self).hir.items@,
                final(self).functions@.last(),
                old(self).hir.expressions@.len(), old(self).hir.interner@,
            ),
    {
        let hir: &'a LowerResult = self.hir;
        let items = &hir.items;
        let ghost a = hir.expressions@;
        let ghost s = hir.items@;
        let ghost names = hir.interner@;
        let ghost len = a.len() as int;
        let ghost total = items_total(a, s, len);
        let ghost fnames = self.func_names@;
        proof {
            assert(s.take(s.len() as int) =~= s);
            lemma_items_total_prefix(a, s, 0, s.len() as int, len);
            assert(s.take(0) =~= Seq::<Item>::empty());
        }
        let ghost f2 = self.next_func_id;
        let ghost nf = self.functions@.len();
        proof {
            assert(self.local_scopes@[0]@.len() == 0);
            lemma_env_fresh(self.capture_map@, self.local_scopes@, names);
            assert(s.take(s.len() as int) =~= s);
            assert(s.take(0) =~= Seq::<Item>::empty());
            assert(self.code() =~= Seq::<Inst>::empty());
        }
        let mut i: usize = 0;
        while i < items.len()
            invariant
                self.inv(),
                self.hir == hir,
                s == hir.items@,
                items@ == s,
                a == hir.expressions@,
                names == hir.interner@,
                len == a.len(),
                total == items_total(a, s, len),
                i <= s.len(),
                s.len() <= total,
                3 * total + 3 <= u32::MAX,
                f2 <= 2 * total + 1,
                self.next_vreg <= items_total(a, s.take(i as int), len),
                self.next_local <= items_total(a, s.take(i as int), len),
                self.next_block <= 1 + items_total(a, s.take(i as int), len),
                f2 <= self.next_func_id <= f2 + items_total(a, s.take(i as int), len),
                self.functions@.len() < self.next_func_id,
                self.func_names@ == fnames,
                fn_names_bound(s, s.len() as int, names, fnames),
                defs_lowered(a, s, names, self.functions@),
                items_simple(*hir) ==> nf == fn_count(s),
                nf == defs_total(a, s),
                self.functions@.len() == nf + values_total(a, s.take(i as int), len),
                (forall|k: int| 0 <= k < i ==> item_simple(a, #[trigger] s[k], len as nat)) ==> (
                self.functions@.len() == nf && self.next_local == binding_count(s.take(i as int))
                    && self.capture_map@.len() == 0 && self.local_scopes@.len() == 1
                    && self.env() == main_env(s.take(i as int), names)
                    && forall|k: int|
                    0 <= k < i ==> item_lowered(a, #[trigger] s[k], self.code(), len as nat, main_env(s.take(k), names))),
            decreases s.len() - i,
        {
            let ghost gi = *self;
            proof {
                assert(s.take(i + 1).drop_last() =~= s.take(i as int));
                assert(s.take(i + 1).last() == s[i as int]);
                assert(mir_item_ok(s[i as int], names.len()));
                assert(item_below(s[i as int], len as nat));
                lemma_items_total_prefix(a, s, i + 1, s.len() as int, len);
                assert(s.take(s.len() as int) =~= s);
                assert(items_total(a, s.take(i + 1), len) == items_total(a, s.take(i as int), len)
                    + item_cost(a, s[i as int], len) + 1);
            }
            self.lower_main_item(&items[i], Ghost(len as nat));
            proof {
                lemma_defs_lowered_extends(a, s, names, gi.functions@, self.functions@);
                if forall|k: int| 0 <= k < i + 1 ==> item_simple(a, #[trigger] s[k], len as nat) {
                    assert(item_simple(a, s[i as int], len as nat));
                    lemma_main_step(
                        a,
                        s,
                        i as int,
                        names,
                        len as nat,
                        gi.code(),
                        self.code(),
                        gi.capture_map@,
                        self.capture_map@,
                        gi.local_scopes@,
                        self.local_scopes@,
                        gi.next_local as nat,
                        self.next_local as nat,
                        LocalId(gi.next_local),
                    );
                }
            }
            i = i + 1;
        }
        let ghost ge = *self;
        self.emit(Inst::Return { value: None });
        let ghost gm = *self;
        let main_name = "main".to_owned();
        proof {
            reveal_strlit("main");
        }
        self.finish_function(main_id, Some(main_name), Vec::new(), 0, Vec::new(), false);
        proof {
            let fs = self.functions@;
            assert(s.take(s.len() as int) =~= s);
            assert forall|k: int| 0 <= k < gm.functions@.len() implies #[trigger] fs[k] == gm.functions@[k] by {
                assert(fs.drop_last()[k] == gm.functions@[k]);
            }
            lemma_defs_lowered_extends(a, s, names, gm.functions@, fs);
            assert(fs[fs.len() - 1] == fs.last());
            assert(has_function(fs, "main"@, 0));
            if items_simple(*hir) {
                assert(extends(ge.code(), gm.code()));
                assert forall|k: int| 0 <= k < s.len() implies item_lowered(
                    a,
                    #[trigger] s[k],
                    block_code(fs.last().blocks@),
                    len as nat, main_env(s.take(k), names),
                ) by {
                    lemma_item_lowered_extends(a, s[k], ge.code(), gm.code(), len as nat, main_env(s.take(k), names));
                }
            }
        }
    }
}


/// The code of `f` ends by returning a value.
pub open spec fn returns_value(f: Function) -> bool {
    let c = block_code(f.blocks@);
    c.len() > 0 && c.last() matches Inst::Return { value: Some(_) }
}

/// Some function is named `name` and takes `count` parameters.
pub open spec fn has_function(fs: Seq<Function>, name: Seq<char>, count: nat) -> bool {
    exists|j: int|
        0 <= j < fs.len() && ((#[trigger] fs[j]).name matches Some(n) && n@ == name)
            && fs[j].param_count == count
}

/// Every function definition among the items `s` has a function among `fs`
/// lowered from it (`def_lowered_as`).
pub open spec fn defs_lowered(a: Seq<Expression>, s: Seq<Item>, names: Seq<Seq<char>>, fs: Seq<Function>) -> bool {
    forall|k: int|
        0 <= k < s.len() ==> (#[trigger] s[k] matches Item::Definition(
            Definition::Function { name, params, body, .. },
        ) ==> has_def(fs, names[name.0 as int], params@, body, a, names))
}

/// Some function of `fs` is named `name`, takes the parameters `params`, and
/// ends by returning a value, which its code computes for the body when the
/// body is simple, and into which it carries the body out when the body is a
/// block of simple items and definitions (its parameters read from their
/// local slots).
pub open spec fn has_def(
    fs: Seq<Function>,
    name: Seq<char>,
    params: Seq<FunctionParam>,
    body: ExprIdx,
    a: Seq<Expression>,
    names: Seq<Seq<char>>,
) -> bool {
    exists|j: int|
        0 <= j < fs.len() && #[trigger] def_lowered_as(fs[j], name, params, body, a, names)
}

/// `f` is the function lowered from a definition named `name` with the
/// parameters `params` and the body `body`.
pub open spec fn def_lowered_as(
    f: Function,
    name: Seq<char>,
    params: Seq<FunctionParam>,
    body: ExprIdx,
    a: Seq<Expression>,
    names: Seq<Seq<char>>,
) -> bool {
    &&& f.name matches Some(n) && n@ == name
    &&& f.param_count == params.len()
    &&& returns_value(f)
    &&& simple(a, a[body.0 as int], body.0 as nat) ==> body_computed(f, a, body, param_env(params, names))
    &&& body_block_computed(f, a, body, param_env(params, names), names, params.len())
}

/// A defined function kept at its position stays.
proof fn lemma_has_def_extends(
    fs: Seq<Function>,
    gs: Seq<Function>,
    name: Seq<char>,
    params: Seq<FunctionParam>,
    body: ExprIdx,
    a: Seq<Expression>,
    names: Seq<Seq<char>>,
)
    requires
        has_def(fs, name, params, body, a, names),
        fs.len() <= gs.len(),
        forall|k: int| 0 <= k < fs.len() ==> #[trigger] gs[k] == fs[k],
    ensures
        has_def(gs, name, params, body, a, names),
{
    let j = choose|j: int| 0 <= j < fs.len() && #[trigger] def_lowered_as(fs[j], name, params, body, a, names);
    assert(gs[j] == fs[j]);
}

/// A defined function is in any sequence with the same elements.
proof fn lemma_has_def_perm(
    fs: Seq<Function>,
    gs: Seq<Function>,
    name: Seq<char>,
    params: Seq<FunctionParam>,
    body: ExprIdx,
    a: Seq<Expression>,
    names: Seq<Seq<char>>,
)
    requires
        has_def(fs, name, params, body, a, names),
        fs.to_multiset() == gs.to_multiset(),
    ensures
        has_def(gs, name, params, body, a, names),
{
    broadcast use vstd::seq_lib::to_multiset_contains;

    let j = choose|j: int| 0 <= j < fs.len() && #[trigger] def_lowered_as(fs[j], name, params, body, a, names);
    let f = fs[j];
    assert(fs.contains(f));
    assert(fs.to_multiset().count(f) > 0);
    assert(gs.to_multiset().count(f) > 0);
    assert(gs.contains(f));
    let i = choose|i: int| 0 <= i < gs.len() && gs[i] == f;
    assert(def_lowered_as(gs[i], name, params, body, a, names));
}

/// Lowering item `it` adds no function to those it names and no local
/// slot to those it binds: each value in it is simple, and the body of a
/// function it defines holds no anonymous function.
pub open spec fn item_simple(a: Seq<Expression>, it: Item, bound: nat) -> bool {
    match it {
        Item::Definition(Definition::Function { body, .. }) => body.0 < a.len() && lam_idx(
            a,
            body.0 as int,
        ) == 0,
        Item::Definition(Definition::Variable { value, .. }) => simple(a, value, bound),
        Item::Assignment { value, .. } => simple(a, value, bound),
        Item::Expression(e) => simple(a, e, bound),
        _ => true,
    }
}

/// Every top-level item of `hir` is simple.
pub open spec fn items_simple(hir: LowerResult) -> bool {
    forall|k: int|
        0 <= k < hir.items@.len() ==> item_simple(
            hir.expressions@,
            #[trigger] hir.items@[k],
            hir.expressions@.len(),
        )
}

/// The number of top-level items that bind a name in the top-level
/// function: function and variable definitions.
pub open spec fn binding_count(s: Seq<Item>) -> nat
    decreases s.len(),
{
    if s.len() == 0 {
        0
    } else {
        binding_count(s.drop_last()) + if s.last() is Definition {
            1nat
        } else {
            0nat
        }
    }
}

/// The name that a top-level item binds in the top-level function.
pub open spec fn binder(it: Item) -> Option<Ident> {
    match it {
        Item::Definition(Definition::Function { name, .. }) => Some(name),
        Item::Definition(Definition::Variable { name, .. }) => Some(name),
        _ => None,
    }
}

/// The text of the name that a top-level item binds, if any.
pub open spec fn bound_text(it: Item, names: Seq<Seq<char>>) -> Seq<char> {
    match binder(it) {
        Some(nm) => names[nm.0 as int],
        None => Seq::empty(),
    }
}

/// Where names are read from in the top-level function after the items
/// `s`: each function or variable definition binds its name to the next
/// local slot, a later binding of a name hiding an earlier one.
pub open spec fn main_env(s: Seq<Item>, names: Seq<Seq<char>>) -> spec_fn(Ident) -> Slot
    decreases s.len(),
{
    if s.len() == 0 {
        |id: Ident| Slot::Unbound
    } else {
        let prev = main_env(s.drop_last(), names);
        match binder(s.last()) {
            Some(nm) => |id: Ident|
                if names[id.0 as int] == names[nm.0 as int] {
                    Slot::Local(LocalId(binding_count(s.drop_last()) as u32))
                } else {
                    prev(id)
                },
            None => prev,
        }
    }
}

/// An empty innermost scope changes where no name is read from.
proof fn lemma_env_push_empty(
    caps: Seq<(String, u32)>,
    scopes: Seq<Vec<(String, LocalId)>>,
    pushed: Seq<Vec<(String, LocalId)>>,
    names: Seq<Seq<char>>,
)
    requires
        pushed.len() == scopes.len() + 1,
        pushed.drop_last() == scopes,
        pushed.last()@.len() == 0,
    ensures
        env_of(caps, pushed, names) == env_of(caps, scopes, names),
{
    assert forall|id: Ident| #[trigger] env_of(caps, pushed, names)(id) == env_of(caps, scopes, names)(id) by {
        let t = names[id.0 as int];
        assert(lookup_last(pushed.last()@, t) is None);
        assert(lookup_scopes(pushed, t) == lookup_scopes(scopes, t));
    }
    assert(env_of(caps, pushed, names) =~= env_of(caps, scopes, names));
}

/// Where names are read from in a function body whose parameters are
/// `ps`: parameter `k` in local slot `k`, a later parameter of a name hiding
/// an earlier one, and nothing else bound.
pub open spec fn param_env(ps: Seq<FunctionParam>, names: Seq<Seq<char>>) -> spec_fn(Ident) -> Slot
    decreases ps.len(),
{
    if ps.len() == 0 {
        |id: Ident| Slot::Unbound
    } else {
        let prev = param_env(ps.drop_last(), names);
        let last = ps.last();
        |id: Ident|
            if names[id.0 as int] == names[last.name.0 as int] {
                Slot::Local(LocalId((ps.len() - 1) as u32))
            } else {
                prev(id)
            }
    }
}

/// When the body stored at `body` is a block whose items are simple or
/// define names by simple values, the code of `f` ends by returning the
/// operand into which that code carries the block out (`block_computed`),
/// names read as `env` gives at its start and `nl` locals then in use.
pub open spec fn body_block_computed(
    f: Function,
    a: Seq<Expression>,
    body: ExprIdx,
    env: spec_fn(Ident) -> Slot,
    names: Seq<Seq<char>>,
    nl: nat,
) -> bool {
    let c = block_code(f.blocks@);
    match a[body.0 as int] {
        Expression::Block { items, tail } => flat_block(a, items@, tail, body.0 as nat) ==> (c.len() > 0
            && match c.last() {
            Inst::Return { value: Some(o) } => block_computed(
                a,
                items@,
                tail,
                o,
                c,
                body.0 as nat,
                env,
                names,
                nl,
            ),
            _ => false,
        }),
        _ => true,
    }
}

/// The code of `f` ends by returning an operand that the code computes for
/// the expression stored at `body`, names read as `env` gives.
pub open spec fn body_computed(f: Function, a: Seq<Expression>, body: ExprIdx, env: spec_fn(Ident) -> Slot) -> bool {
    let c = block_code(f.blocks@);
    &&& c.len() > 0
    &&& match c.last() {
        Inst::Return { value: Some(o) } => computes(a, a[body.0 as int], o, c, body.0 as nat, env),
        _ => false,
    }
}

/// Binding parameter `k` to local slot `k` turns the environment of the
/// parameters before it into the one with it.
proof fn lemma_param_env_bind(
    ps: Seq<FunctionParam>,
    k: int,
    names: Seq<Seq<char>>,
    before: Seq<Vec<(String, LocalId)>>,
    after: Seq<Vec<(String, LocalId)>>,
    caps: Seq<(String, u32)>,
)
    requires
        0 <= k < ps.len(),
        k < u32::MAX,
        caps.len() == 0,
        env_of(caps, before, names) == param_env(ps.take(k), names),
        forall|t: Seq<char>|
            #[trigger] lookup_scopes(after, t) == (if t == names[ps[k].name.0 as int] {
                Some(LocalId(k as u32))
            } else {
                lookup_scopes(before, t)
            }),
    ensures
        env_of(caps, after, names) == param_env(ps.take(k + 1), names),
{
    let t1 = ps.take(k + 1);
    assert(t1.drop_last() =~= ps.take(k));
    assert(t1.last() == ps[k]);
    assert forall|id: Ident| #[trigger] env_of(caps, after, names)(id) == param_env(t1, names)(id) by {
        let t = names[id.0 as int];
        assert(lookup_last(caps, t) is None);
        assert(env_of(caps, before, names)(id) == param_env(ps.take(k), names)(id));
        assert(lookup_scopes(after, t) == (if t == names[ps[k].name.0 as int] { Some(LocalId(k as u32)) } else { lookup_scopes(before, t) }));
    }
    assert(env_of(caps, after, names) =~= param_env(t1, names));
}

/// With no captures and one empty scope, no name is bound.
proof fn lemma_env_fresh(caps: Seq<(String, u32)>, scopes: Seq<Vec<(String, LocalId)>>, names: Seq<Seq<char>>)
    requires
        caps.len() == 0,
        scopes.len() == 1,
        scopes[0]@.len() == 0,
    ensures
        env_of(caps, scopes, names) == main_env(Seq::<Item>::empty(), names),
{
    assert forall|id: Ident| #[trigger] env_of(caps, scopes, names)(id) == main_env(Seq::<Item>::empty(), names)(id) by {
        let t = names[id.0 as int];
        assert(lookup_last(caps, t) is None);
        assert(lookup_last(scopes.last()@, t) is None);
        assert(scopes.drop_last().len() == 0);
        assert(lookup_scopes(scopes.drop_last(), t) is None);
    }
    assert(env_of(caps, scopes, names) =~= main_env(Seq::<Item>::empty(), names));
}

/// One top-level item lowered into the top-level function keeps what the
/// function's code computes, counts its binding and extends the
/// environment by it.
#[verifier::rlimit(80)]
#[verifier::spinoff_prover]
proof fn lemma_main_step(
    a: Seq<Expression>,
    s: Seq<Item>,
    i: int,
    names: Seq<Seq<char>>,
    len: nat,
    code0: Seq<Inst>,
    code: Seq<Inst>,
    caps0: Seq<(String, u32)>,
    caps: Seq<(String, u32)>,
    scopes0: Seq<Vec<(String, LocalId)>>,
    scopes: Seq<Vec<(String, LocalId)>>,
    nl0: nat,
    nl: nat,
    l: LocalId,
)
    requires
        0 <= i < s.len(),
        forall|k: int| 0 <= k < i + 1 ==> item_simple(a, #[trigger] s[k], len),
        l.0 == nl0,
        nl0 == binding_count(s.take(i)) && caps0.len() == 0 && scopes0.len() == 1 && env_of(
            caps0,
            scopes0,
            names,
        ) == main_env(s.take(i), names) && forall|k: int|
            0 <= k < i ==> item_lowered(a, #[trigger] s[k], code0, len, main_env(s.take(k), names)),
        extends(code0, code),
        nl == nl0 + if binder(s[i]) is Some {
            1nat
        } else {
            0nat
        },
        caps == caps0,
        scopes.len() == scopes0.len(),
        item_lowered(a, s[i], code, len, env_of(caps0, scopes0, names)),
        binder(s[i]) is None ==> scopes == scopes0,
        binder(s[i]) is Some ==> forall|t: Seq<char>|
            #[trigger] lookup_scopes(scopes, t) == (if t == bound_text(s[i], names) {
                Some(l)
            } else {
                lookup_scopes(scopes0, t)
            }),
    ensures
        nl == binding_count(s.take(i + 1)),
        caps.len() == 0,
        scopes.len() == 1,
        env_of(caps, scopes, names) == main_env(s.take(i + 1), names),
        forall|k: int|
            0 <= k < i + 1 ==> item_lowered(a, #[trigger] s[k], code, len, main_env(s.take(k), names)),
{
    assert(s.take(i + 1).drop_last() =~= s.take(i));
    assert(s.take(i + 1).last() == s[i]);
    assert(binding_count(s.take(i + 1)) == binding_count(s.take(i)) + if s[i] is Definition {
        1nat
    } else {
        0nat
    });
    assert((binder(s[i]) is Some) == (s[i] is Definition)) by {
        match s[i] {
            Item::Definition(d) => match d {
                Definition::Function { .. } => {},
                Definition::Variable { .. } => {},
            },
            _ => {},
        }
    }
    if let Some(nm) = binder(s[i]) {
        assert(bound_text(s[i], names) == names[nm.0 as int]);
        lemma_main_env_bind(s, i, names, scopes0, scopes, caps0, nm, l);
    } else {
        assert(main_env(s.take(i + 1), names) == main_env(s.take(i), names));
    }
    assert forall|k: int| 0 <= k < i + 1 implies item_lowered(
        a,
        #[trigger] s[k],
        code,
        len,
        main_env(s.take(k), names),
    ) by {
        if k < i {
            lemma_item_lowered_extends(a, s[k], code0, code, len, main_env(s.take(k), names));
        }
    }
}

/// Binding the name of item `i` to the next local slot turns the
/// environment after the items before it into the one after it.
proof fn lemma_main_env_bind(
    s: Seq<Item>,
    i: int,
    names: Seq<Seq<char>>,
    before: Seq<Vec<(String, LocalId)>>,
    after: Seq<Vec<(String, LocalId)>>,
    caps: Seq<(String, u32)>,
    nm: Ident,
    l: LocalId,
)
    requires
        0 <= i < s.len(),
        binder(s[i]) == Some(nm),
        caps.len() == 0,
        env_of(caps, before, names) == main_env(s.take(i), names),
        forall|t: Seq<char>|
            #[trigger] lookup_scopes(after, t) == (if t == names[nm.0 as int] {
                Some(l)
            } else {
                lookup_scopes(before, t)
            }),
        l.0 == binding_count(s.take(i)),
    ensures
        env_of(caps, after, names) == main_env(s.take(i + 1), names),
{
    let t1 = s.take(i + 1);
    assert(t1.drop_last() =~= s.take(i));
    assert(t1.last() == s[i]);
    assert forall|id: Ident| #[trigger] env_of(caps, after, names)(id) == main_env(t1, names)(id) by {
        let t = names[id.0 as int];
        assert(lookup_last(caps, t) is None);
        assert(env_of(caps, before, names)(id) == main_env(s.take(i), names)(id));
        assert(lookup_scopes(after, t) == (if t == names[nm.0 as int] { Some(l) } else { lookup_scopes(before, t) }));
    }
    assert(env_of(caps, after, names) =~= main_env(t1, names));
}

/// `code` computes the value of item `it`: the value of a variable
/// definition is computed and stored into a local slot, that of an
/// assignment or of an expression is computed.
pub open spec fn item_lowered(
    a: Seq<Expression>,
    it: Item,
    code: Seq<Inst>,
    bound: nat,
    env: spec_fn(Ident) -> Slot,
) -> bool {
    match it {
        Item::Definition(Definition::Variable { value, .. }) => exists|o: Operand, l: LocalId|
            #![trigger code.contains(Inst::StoreLocal { local: l, src: o })]
            computes(a, value, o, code, bound, env) && code.contains(Inst::StoreLocal { local: l, src: o }),
        Item::Assignment { value, .. } => exists|o: Operand| #[trigger] computes(a, value, o, code, bound, env),
        Item::Expression(e) => exists|o: Operand| #[trigger] computes(a, e, o, code, bound, env),
        _ => true,
    }
}

/// What an item's code computes stays computed when more instructions
/// follow.
proof fn lemma_item_lowered_extends(
    a: Seq<Expression>,
    it: Item,
    c1: Seq<Inst>,
    c2: Seq<Inst>,
    bound: nat,
    env: spec_fn(Ident) -> Slot,
)
    requires
        item_lowered(a, it, c1, bound, env),
        extends(c1, c2),
    ensures
        item_lowered(a, it, c2, bound, env),
{
    match it {
        Item::Definition(Definition::Variable { value, .. }) => {
            let (o, l) = choose|o: Operand, l: LocalId|
                computes(a, value, o, c1, bound, env) && #[trigger] c1.contains(
                    Inst::StoreLocal { local: l, src: o },
                );
            lemma_computes_extends(a, value, o, c1, c2, bound, env);
            let k = choose|k: int| 0 <= k < c1.len() && c1[k] == Inst::StoreLocal { local: l, src: o };
            assert(c2[k] == c1[k]);
            assert(c2.contains(Inst::StoreLocal { local: l, src: o }));
        },
        Item::Assignment { value, .. } => {
            let o = choose|o: Operand| #[trigger] computes(a, value, o, c1, bound, env);
            lemma_computes_extends(a, value, o, c1, c2, bound, env);
        },
        Item::Expression(e) => {
            let o = choose|o: Operand| #[trigger] computes(a, e, o, c1, bound, env);
            lemma_computes_extends(a, e, o, c1, c2, bound, env);
        },
        _ => {},
    }
}

/// `f` is the top-level function of items `s`: it is named `main`, takes no
/// parameters, its code computes every item, and it has a local slot for
/// each function and variable definition.
pub open spec fn main_lowered(
    a: Seq<Expression>,
    s: Seq<Item>,
    f: Function,
    bound: nat,
    names: Seq<Seq<char>>,
) -> bool {
    &&& f.name matches Some(n) && n@ == "main"@
    &&& f.param_count == 0
    &&& forall|k: int| 0 <= k < s.len() ==> item_lowered(a, #[trigger] s[k], block_code(f.blocks@), bound, main_env(s.take(k), names))
    &&& f.local_count == binding_count(s)
}

/// The same for every definition.
proof fn lemma_defs_lowered_extends(
    a: Seq<Expression>,
    s: Seq<Item>,
    names: Seq<Seq<char>>,
    fs: Seq<Function>,
    gs: Seq<Function>,
)
    requires
        defs_lowered(a, s, names, fs),
        fs.len() <= gs.len(),
        forall|k: int| 0 <= k < fs.len() ==> #[trigger] gs[k] == fs[k],
    ensures
        defs_lowered(a, s, names, gs),
{
    assert forall|k: int| 0 <= k < s.len() implies (#[trigger] s[k] matches Item::Definition(
        Definition::Function { name, params, body, .. },
    ) ==> has_def(gs, names[name.0 as int], params@, body, a, names)) by {
        if let Item::Definition(Definition::Function { name, params, body, .. }) = s[k] {
            lemma_has_def_extends(fs, gs, names[name.0 as int], params@, body, a, names);
        }
    }
}

/// A function of `fs` is in any sequence with the same elements.
proof fn lemma_has_function_perm(fs: Seq<Function>, gs: Seq<Function>, name: Seq<char>, count: nat)
    requires
        has_function(fs, name, count),
        fs.to_multiset() == gs.to_multiset(),
    ensures
        has_function(gs, name, count),
{
    broadcast use vstd::seq_lib::to_multiset_contains;

    let j = choose|j: int|
        0 <= j < fs.len() && ((#[trigger] fs[j]).name matches Some(n) && n@ == name)
            && fs[j].param_count == count;
    let f = fs[j];
    assert(fs.contains(f));
    assert(fs.to_multiset().count(f) > 0);
    assert(gs.to_multiset().count(f) > 0);
    assert(gs.contains(f));
    let i = choose|i: int| 0 <= i < gs.len() && gs[i] == f;
    assert(gs[i] == f);
}

/// The functions are in ascending order of identifier.
pub open spec fn sorted_by_id(fs: Seq<Function>) -> bool {
    forall|i: int, j: int| 0 <= i < j < fs.len() ==> (#[trigger] fs[i]).id.0 <= (#[trigger] fs[j]).id.0
}

/// Sorts functions by identifier, keeping the order of equal ones.
fn sort_by_id(v: Vec<Function>) -> (r: Vec<Function>)
    ensures
        sorted_by_id(r@),
        r@.to_multiset() == v@.to_multiset(),
        (forall|k: int| 0 <= k < v@.len() ==> function_ok(#[trigger] v@[k])) ==> forall|k: int|
            0 <= k < r@.len() ==> function_ok(#[trigger] r@[k]),
{
    broadcast use vstd::multiset::group_multiset_axioms;

    let ghost all_ok = forall|k: int| 0 <= k < v@.len() ==> function_ok(#[trigger] v@[k]);
    let mut src = v;
    let mut out: Vec<Function> = Vec::new();
    proof {
        assert forall|x: Function| out@.to_multiset().count(x) == 0 by {
            vstd::seq_lib::to_multiset_contains(out@, x);
        }
        assert(out@.to_multiset() =~= vstd::multiset::Multiset::empty());
    }
    while src.len() > 0
        invariant
            sorted_by_id(out@),
            out@.to_multiset().add(src@.to_multiset()) == v@.to_multiset(),
            all_ok ==> forall|k: int| 0 <= k < out@.len() ==> function_ok(#[trigger] out@[k]),
            all_ok ==> forall|k: int| 0 <= k < src@.len() ==> function_ok(#[trigger] src@[k]),
        decreases src@.len(),
    {
        let ghost before_src = src@;
        let f = src.pop().unwrap();
        proof {
            assert(before_src =~= src@.push(f));
            if all_ok {
                assert(function_ok(before_src[before_src.len() - 1]));
                assert forall|k: int| 0 <= k < src@.len() implies function_ok(#[trigger] src@[k]) by {
                    assert(src@[k] == before_src[k]);
                }
            }
        }
        let mut p: usize = 0;
        while p < out.len() && out[p].id.0 < f.id.0
            invariant
                p <= out@.len(),
                sorted_by_id(out@),
                forall|k: int| 0 <= k < p ==> (#[trigger] out@[k]).id.0 < f.id.0,
            decreases out@.len() - p,
        {
            p = p + 1;
        }
        let ghost before = out@;
        out.insert(p, f);
        proof {
            assert(out@ == before.insert(p as int, f));
            assert forall|i: int, j: int| 0 <= i < j < out@.len() implies (#[trigger] out@[i]).id.0
                <= (#[trigger] out@[j]).id.0 by {
                if i < p && j == p {
                    assert(out@[i] == before[i]);
                } else if i < p && j > p {
                    assert(out@[i] == before[i]);
                    assert(out@[j] == before[j - 1]);
                } else if i == p && j > p {
                    assert(out@[j] == before[j - 1]);
                    if p < before.len() {
                        assert(before[p as int].id.0 >= f.id.0);
                        assert(before[p as int].id.0 <= before[j - 1].id.0);
                    }
                } else if i > p {
                    assert(out@[i] == before[i - 1]);
                    assert(out@[j] == before[j - 1]);
                } else {
                    assert(out@[i] == before[i]);
                    assert(out@[j] == before[j]);
                }
            }
            vstd::seq_lib::to_multiset_insert(before, p as int, f);
            vstd::seq_lib::to_multiset_build(src@, f);
            assert(out@.to_multiset() == before.to_multiset().insert(f));
            assert(before_src.to_multiset() == src@.to_multiset().insert(f));
            assert(out@.to_multiset().add(src@.to_multiset()) =~= before.to_multiset().add(
                before_src.to_multiset(),
            ));
            if all_ok {
                assert forall|k: int| 0 <= k < out@.len() implies function_ok(#[trigger] out@[k]) by {
                    if k < p {
                        assert(out@[k] == before[k]);
                    } else if k > p {
                        assert(out@[k] == before[k - 1]);
                    }
                }
            }
        }
    }
    proof {
        assert forall|x: Function| src@.to_multiset().count(x) == 0 by {
            vstd::seq_lib::to_multiset_contains(src@, x);
        }
        assert(src@.to_multiset() =~= vstd::multiset::Multiset::empty());
        assert(out@.to_multiset().add(src@.to_multiset()) =~= out@.to_multiset());
    }
    out
}

/// The identifier of the first function named `main`, if there is one.
pub open spec fn first_main(fs: Seq<Function>) -> Option<FuncId>
    decreases fs.len(),
{
    if fs.len() == 0 {
        None
    } else if fs[0].name matches Some(n) && n@ == "main"@ {
        Some(fs[0].id)
    } else {
        first_main(fs.drop_first())
    }
}

/// Builds the module: the functions sorted by identifier, and as entry
/// the first function named `main`, else the last identifier.
fn build_module(functions: Vec<Function>) -> (r: Module)
    requires
        functions@.len() > 0,
        functions@.len() <= u32::MAX,
    ensures
        sorted_by_id(r.functions@),
        r.functions@.to_multiset() == functions@.to_multiset(),
        r.functions@.len() == functions@.len(),
        (forall|k: int| 0 <= k < functions@.len() ==> function_ok(#[trigger] functions@[k]))
            ==> forall|k: int| 0 <= k < r.functions@.len() ==> function_ok(#[trigger] r.functions@[k]),
        r.main_id == (match first_main(r.functions@) {
            Some(id) => id,
            None => FuncId((functions@.len() - 1) as u32),
        }),
{
    broadcast use vstd::seq_lib::to_multiset_len;

    let sorted = sort_by_id(functions);
    proof {
        assert(sorted@.to_multiset().len() == functions@.to_multiset().len());
    }
    let main_name = "main".to_owned();
    proof {
        reveal_strlit("main");
    }
    let mut i: usize = 0;
    let mut found: Option<FuncId> = None;
    assert(sorted@.skip(0) =~= sorted@);
    while i < sorted.len() && found.is_none()
        invariant
            main_name@ == "main"@,
            i <= sorted@.len(),
            found is None ==> first_main(sorted@.skip(i as int)) == first_main(sorted@),
            found matches Some(id) ==> first_main(sorted@) == Some(id),
        decreases sorted@.len() - i,
    {
        assert(sorted@.skip(i as int).drop_first() =~= sorted@.skip(i + 1));
        assert(sorted@.skip(i as int)[0] == sorted@[i as int]);
        let is_main = match &sorted[i].name {
            Some(n) => *n == main_name,
            None => false,
        };
        if is_main {
            found = Some(sorted[i].id);
        }
        i = i + 1;
    }
    let main_id = match found {
        Some(id) => id,
        None => {
            assert(sorted@.skip(i as int) =~= Seq::<Function>::empty());
            FuncId((sorted.len() - 1) as u32)
        },
    };
    Module { functions: sorted, main_id }
}

/// Lowers a high-level module to the mid-level IR: one function per named
/// function definition (with its name and number of parameters) and per
/// anonymous function, and a `main` function without parameters for the
/// other items; every function uses only the registers and locals it
/// counts, and the functions come in ascending order of identifier.
pub fn lower(hir: &LowerResult) -> (r: Module)
    requires
        mir_input(*hir),
        3 * module_cost(*hir) + 3 <= u32::MAX,
    ensures
        r.functions@.len() > 0,
        sorted_by_id(r.functions@),
        forall|k: int| 0 <= k < r.functions@.len() ==> function_ok(#[trigger] r.functions@[k]),
        r.main_id == (match first_main(r.functions@) {
            Some(id) => id,
            None => FuncId((r.functions@.len() - 1) as u32),
        }),
        defs_lowered(hir.expressions@, hir.items@, hir.interner@, r.functions@),
        has_function(r.functions@, "main"@, 0),
        r.functions@.len() == function_count(*hir),
        items_simple(*hir) ==> r.functions@.len() == fn_count(hir.items@) + 1 && exists|j: int|
            0 <= j < r.functions@.len() && main_lowered(
                hir.expressions@,
                hir.items@,
                #[trigger] r.functions@[j],
                hir.expressions@.len(), hir.interner@,
            ),
{
    let mut ctx = LowerCtx::new(hir);
    ctx.lower_module();
    let functions = ctx.functions;
    let ghost fs = functions@;
    let r = build_module(functions);
    proof {
        lemma_has_function_perm(fs, r.functions@, "main"@, 0);
        assert forall|k: int| 0 <= k < hir.items@.len() implies (#[trigger] hir.items@[k] matches Item::Definition(
            Definition::Function { name, params, body, .. },
        ) ==> has_def(r.functions@, hir.interner@[name.0 as int], params@, body, hir.expressions@, hir.interner@)) by {
            if let Item::Definition(Definition::Function { name, params, body, .. }) = hir.items@[k] {
                lemma_has_def_perm(fs, r.functions@, hir.interner@[name.0 as int], params@, body, hir.expressions@, hir.interner@);
            }
        }
        if items_simple(*hir) {
            broadcast use vstd::seq_lib::to_multiset_contains;

            let f = fs.last();
            assert(fs[fs.len() - 1] == f);
            assert(fs.contains(f));
            assert(fs.to_multiset().count(f) > 0);
            assert(r.functions@.to_multiset().count(f) > 0);
            assert(r.functions@.contains(f));
            let j = choose|j: int| 0 <= j < r.functions@.len() && r.functions@[j] == f;
            assert(main_lowered(hir.expressions@, hir.items@, r.functions@[j], hir.expressions@.len(), hir.interner@));
        }
    }
    r
}

} // verus!
