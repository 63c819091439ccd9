//! What lowering yields, node by node. Every stored expression was made
//! from one syntax node (or from an absent one, for a missing expression),
//! and it is the lowering of that node: the right variant, its operands made
//! from the node's children, its names the interned texts of the node's
//! tokens. Parentheses leave no expression of their own.
use vstd::prelude::*;

use crate::ast::{drop_one, else_branch_node, label_after_colon, slice_end_node, slice_start_node};
use crate::cst::{
    first_of, is_expression_kind, nodes_where, nth_of, tokens_where, KindClass, SyntaxKind,
    SyntaxTree, TextRange, Token,
};
use crate::hir::{BlockItem, Definition, ExprIdx, Expression, FunctionParam, Ident, Item, PrefixOp, ResolvedIdent};
use crate::hir::InfixOp;
use crate::hir_lower::{
    block_item_lowers, hir_literal_view, item_lowers, literal_node_value, named, spec_infix_op,
    spec_doc_comment, spec_lower_literal, spec_resolve, spec_to_span, zero_literal_node, HirError,
    ResolutionData, SymbolEvent,
};
use crate::text::spec_parse_unsigned;

verus! {

/// The child expression nodes of node `n`, in order.
pub open spec fn expr_children(t: SyntaxTree, n: usize) -> Seq<usize> {
    nodes_where(t, t.children_of(n), KindClass::Expression)
}

/// The first child expression of node `n`.
pub open spec fn first_expr(t: SyntaxTree, n: usize) -> Option<usize> {
    first_of(expr_children(t, n))
}

/// The second child expression of node `n`.
pub open spec fn second_expr(t: SyntaxTree, n: usize) -> Option<usize> {
    nth_of(expr_children(t, n), 1)
}

/// The first child node of kind `k` of node `n`.
pub open spec fn first_node_of(t: SyntaxTree, n: usize, k: SyntaxKind) -> Option<usize> {
    first_of(nodes_where(t, t.children_of(n), KindClass::Exactly(k)))
}

/// The first child token in class `c` of node `n`.
pub open spec fn first_token_of(t: SyntaxTree, n: usize, c: KindClass) -> Option<Token> {
    first_of(tokens_where(t.children_of(n), c))
}

/// The first identifier token of node `n`.
pub open spec fn name_token(t: SyntaxTree, n: usize) -> Option<Token> {
    first_token_of(t, n, KindClass::Exactly(SyntaxKind::Identifier))
}

/// The node that an expression node stands for once parentheses are
/// removed: a parenthesised expression stands for its inner expression, or
/// for nothing when it has none.
pub open spec fn unparen(t: SyntaxTree, n: Option<usize>) -> Option<usize>
    decreases (match n {
        Some(j) => t.nodes@.len() - j,
        None => 0,
    }),
{
    match n {
        None => None,
        Some(j) => if j < t.nodes@.len() && t.kind_of(j) == SyntaxKind::ParenthesisExpression {
            match first_expr(t, j) {
                Some(c) => if j < c && c < t.nodes@.len() {
                    unparen(t, Some(c))
                } else {
                    None
                },
                None => None,
            }
        } else {
            Some(j)
        },
    }
}

/// Index `i` was made from the (possibly absent) node `n`.
pub open spec fn made_from(o: Seq<Option<usize>>, i: ExprIdx, n: Option<usize>) -> bool {
    i.0 < o.len() && o[i.0 as int] == n
}

/// An optional index was made from the node `n` when there is one, and is
/// absent otherwise.
pub open spec fn opt_made_from(o: Seq<Option<usize>>, i: Option<ExprIdx>, n: Option<usize>) -> bool {
    match n {
        None => i is None,
        Some(m) => i matches Some(x) && made_from(o, x, Some(m)),
    }
}

/// `id` is the key of the text `s`.
pub open spec fn names_text(names: Seq<Seq<char>>, id: Ident, s: Seq<char>) -> bool {
    id.0 < names.len() && names[id.0 as int] == s
}

/// An optional identifier is the key of the text of an optional token.
pub open spec fn names_token(names: Seq<Seq<char>>, id: Option<Ident>, tok: Option<Token>) -> bool {
    match tok {
        None => id is None,
        Some(t) => id matches Some(x) && names_text(names, x, t.text@),
    }
}

/// The type name of an optional type annotation node.
pub open spec fn names_annotation(t: SyntaxTree, names: Seq<Seq<char>>, id: Option<Ident>, a: Option<usize>) -> bool {
    match a {
        None => id is None,
        Some(x) => names_token(names, id, name_token(t, x)),
    }
}

/// The parameter nodes among `ps` that have a name.
pub open spec fn named_params(t: SyntaxTree, ps: Seq<usize>) -> Seq<usize>
    decreases ps.len(),
{
    if ps.len() == 0 {
        ps
    } else {
        named_params(t, ps.drop_last()) + if named(t, ps.last()) {
            seq![ps.last()]
        } else {
            Seq::empty()
        }
    }
}

/// A parameter lowered from parameter node `p`.
pub open spec fn param_shape(t: SyntaxTree, o: Seq<Option<usize>>, names: Seq<Seq<char>>, p: usize, fp: FunctionParam) -> bool {
    &&& name_token(t, p) matches Some(tok) && names_text(names, fp.name, tok.text@)
    &&& names_annotation(t, names, fp.ty, first_node_of(t, p, SyntaxKind::TypeAnnotation))
    &&& opt_made_from(o, fp.default, first_expr(t, p))
}

/// The parameters lowered from an optional parameter list: one for each
/// parameter with a name, in order.
pub open spec fn params_shape(t: SyntaxTree, o: Seq<Option<usize>>, names: Seq<Seq<char>>, list: Option<usize>, ps: Seq<FunctionParam>) -> bool {
    match list {
        None => ps.len() == 0,
        Some(l) => {
            let pn = named_params(t, nodes_where(t, t.children_of(l), KindClass::Exactly(SyntaxKind::Parameter)));
            ps.len() == pn.len() && forall|k: int|
                0 <= k < ps.len() ==> param_shape(t, o, names, pn[k], #[trigger] ps[k])
        },
    }
}

/// Parameters, return type name and body of the function node `n` (a named
/// definition or an anonymous function).
pub open spec fn function_parts_shape(
    t: SyntaxTree,
    o: Seq<Option<usize>>,
    names: Seq<Seq<char>>,
    n: usize,
    params: Seq<FunctionParam>,
    return_type: Option<Ident>,
    body: ExprIdx,
) -> bool {
    &&& params_shape(t, o, names, first_node_of(t, n, SyntaxKind::ParameterList), params)
    &&& names_annotation(t, names, return_type, first_node_of(t, n, SyntaxKind::TypeAnnotation))
    &&& made_from(o, body, first_node_of(t, n, SyntaxKind::BlockExpression))
}

/// The item nodes among `ids` that yield an item of a block.
pub open spec fn block_lowering(t: SyntaxTree, ids: Seq<usize>) -> Seq<usize>
    decreases ids.len(),
{
    if ids.len() == 0 {
        ids
    } else {
        block_lowering(t, ids.drop_last()) + if block_item_lowers(t, ids.last()) {
            seq![ids.last()]
        } else {
            Seq::empty()
        }
    }
}

/// The item nodes among `ids` that yield a top-level item.
pub open spec fn top_lowering(t: SyntaxTree, ids: Seq<usize>) -> Seq<usize>
    decreases ids.len(),
{
    if ids.len() == 0 {
        ids
    } else {
        top_lowering(t, ids.drop_last()) + if item_lowers(t, ids.last()) {
            seq![ids.last()]
        } else {
            Seq::empty()
        }
    }
}

/// A block item lowered from item node `j`.
pub open spec fn block_item_shape(t: SyntaxTree, o: Seq<Option<usize>>, names: Seq<Seq<char>>, j: usize, bi: BlockItem) -> bool {
    let k = t.kind_of(j);
    if k == SyntaxKind::FunctionDefinition {
        bi matches BlockItem::Definition { name, value } && (name_token(t, j) matches Some(tok)
            && names_text(names, name, tok.text@)) && made_from(o, value, Some(j))
    } else if k == SyntaxKind::VariableDefinition {
        bi matches BlockItem::Definition { name, value } && (name_token(t, j) matches Some(tok)
            && names_text(names, name, tok.text@)) && made_from(o, value, first_expr(t, j))
    } else if k == SyntaxKind::VariableAssignment {
        bi matches BlockItem::Assignment { name, value } && (name_token(t, j) matches Some(tok)
            && names_text(names, name, tok.text@)) && made_from(o, value, first_expr(t, j))
    } else if k == SyntaxKind::IndexAssignment {
        bi matches BlockItem::IndexAssignment { collection, index, value } && (first_expr(t, j) matches Some(m)
            && made_from(o, collection, first_expr(t, m)) && made_from(o, index, second_expr(t, m)))
            && made_from(o, value, second_expr(t, j))
    } else if k == SyntaxKind::ReturnStatement {
        bi matches BlockItem::Return { value } && opt_made_from(o, value, first_expr(t, j))
    } else if k == SyntaxKind::EchoStatement {
        bi matches BlockItem::Echo { value } && made_from(o, value, first_expr(t, j))
    } else if k == SyntaxKind::BreakStatement {
        bi matches BlockItem::Break { label } && names_token(names, label, name_token(t, j))
    } else if k == SyntaxKind::ContinueStatement {
        bi matches BlockItem::Continue { label } && names_token(names, label, name_token(t, j))
    } else {
        bi matches BlockItem::Expression(x) && made_from(o, x, Some(j))
    }
}

/// The block items lowered from the item nodes `ids`, in order.
pub open spec fn block_items_shape(t: SyntaxTree, o: Seq<Option<usize>>, names: Seq<Seq<char>>, ids: Seq<usize>, items: Seq<BlockItem>) -> bool {
    items.len() == ids.len() && forall|k: int|
        0 <= k < items.len() ==> block_item_shape(t, o, names, ids[k], #[trigger] items[k])
}

/// A block lowered from block node `n`: the items that lower, in order; when
/// the last of them is an expression, it is the tail instead.
pub open spec fn block_shape(t: SyntaxTree, o: Seq<Option<usize>>, names: Seq<Seq<char>>, n: usize, e: Expression) -> bool {
    let l = block_lowering(t, nodes_where(t, t.children_of(n), KindClass::Item));
    e matches Expression::Block { items, tail } && if l.len() > 0 && is_expression_kind(
        t.kind_of(l.last()),
    ) {
        (tail matches Some(x) && made_from(o, x, Some(l.last()))) && block_items_shape(
            t,
            o,
            names,
            l.drop_last(),
            items@,
        )
    } else {
        tail is None && block_items_shape(t, o, names, l, items@)
    }
}

/// Every index of `xs` was made from the node at the same position of `ns`.
pub open spec fn all_made_from(o: Seq<Option<usize>>, xs: Seq<ExprIdx>, ns: Seq<usize>) -> bool {
    xs.len() == ns.len() && forall|q: int| 0 <= q < xs.len() ==> made_from(o, #[trigger] xs[q], Some(ns[q]))
}

/// The start of a slice node: its start node when that is an expression.
pub open spec fn slice_start_expr(t: SyntaxTree, n: usize) -> Option<usize> {
    match slice_start_node(t.children_of(n), false, true) {
        Some(j) => if is_expression_kind(t.kind_of(j)) { Some(j) } else { None },
        None => None,
    }
}

/// The end of a slice node: its end node when that is an expression.
pub open spec fn slice_end_expr(t: SyntaxTree, n: usize) -> Option<usize> {
    match slice_end_node(t.children_of(n), false) {
        Some(j) => if is_expression_kind(t.kind_of(j)) { Some(j) } else { None },
        None => None,
    }
}

/// The field number of a tuple access node (zero when it cannot be read).
pub open spec fn tuple_field(t: SyntaxTree, n: usize) -> nat {
    match first_token_of(t, n, KindClass::Exactly(SyntaxKind::Integer)) {
        Some(tok) => match spec_parse_unsigned(tok.text@, 10, u32::MAX as nat) {
            Some(v) => v,
            None => 0,
        },
        None => 0,
    }
}

/// The expression lowered from node `n` (not a parenthesised expression):
/// its operands are indices made from the node's children, its names are
/// keys of the texts of the node's tokens, and a name that the resolution
/// data marks as a re-export refers to its module.
pub open spec fn expr_shape(
    t: SyntaxTree,
    o: Seq<Option<usize>>,
    names: Seq<Seq<char>>,
    res: Option<ResolutionData>,
    n: usize,
    e: Expression,
) -> bool {
    let k = t.kind_of(n);
    if k == SyntaxKind::Literal {
        e matches Expression::Literal(l) && hir_literal_view(l) == spec_lower_literal(
            literal_node_value(t, n),
        )
    } else if k == SyntaxKind::InfixExpression {
        match first_token_of(t, n, KindClass::InfixOperator) {
            Some(tok) => match spec_infix_op(tok.kind) {
                Some(op) => e matches Expression::Infix { op: op2, lhs, rhs } && op2 == op
                    && made_from(o, lhs, first_expr(t, n)) && made_from(o, rhs, second_expr(t, n)),
                None => e == Expression::Missing,
            },
            None => e == Expression::Missing,
        }
    } else if k == SyntaxKind::PrefixExpression {
        match first_token_of(t, n, KindClass::PrefixOperator) {
            Some(tok) => e matches Expression::Prefix { op, expr } && op == (if tok.kind
                == SyntaxKind::Minus {
                PrefixOp::Neg
            } else {
                PrefixOp::Not
            }) && made_from(o, expr, first_expr(t, n)),
            None => e == Expression::Missing,
        }
    } else if k == SyntaxKind::VariableReference {
        match name_token(t, n) {
            Some(tok) => e matches Expression::VariableRef { name } && match name {
                ResolvedIdent::Local(id) => spec_resolve(res, tok.text@) is None && names_text(
                    names,
                    id,
                    tok.text@,
                ),
                ResolvedIdent::External { module_id, name: id } => spec_resolve(res, tok.text@)
                    == Some(module_id) && names_text(names, id, tok.text@),
            },
            None => e == Expression::Missing,
        }
    } else if k == SyntaxKind::BlockExpression {
        block_shape(t, o, names, n, e)
    } else if k == SyntaxKind::IfExpression {
        e matches Expression::If { condition, then_branch, else_branch } && made_from(
            o,
            condition,
            first_expr(t, n),
        ) && made_from(o, then_branch, first_node_of(t, n, SyntaxKind::BlockExpression))
            && opt_made_from(
            o,
            else_branch,
            else_branch_node(t, nodes_where(t, t.children_of(n), KindClass::Any)),
        )
    } else if k == SyntaxKind::LoopExpression {
        e matches Expression::Loop { label, body } && names_token(names, label, name_token(t, n))
            && made_from(o, body, first_node_of(t, n, SyntaxKind::BlockExpression))
    } else if k == SyntaxKind::WhileExpression {
        e matches Expression::While { condition, label, body } && made_from(
            o,
            condition,
            first_expr(t, n),
        ) && names_token(names, label, name_token(t, n)) && made_from(
            o,
            body,
            first_node_of(t, n, SyntaxKind::BlockExpression),
        )
    } else if k == SyntaxKind::ForExpression {
        e matches Expression::For { binding, iterable, label, body } && names_text(
            names,
            binding,
            match name_token(t, n) {
                Some(tok) => tok.text@,
                None => "_"@,
            },
        ) && made_from(o, iterable, first_expr(t, n)) && names_token(
            names,
            label,
            label_after_colon(t, t.children_of(n), false),
        ) && made_from(o, body, first_node_of(t, n, SyntaxKind::BlockExpression))
    } else if k == SyntaxKind::RangeExpression {
        e matches Expression::Range { start, end } && made_from(
            o,
            start,
            nth_of(expr_children(t, n), 0),
        ) && made_from(o, end, second_expr(t, n))
    } else if k == SyntaxKind::FunctionExpression || k == SyntaxKind::FunctionDefinition {
        e matches Expression::Function { params, return_type, body, captures } && captures@.len()
            == 0 && function_parts_shape(t, o, names, n, params@, return_type, body)
    } else if k == SyntaxKind::CallExpression {
        e matches Expression::Call { callee, args } && made_from(o, callee, first_expr(t, n))
            && all_made_from(o, args@, drop_one(expr_children(t, n)))
    } else if k == SyntaxKind::ListExpression {
        e matches Expression::List { elements } && all_made_from(o, elements@, expr_children(t, n))
    } else if k == SyntaxKind::TupleExpression {
        e matches Expression::Tuple { elements } && all_made_from(o, elements@, expr_children(t, n))
    } else if k == SyntaxKind::IndexExpression {
        e matches Expression::Index { collection, index } && made_from(
            o,
            collection,
            first_expr(t, n),
        ) && made_from(o, index, second_expr(t, n))
    } else if k == SyntaxKind::SliceExpression {
        e matches Expression::Slice { collection, start, end } && made_from(
            o,
            collection,
            first_expr(t, n),
        ) && opt_made_from(o, start, slice_start_expr(t, n)) && opt_made_from(
            o,
            end,
            slice_end_expr(t, n),
        )
    } else if k == SyntaxKind::TupleAccessExpression {
        e matches Expression::TupleAccess { tuple, index } && made_from(o, tuple, first_expr(t, n))
            && index == tuple_field(t, n)
    } else {
        false
    }
}

/// The expression lowered from an optional node: missing for an absent node
/// (or empty parentheses), else the lowering of the node it stands for.
pub open spec fn expr_matches(
    t: SyntaxTree,
    o: Seq<Option<usize>>,
    names: Seq<Seq<char>>,
    res: Option<ResolutionData>,
    n: Option<usize>,
    e: Expression,
) -> bool {
    match unparen(t, n) {
        None => e == Expression::Missing,
        Some(m) => expr_shape(t, o, names, res, m, e),
    }
}

/// The range of an optional node (empty at zero for an absent one).
pub open spec fn node_span(t: SyntaxTree, n: Option<usize>) -> TextRange {
    match n {
        Some(j) => t.nodes@[j as int].range,
        None => TextRange { start: 0, end: 0 },
    }
}

/// Each stored expression, with the node `o` says it was made from, is the
/// lowering of that node, and its range is that node's range.
pub open spec fn arena_made_from(
    t: SyntaxTree,
    o: Seq<Option<usize>>,
    names: Seq<Seq<char>>,
    res: Option<ResolutionData>,
    a: Seq<Expression>,
    spans: Seq<TextRange>,
) -> bool {
    &&& o.len() == a.len()
    &&& spans.len() == a.len()
    &&& forall|i: int| 0 <= i < a.len() ==> expr_matches(t, o, names, res, o[i], #[trigger] a[i])
    &&& forall|i: int| 0 <= i < a.len() ==> #[trigger] spans[i] == node_span(t, o[i])
}

/// A top-level item lowered from item node `j`.
pub open spec fn item_shape(
    t: SyntaxTree,
    o: Seq<Option<usize>>,
    names: Seq<Seq<char>>,
    res: Option<ResolutionData>,
    j: usize,
    it: Item,
) -> bool {
    let k = t.kind_of(j);
    if k == SyntaxKind::FunctionDefinition {
        it matches Item::Definition(Definition::Function { name, params, return_type, body }) && (
        name_token(t, j) matches Some(tok) && names_text(names, name, tok.text@))
            && function_parts_shape(t, o, names, j, params@, return_type, body)
    } else if k == SyntaxKind::VariableDefinition {
        it matches Item::Definition(Definition::Variable { name, value }) && (name_token(
            t,
            j,
        ) matches Some(tok) && names_text(names, name, tok.text@)) && expr_matches(
            t,
            o,
            names,
            res,
            first_expr(t, j),
            value,
        )
    } else if k == SyntaxKind::VariableAssignment {
        it matches Item::Assignment { name, value } && (name_token(t, j) matches Some(tok)
            && names_text(names, name, tok.text@)) && expr_matches(
            t,
            o,
            names,
            res,
            first_expr(t, j),
            value,
        )
    } else if k == SyntaxKind::IndexAssignment {
        first_expr(t, j) matches Some(m) && if t.kind_of(m) == SyntaxKind::IndexExpression {
            it matches Item::IndexAssignment { collection, index, value } && made_from(
                o,
                collection,
                first_expr(t, m),
            ) && made_from(o, index, second_expr(t, m)) && expr_matches(
                t,
                o,
                names,
                res,
                second_expr(t, j),
                value,
            )
        } else {
            it == Item::Expression(Expression::Missing)
        }
    } else if k == SyntaxKind::ReturnStatement {
        it matches Item::Expression(Expression::Return { value }) && opt_made_from(
            o,
            value,
            first_expr(t, j),
        )
    } else if k == SyntaxKind::EchoStatement {
        it matches Item::Expression(Expression::Echo { value }) && made_from(
            o,
            value,
            first_expr(t, j),
        )
    } else if k == SyntaxKind::BreakStatement {
        it matches Item::Expression(Expression::Break { label }) && names_token(
            names,
            label,
            name_token(t, j),
        )
    } else if k == SyntaxKind::ContinueStatement {
        it matches Item::Expression(Expression::Continue { label }) && names_token(
            names,
            label,
            name_token(t, j),
        )
    } else {
        it matches Item::Expression(v) && expr_matches(t, o, names, res, Some(j), v)
    }
}

/// The top-level items lowered from the item nodes `ids`, in order.
pub open spec fn items_shape(
    t: SyntaxTree,
    o: Seq<Option<usize>>,
    names: Seq<Seq<char>>,
    res: Option<ResolutionData>,
    ids: Seq<usize>,
    items: Seq<Item>,
) -> bool {
    items.len() == ids.len() && forall|k: int|
        0 <= k < items.len() ==> item_shape(t, o, names, res, ids[k], #[trigger] items[k])
}

/// Node `n` divides, or takes the remainder, by the literal zero.
pub open spec fn divides_by_zero_node(t: SyntaxTree, n: usize) -> bool {
    match first_token_of(t, n, KindClass::InfixOperator) {
        Some(tok) => (spec_infix_op(tok.kind) == Some(InfixOp::Div) || spec_infix_op(tok.kind)
            == Some(InfixOp::DivFloat) || spec_infix_op(tok.kind) == Some(InfixOp::Mod))
            && match second_expr(t, n) {
            Some(j) => zero_literal_node(t, j),
            None => false,
        },
        None => false,
    }
}

/// What lowering node `n` reports by itself: a division or remainder by the
/// literal zero is reported at its divisor, a block without any item that
/// lowers at the block.
pub open spec fn node_report(t: SyntaxTree, n: usize) -> Option<HirError> {
    if t.kind_of(n) == SyntaxKind::InfixExpression && divides_by_zero_node(t, n) {
        Some(HirError::DivisionByZero { span: spec_to_span(t.nodes@[second_expr(t, n).unwrap() as int].range) })
    } else if t.kind_of(n) == SyntaxKind::BlockExpression && block_lowering(
        t,
        nodes_where(t, t.children_of(n), KindClass::Item),
    ).len() == 0 {
        Some(HirError::EmptyBlock { span: spec_to_span(t.nodes@[n as int].range) })
    } else {
        None
    }
}

/// The report of the node that an optional node stands for is among `diags`.
pub open spec fn reported(t: SyntaxTree, n: Option<usize>, diags: Seq<HirError>) -> bool {
    match unparen(t, n) {
        Some(m) => match node_report(t, m) {
            Some(d) => diags.contains(d),
            None => true,
        },
        None => true,
    }
}

/// Every stored expression's node has its report among `diags`.
pub open spec fn arena_reported(t: SyntaxTree, o: Seq<Option<usize>>, diags: Seq<HirError>) -> bool {
    forall|i: int| 0 <= i < o.len() ==> reported(t, #[trigger] o[i], diags)
}

/// The node whose lowering a top-level item holds directly (not stored in
/// the arena): the value of a definition or assignment, or the item itself
/// when it is an expression.
pub open spec fn item_value_node(t: SyntaxTree, j: usize) -> Option<usize> {
    let k = t.kind_of(j);
    if k == SyntaxKind::VariableDefinition || k == SyntaxKind::VariableAssignment {
        first_expr(t, j)
    } else if k == SyntaxKind::IndexAssignment {
        second_expr(t, j)
    } else if is_expression_kind(k) {
        Some(j)
    } else {
        None
    }
}

/// A diagnostic that some node of the tree warrants: a division by zero or
/// an empty block where `node_report` says so; a `break` or `continue` out of
/// place at a `break` or `continue` node; an unknown label at such a node,
/// with the text of the node's label.
pub open spec fn diag_warranted(t: SyntaxTree, d: HirError) -> bool {
    match d {
        HirError::DivisionByZero { .. } => exists|m: usize|
            m < t.nodes@.len() && #[trigger] node_report(t, m) == Some(d),
        HirError::EmptyBlock { .. } => exists|m: usize|
            m < t.nodes@.len() && #[trigger] node_report(t, m) == Some(d),
        HirError::BreakOutsideLoop { span } => exists|j: usize|
            j < t.nodes@.len() && t.kind_of(j) == SyntaxKind::BreakStatement && span == spec_to_span(
                #[trigger] t.nodes@[j as int].range,
            ),
        HirError::ContinueOutsideLoop { span } => exists|j: usize|
            j < t.nodes@.len() && t.kind_of(j) == SyntaxKind::ContinueStatement && span
                == spec_to_span(#[trigger] t.nodes@[j as int].range),
        HirError::UnknownLoopLabel { label, span } => exists|j: usize|
            j < t.nodes@.len() && (t.kind_of(j) == SyntaxKind::BreakStatement || t.kind_of(j)
                == SyntaxKind::ContinueStatement) && span == spec_to_span(
                #[trigger] t.nodes@[j as int].range,
            ) && (name_token(t, j) matches Some(tok) && label@ == tok.text@),
    }
}

/// Every diagnostic of `diags` is warranted by some node.
pub open spec fn all_warranted(t: SyntaxTree, diags: Seq<HirError>) -> bool {
    forall|k: int| 0 <= k < diags.len() ==> diag_warranted(t, #[trigger] diags[k])
}

/// A diagnostic stays among the diagnostics as more are added.
pub(crate) proof fn lemma_contains_extends(a: Seq<HirError>, b: Seq<HirError>, d: HirError)
    requires
        a.contains(d),
        extends(a, b),
    ensures
        b.contains(d),
{
    let i = choose|i: int| 0 <= i < a.len() && a[i] == d;
    assert(b[i] == a[i]);
}

/// Reports stay made as more diagnostics are added.
pub(crate) proof fn lemma_reported_extends(t: SyntaxTree, n: Option<usize>, a: Seq<HirError>, b: Seq<HirError>)
    requires
        reported(t, n, a),
        extends(a, b),
    ensures
        reported(t, n, b),
{
    if let Some(m) = unparen(t, n) {
        if let Some(d) = node_report(t, m) {
            lemma_contains_extends(a, b, d);
        }
    }
}

/// The same for the whole arena.
pub(crate) proof fn lemma_arena_reported_extends(t: SyntaxTree, o: Seq<Option<usize>>, a: Seq<HirError>, b: Seq<HirError>)
    requires
        arena_reported(t, o, a),
        extends(a, b),
    ensures
        arena_reported(t, o, b),
{
    assert forall|i: int| 0 <= i < o.len() implies reported(t, #[trigger] o[i], b) by {
        lemma_reported_extends(t, o[i], a, b);
    }
}

/// The text of an optional string.
pub open spec fn opt_text(s: Option<String>) -> Option<Seq<char>> {
    match s {
        Some(x) => Some(x@),
        None => None,
    }
}

/// A symbol event that some node of the tree warrants: a definition at a
/// function or variable definition, with the node's range, the text and
/// range of its name token and its doc comment; a reference at a variable
/// reference or assignment, with the text and range of its name token.
pub open spec fn event_warranted(t: SyntaxTree, ev: SymbolEvent) -> bool {
    match ev {
        SymbolEvent::Define { name, def_span, name_span, doc_comment } => exists|j: usize|
            j < t.nodes@.len() && (t.kind_of(j) == SyntaxKind::FunctionDefinition || t.kind_of(j)
                == SyntaxKind::VariableDefinition) && def_span == #[trigger] t.nodes@[j as int].range
                && (name_token(t, j) matches Some(tok) && name@ == tok.text@ && name_span
                == tok.range) && opt_text(doc_comment) == spec_doc_comment(t.children_of(j)),
        SymbolEvent::Reference { name, span } => exists|j: usize|
            j < t.nodes@.len() && (t.kind_of(j) == SyntaxKind::VariableReference || t.kind_of(j)
                == SyntaxKind::VariableAssignment) && ((#[trigger] name_token(t, j)) matches Some(
                tok,
            ) && name@ == tok.text@ && span == tok.range),
        _ => true,
    }
}

/// Some event of `evs` is a reference to `text` at `span`.
pub open spec fn has_reference(evs: Seq<SymbolEvent>, text: Seq<char>, span: TextRange) -> bool {
    exists|k: int|
        0 <= k < evs.len() && (#[trigger] evs[k] matches SymbolEvent::Reference { name, span: s }
            && name@ == text && s == span)
}

/// Some event of `evs` is the definition made by the named node `j`: its
/// name token's text and range, the node's range and its doc comment.
pub open spec fn has_definition(t: SyntaxTree, evs: Seq<SymbolEvent>, j: usize) -> bool {
    exists|k: int|
        0 <= k < evs.len() && (#[trigger] evs[k] matches SymbolEvent::Define {
            name,
            def_span,
            name_span,
            doc_comment,
        } && (name_token(t, j) matches Some(tok) && name@ == tok.text@ && name_span == tok.range)
            && def_span == t.nodes@[j as int].range && opt_text(doc_comment) == spec_doc_comment(
            t.children_of(j),
        ))
}

/// The events that lowering item node `j` records: a named definition its
/// definition, a named assignment a reference to its name.
pub open spec fn item_events_recorded(t: SyntaxTree, j: usize, evs: Seq<SymbolEvent>) -> bool {
    let k = t.kind_of(j);
    &&& (k == SyntaxKind::FunctionDefinition || k == SyntaxKind::VariableDefinition) ==> (
    name_token(t, j) is Some ==> has_definition(t, evs, j))
    &&& k == SyntaxKind::VariableAssignment ==> match name_token(t, j) {
        Some(tok) => has_reference(evs, tok.text@, tok.range),
        None => true,
    }
}

/// The events that lowering node `m` records by itself: a named variable
/// reference a reference to its name, a named function definition its
/// definition, a block those of its items that lower.
pub open spec fn node_events_recorded(t: SyntaxTree, m: usize, evs: Seq<SymbolEvent>) -> bool {
    let k = t.kind_of(m);
    if k == SyntaxKind::VariableReference {
        match name_token(t, m) {
            Some(tok) => has_reference(evs, tok.text@, tok.range),
            None => true,
        }
    } else if k == SyntaxKind::FunctionDefinition {
        name_token(t, m) is Some ==> has_definition(t, evs, m)
    } else if k == SyntaxKind::BlockExpression {
        let l = block_lowering(t, nodes_where(t, t.children_of(m), KindClass::Item));
        forall|q: int| 0 <= q < l.len() ==> item_events_recorded(t, #[trigger] l[q], evs)
    } else {
        true
    }
}

/// The events of the node that an optional node stands for are among `evs`.
pub open spec fn recorded(t: SyntaxTree, n: Option<usize>, evs: Seq<SymbolEvent>) -> bool {
    match unparen(t, n) {
        Some(m) => node_events_recorded(t, m, evs),
        None => true,
    }
}

/// Every stored expression's node has its events among `evs`.
pub open spec fn arena_recorded(t: SyntaxTree, o: Seq<Option<usize>>, evs: Seq<SymbolEvent>) -> bool {
    forall|i: int| 0 <= i < o.len() ==> recorded(t, #[trigger] o[i], evs)
}

/// A reference event stays as more events are added.
pub(crate) proof fn lemma_has_reference_extends(a: Seq<SymbolEvent>, b: Seq<SymbolEvent>, text: Seq<char>, span: TextRange)
    requires
        has_reference(a, text, span),
        extends(a, b),
    ensures
        has_reference(b, text, span),
{
    let w = choose|w: int| 0 <= w < a.len() && (#[trigger] a[w] matches SymbolEvent::Reference { name, span: s }
        && name@ == text && s == span);
    assert(b[w] == a[w]);
}

/// A definition event stays as more events are added.
pub(crate) proof fn lemma_has_definition_extends(t: SyntaxTree, a: Seq<SymbolEvent>, b: Seq<SymbolEvent>, j: usize)
    requires
        has_definition(t, a, j),
        extends(a, b),
    ensures
        has_definition(t, b, j),
{
    let w = choose|w: int| 0 <= w < a.len() && (#[trigger] a[w] matches SymbolEvent::Define {
        name,
        def_span,
        name_span,
        doc_comment,
    } && (name_token(t, j) matches Some(tok) && name@ == tok.text@ && name_span == tok.range)
        && def_span == t.nodes@[j as int].range && opt_text(doc_comment) == spec_doc_comment(
        t.children_of(j),
    ));
    assert(b[w] == a[w]);
}

/// An item's events stay as more events are added.
pub(crate) proof fn lemma_item_events_extends(t: SyntaxTree, j: usize, a: Seq<SymbolEvent>, b: Seq<SymbolEvent>)
    requires
        item_events_recorded(t, j, a),
        extends(a, b),
    ensures
        item_events_recorded(t, j, b),
{
    let k = t.kind_of(j);
    if (k == SyntaxKind::FunctionDefinition || k == SyntaxKind::VariableDefinition) && name_token(t, j) is Some {
        let w = choose|w: int| 0 <= w < a.len() && (#[trigger] a[w] matches SymbolEvent::Define {
            name,
            def_span,
            name_span,
            doc_comment,
        } && (name_token(t, j) matches Some(tok) && name@ == tok.text@ && name_span == tok.range)
            && def_span == t.nodes@[j as int].range && opt_text(doc_comment) == spec_doc_comment(
            t.children_of(j),
        ));
        assert(b[w] == a[w]);
    }
    if k == SyntaxKind::VariableAssignment {
        if let Some(tok) = name_token(t, j) {
            let w = choose|w: int| 0 <= w < a.len() && (#[trigger] a[w] matches SymbolEvent::Reference { name, span: s }
                && name@ == tok.text@ && s == tok.range);
            assert(b[w] == a[w]);
        }
    }
}

/// A node's events stay as more events are added.
pub(crate) proof fn lemma_recorded_extends(t: SyntaxTree, n: Option<usize>, a: Seq<SymbolEvent>, b: Seq<SymbolEvent>)
    requires
        recorded(t, n, a),
        extends(a, b),
    ensures
        recorded(t, n, b),
{
    if let Some(m) = unparen(t, n) {
        let k = t.kind_of(m);
        if k == SyntaxKind::VariableReference {
            if let Some(tok) = name_token(t, m) {
                let w = choose|w: int| 0 <= w < a.len() && (#[trigger] a[w] matches SymbolEvent::Reference { name, span: s }
                    && name@ == tok.text@ && s == tok.range);
                assert(b[w] == a[w]);
            }
        } else if k == SyntaxKind::FunctionDefinition {
            if name_token(t, m) is Some {
                let w = choose|w: int| 0 <= w < a.len() && (#[trigger] a[w] matches SymbolEvent::Define {
                    name,
                    def_span,
                    name_span,
                    doc_comment,
                } && (name_token(t, m) matches Some(tok) && name@ == tok.text@ && name_span == tok.range)
                    && def_span == t.nodes@[m as int].range && opt_text(doc_comment) == spec_doc_comment(
                    t.children_of(m),
                ));
                assert(b[w] == a[w]);
            }
        } else if k == SyntaxKind::BlockExpression {
            let l = block_lowering(t, nodes_where(t, t.children_of(m), KindClass::Item));
            assert forall|q: int| 0 <= q < l.len() implies item_events_recorded(t, #[trigger] l[q], b) by {
                lemma_item_events_extends(t, l[q], a, b);
            }
        }
    }
}

/// The events of every stored expression's node stay as more are added.
pub(crate) proof fn lemma_arena_recorded_extends(t: SyntaxTree, o: Seq<Option<usize>>, a: Seq<SymbolEvent>, b: Seq<SymbolEvent>)
    requires
        arena_recorded(t, o, a),
        extends(a, b),
    ensures
        arena_recorded(t, o, b),
{
    assert forall|i: int| 0 <= i < o.len() implies recorded(t, #[trigger] o[i], b) by {
        lemma_recorded_extends(t, o[i], a, b);
    }
}

/// Every event of `evs` is warranted by some node.
pub open spec fn events_warranted(t: SyntaxTree, evs: Seq<SymbolEvent>) -> bool {
    forall|k: int| 0 <= k < evs.len() ==> event_warranted(t, #[trigger] evs[k])
}

/// The number of scopes that the events open and leave open: each scope
/// push counts one, each pop minus one.
pub open spec fn scope_depth(evs: Seq<SymbolEvent>) -> int
    decreases evs.len(),
{
    if evs.len() == 0 {
        0
    } else {
        scope_depth(evs.drop_last()) + match evs.last() {
            SymbolEvent::PushScope => 1int,
            SymbolEvent::PopScope => -1int,
            _ => 0int,
        }
    }
}

/// No prefix of the events pops a scope that it did not push.
pub open spec fn scopes_nested(evs: Seq<SymbolEvent>) -> bool {
    forall|i: int| 0 <= i <= evs.len() ==> scope_depth(#[trigger] evs.take(i)) >= 0
}

/// Adding an event keeps the scopes nested when it does not pop a scope
/// that is not open.
pub(crate) proof fn lemma_scopes_push(evs: Seq<SymbolEvent>, e: SymbolEvent)
    requires
        scopes_nested(evs),
        e is PopScope ==> scope_depth(evs) >= 1,
    ensures
        scopes_nested(evs.push(e)),
        scope_depth(evs.push(e)) == scope_depth(evs) + match e {
            SymbolEvent::PushScope => 1int,
            SymbolEvent::PopScope => -1int,
            _ => 0int,
        },
{
    let n = evs.push(e);
    assert(n.drop_last() =~= evs);
    assert forall|i: int| 0 <= i <= n.len() implies scope_depth(#[trigger] n.take(i)) >= 0 by {
        if i <= evs.len() {
            assert(n.take(i) =~= evs.take(i));
        } else {
            assert(n.take(i) =~= n);
            assert(evs.take(evs.len() as int) =~= evs);
        }
    }
}

/// `b` keeps every element of `a` at its position.
pub open spec fn extends<T>(a: Seq<T>, b: Seq<T>) -> bool {
    a.len() <= b.len() && forall|i: int| 0 <= i < a.len() ==> #[trigger] b[i] == a[i]
}

/// A lowered parameter stays one as more expressions are stored and more
/// names interned.
pub(crate) proof fn lemma_param_shape_mono(
    t: SyntaxTree,
    o1: Seq<Option<usize>>,
    o2: Seq<Option<usize>>,
    n1: Seq<Seq<char>>,
    n2: Seq<Seq<char>>,
    p: usize,
    fp: FunctionParam,
)
    requires
        extends(o1, o2),
        extends(n1, n2),
        param_shape(t, o1, n1, p, fp),
    ensures
        param_shape(t, o2, n2, p, fp),
{
}

/// The same for a parameter list.
pub(crate) proof fn lemma_params_shape_mono(
    t: SyntaxTree,
    o1: Seq<Option<usize>>,
    o2: Seq<Option<usize>>,
    n1: Seq<Seq<char>>,
    n2: Seq<Seq<char>>,
    list: Option<usize>,
    ps: Seq<FunctionParam>,
)
    requires
        extends(o1, o2),
        extends(n1, n2),
        params_shape(t, o1, n1, list, ps),
    ensures
        params_shape(t, o2, n2, list, ps),
{
    if let Some(l) = list {
        let pn = named_params(t, nodes_where(t, t.children_of(l), KindClass::Exactly(SyntaxKind::Parameter)));
        assert forall|k: int| 0 <= k < ps.len() implies param_shape(t, o2, n2, pn[k], #[trigger] ps[k]) by {
            assert(param_shape(t, o1, n1, pn[k], ps[k]));
        }
    }
}

/// The same for the items of a block.
pub(crate) proof fn lemma_block_items_mono(
    t: SyntaxTree,
    o1: Seq<Option<usize>>,
    o2: Seq<Option<usize>>,
    n1: Seq<Seq<char>>,
    n2: Seq<Seq<char>>,
    ids: Seq<usize>,
    items: Seq<BlockItem>,
)
    requires
        extends(o1, o2),
        extends(n1, n2),
        block_items_shape(t, o1, n1, ids, items),
    ensures
        block_items_shape(t, o2, n2, ids, items),
{
    assert forall|k: int| 0 <= k < items.len() implies block_item_shape(t, o2, n2, ids[k], #[trigger] items[k]) by {
        assert(block_item_shape(t, o1, n1, ids[k], items[k]));
    }
}

/// The lowering of a node stays its lowering when more expressions are
/// stored and more names interned.
pub(crate) proof fn lemma_expr_shape_mono(
    t: SyntaxTree,
    o1: Seq<Option<usize>>,
    o2: Seq<Option<usize>>,
    n1: Seq<Seq<char>>,
    n2: Seq<Seq<char>>,
    res: Option<ResolutionData>,
    n: usize,
    e: Expression,
)
    requires
        extends(o1, o2),
        extends(n1, n2),
        expr_shape(t, o1, n1, res, n, e),
    ensures
        expr_shape(t, o2, n2, res, n, e),
{
    let k = t.kind_of(n);
    if k == SyntaxKind::BlockExpression {
        let l = block_lowering(t, nodes_where(t, t.children_of(n), KindClass::Item));
        if let Expression::Block { items, tail } = e {
            if l.len() > 0 && is_expression_kind(t.kind_of(l.last())) {
                lemma_block_items_mono(t, o1, o2, n1, n2, l.drop_last(), items@);
            } else {
                lemma_block_items_mono(t, o1, o2, n1, n2, l, items@);
            }
        }
    } else if k == SyntaxKind::FunctionExpression || k == SyntaxKind::FunctionDefinition {
        if let Expression::Function { params, .. } = e {
            lemma_params_shape_mono(t, o1, o2, n1, n2, first_node_of(t, n, SyntaxKind::ParameterList), params@);
        }
    } else if k == SyntaxKind::CallExpression {
        if let Expression::Call { args, .. } = e {
            assert forall|q: int| 0 <= q < args@.len() implies made_from(o2, #[trigger] args@[q], Some(drop_one(expr_children(t, n))[q])) by {
                assert(made_from(o1, args@[q], Some(drop_one(expr_children(t, n))[q])));
            }
        }
    } else if k == SyntaxKind::ListExpression {
        if let Expression::List { elements } = e {
            assert forall|q: int| 0 <= q < elements@.len() implies made_from(o2, #[trigger] elements@[q], Some(expr_children(t, n)[q])) by {
                assert(made_from(o1, elements@[q], Some(expr_children(t, n)[q])));
            }
        }
    } else if k == SyntaxKind::TupleExpression {
        if let Expression::Tuple { elements } = e {
            assert forall|q: int| 0 <= q < elements@.len() implies made_from(o2, #[trigger] elements@[q], Some(expr_children(t, n)[q])) by {
                assert(made_from(o1, elements@[q], Some(expr_children(t, n)[q])));
            }
        }
    }
}

/// The same for an optional node.
pub(crate) proof fn lemma_expr_matches_mono(
    t: SyntaxTree,
    o1: Seq<Option<usize>>,
    o2: Seq<Option<usize>>,
    n1: Seq<Seq<char>>,
    n2: Seq<Seq<char>>,
    res: Option<ResolutionData>,
    n: Option<usize>,
    e: Expression,
)
    requires
        extends(o1, o2),
        extends(n1, n2),
        expr_matches(t, o1, n1, res, n, e),
    ensures
        expr_matches(t, o2, n2, res, n, e),
{
    if let Some(m) = unparen(t, n) {
        lemma_expr_shape_mono(t, o1, o2, n1, n2, res, m, e);
    }
}

/// The same for a top-level item.
pub(crate) proof fn lemma_item_shape_mono(
    t: SyntaxTree,
    o1: Seq<Option<usize>>,
    o2: Seq<Option<usize>>,
    n1: Seq<Seq<char>>,
    n2: Seq<Seq<char>>,
    res: Option<ResolutionData>,
    j: usize,
    it: Item,
)
    requires
        extends(o1, o2),
        extends(n1, n2),
        item_shape(t, o1, n1, res, j, it),
    ensures
        item_shape(t, o2, n2, res, j, it),
{
    let k = t.kind_of(j);
    if k == SyntaxKind::FunctionDefinition {
        if let Item::Definition(Definition::Function { params, .. }) = it {
            lemma_params_shape_mono(t, o1, o2, n1, n2, first_node_of(t, j, SyntaxKind::ParameterList), params@);
        }
    } else if k == SyntaxKind::VariableDefinition {
        if let Item::Definition(Definition::Variable { value, .. }) = it {
            lemma_expr_matches_mono(t, o1, o2, n1, n2, res, first_expr(t, j), value);
        }
    } else if k == SyntaxKind::VariableAssignment {
        if let Item::Assignment { value, .. } = it {
            lemma_expr_matches_mono(t, o1, o2, n1, n2, res, first_expr(t, j), value);
        }
    } else if k == SyntaxKind::IndexAssignment {
        if let Item::IndexAssignment { value, .. } = it {
            lemma_expr_matches_mono(t, o1, o2, n1, n2, res, second_expr(t, j), value);
        }
    } else if k == SyntaxKind::ReturnStatement || k == SyntaxKind::EchoStatement
        || k == SyntaxKind::BreakStatement || k == SyntaxKind::ContinueStatement {
    } else {
        if let Item::Expression(v) = it {
            lemma_expr_matches_mono(t, o1, o2, n1, n2, res, Some(j), v);
        }
    }
}

/// The arena keeps its lowering when more names are interned.
pub(crate) proof fn lemma_arena_names_mono(
    t: SyntaxTree,
    o: Seq<Option<usize>>,
    n1: Seq<Seq<char>>,
    n2: Seq<Seq<char>>,
    res: Option<ResolutionData>,
    a: Seq<Expression>,
    spans: Seq<TextRange>,
)
    requires
        extends(n1, n2),
        arena_made_from(t, o, n1, res, a, spans),
    ensures
        arena_made_from(t, o, n2, res, a, spans),
{
    assert forall|i: int| 0 <= i < a.len() implies expr_matches(t, o, n2, res, o[i], #[trigger] a[i]) by {
        lemma_expr_matches_mono(t, o, o, n1, n2, res, o[i], a[i]);
    }
}

/// Storing an expression lowered from node `n`, with the range of `n`, keeps
/// the arena's lowering.
pub(crate) proof fn lemma_arena_push(
    t: SyntaxTree,
    o: Seq<Option<usize>>,
    names: Seq<Seq<char>>,
    res: Option<ResolutionData>,
    a: Seq<Expression>,
    spans: Seq<TextRange>,
    n: Option<usize>,
    e: Expression,
)
    requires
        arena_made_from(t, o, names, res, a, spans),
        expr_matches(t, o, names, res, n, e),
    ensures
        arena_made_from(t, o.push(n), names, res, a.push(e), spans.push(node_span(t, n))),
{
    let o2 = o.push(n);
    assert(extends(o, o2));
    assert(extends(names, names));
    assert forall|i: int| 0 <= i < a.len() + 1 implies expr_matches(t, o2, names, res, o2[i], #[trigger] a.push(e)[i]) by {
        if i < a.len() {
            lemma_expr_matches_mono(t, o, o2, names, names, res, o[i], a[i]);
        } else {
            lemma_expr_matches_mono(t, o, o2, names, names, res, n, e);
        }
    }
    assert forall|i: int| 0 <= i < a.len() + 1 implies #[trigger] spans.push(node_span(t, n))[i] == node_span(t, o2[i]) by {
        if i < a.len() {
            assert(spans[i] == node_span(t, o[i]));
        }
    }
}

} // verus!
