use toy_lang::combine::{build_combined_hir, remap_block_item, remap_expression, remap_idx, remap_item, split_expression_types};
use toy_lang::cst::TextRange;
use toy_lang::hir::{BlockItem, Definition, ExprIdx, Expression, FunctionParam, Ident, InfixOp, Item, Literal};
use toy_lang::hir_lower::{LowerItemResult, SymbolEvent};

fn range(start: u32, end: u32) -> TextRange {
    TextRange { start, end }
}

#[test]
fn remap_idx_adds_offset() {
    assert_eq!(remap_idx(ExprIdx(3), 4), ExprIdx(7));
    assert_eq!(remap_idx(ExprIdx(0), 0), ExprIdx(0));
}

#[test]
fn remap_idx_wraps_at_32_bits() {
    assert_eq!(remap_idx(ExprIdx(0xFFFF_FFFF), 1), ExprIdx(0));
    assert_eq!(remap_idx(ExprIdx(5), 0x1_0000_0002), ExprIdx(7));
}

#[test]
fn remap_expression_shifts_every_index() {
    let e = Expression::Infix { op: InfixOp::Add, lhs: ExprIdx(0), rhs: ExprIdx(1) };
    assert_eq!(remap_expression(&e, 10), Expression::Infix { op: InfixOp::Add, lhs: ExprIdx(10), rhs: ExprIdx(11) });

    let call = Expression::Call { callee: ExprIdx(2), args: vec![ExprIdx(0), ExprIdx(1)] };
    assert_eq!(remap_expression(&call, 3), Expression::Call { callee: ExprIdx(5), args: vec![ExprIdx(3), ExprIdx(4)] });

    let lit = Expression::Literal(Literal::String("hi".to_string()));
    assert_eq!(remap_expression(&lit, 7), lit);

    let f = Expression::Function {
        params: vec![FunctionParam { name: Ident(0), ty: None, default: Some(ExprIdx(1)) }],
        return_type: Some(Ident(1)),
        body: ExprIdx(2),
        captures: vec![Ident(3)],
    };
    assert_eq!(
        remap_expression(&f, 1),
        Expression::Function {
            params: vec![FunctionParam { name: Ident(0), ty: None, default: Some(ExprIdx(2)) }],
            return_type: Some(Ident(1)),
            body: ExprIdx(3),
            captures: vec![Ident(3)],
        }
    );

    let block = Expression::Block { items: vec![BlockItem::Expression(ExprIdx(0)), BlockItem::Break { label: None }], tail: Some(ExprIdx(1)) };
    assert_eq!(
        remap_expression(&block, 2),
        Expression::Block { items: vec![BlockItem::Expression(ExprIdx(2)), BlockItem::Break { label: None }], tail: Some(ExprIdx(3)) }
    );
}

#[test]
fn remap_block_item_shifts_indices() {
    let it = BlockItem::IndexAssignment { collection: ExprIdx(0), index: ExprIdx(1), value: ExprIdx(2) };
    assert_eq!(remap_block_item(&it, 5), BlockItem::IndexAssignment { collection: ExprIdx(5), index: ExprIdx(6), value: ExprIdx(7) });
    assert_eq!(remap_block_item(&BlockItem::Return { value: None }, 5), BlockItem::Return { value: None });
}

#[test]
fn remap_item_shifts_indices() {
    let it = Item::Definition(Definition::Variable {
        name: Ident(0),
        value: Expression::Prefix { op: toy_lang::hir::PrefixOp::Neg, expr: ExprIdx(0) },
    });
    assert_eq!(
        remap_item(&it, 2),
        Item::Definition(Definition::Variable { name: Ident(0), value: Expression::Prefix { op: toy_lang::hir::PrefixOp::Neg, expr: ExprIdx(2) } })
    );
    let f = Item::Definition(Definition::Function { name: Ident(1), params: vec![], return_type: None, body: ExprIdx(4) });
    assert_eq!(remap_item(&f, 1), Item::Definition(Definition::Function { name: Ident(1), params: vec![], return_type: None, body: ExprIdx(5) }));
}

fn item_result(item: Item, expressions: Vec<Expression>, name: &str) -> LowerItemResult {
    let n = expressions.len() as u32;
    LowerItemResult {
        item,
        expr_spans: (0..n).map(|i| range(i, i + 1)).collect(),
        expressions,
        item_span: range(0, n),
        symbols: vec![SymbolEvent::Reference { name: name.to_string(), span: range(0, 1) }],
        diagnostics: vec![],
    }
}

#[test]
fn combined_hir_shifts_each_item_by_the_expressions_before_it() {
    let first = item_result(
        Item::Expression(Expression::Infix { op: InfixOp::Mul, lhs: ExprIdx(0), rhs: ExprIdx(1) }),
        vec![Expression::Literal(Literal::Integer(1)), Expression::Literal(Literal::Integer(2))],
        "a",
    );
    let second = item_result(
        Item::Expression(Expression::Echo { value: ExprIdx(1) }),
        vec![Expression::Missing, Expression::Prefix { op: toy_lang::hir::PrefixOp::Not, expr: ExprIdx(0) }],
        "b",
    );
    let combined = build_combined_hir(&vec![first, second]);
    assert_eq!(combined.items.len(), 2);
    assert_eq!(combined.expressions.len(), 4);
    assert_eq!(combined.expr_spans.len(), 4);
    assert_eq!(combined.item_spans, vec![range(0, 2), range(0, 2)]);
    assert_eq!(combined.items[0], Item::Expression(Expression::Infix { op: InfixOp::Mul, lhs: ExprIdx(0), rhs: ExprIdx(1) }));
    assert_eq!(combined.items[1], Item::Expression(Expression::Echo { value: ExprIdx(3) }));
    assert_eq!(combined.expressions[3], Expression::Prefix { op: toy_lang::hir::PrefixOp::Not, expr: ExprIdx(2) });
    assert_eq!(combined.expr_spans[3], range(1, 2));
    assert_eq!(combined.symbols.len(), 2);
    assert!(combined.diagnostics.is_empty());
    assert_eq!(combined.interner.len(), 0);
    for (i, e) in combined.expressions.iter().enumerate() {
        if let Expression::Prefix { expr, .. } = e {
            assert!(expr.0 < i);
        }
    }
}

#[test]
fn combined_hir_of_nothing_is_empty() {
    let combined = build_combined_hir(&vec![]);
    assert!(combined.items.is_empty());
    assert!(combined.expressions.is_empty());
}

#[test]
fn remap_by_zero_changes_nothing() {
    let block = Expression::Block { items: vec![BlockItem::Expression(ExprIdx(0)), BlockItem::Return { value: Some(ExprIdx(4)) }], tail: Some(ExprIdx(1)) };
    assert_eq!(remap_expression(&block, 0), block);
    let call = Expression::Call { callee: ExprIdx(0xFFFF_FFFF), args: vec![ExprIdx(0), ExprIdx(9)] };
    assert_eq!(remap_expression(&call, 0), call);
}

#[test]
fn remap_twice_is_remap_by_the_sum() {
    let call = Expression::Call { callee: ExprIdx(2), args: vec![ExprIdx(0), ExprIdx(0xFFFF_FFF0)] };
    let twice = remap_expression(&remap_expression(&call, 7), 20);
    assert_eq!(twice, remap_expression(&call, 27));
    assert_eq!(twice, Expression::Call { callee: ExprIdx(29), args: vec![ExprIdx(27), ExprIdx(11)] });
}

#[test]
fn split_expression_types_gives_each_item_its_own_types() {
    let first = item_result(Item::Expression(Expression::Missing), vec![Expression::Missing, Expression::Missing], "a");
    let second = item_result(Item::Expression(Expression::Missing), vec![Expression::Missing, Expression::Missing, Expression::Missing], "b");
    let types: Vec<Option<char>> = vec![Some('i'), None, Some('s'), Some('b')];
    let split = split_expression_types(&vec![first, second], &types);
    assert_eq!(split.len(), 2);
    assert_eq!(split[0], vec![Some('i'), None]);
    assert_eq!(split[1], vec![Some('s'), Some('b'), None]);
}
