use toy_lang::ast::Root;
use toy_lang::cst::{SyntaxKind, SyntaxTree, TreeBuilder};
use toy_lang::hir_lower::{lower, LowerResult};
use toy_lang::mir::{Inst, Operand};
use toy_lang::mir_lower;

enum T {
    N(SyntaxKind, Vec<T>),
    K(SyntaxKind, &'static str),
}

fn n(kind: SyntaxKind, children: Vec<T>) -> T {
    T::N(kind, children)
}

fn k(kind: SyntaxKind, text: &'static str) -> T {
    T::K(kind, text)
}

fn ws() -> T {
    k(SyntaxKind::Whitespace, " ")
}

fn walk(b: &mut TreeBuilder, t: &T) {
    match t {
        T::N(kind, children) => {
            b.start_node(*kind);
            for c in children {
                walk(b, c);
            }
            b.finish_node();
        }
        T::K(kind, text) => b.token(*kind, text),
    }
}

fn build(items: Vec<T>) -> SyntaxTree {
    let mut b = TreeBuilder::new();
    walk(&mut b, &n(SyntaxKind::Root, items));
    b.finish()
}

fn int_lit(text: &'static str) -> T {
    n(SyntaxKind::Literal, vec![ws(), k(SyntaxKind::Integer, text)])
}

fn float(text: &'static str) -> T {
    n(SyntaxKind::Literal, vec![ws(), k(SyntaxKind::Float, text)])
}

fn var(name: &'static str) -> T {
    n(SyntaxKind::VariableReference, vec![ws(), k(SyntaxKind::Identifier, name)])
}

fn def(name: &'static str, value: Option<T>) -> T {
    let mut cs = vec![
        k(SyntaxKind::Identifier, name),
        ws(),
        k(SyntaxKind::Colon, ":"),
        k(SyntaxKind::Equals, "="),
    ];
    if let Some(v) = value {
        cs.push(v);
    }
    n(SyntaxKind::VariableDefinition, cs)
}

fn infix(lhs: T, op: SyntaxKind, text: &'static str, rhs: Option<T>) -> T {
    let mut cs = vec![lhs, ws(), k(op, text)];
    if let Some(r) = rhs {
        cs.push(r);
    }
    n(SyntaxKind::InfixExpression, cs)
}


fn ident(name: &'static str) -> T {
    k(SyntaxKind::Identifier, name)
}

fn nl() -> T {
    k(SyntaxKind::NewLine, "\n")
}

fn lit(kind: SyntaxKind, text: &'static str) -> T {
    n(SyntaxKind::Literal, vec![ws(), k(kind, text)])
}

fn assign(name: &'static str, value: T) -> T {
    n(SyntaxKind::VariableAssignment, vec![ident(name), ws(), k(SyntaxKind::Equals, "="), value])
}

fn prefix(op: SyntaxKind, text: &'static str, operand: Option<T>) -> T {
    let mut cs = vec![ws(), k(op, text)];
    if let Some(o) = operand {
        cs.push(o);
    }
    n(SyntaxKind::PrefixExpression, cs)
}

fn paren(inner: T, closed: bool) -> T {
    let mut cs = vec![ws(), k(SyntaxKind::LeftParenthesis, "("), inner];
    if closed {
        cs.push(k(SyntaxKind::RightParenthesis, ")"));
    }
    n(SyntaxKind::ParenthesisExpression, cs)
}

fn block(items: Vec<T>) -> T {
    let mut cs = vec![ws(), k(SyntaxKind::LeftBrace, "{")];
    cs.extend(items);
    cs.push(ws());
    cs.push(k(SyntaxKind::RightBrace, "}"));
    n(SyntaxKind::BlockExpression, cs)
}

fn param(name: &'static str, default: Option<T>) -> T {
    let mut cs = vec![ws(), ident(name)];
    if let Some(d) = default {
        cs.push(ws());
        cs.push(k(SyntaxKind::Equals, "="));
        cs.push(d);
    }
    n(SyntaxKind::Parameter, cs)
}

fn params(ps: Vec<T>) -> T {
    let mut list = vec![k(SyntaxKind::LeftParenthesis, "(")];
    let count = ps.len();
    for (i, p) in ps.into_iter().enumerate() {
        list.push(p);
        if i + 1 < count {
            list.push(k(SyntaxKind::Comma, ","));
        }
    }
    list.push(k(SyntaxKind::RightParenthesis, ")"));
    n(SyntaxKind::ParameterList, list)
}

fn function(leading: Vec<T>, name: &'static str, ps: Vec<T>, ret: Option<&'static str>, body: T) -> T {
    let mut cs = leading;
    cs.push(k(SyntaxKind::FnKeyword, "fn"));
    cs.push(ws());
    cs.push(ident(name));
    cs.push(params(ps));
    if let Some(r) = ret {
        cs.push(k(SyntaxKind::Colon, ":"));
        cs.push(n(SyntaxKind::TypeAnnotation, vec![ws(), ident(r)]));
    }
    cs.push(body);
    n(SyntaxKind::FunctionDefinition, cs)
}

fn call(callee: T, args: Vec<T>) -> T {
    let mut cs = vec![callee, k(SyntaxKind::LeftParenthesis, "(")];
    let count = args.len();
    for (i, a) in args.into_iter().enumerate() {
        cs.push(a);
        if i + 1 < count {
            cs.push(k(SyntaxKind::Comma, ","));
        }
    }
    cs.push(k(SyntaxKind::RightParenthesis, ")"));
    n(SyntaxKind::CallExpression, cs)
}

fn lower_items(items: Vec<T>) -> LowerResult {
    let tree = build(items);
    let root = Root::cast(&tree, 0).unwrap();
    lower(root)
}


fn hir_of(items: Vec<T>) -> LowerResult {
    lower_items(items)
}

#[test]
fn test_lower_literal() {
    let hir = hir_of(vec![def("x", Some(int_lit("42")))]);
    let module = mir_lower::lower(&hir);
    assert_eq!(module.functions.len(), 1);
    assert_eq!(module.main().local_count, 1);
}

#[test]
fn test_lower_function_def() {
    let body = block(vec![infix(var("a"), SyntaxKind::Plus, "+", Some(var("b")))]);
    let hir = hir_of(vec![function(vec![], "add", vec![param("a", None), param("b", None)], None, body)]);
    let module = mir_lower::lower(&hir);
    assert_eq!(module.functions.len(), 2);
    let add_fn = module.functions.iter().find(|f| f.name.as_deref() == Some("add")).unwrap();
    assert_eq!(add_fn.param_count, 2);
    assert_eq!(add_fn.params.len(), 2);
}

#[test]
fn main_function_comes_last_and_is_named_main() {
    let body = block(vec![var("x")]);
    let hir = hir_of(vec![
        function(vec![], "id", vec![param("x", None)], None, body),
        n(SyntaxKind::VariableDefinition, vec![nl(), ident("y"), ws(), k(SyntaxKind::Colon, ":"), k(SyntaxKind::Equals, "="), call(var("id"), vec![int_lit("1")])]),
    ]);
    let module = mir_lower::lower(&hir);
    assert_eq!(module.functions.len(), 2);
    assert_eq!(module.main_id.0, 1);
    assert_eq!(module.main().name.as_deref(), Some("main"));
    assert_eq!(module.get_func(toy_lang::mir::FuncId(0)).name.as_deref(), Some("id"));
    let main = module.main();
    let insts: Vec<&Inst> = main.blocks.iter().flat_map(|b| b.insts.iter()).collect();
    assert!(insts.iter().any(|i| matches!(i, Inst::Call { func, .. } if func.0 == 0)));
    assert!(matches!(insts.last(), Some(Inst::Return { value: None })));
}

#[test]
fn infix_becomes_one_instruction() {
    let hir = hir_of(vec![def("x", Some(infix(int_lit("1"), SyntaxKind::Asterisk, "*", Some(int_lit("2")))))]);
    let module = mir_lower::lower(&hir);
    let main = module.main();
    assert_eq!(main.vreg_count, 1);
    assert!(matches!(
        &main.blocks[0].insts[0],
        Inst::MulInt { lhs: Operand::IntConst(1), rhs: Operand::IntConst(2), .. }
    ));
    assert!(matches!(&main.blocks[0].insts[1], Inst::StoreLocal { src: Operand::VReg(_), .. }));
}

#[test]
fn if_creates_branch_and_merge_blocks() {
    let value = n(
        SyntaxKind::IfExpression,
        vec![ws(), k(SyntaxKind::IfKeyword, "if"), lit(SyntaxKind::TrueKeyword, "true"), block(vec![int_lit("1")]), ws(), k(SyntaxKind::ElseKeyword, "else"), block(vec![int_lit("2")])],
    );
    let hir = hir_of(vec![def("x", Some(value))]);
    let module = mir_lower::lower(&hir);
    let main = module.main();
    assert_eq!(main.blocks.len(), 4);
    assert!(matches!(&main.blocks[0].insts[0], Inst::Branch { .. }));
    assert!(main.blocks[0].is_terminated());
    assert!(main.blocks[1].is_terminated());
    assert!(main.blocks[2].is_terminated());
    for f in &module.functions {
        for b in &f.blocks {
            for i in &b.insts {
                if let Inst::Copy { dst, .. } = i {
                    assert!(dst.0 < f.vreg_count);
                }
            }
        }
    }
}

#[test]
fn lambda_becomes_closure_function() {
    let body = block(vec![infix(var("x"), SyntaxKind::Plus, "+", Some(int_lit("1")))]);
    let lambda = n(SyntaxKind::FunctionExpression, vec![ws(), k(SyntaxKind::FnKeyword, "fn"), params(vec![param("x", None)]), body]);
    let hir = hir_of(vec![def("inc", Some(lambda))]);
    let module = mir_lower::lower(&hir);
    assert_eq!(module.functions.len(), 2);
    let closure = module.functions.iter().find(|f| f.is_closure).unwrap();
    assert_eq!(closure.param_count, 1);
    assert!(closure.name.is_none());
    assert!(module.main().blocks[0].insts.iter().any(|i| matches!(i, Inst::MakeClosure { .. })));
}

#[test]
fn terminator_kinds() {
    assert!(Inst::Jump { target: toy_lang::mir::BlockId(0) }.is_terminator());
    assert!(Inst::Return { value: None }.is_terminator());
    assert!(!Inst::Echo { src: Operand::IntConst(1) }.is_terminator());
    let b = toy_lang::mir::Block::new(toy_lang::mir::BlockId(3));
    assert!(!b.is_terminated());
    assert_eq!(b.id.0, 3);
    let f = toy_lang::mir::Function::new(toy_lang::mir::FuncId(2), None);
    assert!(f.entry_block().is_none());
}

#[test]
fn subtraction_keeps_operand_order() {
    let hir = hir_of(vec![def("x", Some(infix(int_lit("5"), SyntaxKind::Minus, "-", Some(int_lit("3")))))]);
    let module = mir_lower::lower(&hir);
    assert_eq!(module.functions.len(), 1);
    let main = module.main();
    assert_eq!(main.local_count, 1);
    assert!(matches!(
        &main.blocks[0].insts[0],
        Inst::SubInt { lhs: Operand::IntConst(5), rhs: Operand::IntConst(3), .. }
    ));
}

#[test]
fn closure_returns_its_body_and_is_made_in_main() {
    let body = block(vec![infix(var("x"), SyntaxKind::Plus, "+", Some(var("y")))]);
    let lambda = n(SyntaxKind::FunctionExpression, vec![ws(), k(SyntaxKind::FnKeyword, "fn"), params(vec![param("x", None)]), body]);
    let hir = hir_of(vec![def("y", Some(int_lit("2"))), def("add_y", Some(lambda))]);
    let module = mir_lower::lower(&hir);
    assert_eq!(module.functions.len(), 2);
    let closure = module.functions.iter().find(|f| f.is_closure).unwrap();
    assert_eq!(closure.param_count, 1);
    assert!(matches!(closure.blocks.last().and_then(|b| b.insts.last()), Some(Inst::Return { value: Some(_) })));
    let main = module.main();
    let insts: Vec<&Inst> = main.blocks.iter().flat_map(|b| b.insts.iter()).collect();
    assert!(insts.iter().any(|i| matches!(i, Inst::MakeClosure { func, .. } if func.0 == closure.id.0)));
    assert_eq!(main.local_count, 2);
}

#[test]
fn call_arguments_are_computed_before_the_call() {
    let body = block(vec![var("x")]);
    let hir = hir_of(vec![
        function(vec![], "id", vec![param("x", None)], None, body),
        n(SyntaxKind::VariableDefinition, vec![nl(), ident("y"), ws(), k(SyntaxKind::Colon, ":"), k(SyntaxKind::Equals, "="), call(var("id"), vec![infix(int_lit("1"), SyntaxKind::Plus, "+", Some(int_lit("2")))])]),
    ]);
    let module = mir_lower::lower(&hir);
    assert_eq!(module.functions.len(), 2);
    let main = module.main();
    let insts: Vec<&Inst> = main.blocks.iter().flat_map(|b| b.insts.iter()).collect();
    let sum = insts.iter().find_map(|i| match i {
        Inst::AddInt { dst, lhs: Operand::IntConst(1), rhs: Operand::IntConst(2) } => Some(*dst),
        _ => None,
    }).unwrap();
    assert!(insts.iter().any(|i| matches!(i, Inst::Call { func, args, .. } if func.0 == 0 && args.len() == 1 && matches!(args[0], Operand::VReg(v) if v == sum))));
    assert_eq!(main.local_count, 2);
}

#[test]
fn branch_goes_to_then_block_first() {
    let value = n(
        SyntaxKind::IfExpression,
        vec![ws(), k(SyntaxKind::IfKeyword, "if"), lit(SyntaxKind::TrueKeyword, "true"), block(vec![int_lit("1")]), ws(), k(SyntaxKind::ElseKeyword, "else"), block(vec![int_lit("2")])],
    );
    let hir = hir_of(vec![def("x", Some(value))]);
    let module = mir_lower::lower(&hir);
    let main = module.main();
    match &main.blocks[0].insts[0] {
        Inst::Branch { then_bb, else_bb, .. } => {
            assert_eq!(then_bb.0, main.blocks[1].id.0);
            assert_eq!(else_bb.0, main.blocks[2].id.0);
            assert!(matches!(main.blocks[1].insts[0], Inst::Copy { src: Operand::IntConst(1), .. }));
            assert!(matches!(main.blocks[2].insts[0], Inst::Copy { src: Operand::IntConst(2), .. }));
        },
        other => panic!("expected a branch, found {:?}", other),
    }
}

#[test]
fn named_function_returns_its_body_value() {
    let body = block(vec![infix(var("a"), SyntaxKind::Plus, "+", Some(var("b")))]);
    let hir = hir_of(vec![function(vec![], "add", vec![param("a", None), param("b", None)], None, body)]);
    let module = mir_lower::lower(&hir);
    let add_fn = module.functions.iter().find(|f| f.name.as_deref() == Some("add")).unwrap();
    let insts: Vec<&Inst> = add_fn.blocks.iter().flat_map(|b| b.insts.iter()).collect();
    let sum = insts.iter().find_map(|i| match i {
        Inst::AddInt { dst, .. } => Some(*dst),
        _ => None,
    }).unwrap();
    assert!(matches!(insts.last(), Some(Inst::Return { value: Some(Operand::VReg(v)) }) if *v == sum));
    assert!(insts.iter().any(|i| matches!(i, Inst::LoadLocal { local, .. } if local.0 == 0)));
    assert!(insts.iter().any(|i| matches!(i, Inst::LoadLocal { local, .. } if local.0 == 1)));
}

#[test]
fn variable_reference_loads_its_own_local() {
    let hir = hir_of(vec![
        def("x", Some(int_lit("1"))),
        def("y", Some(int_lit("2"))),
        def("z", Some(infix(var("y"), SyntaxKind::Minus, "-", Some(var("x"))))),
    ]);
    let module = mir_lower::lower(&hir);
    let main = module.main();
    let insts: Vec<&Inst> = main.blocks.iter().flat_map(|b| b.insts.iter()).collect();
    let load_of = |l: u32| insts.iter().find_map(|i| match i {
        Inst::LoadLocal { dst, local } if local.0 == l => Some(*dst),
        _ => None,
    }).unwrap();
    let (ly, lx) = (load_of(1), load_of(0));
    assert!(insts.iter().any(|i| matches!(i, Inst::SubInt { lhs: Operand::VReg(a), rhs: Operand::VReg(b), .. } if *a == ly && *b == lx)));
    assert_eq!(main.local_count, 3);
}

#[test]
fn function_count_includes_lambdas_in_named_bodies() {
    let inner = n(SyntaxKind::FunctionExpression, vec![ws(), k(SyntaxKind::FnKeyword, "fn"), params(vec![param("x", None)]), block(vec![var("x")])]);
    let body = block(vec![inner]);
    let hir = hir_of(vec![function(vec![], "make", vec![], None, body)]);
    let module = mir_lower::lower(&hir);
    assert_eq!(module.functions.len(), 3);
}

#[test]
fn closure_reads_parameters_and_captures_by_position() {
    let inner = n(
        SyntaxKind::FunctionExpression,
        vec![ws(), k(SyntaxKind::FnKeyword, "fn"), params(vec![param("x", None)]), block(vec![infix(var("x"), SyntaxKind::Plus, "+", Some(var("y")))])],
    );
    let mut hir = hir_of(vec![function(vec![], "make", vec![param("y", None)], None, block(vec![inner]))]);
    let y = hir.interner.get_or_intern("y");
    for e in hir.expressions.iter_mut() {
        if let toy_lang::hir::Expression::Function { captures, .. } = e {
            captures.push(y);
        }
    }
    let module = mir_lower::lower(&hir);
    let closure = module.functions.iter().find(|f| f.is_closure).unwrap();
    assert_eq!(closure.param_count, 1);
    assert_eq!(closure.params[0].0, 0);
    assert_eq!(closure.captures.len(), 1);
    assert_eq!(closure.captures[0].name, "y");
    assert_eq!(closure.captures[0].outer_local.0, 0);
    let insts: Vec<&Inst> = closure.blocks.iter().flat_map(|b| b.insts.iter()).collect();
    let from_param = insts.iter().find_map(|i| match i {
        Inst::LoadLocal { dst, local } if local.0 == 0 => Some(*dst),
        _ => None,
    }).unwrap();
    let from_capture = insts.iter().find_map(|i| match i {
        Inst::LoadCapture { dst, index } if *index == 0 => Some(*dst),
        _ => None,
    }).unwrap();
    let sum = insts.iter().find_map(|i| match i {
        Inst::AddInt { dst, lhs: Operand::VReg(l), rhs: Operand::VReg(r) } if *l == from_param && *r == from_capture => Some(*dst),
        _ => None,
    }).unwrap();
    assert!(matches!(insts.last(), Some(Inst::Return { value: Some(Operand::VReg(v)) }) if *v == sum));
    let make = module.functions.iter().find(|f| f.name.as_deref() == Some("make")).unwrap();
    let made = make.blocks.iter().flat_map(|b| b.insts.iter()).find_map(|i| match i {
        Inst::MakeClosure { dst, func, captures } => Some((*dst, *func, captures.clone())),
        _ => None,
    }).unwrap();
    assert_eq!(made.1, closure.id);
    assert_eq!(made.2.len(), 1);
    assert!(matches!(made.2[0], Operand::VReg(v) if v.0 + 1 == made.0.0));
}

#[test]
fn block_items_echo_and_store_their_values() {
    let echo = n(SyntaxKind::EchoStatement, vec![ws(), k(SyntaxKind::EchoKeyword, "echo"), int_lit("7")]);
    let body = block(vec![def("t", Some(int_lit("5"))), echo, assign("t", int_lit("6")), var("t")]);
    let hir = hir_of(vec![function(vec![], "f", vec![param("p", None)], None, body)]);
    let module = mir_lower::lower(&hir);
    let f = module.functions.iter().find(|f| f.name.as_deref() == Some("f")).unwrap();
    let insts: Vec<&Inst> = f.blocks.iter().flat_map(|b| b.insts.iter()).collect();
    assert!(matches!(insts[0], Inst::StoreLocal { local, src: Operand::IntConst(5) } if local.0 == 1));
    assert!(matches!(insts[1], Inst::Echo { src: Operand::IntConst(7) }));
    assert!(matches!(insts[2], Inst::StoreLocal { local, src: Operand::IntConst(6) } if local.0 == 1));
    let loaded = match insts[3] {
        Inst::LoadLocal { dst, local } if local.0 == 1 => *dst,
        other => panic!("expected a load of the block's local, found {:?}", other),
    };
    assert!(matches!(insts[4], Inst::Return { value: Some(Operand::VReg(v)) } if *v == loaded));
    assert_eq!(f.local_count, 2);
}
