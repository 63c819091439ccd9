use toy_lang::ast::Root;
use toy_lang::cst::{SyntaxKind, SyntaxTree, TreeBuilder};
use toy_lang::hir::{BlockItem, Definition, Expression, InfixOp, Item, Literal, ModuleId, PrefixOp, ResolvedIdent};
use toy_lang::hir_lower::{lower, lower_with_resolution, HirError, LowerResult, ModuleSymbols, ResolvedSymbol, SymbolEvent};

enum T {
    N(SyntaxKind, Vec<T>),
    K(SyntaxKind, &'static str),
}

fn n(kind: SyntaxKind, children: Vec<T>) -> T {
    T::N(kind, children)
}

fn k(kind: SyntaxKind, text: &'static str) -> T {
    T::K(kind, text)
}

fn ws() -> T {
    k(SyntaxKind::Whitespace, " ")
}

fn walk(b: &mut TreeBuilder, t: &T) {
    match t {
        T::N(kind, children) => {
            b.start_node(*kind);
            for c in children {
                walk(b, c);
            }
            b.finish_node();
        }
        T::K(kind, text) => b.token(*kind, text),
    }
}

fn build(items: Vec<T>) -> SyntaxTree {
    let mut b = TreeBuilder::new();
    walk(&mut b, &n(SyntaxKind::Root, items));
    b.finish()
}

fn int_lit(text: &'static str) -> T {
    n(SyntaxKind::Literal, vec![ws(), k(SyntaxKind::Integer, text)])
}

fn float(text: &'static str) -> T {
    n(SyntaxKind::Literal, vec![ws(), k(SyntaxKind::Float, text)])
}

fn var(name: &'static str) -> T {
    n(SyntaxKind::VariableReference, vec![ws(), k(SyntaxKind::Identifier, name)])
}

fn def(name: &'static str, value: Option<T>) -> T {
    let mut cs = vec![
        k(SyntaxKind::Identifier, name),
        ws(),
        k(SyntaxKind::Colon, ":"),
        k(SyntaxKind::Equals, "="),
    ];
    if let Some(v) = value {
        cs.push(v);
    }
    n(SyntaxKind::VariableDefinition, cs)
}

fn infix(lhs: T, op: SyntaxKind, text: &'static str, rhs: Option<T>) -> T {
    let mut cs = vec![lhs, ws(), k(op, text)];
    if let Some(r) = rhs {
        cs.push(r);
    }
    n(SyntaxKind::InfixExpression, cs)
}


fn ident(name: &'static str) -> T {
    k(SyntaxKind::Identifier, name)
}

fn nl() -> T {
    k(SyntaxKind::NewLine, "\n")
}

fn lit(kind: SyntaxKind, text: &'static str) -> T {
    n(SyntaxKind::Literal, vec![ws(), k(kind, text)])
}

fn assign(name: &'static str, value: T) -> T {
    n(SyntaxKind::VariableAssignment, vec![ident(name), ws(), k(SyntaxKind::Equals, "="), value])
}

fn prefix(op: SyntaxKind, text: &'static str, operand: Option<T>) -> T {
    let mut cs = vec![ws(), k(op, text)];
    if let Some(o) = operand {
        cs.push(o);
    }
    n(SyntaxKind::PrefixExpression, cs)
}

fn paren(inner: T, closed: bool) -> T {
    let mut cs = vec![ws(), k(SyntaxKind::LeftParenthesis, "("), inner];
    if closed {
        cs.push(k(SyntaxKind::RightParenthesis, ")"));
    }
    n(SyntaxKind::ParenthesisExpression, cs)
}

fn block(items: Vec<T>) -> T {
    let mut cs = vec![ws(), k(SyntaxKind::LeftBrace, "{")];
    cs.extend(items);
    cs.push(ws());
    cs.push(k(SyntaxKind::RightBrace, "}"));
    n(SyntaxKind::BlockExpression, cs)
}

fn param(name: &'static str, default: Option<T>) -> T {
    let mut cs = vec![ws(), ident(name)];
    if let Some(d) = default {
        cs.push(ws());
        cs.push(k(SyntaxKind::Equals, "="));
        cs.push(d);
    }
    n(SyntaxKind::Parameter, cs)
}

fn params(ps: Vec<T>) -> T {
    let mut list = vec![k(SyntaxKind::LeftParenthesis, "(")];
    let count = ps.len();
    for (i, p) in ps.into_iter().enumerate() {
        list.push(p);
        if i + 1 < count {
            list.push(k(SyntaxKind::Comma, ","));
        }
    }
    list.push(k(SyntaxKind::RightParenthesis, ")"));
    n(SyntaxKind::ParameterList, list)
}

fn function(leading: Vec<T>, name: &'static str, ps: Vec<T>, ret: Option<&'static str>, body: T) -> T {
    let mut cs = leading;
    cs.push(k(SyntaxKind::FnKeyword, "fn"));
    cs.push(ws());
    cs.push(ident(name));
    cs.push(params(ps));
    if let Some(r) = ret {
        cs.push(k(SyntaxKind::Colon, ":"));
        cs.push(n(SyntaxKind::TypeAnnotation, vec![ws(), ident(r)]));
    }
    cs.push(body);
    n(SyntaxKind::FunctionDefinition, cs)
}

fn call(callee: T, args: Vec<T>) -> T {
    let mut cs = vec![callee, k(SyntaxKind::LeftParenthesis, "(")];
    let count = args.len();
    for (i, a) in args.into_iter().enumerate() {
        cs.push(a);
        if i + 1 < count {
            cs.push(k(SyntaxKind::Comma, ","));
        }
    }
    cs.push(k(SyntaxKind::RightParenthesis, ")"));
    n(SyntaxKind::CallExpression, cs)
}

fn lower_items(items: Vec<T>) -> LowerResult {
    let tree = build(items);
    let root = Root::cast(&tree, 0).unwrap();
    lower(root)
}

fn first_value(result: &LowerResult) -> &Expression {
    let Item::Definition(Definition::Variable { value, .. }) = &result.items[0] else {
        panic!("expected variable definition");
    };
    value
}

fn doc_of(result: &LowerResult, name: &str) -> Option<Option<String>> {
    for e in &result.symbols {
        if let SymbolEvent::Define { name: n, doc_comment, .. } = e {
            if n == name {
                return Some(doc_comment.clone());
            }
        }
    }
    None
}

#[test]
fn lower_integer_literal() {
    let result = lower_items(vec![def("x", Some(int_lit("42")))]);
    assert_eq!(result.items.len(), 1);
    let Item::Definition(Definition::Variable { name, value }) = &result.items[0] else {
        panic!("expected variable definition");
    };
    assert_eq!(result.resolve(*name), "x");
    assert!(matches!(value, Expression::Literal(Literal::Integer(42))));
}

#[test]
fn lower_float_literal() {
    let result = lower_items(vec![def("x", Some(float("2.5")))]);
    let Expression::Literal(Literal::Float(f)) = first_value(&result) else {
        panic!("expected float literal");
    };
    let f: f64 = f.parse().unwrap();
    assert!((f - 2.5).abs() < f64::EPSILON);
}

#[test]
fn lower_boolean_literals() {
    let result = lower_items(vec![
        def("x", Some(lit(SyntaxKind::TrueKeyword, "true"))),
        n(
            SyntaxKind::VariableDefinition,
            vec![nl(), ident("y"), ws(), k(SyntaxKind::Colon, ":"), k(SyntaxKind::Equals, "="), lit(SyntaxKind::FalseKeyword, "false")],
        ),
    ]);
    assert_eq!(result.items.len(), 2);
    let Item::Definition(Definition::Variable { value, .. }) = &result.items[0] else {
        panic!("expected variable definition");
    };
    assert!(matches!(value, Expression::Literal(Literal::Boolean(true))));
    let Item::Definition(Definition::Variable { value, .. }) = &result.items[1] else {
        panic!("expected variable definition");
    };
    assert!(matches!(value, Expression::Literal(Literal::Boolean(false))));
}

#[test]
fn lower_string_literal() {
    let result = lower_items(vec![def("x", Some(lit(SyntaxKind::String, "\"hello\"")))]);
    assert!(matches!(first_value(&result), Expression::Literal(Literal::String(s)) if s == "hello"));
}

#[test]
fn lower_string_with_escapes() {
    let result = lower_items(vec![def("x", Some(lit(SyntaxKind::String, "\"hello\\nworld\"")))]);
    assert!(matches!(first_value(&result), Expression::Literal(Literal::String(s)) if s == "hello\nworld"));
}

#[test]
fn lower_variable_assignment() {
    let result = lower_items(vec![assign("x", int_lit("10"))]);
    assert_eq!(result.items.len(), 1);
    let Item::Assignment { name, value } = &result.items[0] else {
        panic!("expected assignment");
    };
    assert_eq!(result.resolve(*name), "x");
    assert!(matches!(value, Expression::Literal(Literal::Integer(10))));
}

#[test]
fn lower_variable_reference() {
    let result = lower_items(vec![def("x", Some(var("y")))]);
    let Expression::VariableRef { name } = first_value(&result) else {
        panic!("expected variable ref");
    };
    assert_eq!(result.resolve_ident(name), "y");
}

#[test]
fn lower_infix_int_arithmetic() {
    for (kind, text, expected_op) in [
        (SyntaxKind::Plus, "+", InfixOp::Add),
        (SyntaxKind::Minus, "-", InfixOp::Sub),
        (SyntaxKind::Asterisk, "*", InfixOp::Mul),
        (SyntaxKind::Slash, "/", InfixOp::Div),
        (SyntaxKind::Percent, "%", InfixOp::Mod),
    ] {
        let result = lower_items(vec![def("x", Some(infix(int_lit("1"), kind, text, Some(int_lit("2")))))]);
        let Expression::Infix { op, .. } = first_value(&result) else {
            panic!("expected infix expression for {text}");
        };
        assert_eq!(*op, expected_op, "failed for {text}");
    }
}

#[test]
fn lower_infix_float_arithmetic() {
    for (kind, text, expected_op) in [
        (SyntaxKind::PlusDot, "+.", InfixOp::AddFloat),
        (SyntaxKind::MinusDot, "-.", InfixOp::SubFloat),
        (SyntaxKind::AsteriskDot, "*.", InfixOp::MulFloat),
        (SyntaxKind::SlashDot, "/.", InfixOp::DivFloat),
    ] {
        let result = lower_items(vec![def("x", Some(infix(float("1.0"), kind, text, Some(float("2.0")))))]);
        let Expression::Infix { op, .. } = first_value(&result) else {
            panic!("expected infix expression for {text}");
        };
        assert_eq!(*op, expected_op, "failed for {text}");
    }
}

#[test]
fn lower_infix_comparison() {
    for (kind, text, expected_op) in [
        (SyntaxKind::EqualsEquals, "==", InfixOp::Eq),
        (SyntaxKind::NotEquals, "!=", InfixOp::NotEq),
        (SyntaxKind::GreaterThan, ">", InfixOp::Gt),
        (SyntaxKind::LessThan, "<", InfixOp::Lt),
        (SyntaxKind::GreaterThanOrEqual, ">=", InfixOp::Gte),
        (SyntaxKind::LessThanOrEqual, "<=", InfixOp::Lte),
    ] {
        let result = lower_items(vec![def("x", Some(infix(var("a"), kind, text, Some(var("b")))))]);
        let Expression::Infix { op, .. } = first_value(&result) else {
            panic!("expected infix expression for {text}");
        };
        assert_eq!(*op, expected_op, "failed for {text}");
    }
}

#[test]
fn lower_infix_boolean() {
    for (kind, text, expected_op) in [(SyntaxKind::AndKeyword, "and", InfixOp::And), (SyntaxKind::OrKeyword, "or", InfixOp::Or)] {
        let result = lower_items(vec![def("x", Some(infix(var("a"), kind, text, Some(var("b")))))]);
        let Expression::Infix { op, .. } = first_value(&result) else {
            panic!("expected infix expression for {text}");
        };
        assert_eq!(*op, expected_op, "failed for {text}");
    }
}

#[test]
fn lower_prefix_operators() {
    for (kind, text, operand, expected_op) in [
        (SyntaxKind::Minus, "-", int_lit("5"), PrefixOp::Neg),
        (SyntaxKind::Bang, "!", n(SyntaxKind::Literal, vec![k(SyntaxKind::TrueKeyword, "true")]), PrefixOp::Not),
    ] {
        let result = lower_items(vec![def("x", Some(prefix(kind, text, Some(operand))))]);
        let Expression::Prefix { op, .. } = first_value(&result) else {
            panic!("expected prefix expression for {text}");
        };
        assert_eq!(*op, expected_op, "failed for {text}");
    }
}

#[test]
fn malformed_missing_value() {
    let result = lower_items(vec![def("x", None)]);
    assert_eq!(result.items.len(), 1);
    assert!(matches!(first_value(&result), Expression::Missing));
}

#[test]
fn malformed_missing_rhs() {
    let result = lower_items(vec![def("x", Some(infix(int_lit("1"), SyntaxKind::Plus, "+", None)))]);
    let Expression::Infix { rhs, .. } = first_value(&result) else {
        panic!("expected infix expression");
    };
    assert!(matches!(&result.expressions[rhs.0], Expression::Missing));
}

#[test]
fn malformed_missing_lhs() {
    let result = lower_items(vec![def("x", Some(prefix(SyntaxKind::Plus, "+", Some(int_lit("1")))))]);
    assert!(matches!(first_value(&result), Expression::Missing | Expression::Prefix { .. }));
}

#[test]
fn lower_empty_parens_is_empty_tuple() {
    let value = n(SyntaxKind::TupleExpression, vec![ws(), k(SyntaxKind::LeftParenthesis, "("), k(SyntaxKind::RightParenthesis, ")")]);
    let result = lower_items(vec![def("x", Some(value))]);
    let Expression::Tuple { elements } = first_value(&result) else {
        panic!("expected Tuple");
    };
    assert!(elements.is_empty());
}

#[test]
fn malformed_unclosed_paren() {
    let inner = infix(int_lit("1"), SyntaxKind::Plus, "+", Some(int_lit("2")));
    let result = lower_items(vec![def("x", Some(paren(inner, false)))]);
    assert!(matches!(first_value(&result), Expression::Infix { op: InfixOp::Add, .. }));
}

#[test]
fn malformed_missing_name_in_definition() {
    let result = lower_items(vec![k(SyntaxKind::Colon, ":"), k(SyntaxKind::Equals, "="), int_lit("42")]);
    for item in &result.items {
        if let Item::Definition(Definition::Variable { name, .. }) = item {
            assert!(result.resolve(*name).is_empty());
        }
    }
}

#[test]
fn malformed_missing_name_in_assignment() {
    let result = lower_items(vec![k(SyntaxKind::Equals, "="), int_lit("42")]);
    assert!(result.items.is_empty() || matches!(&result.items[0], Item::Expression(_)));
}

#[test]
fn malformed_double_operator() {
    let rhs = prefix(SyntaxKind::Plus, "+", Some(int_lit("2")));
    let result = lower_items(vec![def("x", Some(infix(int_lit("1"), SyntaxKind::Plus, "+", Some(rhs))))]);
    assert!(matches!(first_value(&result), Expression::Infix { .. } | Expression::Missing));
}

#[test]
fn malformed_only_operator() {
    let result = lower_items(vec![def("x", Some(prefix(SyntaxKind::Plus, "+", None)))]);
    assert!(matches!(first_value(&result), Expression::Missing | Expression::Prefix { .. }));
}

#[test]
fn lower_binary_integer() {
    let result = lower_items(vec![def("x", Some(lit(SyntaxKind::BinaryInteger, "0b1010")))]);
    assert!(matches!(first_value(&result), Expression::Literal(Literal::Integer(10))));
}

#[test]
fn lower_octal_integer() {
    let result = lower_items(vec![def("x", Some(lit(SyntaxKind::OctalInteger, "0o17")))]);
    assert!(matches!(first_value(&result), Expression::Literal(Literal::Integer(15))));
}

#[test]
fn lower_hex_integer() {
    let result = lower_items(vec![def("x", Some(lit(SyntaxKind::HexInteger, "0xFF")))]);
    assert!(matches!(first_value(&result), Expression::Literal(Literal::Integer(255))));
}

#[test]
fn lower_integer_with_underscores() {
    let result = lower_items(vec![def("x", Some(int_lit("1_000_000")))]);
    assert!(matches!(first_value(&result), Expression::Literal(Literal::Integer(1_000_000))));
}

#[test]
fn lower_nested_expression() {
    let inner = infix(int_lit("1"), SyntaxKind::Plus, "+", Some(int_lit("2")));
    let value = infix(paren(inner, true), SyntaxKind::Asterisk, "*", Some(int_lit("3")));
    let result = lower_items(vec![def("x", Some(value))]);
    let Expression::Infix { op, lhs, rhs } = first_value(&result) else {
        panic!("expected infix expression");
    };
    assert_eq!(*op, InfixOp::Mul);
    assert!(matches!(&result.expressions[lhs.0], Expression::Infix { op: InfixOp::Add, .. }));
    assert!(matches!(&result.expressions[rhs.0], Expression::Literal(Literal::Integer(3))));
}

#[test]
fn lower_chained_operators() {
    let first = infix(int_lit("1"), SyntaxKind::Plus, "+", Some(int_lit("2")));
    let value = infix(first, SyntaxKind::Plus, "+", Some(int_lit("3")));
    let result = lower_items(vec![def("x", Some(value))]);
    let Expression::Infix { op, lhs, rhs } = first_value(&result) else {
        panic!("expected infix expression");
    };
    assert_eq!(*op, InfixOp::Add);
    assert!(matches!(&result.expressions[rhs.0], Expression::Literal(Literal::Integer(3))));
    assert!(matches!(&result.expressions[lhs.0], Expression::Infix { op: InfixOp::Add, .. }));
}

#[test]
fn lower_lower_multiple_items() {
    let result = lower_items(vec![
        def("x", Some(int_lit("1"))),
        n(SyntaxKind::VariableDefinition, vec![nl(), ident("y"), ws(), k(SyntaxKind::Colon, ":"), k(SyntaxKind::Equals, "="), int_lit("2")]),
        n(SyntaxKind::VariableAssignment, vec![nl(), ident("z"), ws(), k(SyntaxKind::Equals, "="), int_lit("3")]),
    ]);
    assert_eq!(result.items.len(), 3);
    let Item::Definition(Definition::Variable { name, .. }) = &result.items[0] else {
        panic!("expected variable definition");
    };
    assert_eq!(result.resolve(*name), "x");
    let Item::Definition(Definition::Variable { name, .. }) = &result.items[1] else {
        panic!("expected variable definition");
    };
    assert_eq!(result.resolve(*name), "y");
    let Item::Assignment { name, .. } = &result.items[2] else {
        panic!("expected assignment");
    };
    assert_eq!(result.resolve(*name), "z");
}

#[test]
fn lower_expression_statement() {
    let result = lower_items(vec![n(SyntaxKind::Literal, vec![k(SyntaxKind::Integer, "42")])]);
    assert_eq!(result.items.len(), 1);
    let Item::Expression(expr) = &result.items[0] else {
        panic!("expected expression item");
    };
    assert!(matches!(expr, Expression::Literal(Literal::Integer(42))));
}

#[test]
fn lower_with_external_resolution() {
    let tree = build(vec![call(
        n(SyntaxKind::VariableReference, vec![ident("greet")]),
        vec![n(SyntaxKind::Literal, vec![k(SyntaxKind::String, "\"hello\"")])],
    )]);
    let root = Root::cast(&tree, 0).unwrap();
    let tables = vec![
        ModuleSymbols {
            module_id: ModuleId(0),
            symbols: vec![ResolvedSymbol { name: "greet".to_string(), reexported_from: None }],
        },
        ModuleSymbols {
            module_id: ModuleId(1),
            symbols: vec![ResolvedSymbol { name: "greet".to_string(), reexported_from: Some(ModuleId(0)) }],
        },
    ];
    let result = lower_with_resolution(root, ModuleId(1), tables);
    assert_eq!(result.items.len(), 1);
    let Item::Expression(Expression::Call { callee, .. }) = &result.items[0] else {
        panic!("expected call expression");
    };
    let Expression::VariableRef { name } = &result.expressions[callee.0] else {
        panic!("expected variable ref");
    };
    assert!(matches!(name, ResolvedIdent::External { module_id: ModuleId(0), .. }));
    assert_eq!(result.resolve_ident(name), "greet");
}

#[test]
fn lower_with_local_resolution() {
    let body = block(vec![infix(var("a"), SyntaxKind::Plus, "+", Some(var("b")))]);
    let tree = build(vec![
        function(vec![], "add", vec![param("a", None), param("b", None)], None, body),
        n(
            SyntaxKind::VariableDefinition,
            vec![nl(), ident("x"), ws(), k(SyntaxKind::Colon, ":"), k(SyntaxKind::Equals, "="), call(var("add"), vec![int_lit("1"), int_lit("2")])],
        ),
    ]);
    let root = Root::cast(&tree, 0).unwrap();
    let tables = vec![ModuleSymbols {
        module_id: ModuleId(0),
        symbols: vec![ResolvedSymbol { name: "add".to_string(), reexported_from: None }],
    }];
    let result = lower_with_resolution(root, ModuleId(0), tables);
    let Item::Definition(Definition::Variable { value, .. }) = &result.items[1] else {
        panic!("expected variable definition");
    };
    let Expression::Call { callee, .. } = value else {
        panic!("expected call expression");
    };
    let Expression::VariableRef { name } = &result.expressions[callee.0] else {
        panic!("expected variable ref");
    };
    assert!(matches!(name, ResolvedIdent::Local(_)));
    assert_eq!(result.resolve_ident(name), "add");
}

fn def_with(leading: Vec<T>, name: &'static str, value: T) -> T {
    let mut cs = leading;
    cs.push(ident(name));
    cs.push(ws());
    cs.push(k(SyntaxKind::Colon, ":"));
    cs.push(k(SyntaxKind::Equals, "="));
    cs.push(value);
    n(SyntaxKind::VariableDefinition, cs)
}

#[test]
fn lower_doc_comment() {
    let result = lower_items(vec![def_with(vec![k(SyntaxKind::DocComment, "## This is a doc comment"), nl()], "x", int_lit("42"))]);
    assert_eq!(doc_of(&result, "x"), Some(Some("This is a doc comment".to_string())));
}

#[test]
fn lower_multiline_doc_comment() {
    let result = lower_items(vec![def_with(
        vec![
            k(SyntaxKind::DocComment, "## Line 1"),
            nl(),
            k(SyntaxKind::DocComment, "## Line 2"),
            nl(),
            k(SyntaxKind::DocComment, "## Line 3"),
            nl(),
        ],
        "x",
        int_lit("42"),
    )]);
    assert_eq!(doc_of(&result, "x"), Some(Some("Line 1\nLine 2\nLine 3".to_string())));
}

#[test]
fn lower_no_doc_comment() {
    let result = lower_items(vec![def("x", Some(int_lit("42")))]);
    assert_eq!(doc_of(&result, "x"), Some(None));
}

#[test]
fn lower_doc_comment_with_blank_line_breaks() {
    let result = lower_items(vec![def_with(vec![k(SyntaxKind::DocComment, "## Comment"), nl(), nl(), nl()], "x", int_lit("42"))]);
    assert_eq!(doc_of(&result, "x"), Some(None));
}

#[test]
fn lower_regular_comment_not_doc() {
    let result = lower_items(vec![def_with(vec![k(SyntaxKind::Comment, "# This is a regular comment"), nl()], "x", int_lit("42"))]);
    assert_eq!(doc_of(&result, "x"), Some(None));
}

#[test]
fn lower_lower_function_definition() {
    let body = block(vec![infix(var("a"), SyntaxKind::Plus, "+", Some(var("b")))]);
    let result = lower_items(vec![function(vec![], "add", vec![param("a", None), param("b", None)], None, body)]);
    assert_eq!(result.items.len(), 1);
    let Item::Definition(Definition::Function { name, params, body, .. }) = &result.items[0] else {
        panic!("expected function definition");
    };
    assert_eq!(result.resolve(*name), "add");
    assert_eq!(params.len(), 2);
    assert_eq!(result.resolve(params[0].name), "a");
    assert_eq!(result.resolve(params[1].name), "b");
    assert!(matches!(&result.expressions[body.0], Expression::Block { .. }));
}

#[test]
fn lower_function_with_return_type() {
    let body = block(vec![infix(var("x"), SyntaxKind::Asterisk, "*", Some(int_lit("2")))]);
    let result = lower_items(vec![function(vec![], "double", vec![param("x", None)], Some("int"), body)]);
    let Item::Definition(Definition::Function { name, return_type, .. }) = &result.items[0] else {
        panic!("expected function definition");
    };
    assert_eq!(result.resolve(*name), "double");
    assert_eq!(result.resolve(return_type.unwrap()), "int");
}

#[test]
fn lower_lambda_expression() {
    let body = block(vec![infix(var("x"), SyntaxKind::Plus, "+", Some(int_lit("1")))]);
    let lambda = n(SyntaxKind::FunctionExpression, vec![ws(), k(SyntaxKind::FnKeyword, "fn"), params(vec![param("x", None)]), body]);
    let result = lower_items(vec![def("inc", Some(lambda))]);
    let Item::Definition(Definition::Variable { name, value }) = &result.items[0] else {
        panic!("expected variable definition");
    };
    assert_eq!(result.resolve(*name), "inc");
    assert!(matches!(value, Expression::Function { .. }));
}

#[test]
fn lower_call_expression() {
    let result = lower_items(vec![def("x", Some(call(var("add"), vec![int_lit("1"), int_lit("2")])))]);
    let Expression::Call { callee, args } = first_value(&result) else {
        panic!("expected call expression");
    };
    let Expression::VariableRef { name } = &result.expressions[callee.0] else {
        panic!("expected variable ref");
    };
    assert_eq!(result.resolve_ident(name), "add");
    assert_eq!(args.len(), 2);
}

#[test]
fn lower_return_statement() {
    let ret = n(SyntaxKind::ReturnStatement, vec![ws(), k(SyntaxKind::ReturnKeyword, "return"), int_lit("42")]);
    let result = lower_items(vec![function(vec![], "foo", vec![], None, block(vec![ret]))]);
    let Item::Definition(Definition::Function { body, .. }) = &result.items[0] else {
        panic!("expected function definition");
    };
    let Expression::Block { items, .. } = &result.expressions[body.0] else {
        panic!("expected block");
    };
    assert_eq!(items.len(), 1);
    assert!(matches!(&items[0], BlockItem::Return { value: Some(_) }));
}

#[test]
fn lower_return_without_value() {
    let ret = n(SyntaxKind::ReturnStatement, vec![ws(), k(SyntaxKind::ReturnKeyword, "return")]);
    let result = lower_items(vec![function(vec![], "foo", vec![], None, block(vec![ret]))]);
    let Item::Definition(Definition::Function { body, .. }) = &result.items[0] else {
        panic!("expected function definition");
    };
    let Expression::Block { items, .. } = &result.expressions[body.0] else {
        panic!("expected block");
    };
    assert!(matches!(&items[0], BlockItem::Return { value: None }));
}

#[test]
fn lower_function_with_default_param() {
    let p = param("name", Some(lit(SyntaxKind::String, "\"World\"")));
    let result = lower_items(vec![function(vec![], "greet", vec![p], None, block(vec![var("name")]))]);
    let Item::Definition(Definition::Function { params, .. }) = &result.items[0] else {
        panic!("expected function definition");
    };
    assert_eq!(params.len(), 1);
    assert_eq!(result.resolve(params[0].name), "name");
    assert!(params[0].default.is_some());
}

#[test]
fn division_by_literal_zero_is_reported() {
    let result = lower_items(vec![def("x", Some(infix(int_lit("1"), SyntaxKind::Slash, "/", Some(int_lit("0")))))]);
    assert_eq!(result.diagnostics.len(), 1);
    assert_eq!(result.diagnostics[0], HirError::DivisionByZero { span: toy_lang::hir_lower::SourceSpan { offset: 8, len: 2 } });
    let ok = lower_items(vec![def("x", Some(infix(int_lit("1"), SyntaxKind::Slash, "/", Some(int_lit("2")))))]);
    assert!(ok.diagnostics.is_empty());
    let float_zero = lower_items(vec![def("x", Some(infix(float("1.0"), SyntaxKind::SlashDot, "/.", Some(float("0.0")))))]);
    assert_eq!(float_zero.diagnostics.len(), 1);
}

#[test]
fn break_outside_loop_is_reported() {
    let brk = n(SyntaxKind::BreakStatement, vec![k(SyntaxKind::BreakKeyword, "break")]);
    let result = lower_items(vec![brk]);
    assert_eq!(result.items.len(), 1);
    assert!(matches!(&result.items[0], Item::Expression(Expression::Break { label: None })));
    assert_eq!(result.diagnostics, vec![HirError::BreakOutsideLoop { span: toy_lang::hir_lower::SourceSpan { offset: 0, len: 5 } }]);
}

#[test]
fn break_inside_loop_is_fine() {
    let brk = n(SyntaxKind::BreakStatement, vec![ws(), k(SyntaxKind::BreakKeyword, "break")]);
    let lp = n(SyntaxKind::LoopExpression, vec![k(SyntaxKind::LoopKeyword, "loop"), block(vec![brk])]);
    let result = lower_items(vec![lp]);
    assert!(result.diagnostics.is_empty());
    assert!(matches!(&result.items[0], Item::Expression(Expression::Loop { label: None, .. })));
}

#[test]
fn unknown_loop_label_is_reported() {
    let cont = n(
        SyntaxKind::ContinueStatement,
        vec![ws(), k(SyntaxKind::ContinueKeyword, "continue"), ws(), ident("outer")],
    );
    let lp = n(SyntaxKind::LoopExpression, vec![k(SyntaxKind::LoopKeyword, "loop"), block(vec![cont])]);
    let result = lower_items(vec![lp]);
    assert_eq!(result.diagnostics.len(), 1);
    assert!(matches!(&result.diagnostics[0], HirError::UnknownLoopLabel { label, .. } if label == "outer"));
}

#[test]
fn empty_block_is_reported() {
    let result = lower_items(vec![block(vec![])]);
    assert_eq!(result.diagnostics.len(), 1);
    assert!(matches!(&result.diagnostics[0], HirError::EmptyBlock { .. }));
    assert!(matches!(&result.items[0], Item::Expression(Expression::Block { items, tail: None }) if items.is_empty()));
}

#[test]
fn block_tail_is_last_expression() {
    let result = lower_items(vec![block(vec![def("y", Some(int_lit("1"))), var("y")])]);
    let Item::Expression(Expression::Block { items, tail }) = &result.items[0] else {
        panic!("expected block");
    };
    assert_eq!(items.len(), 1);
    let tail = tail.expect("tail");
    assert!(matches!(&result.expressions[tail.0], Expression::VariableRef { .. }));
    assert!(result.symbols.iter().any(|e| matches!(e, SymbolEvent::PushScope)));
    assert!(matches!(result.symbols.last(), Some(SymbolEvent::PopScope)));
}

#[test]
fn use_statements_are_skipped() {
    let u = n(SyntaxKind::UseStatement, vec![k(SyntaxKind::UseKeyword, "use"), ws(), n(SyntaxKind::ModulePath, vec![ident("std")])]);
    let result = lower_items(vec![u, n(SyntaxKind::Literal, vec![nl(), k(SyntaxKind::Integer, "1")])]);
    assert_eq!(result.items.len(), 1);
    assert_eq!(result.item_spans.len(), 1);
}

#[test]
fn arena_children_come_first() {
    let value = infix(paren(infix(int_lit("1"), SyntaxKind::Plus, "+", Some(int_lit("2"))), true), SyntaxKind::Asterisk, "*", Some(int_lit("3")));
    let result = lower_items(vec![def("x", Some(value))]);
    assert_eq!(result.expressions.len(), result.expr_spans.len());
    for (i, e) in result.expressions.iter().enumerate() {
        if let Expression::Infix { lhs, rhs, .. } = e {
            assert!(lhs.0 < i && rhs.0 < i);
        }
    }
}

#[test]
fn definitions_and_references_are_recorded() {
    let result = lower_items(vec![def("x", Some(int_lit("1"))), nl(), assign("x", var("x"))]);
    let defines: Vec<&SymbolEvent> = result.symbols.iter().filter(|e| matches!(e, SymbolEvent::Define { .. })).collect();
    assert_eq!(defines.len(), 1);
    assert!(matches!(defines[0], SymbolEvent::Define { name, name_span, def_span, .. }
        if name == "x" && name_span.start == 0 && name_span.end == 1 && def_span.start == 0 && def_span.end == 6));
    let references: Vec<&SymbolEvent> = result.symbols.iter().filter(|e| matches!(e, SymbolEvent::Reference { .. })).collect();
    assert_eq!(references.len(), 2);
    assert!(references.iter().all(|e| matches!(e, SymbolEvent::Reference { name, .. } if name == "x")));
}

#[test]
fn nested_blocks_pop_every_scope_they_push() {
    let inner = block(vec![def("y", Some(int_lit("2")))]);
    let result = lower_items(vec![block(vec![inner, nl(), var("y")])]);
    let mut depth: i64 = 0;
    for e in &result.symbols {
        match e {
            SymbolEvent::PushScope => depth += 1,
            SymbolEvent::PopScope => depth -= 1,
            _ => {},
        }
        assert!(depth >= 0);
    }
    assert_eq!(depth, 0);
}

#[test]
fn parenthesised_operands_are_stored_with_their_own_ranges() {
    let value = infix(paren(int_lit("7"), true), SyntaxKind::Plus, "+", Some(int_lit("1")));
    let result = lower_items(vec![def("z", Some(value))]);
    let Item::Definition(Definition::Variable { value, .. }) = &result.items[0] else {
        panic!("expected variable definition");
    };
    let Expression::Infix { lhs, rhs, .. } = value else {
        panic!("expected infix");
    };
    assert!(matches!(&result.expressions[lhs.0], Expression::Literal(Literal::Integer(7))));
    assert!(matches!(&result.expressions[rhs.0], Expression::Literal(Literal::Integer(1))));
    let lhs_span = result.expr_spans[lhs.0];
    assert_eq!((lhs_span.start, lhs_span.end), (4, 9));
}

#[test]
fn division_by_float_that_rounds_to_zero_is_reported() {
    let tiny = n(SyntaxKind::Literal, vec![k(SyntaxKind::FloatExponent, "1e-400")]);
    let result = lower_items(vec![def("x", Some(infix(float("1.0"), SyntaxKind::SlashDot, "/.", Some(tiny))))]);
    assert_eq!(result.diagnostics.len(), 1);
    let small = n(SyntaxKind::Literal, vec![k(SyntaxKind::FloatExponent, "1e-300")]);
    let ok = lower_items(vec![def("x", Some(infix(float("1.0"), SyntaxKind::SlashDot, "/.", Some(small))))]);
    assert!(ok.diagnostics.is_empty());
}
