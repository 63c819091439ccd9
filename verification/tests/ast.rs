use toy_lang::ast::{Expression, Item, Root, VariableDefinition};
use toy_lang::cst::{SyntaxKind, SyntaxTree, TreeBuilder};

enum T {
    N(SyntaxKind, Vec<T>),
    K(SyntaxKind, &'static str),
}

fn n(kind: SyntaxKind, children: Vec<T>) -> T {
    T::N(kind, children)
}

fn k(kind: SyntaxKind, text: &'static str) -> T {
    T::K(kind, text)
}

fn ws() -> T {
    k(SyntaxKind::Whitespace, " ")
}

fn walk(b: &mut TreeBuilder, t: &T) {
    match t {
        T::N(kind, children) => {
            b.start_node(*kind);
            for c in children {
                walk(b, c);
            }
            b.finish_node();
        }
        T::K(kind, text) => b.token(*kind, text),
    }
}

fn build(items: Vec<T>) -> SyntaxTree {
    let mut b = TreeBuilder::new();
    walk(&mut b, &n(SyntaxKind::Root, items));
    b.finish()
}

fn int_lit(text: &'static str) -> T {
    n(SyntaxKind::Literal, vec![ws(), k(SyntaxKind::Integer, text)])
}

fn float(text: &'static str) -> T {
    n(SyntaxKind::Literal, vec![ws(), k(SyntaxKind::Float, text)])
}

fn var(name: &'static str) -> T {
    n(SyntaxKind::VariableReference, vec![ws(), k(SyntaxKind::Identifier, name)])
}

fn def(name: &'static str, value: Option<T>) -> T {
    let mut cs = vec![
        k(SyntaxKind::Identifier, name),
        ws(),
        k(SyntaxKind::Colon, ":"),
        k(SyntaxKind::Equals, "="),
    ];
    if let Some(v) = value {
        cs.push(v);
    }
    n(SyntaxKind::VariableDefinition, cs)
}

fn infix(lhs: T, op: SyntaxKind, text: &'static str, rhs: Option<T>) -> T {
    let mut cs = vec![lhs, ws(), k(op, text)];
    if let Some(r) = rhs {
        cs.push(r);
    }
    n(SyntaxKind::InfixExpression, cs)
}

fn first_def_value<'a>(root: &Root<'a>) -> Expression<'a> {
    let item = root.items()[0];
    let Item::VariableDefinition(def) = item else {
        panic!("expected VariableDefinition")
    };
    def.value().unwrap()
}

#[test]
fn variable_definition_complete() {
    let tree = build(vec![def("x", Some(int_lit("42")))]);
    let root = Root::cast(&tree, 0).unwrap();
    let item = root.items()[0];
    let Item::VariableDefinition(def) = item else {
        panic!("expected VariableDefinition")
    };
    assert_eq!(def.name().unwrap().text, "x");
    assert!(def.value().is_some());
}

#[test]
fn variable_definition_missing_value() {
    let tree = build(vec![def("x", None)]);
    let root = Root::cast(&tree, 0).unwrap();
    let item = root.items()[0];
    let Item::VariableDefinition(def) = item else {
        panic!("expected VariableDefinition")
    };
    assert_eq!(def.name().unwrap().text, "x");
    assert!(def.value().is_none(), "missing value should return None");
}

#[test]
fn infix_integer_operators() {
    for (text, expected) in [
        ("+", SyntaxKind::Plus),
        ("-", SyntaxKind::Minus),
        ("*", SyntaxKind::Asterisk),
        ("/", SyntaxKind::Slash),
        ("%", SyntaxKind::Percent),
    ] {
        let tree = build(vec![def("x", Some(infix(int_lit("1"), expected, text, Some(int_lit("2")))))]);
        let root = Root::cast(&tree, 0).unwrap();
        let Expression::Infix(infix) = first_def_value(&root) else {
            panic!("expected InfixExpression for {text}")
        };
        assert_eq!(infix.operation().unwrap().kind, expected, "{text}");
    }
}

#[test]
fn infix_float_operators() {
    for (text, expected) in [
        ("+.", SyntaxKind::PlusDot),
        ("-.", SyntaxKind::MinusDot),
        ("*.", SyntaxKind::AsteriskDot),
        ("/.", SyntaxKind::SlashDot),
    ] {
        let tree = build(vec![def("x", Some(infix(float("1.0"), expected, text, Some(float("2.0")))))]);
        let root = Root::cast(&tree, 0).unwrap();
        let Expression::Infix(infix) = first_def_value(&root) else {
            panic!("expected InfixExpression for {text}")
        };
        assert_eq!(infix.operation().unwrap().kind, expected, "{text}");
    }
}

#[test]
fn infix_comparison_operators() {
    for (text, expected) in [
        ("==", SyntaxKind::EqualsEquals),
        ("!=", SyntaxKind::NotEquals),
        (">", SyntaxKind::GreaterThan),
        ("<", SyntaxKind::LessThan),
        (">=", SyntaxKind::GreaterThanOrEqual),
        ("<=", SyntaxKind::LessThanOrEqual),
    ] {
        let tree = build(vec![def("x", Some(infix(var("a"), expected, text, Some(var("b")))))]);
        let root = Root::cast(&tree, 0).unwrap();
        let Expression::Infix(infix) = first_def_value(&root) else {
            panic!("expected InfixExpression for {text}")
        };
        assert_eq!(infix.operation().unwrap().kind, expected, "{text}");
    }
}

#[test]
fn infix_boolean_operators() {
    for (text, expected) in [("and", SyntaxKind::AndKeyword), ("or", SyntaxKind::OrKeyword)] {
        let tree = build(vec![def("x", Some(infix(var("a"), expected, text, Some(var("b")))))]);
        let root = Root::cast(&tree, 0).unwrap();
        let Expression::Infix(infix) = first_def_value(&root) else {
            panic!("expected InfixExpression for {text}")
        };
        assert_eq!(infix.operation().unwrap().kind, expected, "{text}");
    }
}

#[test]
fn prefix_operators() {
    for (text, expected, operand) in [
        ("-", SyntaxKind::Minus, int_lit("5")),
        ("!", SyntaxKind::Bang, n(SyntaxKind::Literal, vec![k(SyntaxKind::TrueKeyword, "true")])),
    ] {
        let value = n(SyntaxKind::PrefixExpression, vec![ws(), k(expected, text), operand]);
        let tree = build(vec![def("x", Some(value))]);
        let root = Root::cast(&tree, 0).unwrap();
        let Expression::Prefix(prefix) = first_def_value(&root) else {
            panic!("expected PrefixExpression for {text}")
        };
        assert_eq!(prefix.operation().unwrap().kind, expected, "{text}");
    }
}

#[test]
fn infix_missing_rhs() {
    let tree = build(vec![def("x", Some(infix(int_lit("1"), SyntaxKind::Plus, "+", None)))]);
    let root = Root::cast(&tree, 0).unwrap();
    let Expression::Infix(infix) = first_def_value(&root) else {
        panic!("expected InfixExpression")
    };
    assert!(infix.lhs().is_some());
    assert!(infix.rhs().is_none(), "missing rhs should return None");
}

#[test]
fn lib_empty_parens_is_empty_tuple() {
    let value = n(
        SyntaxKind::TupleExpression,
        vec![ws(), k(SyntaxKind::LeftParenthesis, "("), k(SyntaxKind::RightParenthesis, ")")],
    );
    let tree = build(vec![def("x", Some(value))]);
    let root = Root::cast(&tree, 0).unwrap();
    let Expression::Tuple(tuple) = first_def_value(&root) else {
        panic!("expected TupleExpression")
    };
    assert_eq!(tuple.elements().len(), 0, "empty parens should be empty tuple");
}

#[test]
fn unclosed_paren_still_casts() {
    let inner = infix(int_lit("1"), SyntaxKind::Plus, "+", Some(int_lit("2")));
    let value = n(SyntaxKind::ParenthesisExpression, vec![ws(), k(SyntaxKind::LeftParenthesis, "("), inner]);
    let tree = build(vec![def("x", Some(value))]);
    let root = Root::cast(&tree, 0).unwrap();
    let Expression::Parenthesis(paren) = first_def_value(&root) else {
        panic!("expected ParenthesisExpression")
    };
    assert!(paren.expression().is_some());
}

#[test]
fn cast_wrong_kind_returns_none() {
    let tree = build(vec![def("x", Some(int_lit("1")))]);
    let root = Root::cast(&tree, 0).unwrap();
    let syntax = root.syntax();
    assert!(VariableDefinition::cast(&tree, syntax).is_none());
}

fn path(segments: Vec<T>) -> T {
    n(SyntaxKind::ModulePath, segments)
}

fn use_stmt(rest: Vec<T>) -> T {
    let mut cs = vec![k(SyntaxKind::UseKeyword, "use"), ws()];
    cs.extend(rest);
    n(SyntaxKind::UseStatement, cs)
}

fn ident(name: &'static str) -> T {
    k(SyntaxKind::Identifier, name)
}

fn dot() -> T {
    k(SyntaxKind::Dot, ".")
}

#[test]
fn use_statement_basic() {
    let tree = build(vec![use_stmt(vec![path(vec![ident("std"), dot(), ident("io")])])]);
    let root = Root::cast(&tree, 0).unwrap();
    let Item::UseStatement(use_stmt) = root.items()[0] else {
        panic!("expected UseStatement")
    };
    assert!(!use_stmt.is_pub());
    assert!(use_stmt.path_of_module().is_some());
    assert!(use_stmt.import_list().is_none());
    assert!(use_stmt.import_alias().is_none());
}

#[test]
fn use_statement_pub_reexport() {
    let tree = build(vec![
        k(SyntaxKind::PubKeyword, "pub"),
        ws(),
        use_stmt(vec![path(vec![ident("std"), dot(), ident("math"), dot(), ident("PI")])]),
    ]);
    let root = Root::cast(&tree, 0).unwrap();
    let Item::UseStatement(use_stmt) = root.items()[0] else {
        panic!("expected UseStatement")
    };
    assert!(use_stmt.is_pub());
    assert!(use_stmt.path_of_module().is_some());
}

#[test]
fn use_statement_with_alias() {
    let alias = n(SyntaxKind::ImportAlias, vec![ws(), k(SyntaxKind::AsKeyword, "as"), ws(), ident("m")]);
    let tree = build(vec![use_stmt(vec![path(vec![ident("std"), dot(), ident("math")]), alias])]);
    let root = Root::cast(&tree, 0).unwrap();
    let Item::UseStatement(use_stmt) = root.items()[0] else {
        panic!("expected UseStatement")
    };
    let alias = use_stmt.import_alias().expect("expected alias");
    assert_eq!(alias.name().unwrap().text, "m");
}

fn import_item(name: &'static str, alias: Option<&'static str>) -> T {
    let mut cs = vec![ident(name)];
    if let Some(a) = alias {
        cs.push(ws());
        cs.push(k(SyntaxKind::AsKeyword, "as"));
        cs.push(ws());
        cs.push(ident(a));
    }
    n(SyntaxKind::ImportItem, cs)
}

#[test]
fn use_statement_selective_imports() {
    let list = n(
        SyntaxKind::ImportList,
        vec![
            k(SyntaxKind::LeftBrace, "{"),
            import_item("sin", None),
            k(SyntaxKind::Comma, ","),
            ws(),
            import_item("cos", None),
            k(SyntaxKind::Comma, ","),
            ws(),
            import_item("PI", None),
            k(SyntaxKind::RightBrace, "}"),
        ],
    );
    let tree = build(vec![use_stmt(vec![path(vec![ident("std"), dot(), ident("math"), dot()]), list])]);
    let root = Root::cast(&tree, 0).unwrap();
    let Item::UseStatement(use_stmt) = root.items()[0] else {
        panic!("expected UseStatement")
    };
    let import_list = use_stmt.import_list().expect("expected import list");
    let items = import_list.items();
    assert_eq!(items.len(), 3);
    assert_eq!(items[0].name().unwrap().text, "sin");
    assert_eq!(items[1].name().unwrap().text, "cos");
    assert_eq!(items[2].name().unwrap().text, "PI");
}

#[test]
fn module_path_segments() {
    let tree = build(vec![use_stmt(vec![path(vec![
        ident("std"),
        dot(),
        ident("collections"),
        dot(),
        ident("hashmap"),
    ])])]);
    let root = Root::cast(&tree, 0).unwrap();
    let Item::UseStatement(use_stmt) = root.items()[0] else {
        panic!("expected UseStatement")
    };
    let path = use_stmt.path_of_module().expect("expected module path");
    let segments: Vec<String> = path.segments().iter().map(|s| s.text.clone()).collect();
    assert_eq!(segments, vec!["std", "collections", "hashmap"]);
    assert!(!path.is_relative());
}

#[test]
fn module_path_relative() {
    let tree = build(vec![use_stmt(vec![path(vec![dot(), ident("helpers")])])]);
    let root = Root::cast(&tree, 0).unwrap();
    let Item::UseStatement(use_stmt) = root.items()[0] else {
        panic!("expected UseStatement")
    };
    let path = use_stmt.path_of_module().expect("expected module path");
    assert!(path.is_relative());
    let segments: Vec<String> = path.segments().iter().map(|s| s.text.clone()).collect();
    assert_eq!(segments, vec!["helpers"]);
}

fn typed_param(name: &'static str, ty: &'static str) -> T {
    n(
        SyntaxKind::Parameter,
        vec![
            ws(),
            ident(name),
            k(SyntaxKind::Colon, ":"),
            n(SyntaxKind::TypeAnnotation, vec![ws(), ident(ty)]),
        ],
    )
}

fn block(items: Vec<T>) -> T {
    let mut cs = vec![ws(), k(SyntaxKind::LeftBrace, "{")];
    cs.extend(items);
    cs.push(ws());
    cs.push(k(SyntaxKind::RightBrace, "}"));
    n(SyntaxKind::BlockExpression, cs)
}

fn function(name: &'static str, params: Vec<T>, ret: Option<&'static str>, body: T) -> T {
    let mut list = vec![k(SyntaxKind::LeftParenthesis, "(")];
    let count = params.len();
    for (i, p) in params.into_iter().enumerate() {
        list.push(p);
        if i + 1 < count {
            list.push(k(SyntaxKind::Comma, ","));
        }
    }
    list.push(k(SyntaxKind::RightParenthesis, ")"));
    let mut cs = vec![k(SyntaxKind::FnKeyword, "fn"), ws(), ident(name), n(SyntaxKind::ParameterList, list)];
    if let Some(r) = ret {
        cs.push(k(SyntaxKind::Colon, ":"));
        cs.push(n(SyntaxKind::TypeAnnotation, vec![ws(), ident(r)]));
    }
    cs.push(body);
    n(SyntaxKind::FunctionDefinition, cs)
}

#[test]
fn function_definition_pub() {
    let body = block(vec![infix(var("a"), SyntaxKind::Plus, "+", Some(var("b")))]);
    let tree = build(vec![
        k(SyntaxKind::PubKeyword, "pub"),
        ws(),
        function("add", vec![typed_param("a", "int"), typed_param("b", "int")], Some("int"), body),
    ]);
    let root = Root::cast(&tree, 0).unwrap();
    let Item::FunctionDefinition(func) = root.items()[0] else {
        panic!("expected FunctionDefinition")
    };
    assert!(func.is_pub());
    assert_eq!(func.name().unwrap().text, "add");
    assert_eq!(func.params().unwrap().params().len(), 2);
    assert_eq!(func.return_type().unwrap().type_token().unwrap().text, "int");
    assert!(func.body().is_some());
}

#[test]
fn function_definition_private() {
    let body = block(vec![infix(var("x"), SyntaxKind::Asterisk, "*", Some(int_lit("2")))]);
    let tree = build(vec![function("helper", vec![typed_param("x", "int")], Some("int"), body)]);
    let root = Root::cast(&tree, 0).unwrap();
    let Item::FunctionDefinition(func) = root.items()[0] else {
        panic!("expected FunctionDefinition")
    };
    assert!(!func.is_pub());
    assert_eq!(func.name().unwrap().text, "helper");
}

#[test]
fn import_item_with_alias() {
    let list = n(
        SyntaxKind::ImportList,
        vec![
            k(SyntaxKind::LeftBrace, "{"),
            import_item("sin", Some("sine")),
            k(SyntaxKind::Comma, ","),
            ws(),
            import_item("cos", None),
            k(SyntaxKind::RightBrace, "}"),
        ],
    );
    let tree = build(vec![use_stmt(vec![path(vec![ident("std"), dot(), ident("math"), dot()]), list])]);
    let root = Root::cast(&tree, 0).unwrap();
    let Item::UseStatement(use_stmt) = root.items()[0] else {
        panic!("expected UseStatement")
    };
    let import_list = use_stmt.import_list().expect("expected import list");
    let items = import_list.items();
    assert_eq!(items[0].name().unwrap().text, "sin");
    assert_eq!(items[0].alias().unwrap().text, "sine");
    assert_eq!(items[1].name().unwrap().text, "cos");
    assert!(items[1].alias().is_none());
}

#[test]
fn tree_builder_ranges_follow_tokens() {
    let tree = build(vec![def("x", Some(int_lit("42")))]);
    assert_eq!(tree.nodes[0].range.start, 0);
    assert_eq!(tree.nodes[0].range.end, 7);
    assert_eq!(tree.nodes[1].range.end, 7);
    assert_eq!(tree.nodes[2].range.start, 4);
    assert_eq!(tree.nodes[2].parent, Some(1));
}

#[test]
fn if_expression_branches() {
    let cond = var("c");
    let then_b = block(vec![int_lit("1")]);
    let else_b = block(vec![int_lit("2")]);
    let value = n(
        SyntaxKind::IfExpression,
        vec![ws(), k(SyntaxKind::IfKeyword, "if"), cond, then_b, ws(), k(SyntaxKind::ElseKeyword, "else"), else_b],
    );
    let tree = build(vec![def("x", Some(value))]);
    let root = Root::cast(&tree, 0).unwrap();
    let Expression::If(if_expr) = first_def_value(&root) else {
        panic!("expected IfExpression")
    };
    assert!(if_expr.condition().is_some());
    assert!(if_expr.then_branch().is_some());
    assert!(if_expr.else_branch().is_some());
}

#[test]
fn tuple_access_index() {
    let value = n(
        SyntaxKind::TupleAccessExpression,
        vec![var("t"), dot(), k(SyntaxKind::Integer, "1")],
    );
    let tree = build(vec![def("x", Some(value))]);
    let root = Root::cast(&tree, 0).unwrap();
    let Expression::TupleAccess(access) = first_def_value(&root) else {
        panic!("expected TupleAccessExpression")
    };
    assert_eq!(access.index(), Some(1));
    assert!(access.tuple().is_some());
}

#[test]
fn later_pub_use_is_public_and_earlier_one_is_not() {
    let tree = build(vec![
        use_stmt(vec![path(vec![ident("a")])]),
        k(SyntaxKind::NewLine, "\n"),
        k(SyntaxKind::PubKeyword, "pub"),
        ws(),
        use_stmt(vec![path(vec![ident("b")])]),
    ]);
    let root = Root::cast(&tree, 0).unwrap();
    let items = root.items();
    let Item::UseStatement(first) = items[0] else { panic!("expected UseStatement") };
    let Item::UseStatement(second) = items[1] else { panic!("expected UseStatement") };
    assert!(!first.is_pub());
    assert!(second.is_pub());
}

#[test]
fn later_pub_function_is_public_and_earlier_one_is_not() {
    let tree = build(vec![
        k(SyntaxKind::PubKeyword, "pub"),
        ws(),
        function("a", vec![], None, block(vec![int_lit("1")])),
        k(SyntaxKind::NewLine, "\n"),
        function("b", vec![], None, block(vec![int_lit("2")])),
    ]);
    let root = Root::cast(&tree, 0).unwrap();
    let items = root.items();
    let Item::FunctionDefinition(a) = items[0] else { panic!("expected FunctionDefinition") };
    let Item::FunctionDefinition(b) = items[1] else { panic!("expected FunctionDefinition") };
    assert!(a.is_pub());
    assert!(!b.is_pub());
}
