//! The concrete syntax tree: an arena of nodes whose children are nodes and
//! tokens in source order, with the searches that the typed AST is built on.
use vstd::prelude::*;

pub use crate::cst_kind::SyntaxKind;
use crate::cst_kind::spec_is_trivia;
use vstd::string::StringSliceAdditionalSpecFns;

verus! {

/// A range of source text, as byte offsets `start..end`.
#[derive(Debug, Clone, Copy, PartialEq, Eq, Structural)]
pub struct TextRange {
    pub start: u32,
    pub end: u32,
}

impl TextRange {
    /// The empty range at offset zero.
    pub fn empty() -> (r: TextRange)
        ensures
            r.start == 0 && r.end == 0,
    {
        TextRange { start: 0, end: 0 }
    }
}

/// A token of the tree: its kind, its text and its source range.
#[derive(Debug, Clone)]
pub struct Token {
    pub kind: SyntaxKind,
    pub text: String,
    pub range: TextRange,
}

impl Token {
    /// A copy of the token.
    pub fn duplicate(&self) -> (r: Token)
        ensures
            r == *self,
    {
        Token { kind: self.kind, text: self.text.clone(), range: self.range }
    }
}

/// A child of a node: another node (by its index in the tree) or a token.
#[derive(Debug, Clone)]
pub enum Element {
    Node(usize),
    Token(Token),
}

/// A node of the tree.
#[derive(Debug, Clone)]
pub struct NodeData {
    pub kind: SyntaxKind,
    pub parent: Option<usize>,
    pub children: Vec<Element>,
    pub range: TextRange,
}

/// A syntax tree. Node 0 is the root; every child node comes after its
/// parent in the arena.
#[derive(Debug, Clone)]
pub struct SyntaxTree {
    pub nodes: Vec<NodeData>,
}

/// The characters of a text with every `_` removed.
pub open spec fn without_underscores(s: Seq<char>) -> Seq<char>
    decreases s.len(),
{
    if s.len() == 0 {
        s
    } else if s[0] == '_' {
        without_underscores(s.drop_first())
    } else {
        seq![s[0]] + without_underscores(s.drop_first())
    }
}

/// Whether a character is ASCII.
pub open spec fn is_ascii_char(c: char) -> bool {
    (c as u32) < 128
}

/// What the lexer guarantees of the text of a token of the given kind:
/// radix integers start with a two-character ASCII prefix (after removing
/// `_`), strings are wrapped in one ASCII quote on each side, multi-line
/// strings in three.
pub open spec fn token_text_wf(kind: SyntaxKind, text: Seq<char>) -> bool {
    match kind {
        SyntaxKind::BinaryInteger | SyntaxKind::OctalInteger | SyntaxKind::HexInteger => {
            let t = without_underscores(text);
            t.len() >= 2 && is_ascii_char(t[0]) && is_ascii_char(t[1])
        },
        SyntaxKind::String => text.len() >= 2 && is_ascii_char(text[0]) && is_ascii_char(
            text[text.len() - 1],
        ),
        SyntaxKind::MultiLineString => text.len() >= 6 && is_ascii_char(text[0]) && is_ascii_char(
            text[1],
        ) && is_ascii_char(text[2]) && is_ascii_char(text[text.len() - 1]) && is_ascii_char(
            text[text.len() - 2],
        ) && is_ascii_char(text[text.len() - 3]),
        _ => true,
    }
}

/// Groups of kinds that the tree searches select by.
#[derive(Debug, Clone, Copy, PartialEq, Eq, Structural)]
pub enum KindClass {
    /// Exactly one kind.
    Exactly(SyntaxKind),
    /// Kinds that cast to an expression.
    Expression,
    /// Kinds that cast to an item.
    Item,
    /// Tokens of infix operators.
    InfixOperator,
    /// Tokens of prefix operators.
    PrefixOperator,
    /// Tokens of literals.
    LiteralToken,
    /// Every kind.
    Any,
    /// Every kind but trivia.
    NonTrivia,
}

/// Node kinds of expressions.
pub open spec fn is_expression_kind(k: SyntaxKind) -> bool {
    match k {
        SyntaxKind::InfixExpression | SyntaxKind::Literal | SyntaxKind::ParenthesisExpression
        | SyntaxKind::PrefixExpression | SyntaxKind::VariableReference
        | SyntaxKind::BlockExpression | SyntaxKind::IfExpression | SyntaxKind::LoopExpression
        | SyntaxKind::WhileExpression | SyntaxKind::ForExpression | SyntaxKind::RangeExpression
        | SyntaxKind::FunctionExpression | SyntaxKind::CallExpression
        | SyntaxKind::ListExpression | SyntaxKind::IndexExpression | SyntaxKind::SliceExpression
        | SyntaxKind::TupleExpression | SyntaxKind::TupleAccessExpression => true,
        _ => false,
    }
}

/// Node kinds of items: statements and expressions.
pub open spec fn is_item_kind(k: SyntaxKind) -> bool {
    match k {
        SyntaxKind::UseStatement | SyntaxKind::FunctionDefinition
        | SyntaxKind::VariableDefinition | SyntaxKind::VariableAssignment
        | SyntaxKind::IndexAssignment | SyntaxKind::ReturnStatement | SyntaxKind::EchoStatement
        | SyntaxKind::BreakStatement | SyntaxKind::ContinueStatement => true,
        _ => is_expression_kind(k),
    }
}

/// Token kinds of infix operators.
pub open spec fn is_infix_operator_kind(k: SyntaxKind) -> bool {
    match k {
        SyntaxKind::Plus | SyntaxKind::Minus | SyntaxKind::Asterisk | SyntaxKind::Slash
        | SyntaxKind::Percent | SyntaxKind::PlusDot | SyntaxKind::MinusDot
        | SyntaxKind::AsteriskDot | SyntaxKind::SlashDot | SyntaxKind::EqualsEquals
        | SyntaxKind::NotEquals | SyntaxKind::GreaterThan | SyntaxKind::LessThan
        | SyntaxKind::GreaterThanOrEqual | SyntaxKind::LessThanOrEqual
        | SyntaxKind::GreaterThanDot | SyntaxKind::LessThanDot
        | SyntaxKind::GreaterThanOrEqualDot | SyntaxKind::LessThanOrEqualDot
        | SyntaxKind::AndKeyword | SyntaxKind::OrKeyword => true,
        _ => false,
    }
}

/// Token kinds of literals.
pub open spec fn is_literal_token_kind(k: SyntaxKind) -> bool {
    match k {
        SyntaxKind::Integer | SyntaxKind::BinaryInteger | SyntaxKind::OctalInteger
        | SyntaxKind::HexInteger | SyntaxKind::Float | SyntaxKind::FloatExponent
        | SyntaxKind::String | SyntaxKind::MultiLineString | SyntaxKind::TrueKeyword
        | SyntaxKind::FalseKeyword => true,
        _ => false,
    }
}

/// Membership of a kind in a class.
pub open spec fn class_has(c: KindClass, k: SyntaxKind) -> bool {
    match c {
        KindClass::Exactly(x) => k == x,
        KindClass::Expression => is_expression_kind(k),
        KindClass::Item => is_item_kind(k),
        KindClass::InfixOperator => is_infix_operator_kind(k),
        KindClass::PrefixOperator => k == SyntaxKind::Minus || k == SyntaxKind::Bang,
        KindClass::LiteralToken => is_literal_token_kind(k),
        KindClass::Any => true,
        KindClass::NonTrivia => !spec_is_trivia(k),
    }
}

/// Whether a node kind is an expression kind.
pub fn is_expression_node_kind(k: SyntaxKind) -> (r: bool)
    ensures
        r == is_expression_kind(k),
{
    match k {
        SyntaxKind::InfixExpression | SyntaxKind::Literal | SyntaxKind::ParenthesisExpression
        | SyntaxKind::PrefixExpression | SyntaxKind::VariableReference
        | SyntaxKind::BlockExpression | SyntaxKind::IfExpression | SyntaxKind::LoopExpression
        | SyntaxKind::WhileExpression | SyntaxKind::ForExpression | SyntaxKind::RangeExpression
        | SyntaxKind::FunctionExpression | SyntaxKind::CallExpression
        | SyntaxKind::ListExpression | SyntaxKind::IndexExpression | SyntaxKind::SliceExpression
        | SyntaxKind::TupleExpression | SyntaxKind::TupleAccessExpression => true,
        _ => false,
    }
}

/// Whether a kind is in a class.
pub fn class_contains(c: KindClass, k: SyntaxKind) -> (r: bool)
    ensures
        r == class_has(c, k),
{
    match c {
        KindClass::Exactly(x) => k == x,
        KindClass::Expression => is_expression_node_kind(k),
        KindClass::Item => match k {
            SyntaxKind::UseStatement | SyntaxKind::FunctionDefinition
            | SyntaxKind::VariableDefinition | SyntaxKind::VariableAssignment
            | SyntaxKind::IndexAssignment | SyntaxKind::ReturnStatement
            | SyntaxKind::EchoStatement | SyntaxKind::BreakStatement
            | SyntaxKind::ContinueStatement => true,
            _ => is_expression_node_kind(k),
        },
        KindClass::InfixOperator => match k {
            SyntaxKind::Plus | SyntaxKind::Minus | SyntaxKind::Asterisk | SyntaxKind::Slash
            | SyntaxKind::Percent | SyntaxKind::PlusDot | SyntaxKind::MinusDot
            | SyntaxKind::AsteriskDot | SyntaxKind::SlashDot | SyntaxKind::EqualsEquals
            | SyntaxKind::NotEquals | SyntaxKind::GreaterThan | SyntaxKind::LessThan
            | SyntaxKind::GreaterThanOrEqual | SyntaxKind::LessThanOrEqual
            | SyntaxKind::GreaterThanDot | SyntaxKind::LessThanDot
            | SyntaxKind::GreaterThanOrEqualDot | SyntaxKind::LessThanOrEqualDot
            | SyntaxKind::AndKeyword | SyntaxKind::OrKeyword => true,
            _ => false,
        },
        KindClass::PrefixOperator => k == SyntaxKind::Minus || k == SyntaxKind::Bang,
        KindClass::LiteralToken => match k {
            SyntaxKind::Integer | SyntaxKind::BinaryInteger | SyntaxKind::OctalInteger
            | SyntaxKind::HexInteger | SyntaxKind::Float | SyntaxKind::FloatExponent
            | SyntaxKind::String | SyntaxKind::MultiLineString | SyntaxKind::TrueKeyword
            | SyntaxKind::FalseKeyword => true,
            _ => false,
        },
        KindClass::Any => true,
        KindClass::NonTrivia => !k.is_trivia(),
    }
}

/// The child nodes among `elems` whose kind is in `c`, in order.
pub open spec fn nodes_where(tree: SyntaxTree, elems: Seq<Element>, c: KindClass) -> Seq<usize>
    decreases elems.len(),
{
    if elems.len() == 0 {
        Seq::empty()
    } else {
        let rest = nodes_where(tree, elems.drop_first(), c);
        match elems[0] {
            Element::Node(j) => if class_has(c, tree.nodes@[j as int].kind) {
                seq![j] + rest
            } else {
                rest
            },
            Element::Token(_) => rest,
        }
    }
}

/// The tokens among `elems` whose kind is in `c`, in order.
pub open spec fn tokens_where(elems: Seq<Element>, c: KindClass) -> Seq<Token>
    decreases elems.len(),
{
    if elems.len() == 0 {
        Seq::empty()
    } else {
        let rest = tokens_where(elems.drop_first(), c);
        match elems[0] {
            Element::Token(t) => if class_has(c, t.kind) {
                seq![t] + rest
            } else {
                rest
            },
            Element::Node(_) => rest,
        }
    }
}

/// The first element of a sequence, if any.
pub open spec fn first_of<T>(s: Seq<T>) -> Option<T> {
    if s.len() > 0 {
        Some(s[0])
    } else {
        None
    }
}

/// The element at position `n` of a sequence, if any.
pub open spec fn nth_of<T>(s: Seq<T>, n: int) -> Option<T> {
    if 0 <= n < s.len() {
        Some(s[n])
    } else {
        None
    }
}

impl SyntaxTree {
    /// Every child node comes after its parent and lies in the arena, every
    /// parent comes before its child, and token texts are as the lexer makes
    /// them.
    pub open spec fn wf(&self) -> bool {
        &&& forall|i: int, c: int|
            #![trigger self.nodes@[i].children@[c]]
            0 <= i < self.nodes@.len() && 0 <= c < self.nodes@[i].children@.len() ==> match self.nodes@[i].children@[c] {
                Element::Node(j) => i < j < self.nodes@.len(),
                Element::Token(t) => token_text_wf(t.kind, t.text@) && t.range.start
                    <= t.range.end,
            }
        &&& forall|i: int|
            #![trigger self.nodes@[i].parent]
            0 <= i < self.nodes@.len() ==> (match self.nodes@[i].parent {
                Some(p) => p < i,
                None => true,
            }) && self.nodes@[i].range.start <= self.nodes@[i].range.end
    }

    /// The kind of node `id`.
    pub open spec fn kind_of(&self, id: usize) -> SyntaxKind {
        self.nodes@[id as int].kind
    }

    /// The children of node `id`.
    pub open spec fn children_of(&self, id: usize) -> Seq<Element> {
        self.nodes@[id as int].children@
    }

    /// The child nodes of node `id` whose kind is in `c`, in order.
    pub fn child_nodes(&self, id: usize, c: KindClass) -> (r: Vec<usize>)
        requires
            self.wf(),
            id < self.nodes@.len(),
        ensures
            r@ == nodes_where(*self, self.children_of(id), c),
            forall|k: int| 0 <= k < r@.len() ==> id < #[trigger] r@[k] < self.nodes@.len(),
            forall|k: int| 0 <= k < r@.len() ==> class_has(c, self.kind_of(#[trigger] r@[k])),
    {
        let children = &self.nodes[id].children;
        let ghost elems = children@;
        let mut out: Vec<usize> = Vec::new();
        let mut i: usize = 0;
        assert(elems.skip(0) =~= elems);
        assert(out@ + nodes_where(*self, elems, c) =~= nodes_where(*self, elems, c));
        while i < children.len()
            invariant
                self.wf(),
                id < self.nodes@.len(),
                children@ == elems,
                elems == self.children_of(id),
                i <= elems.len(),
                out@ + nodes_where(*self, elems.skip(i as int), c) == nodes_where(*self, elems, c),
                forall|k: int| 0 <= k < out@.len() ==> id < #[trigger] out@[k] < self.nodes@.len(),
                forall|k: int| 0 <= k < out@.len() ==> class_has(c, self.kind_of(#[trigger] out@[k])),
            decreases elems.len() - i,
        {
            assert(elems.skip(i as int).drop_first() =~= elems.skip(i + 1));
            assert(elems.skip(i as int)[0] == elems[i as int]);
            match &children[i] {
                Element::Node(j) => {
                    let j = *j;
                    assert(self.nodes@[id as int].children@[i as int] == Element::Node(j));
                    if class_contains(c, self.nodes[j].kind) {
                        out.push(j);
                        assert(out@ + nodes_where(*self, elems.skip(i + 1), c) =~= out@.drop_last()
                            + nodes_where(*self, elems.skip(i as int), c));
                    }
                },
                Element::Token(_) => {},
            }
            i = i + 1;
        }
        assert(elems.skip(i as int) =~= Seq::<Element>::empty());
        assert(out@ + Seq::<usize>::empty() =~= out@);
        out
    }

    /// The child tokens of node `id` whose kind is in `c`, in order.
    pub fn child_tokens(&self, id: usize, c: KindClass) -> (r: Vec<Token>)
        requires
            self.wf(),
            id < self.nodes@.len(),
        ensures
            r@ == tokens_where(self.children_of(id), c),
    {
        let children = &self.nodes[id].children;
        let ghost elems = children@;
        let mut out: Vec<Token> = Vec::new();
        let mut i: usize = 0;
        assert(elems.skip(0) =~= elems);
        assert(out@ + tokens_where(elems, c) =~= tokens_where(elems, c));
        while i < children.len()
            invariant
                children@ == elems,
                elems == self.children_of(id),
                i <= elems.len(),
                out@ + tokens_where(elems.skip(i as int), c) == tokens_where(elems, c),
            decreases elems.len() - i,
        {
            assert(elems.skip(i as int).drop_first() =~= elems.skip(i + 1));
            assert(elems.skip(i as int)[0] == elems[i as int]);
            match &children[i] {
                Element::Token(t) => {
                    if class_contains(c, t.kind) {
                        out.push(t.duplicate());
                        assert(out@ + tokens_where(elems.skip(i + 1), c) =~= out@.drop_last()
                            + tokens_where(elems.skip(i as int), c));
                    }
                },
                Element::Node(_) => {},
            }
            i = i + 1;
        }
        assert(elems.skip(i as int) =~= Seq::<Element>::empty());
        assert(out@ + Seq::<Token>::empty() =~= out@);
        out
    }
}


/// Builds a syntax tree from a sequence of node starts, tokens and node
/// finishes, in source order: each token's range follows the previous
/// token's, and each node spans the tokens given between its start and its
/// finish.
pub struct TreeBuilder {
    nodes: Vec<NodeData>,
    open: Vec<usize>,
    offset: u32,
}

impl TreeBuilder {
    /// The nodes built so far.
    pub closed spec fn nodes(&self) -> Seq<NodeData> {
        self.nodes@
    }

    /// The nodes started and not yet finished, innermost last.
    pub closed spec fn open_nodes(&self) -> Seq<usize> {
        self.open@
    }

    /// The source offset reached: the total length of the tokens so far.
    pub closed spec fn offset(&self) -> u32 {
        self.offset
    }

    /// The nodes form a well-formed tree, the open nodes lie in it, and no
    /// range reaches past the offset.
    pub closed spec fn wf(&self) -> bool {
        &&& (SyntaxTree { nodes: self.nodes }).wf()
        &&& forall|k: int| 0 <= k < self.open@.len() ==> #[trigger] self.open@[k] < self.nodes@.len()
        &&& forall|i: int|
            0 <= i < self.nodes@.len() ==> (#[trigger] self.nodes@[i]).range.end <= self.offset
    }

    /// A builder with no node.
    pub fn new() -> (r: TreeBuilder)
        ensures
            r.wf(),
            r.nodes().len() == 0,
            r.open_nodes().len() == 0,
            r.offset() == 0,
    {
        TreeBuilder { nodes: Vec::new(), open: Vec::new(), offset: 0 }
    }

    /// Starts a node of `kind` as the last child of the innermost open node
    /// (as a root when no node is open).
    pub fn start_node(&mut self, kind: SyntaxKind)
        requires
            old(self).wf(),
            old(self).nodes().len() < usize::MAX,
        ensures
            final(self).wf(),
            final(self).offset() == old(self).offset(),
            final(self).open_nodes() == old(self).open_nodes().push(old(self).nodes().len() as usize),
            final(self).nodes().len() == old(self).nodes().len() + 1,
            final(self).nodes().last().kind == kind,
            final(self).nodes().last().children@.len() == 0,
            final(self).nodes().last().parent == (if old(self).open_nodes().len() == 0 {
                None
            } else {
                Some(old(self).open_nodes().last())
            }),
            forall|i: int|
                0 <= i < old(self).nodes().len() && (old(self).open_nodes().len() == 0 || i
                    != old(self).open_nodes().last()) ==> #[trigger] final(self).nodes()[i] == old(
                    self,
                ).nodes()[i],
            old(self).open_nodes().len() > 0 ==> final(self).nodes()[old(self).open_nodes().last() as int].children@
                == old(self).nodes()[old(self).open_nodes().last() as int].children@.push(
                Element::Node(old(self).nodes().len() as usize),
            ),
    {
        let idx = self.nodes.len();
        let parent = if self.open.len() > 0 {
            Some(self.open[self.open.len() - 1])
        } else {
            None
        };
        let ghost old_nodes = self.nodes@;
        match parent {
            Some(p) => {
                self.nodes[p].children.push(Element::Node(idx));
            },
            None => {},
        }
        self.nodes.push(
            NodeData {
                kind,
                parent,
                children: Vec::new(),
                range: TextRange { start: self.offset, end: self.offset },
            },
        );
        self.open.push(idx);
        proof {
            let t = SyntaxTree { nodes: self.nodes };
            assert forall|i: int, c: int|
                #![trigger t.nodes@[i].children@[c]]
                0 <= i < t.nodes@.len() && 0 <= c < t.nodes@[i].children@.len() implies match t.nodes@[i].children@[c] {
                Element::Node(j) => i < j < t.nodes@.len(),
                Element::Token(tk) => token_text_wf(tk.kind, tk.text@) && tk.range.start
                    <= tk.range.end,
            } by {
                if parent.is_some() && i == parent.unwrap() && c == old_nodes[i].children@.len() {
                } else {
                    assert(t.nodes@[i].children@[c] == old_nodes[i].children@[c]);
                }
            }
            assert forall|i: int|
                #![trigger t.nodes@[i].parent]
                0 <= i < t.nodes@.len() implies (match t.nodes@[i].parent {
                Some(p) => p < i,
                None => true,
            }) && t.nodes@[i].range.start <= t.nodes@[i].range.end by {
                if i < old_nodes.len() {
                    assert(t.nodes@[i].parent == old_nodes[i].parent);
                    assert(t.nodes@[i].range == old_nodes[i].range);
                    assert(old_nodes[i].parent == old_nodes[i].parent);
                }
            }
            assert forall|k: int| 0 <= k < self.open@.len() implies #[trigger] self.open@[k]
                < self.nodes@.len() by {
                if k < old(self).open@.len() {
                    assert(self.open@[k] == old(self).open@[k]);
                }
            }
            assert forall|i: int| 0 <= i < self.nodes@.len() implies (
            #[trigger] self.nodes@[i]).range.end <= self.offset by {
                if i < old_nodes.len() {
                    assert(self.nodes@[i].range == old_nodes[i].range);
                }
            }
        }
    }

    /// Adds a token of `kind` with `text` as the last child of the innermost
    /// open node; its range follows the previous token's.
    pub fn token(&mut self, kind: SyntaxKind, text: &str)
        requires
            old(self).wf(),
            old(self).open_nodes().len() > 0,
            token_text_wf(kind, text@),
            old(self).offset() + text.spec_bytes().len() <= u32::MAX,
        ensures
            final(self).wf(),
            final(self).offset() == old(self).offset() + text.spec_bytes().len(),
            final(self).open_nodes() == old(self).open_nodes(),
            final(self).nodes().len() == old(self).nodes().len(),
            forall|i: int|
                0 <= i < old(self).nodes().len() && i != old(self).open_nodes().last()
                    ==> #[trigger] final(self).nodes()[i] == old(self).nodes()[i],
            final(self).nodes()[old(self).open_nodes().last() as int].children@.len() == old(
                self,
            ).nodes()[old(self).open_nodes().last() as int].children@.len() + 1,
            final(self).nodes()[old(self).open_nodes().last() as int].children@.last() matches Element::Token(t)
                && t.kind == kind && t.text@ == text@ && t.range.start == old(self).offset()
                && t.range.end == final(self).offset(),
    {
        let p = self.open[self.open.len() - 1];
        let len = text.len();
        let start = self.offset;
        let end = self.offset + len as u32;
        let ghost old_nodes = self.nodes@;
        self.nodes[p].children.push(
            Element::Token(Token { kind, text: text.to_owned(), range: TextRange { start, end } }),
        );
        self.offset = end;
        proof {
            let t = SyntaxTree { nodes: self.nodes };
            assert forall|i: int, c: int|
                #![trigger t.nodes@[i].children@[c]]
                0 <= i < t.nodes@.len() && 0 <= c < t.nodes@[i].children@.len() implies match t.nodes@[i].children@[c] {
                Element::Node(j) => i < j < t.nodes@.len(),
                Element::Token(tk) => token_text_wf(tk.kind, tk.text@) && tk.range.start
                    <= tk.range.end,
            } by {
                if i == p && c == old_nodes[i].children@.len() {
                } else {
                    assert(t.nodes@[i].children@[c] == old_nodes[i].children@[c]);
                }
            }
            assert forall|i: int|
                #![trigger t.nodes@[i].parent]
                0 <= i < t.nodes@.len() implies (match t.nodes@[i].parent {
                Some(q) => q < i,
                None => true,
            }) && t.nodes@[i].range.start <= t.nodes@[i].range.end by {
                assert(t.nodes@[i].parent == old_nodes[i].parent);
                assert(t.nodes@[i].range == old_nodes[i].range);
                assert(old_nodes[i].parent == old_nodes[i].parent);
            }
            assert forall|i: int| 0 <= i < self.nodes@.len() implies (
            #[trigger] self.nodes@[i]).range.end <= self.offset by {
                assert(self.nodes@[i].range == old_nodes[i].range);
            }
        }
    }

    /// Finishes the innermost open node: its range ends at the offset
    /// reached.
    pub fn finish_node(&mut self)
        requires
            old(self).wf(),
            old(self).open_nodes().len() > 0,
        ensures
            final(self).wf(),
            final(self).offset() == old(self).offset(),
            final(self).open_nodes() == old(self).open_nodes().drop_last(),
            final(self).nodes().len() == old(self).nodes().len(),
            forall|i: int|
                0 <= i < old(self).nodes().len() && i != old(self).open_nodes().last()
                    ==> #[trigger] final(self).nodes()[i] == old(self).nodes()[i],
            final(self).nodes()[old(self).open_nodes().last() as int].range.end == old(self).offset(),
            final(self).nodes()[old(self).open_nodes().last() as int].range.start == old(
                self,
            ).nodes()[old(self).open_nodes().last() as int].range.start,
            final(self).nodes()[old(self).open_nodes().last() as int].kind == old(self).nodes()[old(
                self,
            ).open_nodes().last() as int].kind,
            final(self).nodes()[old(self).open_nodes().last() as int].children == old(self).nodes()[old(
                self,
            ).open_nodes().last() as int].children,
    {
        let p = self.open[self.open.len() - 1];
        let ghost old_nodes = self.nodes@;
        let end = self.offset;
        assert(old_nodes[p as int].parent == old_nodes[p as int].parent);
        self.nodes[p].range.end = end;
        self.open.pop();
        proof {
            let t = SyntaxTree { nodes: self.nodes };
            assert forall|i: int, c: int|
                #![trigger t.nodes@[i].children@[c]]
                0 <= i < t.nodes@.len() && 0 <= c < t.nodes@[i].children@.len() implies match t.nodes@[i].children@[c] {
                Element::Node(j) => i < j < t.nodes@.len(),
                Element::Token(tk) => token_text_wf(tk.kind, tk.text@) && tk.range.start
                    <= tk.range.end,
            } by {
                assert(t.nodes@[i].children@[c] == old_nodes[i].children@[c]);
            }
            assert forall|i: int|
                #![trigger t.nodes@[i].parent]
                0 <= i < t.nodes@.len() implies (match t.nodes@[i].parent {
                Some(q) => q < i,
                None => true,
            }) && t.nodes@[i].range.start <= t.nodes@[i].range.end by {
                assert(t.nodes@[i].parent == old_nodes[i].parent);
                assert(old_nodes[i].parent == old_nodes[i].parent);
                if i != p {
                    assert(t.nodes@[i].range == old_nodes[i].range);
                }
            }
            assert forall|k: int| 0 <= k < self.open@.len() implies #[trigger] self.open@[k]
                < self.nodes@.len() by {
                assert(self.open@[k] == old(self).open@[k]);
            }
            assert forall|i: int| 0 <= i < self.nodes@.len() implies (
            #[trigger] self.nodes@[i]).range.end <= self.offset by {
                if i != p {
                    assert(self.nodes@[i].range == old_nodes[i].range);
                }
            }
        }
    }

    /// The tree built: every node started, with its children in order.
    pub fn finish(self) -> (r: SyntaxTree)
        requires
            self.wf(),
        ensures
            r.wf(),
            r.nodes@ == self.nodes(),
    {
        SyntaxTree { nodes: self.nodes }
    }
}

} // verus!
