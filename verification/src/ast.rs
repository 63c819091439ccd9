//! Typed views of the nodes of a syntax tree. Each view holds the tree and
//! the index of a node of the right kind; its accessors find children by kind,
//! in source order.
use vstd::prelude::*;

use crate::cst::{
    class_has, first_of, is_expression_kind, is_item_kind, nodes_where, nth_of, tokens_where,
    Element, KindClass, SyntaxKind, SyntaxTree, TextRange, Token,
};
use crate::cst_kind::spec_is_trivia;
use crate::literal::{literal_of, literal_view, spec_literal_of, LiteralValue, lemma_tokens_where_wf};
use crate::text::{chars_of, parse_unsigned, spec_parse_unsigned};

verus! {

/// Scan of a parent's children for `pub` before the child node `id`: a `pub`
/// token sets the flag, any other non-trivia token or any other node clears
/// it; the flag at `id` is the result (false when `id` is not among them).
pub open spec fn pub_scan(elems: Seq<Element>, id: usize, prev: bool) -> bool
    decreases elems.len(),
{
    if elems.len() == 0 {
        false
    } else {
        let rest = elems.drop_first();
        match elems[0] {
            Element::Token(t) => if t.kind == SyntaxKind::PubKeyword {
                pub_scan(rest, id, true)
            } else if !spec_is_trivia(t.kind) {
                pub_scan(rest, id, false)
            } else {
                pub_scan(rest, id, prev)
            },
            Element::Node(j) => if j == id {
                prev
            } else {
                pub_scan(rest, id, false)
            },
        }
    }
}

/// Whether node `id` is public: among its parent's children, a `pub` token
/// comes directly before it, with only trivia between.
pub open spec fn spec_is_pub(tree: SyntaxTree, id: usize) -> bool {
    match tree.nodes@[id as int].parent {
        Some(p) => pub_scan(tree.children_of(p), id, false),
        None => false,
    }
}

/// Whether a `pub` token, with only trivia after it, comes directly before
/// node `id` among its parent's children.
pub fn follows_pub(tree: &SyntaxTree, id: usize) -> (r: bool)
    requires
        tree.wf(),
        id < tree.nodes@.len(),
    ensures
        r == spec_is_pub(*tree, id),
{
    let p = match tree.nodes[id].parent {
        Some(p) => p,
        None => {
            return false;
        },
    };
    assert(tree.nodes@[id as int].parent == Some(p));
    let children = &tree.nodes[p].children;
    let ghost all = children@;
    let mut prev = false;
    let mut i: usize = 0;
    assert(all.skip(0) =~= all);
    while i < children.len()
        invariant
            tree.wf(),
            id < tree.nodes@.len(),
            tree.nodes@[id as int].parent == Some(p),
            p < tree.nodes@.len(),
            children@ == all,
            all == tree.children_of(p),
            i <= all.len(),
            pub_scan(all.skip(i as int), id, prev) == pub_scan(all, id, false),
        decreases all.len() - i,
    {
        assert(all.skip(i as int).drop_first() =~= all.skip(i + 1));
        assert(all.skip(i as int)[0] == all[i as int]);
        match &children[i] {
            Element::Token(t) => {
                if t.kind == SyntaxKind::PubKeyword {
                    prev = true;
                } else if !t.kind.is_trivia() {
                    prev = false;
                }
            },
            Element::Node(j) => {
                let j = *j;
                if j == id {
                    assert(all[i as int] == Element::Node(j));
                    assert(pub_scan(all.skip(i as int), id, prev) == prev);
                    return prev;
                }
                prev = false;
            },
        }
        i = i + 1;
    }
    assert(all.skip(i as int) =~= Seq::<Element>::empty());
    false
}

/// The first identifier token after an `as` keyword token.
pub open spec fn token_after_as(toks: Seq<Token>, found: bool) -> Option<Token>
    decreases toks.len(),
{
    if toks.len() == 0 {
        None
    } else if toks[0].kind == SyntaxKind::AsKeyword {
        token_after_as(toks.drop_first(), true)
    } else if found && toks[0].kind == SyntaxKind::Identifier {
        Some(toks[0])
    } else {
        token_after_as(toks.drop_first(), found)
    }
}

/// Position of the first block among `ns[i..]`.
pub open spec fn first_block_from(tree: SyntaxTree, ns: Seq<usize>, i: int) -> Option<int>
    decreases ns.len() - i,
{
    if i < 0 || i >= ns.len() {
        None
    } else if tree.kind_of(ns[i]) == SyntaxKind::BlockExpression {
        Some(i)
    } else {
        first_block_from(tree, ns, i + 1)
    }
}

/// The else branch among the child nodes `ns` of an `if`: skip the first
/// child, find the next block, and take the node after it when it is a block
/// or an `if`.
pub open spec fn else_branch_node(tree: SyntaxTree, ns: Seq<usize>) -> Option<usize> {
    if ns.len() == 0 {
        None
    } else {
        match first_block_from(tree, ns, 1) {
            Some(t) => if t + 1 < ns.len() && (tree.kind_of(ns[t + 1]) == SyntaxKind::BlockExpression
                || tree.kind_of(ns[t + 1]) == SyntaxKind::IfExpression) {
                Some(ns[t + 1])
            } else {
                None
            },
            None => None,
        }
    }
}

/// The first identifier token after an element of kind colon.
pub open spec fn label_after_colon(tree: SyntaxTree, elems: Seq<Element>, found: bool) -> Option<Token>
    decreases elems.len(),
{
    if elems.len() == 0 {
        None
    } else {
        let rest = elems.drop_first();
        match elems[0] {
            Element::Node(j) => if tree.kind_of(j) == SyntaxKind::Colon {
                label_after_colon(tree, rest, true)
            } else {
                label_after_colon(tree, rest, found)
            },
            Element::Token(t) => if t.kind == SyntaxKind::Colon {
                label_after_colon(tree, rest, true)
            } else if found && t.kind == SyntaxKind::Identifier {
                Some(t)
            } else {
                label_after_colon(tree, rest, found)
            },
        }
    }
}

/// The start node of a slice: the second child node, when no `..` token
/// comes before it.
pub open spec fn slice_start_node(elems: Seq<Element>, saw: bool, first: bool) -> Option<usize>
    decreases elems.len(),
{
    if elems.len() == 0 {
        None
    } else {
        let rest = elems.drop_first();
        match elems[0] {
            Element::Token(t) => if t.kind == SyntaxKind::DotDot {
                slice_start_node(rest, true, first)
            } else {
                slice_start_node(rest, saw, first)
            },
            Element::Node(j) => if !saw {
                if first {
                    slice_start_node(rest, saw, false)
                } else {
                    Some(j)
                }
            } else {
                slice_start_node(rest, saw, first)
            },
        }
    }
}

/// The end node of a slice: the first child node after a `..` token.
pub open spec fn slice_end_node(elems: Seq<Element>, saw: bool) -> Option<usize>
    decreases elems.len(),
{
    if elems.len() == 0 {
        None
    } else {
        let rest = elems.drop_first();
        match elems[0] {
            Element::Token(t) => if t.kind == SyntaxKind::DotDot {
                slice_end_node(rest, true)
            } else {
                slice_end_node(rest, saw)
            },
            Element::Node(j) => if saw {
                Some(j)
            } else {
                slice_end_node(rest, saw)
            },
        }
    }
}

/// A sequence without its first element (the empty sequence stays empty).
pub open spec fn drop_one<T>(s: Seq<T>) -> Seq<T> {
    if s.len() > 0 {
        s.drop_first()
    } else {
        s
    }
}


/// The root of a source file.
#[derive(Clone, Copy)]
pub struct Root<'a> {
    tree: &'a SyntaxTree,
    node: usize,
}

impl<'a> Root<'a> {
    /// The tree is well formed and the node is one of its `Root` nodes.
    #[verifier::type_invariant]
    pub closed spec fn inv(self) -> bool {
        self.tree.wf() && self.node < self.tree.nodes@.len() && self.tree.kind_of(self.node)
            == SyntaxKind::Root
    }

    /// The tree the node belongs to.
    pub closed spec fn tree(self) -> SyntaxTree {
        *self.tree
    }

    /// The index of the node in its tree.
    pub closed spec fn id(self) -> usize {
        self.node
    }

    /// What the type invariant states.
    pub proof fn lemma_valid(self)
        requires
            self.inv(),
        ensures
            self.tree().wf(),
            self.id() < self.tree().nodes@.len(),
            self.tree().kind_of(self.id()) == SyntaxKind::Root,
    {
    }

    /// The child nodes whose kind is in `c`, in order.
    pub open spec fn nodes_in(self, c: KindClass) -> Seq<usize> {
        nodes_where(self.tree(), self.tree().children_of(self.id()), c)
    }

    /// The child tokens whose kind is in `c`, in order.
    pub open spec fn tokens_in(self, c: KindClass) -> Seq<Token> {
        tokens_where(self.tree().children_of(self.id()), c)
    }

    /// Whether a node of `kind` can be viewed as this type.
    pub fn can_cast(kind: SyntaxKind) -> (r: bool)
        ensures
            r == (kind == SyntaxKind::Root),
    {
        kind == SyntaxKind::Root
    }

    /// Node `node` of `tree` viewed as this type, when it has the right kind.
    pub fn cast(tree: &'a SyntaxTree, node: usize) -> (r: Option<Root<'a>>)
        requires
            tree.wf(),
            node < tree.nodes@.len(),
        ensures
            (r is Some) == (tree.kind_of(node) == SyntaxKind::Root),
            r matches Some(n) ==> n.tree() == *tree && n.id() == node,
    {
        if tree.nodes[node].kind == SyntaxKind::Root {
            Some(Root { tree, node })
        } else {
            None
        }
    }

    /// The index of the node in its tree.
    pub fn syntax(&self) -> (r: usize)
        ensures
            r == self.id(),
    {
        self.node
    }

    /// The tree the node belongs to.
    pub fn tree_ref(&self) -> (r: &'a SyntaxTree)
        ensures
            *r == self.tree(),
    {
        self.tree
    }

    /// The source range of the node.
    pub fn text_range(&self) -> (r: TextRange)
        ensures
            r == self.tree().nodes@[self.id() as int].range,
    {
        proof {
            use_type_invariant(self);
        }
        self.tree.nodes[self.node].range
    }

    /// The items of the file, in order.
    pub fn items(&self) -> (r: Vec<Item<'a>>)
        ensures
            r@.len() == self.nodes_in(KindClass::Item).len(),
            forall|k: int| #![trigger r@[k]] 0 <= k < r@.len() ==> (r@[k].tree() == self.tree() && self.id() < r@[k].id() && r@[k].id() < self.tree().nodes@.len() && r@[k].id() == self.nodes_in(KindClass::Item)[k]),
    {
        proof {
            use_type_invariant(self);
        }
        let ids = self.tree.child_nodes(self.node, KindClass::Item);
        let mut out: Vec<Item<'a>> = Vec::new();
        let mut i: usize = 0;
        while i < ids.len()
            invariant
                self.tree.wf(),
                self.node < self.tree.nodes@.len(),
                ids@ == self.nodes_in(KindClass::Item),
                forall|k: int| 0 <= k < ids@.len() ==> self.node < #[trigger] ids@[k] < self.tree.nodes@.len(),
                forall|k: int| 0 <= k < ids@.len() ==> class_has(KindClass::Item, self.tree.kind_of(#[trigger] ids@[k])),
                i <= ids@.len(),
                out@.len() == i,
                forall|k: int| #![trigger out@[k]] 0 <= k < i ==> (out@[k].tree() == self.tree() && self.id() < out@[k].id() && out@[k].id() < self.tree().nodes@.len() && out@[k].id() == ids@[k]),
            decreases ids@.len() - i,
        {
            let x = Item::cast(self.tree, ids[i]).unwrap();
            let ghost old_out = out@;
            out.push(x);
            assert(out@[i as int] == x);
            assert(x.tree() == self.tree());
            assert(self.id() < x.id());
            assert(x.id() < self.tree().nodes@.len());
            assert(x.id() == ids@[i as int]);
            assert(forall|k: int| 0 <= k < i ==> out@[k] == old_out[k]);
            i = i + 1;
        }
        out
    }

}

/// A `use` statement.
#[derive(Clone, Copy)]
pub struct UseStatement<'a> {
    tree: &'a SyntaxTree,
    node: usize,
}

impl<'a> UseStatement<'a> {
    /// The tree is well formed and the node is one of its `UseStatement` nodes.
    #[verifier::type_invariant]
    pub closed spec fn inv(self) -> bool {
        self.tree.wf() && self.node < self.tree.nodes@.len() && self.tree.kind_of(self.node)
            == SyntaxKind::UseStatement
    }

    /// The tree the node belongs to.
    pub closed spec fn tree(self) -> SyntaxTree {
        *self.tree
    }

    /// The index of the node in its tree.
    pub closed spec fn id(self) -> usize {
        self.node
    }

    /// What the type invariant states.
    pub proof fn lemma_valid(self)
        requires
            self.inv(),
        ensures
            self.tree().wf(),
            self.id() < self.tree().nodes@.len(),
            self.tree().kind_of(self.id()) == SyntaxKind::UseStatement,
    {
    }

    /// The child nodes whose kind is in `c`, in order.
    pub open spec fn nodes_in(self, c: KindClass) -> Seq<usize> {
        nodes_where(self.tree(), self.tree().children_of(self.id()), c)
    }

    /// The child tokens whose kind is in `c`, in order.
    pub open spec fn tokens_in(self, c: KindClass) -> Seq<Token> {
        tokens_where(self.tree().children_of(self.id()), c)
    }

    /// Whether a node of `kind` can be viewed as this type.
    pub fn can_cast(kind: SyntaxKind) -> (r: bool)
        ensures
            r == (kind == SyntaxKind::UseStatement),
    {
        kind == SyntaxKind::UseStatement
    }

    /// Node `node` of `tree` viewed as this type, when it has the right kind.
    pub fn cast(tree: &'a SyntaxTree, node: usize) -> (r: Option<UseStatement<'a>>)
        requires
            tree.wf(),
            node < tree.nodes@.len(),
        ensures
            (r is Some) == (tree.kind_of(node) == SyntaxKind::UseStatement),
            r matches Some(n) ==> n.tree() == *tree && n.id() == node,
    {
        if tree.nodes[node].kind == SyntaxKind::UseStatement {
            Some(UseStatement { tree, node })
        } else {
            None
        }
    }

    /// The index of the node in its tree.
    pub fn syntax(&self) -> (r: usize)
        ensures
            r == self.id(),
    {
        self.node
    }

    /// The tree the node belongs to.
    pub fn tree_ref(&self) -> (r: &'a SyntaxTree)
        ensures
            *r == self.tree(),
    {
        self.tree
    }

    /// The source range of the node.
    pub fn text_range(&self) -> (r: TextRange)
        ensures
            r == self.tree().nodes@[self.id() as int].range,
    {
        proof {
            use_type_invariant(self);
        }
        self.tree.nodes[self.node].range
    }

    /// Whether the statement is a public re-export: a `pub` token, with only trivia after it, comes directly before it among its parent's children.
    pub fn is_pub(&self) -> (r: bool)
        ensures
            r == spec_is_pub(self.tree(), self.id()),
    {
        proof {
            use_type_invariant(self);
        }
        follows_pub(self.tree, self.node)
    }

    /// The module path.
    pub fn path_of_module(&self) -> (r: Option<ModulePath<'a>>)
        ensures
            r matches Some(x) ==> (x.tree() == self.tree() && self.id() < x.id() && x.id() < self.tree().nodes@.len() && first_of(self.nodes_in(KindClass::Exactly(SyntaxKind::ModulePath))) == Some(x.id())),
            r is None <==> first_of(self.nodes_in(KindClass::Exactly(SyntaxKind::ModulePath))) is None,
    {
        proof {
            use_type_invariant(self);
        }
        let ids = self.tree.child_nodes(self.node, KindClass::Exactly(SyntaxKind::ModulePath));
        if ids.len() > 0 {
            ModulePath::cast(self.tree, ids[0])
        } else {
            None
        }
    }

    /// The list of selectively imported names.
    pub fn import_list(&self) -> (r: Option<ImportList<'a>>)
        ensures
            r matches Some(x) ==> (x.tree() == self.tree() && self.id() < x.id() && x.id() < self.tree().nodes@.len() && first_of(self.nodes_in(KindClass::Exactly(SyntaxKind::ImportList))) == Some(x.id())),
            r is None <==> first_of(self.nodes_in(KindClass::Exactly(SyntaxKind::ImportList))) is None,
    {
        proof {
            use_type_invariant(self);
        }
        let ids = self.tree.child_nodes(self.node, KindClass::Exactly(SyntaxKind::ImportList));
        if ids.len() > 0 {
            ImportList::cast(self.tree, ids[0])
        } else {
            None
        }
    }

    /// The alias of the imported module.
    pub fn import_alias(&self) -> (r: Option<ImportAlias<'a>>)
        ensures
            r matches Some(x) ==> (x.tree() == self.tree() && self.id() < x.id() && x.id() < self.tree().nodes@.len() && first_of(self.nodes_in(KindClass::Exactly(SyntaxKind::ImportAlias))) == Some(x.id())),
            r is None <==> first_of(self.nodes_in(KindClass::Exactly(SyntaxKind::ImportAlias))) is None,
    {
        proof {
            use_type_invariant(self);
        }
        let ids = self.tree.child_nodes(self.node, KindClass::Exactly(SyntaxKind::ImportAlias));
        if ids.len() > 0 {
            ImportAlias::cast(self.tree, ids[0])
        } else {
            None
        }
    }

}

/// The module path of a `use` statement, such as `std.io` or `.helpers`.
#[derive(Clone, Copy)]
pub struct ModulePath<'a> {
    tree: &'a SyntaxTree,
    node: usize,
}

impl<'a> ModulePath<'a> {
    /// The tree is well formed and the node is one of its `ModulePath` nodes.
    #[verifier::type_invariant]
    pub closed spec fn inv(self) -> bool {
        self.tree.wf() && self.node < self.tree.nodes@.len() && self.tree.kind_of(self.node)
            == SyntaxKind::ModulePath
    }

    /// The tree the node belongs to.
    pub closed spec fn tree(self) -> SyntaxTree {
        *self.tree
    }

    /// The index of the node in its tree.
    pub closed spec fn id(self) -> usize {
        self.node
    }

    /// What the type invariant states.
    pub proof fn lemma_valid(self)
        requires
            self.inv(),
        ensures
            self.tree().wf(),
            self.id() < self.tree().nodes@.len(),
            self.tree().kind_of(self.id()) == SyntaxKind::ModulePath,
    {
    }

    /// The child nodes whose kind is in `c`, in order.
    pub open spec fn nodes_in(self, c: KindClass) -> Seq<usize> {
        nodes_where(self.tree(), self.tree().children_of(self.id()), c)
    }

    /// The child tokens whose kind is in `c`, in order.
    pub open spec fn tokens_in(self, c: KindClass) -> Seq<Token> {
        tokens_where(self.tree().children_of(self.id()), c)
    }

    /// Whether a node of `kind` can be viewed as this type.
    pub fn can_cast(kind: SyntaxKind) -> (r: bool)
        ensures
            r == (kind == SyntaxKind::ModulePath),
    {
        kind == SyntaxKind::ModulePath
    }

    /// Node `node` of `tree` viewed as this type, when it has the right kind.
    pub fn cast(tree: &'a SyntaxTree, node: usize) -> (r: Option<ModulePath<'a>>)
        requires
            tree.wf(),
            node < tree.nodes@.len(),
        ensures
            (r is Some) == (tree.kind_of(node) == SyntaxKind::ModulePath),
            r matches Some(n) ==> n.tree() == *tree && n.id() == node,
    {
        if tree.nodes[node].kind == SyntaxKind::ModulePath {
            Some(ModulePath { tree, node })
        } else {
            None
        }
    }

    /// The index of the node in its tree.
    pub fn syntax(&self) -> (r: usize)
        ensures
            r == self.id(),
    {
        self.node
    }

    /// The tree the node belongs to.
    pub fn tree_ref(&self) -> (r: &'a SyntaxTree)
        ensures
            *r == self.tree(),
    {
        self.tree
    }

    /// The source range of the node.
    pub fn text_range(&self) -> (r: TextRange)
        ensures
            r == self.tree().nodes@[self.id() as int].range,
    {
        proof {
            use_type_invariant(self);
        }
        self.tree.nodes[self.node].range
    }

    /// Whether the path is relative: its first non-trivia token is a dot.
    pub fn is_relative(&self) -> (r: bool)
        ensures
            r == (first_of(self.tokens_in(KindClass::NonTrivia)) matches Some(t) && t.kind
                == SyntaxKind::Dot),
    {
        proof {
            use_type_invariant(self);
        }
        let toks = self.tree.child_tokens(self.node, KindClass::NonTrivia);
        toks.len() > 0 && toks[0].kind == SyntaxKind::Dot
    }

    /// The identifiers of the path, in order.
    pub fn segments(&self) -> (r: Vec<Token>)
        ensures
            r@ == self.tokens_in(KindClass::Exactly(SyntaxKind::Identifier)),
    {
        proof {
            use_type_invariant(self);
        }
        self.tree.child_tokens(self.node, KindClass::Exactly(SyntaxKind::Identifier))
    }

}

/// A list of selectively imported names, such as `{sin, cos}`.
#[derive(Clone, Copy)]
pub struct ImportList<'a> {
    tree: &'a SyntaxTree,
    node: usize,
}

impl<'a> ImportList<'a> {
    /// The tree is well formed and the node is one of its `ImportList` nodes.
    #[verifier::type_invariant]
    pub closed spec fn inv(self) -> bool {
        self.tree.wf() && self.node < self.tree.nodes@.len() && self.tree.kind_of(self.node)
            == SyntaxKind::ImportList
    }

    /// The tree the node belongs to.
    pub closed spec fn tree(self) -> SyntaxTree {
        *self.tree
    }

    /// The index of the node in its tree.
    pub closed spec fn id(self) -> usize {
        self.node
    }

    /// What the type invariant states.
    pub proof fn lemma_valid(self)
        requires
            self.inv(),
        ensures
            self.tree().wf(),
            self.id() < self.tree().nodes@.len(),
            self.tree().kind_of(self.id()) == SyntaxKind::ImportList,
    {
    }

    /// The child nodes whose kind is in `c`, in order.
    pub open spec fn nodes_in(self, c: KindClass) -> Seq<usize> {
        nodes_where(self.tree(), self.tree().children_of(self.id()), c)
    }

    /// The child tokens whose kind is in `c`, in order.
    pub open spec fn tokens_in(self, c: KindClass) -> Seq<Token> {
        tokens_where(self.tree().children_of(self.id()), c)
    }

    /// Whether a node of `kind` can be viewed as this type.
    pub fn can_cast(kind: SyntaxKind) -> (r: bool)
        ensures
            r == (kind == SyntaxKind::ImportList),
    {
        kind == SyntaxKind::ImportList
    }

    /// Node `node` of `tree` viewed as this type, when it has the right kind.
    pub fn cast(tree: &'a SyntaxTree, node: usize) -> (r: Option<ImportList<'a>>)
        requires
            tree.wf(),
            node < tree.nodes@.len(),
        ensures
            (r is Some) == (tree.kind_of(node) == SyntaxKind::ImportList),
            r matches Some(n) ==> n.tree() == *tree && n.id() == node,
    {
        if tree.nodes[node].kind == SyntaxKind::ImportList {
            Some(ImportList { tree, node })
        } else {
            None
        }
    }

    /// The index of the node in its tree.
    pub fn syntax(&self) -> (r: usize)
        ensures
            r == self.id(),
    {
        self.node
    }

    /// The tree the node belongs to.
    pub fn tree_ref(&self) -> (r: &'a SyntaxTree)
        ensures
            *r == self.tree(),
    {
        self.tree
    }

    /// The source range of the node.
    pub fn text_range(&self) -> (r: TextRange)
        ensures
            r == self.tree().nodes@[self.id() as int].range,
    {
        proof {
            use_type_invariant(self);
        }
        self.tree.nodes[self.node].range
    }

    /// The imported names, in order.
    pub fn items(&self) -> (r: Vec<ImportItem<'a>>)
        ensures
            r@.len() == self.nodes_in(KindClass::Exactly(SyntaxKind::ImportItem)).len(),
            forall|k: int| #![trigger r@[k]] 0 <= k < r@.len() ==> (r@[k].tree() == self.tree() && self.id() < r@[k].id() && r@[k].id() < self.tree().nodes@.len() && r@[k].id() == self.nodes_in(KindClass::Exactly(SyntaxKind::ImportItem))[k]),
    {
        proof {
            use_type_invariant(self);
        }
        let ids = self.tree.child_nodes(self.node, KindClass::Exactly(SyntaxKind::ImportItem));
        let mut out: Vec<ImportItem<'a>> = Vec::new();
        let mut i: usize = 0;
        while i < ids.len()
            invariant
                self.tree.wf(),
                self.node < self.tree.nodes@.len(),
                ids@ == self.nodes_in(KindClass::Exactly(SyntaxKind::ImportItem)),
                forall|k: int| 0 <= k < ids@.len() ==> self.node < #[trigger] ids@[k] < self.tree.nodes@.len(),
                forall|k: int| 0 <= k < ids@.len() ==> class_has(KindClass::Exactly(SyntaxKind::ImportItem), self.tree.kind_of(#[trigger] ids@[k])),
                i <= ids@.len(),
                out@.len() == i,
                forall|k: int| #![trigger out@[k]] 0 <= k < i ==> (out@[k].tree() == self.tree() && self.id() < out@[k].id() && out@[k].id() < self.tree().nodes@.len() && out@[k].id() == ids@[k]),
            decreases ids@.len() - i,
        {
            let x = ImportItem::cast(self.tree, ids[i]).unwrap();
            let ghost old_out = out@;
            out.push(x);
            assert(out@[i as int] == x);
            assert(x.tree() == self.tree());
            assert(self.id() < x.id());
            assert(x.id() < self.tree().nodes@.len());
            assert(x.id() == ids@[i as int]);
            assert(forall|k: int| 0 <= k < i ==> out@[k] == old_out[k]);
            i = i + 1;
        }
        out
    }

}

/// One imported name, possibly with an alias.
#[derive(Clone, Copy)]
pub struct ImportItem<'a> {
    tree: &'a SyntaxTree,
    node: usize,
}

impl<'a> ImportItem<'a> {
    /// The tree is well formed and the node is one of its `ImportItem` nodes.
    #[verifier::type_invariant]
    pub closed spec fn inv(self) -> bool {
        self.tree.wf() && self.node < self.tree.nodes@.len() && self.tree.kind_of(self.node)
            == SyntaxKind::ImportItem
    }

    /// The tree the node belongs to.
    pub closed spec fn tree(self) -> SyntaxTree {
        *self.tree
    }

    /// The index of the node in its tree.
    pub closed spec fn id(self) -> usize {
        self.node
    }

    /// What the type invariant states.
    pub proof fn lemma_valid(self)
        requires
            self.inv(),
        ensures
            self.tree().wf(),
            self.id() < self.tree().nodes@.len(),
            self.tree().kind_of(self.id()) == SyntaxKind::ImportItem,
    {
    }

    /// The child nodes whose kind is in `c`, in order.
    pub open spec fn nodes_in(self, c: KindClass) -> Seq<usize> {
        nodes_where(self.tree(), self.tree().children_of(self.id()), c)
    }

    /// The child tokens whose kind is in `c`, in order.
    pub open spec fn tokens_in(self, c: KindClass) -> Seq<Token> {
        tokens_where(self.tree().children_of(self.id()), c)
    }

    /// Whether a node of `kind` can be viewed as this type.
    pub fn can_cast(kind: SyntaxKind) -> (r: bool)
        ensures
            r == (kind == SyntaxKind::ImportItem),
    {
        kind == SyntaxKind::ImportItem
    }

    /// Node `node` of `tree` viewed as this type, when it has the right kind.
    pub fn cast(tree: &'a SyntaxTree, node: usize) -> (r: Option<ImportItem<'a>>)
        requires
            tree.wf(),
            node < tree.nodes@.len(),
        ensures
            (r is Some) == (tree.kind_of(node) == SyntaxKind::ImportItem),
            r matches Some(n) ==> n.tree() == *tree && n.id() == node,
    {
        if tree.nodes[node].kind == SyntaxKind::ImportItem {
            Some(ImportItem { tree, node })
        } else {
            None
        }
    }

    /// The index of the node in its tree.
    pub fn syntax(&self) -> (r: usize)
        ensures
            r == self.id(),
    {
        self.node
    }

    /// The tree the node belongs to.
    pub fn tree_ref(&self) -> (r: &'a SyntaxTree)
        ensures
            *r == self.tree(),
    {
        self.tree
    }

    /// The source range of the node.
    pub fn text_range(&self) -> (r: TextRange)
        ensures
            r == self.tree().nodes@[self.id() as int].range,
    {
        proof {
            use_type_invariant(self);
        }
        self.tree.nodes[self.node].range
    }

    /// The imported name: the first identifier.
    pub fn name(&self) -> (r: Option<Token>)
        ensures
            r == first_of(self.tokens_in(KindClass::Exactly(SyntaxKind::Identifier))),
    {
        proof {
            use_type_invariant(self);
        }
        let toks = self.tree.child_tokens(self.node, KindClass::Exactly(SyntaxKind::Identifier));
        if toks.len() > 0 {
            Some(toks[0].duplicate())
        } else {
            None
        }
    }

    /// The alias: the first identifier after an `as` keyword.
    pub fn alias(&self) -> (r: Option<Token>)
        ensures
            r == token_after_as(self.tokens_in(KindClass::Any), false),
    {
        proof {
            use_type_invariant(self);
        }
        let toks = self.tree.child_tokens(self.node, KindClass::Any);
        let ghost all = toks@;
        let mut found = false;
        let mut i: usize = 0;
        assert(all.skip(0) =~= all);
        while i < toks.len()
            invariant
                toks@ == all,
                all == self.tokens_in(KindClass::Any),
                i <= all.len(),
                token_after_as(all.skip(i as int), found) == token_after_as(all, false),
            decreases all.len() - i,
        {
            assert(all.skip(i as int).drop_first() =~= all.skip(i + 1));
            assert(all.skip(i as int)[0] == all[i as int]);
            if toks[i].kind == SyntaxKind::AsKeyword {
                found = true;
            } else if found && toks[i].kind == SyntaxKind::Identifier {
                return Some(toks[i].duplicate());
            }
            i = i + 1;
        }
        assert(all.skip(i as int) =~= Seq::<Token>::empty());
        None
    }

}

/// The alias of a whole-module import, such as `as m`.
#[derive(Clone, Copy)]
pub struct ImportAlias<'a> {
    tree: &'a SyntaxTree,
    node: usize,
}

impl<'a> ImportAlias<'a> {
    /// The tree is well formed and the node is one of its `ImportAlias` nodes.
    #[verifier::type_invariant]
    pub closed spec fn inv(self) -> bool {
        self.tree.wf() && self.node < self.tree.nodes@.len() && self.tree.kind_of(self.node)
            == SyntaxKind::ImportAlias
    }

    /// The tree the node belongs to.
    pub closed spec fn tree(self) -> SyntaxTree {
        *self.tree
    }

    /// The index of the node in its tree.
    pub closed spec fn id(self) -> usize {
        self.node
    }

    /// What the type invariant states.
    pub proof fn lemma_valid(self)
        requires
            self.inv(),
        ensures
            self.tree().wf(),
            self.id() < self.tree().nodes@.len(),
            self.tree().kind_of(self.id()) == SyntaxKind::ImportAlias,
    {
    }

    /// The child nodes whose kind is in `c`, in order.
    pub open spec fn nodes_in(self, c: KindClass) -> Seq<usize> {
        nodes_where(self.tree(), self.tree().children_of(self.id()), c)
    }

    /// The child tokens whose kind is in `c`, in order.
    pub open spec fn tokens_in(self, c: KindClass) -> Seq<Token> {
        tokens_where(self.tree().children_of(self.id()), c)
    }

    /// Whether a node of `kind` can be viewed as this type.
    pub fn can_cast(kind: SyntaxKind) -> (r: bool)
        ensures
            r == (kind == SyntaxKind::ImportAlias),
    {
        kind == SyntaxKind::ImportAlias
    }

    /// Node `node` of `tree` viewed as this type, when it has the right kind.
    pub fn cast(tree: &'a SyntaxTree, node: usize) -> (r: Option<ImportAlias<'a>>)
        requires
            tree.wf(),
            node < tree.nodes@.len(),
        ensures
            (r is Some) == (tree.kind_of(node) == SyntaxKind::ImportAlias),
            r matches Some(n) ==> n.tree() == *tree && n.id() == node,
    {
        if tree.nodes[node].kind == SyntaxKind::ImportAlias {
            Some(ImportAlias { tree, node })
        } else {
            None
        }
    }

    /// The index of the node in its tree.
    pub fn syntax(&self) -> (r: usize)
        ensures
            r == self.id(),
    {
        self.node
    }

    /// The tree the node belongs to.
    pub fn tree_ref(&self) -> (r: &'a SyntaxTree)
        ensures
            *r == self.tree(),
    {
        self.tree
    }

    /// The source range of the node.
    pub fn text_range(&self) -> (r: TextRange)
        ensures
            r == self.tree().nodes@[self.id() as int].range,
    {
        proof {
            use_type_invariant(self);
        }
        self.tree.nodes[self.node].range
    }

    /// The alias name: the first identifier.
    pub fn name(&self) -> (r: Option<Token>)
        ensures
            r == first_of(self.tokens_in(KindClass::Exactly(SyntaxKind::Identifier))),
    {
        proof {
            use_type_invariant(self);
        }
        let toks = self.tree.child_tokens(self.node, KindClass::Exactly(SyntaxKind::Identifier));
        if toks.len() > 0 {
            Some(toks[0].duplicate())
        } else {
            None
        }
    }

}

/// An assignment `x = value`.
#[derive(Clone, Copy)]
pub struct VariableAssignment<'a> {
    tree: &'a SyntaxTree,
    node: usize,
}

impl<'a> VariableAssignment<'a> {
    /// The tree is well formed and the node is one of its `VariableAssignment` nodes.
    #[verifier::type_invariant]
    pub closed spec fn inv(self) -> bool {
        self.tree.wf() && self.node < self.tree.nodes@.len() && self.tree.kind_of(self.node)
            == SyntaxKind::VariableAssignment
    }

    /// The tree the node belongs to.
    pub closed spec fn tree(self) -> SyntaxTree {
        *self.tree
    }

    /// The index of the node in its tree.
    pub closed spec fn id(self) -> usize {
        self.node
    }

    /// What the type invariant states.
    pub proof fn lemma_valid(self)
        requires
            self.inv(),
        ensures
            self.tree().wf(),
            self.id() < self.tree().nodes@.len(),
            self.tree().kind_of(self.id()) == SyntaxKind::VariableAssignment,
    {
    }

    /// The child nodes whose kind is in `c`, in order.
    pub open spec fn nodes_in(self, c: KindClass) -> Seq<usize> {
        nodes_where(self.tree(), self.tree().children_of(self.id()), c)
    }

    /// The child tokens whose kind is in `c`, in order.
    pub open spec fn tokens_in(self, c: KindClass) -> Seq<Token> {
        tokens_where(self.tree().children_of(self.id()), c)
    }

    /// Whether a node of `kind` can be viewed as this type.
    pub fn can_cast(kind: SyntaxKind) -> (r: bool)
        ensures
            r == (kind == SyntaxKind::VariableAssignment),
    {
        kind == SyntaxKind::VariableAssignment
    }

    /// Node `node` of `tree` viewed as this type, when it has the right kind.
    pub fn cast(tree: &'a SyntaxTree, node: usize) -> (r: Option<VariableAssignment<'a>>)
        requires
            tree.wf(),
            node < tree.nodes@.len(),
        ensures
            (r is Some) == (tree.kind_of(node) == SyntaxKind::VariableAssignment),
            r matches Some(n) ==> n.tree() == *tree && n.id() == node,
    {
        if tree.nodes[node].kind == SyntaxKind::VariableAssignment {
            Some(VariableAssignment { tree, node })
        } else {
            None
        }
    }

    /// The index of the node in its tree.
    pub fn syntax(&self) -> (r: usize)
        ensures
            r == self.id(),
    {
        self.node
    }

    /// The tree the node belongs to.
    pub fn tree_ref(&self) -> (r: &'a SyntaxTree)
        ensures
            *r == self.tree(),
    {
        self.tree
    }

    /// The source range of the node.
    pub fn text_range(&self) -> (r: TextRange)
        ensures
            r == self.tree().nodes@[self.id() as int].range,
    {
        proof {
            use_type_invariant(self);
        }
        self.tree.nodes[self.node].range
    }

    /// The assigned name: the first identifier.
    pub fn name(&self) -> (r: Option<Token>)
        ensures
            r == first_of(self.tokens_in(KindClass::Exactly(SyntaxKind::Identifier))),
    {
        proof {
            use_type_invariant(self);
        }
        let toks = self.tree.child_tokens(self.node, KindClass::Exactly(SyntaxKind::Identifier));
        if toks.len() > 0 {
            Some(toks[0].duplicate())
        } else {
            None
        }
    }

    /// The assigned value: the first expression.
    pub fn value(&self) -> (r: Option<Expression<'a>>)
        ensures
            r matches Some(x) ==> (x.tree() == self.tree() && self.id() < x.id() && x.id() < self.tree().nodes@.len() && first_of(self.nodes_in(KindClass::Expression)) == Some(x.id())),
            r is None <==> first_of(self.nodes_in(KindClass::Expression)) is None,
    {
        proof {
            use_type_invariant(self);
        }
        let ids = self.tree.child_nodes(self.node, KindClass::Expression);
        if ids.len() > 0 {
            Expression::cast(self.tree, ids[0])
        } else {
            None
        }
    }

}

/// A definition `x := value` or `x: T = value`.
#[derive(Clone, Copy)]
pub struct VariableDefinition<'a> {
    tree: &'a SyntaxTree,
    node: usize,
}

impl<'a> VariableDefinition<'a> {
    /// The tree is well formed and the node is one of its `VariableDefinition` nodes.
    #[verifier::type_invariant]
    pub closed spec fn inv(self) -> bool {
        self.tree.wf() && self.node < self.tree.nodes@.len() && self.tree.kind_of(self.node)
            == SyntaxKind::VariableDefinition
    }

    /// The tree the node belongs to.
    pub closed spec fn tree(self) -> SyntaxTree {
        *self.tree
    }

    /// The index of the node in its tree.
    pub closed spec fn id(self) -> usize {
        self.node
    }

    /// What the type invariant states.
    pub proof fn lemma_valid(self)
        requires
            self.inv(),
        ensures
            self.tree().wf(),
            self.id() < self.tree().nodes@.len(),
            self.tree().kind_of(self.id()) == SyntaxKind::VariableDefinition,
    {
    }

    /// The child nodes whose kind is in `c`, in order.
    pub open spec fn nodes_in(self, c: KindClass) -> Seq<usize> {
        nodes_where(self.tree(), self.tree().children_of(self.id()), c)
    }

    /// The child tokens whose kind is in `c`, in order.
    pub open spec fn tokens_in(self, c: KindClass) -> Seq<Token> {
        tokens_where(self.tree().children_of(self.id()), c)
    }

    /// Whether a node of `kind` can be viewed as this type.
    pub fn can_cast(kind: SyntaxKind) -> (r: bool)
        ensures
            r == (kind == SyntaxKind::VariableDefinition),
    {
        kind == SyntaxKind::VariableDefinition
    }

    /// Node `node` of `tree` viewed as this type, when it has the right kind.
    pub fn cast(tree: &'a SyntaxTree, node: usize) -> (r: Option<VariableDefinition<'a>>)
        requires
            tree.wf(),
            node < tree.nodes@.len(),
        ensures
            (r is Some) == (tree.kind_of(node) == SyntaxKind::VariableDefinition),
            r matches Some(n) ==> n.tree() == *tree && n.id() == node,
    {
        if tree.nodes[node].kind == SyntaxKind::VariableDefinition {
            Some(VariableDefinition { tree, node })
        } else {
            None
        }
    }

    /// The index of the node in its tree.
    pub fn syntax(&self) -> (r: usize)
        ensures
            r == self.id(),
    {
        self.node
    }

    /// The tree the node belongs to.
    pub fn tree_ref(&self) -> (r: &'a SyntaxTree)
        ensures
            *r == self.tree(),
    {
        self.tree
    }

    /// The source range of the node.
    pub fn text_range(&self) -> (r: TextRange)
        ensures
            r == self.tree().nodes@[self.id() as int].range,
    {
        proof {
            use_type_invariant(self);
        }
        self.tree.nodes[self.node].range
    }

    /// The defined name: the first identifier.
    pub fn name(&self) -> (r: Option<Token>)
        ensures
            r == first_of(self.tokens_in(KindClass::Exactly(SyntaxKind::Identifier))),
    {
        proof {
            use_type_invariant(self);
        }
        let toks = self.tree.child_tokens(self.node, KindClass::Exactly(SyntaxKind::Identifier));
        if toks.len() > 0 {
            Some(toks[0].duplicate())
        } else {
            None
        }
    }

    /// The value: the first expression.
    pub fn value(&self) -> (r: Option<Expression<'a>>)
        ensures
            r matches Some(x) ==> (x.tree() == self.tree() && self.id() < x.id() && x.id() < self.tree().nodes@.len() && first_of(self.nodes_in(KindClass::Expression)) == Some(x.id())),
            r is None <==> first_of(self.nodes_in(KindClass::Expression)) is None,
    {
        proof {
            use_type_invariant(self);
        }
        let ids = self.tree.child_nodes(self.node, KindClass::Expression);
        if ids.len() > 0 {
            Expression::cast(self.tree, ids[0])
        } else {
            None
        }
    }

}

/// A binary expression.
#[derive(Clone, Copy)]
pub struct InfixExpression<'a> {
    tree: &'a SyntaxTree,
    node: usize,
}

impl<'a> InfixExpression<'a> {
    /// The tree is well formed and the node is one of its `InfixExpression` nodes.
    #[verifier::type_invariant]
    pub closed spec fn inv(self) -> bool {
        self.tree.wf() && self.node < self.tree.nodes@.len() && self.tree.kind_of(self.node)
            == SyntaxKind::InfixExpression
    }

    /// The tree the node belongs to.
    pub closed spec fn tree(self) -> SyntaxTree {
        *self.tree
    }

    /// The index of the node in its tree.
    pub closed spec fn id(self) -> usize {
        self.node
    }

    /// What the type invariant states.
    pub proof fn lemma_valid(self)
        requires
            self.inv(),
        ensures
            self.tree().wf(),
            self.id() < self.tree().nodes@.len(),
            self.tree().kind_of(self.id()) == SyntaxKind::InfixExpression,
    {
    }

    /// The child nodes whose kind is in `c`, in order.
    pub open spec fn nodes_in(self, c: KindClass) -> Seq<usize> {
        nodes_where(self.tree(), self.tree().children_of(self.id()), c)
    }

    /// The child tokens whose kind is in `c`, in order.
    pub open spec fn tokens_in(self, c: KindClass) -> Seq<Token> {
        tokens_where(self.tree().children_of(self.id()), c)
    }

    /// Whether a node of `kind` can be viewed as this type.
    pub fn can_cast(kind: SyntaxKind) -> (r: bool)
        ensures
            r == (kind == SyntaxKind::InfixExpression),
    {
        kind == SyntaxKind::InfixExpression
    }

    /// Node `node` of `tree` viewed as this type, when it has the right kind.
    pub fn cast(tree: &'a SyntaxTree, node: usize) -> (r: Option<InfixExpression<'a>>)
        requires
            tree.wf(),
            node < tree.nodes@.len(),
        ensures
            (r is Some) == (tree.kind_of(node) == SyntaxKind::InfixExpression),
            r matches Some(n) ==> n.tree() == *tree && n.id() == node,
    {
        if tree.nodes[node].kind == SyntaxKind::InfixExpression {
            Some(InfixExpression { tree, node })
        } else {
            None
        }
    }

    /// The index of the node in its tree.
    pub fn syntax(&self) -> (r: usize)
        ensures
            r == self.id(),
    {
        self.node
    }

    /// The tree the node belongs to.
    pub fn tree_ref(&self) -> (r: &'a SyntaxTree)
        ensures
            *r == self.tree(),
    {
        self.tree
    }

    /// The source range of the node.
    pub fn text_range(&self) -> (r: TextRange)
        ensures
            r == self.tree().nodes@[self.id() as int].range,
    {
        proof {
            use_type_invariant(self);
        }
        self.tree.nodes[self.node].range
    }

    /// The left operand: the first expression.
    pub fn lhs(&self) -> (r: Option<Expression<'a>>)
        ensures
            r matches Some(x) ==> (x.tree() == self.tree() && self.id() < x.id() && x.id() < self.tree().nodes@.len() && first_of(self.nodes_in(KindClass::Expression)) == Some(x.id())),
            r is None <==> first_of(self.nodes_in(KindClass::Expression)) is None,
    {
        proof {
            use_type_invariant(self);
        }
        let ids = self.tree.child_nodes(self.node, KindClass::Expression);
        if ids.len() > 0 {
            Expression::cast(self.tree, ids[0])
        } else {
            None
        }
    }

    /// The right operand: the second expression.
    pub fn rhs(&self) -> (r: Option<Expression<'a>>)
        ensures
            r matches Some(x) ==> (x.tree() == self.tree() && self.id() < x.id() && x.id() < self.tree().nodes@.len() && nth_of(self.nodes_in(KindClass::Expression), 1) == Some(x.id())),
            r is None <==> nth_of(self.nodes_in(KindClass::Expression), 1) is None,
    {
        proof {
            use_type_invariant(self);
        }
        let ids = self.tree.child_nodes(self.node, KindClass::Expression);
        if ids.len() > 1 {
            Expression::cast(self.tree, ids[1])
        } else {
            None
        }
    }

    /// The operator token.
    pub fn operation(&self) -> (r: Option<Token>)
        ensures
            r == first_of(self.tokens_in(KindClass::InfixOperator)),
    {
        proof {
            use_type_invariant(self);
        }
        let toks = self.tree.child_tokens(self.node, KindClass::InfixOperator);
        if toks.len() > 0 {
            Some(toks[0].duplicate())
        } else {
            None
        }
    }

}

/// A literal.
#[derive(Clone, Copy)]
pub struct Literal<'a> {
    tree: &'a SyntaxTree,
    node: usize,
}

impl<'a> Literal<'a> {
    /// The tree is well formed and the node is one of its `Literal` nodes.
    #[verifier::type_invariant]
    pub closed spec fn inv(self) -> bool {
        self.tree.wf() && self.node < self.tree.nodes@.len() && self.tree.kind_of(self.node)
            == SyntaxKind::Literal
    }

    /// The tree the node belongs to.
    pub closed spec fn tree(self) -> SyntaxTree {
        *self.tree
    }

    /// The index of the node in its tree.
    pub closed spec fn id(self) -> usize {
        self.node
    }

    /// What the type invariant states.
    pub proof fn lemma_valid(self)
        requires
            self.inv(),
        ensures
            self.tree().wf(),
            self.id() < self.tree().nodes@.len(),
            self.tree().kind_of(self.id()) == SyntaxKind::Literal,
    {
    }

    /// The child nodes whose kind is in `c`, in order.
    pub open spec fn nodes_in(self, c: KindClass) -> Seq<usize> {
        nodes_where(self.tree(), self.tree().children_of(self.id()), c)
    }

    /// The child tokens whose kind is in `c`, in order.
    pub open spec fn tokens_in(self, c: KindClass) -> Seq<Token> {
        tokens_where(self.tree().children_of(self.id()), c)
    }

    /// Whether a node of `kind` can be viewed as this type.
    pub fn can_cast(kind: SyntaxKind) -> (r: bool)
        ensures
            r == (kind == SyntaxKind::Literal),
    {
        kind == SyntaxKind::Literal
    }

    /// Node `node` of `tree` viewed as this type, when it has the right kind.
    pub fn cast(tree: &'a SyntaxTree, node: usize) -> (r: Option<Literal<'a>>)
        requires
            tree.wf(),
            node < tree.nodes@.len(),
        ensures
            (r is Some) == (tree.kind_of(node) == SyntaxKind::Literal),
            r matches Some(n) ==> n.tree() == *tree && n.id() == node,
    {
        if tree.nodes[node].kind == SyntaxKind::Literal {
            Some(Literal { tree, node })
        } else {
            None
        }
    }

    /// The index of the node in its tree.
    pub fn syntax(&self) -> (r: usize)
        ensures
            r == self.id(),
    {
        self.node
    }

    /// The tree the node belongs to.
    pub fn tree_ref(&self) -> (r: &'a SyntaxTree)
        ensures
            *r == self.tree(),
    {
        self.tree
    }

    /// The source range of the node.
    pub fn text_range(&self) -> (r: TextRange)
        ensures
            r == self.tree().nodes@[self.id() as int].range,
    {
        proof {
            use_type_invariant(self);
        }
        self.tree.nodes[self.node].range
    }

    /// The value of the literal.
    pub fn value(&self) -> (r: Option<LiteralValue>)
        ensures
            literal_view(r) == (match first_of(self.tokens_in(KindClass::LiteralToken)) {
                Some(t) => spec_literal_of(t),
                None => None,
            }),
    {
        proof {
            use_type_invariant(self);
        }
        let toks = self.tree.child_tokens(self.node, KindClass::LiteralToken);
        if toks.len() == 0 {
            return None;
        }
        proof {
            lemma_tokens_where_wf(self.tree(), self.tree().children_of(self.id()), self.id(), KindClass::LiteralToken);
        }
        literal_of(&toks[0])
    }

}

/// A parenthesised expression.
#[derive(Clone, Copy)]
pub struct ParenthesisExpression<'a> {
    tree: &'a SyntaxTree,
    node: usize,
}

impl<'a> ParenthesisExpression<'a> {
    /// The tree is well formed and the node is one of its `ParenthesisExpression` nodes.
    #[verifier::type_invariant]
    pub closed spec fn inv(self) -> bool {
        self.tree.wf() && self.node < self.tree.nodes@.len() && self.tree.kind_of(self.node)
            == SyntaxKind::ParenthesisExpression
    }

    /// The tree the node belongs to.
    pub closed spec fn tree(self) -> SyntaxTree {
        *self.tree
    }

    /// The index of the node in its tree.
    pub closed spec fn id(self) -> usize {
        self.node
    }

    /// What the type invariant states.
    pub proof fn lemma_valid(self)
        requires
            self.inv(),
        ensures
            self.tree().wf(),
            self.id() < self.tree().nodes@.len(),
            self.tree().kind_of(self.id()) == SyntaxKind::ParenthesisExpression,
    {
    }

    /// The child nodes whose kind is in `c`, in order.
    pub open spec fn nodes_in(self, c: KindClass) -> Seq<usize> {
        nodes_where(self.tree(), self.tree().children_of(self.id()), c)
    }

    /// The child tokens whose kind is in `c`, in order.
    pub open spec fn tokens_in(self, c: KindClass) -> Seq<Token> {
        tokens_where(self.tree().children_of(self.id()), c)
    }

    /// Whether a node of `kind` can be viewed as this type.
    pub fn can_cast(kind: SyntaxKind) -> (r: bool)
        ensures
            r == (kind == SyntaxKind::ParenthesisExpression),
    {
        kind == SyntaxKind::ParenthesisExpression
    }

    /// Node `node` of `tree` viewed as this type, when it has the right kind.
    pub fn cast(tree: &'a SyntaxTree, node: usize) -> (r: Option<ParenthesisExpression<'a>>)
        requires
            tree.wf(),
            node < tree.nodes@.len(),
        ensures
            (r is Some) == (tree.kind_of(node) == SyntaxKind::ParenthesisExpression),
            r matches Some(n) ==> n.tree() == *tree && n.id() == node,
    {
        if tree.nodes[node].kind == SyntaxKind::ParenthesisExpression {
            Some(ParenthesisExpression { tree, node })
        } else {
            None
        }
    }

    /// The index of the node in its tree.
    pub fn syntax(&self) -> (r: usize)
        ensures
            r == self.id(),
    {
        self.node
    }

    /// The tree the node belongs to.
    pub fn tree_ref(&self) -> (r: &'a SyntaxTree)
        ensures
            *r == self.tree(),
    {
        self.tree
    }

    /// The source range of the node.
    pub fn text_range(&self) -> (r: TextRange)
        ensures
            r == self.tree().nodes@[self.id() as int].range,
    {
        proof {
            use_type_invariant(self);
        }
        self.tree.nodes[self.node].range
    }

    /// The inner expression.
    pub fn expression(&self) -> (r: Option<Expression<'a>>)
        ensures
            r matches Some(x) ==> (x.tree() == self.tree() && self.id() < x.id() && x.id() < self.tree().nodes@.len() && first_of(self.nodes_in(KindClass::Expression)) == Some(x.id())),
            r is None <==> first_of(self.nodes_in(KindClass::Expression)) is None,
    {
        proof {
            use_type_invariant(self);
        }
        let ids = self.tree.child_nodes(self.node, KindClass::Expression);
        if ids.len() > 0 {
            Expression::cast(self.tree, ids[0])
        } else {
            None
        }
    }

}

/// A unary expression.
#[derive(Clone, Copy)]
pub struct PrefixExpression<'a> {
    tree: &'a SyntaxTree,
    node: usize,
}

impl<'a> PrefixExpression<'a> {
    /// The tree is well formed and the node is one of its `PrefixExpression` nodes.
    #[verifier::type_invariant]
    pub closed spec fn inv(self) -> bool {
        self.tree.wf() && self.node < self.tree.nodes@.len() && self.tree.kind_of(self.node)
            == SyntaxKind::PrefixExpression
    }

    /// The tree the node belongs to.
    pub closed spec fn tree(self) -> SyntaxTree {
        *self.tree
    }

    /// The index of the node in its tree.
    pub closed spec fn id(self) -> usize {
        self.node
    }

    /// What the type invariant states.
    pub proof fn lemma_valid(self)
        requires
            self.inv(),
        ensures
            self.tree().wf(),
            self.id() < self.tree().nodes@.len(),
            self.tree().kind_of(self.id()) == SyntaxKind::PrefixExpression,
    {
    }

    /// The child nodes whose kind is in `c`, in order.
    pub open spec fn nodes_in(self, c: KindClass) -> Seq<usize> {
        nodes_where(self.tree(), self.tree().children_of(self.id()), c)
    }

    /// The child tokens whose kind is in `c`, in order.
    pub open spec fn tokens_in(self, c: KindClass) -> Seq<Token> {
        tokens_where(self.tree().children_of(self.id()), c)
    }

    /// Whether a node of `kind` can be viewed as this type.
    pub fn can_cast(kind: SyntaxKind) -> (r: bool)
        ensures
            r == (kind == SyntaxKind::PrefixExpression),
    {
        kind == SyntaxKind::PrefixExpression
    }

    /// Node `node` of `tree` viewed as this type, when it has the right kind.
    pub fn cast(tree: &'a SyntaxTree, node: usize) -> (r: Option<PrefixExpression<'a>>)
        requires
            tree.wf(),
            node < tree.nodes@.len(),
        ensures
            (r is Some) == (tree.kind_of(node) == SyntaxKind::PrefixExpression),
            r matches Some(n) ==> n.tree() == *tree && n.id() == node,
    {
        if tree.nodes[node].kind == SyntaxKind::PrefixExpression {
            Some(PrefixExpression { tree, node })
        } else {
            None
        }
    }

    /// The index of the node in its tree.
    pub fn syntax(&self) -> (r: usize)
        ensures
            r == self.id(),
    {
        self.node
    }

    /// The tree the node belongs to.
    pub fn tree_ref(&self) -> (r: &'a SyntaxTree)
        ensures
            *r == self.tree(),
    {
        self.tree
    }

    /// The source range of the node.
    pub fn text_range(&self) -> (r: TextRange)
        ensures
            r == self.tree().nodes@[self.id() as int].range,
    {
        proof {
            use_type_invariant(self);
        }
        self.tree.nodes[self.node].range
    }

    /// The operand.
    pub fn expression(&self) -> (r: Option<Expression<'a>>)
        ensures
            r matches Some(x) ==> (x.tree() == self.tree() && self.id() < x.id() && x.id() < self.tree().nodes@.len() && first_of(self.nodes_in(KindClass::Expression)) == Some(x.id())),
            r is None <==> first_of(self.nodes_in(KindClass::Expression)) is None,
    {
        proof {
            use_type_invariant(self);
        }
        let ids = self.tree.child_nodes(self.node, KindClass::Expression);
        if ids.len() > 0 {
            Expression::cast(self.tree, ids[0])
        } else {
            None
        }
    }

    /// The operator token: `-` or `!`.
    pub fn operation(&self) -> (r: Option<Token>)
        ensures
            r == first_of(self.tokens_in(KindClass::PrefixOperator)),
    {
        proof {
            use_type_invariant(self);
        }
        let toks = self.tree.child_tokens(self.node, KindClass::PrefixOperator);
        if toks.len() > 0 {
            Some(toks[0].duplicate())
        } else {
            None
        }
    }

}

/// A reference to a variable.
#[derive(Clone, Copy)]
pub struct VariableReference<'a> {
    tree: &'a SyntaxTree,
    node: usize,
}

impl<'a> VariableReference<'a> {
    /// The tree is well formed and the node is one of its `VariableReference` nodes.
    #[verifier::type_invariant]
    pub closed spec fn inv(self) -> bool {
        self.tree.wf() && self.node < self.tree.nodes@.len() && self.tree.kind_of(self.node)
            == SyntaxKind::VariableReference
    }

    /// The tree the node belongs to.
    pub closed spec fn tree(self) -> SyntaxTree {
        *self.tree
    }

    /// The index of the node in its tree.
    pub closed spec fn id(self) -> usize {
        self.node
    }

    /// What the type invariant states.
    pub proof fn lemma_valid(self)
        requires
            self.inv(),
        ensures
            self.tree().wf(),
            self.id() < self.tree().nodes@.len(),
            self.tree().kind_of(self.id()) == SyntaxKind::VariableReference,
    {
    }

    /// The child nodes whose kind is in `c`, in order.
    pub open spec fn nodes_in(self, c: KindClass) -> Seq<usize> {
        nodes_where(self.tree(), self.tree().children_of(self.id()), c)
    }

    /// The child tokens whose kind is in `c`, in order.
    pub open spec fn tokens_in(self, c: KindClass) -> Seq<Token> {
        tokens_where(self.tree().children_of(self.id()), c)
    }

    /// Whether a node of `kind` can be viewed as this type.
    pub fn can_cast(kind: SyntaxKind) -> (r: bool)
        ensures
            r == (kind == SyntaxKind::VariableReference),
    {
        kind == SyntaxKind::VariableReference
    }

    /// Node `node` of `tree` viewed as this type, when it has the right kind.
    pub fn cast(tree: &'a SyntaxTree, node: usize) -> (r: Option<VariableReference<'a>>)
        requires
            tree.wf(),
            node < tree.nodes@.len(),
        ensures
            (r is Some) == (tree.kind_of(node) == SyntaxKind::VariableReference),
            r matches Some(n) ==> n.tree() == *tree && n.id() == node,
    {
        if tree.nodes[node].kind == SyntaxKind::VariableReference {
            Some(VariableReference { tree, node })
        } else {
            None
        }
    }

    /// The index of the node in its tree.
    pub fn syntax(&self) -> (r: usize)
        ensures
            r == self.id(),
    {
        self.node
    }

    /// The tree the node belongs to.
    pub fn tree_ref(&self) -> (r: &'a SyntaxTree)
        ensures
            *r == self.tree(),
    {
        self.tree
    }

    /// The source range of the node.
    pub fn text_range(&self) -> (r: TextRange)
        ensures
            r == self.tree().nodes@[self.id() as int].range,
    {
        proof {
            use_type_invariant(self);
        }
        self.tree.nodes[self.node].range
    }

    /// The referenced name.
    pub fn name(&self) -> (r: Option<Token>)
        ensures
            r == first_of(self.tokens_in(KindClass::Exactly(SyntaxKind::Identifier))),
    {
        proof {
            use_type_invariant(self);
        }
        let toks = self.tree.child_tokens(self.node, KindClass::Exactly(SyntaxKind::Identifier));
        if toks.len() > 0 {
            Some(toks[0].duplicate())
        } else {
            None
        }
    }

}

/// A type annotation.
#[derive(Clone, Copy)]
pub struct TypeAnnotation<'a> {
    tree: &'a SyntaxTree,
    node: usize,
}

impl<'a> TypeAnnotation<'a> {
    /// The tree is well formed and the node is one of its `TypeAnnotation` nodes.
    #[verifier::type_invariant]
    pub closed spec fn inv(self) -> bool {
        self.tree.wf() && self.node < self.tree.nodes@.len() && self.tree.kind_of(self.node)
            == SyntaxKind::TypeAnnotation
    }

    /// The tree the node belongs to.
    pub closed spec fn tree(self) -> SyntaxTree {
        *self.tree
    }

    /// The index of the node in its tree.
    pub closed spec fn id(self) -> usize {
        self.node
    }

    /// What the type invariant states.
    pub proof fn lemma_valid(self)
        requires
            self.inv(),
        ensures
            self.tree().wf(),
            self.id() < self.tree().nodes@.len(),
            self.tree().kind_of(self.id()) == SyntaxKind::TypeAnnotation,
    {
    }

    /// The child nodes whose kind is in `c`, in order.
    pub open spec fn nodes_in(self, c: KindClass) -> Seq<usize> {
        nodes_where(self.tree(), self.tree().children_of(self.id()), c)
    }

    /// The child tokens whose kind is in `c`, in order.
    pub open spec fn tokens_in(self, c: KindClass) -> Seq<Token> {
        tokens_where(self.tree().children_of(self.id()), c)
    }

    /// Whether a node of `kind` can be viewed as this type.
    pub fn can_cast(kind: SyntaxKind) -> (r: bool)
        ensures
            r == (kind == SyntaxKind::TypeAnnotation),
    {
        kind == SyntaxKind::TypeAnnotation
    }

    /// Node `node` of `tree` viewed as this type, when it has the right kind.
    pub fn cast(tree: &'a SyntaxTree, node: usize) -> (r: Option<TypeAnnotation<'a>>)
        requires
            tree.wf(),
            node < tree.nodes@.len(),
        ensures
            (r is Some) == (tree.kind_of(node) == SyntaxKind::TypeAnnotation),
            r matches Some(n) ==> n.tree() == *tree && n.id() == node,
    {
        if tree.nodes[node].kind == SyntaxKind::TypeAnnotation {
            Some(TypeAnnotation { tree, node })
        } else {
            None
        }
    }

    /// The index of the node in its tree.
    pub fn syntax(&self) -> (r: usize)
        ensures
            r == self.id(),
    {
        self.node
    }

    /// The tree the node belongs to.
    pub fn tree_ref(&self) -> (r: &'a SyntaxTree)
        ensures
            *r == self.tree(),
    {
        self.tree
    }

    /// The source range of the node.
    pub fn text_range(&self) -> (r: TextRange)
        ensures
            r == self.tree().nodes@[self.id() as int].range,
    {
        proof {
            use_type_invariant(self);
        }
        self.tree.nodes[self.node].range
    }

    /// The type name.
    pub fn type_token(&self) -> (r: Option<Token>)
        ensures
            r == first_of(self.tokens_in(KindClass::Exactly(SyntaxKind::Identifier))),
    {
        proof {
            use_type_invariant(self);
        }
        let toks = self.tree.child_tokens(self.node, KindClass::Exactly(SyntaxKind::Identifier));
        if toks.len() > 0 {
            Some(toks[0].duplicate())
        } else {
            None
        }
    }

}

/// A block `{ ... }`.
#[derive(Clone, Copy)]
pub struct BlockExpression<'a> {
    tree: &'a SyntaxTree,
    node: usize,
}

impl<'a> BlockExpression<'a> {
    /// The tree is well formed and the node is one of its `BlockExpression` nodes.
    #[verifier::type_invariant]
    pub closed spec fn inv(self) -> bool {
        self.tree.wf() && self.node < self.tree.nodes@.len() && self.tree.kind_of(self.node)
            == SyntaxKind::BlockExpression
    }

    /// The tree the node belongs to.
    pub closed spec fn tree(self) -> SyntaxTree {
        *self.tree
    }

    /// The index of the node in its tree.
    pub closed spec fn id(self) -> usize {
        self.node
    }

    /// What the type invariant states.
    pub proof fn lemma_valid(self)
        requires
            self.inv(),
        ensures
            self.tree().wf(),
            self.id() < self.tree().nodes@.len(),
            self.tree().kind_of(self.id()) == SyntaxKind::BlockExpression,
    {
    }

    /// The child nodes whose kind is in `c`, in order.
    pub open spec fn nodes_in(self, c: KindClass) -> Seq<usize> {
        nodes_where(self.tree(), self.tree().children_of(self.id()), c)
    }

    /// The child tokens whose kind is in `c`, in order.
    pub open spec fn tokens_in(self, c: KindClass) -> Seq<Token> {
        tokens_where(self.tree().children_of(self.id()), c)
    }

    /// Whether a node of `kind` can be viewed as this type.
    pub fn can_cast(kind: SyntaxKind) -> (r: bool)
        ensures
            r == (kind == SyntaxKind::BlockExpression),
    {
        kind == SyntaxKind::BlockExpression
    }

    /// Node `node` of `tree` viewed as this type, when it has the right kind.
    pub fn cast(tree: &'a SyntaxTree, node: usize) -> (r: Option<BlockExpression<'a>>)
        requires
            tree.wf(),
            node < tree.nodes@.len(),
        ensures
            (r is Some) == (tree.kind_of(node) == SyntaxKind::BlockExpression),
            r matches Some(n) ==> n.tree() == *tree && n.id() == node,
    {
        if tree.nodes[node].kind == SyntaxKind::BlockExpression {
            Some(BlockExpression { tree, node })
        } else {
            None
        }
    }

    /// The index of the node in its tree.
    pub fn syntax(&self) -> (r: usize)
        ensures
            r == self.id(),
    {
        self.node
    }

    /// The tree the node belongs to.
    pub fn tree_ref(&self) -> (r: &'a SyntaxTree)
        ensures
            *r == self.tree(),
    {
        self.tree
    }

    /// The source range of the node.
    pub fn text_range(&self) -> (r: TextRange)
        ensures
            r == self.tree().nodes@[self.id() as int].range,
    {
        proof {
            use_type_invariant(self);
        }
        self.tree.nodes[self.node].range
    }

    /// The items of the block, in order.
    pub fn items(&self) -> (r: Vec<Item<'a>>)
        ensures
            r@.len() == self.nodes_in(KindClass::Item).len(),
            forall|k: int| #![trigger r@[k]] 0 <= k < r@.len() ==> (r@[k].tree() == self.tree() && self.id() < r@[k].id() && r@[k].id() < self.tree().nodes@.len() && r@[k].id() == self.nodes_in(KindClass::Item)[k]),
    {
        proof {
            use_type_invariant(self);
        }
        let ids = self.tree.child_nodes(self.node, KindClass::Item);
        let mut out: Vec<Item<'a>> = Vec::new();
        let mut i: usize = 0;
        while i < ids.len()
            invariant
                self.tree.wf(),
                self.node < self.tree.nodes@.len(),
                ids@ == self.nodes_in(KindClass::Item),
                forall|k: int| 0 <= k < ids@.len() ==> self.node < #[trigger] ids@[k] < self.tree.nodes@.len(),
                forall|k: int| 0 <= k < ids@.len() ==> class_has(KindClass::Item, self.tree.kind_of(#[trigger] ids@[k])),
                i <= ids@.len(),
                out@.len() == i,
                forall|k: int| #![trigger out@[k]] 0 <= k < i ==> (out@[k].tree() == self.tree() && self.id() < out@[k].id() && out@[k].id() < self.tree().nodes@.len() && out@[k].id() == ids@[k]),
            decreases ids@.len() - i,
        {
            let x = Item::cast(self.tree, ids[i]).unwrap();
            let ghost old_out = out@;
            out.push(x);
            assert(out@[i as int] == x);
            assert(x.tree() == self.tree());
            assert(self.id() < x.id());
            assert(x.id() < self.tree().nodes@.len());
            assert(x.id() == ids@[i as int]);
            assert(forall|k: int| 0 <= k < i ==> out@[k] == old_out[k]);
            i = i + 1;
        }
        out
    }

    /// The last item of the block, when it is an expression.
    pub fn tail(&self) -> (r: Option<Expression<'a>>)
        ensures
            r matches Some(x) ==> (x.tree() == self.tree() && self.id() < x.id() && x.id() < self.tree().nodes@.len() && self.nodes_in(KindClass::Item).len() > 0
                && x.id() == self.nodes_in(KindClass::Item).last()),
            r is None <==> (self.nodes_in(KindClass::Item).len() == 0 || !is_expression_kind(
                self.tree().kind_of(self.nodes_in(KindClass::Item).last()),
            )),
    {
        proof {
            use_type_invariant(self);
        }
        let ids = self.tree.child_nodes(self.node, KindClass::Item);
        if ids.len() == 0 {
            return None;
        }
        Expression::cast(self.tree, ids[ids.len() - 1])
    }

}

/// An `if` expression.
#[derive(Clone, Copy)]
pub struct IfExpression<'a> {
    tree: &'a SyntaxTree,
    node: usize,
}

impl<'a> IfExpression<'a> {
    /// The tree is well formed and the node is one of its `IfExpression` nodes.
    #[verifier::type_invariant]
    pub closed spec fn inv(self) -> bool {
        self.tree.wf() && self.node < self.tree.nodes@.len() && self.tree.kind_of(self.node)
            == SyntaxKind::IfExpression
    }

    /// The tree the node belongs to.
    pub closed spec fn tree(self) -> SyntaxTree {
        *self.tree
    }

    /// The index of the node in its tree.
    pub closed spec fn id(self) -> usize {
        self.node
    }

    /// What the type invariant states.
    pub proof fn lemma_valid(self)
        requires
            self.inv(),
        ensures
            self.tree().wf(),
            self.id() < self.tree().nodes@.len(),
            self.tree().kind_of(self.id()) == SyntaxKind::IfExpression,
    {
    }

    /// The child nodes whose kind is in `c`, in order.
    pub open spec fn nodes_in(self, c: KindClass) -> Seq<usize> {
        nodes_where(self.tree(), self.tree().children_of(self.id()), c)
    }

    /// The child tokens whose kind is in `c`, in order.
    pub open spec fn tokens_in(self, c: KindClass) -> Seq<Token> {
        tokens_where(self.tree().children_of(self.id()), c)
    }

    /// Whether a node of `kind` can be viewed as this type.
    pub fn can_cast(kind: SyntaxKind) -> (r: bool)
        ensures
            r == (kind == SyntaxKind::IfExpression),
    {
        kind == SyntaxKind::IfExpression
    }

    /// Node `node` of `tree` viewed as this type, when it has the right kind.
    pub fn cast(tree: &'a SyntaxTree, node: usize) -> (r: Option<IfExpression<'a>>)
        requires
            tree.wf(),
            node < tree.nodes@.len(),
        ensures
            (r is Some) == (tree.kind_of(node) == SyntaxKind::IfExpression),
            r matches Some(n) ==> n.tree() == *tree && n.id() == node,
    {
        if tree.nodes[node].kind == SyntaxKind::IfExpression {
            Some(IfExpression { tree, node })
        } else {
            None
        }
    }

    /// The index of the node in its tree.
    pub fn syntax(&self) -> (r: usize)
        ensures
            r == self.id(),
    {
        self.node
    }

    /// The tree the node belongs to.
    pub fn tree_ref(&self) -> (r: &'a SyntaxTree)
        ensures
            *r == self.tree(),
    {
        self.tree
    }

    /// The source range of the node.
    pub fn text_range(&self) -> (r: TextRange)
        ensures
            r == self.tree().nodes@[self.id() as int].range,
    {
        proof {
            use_type_invariant(self);
        }
        self.tree.nodes[self.node].range
    }

    /// The condition: the first expression.
    pub fn condition(&self) -> (r: Option<Expression<'a>>)
        ensures
            r matches Some(x) ==> (x.tree() == self.tree() && self.id() < x.id() && x.id() < self.tree().nodes@.len() && first_of(self.nodes_in(KindClass::Expression)) == Some(x.id())),
            r is None <==> first_of(self.nodes_in(KindClass::Expression)) is None,
    {
        proof {
            use_type_invariant(self);
        }
        let ids = self.tree.child_nodes(self.node, KindClass::Expression);
        if ids.len() > 0 {
            Expression::cast(self.tree, ids[0])
        } else {
            None
        }
    }

    /// The then branch: the first block.
    pub fn then_branch(&self) -> (r: Option<BlockExpression<'a>>)
        ensures
            r matches Some(x) ==> (x.tree() == self.tree() && self.id() < x.id() && x.id() < self.tree().nodes@.len() && first_of(self.nodes_in(KindClass::Exactly(SyntaxKind::BlockExpression))) == Some(x.id())),
            r is None <==> first_of(self.nodes_in(KindClass::Exactly(SyntaxKind::BlockExpression))) is None,
    {
        proof {
            use_type_invariant(self);
        }
        let ids = self.tree.child_nodes(self.node, KindClass::Exactly(SyntaxKind::BlockExpression));
        if ids.len() > 0 {
            BlockExpression::cast(self.tree, ids[0])
        } else {
            None
        }
    }

    /// The else branch: the child node after the first block that follows the first child node, when it is a block or an `if`.
    pub fn else_branch(&self) -> (r: Option<ElseBranch<'a>>)
        ensures
            r matches Some(x) ==> (x.tree() == self.tree() && self.id() < x.id() && x.id() < self.tree().nodes@.len() && else_branch_node(
                self.tree(),
                self.nodes_in(KindClass::Any),
            ) == Some(x.id()) && x.is_block() == (self.tree().kind_of(x.id())
                == SyntaxKind::BlockExpression)),
            r is None <==> else_branch_node(self.tree(), self.nodes_in(KindClass::Any)) is None,
    {
        proof {
            use_type_invariant(self);
        }
        let ids = self.tree.child_nodes(self.node, KindClass::Any);
        if ids.len() == 0 {
            return None;
        }
        let mut t: usize = 1;
        while t < ids.len() && self.tree.nodes[ids[t]].kind != SyntaxKind::BlockExpression
            invariant
                self.tree.wf(),
                self.node < self.tree.nodes@.len(),
                ids@ == self.nodes_in(KindClass::Any),
                forall|k: int| 0 <= k < ids@.len() ==> self.node < #[trigger] ids@[k] < self.tree.nodes@.len(),
                1 <= t <= ids@.len(),
                first_block_from(self.tree(), ids@, t as int) == first_block_from(self.tree(), ids@, 1),
            decreases ids@.len() - t,
        {
            t = t + 1;
        }
        if t >= ids.len() || t + 1 >= ids.len() {
            return None;
        }
        let e = ids[t + 1];
        if self.tree.nodes[e].kind == SyntaxKind::BlockExpression {
            Some(ElseBranch::Block(BlockExpression::cast(self.tree, e).unwrap()))
        } else if self.tree.nodes[e].kind == SyntaxKind::IfExpression {
            Some(ElseBranch::ElseIf(IfExpression::cast(self.tree, e).unwrap()))
        } else {
            None
        }
    }

}

/// A named function definition.
#[derive(Clone, Copy)]
pub struct FunctionDefinition<'a> {
    tree: &'a SyntaxTree,
    node: usize,
}

impl<'a> FunctionDefinition<'a> {
    /// The tree is well formed and the node is one of its `FunctionDefinition` nodes.
    #[verifier::type_invariant]
    pub closed spec fn inv(self) -> bool {
        self.tree.wf() && self.node < self.tree.nodes@.len() && self.tree.kind_of(self.node)
            == SyntaxKind::FunctionDefinition
    }

    /// The tree the node belongs to.
    pub closed spec fn tree(self) -> SyntaxTree {
        *self.tree
    }

    /// The index of the node in its tree.
    pub closed spec fn id(self) -> usize {
        self.node
    }

    /// What the type invariant states.
    pub proof fn lemma_valid(self)
        requires
            self.inv(),
        ensures
            self.tree().wf(),
            self.id() < self.tree().nodes@.len(),
            self.tree().kind_of(self.id()) == SyntaxKind::FunctionDefinition,
    {
    }

    /// The child nodes whose kind is in `c`, in order.
    pub open spec fn nodes_in(self, c: KindClass) -> Seq<usize> {
        nodes_where(self.tree(), self.tree().children_of(self.id()), c)
    }

    /// The child tokens whose kind is in `c`, in order.
    pub open spec fn tokens_in(self, c: KindClass) -> Seq<Token> {
        tokens_where(self.tree().children_of(self.id()), c)
    }

    /// Whether a node of `kind` can be viewed as this type.
    pub fn can_cast(kind: SyntaxKind) -> (r: bool)
        ensures
            r == (kind == SyntaxKind::FunctionDefinition),
    {
        kind == SyntaxKind::FunctionDefinition
    }

    /// Node `node` of `tree` viewed as this type, when it has the right kind.
    pub fn cast(tree: &'a SyntaxTree, node: usize) -> (r: Option<FunctionDefinition<'a>>)
        requires
            tree.wf(),
            node < tree.nodes@.len(),
        ensures
            (r is Some) == (tree.kind_of(node) == SyntaxKind::FunctionDefinition),
            r matches Some(n) ==> n.tree() == *tree && n.id() == node,
    {
        if tree.nodes[node].kind == SyntaxKind::FunctionDefinition {
            Some(FunctionDefinition { tree, node })
        } else {
            None
        }
    }

    /// The index of the node in its tree.
    pub fn syntax(&self) -> (r: usize)
        ensures
            r == self.id(),
    {
        self.node
    }

    /// The tree the node belongs to.
    pub fn tree_ref(&self) -> (r: &'a SyntaxTree)
        ensures
            *r == self.tree(),
    {
        self.tree
    }

    /// The source range of the node.
    pub fn text_range(&self) -> (r: TextRange)
        ensures
            r == self.tree().nodes@[self.id() as int].range,
    {
        proof {
            use_type_invariant(self);
        }
        self.tree.nodes[self.node].range
    }

    /// Whether the function is public: a `pub` token, with only trivia after it, comes directly before it among its parent's children.
    pub fn is_pub(&self) -> (r: bool)
        ensures
            r == spec_is_pub(self.tree(), self.id()),
    {
        proof {
            use_type_invariant(self);
        }
        follows_pub(self.tree, self.node)
    }

    /// The function name.
    pub fn name(&self) -> (r: Option<Token>)
        ensures
            r == first_of(self.tokens_in(KindClass::Exactly(SyntaxKind::Identifier))),
    {
        proof {
            use_type_invariant(self);
        }
        let toks = self.tree.child_tokens(self.node, KindClass::Exactly(SyntaxKind::Identifier));
        if toks.len() > 0 {
            Some(toks[0].duplicate())
        } else {
            None
        }
    }

    /// The parameter list.
    pub fn params(&self) -> (r: Option<ParameterList<'a>>)
        ensures
            r matches Some(x) ==> (x.tree() == self.tree() && self.id() < x.id() && x.id() < self.tree().nodes@.len() && first_of(self.nodes_in(KindClass::Exactly(SyntaxKind::ParameterList))) == Some(x.id())),
            r is None <==> first_of(self.nodes_in(KindClass::Exactly(SyntaxKind::ParameterList))) is None,
    {
        proof {
            use_type_invariant(self);
        }
        let ids = self.tree.child_nodes(self.node, KindClass::Exactly(SyntaxKind::ParameterList));
        if ids.len() > 0 {
            ParameterList::cast(self.tree, ids[0])
        } else {
            None
        }
    }

    /// The return type.
    pub fn return_type(&self) -> (r: Option<TypeAnnotation<'a>>)
        ensures
            r matches Some(x) ==> (x.tree() == self.tree() && self.id() < x.id() && x.id() < self.tree().nodes@.len() && first_of(self.nodes_in(KindClass::Exactly(SyntaxKind::TypeAnnotation))) == Some(x.id())),
            r is None <==> first_of(self.nodes_in(KindClass::Exactly(SyntaxKind::TypeAnnotation))) is None,
    {
        proof {
            use_type_invariant(self);
        }
        let ids = self.tree.child_nodes(self.node, KindClass::Exactly(SyntaxKind::TypeAnnotation));
        if ids.len() > 0 {
            TypeAnnotation::cast(self.tree, ids[0])
        } else {
            None
        }
    }

    /// The body.
    pub fn body(&self) -> (r: Option<BlockExpression<'a>>)
        ensures
            r matches Some(x) ==> (x.tree() == self.tree() && self.id() < x.id() && x.id() < self.tree().nodes@.len() && first_of(self.nodes_in(KindClass::Exactly(SyntaxKind::BlockExpression))) == Some(x.id())),
            r is None <==> first_of(self.nodes_in(KindClass::Exactly(SyntaxKind::BlockExpression))) is None,
    {
        proof {
            use_type_invariant(self);
        }
        let ids = self.tree.child_nodes(self.node, KindClass::Exactly(SyntaxKind::BlockExpression));
        if ids.len() > 0 {
            BlockExpression::cast(self.tree, ids[0])
        } else {
            None
        }
    }

}

/// An anonymous function.
#[derive(Clone, Copy)]
pub struct FunctionExpression<'a> {
    tree: &'a SyntaxTree,
    node: usize,
}

impl<'a> FunctionExpression<'a> {
    /// The tree is well formed and the node is one of its `FunctionExpression` nodes.
    #[verifier::type_invariant]
    pub closed spec fn inv(self) -> bool {
        self.tree.wf() && self.node < self.tree.nodes@.len() && self.tree.kind_of(self.node)
            == SyntaxKind::FunctionExpression
    }

    /// The tree the node belongs to.
    pub closed spec fn tree(self) -> SyntaxTree {
        *self.tree
    }

    /// The index of the node in its tree.
    pub closed spec fn id(self) -> usize {
        self.node
    }

    /// What the type invariant states.
    pub proof fn lemma_valid(self)
        requires
            self.inv(),
        ensures
            self.tree().wf(),
            self.id() < self.tree().nodes@.len(),
            self.tree().kind_of(self.id()) == SyntaxKind::FunctionExpression,
    {
    }

    /// The child nodes whose kind is in `c`, in order.
    pub open spec fn nodes_in(self, c: KindClass) -> Seq<usize> {
        nodes_where(self.tree(), self.tree().children_of(self.id()), c)
    }

    /// The child tokens whose kind is in `c`, in order.
    pub open spec fn tokens_in(self, c: KindClass) -> Seq<Token> {
        tokens_where(self.tree().children_of(self.id()), c)
    }

    /// Whether a node of `kind` can be viewed as this type.
    pub fn can_cast(kind: SyntaxKind) -> (r: bool)
        ensures
            r == (kind == SyntaxKind::FunctionExpression),
    {
        kind == SyntaxKind::FunctionExpression
    }

    /// Node `node` of `tree` viewed as this type, when it has the right kind.
    pub fn cast(tree: &'a SyntaxTree, node: usize) -> (r: Option<FunctionExpression<'a>>)
        requires
            tree.wf(),
            node < tree.nodes@.len(),
        ensures
            (r is Some) == (tree.kind_of(node) == SyntaxKind::FunctionExpression),
            r matches Some(n) ==> n.tree() == *tree && n.id() == node,
    {
        if tree.nodes[node].kind == SyntaxKind::FunctionExpression {
            Some(FunctionExpression { tree, node })
        } else {
            None
        }
    }

    /// The index of the node in its tree.
    pub fn syntax(&self) -> (r: usize)
        ensures
            r == self.id(),
    {
        self.node
    }

    /// The tree the node belongs to.
    pub fn tree_ref(&self) -> (r: &'a SyntaxTree)
        ensures
            *r == self.tree(),
    {
        self.tree
    }

    /// The source range of the node.
    pub fn text_range(&self) -> (r: TextRange)
        ensures
            r == self.tree().nodes@[self.id() as int].range,
    {
        proof {
            use_type_invariant(self);
        }
        self.tree.nodes[self.node].range
    }

    /// The parameter list.
    pub fn params(&self) -> (r: Option<ParameterList<'a>>)
        ensures
            r matches Some(x) ==> (x.tree() == self.tree() && self.id() < x.id() && x.id() < self.tree().nodes@.len() && first_of(self.nodes_in(KindClass::Exactly(SyntaxKind::ParameterList))) == Some(x.id())),
            r is None <==> first_of(self.nodes_in(KindClass::Exactly(SyntaxKind::ParameterList))) is None,
    {
        proof {
            use_type_invariant(self);
        }
        let ids = self.tree.child_nodes(self.node, KindClass::Exactly(SyntaxKind::ParameterList));
        if ids.len() > 0 {
            ParameterList::cast(self.tree, ids[0])
        } else {
            None
        }
    }

    /// The return type.
    pub fn return_type(&self) -> (r: Option<TypeAnnotation<'a>>)
        ensures
            r matches Some(x) ==> (x.tree() == self.tree() && self.id() < x.id() && x.id() < self.tree().nodes@.len() && first_of(self.nodes_in(KindClass::Exactly(SyntaxKind::TypeAnnotation))) == Some(x.id())),
            r is None <==> first_of(self.nodes_in(KindClass::Exactly(SyntaxKind::TypeAnnotation))) is None,
    {
        proof {
            use_type_invariant(self);
        }
        let ids = self.tree.child_nodes(self.node, KindClass::Exactly(SyntaxKind::TypeAnnotation));
        if ids.len() > 0 {
            TypeAnnotation::cast(self.tree, ids[0])
        } else {
            None
        }
    }

    /// The body.
    pub fn body(&self) -> (r: Option<BlockExpression<'a>>)
        ensures
            r matches Some(x) ==> (x.tree() == self.tree() && self.id() < x.id() && x.id() < self.tree().nodes@.len() && first_of(self.nodes_in(KindClass::Exactly(SyntaxKind::BlockExpression))) == Some(x.id())),
            r is None <==> first_of(self.nodes_in(KindClass::Exactly(SyntaxKind::BlockExpression))) is None,
    {
        proof {
            use_type_invariant(self);
        }
        let ids = self.tree.child_nodes(self.node, KindClass::Exactly(SyntaxKind::BlockExpression));
        if ids.len() > 0 {
            BlockExpression::cast(self.tree, ids[0])
        } else {
            None
        }
    }

}

/// A parameter list.
#[derive(Clone, Copy)]
pub struct ParameterList<'a> {
    tree: &'a SyntaxTree,
    node: usize,
}

impl<'a> ParameterList<'a> {
    /// The tree is well formed and the node is one of its `ParameterList` nodes.
    #[verifier::type_invariant]
    pub closed spec fn inv(self) -> bool {
        self.tree.wf() && self.node < self.tree.nodes@.len() && self.tree.kind_of(self.node)
            == SyntaxKind::ParameterList
    }

    /// The tree the node belongs to.
    pub closed spec fn tree(self) -> SyntaxTree {
        *self.tree
    }

    /// The index of the node in its tree.
    pub closed spec fn id(self) -> usize {
        self.node
    }

    /// What the type invariant states.
    pub proof fn lemma_valid(self)
        requires
            self.inv(),
        ensures
            self.tree().wf(),
            self.id() < self.tree().nodes@.len(),
            self.tree().kind_of(self.id()) == SyntaxKind::ParameterList,
    {
    }

    /// The child nodes whose kind is in `c`, in order.
    pub open spec fn nodes_in(self, c: KindClass) -> Seq<usize> {
        nodes_where(self.tree(), self.tree().children_of(self.id()), c)
    }

    /// The child tokens whose kind is in `c`, in order.
    pub open spec fn tokens_in(self, c: KindClass) -> Seq<Token> {
        tokens_where(self.tree().children_of(self.id()), c)
    }

    /// Whether a node of `kind` can be viewed as this type.
    pub fn can_cast(kind: SyntaxKind) -> (r: bool)
        ensures
            r == (kind == SyntaxKind::ParameterList),
    {
        kind == SyntaxKind::ParameterList
    }

    /// Node `node` of `tree` viewed as this type, when it has the right kind.
    pub fn cast(tree: &'a SyntaxTree, node: usize) -> (r: Option<ParameterList<'a>>)
        requires
            tree.wf(),
            node < tree.nodes@.len(),
        ensures
            (r is Some) == (tree.kind_of(node) == SyntaxKind::ParameterList),
            r matches Some(n) ==> n.tree() == *tree && n.id() == node,
    {
        if tree.nodes[node].kind == SyntaxKind::ParameterList {
            Some(ParameterList { tree, node })
        } else {
            None
        }
    }

    /// The index of the node in its tree.
    pub fn syntax(&self) -> (r: usize)
        ensures
            r == self.id(),
    {
        self.node
    }

    /// The tree the node belongs to.
    pub fn tree_ref(&self) -> (r: &'a SyntaxTree)
        ensures
            *r == self.tree(),
    {
        self.tree
    }

    /// The source range of the node.
    pub fn text_range(&self) -> (r: TextRange)
        ensures
            r == self.tree().nodes@[self.id() as int].range,
    {
        proof {
            use_type_invariant(self);
        }
        self.tree.nodes[self.node].range
    }

    /// The parameters, in order.
    pub fn params(&self) -> (r: Vec<Parameter<'a>>)
        ensures
            r@.len() == self.nodes_in(KindClass::Exactly(SyntaxKind::Parameter)).len(),
            forall|k: int| #![trigger r@[k]] 0 <= k < r@.len() ==> (r@[k].tree() == self.tree() && self.id() < r@[k].id() && r@[k].id() < self.tree().nodes@.len() && r@[k].id() == self.nodes_in(KindClass::Exactly(SyntaxKind::Parameter))[k]),
    {
        proof {
            use_type_invariant(self);
        }
        let ids = self.tree.child_nodes(self.node, KindClass::Exactly(SyntaxKind::Parameter));
        let mut out: Vec<Parameter<'a>> = Vec::new();
        let mut i: usize = 0;
        while i < ids.len()
            invariant
                self.tree.wf(),
                self.node < self.tree.nodes@.len(),
                ids@ == self.nodes_in(KindClass::Exactly(SyntaxKind::Parameter)),
                forall|k: int| 0 <= k < ids@.len() ==> self.node < #[trigger] ids@[k] < self.tree.nodes@.len(),
                forall|k: int| 0 <= k < ids@.len() ==> class_has(KindClass::Exactly(SyntaxKind::Parameter), self.tree.kind_of(#[trigger] ids@[k])),
                i <= ids@.len(),
                out@.len() == i,
                forall|k: int| #![trigger out@[k]] 0 <= k < i ==> (out@[k].tree() == self.tree() && self.id() < out@[k].id() && out@[k].id() < self.tree().nodes@.len() && out@[k].id() == ids@[k]),
            decreases ids@.len() - i,
        {
            let x = Parameter::cast(self.tree, ids[i]).unwrap();
            let ghost old_out = out@;
            out.push(x);
            assert(out@[i as int] == x);
            assert(x.tree() == self.tree());
            assert(self.id() < x.id());
            assert(x.id() < self.tree().nodes@.len());
            assert(x.id() == ids@[i as int]);
            assert(forall|k: int| 0 <= k < i ==> out@[k] == old_out[k]);
            i = i + 1;
        }
        out
    }

}

/// A parameter.
#[derive(Clone, Copy)]
pub struct Parameter<'a> {
    tree: &'a SyntaxTree,
    node: usize,
}

impl<'a> Parameter<'a> {
    /// The tree is well formed and the node is one of its `Parameter` nodes.
    #[verifier::type_invariant]
    pub closed spec fn inv(self) -> bool {
        self.tree.wf() && self.node < self.tree.nodes@.len() && self.tree.kind_of(self.node)
            == SyntaxKind::Parameter
    }

    /// The tree the node belongs to.
    pub closed spec fn tree(self) -> SyntaxTree {
        *self.tree
    }

    /// The index of the node in its tree.
    pub closed spec fn id(self) -> usize {
        self.node
    }

    /// What the type invariant states.
    pub proof fn lemma_valid(self)
        requires
            self.inv(),
        ensures
            self.tree().wf(),
            self.id() < self.tree().nodes@.len(),
            self.tree().kind_of(self.id()) == SyntaxKind::Parameter,
    {
    }

    /// The child nodes whose kind is in `c`, in order.
    pub open spec fn nodes_in(self, c: KindClass) -> Seq<usize> {
        nodes_where(self.tree(), self.tree().children_of(self.id()), c)
    }

    /// The child tokens whose kind is in `c`, in order.
    pub open spec fn tokens_in(self, c: KindClass) -> Seq<Token> {
        tokens_where(self.tree().children_of(self.id()), c)
    }

    /// Whether a node of `kind` can be viewed as this type.
    pub fn can_cast(kind: SyntaxKind) -> (r: bool)
        ensures
            r == (kind == SyntaxKind::Parameter),
    {
        kind == SyntaxKind::Parameter
    }

    /// Node `node` of `tree` viewed as this type, when it has the right kind.
    pub fn cast(tree: &'a SyntaxTree, node: usize) -> (r: Option<Parameter<'a>>)
        requires
            tree.wf(),
            node < tree.nodes@.len(),
        ensures
            (r is Some) == (tree.kind_of(node) == SyntaxKind::Parameter),
            r matches Some(n) ==> n.tree() == *tree && n.id() == node,
    {
        if tree.nodes[node].kind == SyntaxKind::Parameter {
            Some(Parameter { tree, node })
        } else {
            None
        }
    }

    /// The index of the node in its tree.
    pub fn syntax(&self) -> (r: usize)
        ensures
            r == self.id(),
    {
        self.node
    }

    /// The tree the node belongs to.
    pub fn tree_ref(&self) -> (r: &'a SyntaxTree)
        ensures
            *r == self.tree(),
    {
        self.tree
    }

    /// The source range of the node.
    pub fn text_range(&self) -> (r: TextRange)
        ensures
            r == self.tree().nodes@[self.id() as int].range,
    {
        proof {
            use_type_invariant(self);
        }
        self.tree.nodes[self.node].range
    }

    /// The parameter name.
    pub fn name(&self) -> (r: Option<Token>)
        ensures
            r == first_of(self.tokens_in(KindClass::Exactly(SyntaxKind::Identifier))),
    {
        proof {
            use_type_invariant(self);
        }
        let toks = self.tree.child_tokens(self.node, KindClass::Exactly(SyntaxKind::Identifier));
        if toks.len() > 0 {
            Some(toks[0].duplicate())
        } else {
            None
        }
    }

    /// The type annotation.
    pub fn type_annotation(&self) -> (r: Option<TypeAnnotation<'a>>)
        ensures
            r matches Some(x) ==> (x.tree() == self.tree() && self.id() < x.id() && x.id() < self.tree().nodes@.len() && first_of(self.nodes_in(KindClass::Exactly(SyntaxKind::TypeAnnotation))) == Some(x.id())),
            r is None <==> first_of(self.nodes_in(KindClass::Exactly(SyntaxKind::TypeAnnotation))) is None,
    {
        proof {
            use_type_invariant(self);
        }
        let ids = self.tree.child_nodes(self.node, KindClass::Exactly(SyntaxKind::TypeAnnotation));
        if ids.len() > 0 {
            TypeAnnotation::cast(self.tree, ids[0])
        } else {
            None
        }
    }

    /// The default value.
    pub fn default_value(&self) -> (r: Option<Expression<'a>>)
        ensures
            r matches Some(x) ==> (x.tree() == self.tree() && self.id() < x.id() && x.id() < self.tree().nodes@.len() && first_of(self.nodes_in(KindClass::Expression)) == Some(x.id())),
            r is None <==> first_of(self.nodes_in(KindClass::Expression)) is None,
    {
        proof {
            use_type_invariant(self);
        }
        let ids = self.tree.child_nodes(self.node, KindClass::Expression);
        if ids.len() > 0 {
            Expression::cast(self.tree, ids[0])
        } else {
            None
        }
    }

}

/// A call.
#[derive(Clone, Copy)]
pub struct CallExpression<'a> {
    tree: &'a SyntaxTree,
    node: usize,
}

impl<'a> CallExpression<'a> {
    /// The tree is well formed and the node is one of its `CallExpression` nodes.
    #[verifier::type_invariant]
    pub closed spec fn inv(self) -> bool {
        self.tree.wf() && self.node < self.tree.nodes@.len() && self.tree.kind_of(self.node)
            == SyntaxKind::CallExpression
    }

    /// The tree the node belongs to.
    pub closed spec fn tree(self) -> SyntaxTree {
        *self.tree
    }

    /// The index of the node in its tree.
    pub closed spec fn id(self) -> usize {
        self.node
    }

    /// What the type invariant states.
    pub proof fn lemma_valid(self)
        requires
            self.inv(),
        ensures
            self.tree().wf(),
            self.id() < self.tree().nodes@.len(),
            self.tree().kind_of(self.id()) == SyntaxKind::CallExpression,
    {
    }

    /// The child nodes whose kind is in `c`, in order.
    pub open spec fn nodes_in(self, c: KindClass) -> Seq<usize> {
        nodes_where(self.tree(), self.tree().children_of(self.id()), c)
    }

    /// The child tokens whose kind is in `c`, in order.
    pub open spec fn tokens_in(self, c: KindClass) -> Seq<Token> {
        tokens_where(self.tree().children_of(self.id()), c)
    }

    /// Whether a node of `kind` can be viewed as this type.
    pub fn can_cast(kind: SyntaxKind) -> (r: bool)
        ensures
            r == (kind == SyntaxKind::CallExpression),
    {
        kind == SyntaxKind::CallExpression
    }

    /// Node `node` of `tree` viewed as this type, when it has the right kind.
    pub fn cast(tree: &'a SyntaxTree, node: usize) -> (r: Option<CallExpression<'a>>)
        requires
            tree.wf(),
            node < tree.nodes@.len(),
        ensures
            (r is Some) == (tree.kind_of(node) == SyntaxKind::CallExpression),
            r matches Some(n) ==> n.tree() == *tree && n.id() == node,
    {
        if tree.nodes[node].kind == SyntaxKind::CallExpression {
            Some(CallExpression { tree, node })
        } else {
            None
        }
    }

    /// The index of the node in its tree.
    pub fn syntax(&self) -> (r: usize)
        ensures
            r == self.id(),
    {
        self.node
    }

    /// The tree the node belongs to.
    pub fn tree_ref(&self) -> (r: &'a SyntaxTree)
        ensures
            *r == self.tree(),
    {
        self.tree
    }

    /// The source range of the node.
    pub fn text_range(&self) -> (r: TextRange)
        ensures
            r == self.tree().nodes@[self.id() as int].range,
    {
        proof {
            use_type_invariant(self);
        }
        self.tree.nodes[self.node].range
    }

    /// The callee: the first expression.
    pub fn callee(&self) -> (r: Option<Expression<'a>>)
        ensures
            r matches Some(x) ==> (x.tree() == self.tree() && self.id() < x.id() && x.id() < self.tree().nodes@.len() && first_of(self.nodes_in(KindClass::Expression)) == Some(x.id())),
            r is None <==> first_of(self.nodes_in(KindClass::Expression)) is None,
    {
        proof {
            use_type_invariant(self);
        }
        let ids = self.tree.child_nodes(self.node, KindClass::Expression);
        if ids.len() > 0 {
            Expression::cast(self.tree, ids[0])
        } else {
            None
        }
    }

    /// The arguments: every expression after the first.
    pub fn args(&self) -> (r: Vec<Expression<'a>>)
        ensures
            r@.len() == drop_one(self.nodes_in(KindClass::Expression)).len(),
            forall|k: int| #![trigger r@[k]] 0 <= k < r@.len() ==> (r@[k].tree() == self.tree() && self.id() < r@[k].id() && r@[k].id() < self.tree().nodes@.len() && r@[k].id() == drop_one(self.nodes_in(KindClass::Expression))[k]),
    {
        proof {
            use_type_invariant(self);
        }
        let ids = self.tree.child_nodes(self.node, KindClass::Expression);
        let mut out: Vec<Expression<'a>> = Vec::new();
        if ids.len() == 0 {
            return out;
        }
        let mut i: usize = 1;
        while i < ids.len()
            invariant
                self.tree.wf(),
                self.node < self.tree.nodes@.len(),
                ids@ == self.nodes_in(KindClass::Expression),
                ids@.len() > 0,
                forall|k: int| 0 <= k < ids@.len() ==> self.node < #[trigger] ids@[k] < self.tree.nodes@.len(),
                forall|k: int| 0 <= k < ids@.len() ==> class_has(KindClass::Expression, self.tree.kind_of(#[trigger] ids@[k])),
                1 <= i <= ids@.len(),
                out@.len() == i - 1,
                forall|k: int| #![trigger out@[k]] 0 <= k < i - 1 ==> (out@[k].tree() == self.tree() && self.id() < out@[k].id() && out@[k].id() < self.tree().nodes@.len() && out@[k].id() == ids@[k + 1]),
            decreases ids@.len() - i,
        {
            let x = Expression::cast(self.tree, ids[i]).unwrap();
            let ghost old_out = out@;
            out.push(x);
            assert(out@[i - 1] == x);
            assert(forall|k: int| 0 <= k < i - 1 ==> out@[k] == old_out[k]);
            i = i + 1;
        }
        out
    }

}

/// A `return` statement.
#[derive(Clone, Copy)]
pub struct ReturnStatement<'a> {
    tree: &'a SyntaxTree,
    node: usize,
}

impl<'a> ReturnStatement<'a> {
    /// The tree is well formed and the node is one of its `ReturnStatement` nodes.
    #[verifier::type_invariant]
    pub closed spec fn inv(self) -> bool {
        self.tree.wf() && self.node < self.tree.nodes@.len() && self.tree.kind_of(self.node)
            == SyntaxKind::ReturnStatement
    }

    /// The tree the node belongs to.
    pub closed spec fn tree(self) -> SyntaxTree {
        *self.tree
    }

    /// The index of the node in its tree.
    pub closed spec fn id(self) -> usize {
        self.node
    }

    /// What the type invariant states.
    pub proof fn lemma_valid(self)
        requires
            self.inv(),
        ensures
            self.tree().wf(),
            self.id() < self.tree().nodes@.len(),
            self.tree().kind_of(self.id()) == SyntaxKind::ReturnStatement,
    {
    }

    /// The child nodes whose kind is in `c`, in order.
    pub open spec fn nodes_in(self, c: KindClass) -> Seq<usize> {
        nodes_where(self.tree(), self.tree().children_of(self.id()), c)
    }

    /// The child tokens whose kind is in `c`, in order.
    pub open spec fn tokens_in(self, c: KindClass) -> Seq<Token> {
        tokens_where(self.tree().children_of(self.id()), c)
    }

    /// Whether a node of `kind` can be viewed as this type.
    pub fn can_cast(kind: SyntaxKind) -> (r: bool)
        ensures
            r == (kind == SyntaxKind::ReturnStatement),
    {
        kind == SyntaxKind::ReturnStatement
    }

    /// Node `node` of `tree` viewed as this type, when it has the right kind.
    pub fn cast(tree: &'a SyntaxTree, node: usize) -> (r: Option<ReturnStatement<'a>>)
        requires
            tree.wf(),
            node < tree.nodes@.len(),
        ensures
            (r is Some) == (tree.kind_of(node) == SyntaxKind::ReturnStatement),
            r matches Some(n) ==> n.tree() == *tree && n.id() == node,
    {
        if tree.nodes[node].kind == SyntaxKind::ReturnStatement {
            Some(ReturnStatement { tree, node })
        } else {
            None
        }
    }

    /// The index of the node in its tree.
    pub fn syntax(&self) -> (r: usize)
        ensures
            r == self.id(),
    {
        self.node
    }

    /// The tree the node belongs to.
    pub fn tree_ref(&self) -> (r: &'a SyntaxTree)
        ensures
            *r == self.tree(),
    {
        self.tree
    }

    /// The source range of the node.
    pub fn text_range(&self) -> (r: TextRange)
        ensures
            r == self.tree().nodes@[self.id() as int].range,
    {
        proof {
            use_type_invariant(self);
        }
        self.tree.nodes[self.node].range
    }

    /// The returned value.
    pub fn value(&self) -> (r: Option<Expression<'a>>)
        ensures
            r matches Some(x) ==> (x.tree() == self.tree() && self.id() < x.id() && x.id() < self.tree().nodes@.len() && first_of(self.nodes_in(KindClass::Expression)) == Some(x.id())),
            r is None <==> first_of(self.nodes_in(KindClass::Expression)) is None,
    {
        proof {
            use_type_invariant(self);
        }
        let ids = self.tree.child_nodes(self.node, KindClass::Expression);
        if ids.len() > 0 {
            Expression::cast(self.tree, ids[0])
        } else {
            None
        }
    }

}

/// An `echo` statement.
#[derive(Clone, Copy)]
pub struct EchoStatement<'a> {
    tree: &'a SyntaxTree,
    node: usize,
}

impl<'a> EchoStatement<'a> {
    /// The tree is well formed and the node is one of its `EchoStatement` nodes.
    #[verifier::type_invariant]
    pub closed spec fn inv(self) -> bool {
        self.tree.wf() && self.node < self.tree.nodes@.len() && self.tree.kind_of(self.node)
            == SyntaxKind::EchoStatement
    }

    /// The tree the node belongs to.
    pub closed spec fn tree(self) -> SyntaxTree {
        *self.tree
    }

    /// The index of the node in its tree.
    pub closed spec fn id(self) -> usize {
        self.node
    }

    /// What the type invariant states.
    pub proof fn lemma_valid(self)
        requires
            self.inv(),
        ensures
            self.tree().wf(),
            self.id() < self.tree().nodes@.len(),
            self.tree().kind_of(self.id()) == SyntaxKind::EchoStatement,
    {
    }

    /// The child nodes whose kind is in `c`, in order.
    pub open spec fn nodes_in(self, c: KindClass) -> Seq<usize> {
        nodes_where(self.tree(), self.tree().children_of(self.id()), c)
    }

    /// The child tokens whose kind is in `c`, in order.
    pub open spec fn tokens_in(self, c: KindClass) -> Seq<Token> {
        tokens_where(self.tree().children_of(self.id()), c)
    }

    /// Whether a node of `kind` can be viewed as this type.
    pub fn can_cast(kind: SyntaxKind) -> (r: bool)
        ensures
            r == (kind == SyntaxKind::EchoStatement),
    {
        kind == SyntaxKind::EchoStatement
    }

    /// Node `node` of `tree` viewed as this type, when it has the right kind.
    pub fn cast(tree: &'a SyntaxTree, node: usize) -> (r: Option<EchoStatement<'a>>)
        requires
            tree.wf(),
            node < tree.nodes@.len(),
        ensures
            (r is Some) == (tree.kind_of(node) == SyntaxKind::EchoStatement),
            r matches Some(n) ==> n.tree() == *tree && n.id() == node,
    {
        if tree.nodes[node].kind == SyntaxKind::EchoStatement {
            Some(EchoStatement { tree, node })
        } else {
            None
        }
    }

    /// The index of the node in its tree.
    pub fn syntax(&self) -> (r: usize)
        ensures
            r == self.id(),
    {
        self.node
    }

    /// The tree the node belongs to.
    pub fn tree_ref(&self) -> (r: &'a SyntaxTree)
        ensures
            *r == self.tree(),
    {
        self.tree
    }

    /// The source range of the node.
    pub fn text_range(&self) -> (r: TextRange)
        ensures
            r == self.tree().nodes@[self.id() as int].range,
    {
        proof {
            use_type_invariant(self);
        }
        self.tree.nodes[self.node].range
    }

    /// The printed value.
    pub fn value(&self) -> (r: Option<Expression<'a>>)
        ensures
            r matches Some(x) ==> (x.tree() == self.tree() && self.id() < x.id() && x.id() < self.tree().nodes@.len() && first_of(self.nodes_in(KindClass::Expression)) == Some(x.id())),
            r is None <==> first_of(self.nodes_in(KindClass::Expression)) is None,
    {
        proof {
            use_type_invariant(self);
        }
        let ids = self.tree.child_nodes(self.node, KindClass::Expression);
        if ids.len() > 0 {
            Expression::cast(self.tree, ids[0])
        } else {
            None
        }
    }

}

/// A `loop` expression.
#[derive(Clone, Copy)]
pub struct LoopExpression<'a> {
    tree: &'a SyntaxTree,
    node: usize,
}

impl<'a> LoopExpression<'a> {
    /// The tree is well formed and the node is one of its `LoopExpression` nodes.
    #[verifier::type_invariant]
    pub closed spec fn inv(self) -> bool {
        self.tree.wf() && self.node < self.tree.nodes@.len() && self.tree.kind_of(self.node)
            == SyntaxKind::LoopExpression
    }

    /// The tree the node belongs to.
    pub closed spec fn tree(self) -> SyntaxTree {
        *self.tree
    }

    /// The index of the node in its tree.
    pub closed spec fn id(self) -> usize {
        self.node
    }

    /// What the type invariant states.
    pub proof fn lemma_valid(self)
        requires
            self.inv(),
        ensures
            self.tree().wf(),
            self.id() < self.tree().nodes@.len(),
            self.tree().kind_of(self.id()) == SyntaxKind::LoopExpression,
    {
    }

    /// The child nodes whose kind is in `c`, in order.
    pub open spec fn nodes_in(self, c: KindClass) -> Seq<usize> {
        nodes_where(self.tree(), self.tree().children_of(self.id()), c)
    }

    /// The child tokens whose kind is in `c`, in order.
    pub open spec fn tokens_in(self, c: KindClass) -> Seq<Token> {
        tokens_where(self.tree().children_of(self.id()), c)
    }

    /// Whether a node of `kind` can be viewed as this type.
    pub fn can_cast(kind: SyntaxKind) -> (r: bool)
        ensures
            r == (kind == SyntaxKind::LoopExpression),
    {
        kind == SyntaxKind::LoopExpression
    }

    /// Node `node` of `tree` viewed as this type, when it has the right kind.
    pub fn cast(tree: &'a SyntaxTree, node: usize) -> (r: Option<LoopExpression<'a>>)
        requires
            tree.wf(),
            node < tree.nodes@.len(),
        ensures
            (r is Some) == (tree.kind_of(node) == SyntaxKind::LoopExpression),
            r matches Some(n) ==> n.tree() == *tree && n.id() == node,
    {
        if tree.nodes[node].kind == SyntaxKind::LoopExpression {
            Some(LoopExpression { tree, node })
        } else {
            None
        }
    }

    /// The index of the node in its tree.
    pub fn syntax(&self) -> (r: usize)
        ensures
            r == self.id(),
    {
        self.node
    }

    /// The tree the node belongs to.
    pub fn tree_ref(&self) -> (r: &'a SyntaxTree)
        ensures
            *r == self.tree(),
    {
        self.tree
    }

    /// The source range of the node.
    pub fn text_range(&self) -> (r: TextRange)
        ensures
            r == self.tree().nodes@[self.id() as int].range,
    {
        proof {
            use_type_invariant(self);
        }
        self.tree.nodes[self.node].range
    }

    /// The label.
    pub fn label(&self) -> (r: Option<Token>)
        ensures
            r == first_of(self.tokens_in(KindClass::Exactly(SyntaxKind::Identifier))),
    {
        proof {
            use_type_invariant(self);
        }
        let toks = self.tree.child_tokens(self.node, KindClass::Exactly(SyntaxKind::Identifier));
        if toks.len() > 0 {
            Some(toks[0].duplicate())
        } else {
            None
        }
    }

    /// The body.
    pub fn body(&self) -> (r: Option<BlockExpression<'a>>)
        ensures
            r matches Some(x) ==> (x.tree() == self.tree() && self.id() < x.id() && x.id() < self.tree().nodes@.len() && first_of(self.nodes_in(KindClass::Exactly(SyntaxKind::BlockExpression))) == Some(x.id())),
            r is None <==> first_of(self.nodes_in(KindClass::Exactly(SyntaxKind::BlockExpression))) is None,
    {
        proof {
            use_type_invariant(self);
        }
        let ids = self.tree.child_nodes(self.node, KindClass::Exactly(SyntaxKind::BlockExpression));
        if ids.len() > 0 {
            BlockExpression::cast(self.tree, ids[0])
        } else {
            None
        }
    }

}

/// A `while` expression.
#[derive(Clone, Copy)]
pub struct WhileExpression<'a> {
    tree: &'a SyntaxTree,
    node: usize,
}

impl<'a> WhileExpression<'a> {
    /// The tree is well formed and the node is one of its `WhileExpression` nodes.
    #[verifier::type_invariant]
    pub closed spec fn inv(self) -> bool {
        self.tree.wf() && self.node < self.tree.nodes@.len() && self.tree.kind_of(self.node)
            == SyntaxKind::WhileExpression
    }

    /// The tree the node belongs to.
    pub closed spec fn tree(self) -> SyntaxTree {
        *self.tree
    }

    /// The index of the node in its tree.
    pub closed spec fn id(self) -> usize {
        self.node
    }

    /// What the type invariant states.
    pub proof fn lemma_valid(self)
        requires
            self.inv(),
        ensures
            self.tree().wf(),
            self.id() < self.tree().nodes@.len(),
            self.tree().kind_of(self.id()) == SyntaxKind::WhileExpression,
    {
    }

    /// The child nodes whose kind is in `c`, in order.
    pub open spec fn nodes_in(self, c: KindClass) -> Seq<usize> {
        nodes_where(self.tree(), self.tree().children_of(self.id()), c)
    }

    /// The child tokens whose kind is in `c`, in order.
    pub open spec fn tokens_in(self, c: KindClass) -> Seq<Token> {
        tokens_where(self.tree().children_of(self.id()), c)
    }

    /// Whether a node of `kind` can be viewed as this type.
    pub fn can_cast(kind: SyntaxKind) -> (r: bool)
        ensures
            r == (kind == SyntaxKind::WhileExpression),
    {
        kind == SyntaxKind::WhileExpression
    }

    /// Node `node` of `tree` viewed as this type, when it has the right kind.
    pub fn cast(tree: &'a SyntaxTree, node: usize) -> (r: Option<WhileExpression<'a>>)
        requires
            tree.wf(),
            node < tree.nodes@.len(),
        ensures
            (r is Some) == (tree.kind_of(node) == SyntaxKind::WhileExpression),
            r matches Some(n) ==> n.tree() == *tree && n.id() == node,
    {
        if tree.nodes[node].kind == SyntaxKind::WhileExpression {
            Some(WhileExpression { tree, node })
        } else {
            None
        }
    }

    /// The index of the node in its tree.
    pub fn syntax(&self) -> (r: usize)
        ensures
            r == self.id(),
    {
        self.node
    }

    /// The tree the node belongs to.
    pub fn tree_ref(&self) -> (r: &'a SyntaxTree)
        ensures
            *r == self.tree(),
    {
        self.tree
    }

    /// The source range of the node.
    pub fn text_range(&self) -> (r: TextRange)
        ensures
            r == self.tree().nodes@[self.id() as int].range,
    {
        proof {
            use_type_invariant(self);
        }
        self.tree.nodes[self.node].range
    }

    /// The condition.
    pub fn condition(&self) -> (r: Option<Expression<'a>>)
        ensures
            r matches Some(x) ==> (x.tree() == self.tree() && self.id() < x.id() && x.id() < self.tree().nodes@.len() && first_of(self.nodes_in(KindClass::Expression)) == Some(x.id())),
            r is None <==> first_of(self.nodes_in(KindClass::Expression)) is None,
    {
        proof {
            use_type_invariant(self);
        }
        let ids = self.tree.child_nodes(self.node, KindClass::Expression);
        if ids.len() > 0 {
            Expression::cast(self.tree, ids[0])
        } else {
            None
        }
    }

    /// The label.
    pub fn label(&self) -> (r: Option<Token>)
        ensures
            r == first_of(self.tokens_in(KindClass::Exactly(SyntaxKind::Identifier))),
    {
        proof {
            use_type_invariant(self);
        }
        let toks = self.tree.child_tokens(self.node, KindClass::Exactly(SyntaxKind::Identifier));
        if toks.len() > 0 {
            Some(toks[0].duplicate())
        } else {
            None
        }
    }

    /// The body.
    pub fn body(&self) -> (r: Option<BlockExpression<'a>>)
        ensures
            r matches Some(x) ==> (x.tree() == self.tree() && self.id() < x.id() && x.id() < self.tree().nodes@.len() && first_of(self.nodes_in(KindClass::Exactly(SyntaxKind::BlockExpression))) == Some(x.id())),
            r is None <==> first_of(self.nodes_in(KindClass::Exactly(SyntaxKind::BlockExpression))) is None,
    {
        proof {
            use_type_invariant(self);
        }
        let ids = self.tree.child_nodes(self.node, KindClass::Exactly(SyntaxKind::BlockExpression));
        if ids.len() > 0 {
            BlockExpression::cast(self.tree, ids[0])
        } else {
            None
        }
    }

}

/// A `for` expression.
#[derive(Clone, Copy)]
pub struct ForExpression<'a> {
    tree: &'a SyntaxTree,
    node: usize,
}

impl<'a> ForExpression<'a> {
    /// The tree is well formed and the node is one of its `ForExpression` nodes.
    #[verifier::type_invariant]
    pub closed spec fn inv(self) -> bool {
        self.tree.wf() && self.node < self.tree.nodes@.len() && self.tree.kind_of(self.node)
            == SyntaxKind::ForExpression
    }

    /// The tree the node belongs to.
    pub closed spec fn tree(self) -> SyntaxTree {
        *self.tree
    }

    /// The index of the node in its tree.
    pub closed spec fn id(self) -> usize {
        self.node
    }

    /// What the type invariant states.
    pub proof fn lemma_valid(self)
        requires
            self.inv(),
        ensures
            self.tree().wf(),
            self.id() < self.tree().nodes@.len(),
            self.tree().kind_of(self.id()) == SyntaxKind::ForExpression,
    {
    }

    /// The child nodes whose kind is in `c`, in order.
    pub open spec fn nodes_in(self, c: KindClass) -> Seq<usize> {
        nodes_where(self.tree(), self.tree().children_of(self.id()), c)
    }

    /// The child tokens whose kind is in `c`, in order.
    pub open spec fn tokens_in(self, c: KindClass) -> Seq<Token> {
        tokens_where(self.tree().children_of(self.id()), c)
    }

    /// Whether a node of `kind` can be viewed as this type.
    pub fn can_cast(kind: SyntaxKind) -> (r: bool)
        ensures
            r == (kind == SyntaxKind::ForExpression),
    {
        kind == SyntaxKind::ForExpression
    }

    /// Node `node` of `tree` viewed as this type, when it has the right kind.
    pub fn cast(tree: &'a SyntaxTree, node: usize) -> (r: Option<ForExpression<'a>>)
        requires
            tree.wf(),
            node < tree.nodes@.len(),
        ensures
            (r is Some) == (tree.kind_of(node) == SyntaxKind::ForExpression),
            r matches Some(n) ==> n.tree() == *tree && n.id() == node,
    {
        if tree.nodes[node].kind == SyntaxKind::ForExpression {
            Some(ForExpression { tree, node })
        } else {
            None
        }
    }

    /// The index of the node in its tree.
    pub fn syntax(&self) -> (r: usize)
        ensures
            r == self.id(),
    {
        self.node
    }

    /// The tree the node belongs to.
    pub fn tree_ref(&self) -> (r: &'a SyntaxTree)
        ensures
            *r == self.tree(),
    {
        self.tree
    }

    /// The source range of the node.
    pub fn text_range(&self) -> (r: TextRange)
        ensures
            r == self.tree().nodes@[self.id() as int].range,
    {
        proof {
            use_type_invariant(self);
        }
        self.tree.nodes[self.node].range
    }

    /// The loop variable: the first identifier.
    pub fn binding(&self) -> (r: Option<Token>)
        ensures
            r == first_of(self.tokens_in(KindClass::Exactly(SyntaxKind::Identifier))),
    {
        proof {
            use_type_invariant(self);
        }
        let toks = self.tree.child_tokens(self.node, KindClass::Exactly(SyntaxKind::Identifier));
        if toks.len() > 0 {
            Some(toks[0].duplicate())
        } else {
            None
        }
    }

    /// The iterated expression.
    pub fn iterable(&self) -> (r: Option<Expression<'a>>)
        ensures
            r matches Some(x) ==> (x.tree() == self.tree() && self.id() < x.id() && x.id() < self.tree().nodes@.len() && first_of(self.nodes_in(KindClass::Expression)) == Some(x.id())),
            r is None <==> first_of(self.nodes_in(KindClass::Expression)) is None,
    {
        proof {
            use_type_invariant(self);
        }
        let ids = self.tree.child_nodes(self.node, KindClass::Expression);
        if ids.len() > 0 {
            Expression::cast(self.tree, ids[0])
        } else {
            None
        }
    }

    /// The label: the first identifier token after a colon.
    pub fn label(&self) -> (r: Option<Token>)
        ensures
            r == label_after_colon(self.tree(), self.tree().children_of(self.id()), false),
    {
        proof {
            use_type_invariant(self);
        }
        let children = &self.tree.nodes[self.node].children;
        let ghost all = children@;
        let mut found = false;
        let mut i: usize = 0;
        assert(all.skip(0) =~= all);
        while i < children.len()
            invariant
                self.tree.wf(),
                self.node < self.tree.nodes@.len(),
                children@ == all,
                all == self.tree().children_of(self.id()),
                i <= all.len(),
                label_after_colon(self.tree(), all.skip(i as int), found) == label_after_colon(
                    self.tree(),
                    all,
                    false,
                ),
            decreases all.len() - i,
        {
            assert(all.skip(i as int).drop_first() =~= all.skip(i + 1));
            assert(all.skip(i as int)[0] == all[i as int]);
            match &children[i] {
                Element::Node(j) => {
                    let j = *j;
                    assert(self.tree.nodes@[self.node as int].children@[i as int] == Element::Node(j));
                    if self.tree.nodes[j].kind == SyntaxKind::Colon {
                        found = true;
                    }
                },
                Element::Token(t) => {
                    if t.kind == SyntaxKind::Colon {
                        found = true;
                    } else if found && t.kind == SyntaxKind::Identifier {
                        return Some(t.duplicate());
                    }
                },
            }
            i = i + 1;
        }
        assert(all.skip(i as int) =~= Seq::<Element>::empty());
        None
    }

    /// The body.
    pub fn body(&self) -> (r: Option<BlockExpression<'a>>)
        ensures
            r matches Some(x) ==> (x.tree() == self.tree() && self.id() < x.id() && x.id() < self.tree().nodes@.len() && first_of(self.nodes_in(KindClass::Exactly(SyntaxKind::BlockExpression))) == Some(x.id())),
            r is None <==> first_of(self.nodes_in(KindClass::Exactly(SyntaxKind::BlockExpression))) is None,
    {
        proof {
            use_type_invariant(self);
        }
        let ids = self.tree.child_nodes(self.node, KindClass::Exactly(SyntaxKind::BlockExpression));
        if ids.len() > 0 {
            BlockExpression::cast(self.tree, ids[0])
        } else {
            None
        }
    }

}

/// A range `start..end`.
#[derive(Clone, Copy)]
pub struct RangeExpression<'a> {
    tree: &'a SyntaxTree,
    node: usize,
}

impl<'a> RangeExpression<'a> {
    /// The tree is well formed and the node is one of its `RangeExpression` nodes.
    #[verifier::type_invariant]
    pub closed spec fn inv(self) -> bool {
        self.tree.wf() && self.node < self.tree.nodes@.len() && self.tree.kind_of(self.node)
            == SyntaxKind::RangeExpression
    }

    /// The tree the node belongs to.
    pub closed spec fn tree(self) -> SyntaxTree {
        *self.tree
    }

    /// The index of the node in its tree.
    pub closed spec fn id(self) -> usize {
        self.node
    }

    /// What the type invariant states.
    pub proof fn lemma_valid(self)
        requires
            self.inv(),
        ensures
            self.tree().wf(),
            self.id() < self.tree().nodes@.len(),
            self.tree().kind_of(self.id()) == SyntaxKind::RangeExpression,
    {
    }

    /// The child nodes whose kind is in `c`, in order.
    pub open spec fn nodes_in(self, c: KindClass) -> Seq<usize> {
        nodes_where(self.tree(), self.tree().children_of(self.id()), c)
    }

    /// The child tokens whose kind is in `c`, in order.
    pub open spec fn tokens_in(self, c: KindClass) -> Seq<Token> {
        tokens_where(self.tree().children_of(self.id()), c)
    }

    /// Whether a node of `kind` can be viewed as this type.
    pub fn can_cast(kind: SyntaxKind) -> (r: bool)
        ensures
            r == (kind == SyntaxKind::RangeExpression),
    {
        kind == SyntaxKind::RangeExpression
    }

    /// Node `node` of `tree` viewed as this type, when it has the right kind.
    pub fn cast(tree: &'a SyntaxTree, node: usize) -> (r: Option<RangeExpression<'a>>)
        requires
            tree.wf(),
            node < tree.nodes@.len(),
        ensures
            (r is Some) == (tree.kind_of(node) == SyntaxKind::RangeExpression),
            r matches Some(n) ==> n.tree() == *tree && n.id() == node,
    {
        if tree.nodes[node].kind == SyntaxKind::RangeExpression {
            Some(RangeExpression { tree, node })
        } else {
            None
        }
    }

    /// The index of the node in its tree.
    pub fn syntax(&self) -> (r: usize)
        ensures
            r == self.id(),
    {
        self.node
    }

    /// The tree the node belongs to.
    pub fn tree_ref(&self) -> (r: &'a SyntaxTree)
        ensures
            *r == self.tree(),
    {
        self.tree
    }

    /// The source range of the node.
    pub fn text_range(&self) -> (r: TextRange)
        ensures
            r == self.tree().nodes@[self.id() as int].range,
    {
        proof {
            use_type_invariant(self);
        }
        self.tree.nodes[self.node].range
    }

    /// The start: the first expression.
    pub fn start(&self) -> (r: Option<Expression<'a>>)
        ensures
            r matches Some(x) ==> (x.tree() == self.tree() && self.id() < x.id() && x.id() < self.tree().nodes@.len() && nth_of(self.nodes_in(KindClass::Expression), 0) == Some(x.id())),
            r is None <==> nth_of(self.nodes_in(KindClass::Expression), 0) is None,
    {
        proof {
            use_type_invariant(self);
        }
        let ids = self.tree.child_nodes(self.node, KindClass::Expression);
        if ids.len() > 0 {
            Expression::cast(self.tree, ids[0])
        } else {
            None
        }
    }

    /// The end: the second expression.
    pub fn end(&self) -> (r: Option<Expression<'a>>)
        ensures
            r matches Some(x) ==> (x.tree() == self.tree() && self.id() < x.id() && x.id() < self.tree().nodes@.len() && nth_of(self.nodes_in(KindClass::Expression), 1) == Some(x.id())),
            r is None <==> nth_of(self.nodes_in(KindClass::Expression), 1) is None,
    {
        proof {
            use_type_invariant(self);
        }
        let ids = self.tree.child_nodes(self.node, KindClass::Expression);
        if ids.len() > 1 {
            Expression::cast(self.tree, ids[1])
        } else {
            None
        }
    }

}

/// A `break` statement.
#[derive(Clone, Copy)]
pub struct BreakStatement<'a> {
    tree: &'a SyntaxTree,
    node: usize,
}

impl<'a> BreakStatement<'a> {
    /// The tree is well formed and the node is one of its `BreakStatement` nodes.
    #[verifier::type_invariant]
    pub closed spec fn inv(self) -> bool {
        self.tree.wf() && self.node < self.tree.nodes@.len() && self.tree.kind_of(self.node)
            == SyntaxKind::BreakStatement
    }

    /// The tree the node belongs to.
    pub closed spec fn tree(self) -> SyntaxTree {
        *self.tree
    }

    /// The index of the node in its tree.
    pub closed spec fn id(self) -> usize {
        self.node
    }

    /// What the type invariant states.
    pub proof fn lemma_valid(self)
        requires
            self.inv(),
        ensures
            self.tree().wf(),
            self.id() < self.tree().nodes@.len(),
            self.tree().kind_of(self.id()) == SyntaxKind::BreakStatement,
    {
    }

    /// The child nodes whose kind is in `c`, in order.
    pub open spec fn nodes_in(self, c: KindClass) -> Seq<usize> {
        nodes_where(self.tree(), self.tree().children_of(self.id()), c)
    }

    /// The child tokens whose kind is in `c`, in order.
    pub open spec fn tokens_in(self, c: KindClass) -> Seq<Token> {
        tokens_where(self.tree().children_of(self.id()), c)
    }

    /// Whether a node of `kind` can be viewed as this type.
    pub fn can_cast(kind: SyntaxKind) -> (r: bool)
        ensures
            r == (kind == SyntaxKind::BreakStatement),
    {
        kind == SyntaxKind::BreakStatement
    }

    /// Node `node` of `tree` viewed as this type, when it has the right kind.
    pub fn cast(tree: &'a SyntaxTree, node: usize) -> (r: Option<BreakStatement<'a>>)
        requires
            tree.wf(),
            node < tree.nodes@.len(),
        ensures
            (r is Some) == (tree.kind_of(node) == SyntaxKind::BreakStatement),
            r matches Some(n) ==> n.tree() == *tree && n.id() == node,
    {
        if tree.nodes[node].kind == SyntaxKind::BreakStatement {
            Some(BreakStatement { tree, node })
        } else {
            None
        }
    }

    /// The index of the node in its tree.
    pub fn syntax(&self) -> (r: usize)
        ensures
            r == self.id(),
    {
        self.node
    }

    /// The tree the node belongs to.
    pub fn tree_ref(&self) -> (r: &'a SyntaxTree)
        ensures
            *r == self.tree(),
    {
        self.tree
    }

    /// The source range of the node.
    pub fn text_range(&self) -> (r: TextRange)
        ensures
            r == self.tree().nodes@[self.id() as int].range,
    {
        proof {
            use_type_invariant(self);
        }
        self.tree.nodes[self.node].range
    }

    /// The label.
    pub fn label(&self) -> (r: Option<Token>)
        ensures
            r == first_of(self.tokens_in(KindClass::Exactly(SyntaxKind::Identifier))),
    {
        proof {
            use_type_invariant(self);
        }
        let toks = self.tree.child_tokens(self.node, KindClass::Exactly(SyntaxKind::Identifier));
        if toks.len() > 0 {
            Some(toks[0].duplicate())
        } else {
            None
        }
    }

}

/// A `continue` statement.
#[derive(Clone, Copy)]
pub struct ContinueStatement<'a> {
    tree: &'a SyntaxTree,
    node: usize,
}

impl<'a> ContinueStatement<'a> {
    /// The tree is well formed and the node is one of its `ContinueStatement` nodes.
    #[verifier::type_invariant]
    pub closed spec fn inv(self) -> bool {
        self.tree.wf() && self.node < self.tree.nodes@.len() && self.tree.kind_of(self.node)
            == SyntaxKind::ContinueStatement
    }

    /// The tree the node belongs to.
    pub closed spec fn tree(self) -> SyntaxTree {
        *self.tree
    }

    /// The index of the node in its tree.
    pub closed spec fn id(self) -> usize {
        self.node
    }

    /// What the type invariant states.
    pub proof fn lemma_valid(self)
        requires
            self.inv(),
        ensures
            self.tree().wf(),
            self.id() < self.tree().nodes@.len(),
            self.tree().kind_of(self.id()) == SyntaxKind::ContinueStatement,
    {
    }

    /// The child nodes whose kind is in `c`, in order.
    pub open spec fn nodes_in(self, c: KindClass) -> Seq<usize> {
        nodes_where(self.tree(), self.tree().children_of(self.id()), c)
    }

    /// The child tokens whose kind is in `c`, in order.
    pub open spec fn tokens_in(self, c: KindClass) -> Seq<Token> {
        tokens_where(self.tree().children_of(self.id()), c)
    }

    /// Whether a node of `kind` can be viewed as this type.
    pub fn can_cast(kind: SyntaxKind) -> (r: bool)
        ensures
            r == (kind == SyntaxKind::ContinueStatement),
    {
        kind == SyntaxKind::ContinueStatement
    }

    /// Node `node` of `tree` viewed as this type, when it has the right kind.
    pub fn cast(tree: &'a SyntaxTree, node: usize) -> (r: Option<ContinueStatement<'a>>)
        requires
            tree.wf(),
            node < tree.nodes@.len(),
        ensures
            (r is Some) == (tree.kind_of(node) == SyntaxKind::ContinueStatement),
            r matches Some(n) ==> n.tree() == *tree && n.id() == node,
    {
        if tree.nodes[node].kind == SyntaxKind::ContinueStatement {
            Some(ContinueStatement { tree, node })
        } else {
            None
        }
    }

    /// The index of the node in its tree.
    pub fn syntax(&self) -> (r: usize)
        ensures
            r == self.id(),
    {
        self.node
    }

    /// The tree the node belongs to.
    pub fn tree_ref(&self) -> (r: &'a SyntaxTree)
        ensures
            *r == self.tree(),
    {
        self.tree
    }

    /// The source range of the node.
    pub fn text_range(&self) -> (r: TextRange)
        ensures
            r == self.tree().nodes@[self.id() as int].range,
    {
        proof {
            use_type_invariant(self);
        }
        self.tree.nodes[self.node].range
    }

    /// The label.
    pub fn label(&self) -> (r: Option<Token>)
        ensures
            r == first_of(self.tokens_in(KindClass::Exactly(SyntaxKind::Identifier))),
    {
        proof {
            use_type_invariant(self);
        }
        let toks = self.tree.child_tokens(self.node, KindClass::Exactly(SyntaxKind::Identifier));
        if toks.len() > 0 {
            Some(toks[0].duplicate())
        } else {
            None
        }
    }

}

/// A list literal.
#[derive(Clone, Copy)]
pub struct ListExpression<'a> {
    tree: &'a SyntaxTree,
    node: usize,
}

impl<'a> ListExpression<'a> {
    /// The tree is well formed and the node is one of its `ListExpression` nodes.
    #[verifier::type_invariant]
    pub closed spec fn inv(self) -> bool {
        self.tree.wf() && self.node < self.tree.nodes@.len() && self.tree.kind_of(self.node)
            == SyntaxKind::ListExpression
    }

    /// The tree the node belongs to.
    pub closed spec fn tree(self) -> SyntaxTree {
        *self.tree
    }

    /// The index of the node in its tree.
    pub closed spec fn id(self) -> usize {
        self.node
    }

    /// What the type invariant states.
    pub proof fn lemma_valid(self)
        requires
            self.inv(),
        ensures
            self.tree().wf(),
            self.id() < self.tree().nodes@.len(),
            self.tree().kind_of(self.id()) == SyntaxKind::ListExpression,
    {
    }

    /// The child nodes whose kind is in `c`, in order.
    pub open spec fn nodes_in(self, c: KindClass) -> Seq<usize> {
        nodes_where(self.tree(), self.tree().children_of(self.id()), c)
    }

    /// The child tokens whose kind is in `c`, in order.
    pub open spec fn tokens_in(self, c: KindClass) -> Seq<Token> {
        tokens_where(self.tree().children_of(self.id()), c)
    }

    /// Whether a node of `kind` can be viewed as this type.
    pub fn can_cast(kind: SyntaxKind) -> (r: bool)
        ensures
            r == (kind == SyntaxKind::ListExpression),
    {
        kind == SyntaxKind::ListExpression
    }

    /// Node `node` of `tree` viewed as this type, when it has the right kind.
    pub fn cast(tree: &'a SyntaxTree, node: usize) -> (r: Option<ListExpression<'a>>)
        requires
            tree.wf(),
            node < tree.nodes@.len(),
        ensures
            (r is Some) == (tree.kind_of(node) == SyntaxKind::ListExpression),
            r matches Some(n) ==> n.tree() == *tree && n.id() == node,
    {
        if tree.nodes[node].kind == SyntaxKind::ListExpression {
            Some(ListExpression { tree, node })
        } else {
            None
        }
    }

    /// The index of the node in its tree.
    pub fn syntax(&self) -> (r: usize)
        ensures
            r == self.id(),
    {
        self.node
    }

    /// The tree the node belongs to.
    pub fn tree_ref(&self) -> (r: &'a SyntaxTree)
        ensures
            *r == self.tree(),
    {
        self.tree
    }

    /// The source range of the node.
    pub fn text_range(&self) -> (r: TextRange)
        ensures
            r == self.tree().nodes@[self.id() as int].range,
    {
        proof {
            use_type_invariant(self);
        }
        self.tree.nodes[self.node].range
    }

    /// The elements, in order.
    pub fn elements(&self) -> (r: Vec<Expression<'a>>)
        ensures
            r@.len() == self.nodes_in(KindClass::Expression).len(),
            forall|k: int| #![trigger r@[k]] 0 <= k < r@.len() ==> (r@[k].tree() == self.tree() && self.id() < r@[k].id() && r@[k].id() < self.tree().nodes@.len() && r@[k].id() == self.nodes_in(KindClass::Expression)[k]),
    {
        proof {
            use_type_invariant(self);
        }
        let ids = self.tree.child_nodes(self.node, KindClass::Expression);
        let mut out: Vec<Expression<'a>> = Vec::new();
        let mut i: usize = 0;
        while i < ids.len()
            invariant
                self.tree.wf(),
                self.node < self.tree.nodes@.len(),
                ids@ == self.nodes_in(KindClass::Expression),
                forall|k: int| 0 <= k < ids@.len() ==> self.node < #[trigger] ids@[k] < self.tree.nodes@.len(),
                forall|k: int| 0 <= k < ids@.len() ==> class_has(KindClass::Expression, self.tree.kind_of(#[trigger] ids@[k])),
                i <= ids@.len(),
                out@.len() == i,
                forall|k: int| #![trigger out@[k]] 0 <= k < i ==> (out@[k].tree() == self.tree() && self.id() < out@[k].id() && out@[k].id() < self.tree().nodes@.len() && out@[k].id() == ids@[k]),
            decreases ids@.len() - i,
        {
            let x = Expression::cast(self.tree, ids[i]).unwrap();
            let ghost old_out = out@;
            out.push(x);
            assert(out@[i as int] == x);
            assert(x.tree() == self.tree());
            assert(self.id() < x.id());
            assert(x.id() < self.tree().nodes@.len());
            assert(x.id() == ids@[i as int]);
            assert(forall|k: int| 0 <= k < i ==> out@[k] == old_out[k]);
            i = i + 1;
        }
        out
    }

}

/// An index expression `collection[index]`.
#[derive(Clone, Copy)]
pub struct IndexExpression<'a> {
    tree: &'a SyntaxTree,
    node: usize,
}

impl<'a> IndexExpression<'a> {
    /// The tree is well formed and the node is one of its `IndexExpression` nodes.
    #[verifier::type_invariant]
    pub closed spec fn inv(self) -> bool {
        self.tree.wf() && self.node < self.tree.nodes@.len() && self.tree.kind_of(self.node)
            == SyntaxKind::IndexExpression
    }

    /// The tree the node belongs to.
    pub closed spec fn tree(self) -> SyntaxTree {
        *self.tree
    }

    /// The index of the node in its tree.
    pub closed spec fn id(self) -> usize {
        self.node
    }

    /// What the type invariant states.
    pub proof fn lemma_valid(self)
        requires
            self.inv(),
        ensures
            self.tree().wf(),
            self.id() < self.tree().nodes@.len(),
            self.tree().kind_of(self.id()) == SyntaxKind::IndexExpression,
    {
    }

    /// The child nodes whose kind is in `c`, in order.
    pub open spec fn nodes_in(self, c: KindClass) -> Seq<usize> {
        nodes_where(self.tree(), self.tree().children_of(self.id()), c)
    }

    /// The child tokens whose kind is in `c`, in order.
    pub open spec fn tokens_in(self, c: KindClass) -> Seq<Token> {
        tokens_where(self.tree().children_of(self.id()), c)
    }

    /// Whether a node of `kind` can be viewed as this type.
    pub fn can_cast(kind: SyntaxKind) -> (r: bool)
        ensures
            r == (kind == SyntaxKind::IndexExpression),
    {
        kind == SyntaxKind::IndexExpression
    }

    /// Node `node` of `tree` viewed as this type, when it has the right kind.
    pub fn cast(tree: &'a SyntaxTree, node: usize) -> (r: Option<IndexExpression<'a>>)
        requires
            tree.wf(),
            node < tree.nodes@.len(),
        ensures
            (r is Some) == (tree.kind_of(node) == SyntaxKind::IndexExpression),
            r matches Some(n) ==> n.tree() == *tree && n.id() == node,
    {
        if tree.nodes[node].kind == SyntaxKind::IndexExpression {
            Some(IndexExpression { tree, node })
        } else {
            None
        }
    }

    /// The index of the node in its tree.
    pub fn syntax(&self) -> (r: usize)
        ensures
            r == self.id(),
    {
        self.node
    }

    /// The tree the node belongs to.
    pub fn tree_ref(&self) -> (r: &'a SyntaxTree)
        ensures
            *r == self.tree(),
    {
        self.tree
    }

    /// The source range of the node.
    pub fn text_range(&self) -> (r: TextRange)
        ensures
            r == self.tree().nodes@[self.id() as int].range,
    {
        proof {
            use_type_invariant(self);
        }
        self.tree.nodes[self.node].range
    }

    /// The indexed collection.
    pub fn collection(&self) -> (r: Option<Expression<'a>>)
        ensures
            r matches Some(x) ==> (x.tree() == self.tree() && self.id() < x.id() && x.id() < self.tree().nodes@.len() && first_of(self.nodes_in(KindClass::Expression)) == Some(x.id())),
            r is None <==> first_of(self.nodes_in(KindClass::Expression)) is None,
    {
        proof {
            use_type_invariant(self);
        }
        let ids = self.tree.child_nodes(self.node, KindClass::Expression);
        if ids.len() > 0 {
            Expression::cast(self.tree, ids[0])
        } else {
            None
        }
    }

    /// The index: the second expression.
    pub fn index(&self) -> (r: Option<Expression<'a>>)
        ensures
            r matches Some(x) ==> (x.tree() == self.tree() && self.id() < x.id() && x.id() < self.tree().nodes@.len() && nth_of(self.nodes_in(KindClass::Expression), 1) == Some(x.id())),
            r is None <==> nth_of(self.nodes_in(KindClass::Expression), 1) is None,
    {
        proof {
            use_type_invariant(self);
        }
        let ids = self.tree.child_nodes(self.node, KindClass::Expression);
        if ids.len() > 1 {
            Expression::cast(self.tree, ids[1])
        } else {
            None
        }
    }

}

/// A slice expression `collection[start..end]`.
#[derive(Clone, Copy)]
pub struct SliceExpression<'a> {
    tree: &'a SyntaxTree,
    node: usize,
}

impl<'a> SliceExpression<'a> {
    /// The tree is well formed and the node is one of its `SliceExpression` nodes.
    #[verifier::type_invariant]
    pub closed spec fn inv(self) -> bool {
        self.tree.wf() && self.node < self.tree.nodes@.len() && self.tree.kind_of(self.node)
            == SyntaxKind::SliceExpression
    }

    /// The tree the node belongs to.
    pub closed spec fn tree(self) -> SyntaxTree {
        *self.tree
    }

    /// The index of the node in its tree.
    pub closed spec fn id(self) -> usize {
        self.node
    }

    /// What the type invariant states.
    pub proof fn lemma_valid(self)
        requires
            self.inv(),
        ensures
            self.tree().wf(),
            self.id() < self.tree().nodes@.len(),
            self.tree().kind_of(self.id()) == SyntaxKind::SliceExpression,
    {
    }

    /// The child nodes whose kind is in `c`, in order.
    pub open spec fn nodes_in(self, c: KindClass) -> Seq<usize> {
        nodes_where(self.tree(), self.tree().children_of(self.id()), c)
    }

    /// The child tokens whose kind is in `c`, in order.
    pub open spec fn tokens_in(self, c: KindClass) -> Seq<Token> {
        tokens_where(self.tree().children_of(self.id()), c)
    }

    /// Whether a node of `kind` can be viewed as this type.
    pub fn can_cast(kind: SyntaxKind) -> (r: bool)
        ensures
            r == (kind == SyntaxKind::SliceExpression),
    {
        kind == SyntaxKind::SliceExpression
    }

    /// Node `node` of `tree` viewed as this type, when it has the right kind.
    pub fn cast(tree: &'a SyntaxTree, node: usize) -> (r: Option<SliceExpression<'a>>)
        requires
            tree.wf(),
            node < tree.nodes@.len(),
        ensures
            (r is Some) == (tree.kind_of(node) == SyntaxKind::SliceExpression),
            r matches Some(n) ==> n.tree() == *tree && n.id() == node,
    {
        if tree.nodes[node].kind == SyntaxKind::SliceExpression {
            Some(SliceExpression { tree, node })
        } else {
            None
        }
    }

    /// The index of the node in its tree.
    pub fn syntax(&self) -> (r: usize)
        ensures
            r == self.id(),
    {
        self.node
    }

    /// The tree the node belongs to.
    pub fn tree_ref(&self) -> (r: &'a SyntaxTree)
        ensures
            *r == self.tree(),
    {
        self.tree
    }

    /// The source range of the node.
    pub fn text_range(&self) -> (r: TextRange)
        ensures
            r == self.tree().nodes@[self.id() as int].range,
    {
        proof {
            use_type_invariant(self);
        }
        self.tree.nodes[self.node].range
    }

    /// The sliced collection.
    pub fn collection(&self) -> (r: Option<Expression<'a>>)
        ensures
            r matches Some(x) ==> (x.tree() == self.tree() && self.id() < x.id() && x.id() < self.tree().nodes@.len() && first_of(self.nodes_in(KindClass::Expression)) == Some(x.id())),
            r is None <==> first_of(self.nodes_in(KindClass::Expression)) is None,
    {
        proof {
            use_type_invariant(self);
        }
        let ids = self.tree.child_nodes(self.node, KindClass::Expression);
        if ids.len() > 0 {
            Expression::cast(self.tree, ids[0])
        } else {
            None
        }
    }

    /// The start: the second child node, when it comes before `..` (an expression, else nothing).
    pub fn start(&self) -> (r: Option<Expression<'a>>)
        ensures
            r matches Some(x) ==> (x.tree() == self.tree() && self.id() < x.id() && x.id() < self.tree().nodes@.len() && slice_start_node(
                self.tree().children_of(self.id()),
                false,
                true,
            ) == Some(x.id())),
            r is None <==> (slice_start_node(self.tree().children_of(self.id()), false, true) matches Some(
                j,
            ) ==> !is_expression_kind(self.tree().kind_of(j))),
    {
        proof {
            use_type_invariant(self);
        }
        let children = &self.tree.nodes[self.node].children;
        let ghost all = children@;
        let mut saw = false;
        let mut first = true;
        let mut i: usize = 0;
        assert(all.skip(0) =~= all);
        while i < children.len()
            invariant
                self.tree.wf(),
                self.node < self.tree.nodes@.len(),
                children@ == all,
                all == self.tree().children_of(self.id()),
                i <= all.len(),
                slice_start_node(all.skip(i as int), saw, first) == slice_start_node(all, false, true),
            decreases all.len() - i,
        {
            assert(all.skip(i as int).drop_first() =~= all.skip(i + 1));
            assert(all.skip(i as int)[0] == all[i as int]);
            match &children[i] {
                Element::Token(t) => {
                    if t.kind == SyntaxKind::DotDot {
                        saw = true;
                    }
                },
                Element::Node(j) => {
                    let j = *j;
                    assert(self.tree.nodes@[self.node as int].children@[i as int] == Element::Node(j));
                    if !saw {
                        if first {
                            first = false;
                        } else {
                            return Expression::cast(self.tree, j);
                        }
                    }
                },
            }
            i = i + 1;
        }
        assert(all.skip(i as int) =~= Seq::<Element>::empty());
        None
    }

    /// The end: the first child node after `..` (an expression, else nothing).
    pub fn end(&self) -> (r: Option<Expression<'a>>)
        ensures
            r matches Some(x) ==> (x.tree() == self.tree() && self.id() < x.id() && x.id() < self.tree().nodes@.len() && slice_end_node(
                self.tree().children_of(self.id()),
                false,
            ) == Some(x.id())),
            r is None <==> (slice_end_node(self.tree().children_of(self.id()), false) matches Some(j)
                ==> !is_expression_kind(self.tree().kind_of(j))),
    {
        proof {
            use_type_invariant(self);
        }
        let children = &self.tree.nodes[self.node].children;
        let ghost all = children@;
        let mut saw = false;
        let mut i: usize = 0;
        assert(all.skip(0) =~= all);
        while i < children.len()
            invariant
                self.tree.wf(),
                self.node < self.tree.nodes@.len(),
                children@ == all,
                all == self.tree().children_of(self.id()),
                i <= all.len(),
                slice_end_node(all.skip(i as int), saw) == slice_end_node(all, false),
            decreases all.len() - i,
        {
            assert(all.skip(i as int).drop_first() =~= all.skip(i + 1));
            assert(all.skip(i as int)[0] == all[i as int]);
            match &children[i] {
                Element::Token(t) => {
                    if t.kind == SyntaxKind::DotDot {
                        saw = true;
                    }
                },
                Element::Node(j) => {
                    let j = *j;
                    assert(self.tree.nodes@[self.node as int].children@[i as int] == Element::Node(j));
                    if saw {
                        return Expression::cast(self.tree, j);
                    }
                },
            }
            i = i + 1;
        }
        assert(all.skip(i as int) =~= Seq::<Element>::empty());
        None
    }

}

/// An assignment to an index or slice.
#[derive(Clone, Copy)]
pub struct IndexAssignment<'a> {
    tree: &'a SyntaxTree,
    node: usize,
}

impl<'a> IndexAssignment<'a> {
    /// The tree is well formed and the node is one of its `IndexAssignment` nodes.
    #[verifier::type_invariant]
    pub closed spec fn inv(self) -> bool {
        self.tree.wf() && self.node < self.tree.nodes@.len() && self.tree.kind_of(self.node)
            == SyntaxKind::IndexAssignment
    }

    /// The tree the node belongs to.
    pub closed spec fn tree(self) -> SyntaxTree {
        *self.tree
    }

    /// The index of the node in its tree.
    pub closed spec fn id(self) -> usize {
        self.node
    }

    /// What the type invariant states.
    pub proof fn lemma_valid(self)
        requires
            self.inv(),
        ensures
            self.tree().wf(),
            self.id() < self.tree().nodes@.len(),
            self.tree().kind_of(self.id()) == SyntaxKind::IndexAssignment,
    {
    }

    /// The child nodes whose kind is in `c`, in order.
    pub open spec fn nodes_in(self, c: KindClass) -> Seq<usize> {
        nodes_where(self.tree(), self.tree().children_of(self.id()), c)
    }

    /// The child tokens whose kind is in `c`, in order.
    pub open spec fn tokens_in(self, c: KindClass) -> Seq<Token> {
        tokens_where(self.tree().children_of(self.id()), c)
    }

    /// Whether a node of `kind` can be viewed as this type.
    pub fn can_cast(kind: SyntaxKind) -> (r: bool)
        ensures
            r == (kind == SyntaxKind::IndexAssignment),
    {
        kind == SyntaxKind::IndexAssignment
    }

    /// Node `node` of `tree` viewed as this type, when it has the right kind.
    pub fn cast(tree: &'a SyntaxTree, node: usize) -> (r: Option<IndexAssignment<'a>>)
        requires
            tree.wf(),
            node < tree.nodes@.len(),
        ensures
            (r is Some) == (tree.kind_of(node) == SyntaxKind::IndexAssignment),
            r matches Some(n) ==> n.tree() == *tree && n.id() == node,
    {
        if tree.nodes[node].kind == SyntaxKind::IndexAssignment {
            Some(IndexAssignment { tree, node })
        } else {
            None
        }
    }

    /// The index of the node in its tree.
    pub fn syntax(&self) -> (r: usize)
        ensures
            r == self.id(),
    {
        self.node
    }

    /// The tree the node belongs to.
    pub fn tree_ref(&self) -> (r: &'a SyntaxTree)
        ensures
            *r == self.tree(),
    {
        self.tree
    }

    /// The source range of the node.
    pub fn text_range(&self) -> (r: TextRange)
        ensures
            r == self.tree().nodes@[self.id() as int].range,
    {
        proof {
            use_type_invariant(self);
        }
        self.tree.nodes[self.node].range
    }

    /// The assigned index or slice.
    pub fn target(&self) -> (r: Option<Expression<'a>>)
        ensures
            r matches Some(x) ==> (x.tree() == self.tree() && self.id() < x.id() && x.id() < self.tree().nodes@.len() && first_of(self.nodes_in(KindClass::Expression)) == Some(x.id())),
            r is None <==> first_of(self.nodes_in(KindClass::Expression)) is None,
    {
        proof {
            use_type_invariant(self);
        }
        let ids = self.tree.child_nodes(self.node, KindClass::Expression);
        if ids.len() > 0 {
            Expression::cast(self.tree, ids[0])
        } else {
            None
        }
    }

    /// The assigned value: the second expression.
    pub fn value(&self) -> (r: Option<Expression<'a>>)
        ensures
            r matches Some(x) ==> (x.tree() == self.tree() && self.id() < x.id() && x.id() < self.tree().nodes@.len() && nth_of(self.nodes_in(KindClass::Expression), 1) == Some(x.id())),
            r is None <==> nth_of(self.nodes_in(KindClass::Expression), 1) is None,
    {
        proof {
            use_type_invariant(self);
        }
        let ids = self.tree.child_nodes(self.node, KindClass::Expression);
        if ids.len() > 1 {
            Expression::cast(self.tree, ids[1])
        } else {
            None
        }
    }

}

/// A list type such as `list[int]`.
#[derive(Clone, Copy)]
pub struct ListType<'a> {
    tree: &'a SyntaxTree,
    node: usize,
}

impl<'a> ListType<'a> {
    /// The tree is well formed and the node is one of its `ListType` nodes.
    #[verifier::type_invariant]
    pub closed spec fn inv(self) -> bool {
        self.tree.wf() && self.node < self.tree.nodes@.len() && self.tree.kind_of(self.node)
            == SyntaxKind::ListType
    }

    /// The tree the node belongs to.
    pub closed spec fn tree(self) -> SyntaxTree {
        *self.tree
    }

    /// The index of the node in its tree.
    pub closed spec fn id(self) -> usize {
        self.node
    }

    /// What the type invariant states.
    pub proof fn lemma_valid(self)
        requires
            self.inv(),
        ensures
            self.tree().wf(),
            self.id() < self.tree().nodes@.len(),
            self.tree().kind_of(self.id()) == SyntaxKind::ListType,
    {
    }

    /// The child nodes whose kind is in `c`, in order.
    pub open spec fn nodes_in(self, c: KindClass) -> Seq<usize> {
        nodes_where(self.tree(), self.tree().children_of(self.id()), c)
    }

    /// The child tokens whose kind is in `c`, in order.
    pub open spec fn tokens_in(self, c: KindClass) -> Seq<Token> {
        tokens_where(self.tree().children_of(self.id()), c)
    }

    /// Whether a node of `kind` can be viewed as this type.
    pub fn can_cast(kind: SyntaxKind) -> (r: bool)
        ensures
            r == (kind == SyntaxKind::ListType),
    {
        kind == SyntaxKind::ListType
    }

    /// Node `node` of `tree` viewed as this type, when it has the right kind.
    pub fn cast(tree: &'a SyntaxTree, node: usize) -> (r: Option<ListType<'a>>)
        requires
            tree.wf(),
            node < tree.nodes@.len(),
        ensures
            (r is Some) == (tree.kind_of(node) == SyntaxKind::ListType),
            r matches Some(n) ==> n.tree() == *tree && n.id() == node,
    {
        if tree.nodes[node].kind == SyntaxKind::ListType {
            Some(ListType { tree, node })
        } else {
            None
        }
    }

    /// The index of the node in its tree.
    pub fn syntax(&self) -> (r: usize)
        ensures
            r == self.id(),
    {
        self.node
    }

    /// The tree the node belongs to.
    pub fn tree_ref(&self) -> (r: &'a SyntaxTree)
        ensures
            *r == self.tree(),
    {
        self.tree
    }

    /// The source range of the node.
    pub fn text_range(&self) -> (r: TextRange)
        ensures
            r == self.tree().nodes@[self.id() as int].range,
    {
        proof {
            use_type_invariant(self);
        }
        self.tree.nodes[self.node].range
    }

    /// The element type.
    pub fn element_type(&self) -> (r: Option<TypeAnnotation<'a>>)
        ensures
            r matches Some(x) ==> (x.tree() == self.tree() && self.id() < x.id() && x.id() < self.tree().nodes@.len() && first_of(self.nodes_in(KindClass::Exactly(SyntaxKind::TypeAnnotation))) == Some(x.id())),
            r is None <==> first_of(self.nodes_in(KindClass::Exactly(SyntaxKind::TypeAnnotation))) is None,
    {
        proof {
            use_type_invariant(self);
        }
        let ids = self.tree.child_nodes(self.node, KindClass::Exactly(SyntaxKind::TypeAnnotation));
        if ids.len() > 0 {
            TypeAnnotation::cast(self.tree, ids[0])
        } else {
            None
        }
    }

    /// The nested list type.
    pub fn inner_list_type(&self) -> (r: Option<ListType<'a>>)
        ensures
            r matches Some(x) ==> (x.tree() == self.tree() && self.id() < x.id() && x.id() < self.tree().nodes@.len() && first_of(self.nodes_in(KindClass::Exactly(SyntaxKind::ListType))) == Some(x.id())),
            r is None <==> first_of(self.nodes_in(KindClass::Exactly(SyntaxKind::ListType))) is None,
    {
        proof {
            use_type_invariant(self);
        }
        let ids = self.tree.child_nodes(self.node, KindClass::Exactly(SyntaxKind::ListType));
        if ids.len() > 0 {
            ListType::cast(self.tree, ids[0])
        } else {
            None
        }
    }

}

/// A tuple literal.
#[derive(Clone, Copy)]
pub struct TupleExpression<'a> {
    tree: &'a SyntaxTree,
    node: usize,
}

impl<'a> TupleExpression<'a> {
    /// The tree is well formed and the node is one of its `TupleExpression` nodes.
    #[verifier::type_invariant]
    pub closed spec fn inv(self) -> bool {
        self.tree.wf() && self.node < self.tree.nodes@.len() && self.tree.kind_of(self.node)
            == SyntaxKind::TupleExpression
    }

    /// The tree the node belongs to.
    pub closed spec fn tree(self) -> SyntaxTree {
        *self.tree
    }

    /// The index of the node in its tree.
    pub closed spec fn id(self) -> usize {
        self.node
    }

    /// What the type invariant states.
    pub proof fn lemma_valid(self)
        requires
            self.inv(),
        ensures
            self.tree().wf(),
            self.id() < self.tree().nodes@.len(),
            self.tree().kind_of(self.id()) == SyntaxKind::TupleExpression,
    {
    }

    /// The child nodes whose kind is in `c`, in order.
    pub open spec fn nodes_in(self, c: KindClass) -> Seq<usize> {
        nodes_where(self.tree(), self.tree().children_of(self.id()), c)
    }

    /// The child tokens whose kind is in `c`, in order.
    pub open spec fn tokens_in(self, c: KindClass) -> Seq<Token> {
        tokens_where(self.tree().children_of(self.id()), c)
    }

    /// Whether a node of `kind` can be viewed as this type.
    pub fn can_cast(kind: SyntaxKind) -> (r: bool)
        ensures
            r == (kind == SyntaxKind::TupleExpression),
    {
        kind == SyntaxKind::TupleExpression
    }

    /// Node `node` of `tree` viewed as this type, when it has the right kind.
    pub fn cast(tree: &'a SyntaxTree, node: usize) -> (r: Option<TupleExpression<'a>>)
        requires
            tree.wf(),
            node < tree.nodes@.len(),
        ensures
            (r is Some) == (tree.kind_of(node) == SyntaxKind::TupleExpression),
            r matches Some(n) ==> n.tree() == *tree && n.id() == node,
    {
        if tree.nodes[node].kind == SyntaxKind::TupleExpression {
            Some(TupleExpression { tree, node })
        } else {
            None
        }
    }

    /// The index of the node in its tree.
    pub fn syntax(&self) -> (r: usize)
        ensures
            r == self.id(),
    {
        self.node
    }

    /// The tree the node belongs to.
    pub fn tree_ref(&self) -> (r: &'a SyntaxTree)
        ensures
            *r == self.tree(),
    {
        self.tree
    }

    /// The source range of the node.
    pub fn text_range(&self) -> (r: TextRange)
        ensures
            r == self.tree().nodes@[self.id() as int].range,
    {
        proof {
            use_type_invariant(self);
        }
        self.tree.nodes[self.node].range
    }

    /// The elements, in order.
    pub fn elements(&self) -> (r: Vec<Expression<'a>>)
        ensures
            r@.len() == self.nodes_in(KindClass::Expression).len(),
            forall|k: int| #![trigger r@[k]] 0 <= k < r@.len() ==> (r@[k].tree() == self.tree() && self.id() < r@[k].id() && r@[k].id() < self.tree().nodes@.len() && r@[k].id() == self.nodes_in(KindClass::Expression)[k]),
    {
        proof {
            use_type_invariant(self);
        }
        let ids = self.tree.child_nodes(self.node, KindClass::Expression);
        let mut out: Vec<Expression<'a>> = Vec::new();
        let mut i: usize = 0;
        while i < ids.len()
            invariant
                self.tree.wf(),
                self.node < self.tree.nodes@.len(),
                ids@ == self.nodes_in(KindClass::Expression),
                forall|k: int| 0 <= k < ids@.len() ==> self.node < #[trigger] ids@[k] < self.tree.nodes@.len(),
                forall|k: int| 0 <= k < ids@.len() ==> class_has(KindClass::Expression, self.tree.kind_of(#[trigger] ids@[k])),
                i <= ids@.len(),
                out@.len() == i,
                forall|k: int| #![trigger out@[k]] 0 <= k < i ==> (out@[k].tree() == self.tree() && self.id() < out@[k].id() && out@[k].id() < self.tree().nodes@.len() && out@[k].id() == ids@[k]),
            decreases ids@.len() - i,
        {
            let x = Expression::cast(self.tree, ids[i]).unwrap();
            let ghost old_out = out@;
            out.push(x);
            assert(out@[i as int] == x);
            assert(x.tree() == self.tree());
            assert(self.id() < x.id());
            assert(x.id() < self.tree().nodes@.len());
            assert(x.id() == ids@[i as int]);
            assert(forall|k: int| 0 <= k < i ==> out@[k] == old_out[k]);
            i = i + 1;
        }
        out
    }

}

/// A tuple field access `tuple.0`.
#[derive(Clone, Copy)]
pub struct TupleAccessExpression<'a> {
    tree: &'a SyntaxTree,
    node: usize,
}

impl<'a> TupleAccessExpression<'a> {
    /// The tree is well formed and the node is one of its `TupleAccessExpression` nodes.
    #[verifier::type_invariant]
    pub closed spec fn inv(self) -> bool {
        self.tree.wf() && self.node < self.tree.nodes@.len() && self.tree.kind_of(self.node)
            == SyntaxKind::TupleAccessExpression
    }

    /// The tree the node belongs to.
    pub closed spec fn tree(self) -> SyntaxTree {
        *self.tree
    }

    /// The index of the node in its tree.
    pub closed spec fn id(self) -> usize {
        self.node
    }

    /// What the type invariant states.
    pub proof fn lemma_valid(self)
        requires
            self.inv(),
        ensures
            self.tree().wf(),
            self.id() < self.tree().nodes@.len(),
            self.tree().kind_of(self.id()) == SyntaxKind::TupleAccessExpression,
    {
    }

    /// The child nodes whose kind is in `c`, in order.
    pub open spec fn nodes_in(self, c: KindClass) -> Seq<usize> {
        nodes_where(self.tree(), self.tree().children_of(self.id()), c)
    }

    /// The child tokens whose kind is in `c`, in order.
    pub open spec fn tokens_in(self, c: KindClass) -> Seq<Token> {
        tokens_where(self.tree().children_of(self.id()), c)
    }

    /// Whether a node of `kind` can be viewed as this type.
    pub fn can_cast(kind: SyntaxKind) -> (r: bool)
        ensures
            r == (kind == SyntaxKind::TupleAccessExpression),
    {
        kind == SyntaxKind::TupleAccessExpression
    }

    /// Node `node` of `tree` viewed as this type, when it has the right kind.
    pub fn cast(tree: &'a SyntaxTree, node: usize) -> (r: Option<TupleAccessExpression<'a>>)
        requires
            tree.wf(),
            node < tree.nodes@.len(),
        ensures
            (r is Some) == (tree.kind_of(node) == SyntaxKind::TupleAccessExpression),
            r matches Some(n) ==> n.tree() == *tree && n.id() == node,
    {
        if tree.nodes[node].kind == SyntaxKind::TupleAccessExpression {
            Some(TupleAccessExpression { tree, node })
        } else {
            None
        }
    }

    /// The index of the node in its tree.
    pub fn syntax(&self) -> (r: usize)
        ensures
            r == self.id(),
    {
        self.node
    }

    /// The tree the node belongs to.
    pub fn tree_ref(&self) -> (r: &'a SyntaxTree)
        ensures
            *r == self.tree(),
    {
        self.tree
    }

    /// The source range of the node.
    pub fn text_range(&self) -> (r: TextRange)
        ensures
            r == self.tree().nodes@[self.id() as int].range,
    {
        proof {
            use_type_invariant(self);
        }
        self.tree.nodes[self.node].range
    }

    /// The accessed tuple.
    pub fn tuple(&self) -> (r: Option<Expression<'a>>)
        ensures
            r matches Some(x) ==> (x.tree() == self.tree() && self.id() < x.id() && x.id() < self.tree().nodes@.len() && first_of(self.nodes_in(KindClass::Expression)) == Some(x.id())),
            r is None <==> first_of(self.nodes_in(KindClass::Expression)) is None,
    {
        proof {
            use_type_invariant(self);
        }
        let ids = self.tree.child_nodes(self.node, KindClass::Expression);
        if ids.len() > 0 {
            Expression::cast(self.tree, ids[0])
        } else {
            None
        }
    }

    /// The field number: the first integer token read as a `u32`.
    pub fn index(&self) -> (r: Option<u32>)
        ensures
            r matches Some(v) ==> (first_of(self.tokens_in(KindClass::Exactly(SyntaxKind::Integer))) matches Some(t)
                && spec_parse_unsigned(t.text@, 10, u32::MAX as nat) == Some(v as nat)),
            r is None <==> (first_of(self.tokens_in(KindClass::Exactly(SyntaxKind::Integer))) matches Some(t) ==> spec_parse_unsigned(
                t.text@,
                10,
                u32::MAX as nat,
            ) is None),
    {
        proof {
            use_type_invariant(self);
        }
        let toks = self.tree.child_tokens(self.node, KindClass::Exactly(SyntaxKind::Integer));
        if toks.len() == 0 {
            return None;
        }
        let chars = chars_of(toks[0].text.as_str());
        match parse_unsigned(&chars, 10, 0xFFFF_FFFF) {
            Some(v) => Some(v as u32),
            None => None,
        }
    }

}

/// An expression node.
#[derive(Clone, Copy)]
pub enum Expression<'a> {
    Infix(InfixExpression<'a>),
    Literal(Literal<'a>),
    Parenthesis(ParenthesisExpression<'a>),
    Prefix(PrefixExpression<'a>),
    VariableReference(VariableReference<'a>),
    Block(BlockExpression<'a>),
    If(IfExpression<'a>),
    Loop(LoopExpression<'a>),
    While(WhileExpression<'a>),
    For(ForExpression<'a>),
    Range(RangeExpression<'a>),
    Function(FunctionExpression<'a>),
    Call(CallExpression<'a>),
    List(ListExpression<'a>),
    Index(IndexExpression<'a>),
    Slice(SliceExpression<'a>),
    Tuple(TupleExpression<'a>),
    TupleAccess(TupleAccessExpression<'a>),
}

impl<'a> Expression<'a> {
    /// The index of the node in its tree.
    pub open spec fn id(self) -> usize {
        match self {
            Expression::Infix(n) => n.id(),
            Expression::Literal(n) => n.id(),
            Expression::Parenthesis(n) => n.id(),
            Expression::Prefix(n) => n.id(),
            Expression::VariableReference(n) => n.id(),
            Expression::Block(n) => n.id(),
            Expression::If(n) => n.id(),
            Expression::Loop(n) => n.id(),
            Expression::While(n) => n.id(),
            Expression::For(n) => n.id(),
            Expression::Range(n) => n.id(),
            Expression::Function(n) => n.id(),
            Expression::Call(n) => n.id(),
            Expression::List(n) => n.id(),
            Expression::Index(n) => n.id(),
            Expression::Slice(n) => n.id(),
            Expression::Tuple(n) => n.id(),
            Expression::TupleAccess(n) => n.id(),
        }
    }

    /// The tree the node belongs to.
    pub open spec fn tree(self) -> SyntaxTree {
        match self {
            Expression::Infix(n) => n.tree(),
            Expression::Literal(n) => n.tree(),
            Expression::Parenthesis(n) => n.tree(),
            Expression::Prefix(n) => n.tree(),
            Expression::VariableReference(n) => n.tree(),
            Expression::Block(n) => n.tree(),
            Expression::If(n) => n.tree(),
            Expression::Loop(n) => n.tree(),
            Expression::While(n) => n.tree(),
            Expression::For(n) => n.tree(),
            Expression::Range(n) => n.tree(),
            Expression::Function(n) => n.tree(),
            Expression::Call(n) => n.tree(),
            Expression::List(n) => n.tree(),
            Expression::Index(n) => n.tree(),
            Expression::Slice(n) => n.tree(),
            Expression::Tuple(n) => n.tree(),
            Expression::TupleAccess(n) => n.tree(),
        }
    }

    /// The syntax kind that the variant stands for.
    pub open spec fn variant_kind(self) -> SyntaxKind {
        match self {
            Expression::Infix(_) => SyntaxKind::InfixExpression,
            Expression::Literal(_) => SyntaxKind::Literal,
            Expression::Parenthesis(_) => SyntaxKind::ParenthesisExpression,
            Expression::Prefix(_) => SyntaxKind::PrefixExpression,
            Expression::VariableReference(_) => SyntaxKind::VariableReference,
            Expression::Block(_) => SyntaxKind::BlockExpression,
            Expression::If(_) => SyntaxKind::IfExpression,
            Expression::Loop(_) => SyntaxKind::LoopExpression,
            Expression::While(_) => SyntaxKind::WhileExpression,
            Expression::For(_) => SyntaxKind::ForExpression,
            Expression::Range(_) => SyntaxKind::RangeExpression,
            Expression::Function(_) => SyntaxKind::FunctionExpression,
            Expression::Call(_) => SyntaxKind::CallExpression,
            Expression::List(_) => SyntaxKind::ListExpression,
            Expression::Index(_) => SyntaxKind::IndexExpression,
            Expression::Slice(_) => SyntaxKind::SliceExpression,
            Expression::Tuple(_) => SyntaxKind::TupleExpression,
            Expression::TupleAccess(_) => SyntaxKind::TupleAccessExpression,
        }
    }

    /// The index of the node in its tree.
    pub fn syntax(&self) -> (r: usize)
        ensures
            r == self.id(),
    {
        match self {
            Expression::Infix(n) => n.syntax(),
            Expression::Literal(n) => n.syntax(),
            Expression::Parenthesis(n) => n.syntax(),
            Expression::Prefix(n) => n.syntax(),
            Expression::VariableReference(n) => n.syntax(),
            Expression::Block(n) => n.syntax(),
            Expression::If(n) => n.syntax(),
            Expression::Loop(n) => n.syntax(),
            Expression::While(n) => n.syntax(),
            Expression::For(n) => n.syntax(),
            Expression::Range(n) => n.syntax(),
            Expression::Function(n) => n.syntax(),
            Expression::Call(n) => n.syntax(),
            Expression::List(n) => n.syntax(),
            Expression::Index(n) => n.syntax(),
            Expression::Slice(n) => n.syntax(),
            Expression::Tuple(n) => n.syntax(),
            Expression::TupleAccess(n) => n.syntax(),
        }
    }

    /// The tree the node belongs to.
    pub fn tree_ref(&self) -> (r: &'a SyntaxTree)
        ensures
            *r == self.tree(),
    {
        match self {
            Expression::Infix(n) => n.tree_ref(),
            Expression::Literal(n) => n.tree_ref(),
            Expression::Parenthesis(n) => n.tree_ref(),
            Expression::Prefix(n) => n.tree_ref(),
            Expression::VariableReference(n) => n.tree_ref(),
            Expression::Block(n) => n.tree_ref(),
            Expression::If(n) => n.tree_ref(),
            Expression::Loop(n) => n.tree_ref(),
            Expression::While(n) => n.tree_ref(),
            Expression::For(n) => n.tree_ref(),
            Expression::Range(n) => n.tree_ref(),
            Expression::Function(n) => n.tree_ref(),
            Expression::Call(n) => n.tree_ref(),
            Expression::List(n) => n.tree_ref(),
            Expression::Index(n) => n.tree_ref(),
            Expression::Slice(n) => n.tree_ref(),
            Expression::Tuple(n) => n.tree_ref(),
            Expression::TupleAccess(n) => n.tree_ref(),
        }
    }

    /// The source range of the node.
    pub fn text_range(&self) -> (r: TextRange)
        ensures
            r == self.tree().nodes@[self.id() as int].range,
    {
        match self {
            Expression::Infix(n) => n.text_range(),
            Expression::Literal(n) => n.text_range(),
            Expression::Parenthesis(n) => n.text_range(),
            Expression::Prefix(n) => n.text_range(),
            Expression::VariableReference(n) => n.text_range(),
            Expression::Block(n) => n.text_range(),
            Expression::If(n) => n.text_range(),
            Expression::Loop(n) => n.text_range(),
            Expression::While(n) => n.text_range(),
            Expression::For(n) => n.text_range(),
            Expression::Range(n) => n.text_range(),
            Expression::Function(n) => n.text_range(),
            Expression::Call(n) => n.text_range(),
            Expression::List(n) => n.text_range(),
            Expression::Index(n) => n.text_range(),
            Expression::Slice(n) => n.text_range(),
            Expression::Tuple(n) => n.text_range(),
            Expression::TupleAccess(n) => n.text_range(),
        }
    }

    /// The tree is well formed, the node lies in it and has the kind of the
    /// variant.
    pub fn check_valid(&self)
        ensures
            self.tree().wf(),
            self.id() < self.tree().nodes@.len(),
            self.tree().kind_of(self.id()) == self.variant_kind(),
    {
        match self {
            Expression::Infix(n) => proof {
                use_type_invariant(n);
                n.lemma_valid();
            },
            Expression::Literal(n) => proof {
                use_type_invariant(n);
                n.lemma_valid();
            },
            Expression::Parenthesis(n) => proof {
                use_type_invariant(n);
                n.lemma_valid();
            },
            Expression::Prefix(n) => proof {
                use_type_invariant(n);
                n.lemma_valid();
            },
            Expression::VariableReference(n) => proof {
                use_type_invariant(n);
                n.lemma_valid();
            },
            Expression::Block(n) => proof {
                use_type_invariant(n);
                n.lemma_valid();
            },
            Expression::If(n) => proof {
                use_type_invariant(n);
                n.lemma_valid();
            },
            Expression::Loop(n) => proof {
                use_type_invariant(n);
                n.lemma_valid();
            },
            Expression::While(n) => proof {
                use_type_invariant(n);
                n.lemma_valid();
            },
            Expression::For(n) => proof {
                use_type_invariant(n);
                n.lemma_valid();
            },
            Expression::Range(n) => proof {
                use_type_invariant(n);
                n.lemma_valid();
            },
            Expression::Function(n) => proof {
                use_type_invariant(n);
                n.lemma_valid();
            },
            Expression::Call(n) => proof {
                use_type_invariant(n);
                n.lemma_valid();
            },
            Expression::List(n) => proof {
                use_type_invariant(n);
                n.lemma_valid();
            },
            Expression::Index(n) => proof {
                use_type_invariant(n);
                n.lemma_valid();
            },
            Expression::Slice(n) => proof {
                use_type_invariant(n);
                n.lemma_valid();
            },
            Expression::Tuple(n) => proof {
                use_type_invariant(n);
                n.lemma_valid();
            },
            Expression::TupleAccess(n) => proof {
                use_type_invariant(n);
                n.lemma_valid();
            },
        }
    }

    /// Whether a node of `kind` is an expression.
    pub fn can_cast(kind: SyntaxKind) -> (r: bool)
        ensures
            r == is_expression_kind(kind),
    {
        crate::cst::is_expression_node_kind(kind)
    }

    /// Node `node` of `tree` viewed as an expression, when it is one.
    pub fn cast(tree: &'a SyntaxTree, node: usize) -> (r: Option<Expression<'a>>)
        requires
            tree.wf(),
            node < tree.nodes@.len(),
        ensures
            (r is Some) == is_expression_kind(tree.kind_of(node)),
            r matches Some(e) ==> e.tree() == *tree && e.id() == node && e.variant_kind()
                == tree.kind_of(node),
    {
        match tree.nodes[node].kind {
            SyntaxKind::InfixExpression => Some(Expression::Infix(InfixExpression::cast(tree, node).unwrap())),
            SyntaxKind::Literal => Some(Expression::Literal(Literal::cast(tree, node).unwrap())),
            SyntaxKind::ParenthesisExpression => Some(Expression::Parenthesis(ParenthesisExpression::cast(tree, node).unwrap())),
            SyntaxKind::PrefixExpression => Some(Expression::Prefix(PrefixExpression::cast(tree, node).unwrap())),
            SyntaxKind::VariableReference => Some(Expression::VariableReference(VariableReference::cast(tree, node).unwrap())),
            SyntaxKind::BlockExpression => Some(Expression::Block(BlockExpression::cast(tree, node).unwrap())),
            SyntaxKind::IfExpression => Some(Expression::If(IfExpression::cast(tree, node).unwrap())),
            SyntaxKind::LoopExpression => Some(Expression::Loop(LoopExpression::cast(tree, node).unwrap())),
            SyntaxKind::WhileExpression => Some(Expression::While(WhileExpression::cast(tree, node).unwrap())),
            SyntaxKind::ForExpression => Some(Expression::For(ForExpression::cast(tree, node).unwrap())),
            SyntaxKind::RangeExpression => Some(Expression::Range(RangeExpression::cast(tree, node).unwrap())),
            SyntaxKind::FunctionExpression => Some(Expression::Function(FunctionExpression::cast(tree, node).unwrap())),
            SyntaxKind::CallExpression => Some(Expression::Call(CallExpression::cast(tree, node).unwrap())),
            SyntaxKind::ListExpression => Some(Expression::List(ListExpression::cast(tree, node).unwrap())),
            SyntaxKind::IndexExpression => Some(Expression::Index(IndexExpression::cast(tree, node).unwrap())),
            SyntaxKind::SliceExpression => Some(Expression::Slice(SliceExpression::cast(tree, node).unwrap())),
            SyntaxKind::TupleExpression => Some(Expression::Tuple(TupleExpression::cast(tree, node).unwrap())),
            SyntaxKind::TupleAccessExpression => Some(Expression::TupleAccess(TupleAccessExpression::cast(tree, node).unwrap())),
            _ => None,
        }
    }
}

/// An item of a file or block: a statement or an expression.
#[derive(Clone, Copy)]
pub enum Item<'a> {
    UseStatement(UseStatement<'a>),
    FunctionDefinition(FunctionDefinition<'a>),
    VariableDefinition(VariableDefinition<'a>),
    VariableAssignment(VariableAssignment<'a>),
    IndexAssignment(IndexAssignment<'a>),
    ReturnStatement(ReturnStatement<'a>),
    EchoStatement(EchoStatement<'a>),
    BreakStatement(BreakStatement<'a>),
    ContinueStatement(ContinueStatement<'a>),
    Expression(Expression<'a>),
}

impl<'a> Item<'a> {
    /// The index of the node in its tree.
    pub open spec fn id(self) -> usize {
        match self {
            Item::UseStatement(n) => n.id(),
            Item::FunctionDefinition(n) => n.id(),
            Item::VariableDefinition(n) => n.id(),
            Item::VariableAssignment(n) => n.id(),
            Item::IndexAssignment(n) => n.id(),
            Item::ReturnStatement(n) => n.id(),
            Item::EchoStatement(n) => n.id(),
            Item::BreakStatement(n) => n.id(),
            Item::ContinueStatement(n) => n.id(),
            Item::Expression(n) => n.id(),
        }
    }

    /// The tree the node belongs to.
    pub open spec fn tree(self) -> SyntaxTree {
        match self {
            Item::UseStatement(n) => n.tree(),
            Item::FunctionDefinition(n) => n.tree(),
            Item::VariableDefinition(n) => n.tree(),
            Item::VariableAssignment(n) => n.tree(),
            Item::IndexAssignment(n) => n.tree(),
            Item::ReturnStatement(n) => n.tree(),
            Item::EchoStatement(n) => n.tree(),
            Item::BreakStatement(n) => n.tree(),
            Item::ContinueStatement(n) => n.tree(),
            Item::Expression(n) => n.tree(),
        }
    }

    /// The syntax kind that the variant stands for.
    pub open spec fn variant_kind(self) -> SyntaxKind {
        match self {
            Item::UseStatement(_) => SyntaxKind::UseStatement,
            Item::FunctionDefinition(_) => SyntaxKind::FunctionDefinition,
            Item::VariableDefinition(_) => SyntaxKind::VariableDefinition,
            Item::VariableAssignment(_) => SyntaxKind::VariableAssignment,
            Item::IndexAssignment(_) => SyntaxKind::IndexAssignment,
            Item::ReturnStatement(_) => SyntaxKind::ReturnStatement,
            Item::EchoStatement(_) => SyntaxKind::EchoStatement,
            Item::BreakStatement(_) => SyntaxKind::BreakStatement,
            Item::ContinueStatement(_) => SyntaxKind::ContinueStatement,
            Item::Expression(n) => n.variant_kind(),
        }
    }

    /// The index of the node in its tree.
    pub fn syntax(&self) -> (r: usize)
        ensures
            r == self.id(),
    {
        match self {
            Item::UseStatement(n) => n.syntax(),
            Item::FunctionDefinition(n) => n.syntax(),
            Item::VariableDefinition(n) => n.syntax(),
            Item::VariableAssignment(n) => n.syntax(),
            Item::IndexAssignment(n) => n.syntax(),
            Item::ReturnStatement(n) => n.syntax(),
            Item::EchoStatement(n) => n.syntax(),
            Item::BreakStatement(n) => n.syntax(),
            Item::ContinueStatement(n) => n.syntax(),
            Item::Expression(n) => n.syntax(),
        }
    }

    /// The tree the node belongs to.
    pub fn tree_ref(&self) -> (r: &'a SyntaxTree)
        ensures
            *r == self.tree(),
    {
        match self {
            Item::UseStatement(n) => n.tree_ref(),
            Item::FunctionDefinition(n) => n.tree_ref(),
            Item::VariableDefinition(n) => n.tree_ref(),
            Item::VariableAssignment(n) => n.tree_ref(),
            Item::IndexAssignment(n) => n.tree_ref(),
            Item::ReturnStatement(n) => n.tree_ref(),
            Item::EchoStatement(n) => n.tree_ref(),
            Item::BreakStatement(n) => n.tree_ref(),
            Item::ContinueStatement(n) => n.tree_ref(),
            Item::Expression(n) => n.tree_ref(),
        }
    }

    /// The source range of the node.
    pub fn text_range(&self) -> (r: TextRange)
        ensures
            r == self.tree().nodes@[self.id() as int].range,
    {
        match self {
            Item::UseStatement(n) => n.text_range(),
            Item::FunctionDefinition(n) => n.text_range(),
            Item::VariableDefinition(n) => n.text_range(),
            Item::VariableAssignment(n) => n.text_range(),
            Item::IndexAssignment(n) => n.text_range(),
            Item::ReturnStatement(n) => n.text_range(),
            Item::EchoStatement(n) => n.text_range(),
            Item::BreakStatement(n) => n.text_range(),
            Item::ContinueStatement(n) => n.text_range(),
            Item::Expression(n) => n.text_range(),
        }
    }

    /// The tree is well formed, the node lies in it and has the kind of the
    /// variant.
    pub fn check_valid(&self)
        ensures
            self.tree().wf(),
            self.id() < self.tree().nodes@.len(),
            self.tree().kind_of(self.id()) == self.variant_kind(),
    {
        match self {
            Item::UseStatement(n) => proof {
                use_type_invariant(n);
                n.lemma_valid();
            },
            Item::FunctionDefinition(n) => proof {
                use_type_invariant(n);
                n.lemma_valid();
            },
            Item::VariableDefinition(n) => proof {
                use_type_invariant(n);
                n.lemma_valid();
            },
            Item::VariableAssignment(n) => proof {
                use_type_invariant(n);
                n.lemma_valid();
            },
            Item::IndexAssignment(n) => proof {
                use_type_invariant(n);
                n.lemma_valid();
            },
            Item::ReturnStatement(n) => proof {
                use_type_invariant(n);
                n.lemma_valid();
            },
            Item::EchoStatement(n) => proof {
                use_type_invariant(n);
                n.lemma_valid();
            },
            Item::BreakStatement(n) => proof {
                use_type_invariant(n);
                n.lemma_valid();
            },
            Item::ContinueStatement(n) => proof {
                use_type_invariant(n);
                n.lemma_valid();
            },
            Item::Expression(n) => n.check_valid(),
        }
    }

    /// Whether a node of `kind` is an item.
    pub fn can_cast(kind: SyntaxKind) -> (r: bool)
        ensures
            r == is_item_kind(kind),
    {
        crate::cst::class_contains(KindClass::Item, kind)
    }

    /// Node `node` of `tree` viewed as an item, when it is one.
    pub fn cast(tree: &'a SyntaxTree, node: usize) -> (r: Option<Item<'a>>)
        requires
            tree.wf(),
            node < tree.nodes@.len(),
        ensures
            (r is Some) == is_item_kind(tree.kind_of(node)),
            r matches Some(e) ==> e.tree() == *tree && e.id() == node && e.variant_kind()
                == tree.kind_of(node),
    {
        match tree.nodes[node].kind {
            SyntaxKind::UseStatement => Some(Item::UseStatement(UseStatement::cast(tree, node).unwrap())),
            SyntaxKind::FunctionDefinition => Some(Item::FunctionDefinition(FunctionDefinition::cast(tree, node).unwrap())),
            SyntaxKind::VariableDefinition => Some(Item::VariableDefinition(VariableDefinition::cast(tree, node).unwrap())),
            SyntaxKind::VariableAssignment => Some(Item::VariableAssignment(VariableAssignment::cast(tree, node).unwrap())),
            SyntaxKind::IndexAssignment => Some(Item::IndexAssignment(IndexAssignment::cast(tree, node).unwrap())),
            SyntaxKind::ReturnStatement => Some(Item::ReturnStatement(ReturnStatement::cast(tree, node).unwrap())),
            SyntaxKind::EchoStatement => Some(Item::EchoStatement(EchoStatement::cast(tree, node).unwrap())),
            SyntaxKind::BreakStatement => Some(Item::BreakStatement(BreakStatement::cast(tree, node).unwrap())),
            SyntaxKind::ContinueStatement => Some(Item::ContinueStatement(ContinueStatement::cast(tree, node).unwrap())),
            _ => match Expression::cast(tree, node) {
                Some(e) => Some(Item::Expression(e)),
                None => None,
            },
        }
    }
}

/// The else branch of an `if`: a block, or another `if`.
#[derive(Clone, Copy)]
pub enum ElseBranch<'a> {
    Block(BlockExpression<'a>),
    ElseIf(IfExpression<'a>),
}

impl<'a> ElseBranch<'a> {
    /// The index of the node in its tree.
    pub open spec fn id(self) -> usize {
        match self {
            ElseBranch::Block(n) => n.id(),
            ElseBranch::ElseIf(n) => n.id(),
        }
    }

    /// The tree the node belongs to.
    pub open spec fn tree(self) -> SyntaxTree {
        match self {
            ElseBranch::Block(n) => n.tree(),
            ElseBranch::ElseIf(n) => n.tree(),
        }
    }

    /// The syntax kind that the variant stands for.
    pub open spec fn variant_kind(self) -> SyntaxKind {
        match self {
            ElseBranch::Block(_) => SyntaxKind::BlockExpression,
            ElseBranch::ElseIf(_) => SyntaxKind::IfExpression,
        }
    }

    /// The index of the node in its tree.
    pub fn syntax(&self) -> (r: usize)
        ensures
            r == self.id(),
    {
        match self {
            ElseBranch::Block(n) => n.syntax(),
            ElseBranch::ElseIf(n) => n.syntax(),
        }
    }

    /// The tree the node belongs to.
    pub fn tree_ref(&self) -> (r: &'a SyntaxTree)
        ensures
            *r == self.tree(),
    {
        match self {
            ElseBranch::Block(n) => n.tree_ref(),
            ElseBranch::ElseIf(n) => n.tree_ref(),
        }
    }

    /// The source range of the node.
    pub fn text_range(&self) -> (r: TextRange)
        ensures
            r == self.tree().nodes@[self.id() as int].range,
    {
        match self {
            ElseBranch::Block(n) => n.text_range(),
            ElseBranch::ElseIf(n) => n.text_range(),
        }
    }

    /// The tree is well formed, the node lies in it and has the kind of the
    /// variant.
    pub fn check_valid(&self)
        ensures
            self.tree().wf(),
            self.id() < self.tree().nodes@.len(),
            self.tree().kind_of(self.id()) == self.variant_kind(),
    {
        match self {
            ElseBranch::Block(n) => proof {
                use_type_invariant(n);
                n.lemma_valid();
            },
            ElseBranch::ElseIf(n) => proof {
                use_type_invariant(n);
                n.lemma_valid();
            },
        }
    }

    /// Whether the branch is a block.
    pub open spec fn is_block(self) -> bool {
        self is Block
    }
}

} // verus!
